use vstd::prelude::*;

verus! {

/// The 9-bit index that a virtual address selects in the table of the
/// level whose entries each cover `1 << shift` bytes.
pub open spec fn index_at(addr: u64, shift: u64) -> u64 {
    (addr >> shift) & 0x1ff
}

/// Every level index fits in 9 bits.
pub proof fn lemma_index_bound(addr: u64, shift: u64)
    ensures
        index_at(addr, shift) < 512,
{
    assert((addr >> shift) & 0x1ff < 512) by (bit_vector);
}

/// A virtual memory page: a region of virtual memory 4096 bytes in size,
/// named by its (nonzero, 4096-aligned) virtual address.
#[derive(Debug, Clone, Copy, PartialEq, Eq, Structural)]
pub struct Page {
    addr: u64,
}

impl View for Page {
    type V = u64;

    closed spec fn view(&self) -> u64 {
        self.addr
    }
}

impl Page {
    /// The number of bytes that a page spans.
    pub const SIZE: u64 = 0x1000;

    #[verifier::type_invariant]
    spec fn inv(self) -> bool {
        self.addr != 0 && self.addr % 4096 == 0
    }

    /// Creates the virtual page containing `addr`, which must lie beyond the
    /// first page.
    pub fn containing_addr(addr: u64) -> (r: Page)
        requires
            addr >= 0x1000,
        ensures
            r@ == addr - addr % 4096,
    {
        let base = addr - addr % 0x1000;
        Page { addr: base }
    }

    /// Returns the virtual address of this page.
    pub fn addr(&self) -> (r: u64)
        ensures
            r == self@,
            r != 0,
            r % 4096 == 0,
    {
        proof {
            use_type_invariant(self);
        }
        self.addr
    }

    /// Returns the 9-bit page-map level 4 index for this page.
    pub fn pml4_index(&self) -> (r: usize)
        ensures
            r == index_at(self@, 39),
            r < 512,
    {
        let a = self.addr;
        let i = (a >> 39) & 0o777;
        assert(i < 512) by (bit_vector)
            requires i == (a >> 39u64) & 0o777u64;
        i as usize
    }

    /// Returns the 9-bit page directory pointer table index for this page.
    pub fn pdpt_index(&self) -> (r: usize)
        ensures
            r == index_at(self@, 30),
            r < 512,
    {
        let a = self.addr;
        let i = (a >> 30) & 0o777;
        assert(i < 512) by (bit_vector)
            requires i == (a >> 30u64) & 0o777u64;
        i as usize
    }

    /// Returns the 9-bit page directory table index for this page.
    pub fn pdt_index(&self) -> (r: usize)
        ensures
            r == index_at(self@, 21),
            r < 512,
    {
        let a = self.addr;
        let i = (a >> 21) & 0o777;
        assert(i < 512) by (bit_vector)
            requires i == (a >> 21u64) & 0o777u64;
        i as usize
    }

    /// Returns the 9-bit page table index for this page.
    pub fn pt_index(&self) -> (r: usize)
        ensures
            r == index_at(self@, 12),
            r < 512,
    {
        let a = self.addr;
        let i = (a >> 12) & 0o777;
        assert(i < 512) by (bit_vector)
            requires i == (a >> 12u64) & 0o777u64;
        i as usize
    }
}

/// Splitting a page-aligned address of the 48-bit virtual address space into
/// its four level indices and its in-page offset, and shifting them back into
/// place, gives the address back.
pub proof fn lemma_indices_recombine(addr: u64)
    requires
        addr % 4096 == 0,
        addr < 0x1_0000_0000_0000,
    ensures
        (index_at(addr, 39) << 39) | (index_at(addr, 30) << 30) | (index_at(addr, 21) << 21)
            | (index_at(addr, 12) << 12) | (addr & 0xfff) == addr,
        addr & 0xfff == 0,
{
    assert(addr & 0xfff == addr % 4096) by (bit_vector);
    assert(((addr >> 39) & 0x1ff) << 39 | ((addr >> 30) & 0x1ff) << 30 | ((addr >> 21) & 0x1ff)
        << 21 | ((addr >> 12) & 0x1ff) << 12 | (addr & 0xfff) == addr) by (bit_vector)
        requires
            addr < 0x1_0000_0000_0000u64,
    ;
}

} // verus!
