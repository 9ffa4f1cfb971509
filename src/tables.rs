use vstd::prelude::*;

use crate::allocator::{fresh_frame, lemma_alloc_uses_one, lemma_not_exhausted, PhysicalFrameAllocator};
use crate::frame::Frame;
use crate::page::{index_at, lemma_index_bound, Page};

verus! {

/// The bits of an entry that hold a frame's physical address.
pub const ADDRESS_MASK: u64 = 0xf_ffff_ffff_f000;

/// The bits of an entry that hold a flag this library knows.
pub const FLAGS_MASK: u64 = 0b10_0001_1111;

/// A set of page table entry flags, in the processor's bit layout.
#[derive(Debug, Clone, Copy, PartialEq, Eq, Structural)]
pub struct PageEntryFlags {
    bits: u64,
}

impl View for PageEntryFlags {
    type V = u64;

    closed spec fn view(&self) -> u64 {
        self.bits
    }
}

impl PageEntryFlags {
    /// The bit of an entry that is set when the entry is present.
    pub const PRESENT: u64 = 1;

    /// The bit that makes the entry writable.
    pub const WRITABLE: u64 = 2;

    /// The bit that makes the entry accessible from user mode.
    pub const USER_ACCESSIBLE: u64 = 4;

    /// The bit that gives the entry a write-through caching policy.
    pub const WRITETHROUGH: u64 = 8;

    /// The bit that makes the entry cacheable.
    pub const CACHEABLE: u64 = 16;

    /// The bit that marks the entry's frame as shared: its lifetime is managed elsewhere, and
    /// tearing down an address space does not release it.
    pub const SHARED: u64 = 512;

    #[verifier::type_invariant]
    spec fn inv(self) -> bool {
        self.bits & 0xffff_ffff_ffff_fde0 == 0
    }

    /// Creates an empty set of flags.
    pub fn none() -> (r: PageEntryFlags)
        ensures
            r@ == 0,
    {
        assert(0u64 & 0xffff_ffff_ffff_fde0 == 0) by (bit_vector);
        PageEntryFlags { bits: 0 }
    }

    /// Creates a set of flags from an entry's bits; bits that name no flag
    /// are dropped.
    pub fn from_bits(bits: u64) -> (r: PageEntryFlags)
        ensures
            r@ == bits & FLAGS_MASK,
    {
        let masked = bits & FLAGS_MASK;
        assert(masked & 0xffff_ffff_ffff_fde0 == 0) by (bit_vector)
            requires
                masked == bits & 0x21fu64,
        ;
        PageEntryFlags { bits: masked }
    }

    /// Checks whether every flag of `flags` is in this set.
    pub fn contains(&self, flags: PageEntryFlags) -> (r: bool)
        ensures
            r == (self@ & flags@ == flags@),
    {
        self.bits & flags.bits == flags.bits
    }
}

/// Whether an entry's present bit is set.
pub open spec fn word_present(w: u64) -> bool {
    w & 1 == 1
}

/// Whether an entry's shared bit is set.
pub open spec fn word_shared(w: u64) -> bool {
    w & 0x200 == 0x200
}

/// The physical address held by an entry.
pub open spec fn word_addr(w: u64) -> u64 {
    w & 0xf_ffff_ffff_f000
}

/// The frame that an entry maps, if it is present.
pub open spec fn word_frame(w: u64) -> Option<u64> {
    if word_present(w) && word_addr(w) != 0 {
        Some(word_addr(w))
    } else {
        None
    }
}

/// The frame that an entry holds, present or not.
pub open spec fn word_target(w: u64) -> Option<u64> {
    if word_addr(w) != 0 {
        Some(word_addr(w))
    } else {
        None
    }
}

/// The entry that holds `frame` (address zero if none) with flags `flags`.
pub open spec fn new_word(frame: Option<Frame>, flags: u64) -> u64 {
    (match frame {
        Some(f) => f@,
        None => 0,
    }) | flags
}

/// The addresses of an optional frame.
pub open spec fn frame_view(frame: Option<Frame>) -> Option<u64> {
    match frame {
        Some(f) => Some(f@),
        None => None,
    }
}

/// Whether a frame fits the address bits of an entry.
pub open spec fn fits_entry(frame: Option<Frame>) -> bool {
    frame matches Some(f) ==> f@ < 0x10_0000_0000_0000
}

/// One of the four levels of the paging hierarchy, from the root table
/// (`Level4`) down to the tables whose entries map pages (`Level1`).
#[derive(Debug, Clone, Copy, PartialEq, Eq, Structural)]
pub enum PageLevel {
    Level4,
    Level3,
    Level2,
    Level1,
}

impl PageLevel {
    /// The shift that selects this level's index from a virtual address.
    pub open spec fn shift(self) -> u64 {
        match self {
            PageLevel::Level4 => 39,
            PageLevel::Level3 => 30,
            PageLevel::Level2 => 21,
            PageLevel::Level1 => 12,
        }
    }

    /// The number of levels from this one down to the bottom, inclusive.
    pub open spec fn depth(self) -> nat {
        match self {
            PageLevel::Level4 => 4,
            PageLevel::Level3 => 3,
            PageLevel::Level2 => 2,
            PageLevel::Level1 => 1,
        }
    }

    /// The level of the tables that this level's entries point at.
    pub open spec fn below(self) -> PageLevel {
        match self {
            PageLevel::Level4 => PageLevel::Level3,
            PageLevel::Level3 => PageLevel::Level2,
            _ => PageLevel::Level1,
        }
    }

    /// Returns the level of the tables that this level's entries point at
    /// (the bottom level points at pages, and stays).
    pub fn next(self) -> (r: PageLevel)
        ensures
            r == self.below(),
    {
        match self {
            PageLevel::Level4 => PageLevel::Level3,
            PageLevel::Level3 => PageLevel::Level2,
            _ => PageLevel::Level1,
        }
    }

    /// Returns the index that `page` selects in a table of this level.
    pub fn index(self, page: &Page) -> (r: usize)
        ensures
            r == index_at(page@, self.shift()),
            r < 512,
    {
        match self {
            PageLevel::Level4 => page.pml4_index(),
            PageLevel::Level3 => page.pdpt_index(),
            PageLevel::Level2 => page.pdt_index(),
            PageLevel::Level1 => page.pt_index(),
        }
    }
}

/// Whether an entry owns the frame it maps: present, not shared.
pub open spec fn word_owns(w: u64) -> bool {
    word_present(w) && !word_shared(w) && word_addr(w) != 0
}

/// The frame number of the address held by an entry.
pub open spec fn word_index(w: u64) -> int {
    word_addr(w) as int / 4096
}

/// Whether two virtual addresses select the same entry at `level` and at
/// every level below it.
pub open spec fn same_path(level: PageLevel, a: u64, b: u64) -> bool
    decreases level.depth(),
{
    &&& index_at(a, level.shift()) == index_at(b, level.shift())
    &&& level != PageLevel::Level1 ==> same_path(level.below(), a, b)
}

/// A 64-bit page table entry, together with the table it owns when it is a
/// present entry above the bottom level.
pub struct PageEntry {
    bits: u64,
    table: Option<Box<PageTable>>,
}

/// A page table of one level: 512 entries.
pub struct PageTable {
    level: PageLevel,
    entries: Vec<PageEntry>,
}

impl View for PageEntry {
    type V = u64;

    /// The entry's 64-bit word.
    closed spec fn view(&self) -> u64 {
        self.bits
    }
}

/// Whether `e` is a consistent entry of a table of `level`: a present entry
/// holds a frame; at the bottom level an entry owns no table; above it an
/// entry is either empty or present, unshared, and owns a table of the level
/// below.
spec fn entry_fits(e: PageEntry, level: PageLevel) -> bool {
    &&& word_present(e.bits) ==> word_addr(e.bits) != 0
    &&& if level == PageLevel::Level1 {
        e.table is None
    } else {
        match e.table {
            Some(c) => c.level == level.below() && word_present(e.bits) && !word_shared(e.bits),
            None => e.bits == 0,
        }
    }
}

/// Returns the frame that an entry `w` maps, if it is present.
pub(crate) fn frame_of_word(w: u64) -> (r: Option<Frame>)
    ensures
        frame_view(r) == word_frame(w),
{
    let addr = w & ADDRESS_MASK;
    if w & 1 == 1 && addr != 0 {
        assert(addr >= 0x1000 && addr % 4096 == 0) by (bit_vector)
            requires
                addr == w & 0xf_ffff_ffff_f000u64,
                addr != 0,
        ;
        Some(Frame::containing_addr(addr))
    } else {
        None
    }
}

/// What an entry built by `new_word` holds.
pub(crate) proof fn lemma_new_word(frame: Option<Frame>, flags: u64)
    requires
        flags & 0xffff_ffff_ffff_fde0 == 0,
        fits_entry(frame),
        frame matches Some(f) ==> f@ % 4096 == 0 && f@ != 0,
    ensures
        word_addr(new_word(frame, flags)) == match frame {
            Some(f) => f@,
            None => 0,
        },
        word_present(new_word(frame, flags)) == (flags & 1 == 1),
        word_shared(new_word(frame, flags)) == (flags & 0x200 == 0x200),
{
    let a: u64 = match frame {
        Some(f) => f@,
        None => 0,
    };
    assert(a % 4096 == 0);
    assert(a & 0xfff == 0) by (bit_vector)
        requires
            a % 4096 == 0,
    ;
    let w = a | flags;
    assert(w & 0xf_ffff_ffff_f000 == a && (w & 1 == 1) == (flags & 1 == 1) && (w & 0x200 == 0x200)
        == (flags & 0x200 == 0x200)) by (bit_vector)
        requires
            flags & 0xffff_ffff_ffff_fde0 == 0,
            a & 0xfff == 0,
            a < 0x10_0000_0000_0000,
            w == a | flags,
    ;
}

/// What the entry of a freshly allocated table holds: its frame, present and
/// writable, not shared.
proof fn lemma_table_word(addr: u64)
    requires
        addr % 4096 == 0,
        addr != 0,
        addr < 0x10_0000_0000_0000,
    ensures
        word_addr(addr | 3) == addr,
        word_present(addr | 3),
        !word_shared(addr | 3),
{
    assert(addr & 0xfff == 0) by (bit_vector)
        requires
            addr % 4096 == 0,
    ;
    let w = addr | 3;
    assert(w & 1 == 1 && w & 0x200 != 0x200) by (bit_vector)
        requires
            addr & 0xfff == 0,
            w == addr | 3,
    ;
    assert(w & 0xf_ffff_ffff_f000 == addr) by (bit_vector)
        requires
            addr & 0xfff == 0,
            addr < 0x10_0000_0000_0000u64,
            w == addr | 3,
    ;
}

/// The empty word holds nothing.
pub(crate) proof fn lemma_empty_word()
    ensures
        !word_present(0),
        word_addr(0) == 0,
        word_target(0) is None,
        word_frame(0) is None,
{
    assert(0u64 & 1 != 1 && 0u64 & 0xf_ffff_ffff_f000 == 0) by (bit_vector);
}

impl PageEntry {
    /// Whether this entry owns a table of the level below.
    pub closed spec fn has_table(self) -> bool {
        self.table is Some
    }

    /// The table this entry owns, if any.
    pub closed spec fn table_spec(self) -> Option<PageTable> {
        match self.table {
            Some(t) => Some(*t),
            None => None,
        }
    }

    /// Returns the table of the level below that this entry points at, if
    /// it is a present entry above the bottom level.
    pub fn underlying(&self) -> (r: Option<&PageTable>)
        ensures
            r is Some == self.has_table(),
            r matches Some(t) ==> self.table_spec() == Some(*t),
    {
        match &self.table {
            Some(t) => Some(&**t),
            None => None,
        }
    }

    /// Returns the table of the level below that this entry points at,
    /// mutably, if it is a present entry above the bottom level.
    pub fn underlying_mut(&mut self) -> (r: Option<&mut PageTable>)
        ensures
            r is Some == old(self).has_table(),
            final(self)@ == old(self)@,
            r matches Some(t) ==> old(self).table_spec() == Some(*t) && final(self).table_spec()
                == Some(*final(t)),
            r is None ==> final(self).table_spec() is None,
    {
        match self.table.as_mut() {
            Some(t) => Some(&mut **t),
            None => None,
        }
    }

    /// Whether this entry is consistent as an entry of a table of `level`.
    pub closed spec fn fits(self, level: PageLevel) -> bool {
        entry_fits(self, level)
    }

    /// Returns the table of the level below that this entry, of a table of
    /// `level` above the bottom, points at. Where the entry is empty, a frame
    /// is first allocated from `alloc` for a new, empty table, and the entry
    /// is set to that frame, present and writable.
    pub fn underlying_mut_or_allocate(
        &mut self,
        level: PageLevel,
        alloc: &mut PhysicalFrameAllocator,
    ) -> (r: &mut PageTable)
        requires
            level != PageLevel::Level1,
            old(self).fits(level),
            old(self).table_spec() matches Some(t) ==> t.wf(),
            old(alloc).wf(),
            old(self).has_table() || old(alloc).free_count() > 0,
        ensures
            final(alloc).wf(),
            r.level_spec() == level.below(),
            r.wf(),
            final(self).table_spec() == Some(*final(r)),
            old(self).has_table() ==> {
                &&& old(self).table_spec() == Some(*r)
                &&& final(self)@ == old(self)@
                &&& *final(alloc) == *old(alloc)
            },
            !old(self).has_table() ==> {
                &&& forall|a: u64| #[trigger] r.word_at(a) == 0
                &&& forall|a: u64| #[trigger] r.missing(a) == level.below().depth() - 1
                &&& forall|j: int| !#[trigger] r.holds_table(j)
                &&& final(alloc).free_count() + 1 == old(alloc).free_count()
                &&& final(alloc)@.len() == old(alloc)@.len()
                &&& forall|j: int|
                    0 <= j < old(alloc).frame_count() && #[trigger] old(alloc).used(j)
                        ==> final(alloc).used(j)
                &&& forall|j: int| #[trigger]
                    fresh_frame(*old(alloc), *final(alloc), j) == (word_index(final(self)@) == j)
            },
            word_present(final(self)@) && !word_shared(final(self)@) && word_addr(final(self)@) != 0,
    {
        if self.table.is_none() {
            proof {
                lemma_not_exhausted(*alloc);
            }
            let ghost before = *alloc;
            let f = alloc.alloc_frame().unwrap();
            proof {
                lemma_alloc_uses_one(before, *alloc, f);
            }
            let addr = f.addr();
            proof {
                lemma_table_word(addr);
                assert forall|j: int| #[trigger]
                    fresh_frame(before, *alloc, j) == (word_index(addr | 3) == j) by {}
            }
            self.bits = addr | 3;
            self.table = Some(Box::new(PageTable::new(level.next())));
        }
        let t = self.table.as_mut().unwrap();
        &mut **t
    }

    /// Swaps the frame and flags held by this entry, returning the frame
    /// that it held before (present or not).
    ///
    /// Marking an entry present without a frame is refused; the caller must
    /// ensure that the swap does not break what other code assumes of the
    /// memory this entry controls.
    pub fn swap(&mut self, frame: Option<Frame>, flags: PageEntryFlags) -> (r: Option<Frame>)
        requires
            !old(self).has_table(),
            !(frame is None && flags@ & 1 == 1),
            fits_entry(frame),
        ensures
            final(self)@ == new_word(frame, flags@),
            !final(self).has_table(),
            frame_view(r) == word_target(old(self)@),
            word_addr(final(self)@) == match frame {
                Some(f) => f@,
                None => 0,
            },
            word_present(final(self)@) == (flags@ & 1 == 1),
            word_shared(final(self)@) == (flags@ & 0x200 == 0x200),
            word_present(final(self)@) ==> word_addr(final(self)@) != 0,
    {
        proof {
            use_type_invariant(&flags);
        }
        let addr: u64 = match frame {
            Some(f) => f.addr(),
            None => 0,
        };
        proof {
            lemma_new_word(frame, flags@);
        }
        let before = self.bits;
        self.bits = addr | flags.bits;
        let held = before & ADDRESS_MASK;
        if held == 0 {
            None
        } else {
            assert(held >= 0x1000) by (bit_vector)
                requires
                    held == before & 0xf_ffff_ffff_f000u64,
                    held != 0,
            ;
            assert(held % 4096 == 0) by (bit_vector)
                requires
                    held == before & 0xf_ffff_ffff_f000u64,
            ;
            Some(Frame::containing_addr(held))
        }
    }

    /// An empty entry.
    fn empty() -> (r: PageEntry)
        ensures
            r.bits == 0,
            r.table is None,
    {
        PageEntry { bits: 0, table: None }
    }

    /// Returns the set of flags currently set for this entry.
    pub fn flags(&self) -> (r: PageEntryFlags)
        ensures
            r@ == self@ & FLAGS_MASK,
    {
        PageEntryFlags::from_bits(self.bits)
    }

    /// Returns the physical address of the frame that this entry holds.
    pub fn addr(&self) -> (r: u64)
        ensures
            r == word_addr(self@),
    {
        self.bits & ADDRESS_MASK
    }

    /// Returns the frame that this entry maps, if it is present.
    pub fn frame(&self) -> (r: Option<Frame>)
        ensures
            frame_view(r) == word_frame(self@),
    {
        frame_of_word(self.bits)
    }
}

impl PageTable {
    /// The level of this table.
    pub closed spec fn level_spec(self) -> PageLevel {
        self.level
    }

    /// Whether this table and every table below it are consistent.
    pub closed spec fn wf(self) -> bool
        decreases self.level_spec().depth(),
    {
        &&& self.entries@.len() == 512
        &&& forall|i: int| 0 <= i < 512 ==> entry_fits(#[trigger] self.entries@[i], self.level)
        &&& forall|i: int|
            0 <= i < 512 ==> match #[trigger] self.entries@[i].table {
                Some(c) => if c.level.depth() < self.level.depth() {
                    c.wf()
                } else {
                    false
                },
                None => true,
            }
    }

    /// The bottom-level entry that virtual address `a` selects below this
    /// table, or zero if a table on the way is missing.
    pub closed spec fn word_at(self, a: u64) -> u64
        decreases self.level_spec().depth(),
    {
        let e = self.entries@[index_at(a, self.level.shift()) as int];
        if self.level == PageLevel::Level1 {
            e.bits
        } else {
            match e.table {
                Some(c) => if c.level.depth() < self.level.depth() {
                    c.word_at(a)
                } else {
                    0
                },
                None => 0,
            }
        }
    }

    /// Whether frame number `j` holds one of the tables below this one.
    pub closed spec fn holds_table(self, j: int) -> bool
        decreases self.level_spec().depth(),
    {
        exists|i: int|
            0 <= i < 512 && match #[trigger] self.entries@[i].table {
                Some(c) => word_index(self.entries@[i].bits) == j || (c.level.depth()
                    < self.level.depth() && c.holds_table(j)),
                None => false,
            }
    }

    /// Whether frame number `j` is owned by a bottom-level entry below this
    /// table.
    pub open spec fn owns_leaf(self, j: int) -> bool {
        exists|a: u64| #[trigger] word_owns(self.word_at(a)) && word_index(self.word_at(a)) == j
    }

    /// How many tables are missing on the way from this table down to the
    /// bottom-level entry that virtual address `a` selects.
    pub closed spec fn missing(self, a: u64) -> nat
        decreases self.level_spec().depth(),
    {
        if self.level == PageLevel::Level1 {
            0
        } else {
            match self.entries@[index_at(a, self.level.shift()) as int].table {
                Some(c) => if c.level.depth() < self.level.depth() {
                    c.missing(a)
                } else {
                    0
                },
                None => (self.level.depth() - 1) as nat,
            }
        }
    }

    /// Creates a new table of `level` whose entries are all empty.
    pub fn new(level: PageLevel) -> (r: PageTable)
        ensures
            r.wf(),
            r.level_spec() == level,
            forall|a: u64| #[trigger] r.word_at(a) == 0,
            forall|a: u64| #[trigger] r.missing(a) == level.depth() - 1,
            forall|j: int| !#[trigger] r.holds_table(j),
            forall|i: int| 0 <= i < 512 ==> #[trigger] r.entry_spec(i)@ == 0,
    {
        let mut entries: Vec<PageEntry> = Vec::new();
        while entries.len() < 512
            invariant
                entries@.len() <= 512,
                forall|i: int| 0 <= i < entries@.len() ==> (#[trigger] entries@[i]).bits == 0
                    && entries@[i].table is None,
            decreases 512 - entries@.len(),
        {
            entries.push(PageEntry::empty());
        }
        let r = PageTable { level, entries };
        assert(0u64 & 1 != 1) by (bit_vector);
        assert forall|i: int| 0 <= i < 512 implies entry_fits(#[trigger] r.entries@[i], level) by {}
        assert forall|a: u64| #[trigger] r.word_at(a) == 0 by {
            lemma_index_bound(a, level.shift());
        }
        assert forall|a: u64| #[trigger] r.missing(a) == level.depth() - 1 by {
            lemma_index_bound(a, level.shift());
        }
        assert forall|j: int| !#[trigger] r.holds_table(j) by {}
        r
    }

    /// The entry at `index`.
    pub closed spec fn entry_spec(self, index: int) -> PageEntry {
        self.entries@[index]
    }

    /// Returns the entry at `index`.
    pub fn entry(&self, index: usize) -> (r: &PageEntry)
        requires
            self.wf(),
            index < 512,
        ensures
            *r == self.entry_spec(index as int),
    {
        &self.entries[index]
    }

    /// Returns how many tables are missing on the way from this table down
    /// to the bottom-level entry that `page` selects.
    pub(crate) fn missing_tables(&self, page: &Page) -> (r: usize)
        requires
            self.wf(),
        ensures
            r == self.missing(page@),
            r <= 3,
        decreases self.level_spec().depth(),
    {
        let i = self.level.index(page);
        let e = &self.entries[i];
        match self.level {
            PageLevel::Level1 => 0,
            PageLevel::Level4 => match &e.table {
                Some(c) => c.missing_tables(page),
                None => 3,
            },
            PageLevel::Level3 => match &e.table {
                Some(c) => c.missing_tables(page),
                None => 2,
            },
            PageLevel::Level2 => match &e.table {
                Some(c) => c.missing_tables(page),
                None => 1,
            },
        }
    }

    /// Returns the bottom-level entry that `page` selects below this table,
    /// or zero if a table on the way is missing.
    pub(crate) fn lookup(&self, page: &Page) -> (r: u64)
        requires
            self.wf(),
        ensures
            r == self.word_at(page@),
        decreases self.level_spec().depth(),
    {
        let i = self.level.index(page);
        let e = &self.entries[i];
        match self.level {
            PageLevel::Level1 => e.bits,
            _ => match &e.table {
                Some(c) => c.lookup(page),
                None => 0,
            },
        }
    }

    /// Maps the page `page` below this table to `frame` with `flags`,
    /// allocating the tables that are missing on the way, and returns the
    /// frame that the bottom-level entry held before.
    pub(crate) fn map_in(
        &mut self,
        page: &Page,
        frame: Option<Frame>,
        flags: PageEntryFlags,
        alloc: &mut PhysicalFrameAllocator,
    ) -> (r: Option<Frame>)
        requires
            old(self).wf(),
            old(alloc).wf(),
            old(alloc).free_count() >= old(self).missing(page@),
            !(frame is None && flags@ & 1 == 1),
            fits_entry(frame),
        ensures
            final(self).wf(),
            final(self).level_spec() == old(self).level_spec(),
            forall|a: u64| #[trigger]
                final(self).word_at(a) == if same_path(old(self).level_spec(), a, page@) {
                    new_word(frame, flags@)
                } else {
                    old(self).word_at(a)
                },
            frame_view(r) == word_target(old(self).word_at(page@)),
            final(alloc).wf(),
            final(alloc)@.len() == old(alloc)@.len(),
            final(alloc).free_count() + old(self).missing(page@) == old(alloc).free_count(),
            forall|j: int|
                0 <= j < old(alloc).frame_count() && #[trigger] old(alloc).used(j)
                    ==> final(alloc).used(j),
            forall|j: int| #[trigger]
                final(self).holds_table(j) == (old(self).holds_table(j) || fresh_frame(
                    *old(alloc),
                    *final(alloc),
                    j,
                )),
        decreases old(self).level_spec().depth(),
    {
        let ghost old_self = *self;
        let ghost before_alloc = *alloc;
        let level = self.level;
        let i = level.index(page);
        let mut e = PageEntry::empty();
        self.entries.set_and_swap(i, &mut e);
        let ghost taken = e;
        proof {
            assert(e == old_self.entries@[i as int]);
            assert(entry_fits(e, level));
        }
        let r;
        match level {
            PageLevel::Level1 => {
                r = e.swap(frame, flags);
                proof {
                    assert(entry_fits(e, level));
                    assert forall|a: u64| index_at(a, level.shift()) == i implies #[trigger]
                        same_path(level, a, page@) by {}
                }
            },
            _ => {
                let ghost fresh = taken.table is None;
                proof {
                    if fresh {
                        assert(old_self.missing(page@) == level.depth() - 1);
                    } else {
                        assert(old_self.missing(page@) == taken.table->0.missing(page@));
                    }
                }
                let child = e.underlying_mut_or_allocate(level, alloc);
                let ghost child0: PageTable = *child;
                let ghost mid_alloc = *alloc;
                proof {
                    assert(old_self.missing(page@) == child0.missing(page@) + if fresh {
                        1int
                    } else {
                        0
                    });
                    assert forall|a: u64| index_at(a, level.shift()) == i implies #[trigger]
                        old_self.word_at(a) == child0.word_at(a) by {
                        if fresh {
                            lemma_empty_word();
                        }
                    }
                    if !fresh {
                        assert forall|j: int| !#[trigger] fresh_frame(before_alloc, mid_alloc, j) by {}
                    }
                }
                r = child.map_in(page, frame, flags, alloc);
                proof {
                    assert forall|j: int|
                        0 <= j < before_alloc.frame_count() && #[trigger] before_alloc.used(j)
                            implies alloc.used(j) by {
                        assert(mid_alloc.used(j));
                    }
                    assert forall|j: int| #[trigger]
                        fresh_frame(before_alloc, *alloc, j) == (fresh_frame(before_alloc, mid_alloc, j)
                            || fresh_frame(mid_alloc, *alloc, j)) by {
                        if 0 <= j < before_alloc.frame_count() && before_alloc.used(j) {
                            assert(mid_alloc.used(j));
                        }
                    }
                    assert(entry_fits(e, level));
                    assert forall|j: int| #[trigger] entry_holds(e, j) == (entry_holds(taken, j)
                        || fresh_frame(before_alloc, *alloc, j)) by {
                        if fresh {
                            assert(!child0.holds_table(j));
                        }
                    }
                    assert forall|a: u64| index_at(a, level.shift()) == i implies #[trigger]
                        e.table->0.word_at(a) == if same_path(level, a, page@) {
                            new_word(frame, flags@)
                        } else {
                            old_self.word_at(a)
                        } by {}
                }
            },
        }
        let ghost placed = e;
        proof {
            if level == PageLevel::Level1 {
                assert forall|j: int| !#[trigger] fresh_frame(before_alloc, *alloc, j) by {}
                assert forall|j: int| #[trigger] entry_holds(placed, j) == (entry_holds(taken, j)
                    || fresh_frame(before_alloc, *alloc, j)) by {}
            }
        }
        self.entries.set_and_swap(i, &mut e);
        proof {
            assert forall|j: int| #[trigger]
                self.holds_table(j) == (old_self.holds_table(j) || fresh_frame(before_alloc, *alloc, j)) by {
                self.lemma_holds_table(j);
                old_self.lemma_holds_table(j);
                if exists|q: int| 0 <= q < 512 && #[trigger] entry_holds(self.entries@[q], j) {
                    let q = choose|q: int| 0 <= q < 512 && #[trigger] entry_holds(self.entries@[q], j);
                    if q != i {
                        assert(self.entries@[q] == old_self.entries@[q]);
                        assert(old_self.holds_table(j));
                    } else {
                        assert(self.entries@[q] == placed);
                        assert(entry_holds(placed, j));
                        assert(entry_holds(taken, j) || fresh_frame(before_alloc, *alloc, j));
                        if entry_holds(taken, j) {
                            assert(entry_holds(old_self.entries@[q], j));
                            assert(old_self.holds_table(j));
                        }
                    }
                }
                if exists|q: int| 0 <= q < 512 && #[trigger] entry_holds(old_self.entries@[q], j) {
                    let q = choose|q: int| 0 <= q < 512 && #[trigger] entry_holds(old_self.entries@[q], j);
                    if q != i {
                        assert(self.entries@[q] == old_self.entries@[q]);
                        assert(entry_holds(self.entries@[q], j));
                    } else {
                        assert(self.entries@[q] == placed);
                        assert(entry_holds(taken, j));
                        assert(entry_holds(placed, j));
                        assert(entry_holds(self.entries@[q], j));
                    }
                    assert(self.holds_table(j));
                }
                if fresh_frame(before_alloc, *alloc, j) {
                    assert(self.entries@[i as int] == placed);
                    assert(entry_holds(self.entries@[i as int], j));
                }
            }
            assert(self.entries@ =~= old_self.entries@.update(i as int, placed));
            assert forall|j: int| 0 <= j < 512 implies entry_fits(
                #[trigger] self.entries@[j],
                level,
            ) by {
                if j != i {
                    assert(self.entries@[j] == old_self.entries@[j]);
                } else {
                    assert(self.entries@[j] == placed);
                }
            }
            assert forall|a: u64| #[trigger]
                self.word_at(a) == if same_path(level, a, page@) {
                    new_word(frame, flags@)
                } else {
                    old_self.word_at(a)
                } by {
                lemma_index_bound(a, level.shift());
                let k = index_at(a, level.shift());
                assert(index_at(page@, level.shift()) == i);
                if k != i {
                    assert(self.entries@[k as int] == old_self.entries@[k as int]);
                    assert(!same_path(level, a, page@));
                    assert(self.word_at(a) == old_self.word_at(a));
                } else {
                    assert(self.entries@[k as int] == placed);
                    if level == PageLevel::Level1 {
                        assert(self.word_at(a) == placed.bits);
                    } else {
                        assert(placed.table->0.level.depth() < level.depth());
                        assert(self.word_at(a) == placed.table->0.word_at(a));
                    }
                }
            }
        }
        r
    }

    /// Releases every frame that this table's entries own to `alloc`:
    /// first, recursively, the tables below, then each present, unshared
    /// entry's own frame. Frames that `alloc` does not cover are left alone.
    pub(crate) fn release(self, alloc: &mut PhysicalFrameAllocator)
        requires
            self.wf(),
            old(alloc).wf(),
        ensures
            final(alloc).wf(),
            final(alloc)@.len() == old(alloc)@.len(),
            forall|j: int|
                0 <= j < old(alloc).frame_count() ==> #[trigger] final(alloc).used(j) == (old(
                    alloc,
                ).used(j) && !self.holds_table(j) && !self.owns_leaf(j)),
        decreases self.level_spec().depth(),
    {
        let ghost original = self;
        let ghost start = *alloc;
        let PageTable { level, mut entries } = self;
        let mut n: usize = 0;
        while n < 512
            invariant
                n <= 512,
                original == self,
                original.wf(),
                level == original.level,
                entries@.len() == 512,
                forall|i: int| n <= i < 512 ==> #[trigger] entries@[i] == original.entries@[i],
                alloc.wf(),
                alloc@.len() == start@.len(),
                forall|j: int|
                    0 <= j < start.frame_count() ==> #[trigger] alloc.used(j) == (start.used(j)
                        && !(exists|i: int| 0 <= i < n && entry_releases(original.entries@[i], j))),
            decreases 512 - n,
        {
            let mut e = PageEntry::empty();
            entries.set_and_swap(n, &mut e);
            let ghost taken = e;
            assert(taken == original.entries@[n as int]);
            assert(entry_fits(taken, level));
            let ghost mid = *alloc;
            let PageEntry { bits, table } = e;
            if let Some(c) = table {
                let child: PageTable = *c;
                assert(child.level_spec().depth() < original.level_spec().depth());
                child.release(alloc);
            }
            let ghost after_child = *alloc;
            let addr = bits & ADDRESS_MASK;
            if bits & 1 == 1 && bits & 0x200 == 0 && addr != 0 {
                assert(addr >= 0x1000) by (bit_vector)
                    requires
                        addr == bits & 0xf_ffff_ffff_f000u64,
                        addr != 0,
                ;
                let f = Frame::containing_addr(addr);
                assert(addr % 4096 == 0) by (bit_vector)
                    requires
                        addr == bits & 0xf_ffff_ffff_f000u64,
                ;
                if alloc.covers(f) {
                    alloc.dealloc(f);
                }
            }
            proof {
                assert(bits & 0x200 == 0 <==> bits & 0x200 != 0x200) by (bit_vector);
                assert forall|j: int| 0 <= j < start.frame_count() implies #[trigger] alloc.used(j)
                    == (start.used(j) && !(exists|i: int|
                    0 <= i < n + 1 && entry_releases(original.entries@[i], j))) by {
                    if entry_releases(taken, j) {
                        assert(!alloc.used(j));
                    } else {
                        if exists|i: int| 0 <= i < n + 1 && entry_releases(original.entries@[i], j) {
                            let i = choose|i: int|
                                0 <= i < n + 1 && entry_releases(original.entries@[i], j);
                            assert(i < n);
                        }
                    }
                }
            }
            n = n + 1;
        }
        proof {
            assert forall|j: int| 0 <= j < start.frame_count() implies (exists|i: int|
                0 <= i < 512 && entry_releases(original.entries@[i], j)) == (original.holds_table(j)
                || original.owns_leaf(j)) by {
                original.lemma_releases(j);
            }
            assert forall|j: int| 0 <= j < start.frame_count() implies #[trigger] alloc.used(j) == (
            start.used(j) && !original.holds_table(j) && !original.owns_leaf(j)) by {
                original.lemma_releases(j);
            }
        }
    }
}

/// Whether entry `e` holds, or has below it, the table in frame number `j`.
spec fn entry_holds(e: PageEntry, j: int) -> bool {
    match e.table {
        Some(c) => word_index(e.bits) == j || c.holds_table(j),
        None => false,
    }
}

/// Whether releasing entry `e` releases frame number `j`: its own frame when
/// it is present and unshared, and whatever the table it owns releases.
spec fn entry_releases(e: PageEntry, j: int) -> bool {
    ||| word_owns(e.bits) && word_index(e.bits) == j
    ||| match e.table {
        Some(c) => c.holds_table(j) || c.owns_leaf(j),
        None => false,
    }
}

/// Every address follows its own path.
pub proof fn lemma_same_path_refl(level: PageLevel, a: u64)
    ensures
        same_path(level, a, a),
    decreases level.depth(),
{
    if level != PageLevel::Level1 {
        lemma_same_path_refl(level.below(), a);
    }
}

/// Two addresses on the same path from the top level agree on all four
/// level indices.
pub proof fn lemma_same_path_indices(a: u64, b: u64)
    requires
        same_path(PageLevel::Level4, a, b),
    ensures
        index_at(a, 39) == index_at(b, 39),
        index_at(a, 30) == index_at(b, 30),
        index_at(a, 21) == index_at(b, 21),
        index_at(a, 12) == index_at(b, 12),
{
    assert(same_path(PageLevel::Level3, a, b));
    assert(same_path(PageLevel::Level2, a, b));
    assert(same_path(PageLevel::Level1, a, b));
}

/// An address that selects index `i` at `level` and agrees with `b` at every
/// level below.
proof fn lemma_path_address(level: PageLevel, i: u64, b: u64) -> (a: u64)
    requires
        i < 512,
    ensures
        index_at(a, level.shift()) == i,
        level != PageLevel::Level1 ==> same_path(level.below(), a, b),
{
    match level {
        PageLevel::Level4 => {
            let a = (b & !(0x1ffu64 << 39u64)) | (i << 39u64);
            assert(index_at(a, 39) == i && index_at(a, 30) == index_at(b, 30) && index_at(a, 21)
                == index_at(b, 21) && index_at(a, 12) == index_at(b, 12)) by (bit_vector)
                requires
                    i < 512,
                    a == (b & !(0x1ffu64 << 39u64)) | (i << 39u64),
            ;
            assert(same_path(PageLevel::Level1, a, b));
            assert(same_path(PageLevel::Level2, a, b));
            assert(same_path(PageLevel::Level3, a, b));
            a
        },
        PageLevel::Level3 => {
            let a = (b & !(0x1ffu64 << 30u64)) | (i << 30u64);
            assert(index_at(a, 30) == i && index_at(a, 21) == index_at(b, 21) && index_at(a, 12)
                == index_at(b, 12)) by (bit_vector)
                requires
                    i < 512,
                    a == (b & !(0x1ffu64 << 30u64)) | (i << 30u64),
            ;
            assert(same_path(PageLevel::Level1, a, b));
            assert(same_path(PageLevel::Level2, a, b));
            a
        },
        PageLevel::Level2 => {
            let a = (b & !(0x1ffu64 << 21u64)) | (i << 21u64);
            assert(index_at(a, 21) == i && index_at(a, 12) == index_at(b, 12)) by (bit_vector)
                requires
                    i < 512,
                    a == (b & !(0x1ffu64 << 21u64)) | (i << 21u64),
            ;
            assert(same_path(PageLevel::Level1, a, b));
            a
        },
        PageLevel::Level1 => {
            let a = i << 12u64;
            assert(index_at(a, 12) == i) by (bit_vector)
                requires
                    i < 512,
                    a == i << 12u64,
            ;
            a
        },
    }
}

impl PageTable {
    /// Below a table, the bottom-level entry that an address selects depends
    /// only on the indices at the table's level and below.
    proof fn lemma_word_at_local(self, a: u64, b: u64)
        requires
            self.wf(),
            same_path(self.level, a, b),
        ensures
            self.word_at(a) == self.word_at(b),
        decreases self.level_spec().depth(),
    {
        lemma_index_bound(a, self.level.shift());
        let i = index_at(a, self.level.shift()) as int;
        if self.level != PageLevel::Level1 {
            assert(entry_fits(self.entries@[i], self.level));
            if let Some(c) = self.entries@[i].table {
                c.lemma_word_at_local(a, b);
            }
        }
    }

    /// A table holds what its entries hold.
    proof fn lemma_holds_table(self, j: int)
        requires
            self.wf(),
        ensures
            self.holds_table(j) == exists|i: int| 0 <= i < 512 && #[trigger] entry_holds(self.entries@[i], j),
    {
        if self.holds_table(j) {
            let i = choose|i: int|
                0 <= i < 512 && match #[trigger] self.entries@[i].table {
                    Some(c) => word_index(self.entries@[i].bits) == j || (c.level.depth()
                        < self.level.depth() && c.holds_table(j)),
                    None => false,
                };
            assert(entry_holds(self.entries@[i], j));
        }
        if exists|i: int| 0 <= i < 512 && #[trigger] entry_holds(self.entries@[i], j) {
            let i = choose|i: int| 0 <= i < 512 && #[trigger] entry_holds(self.entries@[i], j);
            assert(entry_fits(self.entries@[i], self.level));
            assert(self.entries@[i].table matches Some(c) && c.level.depth() < self.level.depth());
        }
    }

    /// What this table's entries release is what this table holds and owns.
    proof fn lemma_releases(self, j: int)
        requires
            self.wf(),
        ensures
            (exists|i: int| 0 <= i < 512 && entry_releases(self.entries@[i], j)) == (
            self.holds_table(j) || self.owns_leaf(j)),
    {
        lemma_empty_word();
        if exists|i: int| 0 <= i < 512 && entry_releases(self.entries@[i], j) {
            let i = choose|i: int| 0 <= i < 512 && entry_releases(self.entries@[i], j);
            let e = self.entries@[i];
            assert(entry_fits(e, self.level));
            match e.table {
                Some(c) => {
                    if word_index(e.bits) == j || c.holds_table(j) {
                        assert(self.holds_table(j));
                    } else {
                        let b = choose|b: u64|
                            #[trigger] word_owns(c.word_at(b)) && word_index(c.word_at(b)) == j;
                        let a = lemma_path_address(self.level, i as u64, b);
                        c.lemma_word_at_local(a, b);
                        assert(self.word_at(a) == c.word_at(a));
                        assert(word_owns(self.word_at(a)) && word_index(self.word_at(a)) == j);
                    }
                },
                None => {
                    if self.level == PageLevel::Level1 {
                        let a = lemma_path_address(self.level, i as u64, 0);
                        assert(self.word_at(a) == e.bits);
                        assert(word_owns(self.word_at(a)) && word_index(self.word_at(a)) == j);
                    }
                },
            }
        }
        if self.holds_table(j) {
            let i = choose|i: int|
                0 <= i < 512 && match #[trigger] self.entries@[i].table {
                    Some(c) => word_index(self.entries@[i].bits) == j || (c.level.depth()
                        < self.level.depth() && c.holds_table(j)),
                    None => false,
                };
            let e = self.entries@[i];
            assert(entry_fits(e, self.level));
            assert(entry_releases(e, j));
        }
        if self.owns_leaf(j) {
            let a = choose|a: u64|
                #[trigger] word_owns(self.word_at(a)) && word_index(self.word_at(a)) == j;
            lemma_index_bound(a, self.level.shift());
            let i = index_at(a, self.level.shift()) as int;
            let e = self.entries@[i];
            assert(entry_fits(e, self.level));
            if self.level != PageLevel::Level1 {
                if let Some(c) = e.table {
                    assert(self.word_at(a) == c.word_at(a));
                    assert(c.owns_leaf(j));
                }
            }
            assert(entry_releases(e, j));
        }
    }
}

} // verus!
