use vstd::prelude::*;

verus! {

/// A physical memory frame: a region of physical memory 4096 bytes in size,
/// named by its (nonzero, 4096-aligned) physical address.
#[derive(Debug, Clone, Copy, PartialEq, Eq, Structural)]
pub struct Frame {
    addr: u64,
}

impl View for Frame {
    type V = u64;

    closed spec fn view(&self) -> u64 {
        self.addr
    }
}

impl Frame {
    /// The frame's number: its address divided by the frame size.
    pub open spec fn index(self) -> int {
        self@ as int / 4096
    }

    /// The number of bytes that a frame spans.
    pub const SIZE: u64 = 0x1000;

    #[verifier::type_invariant]
    spec fn inv(self) -> bool {
        self.addr != 0 && self.addr % 4096 == 0
    }

    /// Creates the physical frame containing `addr`.
    ///
    /// Address zero lies in no representable frame, so `addr` must lie
    /// beyond the first frame.
    pub fn containing_addr(addr: u64) -> (r: Frame)
        requires
            addr >= 0x1000,
        ensures
            r@ == addr - addr % 4096,
    {
        let base = addr - addr % 0x1000;
        Frame { addr: base }
    }

    /// Creates the physical frame containing the direct-map virtual address
    /// `ptr`, where `offset` is the direct map's base.
    pub fn containing_ptr(ptr: u64, offset: u64) -> (r: Frame)
        requires
            ptr >= offset + 0x1000,
        ensures
            r@ == (ptr - offset) - (ptr - offset) % 4096,
    {
        Frame::containing_addr(ptr - offset)
    }

    /// Returns the physical address of this frame.
    pub fn addr(&self) -> (r: u64)
        ensures
            r == self@,
            r != 0,
            r % 4096 == 0,
    {
        proof {
            use_type_invariant(self);
        }
        self.addr
    }

    /// Returns the direct-map virtual address at which this frame can be
    /// accessed, where `offset` is the direct map's base. This and
    /// `containing_ptr` are the only conversions between the two address
    /// spaces.
    pub fn as_non_null(&self, offset: u64) -> (r: u64)
        requires
            self@ + offset <= u64::MAX,
        ensures
            r == self@ + offset,
            r != 0,
    {
        proof {
            use_type_invariant(self);
        }
        self.addr + offset
    }
}

} // verus!
