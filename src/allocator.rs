use vstd::prelude::*;
use vstd::set_lib::{lemma_int_range, lemma_len_subset, set_int_range};

use crate::bits::{bit_mask, bit_set, lemma_clear_bit, lemma_full_byte, lemma_set_bit, lemma_test_bit, marked};
use crate::frame::Frame;

verus! {

/// One entry of the boot-time physical memory map: `len` bytes from `base`,
/// and whether the memory there is usable.
#[derive(Debug, Clone, Copy, PartialEq, Eq, Structural)]
pub struct MemoryRegion {
    pub base: u64,
    pub len: u64,
    pub usable: bool,
}

/// Why an allocator could not be set up over a memory map.
#[derive(Debug, Clone, Copy, PartialEq, Eq, Structural)]
pub enum InitError {
    /// No region of the map is usable.
    NoUsableMemory,
    /// No usable region is larger than the bitmap.
    InsufficientStorage,
    /// The bitmap would cover frames beyond the 52-bit physical address
    /// space, or would not fit in the address space.
    TooLarge,
}

/// Whether the frame numbered `index` lies wholly inside the usable region `r`.
pub open spec fn frame_in(r: MemoryRegion, index: int) -> bool {
    &&& r.usable
    &&& r.base <= index * 4096
    &&& index * 4096 + 4096 <= r.base + r.len
}

/// Whether the frame numbered `index` lies wholly inside a usable region.
pub open spec fn frame_usable(regions: Seq<MemoryRegion>, index: int) -> bool {
    exists|j: int| 0 <= j < regions.len() && #[trigger] frame_in(regions[j], index)
}

/// Whether some region is usable.
pub open spec fn any_usable(regions: Seq<MemoryRegion>) -> bool {
    exists|j: int| 0 <= j < regions.len() && #[trigger] regions[j].usable
}

/// The highest end address of a usable region (zero if there is none).
pub open spec fn usable_end(regions: Seq<MemoryRegion>) -> int
    decreases regions.len(),
{
    if regions.len() == 0 {
        0
    } else {
        let rest = usable_end(regions.drop_last());
        let r = regions.last();
        if r.usable && r.base + r.len > rest {
            r.base + r.len
        } else {
            rest
        }
    }
}

/// The number of bitmap bytes that cover every frame from address zero up
/// to `end`.
pub open spec fn bitmap_bytes(end: int) -> int {
    ((end + 4095) / 4096 + 7) / 8
}

/// Whether region `j` is the first usable region larger than `bytes`, where
/// the bitmap is placed.
pub open spec fn first_host(regions: Seq<MemoryRegion>, bytes: int, j: int) -> bool {
    &&& 0 <= j < regions.len()
    &&& regions[j].usable && regions[j].len > bytes
    &&& forall|i: int| 0 <= i < j ==> !(#[trigger] regions[i].usable && regions[i].len > bytes)
}

/// Whether some usable region is larger than `bytes`.
pub open spec fn any_host(regions: Seq<MemoryRegion>, bytes: int) -> bool {
    exists|j: int| 0 <= j < regions.len() && #[trigger] regions[j].usable && regions[j].len > bytes
}

proof fn lemma_usable_end_bounds(regions: Seq<MemoryRegion>, j: int)
    requires
        0 <= j < regions.len(),
        regions[j].usable,
    ensures
        regions[j].base + regions[j].len <= usable_end(regions),
    decreases regions.len(),
{
    if j < regions.len() - 1 {
        lemma_usable_end_bounds(regions.drop_last(), j);
    }
}

/// A bitmap-based physical frame allocator.
///
/// Bit `k` of the bitmap (most significant bit of each byte first) stands for
/// the frame at physical address `k * 4096`: set means unavailable (reserved
/// or allocated), clear means available. The bitmap is sized once and never
/// resized. Frame zero is never available, as address zero names no frame.
pub struct PhysicalFrameAllocator {
    bitmap: Vec<u8>,
    storage: u64,
}

impl View for PhysicalFrameAllocator {
    type V = Seq<u8>;

    /// The bitmap's bytes.
    closed spec fn view(&self) -> Seq<u8> {
        self.bitmap@
    }
}

/// Whether frame number `j` was available in `before` and is not in `after`.
pub open spec fn fresh_frame(before: PhysicalFrameAllocator, after: PhysicalFrameAllocator, j: int) -> bool {
    0 <= j < before.frame_count() && !before.used(j) && after.used(j)
}

/// The number of bitmap bytes that an allocator may hold: every frame it
/// covers then has a physical address below 2^52, the most that a page
/// table entry can hold.
pub open spec fn bitmap_fits(bytes: int) -> bool {
    bytes * 32768 <= 0x10_0000_0000_0000
}

impl PhysicalFrameAllocator {
    /// Sets up an allocator over the boot-time memory map `regions`.
    ///
    /// The bitmap covers every frame from address zero up to the highest end
    /// of a usable region, and is placed in the first usable region larger
    /// than it. Exactly the frames that lie wholly inside a usable region
    /// start out available, but for frame zero, which names no frame.
    pub fn new(regions: &Vec<MemoryRegion>) -> (r: Result<PhysicalFrameAllocator, InitError>)
        requires
            forall|j: int|
                0 <= j < regions@.len() ==> #[trigger] regions@[j].base + regions@[j].len
                    <= u64::MAX,
        ensures
            !any_usable(regions@) ==> r == Err::<PhysicalFrameAllocator, InitError>(
                InitError::NoUsableMemory,
            ),
            any_usable(regions@) && !any_host(regions@, bitmap_bytes(usable_end(regions@))) ==> r
                == Err::<PhysicalFrameAllocator, InitError>(InitError::InsufficientStorage),
            any_usable(regions@) && any_host(regions@, bitmap_bytes(usable_end(regions@))) && (
            !bitmap_fits(bitmap_bytes(usable_end(regions@))) || bitmap_bytes(usable_end(regions@))
                > usize::MAX) ==> r == Err::<
                PhysicalFrameAllocator,
                InitError,
            >(InitError::TooLarge),
            r matches Ok(a) ==> {
                &&& a.wf()
                &&& a@.len() == bitmap_bytes(usable_end(regions@))
                &&& exists|j: int|
                    first_host(regions@, a@.len() as int, j) && a.storage_spec() == regions@[j].base
                &&& forall|k: int|
                    0 <= k < a.frame_count() ==> #[trigger] a.used(k) == (k == 0 || !frame_usable(
                        regions@,
                        k,
                    ))
            },
            r is Ok <==> (any_usable(regions@) && any_host(
                regions@,
                bitmap_bytes(usable_end(regions@)),
            ) && bitmap_fits(bitmap_bytes(usable_end(regions@))) && bitmap_bytes(
                usable_end(regions@),
            ) <= usize::MAX),
    {
        let n = regions.len();
        let mut end: u64 = 0;
        let mut found = false;
        let mut i: usize = 0;
        while i < n
            invariant
                n == regions@.len(),
                i <= n,
                end == usable_end(regions@.subrange(0, i as int)),
                found == any_usable(regions@.subrange(0, i as int)),
                forall|j: int|
                    0 <= j < regions@.len() ==> #[trigger] regions@[j].base + regions@[j].len
                        <= u64::MAX,
            decreases n - i,
        {
            let r = regions[i];
            proof {
                assert(regions@.subrange(0, i + 1).drop_last() =~= regions@.subrange(0, i as int));
                if found {
                    let w = choose|w: int|
                        0 <= w < i && #[trigger] regions@.subrange(0, i as int)[w].usable;
                    assert(regions@.subrange(0, i + 1)[w].usable);
                }
                if any_usable(regions@.subrange(0, i + 1)) && !r.usable {
                    let w = choose|w: int|
                        0 <= w < i + 1 && #[trigger] regions@.subrange(0, i + 1)[w].usable;
                    assert(regions@.subrange(0, i as int)[w].usable);
                }
                if r.usable {
                    assert(regions@.subrange(0, i + 1)[i as int].usable);
                }
            }
            if r.usable {
                if r.base + r.len > end {
                    end = r.base + r.len;
                }
                found = true;
            }
            i = i + 1;
        }
        proof {
            assert(regions@.subrange(0, n as int) =~= regions@);
        }
        if !found {
            return Err(InitError::NoUsableMemory);
        }
        let frames = end / 4096 + if end % 4096 != 0 {
            1
        } else {
            0
        };
        let bytes = frames / 8 + if frames % 8 != 0 {
            1
        } else {
            0
        };
        assert(bytes == bitmap_bytes(end as int));
        let mut h: usize = 0;
        while h < n && !(regions[h].usable && regions[h].len > bytes)
            invariant
                n == regions@.len(),
                h <= n,
                forall|i: int|
                    0 <= i < h ==> !(#[trigger] regions@[i].usable && regions@[i].len > bytes),
            decreases n - h,
        {
            h = h + 1;
        }
        if h == n {
            return Err(InitError::InsufficientStorage);
        }
        if bytes > 0x20_0000_0000 || bytes > usize::MAX as u64 {
            return Err(InitError::TooLarge);
        }
        let storage = regions[h].base;
        proof {
            assert(first_host(regions@, bytes as int, h as int));
            assert(bitmap_fits(bytes as int));
        }
        let count = bytes as usize;
        let mut bitmap: Vec<u8> = Vec::new();
        while bitmap.len() < count
            invariant
                bitmap@.len() <= count,
                forall|j: int| 0 <= j < bitmap@.len() ==> bitmap@[j] == 0xFF,
            decreases count - bitmap@.len(),
        {
            bitmap.push(0xFF);
        }
        proof {
            assert forall|k: int| 0 <= k < count * 8 implies #[trigger] marked(bitmap@, k)
                == !frame_usable(regions@.subrange(0, 0), k) by {
                lemma_full_byte(bitmap@[k / 8]);
            }
        }
        let mut ri: usize = 0;
        while ri < n
            invariant
                n == regions@.len(),
                ri <= n,
                bitmap@.len() == count,
                count == bytes,
                bytes == bitmap_bytes(end as int),
                end == usable_end(regions@),
                forall|j: int|
                    0 <= j < regions@.len() ==> #[trigger] regions@[j].base + regions@[j].len
                        <= u64::MAX,
                forall|k: int|
                    0 <= k < count * 8 ==> #[trigger] marked(bitmap@, k) == !frame_usable(
                        regions@.subrange(0, ri as int),
                        k,
                    ),
            decreases n - ri,
        {
            let r = regions[ri];
            let ghost done = regions@.subrange(0, ri as int);
            let ghost next = regions@.subrange(0, ri + 1);
            proof {
                assert forall|k: int| #[trigger]
                    frame_usable(next, k) == (frame_usable(done, k) || frame_in(r, k)) by {
                    if frame_usable(next, k) {
                        let w = choose|w: int| 0 <= w < next.len() && #[trigger] frame_in(next[w], k);
                        if w < ri {
                            assert(done[w] == next[w]);
                        }
                    }
                    if frame_usable(done, k) {
                        let w = choose|w: int| 0 <= w < done.len() && #[trigger] frame_in(done[w], k);
                        assert(done[w] == next[w]);
                    }
                    if frame_in(r, k) {
                        assert(next[ri as int] == r);
                    }
                }
            }
            if r.usable {
                let start = r.base / 4096 + if r.base % 4096 != 0 {
                    1
                } else {
                    0
                };
                let stop = (r.base + r.len) / 4096;
                proof {
                    lemma_usable_end_bounds(regions@, ri as int);
                    assert forall|k: int| #[trigger] frame_in(r, k) == (start <= k < stop) by {}
                }
                let mut k = start;
                while k < stop
                    invariant
                        start <= k,
                        k <= stop || k == start,
                        stop as int * 8 <= count * 64,
                        stop <= (end as int) / 4096,
                        bitmap@.len() == count,
                        count == bytes,
                        bytes == bitmap_bytes(end as int),
                        forall|q: int|
                            0 <= q < count * 8 ==> #[trigger] marked(bitmap@, q) == !(
                            frame_usable(done, q) || (start <= q < k)),
                    decreases stop - k,
                {
                    assert(k / 8 < count);
                    clear_bit(&mut bitmap, k);
                    k = k + 1;
                }
                proof {
                    assert forall|q: int| #[trigger] frame_in(r, q) == (start <= q < k) by {}
                }
            }
            ri = ri + 1;
        }
        proof {
            assert(regions@.subrange(0, n as int) =~= regions@);
        }
        if count > 0 {
            set_bit(&mut bitmap, 0);
        }
        let a = PhysicalFrameAllocator { bitmap, storage };
        proof {
            assert(first_host(regions@, a@.len() as int, h as int));
            assert(a.storage_spec() == regions@[h as int].base);
            assert(a.wf());
            assert(a@.len() == bitmap_bytes(usable_end(regions@)));
            assert(forall|k: int|
                0 <= k < a.frame_count() ==> #[trigger] a.used(k) == (k == 0 || !frame_usable(
                    regions@,
                    k,
                )));
        }
        Ok(a)
    }

    /// The physical address at which the bitmap is placed.
    pub closed spec fn storage_spec(self) -> u64 {
        self.storage
    }

    /// Returns the physical address at which the bitmap is placed: the base
    /// of the first usable region larger than the bitmap.
    pub fn storage(&self) -> (r: u64)
        ensures
            r == self.storage_spec(),
    {
        self.storage
    }

    /// The allocator's internal invariant: every frame has an address below
    /// 2^52, and frame zero is never available.
    pub closed spec fn wf(self) -> bool {
        &&& bitmap_fits(self.bitmap@.len() as int)
        &&& self.bitmap@.len() > 0 ==> marked(self.bitmap@, 0)
    }

    /// The number of frames that the bitmap covers.
    pub open spec fn frame_count(self) -> int {
        (self@.len() * 8) as int
    }

    /// Whether frame number `index` is unavailable.
    pub open spec fn used(self, index: int) -> bool {
        marked(self@, index)
    }

    /// Whether the bitmap has a bit for `frame`.
    pub open spec fn covers_spec(self, frame: Frame) -> bool {
        frame.index() < self.frame_count()
    }

    /// Whether frame number `index` is the first available one.
    pub open spec fn first_available(self, index: int) -> bool {
        &&& 0 <= index < self.frame_count()
        &&& !self.used(index)
        &&& forall|j: int| 0 <= j < index ==> #[trigger] self.used(j)
    }

    /// Whether every frame is unavailable.
    pub open spec fn exhausted(self) -> bool {
        forall|j: int| 0 <= j < self.frame_count() ==> #[trigger] self.used(j)
    }

    /// The numbers of the frames that are available.
    pub open spec fn free_frames(self) -> Set<int> {
        Set::new(|j: int| 0 <= j < self.frame_count() && !self.used(j))
    }

    /// How many frames are available.
    pub open spec fn free_count(self) -> nat {
        self.free_frames().len()
    }

    /// Whether `after` is `before` once `frame`, the first available frame of
    /// `before`, has been allocated.
    pub open spec fn alloc_step(before: Self, after: Self, frame: Frame) -> bool {
        &&& frame@ % 4096 == 0
        &&& frame@ < 0x10_0000_0000_0000
        &&& before.first_available(frame.index())
        &&& after@.len() == before@.len()
        &&& forall|j: int|
            0 <= j < before.frame_count() ==> #[trigger] after.used(j) == (before.used(j) || j
                == frame.index())
    }

    /// Whether `after` is `before` once `frame` has been deallocated.
    pub open spec fn dealloc_step(before: Self, after: Self, frame: Frame) -> bool {
        &&& after@.len() == before@.len()
        &&& forall|j: int|
            0 <= j < before.frame_count() ==> #[trigger] after.used(j) == (before.used(j) && j
                != frame.index())
    }

    /// Checks whether the bitmap has a bit for `frame`.
    pub fn covers(&self, frame: Frame) -> (r: bool)
        ensures
            r == self.covers_spec(frame),
    {
        let index = frame.addr() / 4096;
        index / 8 < self.bitmap.len() as u64
    }

    /// Checks whether `frame` is currently marked as available for allocation.
    pub fn available(&self, frame: Frame) -> (r: bool)
        requires
            self.covers_spec(frame),
        ensures
            r == !self.used(frame.index()),
    {
        let index = frame.addr() / 4096;
        assert(index as int == frame.index());
        let offset = (index % 8) as u8;
        let len = self.bitmap.len();
        assert(index / 8 < len);
        let byte = self.bitmap[(index / 8) as usize];
        let mask: u8 = 1u8 << (7 - offset);
        proof {
            lemma_test_bit(byte, offset);
            assert(mask == bit_mask(offset));
        }
        byte & mask == 0
    }

    /// Allocates the first available frame of physical memory, unless memory
    /// has been exhausted.
    pub fn alloc_frame(&mut self) -> (r: Option<Frame>)
        requires
            old(self).wf(),
        ensures
            final(self).wf(),
            final(self)@.len() == old(self)@.len(),
            r is None <==> old(self).exhausted(),
            r is None ==> final(self)@ == old(self)@,
            r matches Some(f) ==> Self::alloc_step(*old(self), *final(self), f),
    {
        let len = self.bitmap.len();
        let mut index: usize = 0;
        while index < len && self.bitmap[index] == 0xFF
            invariant
                len == self.bitmap@.len(),
                index <= len,
                forall|j: int| 0 <= j < index ==> self.bitmap@[j] == 0xFF,
            decreases len - index,
        {
            index = index + 1;
        }
        if index == len {
            proof {
                assert forall|j: int| 0 <= j < old(self).frame_count() implies #[trigger] old(
                    self,
                ).used(j) by {
                    lemma_full_byte(self.bitmap@[j / 8]);
                }
            }
            return None;
        }
        let byte = self.bitmap[index];
        let mut offset: u8 = 0;
        proof {
            lemma_test_bit(byte, 0);
        }
        while offset < 8 && byte & (1u8 << (7 - offset)) != 0
            invariant
                offset <= 8,
                forall|p: int| 0 <= p < offset ==> #[trigger] bit_set(byte, p),
                offset < 8 ==> ((byte & bit_mask(offset) == 0) == !bit_set(byte, offset as int)),
            decreases 8 - offset,
        {
            offset = offset + 1;
            if offset < 8 {
                proof {
                    lemma_test_bit(byte, offset);
                }
            }
        }
        proof {
            lemma_full_byte(byte);
            lemma_set_bit(byte, offset);
        }
        let ghost before = self.bitmap@;
        let mask: u8 = 1u8 << (7 - offset);
        assert(mask == bit_mask(offset));
        self.bitmap.set(index, byte | mask);
        let ghost k: int = index * 8 + offset;
        proof {
            assert(k / 8 == index && k % 8 == offset);
            assert(!old(self).used(k));
            assert forall|j: int| 0 <= j < k implies #[trigger] old(self).used(j) by {
                if j / 8 < index {
                    lemma_full_byte(before[j / 8]);
                }
            }
            assert forall|j: int| 0 <= j < old(self).frame_count() implies #[trigger] self.used(j)
                == (old(self).used(j) || j == k) by {
                if j / 8 != index {
                    assert(self.bitmap@[j / 8] == before[j / 8]);
                }
            }
            assert(k > 0) by {
                assert(old(self).used(0));
            }
            assert(k * 4096 < 0x10_0000_0000_0000) by (nonlinear_arith)
                requires
                    k < before.len() * 8,
                    before.len() * 32768 <= 0x10_0000_0000_0000,
            ;
        }
        let addr = (index as u64 * 8 + offset as u64) * 4096;
        let frame = Frame::containing_addr(addr);
        proof {
            assert(addr % 4096 == 0);
            assert(frame.index() == k);
        }
        Some(frame)
    }

    /// Deallocates a frame of physical memory, marking it available.
    ///
    /// The caller must ensure that `frame` was allocated by this allocator and
    /// that it is not read or written afterwards.
    pub fn dealloc(&mut self, frame: Frame)
        requires
            old(self).wf(),
            old(self).covers_spec(frame),
        ensures
            final(self).wf(),
            Self::dealloc_step(*old(self), *final(self), frame),
    {
        let index = frame.addr() / 4096;
        clear_bit(&mut self.bitmap, index);
        proof {
            assert(self.used(0));
        }
    }
}

/// Clears the bit of frame number `index`.
fn clear_bit(bitmap: &mut Vec<u8>, index: u64)
    requires
        index / 8 < old(bitmap)@.len(),
    ensures
        final(bitmap)@.len() == old(bitmap)@.len(),
        forall|j: int|
            0 <= j < old(bitmap)@.len() * 8 ==> #[trigger] marked(final(bitmap)@, j) == (marked(
                old(bitmap)@,
                j,
            ) && j != index),
{
    let offset = (index % 8) as u8;
    let len = bitmap.len();
    let at = (index / 8) as usize;
    assert(index == at * 8 + offset);
    let byte = bitmap[at];
    proof {
        lemma_clear_bit(byte, offset);
    }
    let mask: u8 = 1u8 << (7 - offset);
    assert(mask == bit_mask(offset));
    bitmap.set(at, byte & !mask);
    proof {
        assert forall|j: int| 0 <= j < old(bitmap)@.len() * 8 implies #[trigger] marked(bitmap@, j)
            == (marked(old(bitmap)@, j) && j != index) by {
            if j / 8 == at {
                assert(j == index <==> j % 8 == offset);
            } else {
                assert(bitmap@[j / 8] == old(bitmap)@[j / 8]);
            }
        }
    }
}

/// Sets the bit of frame number `index`.
fn set_bit(bitmap: &mut Vec<u8>, index: u64)
    requires
        index / 8 < old(bitmap)@.len(),
    ensures
        final(bitmap)@.len() == old(bitmap)@.len(),
        forall|j: int|
            0 <= j < old(bitmap)@.len() * 8 ==> #[trigger] marked(final(bitmap)@, j) == (marked(
                old(bitmap)@,
                j,
            ) || j == index),
{
    let offset = (index % 8) as u8;
    let len = bitmap.len();
    let at = (index / 8) as usize;
    assert(index == at * 8 + offset);
    let byte = bitmap[at];
    proof {
        lemma_set_bit(byte, offset);
    }
    let mask: u8 = 1u8 << (7 - offset);
    assert(mask == bit_mask(offset));
    bitmap.set(at, byte | mask);
    proof {
        assert forall|j: int| 0 <= j < old(bitmap)@.len() * 8 implies #[trigger] marked(bitmap@, j)
            == (marked(old(bitmap)@, j) || j == index) by {
            if j / 8 == at {
                assert(j == index <==> j % 8 == offset);
            } else {
                assert(bitmap@[j / 8] == old(bitmap)@[j / 8]);
            }
        }
    }
}

/// Frames handed out by a run of allocations, with no deallocation between
/// them, are pairwise distinct.
pub proof fn lemma_allocations_distinct(
    states: Seq<PhysicalFrameAllocator>,
    frames: Seq<Frame>,
)
    requires
        states.len() == frames.len() + 1,
        forall|i: int|
            0 <= i < frames.len() ==> PhysicalFrameAllocator::alloc_step(
                #[trigger] states[i],
                states[i + 1],
                frames[i],
            ),
    ensures
        forall|i: int, j: int|
            0 <= i < frames.len() && 0 <= j < frames.len() && i != j ==> #[trigger] frames[i]@
                != #[trigger] frames[j]@,
{
    assert forall|i: int, m: int| 0 <= i < m <= frames.len() implies #[trigger] states[m].used(
        frames[i].index(),
    ) && states[m]@.len() == states[0]@.len() by {
        lemma_stays_allocated(states, frames, i, m);
    }
    assert forall|i: int, j: int|
        0 <= i < frames.len() && 0 <= j < frames.len() && i != j implies #[trigger] frames[i]@
        != #[trigger] frames[j]@ by {
        if i < j {
            assert(states[j].used(frames[i].index()));
            assert(!states[j].used(frames[j].index()));
        } else {
            assert(states[i].used(frames[j].index()));
            assert(!states[i].used(frames[i].index()));
        }
    }
}

proof fn lemma_stays_allocated(
    states: Seq<PhysicalFrameAllocator>,
    frames: Seq<Frame>,
    i: int,
    m: int,
)
    requires
        states.len() == frames.len() + 1,
        forall|i: int|
            0 <= i < frames.len() ==> PhysicalFrameAllocator::alloc_step(
                #[trigger] states[i],
                states[i + 1],
                frames[i],
            ),
        0 <= i < m <= frames.len(),
    ensures
        states[m].used(frames[i].index()),
        states[m]@.len() == states[0]@.len(),
    decreases m,
{
    let idx = frames[i].index();
    let prev = states[m - 1];
    let cur = states[m];
    assert(PhysicalFrameAllocator::alloc_step(prev, cur, frames[m - 1]));
    lemma_stays_allocated_len(states, frames, m - 1);
    lemma_stays_allocated_len(states, frames, i);
    assert(PhysicalFrameAllocator::alloc_step(states[i], states[i + 1], frames[i]));
    assert(0 <= idx < states[i].frame_count());
    if m - 1 > i {
        lemma_stays_allocated(states, frames, i, m - 1);
        assert(prev.used(idx));
        assert(cur.used(idx));
    }
}

proof fn lemma_stays_allocated_len(
    states: Seq<PhysicalFrameAllocator>,
    frames: Seq<Frame>,
    m: int,
)
    requires
        states.len() == frames.len() + 1,
        forall|i: int|
            0 <= i < frames.len() ==> PhysicalFrameAllocator::alloc_step(
                #[trigger] states[i],
                states[i + 1],
                frames[i],
            ),
        0 <= m <= frames.len(),
    ensures
        states[m]@.len() == states[0]@.len(),
    decreases m,
{
    if m > 0 {
        assert(PhysicalFrameAllocator::alloc_step(states[m - 1], states[m], frames[m - 1]));
        lemma_stays_allocated_len(states, frames, m - 1);
    }
}

/// A frame is unavailable once it has been allocated, and available again
/// once it has then been deallocated.
pub proof fn lemma_alloc_then_dealloc(
    start: PhysicalFrameAllocator,
    allocated: PhysicalFrameAllocator,
    released: PhysicalFrameAllocator,
    frame: Frame,
)
    requires
        PhysicalFrameAllocator::alloc_step(start, allocated, frame),
        PhysicalFrameAllocator::dealloc_step(allocated, released, frame),
    ensures
        allocated.used(frame.index()),
        !released.used(frame.index()),
{
}

/// Right after set-up over `regions`, every bitmap byte whose eight frames
/// all lie outside the usable regions reads 0xFF, and every frame past frame
/// zero that lies wholly inside a usable region is covered and available.
pub proof fn lemma_initial_bitmap(regions: Seq<MemoryRegion>, a: PhysicalFrameAllocator)
    requires
        a@.len() == bitmap_bytes(usable_end(regions)),
        forall|k: int|
            0 <= k < a.frame_count() ==> #[trigger] a.used(k) == (k == 0 || !frame_usable(
                regions,
                k,
            )),
    ensures
        forall|b: int|
            0 <= b < a@.len() && (forall|k: int|
                8 * b <= k < 8 * b + 8 ==> !#[trigger] frame_usable(regions, k)) ==> #[trigger] a@[b]
                == 0xFF,
        forall|k: int|
            1 <= k && #[trigger] frame_usable(regions, k) ==> k < a.frame_count() && !a.used(k),
{
    assert forall|b: int|
        0 <= b < a@.len() && (forall|k: int|
            8 * b <= k < 8 * b + 8 ==> !#[trigger] frame_usable(regions, k)) implies #[trigger] a@[b]
        == 0xFF by {
        assert forall|p: int| 0 <= p < 8 implies #[trigger] bit_set(a@[b], p) by {
            let k = 8 * b + p;
            assert(k / 8 == b && k % 8 == p);
            assert(a.used(k));
        }
        lemma_full_byte(a@[b]);
    }
    assert forall|k: int| 1 <= k && #[trigger] frame_usable(regions, k) implies k < a.frame_count()
        && !a.used(k) by {
        let j = choose|j: int| 0 <= j < regions.len() && #[trigger] frame_in(regions[j], k);
        lemma_usable_end_bounds(regions, j);
    }
}

/// The available frames are finitely many.
pub proof fn lemma_free_frames_finite(a: PhysicalFrameAllocator)
    ensures
        a.free_frames().finite(),
{
    lemma_int_range(0, a.frame_count());
    lemma_len_subset(a.free_frames(), set_int_range(0, a.frame_count()));
}

/// An allocation uses up exactly one available frame.
pub proof fn lemma_alloc_uses_one(
    before: PhysicalFrameAllocator,
    after: PhysicalFrameAllocator,
    frame: Frame,
)
    requires
        PhysicalFrameAllocator::alloc_step(before, after, frame),
    ensures
        after.free_frames() == before.free_frames().remove(frame.index()),
        after.free_count() + 1 == before.free_count(),
{
    lemma_free_frames_finite(before);
    assert(after.free_frames() =~= before.free_frames().remove(frame.index()));
    vstd::set::axiom_set_remove_len(before.free_frames(), frame.index());
}

/// An allocator with an available frame is not exhausted.
pub proof fn lemma_not_exhausted(a: PhysicalFrameAllocator)
    requires
        a.free_count() > 0,
    ensures
        !a.exhausted(),
{
    if a.exhausted() {
        assert(a.free_frames() =~= Set::empty());
    }
}

} // verus!
