use freelsd_memory::{Frame, InitError, MemoryRegion, PhysicalFrameAllocator};

fn region(base: u64, len: u64, usable: bool) -> MemoryRegion {
    MemoryRegion { base, len, usable }
}

/// A map with a reserved first frame, 1 MiB of low usable memory up to a
/// hole, and 1 MiB of usable memory above it.
fn machine() -> Vec<MemoryRegion> {
    vec![
        region(0x0, 0x1000, false),
        region(0x1000, 0x9_f000, true),
        region(0xa_0000, 0x6_0000, false),
        region(0x10_0000, 0x10_0000, true),
    ]
}

fn available_count(a: &PhysicalFrameAllocator, end: u64) -> usize {
    let mut n = 0;
    let mut addr = 0x1000;
    while addr < end {
        if a.available(Frame::containing_addr(addr)) {
            n += 1;
        }
        addr += 0x1000;
    }
    n
}

#[test]
fn allocator_marks_allocated_frames_as_unavailable() {
    let mut a = PhysicalFrameAllocator::new(&machine()).unwrap();
    let frame = a.alloc_frame().unwrap();
    assert_eq!(a.available(frame), false);
}

#[test]
fn allocator_allocates_disjoint_frames() {
    let mut a = PhysicalFrameAllocator::new(&machine()).unwrap();
    let x = a.alloc_frame().unwrap();
    let y = a.alloc_frame().unwrap();
    assert_ne!(x, y);
}

#[test]
fn allocator_marks_deallocated_frames_as_available() {
    let mut a = PhysicalFrameAllocator::new(&machine()).unwrap();
    let frame = a.alloc_frame().unwrap();
    a.dealloc(frame);
    assert_eq!(a.available(frame), true);
}

#[test]
fn allocation_is_first_fit() {
    let mut a = PhysicalFrameAllocator::new(&machine()).unwrap();
    assert_eq!(a.alloc_frame().unwrap().addr(), 0x1000);
    assert_eq!(a.alloc_frame().unwrap().addr(), 0x2000);
    a.dealloc(Frame::containing_addr(0x1000));
    assert_eq!(a.alloc_frame().unwrap().addr(), 0x1000);
    assert_eq!(a.alloc_frame().unwrap().addr(), 0x3000);
}

#[test]
fn allocations_are_pairwise_distinct_until_exhausted() {
    let regions = vec![region(0x1000, 0x7000, true)];
    let mut a = PhysicalFrameAllocator::new(&regions).unwrap();
    let mut seen: Vec<u64> = Vec::new();
    while let Some(f) = a.alloc_frame() {
        assert!(!seen.contains(&f.addr()));
        seen.push(f.addr());
    }
    assert_eq!(seen, vec![0x1000, 0x2000, 0x3000, 0x4000, 0x5000, 0x6000, 0x7000]);
    assert_eq!(a.alloc_frame(), None);
}

#[test]
fn initial_bitmap_follows_the_memory_map() {
    let a = PhysicalFrameAllocator::new(&machine()).unwrap();
    // Every frame wholly inside a usable region is available.
    let mut addr = 0x1000;
    while addr < 0xa_0000 {
        assert!(a.available(Frame::containing_addr(addr)));
        addr += 0x1000;
    }
    let mut addr = 0x10_0000;
    while addr < 0x20_0000 {
        assert!(a.available(Frame::containing_addr(addr)));
        addr += 0x1000;
    }
    // The hole is unavailable, whole bytes of the bitmap included.
    let mut addr = 0xa_0000;
    while addr < 0x10_0000 {
        assert!(!a.available(Frame::containing_addr(addr)));
        addr += 0x1000;
    }
    // The bitmap covers frames up to the end of the last usable region.
    assert!(a.covers(Frame::containing_addr(0x1f_f000)));
    assert!(!a.covers(Frame::containing_addr(0x20_0000)));
    assert_eq!(available_count(&a, 0x20_0000), 0x9f + 0x100);
}

#[test]
fn frames_outside_whole_usable_frames_stay_reserved() {
    // A usable region that starts and ends inside frames only frees the
    // frames it holds whole.
    let regions = vec![region(0x1800, 0x3000, true)];
    let a = PhysicalFrameAllocator::new(&regions).unwrap();
    assert!(!a.available(Frame::containing_addr(0x1000)));
    assert!(a.available(Frame::containing_addr(0x2000)));
    assert!(a.available(Frame::containing_addr(0x3000)));
    assert!(!a.available(Frame::containing_addr(0x4000)));
}

#[test]
fn frame_zero_is_never_handed_out() {
    let regions = vec![region(0x0, 0x2000, true)];
    let mut a = PhysicalFrameAllocator::new(&regions).unwrap();
    assert_eq!(a.alloc_frame().unwrap().addr(), 0x1000);
    assert_eq!(a.alloc_frame(), None);
}

#[test]
fn bitmap_is_placed_in_first_large_enough_usable_region() {
    let a = PhysicalFrameAllocator::new(&machine()).unwrap();
    assert_eq!(a.storage(), 0x1000);
    // 0x1000 bytes of bitmap cover 128 MiB; the first region is too small.
    let regions = vec![
        region(0x1000, 0x1000, true),
        region(0x10_0000, 0x800_0000 - 0x10_0000, true),
    ];
    let b = PhysicalFrameAllocator::new(&regions).unwrap();
    assert_eq!(b.storage(), 0x10_0000);
}

#[test]
fn setup_fails_without_usable_memory() {
    let regions = vec![region(0x0, 0x10_0000, false)];
    assert_eq!(PhysicalFrameAllocator::new(&regions).err(), Some(InitError::NoUsableMemory));
    assert_eq!(PhysicalFrameAllocator::new(&Vec::new()).err(), Some(InitError::NoUsableMemory));
}

#[test]
fn setup_fails_without_room_for_the_bitmap() {
    let regions = vec![region(0x1000, 0, true)];
    assert_eq!(
        PhysicalFrameAllocator::new(&regions).err(),
        Some(InitError::InsufficientStorage)
    );
}

#[test]
fn setup_fails_beyond_the_physical_address_space() {
    let regions = vec![region(1 << 59, 1 << 59, true)];
    assert_eq!(PhysicalFrameAllocator::new(&regions).err(), Some(InitError::TooLarge));
}

#[test]
fn covers_tells_frames_inside_the_bitmap() {
    let regions = vec![region(0x1000, 0x3000, true)];
    let a = PhysicalFrameAllocator::new(&regions).unwrap();
    // 0x4000 bytes of memory are four frames: one bitmap byte, eight frames.
    assert!(a.covers(Frame::containing_addr(0x7000)));
    assert!(!a.covers(Frame::containing_addr(0x8000)));
}
