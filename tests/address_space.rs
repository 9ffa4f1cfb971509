use freelsd_memory::{AddressSpace, Frame, MemoryRegion, Page, PageEntryFlags, PhysicalFrameAllocator};

fn allocator() -> PhysicalFrameAllocator {
    let regions = vec![
        MemoryRegion { base: 0x0, len: 0x1000, usable: false },
        MemoryRegion { base: 0x1000, len: 0xff_000, usable: true },
    ];
    PhysicalFrameAllocator::new(&regions).unwrap()
}

fn available_count(a: &PhysicalFrameAllocator) -> usize {
    let mut n = 0;
    let mut addr = 0x1000;
    while a.covers(Frame::containing_addr(addr)) {
        if a.available(Frame::containing_addr(addr)) {
            n += 1;
        }
        addr += 0x1000;
    }
    n
}

fn rw() -> PageEntryFlags {
    PageEntryFlags::from_bits(PageEntryFlags::PRESENT | PageEntryFlags::WRITABLE)
}

#[test]
fn address_space_maps_pages_to_frames() {
    let mut phys = allocator();
    let mut space = AddressSpace::new();
    let addr = Page::containing_addr(0x1000);
    let frame = phys.alloc_frame().unwrap();
    assert_eq!(space.map(addr, Some(frame), rw(), &mut phys), None);
    assert_ne!(space.translate(addr), None);
    assert_eq!(space.translate(addr), Some(frame));
    space.release(&mut phys);
}

#[test]
fn allocator_backs_pages_with_disjoint_frames() {
    let mut phys = allocator();
    let mut space = AddressSpace::new();
    let alpha = (Page::containing_addr(0x1000), phys.alloc_frame().unwrap());
    let beta = (Page::containing_addr(0x2000), phys.alloc_frame().unwrap());
    space.map(alpha.0, Some(alpha.1), rw(), &mut phys);
    space.map(beta.0, Some(beta.1), rw(), &mut phys);
    assert_ne!(space.translate(alpha.0).unwrap(), space.translate(beta.0).unwrap());
    assert_eq!(space.translate(alpha.0), Some(alpha.1));
    assert_eq!(space.translate(beta.0), Some(beta.1));
}

#[test]
fn address_space_unmaps_allocated_pages() {
    let mut phys = allocator();
    let mut space = AddressSpace::new();
    let addr = Page::containing_addr(0x1000);
    let frame = phys.alloc_frame().unwrap();
    space.map(addr, Some(frame), rw(), &mut phys);
    let free = space.map(addr, None, PageEntryFlags::none(), &mut phys);
    assert_eq!(Some(frame), free);
    assert_eq!(space.translate(addr), None);
}

#[test]
fn address_space_releases_unshared_frames() {
    let mut phys = allocator();
    let mut space = AddressSpace::new();
    let addr = Page::containing_addr(0x1000);
    let frame = phys.alloc_frame().unwrap();
    space.map(addr, Some(frame), rw(), &mut phys);
    space.release(&mut phys);
    assert_eq!(phys.available(frame), true);
}

#[test]
fn release_returns_the_page_and_its_four_tables() {
    let mut phys = allocator();
    let before = available_count(&phys);
    let frame = phys.alloc_frame().unwrap();
    let mut space = AddressSpace::new();
    let page = Page::containing_addr(0x4000_0000);
    assert_eq!(space.tables_needed(page), 4);
    space.map(page, Some(frame), rw(), &mut phys);
    assert_eq!(available_count(&phys), before - 5);
    assert_eq!(space.tables_needed(page), 0);
    space.release(&mut phys);
    assert_eq!(available_count(&phys), before);
}

#[test]
fn shared_frames_survive_release() {
    let mut phys = allocator();
    let frame = phys.alloc_frame().unwrap();
    let before = available_count(&phys);
    let mut space = AddressSpace::new();
    let page = Page::containing_addr(0x1000);
    let flags = PageEntryFlags::from_bits(
        PageEntryFlags::PRESENT | PageEntryFlags::WRITABLE | PageEntryFlags::SHARED,
    );
    space.map(page, Some(frame), flags, &mut phys);
    space.release(&mut phys);
    assert_eq!(phys.available(frame), false);
    assert_eq!(available_count(&phys), before);
}

#[test]
fn tables_are_allocated_only_where_missing() {
    let mut phys = allocator();
    let mut space = AddressSpace::new();
    let a = Page::containing_addr(0x1000);
    let b = Page::containing_addr(0x2000);
    let c = Page::containing_addr(0x20_0000);
    let d = Page::containing_addr(0x80_0000_0000);
    space.map(a, Some(phys.alloc_frame().unwrap()), rw(), &mut phys);
    assert_eq!(space.tables_needed(b), 0);
    assert_eq!(space.tables_needed(c), 1);
    assert_eq!(space.tables_needed(d), 3);
    let count = available_count(&phys);
    space.map(c, Some(phys.alloc_frame().unwrap()), rw(), &mut phys);
    assert_eq!(available_count(&phys), count - 2);
}

#[test]
fn remapping_returns_the_previous_frame() {
    let mut phys = allocator();
    let mut space = AddressSpace::new();
    let page = Page::containing_addr(0x7000);
    let first = phys.alloc_frame().unwrap();
    let second = phys.alloc_frame().unwrap();
    assert_eq!(space.map(page, Some(first), rw(), &mut phys), None);
    assert_eq!(space.map(page, Some(second), rw(), &mut phys), Some(first));
    assert_eq!(space.translate(page), Some(second));
}

#[test]
fn non_present_entries_do_not_translate() {
    let mut phys = allocator();
    let mut space = AddressSpace::new();
    let page = Page::containing_addr(0x7000);
    let frame = phys.alloc_frame().unwrap();
    let writable = PageEntryFlags::from_bits(PageEntryFlags::WRITABLE);
    space.map(page, Some(frame), writable, &mut phys);
    assert_eq!(space.translate(page), None);
    // The entry still holds the frame, so it comes back on the next swap.
    assert_eq!(space.map(page, None, PageEntryFlags::none(), &mut phys), Some(frame));
}

#[test]
fn untouched_pages_translate_to_nothing() {
    let mut phys = allocator();
    let mut space = AddressSpace::new();
    assert_eq!(space.translate(Page::containing_addr(0x1000)), None);
    space.map(Page::containing_addr(0x1000), Some(phys.alloc_frame().unwrap()), rw(), &mut phys);
    assert_eq!(space.translate(Page::containing_addr(0x3000)), None);
    assert_eq!(space.translate(Page::containing_addr(0x40_0000)), None);
}

#[test]
fn release_of_an_empty_space_changes_nothing() {
    let mut phys = allocator();
    let before = available_count(&phys);
    AddressSpace::new().release(&mut phys);
    assert_eq!(available_count(&phys), before);
}
