use freelsd_memory::{Frame, Page, PageEntryFlags, PageLevel, PageTable};

#[test]
fn frame_containing_addr_truncates() {
    assert_eq!(Frame::containing_addr(0x1234).addr(), 0x1000);
    assert_eq!(Frame::containing_addr(0x2000).addr(), 0x2000);
    assert_eq!(Frame::SIZE, 0x1000);
}

#[test]
fn frames_convert_through_the_direct_map() {
    let offset = 0xffff_8000_0000_0000;
    let f = Frame::containing_addr(0x5000);
    assert_eq!(f.as_non_null(offset), 0xffff_8000_0000_5000);
    assert_eq!(Frame::containing_ptr(0xffff_8000_0000_5abc, offset), f);
}

#[test]
fn page_containing_addr_truncates() {
    assert_eq!(Page::containing_addr(0x1fff).addr(), 0x1000);
    assert_eq!(Page::SIZE, 0x1000);
}

#[test]
fn page_indices() {
    let p = Page::containing_addr(0x0000_7fff_ffff_f000);
    assert_eq!(p.pml4_index(), 255);
    assert_eq!(p.pdpt_index(), 511);
    assert_eq!(p.pdt_index(), 511);
    assert_eq!(p.pt_index(), 511);
    let q = Page::containing_addr((3 << 39) | (5 << 30) | (7 << 21) | (11 << 12));
    assert_eq!((q.pml4_index(), q.pdpt_index(), q.pdt_index(), q.pt_index()), (3, 5, 7, 11));
}

#[test]
fn page_indices_recombine() {
    for addr in [0x1000u64, 0x20_3000, 0x0000_7fff_ffff_f000, 0x1234_5678_9000, 0xdead_beef_f000] {
        let p = Page::containing_addr(addr);
        let back = ((p.pml4_index() as u64) << 39)
            | ((p.pdpt_index() as u64) << 30)
            | ((p.pdt_index() as u64) << 21)
            | ((p.pt_index() as u64) << 12)
            | (addr & 0xfff);
        assert_eq!(back, addr);
    }
}

#[test]
fn level_indices_follow_the_level() {
    let p = Page::containing_addr((3 << 39) | (5 << 30) | (7 << 21) | (11 << 12));
    assert_eq!(PageLevel::Level4.index(&p), 3);
    assert_eq!(PageLevel::Level3.index(&p), 5);
    assert_eq!(PageLevel::Level2.index(&p), 7);
    assert_eq!(PageLevel::Level1.index(&p), 11);
    assert_eq!(PageLevel::Level4.next(), PageLevel::Level3);
    assert_eq!(PageLevel::Level2.next(), PageLevel::Level1);
    assert_eq!(PageLevel::Level1.next(), PageLevel::Level1);
}

#[test]
fn flags_keep_known_bits_only() {
    let f = PageEntryFlags::from_bits(u64::MAX);
    assert!(f.contains(PageEntryFlags::from_bits(PageEntryFlags::PRESENT)));
    assert!(f.contains(PageEntryFlags::from_bits(PageEntryFlags::SHARED)));
    assert_eq!(f, PageEntryFlags::from_bits(0b10_0001_1111));
    assert_eq!(PageEntryFlags::from_bits(1 << 5), PageEntryFlags::none());
    let rw = PageEntryFlags::from_bits(PageEntryFlags::PRESENT | PageEntryFlags::WRITABLE);
    assert!(rw.contains(PageEntryFlags::from_bits(PageEntryFlags::WRITABLE)));
    assert!(!rw.contains(PageEntryFlags::from_bits(PageEntryFlags::USER_ACCESSIBLE)));
    assert!(rw.contains(PageEntryFlags::none()));
}

#[test]
fn flag_bits_match_the_hardware_layout() {
    assert_eq!(PageEntryFlags::PRESENT, 1 << 0);
    assert_eq!(PageEntryFlags::WRITABLE, 1 << 1);
    assert_eq!(PageEntryFlags::USER_ACCESSIBLE, 1 << 2);
    assert_eq!(PageEntryFlags::WRITETHROUGH, 1 << 3);
    assert_eq!(PageEntryFlags::CACHEABLE, 1 << 4);
    assert_eq!(PageEntryFlags::SHARED, 1 << 9);
}

#[test]
fn new_tables_are_empty() {
    let t = PageTable::new(PageLevel::Level2);
    for i in [0usize, 1, 255, 511] {
        let e = t.entry(i);
        assert_eq!(e.frame(), None);
        assert_eq!(e.addr(), 0);
        assert_eq!(e.flags(), PageEntryFlags::none());
        assert!(e.underlying().is_none());
    }
}
