use ugo_os::addr::{
    align_down, align_up, is_aligned, is_canonical, Address, Page, PageRange, PhysAddr, PhysFrame,
    VirtAddr, VirtPage,
};
use ugo_os::entry::PageTableEntry;

#[test]
fn align_down_and_up() {
    assert_eq!(align_down(0x1234, 0x1000), 0x1000);
    assert_eq!(align_up(0x1234, 0x1000), 0x2000);
    assert_eq!(align_up(0x2000, 0x1000), 0x2000);
    assert!(is_aligned(0x2000, 0x1000));
    assert!(!is_aligned(0x2001, 0x1000));
}

#[test]
fn align_down_then_up_is_stable() {
    let p = PhysAddr::new(0x12345);
    let down = p.align_down(0x100);
    let up = down.align_up(0x100);
    assert_eq!(up.as_u64() - down.as_u64(), 0);
    assert_eq!(down.as_u64(), 0x12300);
}

#[test]
fn canonical_extremes() {
    assert!(is_canonical(0x0000_7FFF_FFFF_FFFF));
    assert!(!is_canonical(0x0000_8000_0000_0000));
    assert!(is_canonical(0xFFFF_8000_0000_0000));
    assert_eq!(VirtAddr::new(0x0000_7FFF_FFFF_FFFF).as_u64(), 0x0000_7FFF_FFFF_FFFF);
    assert_eq!(VirtAddr::new(0xFFFF_8000_0000_0000).as_u64(), 0xFFFF_8000_0000_0000);
}

#[test]
fn table_indices() {
    let v = VirtAddr::new(0xFFFF_8000_0000_0000);
    assert_eq!(v.get_page_map_l4_idx(), 256);
    assert_eq!(v.get_page_dir_ptr_idx(), 0);
    assert_eq!(v.get_page_dir_idx(), 0);
    assert_eq!(v.get_page_table_idx(), 0);
    let w = VirtAddr::new(0xFFFF_FF00_4020_3123);
    assert_eq!(w.get_page_map_l4_idx(), 510);
    assert_eq!(w.get_page_dir_ptr_idx(), 1);
    assert_eq!(w.get_page_dir_idx(), 1);
    assert_eq!(w.get_page_table_idx(), 3);
    assert_eq!(w.page_offset(), 0x123);
}

#[test]
fn frame_round_trip() {
    assert_eq!(PhysFrame::from_base_u64(0x4000_1000).base_u64(), 0x4000_1000);
    assert_eq!(PhysFrame::from_containing_u64(0x4000_1fff).base_u64(), 0x4000_1000);
    assert_eq!(VirtPage::from_containing_u64(0xFFFF_8000_0000_0fff).base_u64(), 0xFFFF_8000_0000_0000);
    assert_eq!(PhysFrame::from_base_u64(0x3000).idx(), 3);
}

#[test]
fn frame_direct_mapped_page() {
    let f = PhysFrame::from_base_u64(0x5000);
    assert_eq!(f.as_direct_mapped().base_u64(), 0xFFFF_8000_0000_5000);
    assert_eq!(f.to_virt_page(0xFFFF_C000_0000_0000).base_u64(), 0xFFFF_C000_0000_5000);
}

#[test]
fn page_range_basics() {
    let r = PageRange::new(PhysFrame::from_base_u64(0x1000), PhysFrame::from_base_u64(0x4000));
    assert_eq!(r.len(), 3);
    assert_eq!(r.len_bytes(), 0x3000);
    assert_eq!(r.last().base_u64(), 0x3000);
    assert!(r.contains(PhysFrame::from_base_u64(0x2000)));
    assert!(!r.contains(PhysFrame::from_base_u64(0x4000)));
    assert_eq!(r.page(2).base_u64(), 0x3000);
    let mut it = r.iter();
    let mut seen = Vec::new();
    while let Some(f) = it.next() {
        seen.push(f.base_u64());
    }
    assert_eq!(seen, vec![0x1000, 0x2000, 0x3000]);
}

#[test]
fn huge_page_carve_split() {
    let r = PageRange::new(PhysFrame::from_base_u64(0x1000), PhysFrame::from_base_u64(0x4000_3000));
    let (pre, mid, suf) = r.aligned_range(0x4_0000);
    // No whole GiB lies inside: every frame goes to 4 KiB pages.
    let pre = pre.unwrap();
    assert_eq!((pre.first().base_u64(), pre.end().base_u64()), (0x1000, 0x4000_3000));
    assert!(mid.is_none());
    assert!(suf.is_none());
}

#[test]
fn huge_page_carve_with_whole_gib() {
    let r = PageRange::new(PhysFrame::from_base_u64(0x3FFF_E000), PhysFrame::from_base_u64(0x8000_2000));
    let (pre, mid, suf) = r.aligned_range(0x4_0000);
    let pre = pre.unwrap();
    let mid = mid.unwrap();
    let suf = suf.unwrap();
    assert_eq!((pre.first().base_u64(), pre.end().base_u64()), (0x3FFF_E000, 0x4000_0000));
    assert_eq!((mid.first().base_u64(), mid.end().base_u64()), (0x4000_0000, 0x8000_0000));
    assert_eq!((suf.first().base_u64(), suf.end().base_u64()), (0x8000_0000, 0x8000_2000));
}

#[test]
fn entry_fields() {
    let mut e = PageTableEntry::empty();
    e.set_addr(PhysAddr::new(0x1234_5678));
    e.set_present(true);
    e.set_write(true);
    e.set_no_exec(true);
    assert_eq!(e.addr().as_u64(), 0x1234_5000);
    assert!(e.present() && e.write() && e.no_exec() && !e.page_size());
    e.set_page_size(true);
    e.set_write(false);
    assert!(e.page_size() && !e.write());
    assert_eq!(e.entry, 0x8000_0000_1234_5081);
    e.clear();
    assert_eq!(e.entry, 0);
}
