use ugo_os::addr::{Address, Page, PageRange, PhysFrame, VirtAddr, VirtPage};
use ugo_os::frame::{FirmwareMemoryType, FrameAllocator, MemoryDescriptor};
use ugo_os::kpage::{KernelPageTables, MappingType};
use ugo_os::mappings::{Mappings, KERNEL_START};
use ugo_os::paging::{MappingFlags, PageTableStore};
use ugo_os::phys::PhysFrameAllocator;
use ugo_os::boot_info::{MemRegion, RegionType};

fn big_map() -> Vec<MemoryDescriptor> {
    vec![
        MemoryDescriptor { ty: FirmwareMemoryType::Other, phys_start: 0, page_count: 0x100 },
        MemoryDescriptor { ty: FirmwareMemoryType::Conventional, phys_start: 0x10_0000, page_count: 0x10_0000 },
    ]
}

#[test]
fn boot_allocator_reserves_first_fit() {
    let map = big_map();
    let mut a = FrameAllocator::new(&map, 256);
    assert_eq!(a.alloc_start().as_u64(), 0x10_0000);
    assert_eq!(a.alloc_end().as_u64(), 0x20_0000);
    assert_eq!(a.alloc_frame().base_u64(), 0x10_0000);
    assert_eq!(a.alloc_frame().base_u64(), 0x10_1000);
    let r = a.alloc_frame_range(3);
    assert_eq!((r.first().base_u64(), r.end().base_u64()), (0x10_2000, 0x10_5000));
    assert_eq!(a.frames_allocated(), 5);
    assert_eq!(a.used_range().end().base_u64(), 0x10_5000);
    assert_eq!(a.reserved_range().len(), 256);
    assert_eq!(a.frames_left(), 251);
}

#[test]
fn map_then_get_entry() {
    let map = big_map();
    let mut a = FrameAllocator::new(&map, 256);
    let mut m = Mappings::new(&mut a);
    assert_eq!(m.level_4_phys_addr().as_u64(), 0x10_0000);
    let page = VirtPage::from_base_u64(KERNEL_START);
    let frame = PhysFrame::from_base_u64(0x5000);
    m.map_page(frame, page, &mut a, MappingFlags::new_rw_data());
    // PML4, PDPT, PD, PT
    assert_eq!(m.tables.len(), 4);
    let cr3 = m.level_4_phys_addr().as_u64();
    let k = KernelPageTables::new(m.tables, cr3).unwrap();
    let e = k.get_entry(VirtAddr::new(KERNEL_START)).unwrap();
    assert_eq!(e.addr().as_u64(), 0x5000);
    assert!(e.present() && e.write() && e.no_exec());
    assert!(k.get_entry(VirtAddr::new(KERNEL_START + 0x4000_0000)).is_none());
}

#[test]
fn map_range_maps_every_page() {
    let map = big_map();
    let mut a = FrameAllocator::new(&map, 256);
    let mut m = Mappings::new(&mut a);
    let pages = PageRange::new(VirtPage::from_base_u64(KERNEL_START), VirtPage::from_base_u64(KERNEL_START + 0x3000));
    let frames = m.alloc_and_map_range(pages, &mut a, MappingFlags::new_code());
    assert_eq!(frames.len(), 3);
    let cr3 = m.level_4_phys_addr().as_u64();
    let k = KernelPageTables::new(m.tables, cr3).unwrap();
    for i in 0..3u64 {
        let e = k.get_entry(VirtAddr::new(KERNEL_START + i * 0x1000)).unwrap();
        assert_eq!(e.addr().as_u64(), frames.first().base_u64() + i * 0x1000);
        assert!(e.present() && !e.write() && !e.no_exec());
    }
}

#[test]
fn direct_map_small_huge_small() {
    let map = big_map();
    let mut a = FrameAllocator::new(&map, 0x10_0000);
    let mut m = Mappings::new(&mut a);
    let r = PageRange::new(PhysFrame::from_base_u64(0x3FFF_E000), PhysFrame::from_base_u64(0x8000_2000));
    assert!(m.direct_map_physical_range(r, &mut a).is_ok());
    let cr3 = m.level_4_phys_addr().as_u64();
    let k = KernelPageTables::new(m.tables, cr3).unwrap();
    let small = k.get_entry(VirtAddr::new(0xFFFF_8000_3FFF_F000)).unwrap();
    assert_eq!(small.addr().as_u64(), 0x3FFF_F000);
    assert!(!small.page_size() && small.present() && small.write() && small.no_exec());
    assert!(k.is_huge_at(VirtAddr::new(0xFFFF_8000_5000_0000)));
    assert!(!k.is_huge_at(VirtAddr::new(0xFFFF_8000_3FFF_F000)));
    let huge = k.get_entry(VirtAddr::new(0xFFFF_8000_5000_0000)).unwrap();
    assert!(huge.page_size() && huge.present() && huge.write() && huge.no_exec());
    assert_eq!(huge.addr().as_u64(), 0x4000_0000);
    let tail = k.get_entry(VirtAddr::new(0xFFFF_8000_8000_1000)).unwrap();
    assert_eq!(tail.addr().as_u64(), 0x8000_1000);
    assert!(!tail.page_size());
    assert!(k.get_entry(VirtAddr::new(0xFFFF_8000_8000_2000)).map_or(true, |e| !e.present()));
}

#[test]
fn physical_memory_is_direct_mapped() {
    let map = vec![MemoryDescriptor { ty: FirmwareMemoryType::Conventional, phys_start: 0x10_0000, page_count: 0x300 }];
    let mut a = FrameAllocator::new(&map, 0x200);
    let mut m = Mappings::new(&mut a);
    assert!(m.map_physical_memory(&map, &mut a).is_ok());
    let cr3 = m.level_4_phys_addr().as_u64();
    let k = KernelPageTables::new(m.tables, cr3).unwrap();
    let e = k.get_entry(VirtAddr::new(0xFFFF_8000_0020_0000)).unwrap();
    assert_eq!(e.addr().as_u64(), 0x20_0000);
    assert!(k.get_entry(VirtAddr::new(0xFFFF_8000_0040_0000)).map_or(true, |e| !e.present()));
}

#[test]
fn identity_map_two_pages() {
    let map = big_map();
    let mut a = FrameAllocator::new(&map, 256);
    let mut m = Mappings::new(&mut a);
    m.identity_map_fn(0x7_0FF0, &mut a);
    let cr3 = m.level_4_phys_addr().as_u64();
    let k = KernelPageTables::new(m.tables, cr3).unwrap();
    assert_eq!(k.get_entry(VirtAddr::new(0x7_0000)).unwrap().addr().as_u64(), 0x7_0000);
    assert_eq!(k.get_entry(VirtAddr::new(0x7_1000)).unwrap().addr().as_u64(), 0x7_1000);
    assert!(!k.get_entry(VirtAddr::new(0x7_1000)).unwrap().no_exec());
}

#[test]
fn kernel_alloc_and_map_page() {
    let map = big_map();
    let mut a = FrameAllocator::new(&map, 256);
    let m = Mappings::new(&mut a);
    let cr3 = m.level_4_phys_addr().as_u64();
    let mut k = KernelPageTables::new(m.tables, cr3).unwrap();
    let regions = vec![
        MemRegion { start: 0, pages: 0x100, ty: RegionType::Usable },
        MemRegion { start: 0x10_0000, pages: 0x100, ty: RegionType::Bootloader },
    ];
    let mut phys = PhysFrameAllocator::new(&regions);
    let page = VirtPage::from_base_u64(KERNEL_START + 0x1000);
    let frame = k.alloc_and_map_page(page, MappingType::DataRw, &mut phys).unwrap();
    let e = k.get_entry(VirtAddr::new(KERNEL_START + 0x1000)).unwrap();
    assert_eq!(e.addr().as_u64(), frame.base_u64());
    assert!(e.present() && e.write() && e.no_exec());
    assert!(KernelPageTables::new(k.tables, 0x1234_5000).is_none());
}

#[test]
fn malformed_tables_are_refused() {
    let map = big_map();
    let mut a = FrameAllocator::new(&map, 256);
    let m = Mappings::new(&mut a);
    assert!(m.tables.check_wf());
    let cr3 = m.level_4_phys_addr().as_u64();
    let mut broken = PageTableStore::new();
    broken.frames.push(cr3);
    broken.levels.push(4);
    assert!(!broken.check_wf());
    assert!(KernelPageTables::new(broken, cr3).is_none());
    let k = KernelPageTables::new(m.tables, cr3).unwrap();
    assert!(!k.is_huge_at(VirtAddr::new(KERNEL_START)));
}
