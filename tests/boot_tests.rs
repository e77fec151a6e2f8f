use ugo_os::addr::{Address, Page, PageRange, PhysFrame, VirtAddr, VirtPage};
use ugo_os::boot_info::{
    coalesce_regions, create_boot_info, create_mem_regions, split_reserved, fixup_pointer, new_mem_region, BootInfoAllocator,
    BootInfoPageAllocator, FramebufferDescriptor, MemRegion, RegionType,
};
use ugo_os::frame::{FirmwareMemoryType, FrameAllocator, MemoryDescriptor};
use ugo_os::kpage::KernelPageTables;
use ugo_os::loader::KernelAddresses;
use ugo_os::mappings::{Mappings, BOOTINFO_START};
use ugo_os::mem::FrameAllocator as MapAllocator;
use ugo_os::misc::FrameAllocatorError;

fn d(ty: FirmwareMemoryType, phys_start: u64, page_count: u64) -> MemoryDescriptor {
    MemoryDescriptor { ty, phys_start, page_count }
}

#[test]
fn descriptor_types() {
    assert_eq!(new_mem_region(&d(FirmwareMemoryType::Conventional, 0, 1)).ty, RegionType::Usable);
    assert_eq!(new_mem_region(&d(FirmwareMemoryType::LoaderData, 0, 1)).ty, RegionType::Allocated);
    assert_eq!(new_mem_region(&d(FirmwareMemoryType::LoaderCode, 0, 1)).ty, RegionType::Usable);
    assert_eq!(new_mem_region(&d(FirmwareMemoryType::BootServicesData, 0, 1)).ty, RegionType::Usable);
    assert_eq!(new_mem_region(&d(FirmwareMemoryType::Other, 0x1000, 2)), MemRegion { start: 0x1000, pages: 2, ty: RegionType::Allocated });
}

#[test]
fn coalesces_touching_regions_of_one_type() {
    let map = vec![
        d(FirmwareMemoryType::Conventional, 0, 0x10),
        d(FirmwareMemoryType::BootServicesCode, 0x10_000, 0x10),
        d(FirmwareMemoryType::LoaderData, 0x20_000, 0x10),
        d(FirmwareMemoryType::Conventional, 0x40_000, 0x10),
    ];
    let r = coalesce_regions(&map);
    assert_eq!(r, vec![
        MemRegion { start: 0, pages: 0x20, ty: RegionType::Usable },
        MemRegion { start: 0x20_000, pages: 0x10, ty: RegionType::Allocated },
        MemRegion { start: 0x40_000, pages: 0x10, ty: RegionType::Usable },
    ]);
}

#[test]
fn reservation_split_into_bootloader_and_suffix() {
    let map = vec![
        d(FirmwareMemoryType::Conventional, 0, 0x100),
        d(FirmwareMemoryType::Conventional, 0x10_0000, 0xF00),
    ];
    let used = PageRange::new(PhysFrame::from_base_u64(0x10_0000), PhysFrame::from_base_u64(0x10_4000));
    let r = create_mem_regions(&map, &used);
    assert_eq!(r, vec![
        MemRegion { start: 0, pages: 0x100, ty: RegionType::Usable },
        MemRegion { start: 0x10_0000, pages: 4, ty: RegionType::Bootloader },
        MemRegion { start: 0x10_4000, pages: 0xEFC, ty: RegionType::Usable },
    ]);
}

#[test]
fn reservation_at_region_end_has_no_suffix() {
    let map = vec![
        d(FirmwareMemoryType::Conventional, 0, 0x10),
        d(FirmwareMemoryType::Other, 0x10_000, 0x10),
    ];
    let used = PageRange::new(PhysFrame::from_base_u64(0xC000), PhysFrame::from_base_u64(0x10_000));
    let r = create_mem_regions(&map, &used);
    assert_eq!(r, vec![
        MemRegion { start: 0, pages: 0xC, ty: RegionType::Usable },
        MemRegion { start: 0xC000, pages: 4, ty: RegionType::Bootloader },
        MemRegion { start: 0x10_000, pages: 0x10, ty: RegionType::Allocated },
    ]);
    let boot = r.iter().filter(|x| x.ty == RegionType::Bootloader).count();
    assert_eq!(boot, 1);
    for w in r.windows(2) {
        assert!(w[0].start + w[0].pages * 4096 <= w[1].start);
    }
}

#[test]
fn boot_info_arena_fixup() {
    let map = vec![d(FirmwareMemoryType::Conventional, 0x4000_1000, 0x1000)];
    let mut a = FrameAllocator::new(&map, 0x100);
    let mut arena = BootInfoAllocator::new(&mut a);
    assert_eq!(arena.frame().base_u64(), 0x4000_1000);
    let regions = arena.allocate(24 * 10, 8);
    let info = arena.allocate(88, 8);
    assert_eq!(regions, 0x4000_1000);
    assert_eq!(info, 0x4000_10F0);
    let offset = BOOTINFO_START - 0x4000_1000;
    assert_eq!(fixup_pointer(offset, regions), BOOTINFO_START);
    assert_eq!(fixup_pointer(offset, info), BOOTINFO_START + 0xF0);
}

#[test]
fn boot_info_pages() {
    let range = PageRange::new(VirtPage::from_base_u64(BOOTINFO_START), VirtPage::from_base_u64(BOOTINFO_START + 0x10_000));
    let mut p = BootInfoPageAllocator::new(range);
    assert_eq!(p.alloc_page().base_u64(), BOOTINFO_START);
    let r = p.alloc_pages(3);
    assert_eq!((r.first().base_u64(), r.end().base_u64()), (BOOTINFO_START + 0x1000, BOOTINFO_START + 0x4000));
    assert_eq!(p.alloc_page().base_u64(), BOOTINFO_START + 0x4000);
}

#[test]
fn create_boot_info_record() {
    let map = vec![
        d(FirmwareMemoryType::Conventional, 0, 0x100),
        d(FirmwareMemoryType::Conventional, 0x4000_1000, 0x1000),
    ];
    let mut a = FrameAllocator::new(&map, 0x200);
    let mut m = Mappings::new(&mut a);
    let fb = FramebufferDescriptor { phys_addr: 0x8000_0800, byte_len: 0x2000, stride: 1024, width: 1024, height: 768 };
    let kernel = KernelAddresses {
        kernel_end: VirtAddr::new(0xFFFF_C000_4000_5000),
        kernel_entry: VirtAddr::new(0xFFFF_C000_4000_1000),
        stack_top: VirtAddr::new(0xFFFF_C000_4000_9FF0),
        stack_pages: 3,
    };
    let plan = create_boot_info(&mut a, &mut m, &fb, &map, kernel).ok().unwrap();
    let frame = 0x4000_2000u64;
    let offset = BOOTINFO_START - frame;
    assert_eq!(plan.boot_info_virt, plan.boot_info_phys + offset);
    assert_eq!(plan.boot_info.mem_regions.ptr, plan.regions_phys + offset);
    assert_eq!(plan.regions_phys, frame);
    assert_eq!(plan.boot_info.mem_regions.len, plan.regions.len() as u64);
    assert_eq!(plan.boot_info.framebuffer.address, BOOTINFO_START + 0x1000 + 0x800);
    assert_eq!(plan.regions.iter().filter(|r| r.ty == RegionType::Bootloader).count(), 1);
    let cr3 = m.level_4_phys_addr().as_u64();
    let k = KernelPageTables::new(m.tables, cr3).unwrap();
    assert_eq!(k.get_entry(VirtAddr::new(BOOTINFO_START)).unwrap().addr().as_u64(), frame);
    assert_eq!(k.get_entry(VirtAddr::new(BOOTINFO_START + 0x2000)).unwrap().addr().as_u64(), 0x8000_1000);
}

#[test]
fn descriptor_walking_allocator() {
    let map = vec![
        d(FirmwareMemoryType::Other, 0, 0x10),
        d(FirmwareMemoryType::Conventional, 0x10_000, 2),
        d(FirmwareMemoryType::Conventional, 0x20_000, 0x10),
    ];
    let mut a = MapAllocator::new(map);
    assert_eq!(a.total_physical_memory(), 0x30_000);
    assert_eq!(a.allocate(1), Ok(0x10_000));
    assert_eq!(a.allocate(1), Ok(0x11_000));
    assert_eq!(a.allocate(4), Ok(0x20_000));
    assert_eq!(a.allocate(0x20), Err(FrameAllocatorError::NoMoreDescriptors));
}

#[test]
fn split_keeps_other_regions() {
    let regions = vec![
        MemRegion { start: 0, pages: 0x10, ty: RegionType::Usable },
        MemRegion { start: 0x10_000, pages: 0x10, ty: RegionType::Allocated },
        MemRegion { start: 0x40_000, pages: 0x40, ty: RegionType::Usable },
    ];
    let used = PageRange::new(PhysFrame::from_base_u64(0x40_000), PhysFrame::from_base_u64(0x42_000));
    assert_eq!(split_reserved(&regions, &used), vec![
        MemRegion { start: 0, pages: 0x10, ty: RegionType::Usable },
        MemRegion { start: 0x10_000, pages: 0x10, ty: RegionType::Allocated },
        MemRegion { start: 0x40_000, pages: 2, ty: RegionType::Bootloader },
        MemRegion { start: 0x42_000, pages: 0x3E, ty: RegionType::Usable },
    ]);
    let outside = PageRange::new(PhysFrame::from_base_u64(0x30_000), PhysFrame::from_base_u64(0x31_000));
    assert_eq!(split_reserved(&regions, &outside), regions);
}

#[test]
fn boot_info_for_a_long_memory_map() {
    let mut map = Vec::new();
    for i in 0..200u64 {
        let ty = if i % 2 == 0 { FirmwareMemoryType::Conventional } else { FirmwareMemoryType::Other };
        map.push(d(ty, i * 0x10_000, 0x10));
    }
    map.push(d(FirmwareMemoryType::Conventional, 0x4000_0000, 0x1000));
    let mut a = FrameAllocator::new(&map, 0x200);
    let mut m = Mappings::new(&mut a);
    let fb = FramebufferDescriptor { phys_addr: 0x8000_0000, byte_len: 0x1000, stride: 8, width: 8, height: 8 };
    let kernel = KernelAddresses {
        kernel_end: VirtAddr::new(0xFFFF_C000_4000_5000),
        kernel_entry: VirtAddr::new(0xFFFF_C000_4000_1000),
        stack_top: VirtAddr::new(0xFFFF_C000_4000_9FF0),
        stack_pages: 3,
    };
    let plan = create_boot_info(&mut a, &mut m, &fb, &map, kernel).ok().unwrap();
    // Room for 203 regions of 24 bytes and the record need two arena frames.
    assert_eq!(plan.regions.len(), 202);
    assert_eq!(plan.boot_info.framebuffer.address, BOOTINFO_START + 0x2000);
    assert!(plan.boot_info_phys + 88 <= 0x4000_1000 + 0x3000);
    let cr3 = m.level_4_phys_addr().as_u64();
    let k = KernelPageTables::new(m.tables, cr3).unwrap();
    assert_eq!(k.get_entry(VirtAddr::new(BOOTINFO_START + 0x1000)).unwrap().addr().as_u64(), 0x4000_2000);
}
