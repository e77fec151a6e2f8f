use ugo_os::addr::{Address, Page, PhysAddr, VirtAddr};
use ugo_os::elf::{check_elf_layout, SegmentHeader, SegmentKind};
use ugo_os::frame::{FirmwareMemoryType, FrameAllocator, MemoryDescriptor};
use ugo_os::kpage::KernelPageTables;
use ugo_os::loader::{is_valid_kernel_addr, phdr_flags_to_mappings_flags, plan_segment, FrameCopy, Loader, LoaderError};
use ugo_os::mappings::{Mappings, KERNEL_START};

fn seg(offset: u64, virtual_addr: u64, file_size: u64, mem_size: u64) -> SegmentHeader {
    SegmentHeader { kind: SegmentKind::Load, offset, virtual_addr, file_size, mem_size, align: 4096, execute: false, write: true }
}

fn setup() -> (FrameAllocator, Mappings) {
    let map = vec![MemoryDescriptor { ty: FirmwareMemoryType::Conventional, phys_start: 0x100_0000, page_count: 0x1000 }];
    let mut a = FrameAllocator::new(&map, 0x400);
    let m = Mappings::new(&mut a);
    (a, m)
}

fn elf_image(entry: u64, vaddr: u64) -> Vec<u8> {
    let mut v = vec![0x7f, b'E', b'L', b'F', 2, 1, 1, 0];
    v.extend_from_slice(&[0u8; 8]);
    v.extend_from_slice(&2u16.to_le_bytes());
    v.extend_from_slice(&0x3eu16.to_le_bytes());
    v.extend_from_slice(&1u32.to_le_bytes());
    v.extend_from_slice(&entry.to_le_bytes());
    v.extend_from_slice(&64u64.to_le_bytes());
    v.extend_from_slice(&0u64.to_le_bytes());
    v.extend_from_slice(&0u32.to_le_bytes());
    v.extend_from_slice(&64u16.to_le_bytes());
    v.extend_from_slice(&56u16.to_le_bytes());
    v.extend_from_slice(&1u16.to_le_bytes());
    v.extend_from_slice(&0u16.to_le_bytes());
    v.extend_from_slice(&0u16.to_le_bytes());
    v.extend_from_slice(&0u16.to_le_bytes());
    v.extend_from_slice(&1u32.to_le_bytes());
    v.extend_from_slice(&5u32.to_le_bytes());
    v.extend_from_slice(&0u64.to_le_bytes());
    v.extend_from_slice(&vaddr.to_le_bytes());
    v.extend_from_slice(&vaddr.to_le_bytes());
    v.extend_from_slice(&0x120u64.to_le_bytes());
    v.extend_from_slice(&0x3000u64.to_le_bytes());
    v.extend_from_slice(&4096u64.to_le_bytes());
    v
}

#[test]
fn kernel_address_check() {
    assert!(is_valid_kernel_addr(KERNEL_START));
    assert!(!is_valid_kernel_addr(KERNEL_START - 1));
    let f = phdr_flags_to_mappings_flags(&seg(0, KERNEL_START, 1, 1));
    assert!(f.write && !f.execute && f.present);
}

#[test]
fn segment_checks() {
    let mut s = seg(0, 0xFFFF_FF00_0000_0000, 0x1100, 0x2000);
    s.align = 0x20_0000;
    assert!(matches!(plan_segment(0x20_0000, &s), Err(LoaderError::ImproperAlignment(0x20_0000))));
    let low = seg(0, 0xFFFF_8000_0000_0000, 0x10, 0x10);
    assert!(matches!(plan_segment(0x20_0000, &low), Err(LoaderError::InvalidKernelSegmentAddress(0xFFFF_8000_0000_0000))));
    let unaligned = seg(0x1001, 0x1001, 0x10, 0x10);
    assert!(matches!(plan_segment(0x20_0000, &unaligned), Err(LoaderError::InvalidKernelSegmentAddress(0x1000))));
    let skew = seg(0x10, 0xFFFF_FF00_0000_0000, 0x10, 0x10);
    assert!(matches!(plan_segment(0x20_0000, &skew), Err(LoaderError::InvalidFileRange(0x10))));
}

#[test]
fn bss_straddle_plan() {
    let s = seg(0x1000, 0xFFFF_FF00_0000_0000, 0x1100, 0x2000);
    let p = plan_segment(0x20_0000, &s).ok().unwrap();
    let fp = p.file_pages.unwrap();
    assert_eq!((fp.first().base_u64(), fp.end().base_u64()), (0xFFFF_FF00_0000_0000, 0xFFFF_FF00_0000_2000));
    let ff = p.file_frames.unwrap();
    assert_eq!((ff.first().base_u64(), ff.end().base_u64()), (0x20_1000, 0x20_3000));
    let zp = p.zero_pages.unwrap();
    assert_eq!((zp.first().base_u64(), zp.end().base_u64()), (0xFFFF_FF00_0000_1000, 0xFFFF_FF00_0000_2000));
    assert!(p.boundary);
}

#[test]
fn bss_straddle_load() {
    let (mut a, mut m) = setup();
    let loader = Loader { kernel_phys_offset: PhysAddr::new(0x20_0000), segments: vec![], entry_point: 0 };
    let s = seg(0x1000, 0xFFFF_FF00_0000_0000, 0x1100, 0x2000);
    let load = loader.map_load_segment(&s, &mut m, &mut a).ok().unwrap();
    let zf = load.zero_frames.unwrap();
    assert_eq!(zf.len(), 1);
    let dst = zf.first().base_u64();
    assert_eq!(load.copy, Some(FrameCopy { src: 0x20_2000, dst, len: 0x100 }));
    let cr3 = m.level_4_phys_addr().as_u64();
    let k = KernelPageTables::new(m.tables, cr3).unwrap();
    assert_eq!(k.get_entry(VirtAddr::new(0xFFFF_FF00_0000_0000)).unwrap().addr().as_u64(), 0x20_1000);
    assert_eq!(k.get_entry(VirtAddr::new(0xFFFF_FF00_0000_1000)).unwrap().addr().as_u64(), dst);
    assert_ne!(dst, 0x20_2000);
    assert!(k.get_entry(VirtAddr::new(0xFFFF_FF00_0000_2000)).map_or(true, |e| !e.present()));
}

#[test]
fn aligned_segment_has_no_fixup() {
    let (mut a, mut m) = setup();
    let loader = Loader { kernel_phys_offset: PhysAddr::new(0x20_0000), segments: vec![], entry_point: 0 };
    let s = seg(0, KERNEL_START, 0x1000, 0x3000);
    let load = loader.map_load_segment(&s, &mut m, &mut a).ok().unwrap();
    assert!(load.copy.is_none());
    assert_eq!(load.zero_frames.unwrap().len(), 2);
}

#[test]
fn garbage_is_not_elf() {
    assert!(!check_elf_layout(&[0u8; 16]));
    let mut img = elf_image(0xFFFF_C000_4000_0010, 0xFFFF_C000_4000_0000);
    img[0] = 0;
    assert!(!check_elf_layout(&img));
}

#[test]
fn load_kernel_places_stack() {
    let mut h = seg(0, 0xFFFF_C000_4000_0000, 0x120, 0x3000);
    h.execute = true;
    h.write = false;
    let loader = Loader::new(vec![h], 0xFFFF_C000_4000_0010, 0x20_0000);
    assert_eq!(loader.kernel_phys_offset.as_u64(), 0x20_0000);
    let (mut a, mut m) = setup();
    let (addrs, loads) = loader.load_kernel(&mut m, &mut a).ok().unwrap();
    assert_eq!(loads.len(), 1);
    assert_eq!(addrs.kernel_end.as_u64(), 0xFFFF_C000_4000_3000);
    assert_eq!(addrs.kernel_entry.as_u64(), 0xFFFF_C000_4000_0010);
    assert_eq!(addrs.stack_top.as_u64(), 0xFFFF_C000_4000_3000 + 5 * 4096 - 16);
    assert_eq!(addrs.stack_pages, 3);
    let cr3 = m.level_4_phys_addr().as_u64();
    let k = KernelPageTables::new(m.tables, cr3).unwrap();
    let guard = k.get_entry(VirtAddr::new(0xFFFF_C000_4000_4000)).unwrap();
    assert!(!guard.present());
    assert!(k.get_entry(VirtAddr::new(0xFFFF_C000_4000_7000)).unwrap().present());
}

#[test]
fn truncated_program_table_is_refused() {
    let mut img = elf_image(0xFFFF_C000_4000_0010, 0xFFFF_C000_4000_0000);
    img.pop();
    assert!(!check_elf_layout(&img));
    let ok = elf_image(0xFFFF_C000_4000_0010, 0xFFFF_C000_4000_0000);
    assert!(check_elf_layout(&ok));
}

#[test]
fn invalid_segment_reports_its_error() {
    let mut loader = Loader { kernel_phys_offset: PhysAddr::new(0x20_0000), segments: vec![], entry_point: KERNEL_START };
    let mut bad = seg(0, KERNEL_START, 0x10, 0x10);
    bad.align = 8;
    loader.segments.push(bad);
    let (mut a, mut m) = setup();
    assert!(matches!(loader.load_kernel(&mut m, &mut a), Err(LoaderError::ImproperAlignment(8))));
}

#[test]
fn segment_runs_out_of_frames_only_when_exhausted() {
    let map = vec![MemoryDescriptor { ty: FirmwareMemoryType::Conventional, phys_start: 0x100_0000, page_count: 0x1000 }];
    let loader = Loader::new(vec![], 0, 0x20_0000);
    // One frame for the PML4, then two: not enough for the three tables a first page needs.
    let mut small = FrameAllocator::new(&map, 3);
    let mut m = Mappings::new(&mut small);
    let s = seg(0, KERNEL_START, 0x1000, 0x1000);
    assert!(matches!(loader.map_load_segment(&s, &mut m, &mut small), Err(LoaderError::OutOfFrames)));
    // Four frames: the tables fit, though fewer than three per page remain for a second page.
    let mut enough = FrameAllocator::new(&map, 4);
    let mut m2 = Mappings::new(&mut enough);
    let two = seg(0, KERNEL_START, 0x2000, 0x2000);
    assert!(loader.map_load_segment(&two, &mut m2, &mut enough).is_ok());
}
