use ugo_os::addr::{Page, PageRange, VirtAddr, VirtPage, Address};
use ugo_os::boot_info::{MemRegion, RegionType};
use ugo_os::frame::{FirmwareMemoryType, FrameAllocator, MemoryDescriptor};
use ugo_os::heap::{try_alloc_from_free_block, FreeBlock, KernelHeap};
use ugo_os::kmem::KernelMemoryManager;
use ugo_os::kpage::KernelPageTables;
use ugo_os::mappings::{Mappings, KERNEL_START};
use ugo_os::misc::{are_interrupts_enabled, CharPos, Color, VirtualAllocError, VirtualAllocator};
use ugo_os::phys::PhysFrameAllocator;
use ugo_os::pic::{CascadedPics, IRQCode, PicType, PortWrite};

fn bitmap_regions() -> Vec<MemRegion> {
    vec![
        MemRegion { start: 0, pages: 0x100, ty: RegionType::Usable },
        MemRegion { start: 0x10_0000, pages: 0x100, ty: RegionType::Allocated },
        MemRegion { start: 0x20_0000, pages: 0xFE00, ty: RegionType::Usable },
    ]
}

#[test]
fn bitmap_construction() {
    let a = PhysFrameAllocator::new(&bitmap_regions());
    assert_eq!(a.num_frames, 0x10000);
    assert_eq!(a.bitmap.map.len(), 0x2000);
    assert_eq!((a.storage.first().base_u64(), a.storage.end().base_u64()), (0, 0x2000));
    assert_eq!(a.bitmap.map[0], 0b1100_0000);
    for i in 0..0x10000u64 {
        let expect = i < 2 || (0x100..0x200).contains(&i);
        assert_eq!(a.bitmap.read(i), expect, "frame {:#x}", i);
    }
    assert_eq!(a.print_stats(), (0x102, 0x10000));
}

#[test]
fn alloc_then_free_restores_bitmap() {
    let mut a = PhysFrameAllocator::new(&bitmap_regions());
    let before = a.bitmap.map.clone();
    let f = a.alloc_frame().unwrap();
    assert_eq!(f.base_u64(), 0x2000);
    assert!(a.bitmap.read(2));
    assert_eq!(a.allocated, 0x103);
    a.free_frame(f);
    assert_eq!(a.bitmap.map, before);
    assert_eq!(a.allocated, 0x102);
}

#[test]
fn alloc_frame_exhausted() {
    let regions = vec![MemRegion { start: 0, pages: 2, ty: RegionType::Usable }];
    let mut a = PhysFrameAllocator::new(&regions);
    assert_eq!(a.alloc_frame().unwrap().base_u64(), 0x1000);
    assert!(a.alloc_frame().is_none());
}

const V0: u64 = 0xFFFF_C000_4010_0000;

fn heap() -> KernelHeap {
    KernelHeap::new(PageRange::new(VirtPage::from_base_u64(V0), VirtPage::from_base_u64(V0 + 10 * 4096)))
}

#[test]
fn heap_split_boundary() {
    let mut h = heap();
    assert_eq!(h.allocate(1, 16), Some(V0 + 16));
    assert_eq!(h.allocate(4096, 16), Some(V0 + 48));
    assert_eq!(h.allocate(1, 16), Some(V0 + 4160));
    let used: Vec<(u64, u64)> = h.allocations.iter().map(|r| (r.header.start, r.header.end)).collect();
    assert_eq!(used, vec![(V0, V0 + 24), (V0 + 24, V0 + 4144), (V0 + 4144, V0 + 4168)]);
    assert_eq!(h.free_list.blocks, vec![FreeBlock { start: V0 + 4168, end: V0 + 40960 }]);
    let mut g = heap();
    g.allocate(1, 16);
    g.allocate(4096, 16);
    g.allocate(1, 16);
    assert_eq!(g.allocate(36769, 16), None);
    assert_eq!(h.allocate(36768, 16), Some(V0 + 4192));
    assert!(h.free_list.blocks.is_empty());
}

#[test]
fn heap_free_reinserts_in_order() {
    let mut h = heap();
    let p = h.allocate(100, 8).unwrap();
    let q = h.allocate(100, 8).unwrap();
    assert!(h.free(p));
    assert_eq!(h.free_list.blocks[0], FreeBlock { start: V0, end: q - 16 });
    assert!(!h.free(p));
    assert_eq!(h.allocate(8, 8), Some(V0 + 16));
}

#[test]
fn try_alloc_placement() {
    let b = FreeBlock { start: 0x1000, end: 0x1040 };
    let r = try_alloc_from_free_block(&b, 8, 32).unwrap();
    assert_eq!((r.header_start, r.alloc_start, r.used_start), (0x1010, 0x1020, 0x1000));
    assert_eq!(r.remaining, Some((0x1028, 0x1040)));
    assert_eq!(r.used_end, 0x1028);
    let s = try_alloc_from_free_block(&b, 24, 32).unwrap();
    assert_eq!(s.remaining, None);
    assert_eq!(s.used_end, 0x1040);
    assert!(try_alloc_from_free_block(&b, 40, 32).is_none());
}

#[test]
fn memory_manager_heap() {
    let map = vec![MemoryDescriptor { ty: FirmwareMemoryType::Conventional, phys_start: 0x10_0000, page_count: 0x1000 }];
    let mut a = FrameAllocator::new(&map, 0x100);
    let m = Mappings::new(&mut a);
    let cr3 = m.level_4_phys_addr().as_u64();
    let k = KernelPageTables::new(m.tables, cr3).unwrap();
    let regions = vec![
        MemRegion { start: 0, pages: 0x100, ty: RegionType::Usable },
        MemRegion { start: 0x10_0000, pages: 0x100, ty: RegionType::Bootloader },
        MemRegion { start: 0x20_0000, pages: 0x100, ty: RegionType::Usable },
    ];
    let phys = PhysFrameAllocator::new(&regions);
    let stack_top = VirtAddr::new(KERNEL_START + 0x8FF0);
    let mut mm = KernelMemoryManager::new(k, phys, stack_top).ok().unwrap();
    assert_eq!(mm.heap.pages.first().base_u64(), KERNEL_START + 0x9000);
    assert_eq!(mm.heap.pages.len(), 10);
    let p = mm.heap_alloc(64, 16).unwrap();
    assert_eq!(p, KERNEL_START + 0x9010);
    assert!(mm.heap_free(p));
    for i in 0..10u64 {
        let e = mm.page_tables.get_entry(VirtAddr::new(KERNEL_START + 0x9000 + i * 4096)).unwrap();
        assert!(e.present() && e.write() && e.no_exec());
    }
}

#[test]
fn pic_lines_and_vectors() {
    let pics = CascadedPics::new();
    assert_eq!(IRQCode::IRQ1.source(), PicType::Master);
    assert_eq!(IRQCode::IRQ9.source(), PicType::Slave);
    assert_eq!(IRQCode::IRQ9.local_index(), 1);
    assert_eq!(pics.get_idt_offset(IRQCode::IRQ0), 32);
    assert_eq!(pics.get_idt_offset(IRQCode::IRQ1), 33);
    assert_eq!(pics.get_idt_offset(IRQCode::IRQ8), 40);
    assert_eq!(pics.get_idt_offset(IRQCode::IRQ15), 47);
}

#[test]
fn pic_eoi_and_masks() {
    let pics = CascadedPics::new();
    assert_eq!(pics.signal_eoi(IRQCode::IRQ1), vec![PortWrite { port: 0x20, value: 0x20 }]);
    assert_eq!(
        pics.signal_eoi(IRQCode::IRQ12),
        vec![PortWrite { port: 0xA0, value: 0x20 }, PortWrite { port: 0x20, value: 0x20 }]
    );
    assert_eq!(pics.enable_interrupt(IRQCode::IRQ1, 0xFF), PortWrite { port: 0x21, value: 0xFD });
    assert_eq!(pics.enable_interrupt(IRQCode::IRQ10, 0xFF), PortWrite { port: 0xA1, value: 0xFB });
}

#[test]
fn pic_init_sequence() {
    let pics = CascadedPics::new();
    let w = pics.initialize(0xAB, 0xCD);
    let wait = PortWrite { port: 0x80, value: 0 };
    assert_eq!(w.len(), 18);
    assert_eq!(&w[0..9], &[
        PortWrite { port: 0x20, value: 0x11 }, wait,
        PortWrite { port: 0x21, value: 32 }, wait,
        PortWrite { port: 0x21, value: 4 }, wait,
        PortWrite { port: 0x21, value: 1 }, wait,
        PortWrite { port: 0x21, value: 0xAB },
    ]);
    assert_eq!(w[13], PortWrite { port: 0xA1, value: 2 });
    assert_eq!(w[17], PortWrite { port: 0xA1, value: 0xCD });
}

#[test]
fn virtual_allocator() {
    let mut v = VirtualAllocator::new(0x1000);
    assert_eq!(v.allocate(2), Ok(0x1000));
    assert_eq!(v.allocate(1), Ok(0x3000));
    assert_eq!(v.next_addr, 0x4000);
    let mut w = VirtualAllocator::new(u64::MAX - 0x1000);
    assert_eq!(w.allocate(2), Err(VirtualAllocError::Exhausted));
}

#[test]
fn console_and_flags() {
    let p = CharPos(3, 4);
    assert_eq!(p.next_char(), CharPos(4, 4));
    assert_eq!(p.next_line(), CharPos(0, 5));
    assert_eq!(p.start_of_line(), CharPos(0, 4));
    assert_eq!(Color::from_rgb([1, 2, 3]).to_bgr(), [3, 2, 1]);
    assert!(are_interrupts_enabled(0x202));
    assert!(!are_interrupts_enabled(0x2));
}
