use ugo_os::arch::{Gdt, GdtEntry, Idt, IdtEntry};

#[test]
fn gdt_descriptors() {
    assert_eq!(GdtEntry::new_kernel_code_segment().0, 0x0020_9800_0000_0000);
    assert_eq!(GdtEntry::new_kernel_data_segment().0, 0x0000_9200_0000_0000);
    assert_eq!(GdtEntry::new_user_code_segment().0, 0x0020_F800_0000_0000);
    assert_eq!(GdtEntry::new_user_data_segment().0, 0x0000_F200_0000_0000);
    let mut g = Gdt::new();
    g.initialize();
    assert_eq!(g.entries[0].0, 0);
    assert_eq!(g.entries[1], GdtEntry::new_kernel_code_segment());
    assert_eq!(Gdt::get_kernel_code_selector(), 8);
    assert_eq!(Gdt::get_kernel_data_selector(), 16);
    assert_eq!(Gdt::limit(), 39);
}

#[test]
fn idt_gates() {
    let mut idt = Idt::default();
    assert_eq!(idt.entries.len(), 256);
    idt.add_user_defined_handler(33, 0xFFFF_C000_4000_1234);
    let e = idt.entries[33];
    assert_eq!(e, IdtEntry { offset_low: 0x1234, selector: 8, options: 0x8E00, offset_high: 0xFFFF_C000_4000 });
    assert_eq!(idt.entries[32], IdtEntry::empty());
    assert_eq!(e.to_raw(), (0x4000_8E00_0008_1234, 0xFFFF_C000));
    assert!(Idt::has_error_code(14));
    assert!(Idt::has_error_code(8));
    assert!(!Idt::has_error_code(0));
    assert_eq!(Idt::limit(), 4095);
}
