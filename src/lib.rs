//! Memory and boot-to-kernel hand-off logic of a small x86-64 system: addresses and pages, a
//! four-level page-table editor, boot and kernel frame allocators, the ELF segment loader, the
//! boot-info builder, the early kernel heap, and the interrupt-controller and descriptor-table
//! encodings. Everything that touches the machine (memory writes, port I/O, control registers)
//! is planned here and carried out by the caller.

pub mod addr;
pub mod arch;
pub mod boot_info;
pub mod elf;
pub mod entry;
pub mod frame;
pub mod heap;
pub mod kmem;
pub mod kpage;
pub mod loader;
pub mod mappings;
pub mod mem;
pub mod misc;
pub mod paging;
pub mod phys;
pub mod pic;
