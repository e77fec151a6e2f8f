use vstd::prelude::*;

verus! {

/// Descriptor privilege levels.
#[derive(Clone, Copy, PartialEq, Eq, Structural, Debug)]
pub enum PrivilegeLevel {
    Kernel,
    Level1,
    Level2,
    User,
}

pub open spec fn spec_dpl(p: PrivilegeLevel) -> u64 {
    match p {
        PrivilegeLevel::Kernel => 0,
        PrivilegeLevel::Level1 => 1,
        PrivilegeLevel::Level2 => 2,
        PrivilegeLevel::User => 3,
    }
}

/// A segment descriptor of the GDT, as its 64-bit word.
#[derive(Clone, Copy, PartialEq, Eq, Structural, Debug)]
pub struct GdtEntry(pub u64);

/// Bit 41: readable (code) or writable (data).
pub const GDT_READ_WRITE: u64 = 0x0000_0200_0000_0000;
/// Bit 43: code segment.
pub const GDT_CODE: u64 = 0x0000_0800_0000_0000;
/// Bit 44: code or data rather than a system segment.
pub const GDT_NON_SYSTEM: u64 = 0x0000_1000_0000_0000;
/// Bits 45..47: descriptor privilege level.
pub const GDT_DPL_SHIFT: u64 = 45;
/// Bit 47: present.
pub const GDT_PRESENT: u64 = 0x0000_8000_0000_0000;
/// Bit 53: 64-bit code.
pub const GDT_LONG_MODE: u64 = 0x0020_0000_0000_0000;

/// The descriptor of a present 64-bit code (`code`) or data segment at privilege `dpl`.
pub open spec fn spec_segment(code: bool, dpl: u64) -> u64 {
    if code {
        (GDT_PRESENT | GDT_NON_SYSTEM | GDT_CODE | GDT_LONG_MODE | (dpl << GDT_DPL_SHIFT)) as u64
    } else {
        (GDT_PRESENT | GDT_NON_SYSTEM | GDT_READ_WRITE | (dpl << GDT_DPL_SHIFT)) as u64
    }
}

impl GdtEntry {
    /// The null descriptor.
    pub fn empty() -> (r: GdtEntry)
        ensures
            r.0 == 0,
    {
        GdtEntry(0)
    }

    /// A present descriptor with nothing else set.
    pub fn new_64_bit_segment() -> (r: GdtEntry)
        ensures
            r.0 == GDT_PRESENT,
    {
        GdtEntry(GDT_PRESENT)
    }

    fn segment(code: bool, dpl: PrivilegeLevel) -> (r: GdtEntry)
        ensures
            r.0 == spec_segment(code, spec_dpl(dpl)),
    {
        let level: u64 = match dpl {
            PrivilegeLevel::Kernel => 0,
            PrivilegeLevel::Level1 => 1,
            PrivilegeLevel::Level2 => 2,
            PrivilegeLevel::User => 3,
        };
        let base = Self::new_64_bit_segment().0 | GDT_NON_SYSTEM | (level << GDT_DPL_SHIFT);
        proof {
            let p = GDT_PRESENT;
            assert((p | 0x0000_1000_0000_0000u64 | (level << 45u64)) | 0x0000_0800_0000_0000u64
                | 0x0020_0000_0000_0000u64 == p | 0x0000_1000_0000_0000u64 | 0x0000_0800_0000_0000u64
                | 0x0020_0000_0000_0000u64 | (level << 45u64) && (p | 0x0000_1000_0000_0000u64 | (level
                << 45u64)) | 0x0000_0200_0000_0000u64 == p | 0x0000_1000_0000_0000u64 | 0x0000_0200_0000_0000u64
                | (level << 45u64)) by (bit_vector);
        }
        if code {
            GdtEntry(base | GDT_CODE | GDT_LONG_MODE)
        } else {
            GdtEntry(base | GDT_READ_WRITE)
        }
    }

    /// Ring 0, 64-bit code.
    pub fn new_kernel_code_segment() -> (r: GdtEntry)
        ensures
            r.0 == spec_segment(true, 0),
    {
        Self::segment(true, PrivilegeLevel::Kernel)
    }

    /// Ring 0, writable data.
    pub fn new_kernel_data_segment() -> (r: GdtEntry)
        ensures
            r.0 == spec_segment(false, 0),
    {
        Self::segment(false, PrivilegeLevel::Kernel)
    }

    /// Ring 3, 64-bit code.
    pub fn new_user_code_segment() -> (r: GdtEntry)
        ensures
            r.0 == spec_segment(true, 3),
    {
        Self::segment(true, PrivilegeLevel::User)
    }

    /// Ring 3, writable data.
    pub fn new_user_data_segment() -> (r: GdtEntry)
        ensures
            r.0 == spec_segment(false, 3),
    {
        Self::segment(false, PrivilegeLevel::User)
    }
}

/// The five descriptors: null, kernel code, kernel data, user code, user data.
pub struct Gdt {
    pub entries: [GdtEntry; 5],
}

impl Gdt {
    pub const KERNEL_CODE_SEGMENT_IDX: u16 = 1;
    pub const KERNEL_DATA_SEGMENT_IDX: u16 = 2;

    /// A table of null descriptors.
    pub fn new() -> (r: Gdt)
        ensures
            forall|i: int| 0 <= i < 5 ==> (#[trigger] r.entries@[i]).0 == 0,
    {
        Gdt { entries: [GdtEntry(0), GdtEntry(0), GdtEntry(0), GdtEntry(0), GdtEntry(0)] }
    }

    /// Fills in the four segments after the null descriptor.
    pub fn initialize(&mut self)
        ensures
            final(self).entries@[0] == old(self).entries@[0],
            final(self).entries@[1].0 == spec_segment(true, 0),
            final(self).entries@[2].0 == spec_segment(false, 0),
            final(self).entries@[3].0 == spec_segment(true, 3),
            final(self).entries@[4].0 == spec_segment(false, 3),
    {
        self.entries.set(1, GdtEntry::new_kernel_code_segment());
        self.entries.set(2, GdtEntry::new_kernel_data_segment());
        self.entries.set(3, GdtEntry::new_user_code_segment());
        self.entries.set(4, GdtEntry::new_user_data_segment());
    }

    /// The selector of the kernel code segment: its index times 8, ring 0.
    pub fn get_kernel_code_selector() -> (r: u16)
        ensures
            r == 8,
    {
        Self::KERNEL_CODE_SEGMENT_IDX * 8
    }

    /// The selector of the kernel data segment.
    pub fn get_kernel_data_selector() -> (r: u16)
        ensures
            r == 16,
    {
        Self::KERNEL_DATA_SEGMENT_IDX * 8
    }

    /// The limit operand of LGDT: the table's size in bytes minus one.
    pub fn limit() -> (r: u16)
        ensures
            r == 39,
    {
        5 * 8 - 1
    }
}

/// One 16-byte gate of the IDT.
#[derive(Clone, Copy, PartialEq, Eq, Structural, Debug)]
pub struct IdtEntry {
    pub offset_low: u16,
    pub selector: u16,
    /// IST index (bits 0..3), gate type (bits 8..12), privilege (bits 13..15), present (bit 15).
    pub options: u16,
    pub offset_high: u64,
}

/// An interrupt gate (type 0b1110), present, ring 0.
pub const IDT_INTERRUPT_GATE_PRESENT: u16 = 0x8E00;

/// The entry is a present interrupt gate to `address` through the kernel code segment.
pub open spec fn spec_gate_to(e: IdtEntry, address: u64) -> bool {
    &&& e.offset_low as u64 + e.offset_high * 0x10000 == address
    &&& e.selector == 8
    &&& e.options == IDT_INTERRUPT_GATE_PRESENT
}

impl IdtEntry {
    /// A missing gate.
    pub fn empty() -> (r: IdtEntry)
        ensures
            r == (IdtEntry { offset_low: 0, selector: 0, options: 0, offset_high: 0 }),
    {
        IdtEntry { offset_low: 0, selector: 0, options: 0, offset_high: 0 }
    }

    /// Splits the handler address over the two offset fields.
    pub fn set_address(&mut self, address: u64)
        ensures
            final(self).offset_low as u64 + final(self).offset_high * 0x10000 == address,
            final(self).selector == old(self).selector,
            final(self).options == old(self).options,
    {
        self.offset_low = (address % 0x10000) as u16;
        self.offset_high = address / 0x10000;
    }

    /// The two 64-bit words that the processor reads for this entry, low word first.
    pub fn to_raw(&self) -> (r: (u64, u64))
        ensures
            r.0 == self.offset_low as u64 | (self.selector as u64) << 16u64 | (self.options as u64) << 32u64
                | (self.offset_high & 0xFFFF) << 48u64,
            r.1 == self.offset_high >> 16u64,
    {
        let low = self.offset_low as u64 | (self.selector as u64) << 16u64 | (self.options as u64) << 32u64
            | (self.offset_high & 0xFFFF) << 48u64;
        (low, self.offset_high >> 16u64)
    }

    /// Makes the entry a present interrupt gate into the kernel code segment for `address`.
    pub fn set_handler(&mut self, address: u64)
        ensures
            spec_gate_to(*final(self), address),
    {
        self.set_address(address);
        self.selector = Gdt::get_kernel_code_selector();
        self.options = IDT_INTERRUPT_GATE_PRESENT;
    }
}

/// Vectors below 32 are the architectural exceptions; 8, 10..15 and 17 push an error code.
pub open spec fn spec_has_error_code(vector: int) -> bool {
    vector == 8 || (10 <= vector <= 14) || vector == 17
}

/// The interrupt descriptor table: 256 gates.
pub struct Idt {
    pub entries: Vec<IdtEntry>,
}

impl Idt {
    pub const NUM_ENTRIES: usize = 256;
    pub const LAST_EXCEPTION: u16 = 20;
    pub const USER_DEFINED_START: u16 = 32;

    /// A table of missing gates.
    pub fn default() -> (r: Idt)
        ensures
            r.entries@.len() == 256,
            forall|i: int| 0 <= i < 256 ==> #[trigger] r.entries@[i] == (IdtEntry { offset_low: 0, selector: 0, options: 0, offset_high: 0 }),
    {
        let mut entries: Vec<IdtEntry> = Vec::new();
        let mut i: usize = 0;
        while i < Self::NUM_ENTRIES
            invariant
                i <= 256,
                entries@.len() == i,
                forall|k: int| 0 <= k < i ==> #[trigger] entries@[k] == (IdtEntry { offset_low: 0, selector: 0, options: 0, offset_high: 0 }),
            decreases 256 - i,
        {
            entries.push(IdtEntry::empty());
            i += 1;
        }
        Idt { entries }
    }

    /// Whether the exception at `vector` pushes an error code, so that its handler takes one.
    pub fn has_error_code(vector: u16) -> (r: bool)
        ensures
            r == spec_has_error_code(vector as int),
    {
        vector == 8 || (vector >= 10 && vector <= 14) || vector == 17
    }

    /// Installs the handler at `address` for the exception or interrupt `vector`.
    pub fn set_handler(&mut self, vector: u16, address: u64)
        requires
            old(self).entries@.len() == 256,
            vector < 256,
        ensures
            final(self).entries@.len() == 256,
            spec_gate_to(final(self).entries@[vector as int], address),
            forall|i: int| 0 <= i < 256 && i != vector ==> #[trigger] final(self).entries@[i] == old(self).entries@[i],
    {
        let mut e = IdtEntry::empty();
        e.set_handler(address);
        self.entries.set(vector as usize, e);
    }

    /// Installs the handler at `address` for the user-defined vector `index` (32 or more).
    pub fn add_user_defined_handler(&mut self, index: u16, address: u64)
        requires
            old(self).entries@.len() == 256,
            Self::USER_DEFINED_START <= index < 256,
        ensures
            final(self).entries@.len() == 256,
            spec_gate_to(final(self).entries@[index as int], address),
            forall|i: int| 0 <= i < 256 && i != index ==> #[trigger] final(self).entries@[i] == old(self).entries@[i],
    {
        self.set_handler(index, address);
    }

    /// The limit operand of LIDT: the table's size in bytes minus one.
    pub fn limit() -> (r: u16)
        ensures
            r == 4095,
    {
        (Self::NUM_ENTRIES * 16 - 1) as u16
    }
}

} // verus!
