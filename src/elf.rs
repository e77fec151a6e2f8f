use vstd::prelude::*;

verus! {

/// The kind of an ELF program header, as far as loading cares.
#[derive(Clone, Copy, PartialEq, Eq, Structural, Debug)]
pub enum SegmentKind {
    Load,
    Other,
}

/// The fields of an ELF program header that the loader reads.
#[derive(Clone, Copy, PartialEq, Eq, Structural, Debug)]
pub struct SegmentHeader {
    pub kind: SegmentKind,
    pub offset: u64,
    pub virtual_addr: u64,
    pub file_size: u64,
    pub mem_size: u64,
    pub align: u64,
    pub execute: bool,
    pub write: bool,
}

/// The little-endian 16-bit value at byte `i` of `d`.
pub open spec fn le_u16(d: Seq<u8>, i: int) -> int {
    d[i] as int + d[i + 1] as int * 0x100
}

/// The little-endian 64-bit value at byte `i` of `d`.
pub open spec fn le_u64(d: Seq<u8>, i: int) -> int {
    d[i] as int + d[i + 1] as int * 0x100 + d[i + 2] as int * 0x1_0000 + d[i + 3] as int * 0x100_0000
        + d[i + 4] as int * 0x1_0000_0000 + d[i + 5] as int * 0x100_0000_0000 + d[i + 6] as int
        * 0x1_0000_0000_0000 + d[i + 7] as int * 0x100_0000_0000_0000
}

/// Offset of the program header table in a 64-bit ELF header.
pub open spec fn elf_ph_offset(d: Seq<u8>) -> int {
    le_u64(d, 32)
}

/// Size of one program header entry.
pub open spec fn elf_ph_entry_size(d: Seq<u8>) -> int {
    le_u16(d, 54)
}

/// Number of program header entries.
pub open spec fn elf_ph_count(d: Seq<u8>) -> int {
    le_u16(d, 56)
}

/// The bytes hold a whole 64-bit ELF header with the ELF magic, and a program header table that
/// lies inside the bytes, at an offset that is a multiple of 8, with entries of at least the
/// 64-bit header size and a multiple of 8 long. An ELF reader that takes the headers in place
/// then reads only inside the bytes, and only at 8-byte multiples from their start.
pub open spec fn elf_layout_ok(d: Seq<u8>) -> bool {
    &&& d.len() >= 64
    &&& d[0] == 0x7f && d[1] == 0x45 && d[2] == 0x4c && d[3] == 0x46
    &&& d[4] == 2
    &&& elf_ph_offset(d) % 8 == 0
    &&& elf_ph_entry_size(d) >= 56
    &&& elf_ph_entry_size(d) % 8 == 0
    &&& elf_ph_offset(d) + elf_ph_count(d) * elf_ph_entry_size(d) <= d.len()
}

/// Checks `elf_layout_ok` on the bytes.
pub fn check_elf_layout(data: &[u8]) -> (r: bool)
    ensures
        r == elf_layout_ok(data@),
{
    let len = data.len();
    if len < 64 {
        return false;
    }
    if data[0] != 0x7f || data[1] != 0x45 || data[2] != 0x4c || data[3] != 0x46 || data[4] != 2 {
        return false;
    }
    let off: u64 = data[32] as u64 + data[33] as u64 * 0x100 + data[34] as u64 * 0x1_0000 + data[35] as u64
        * 0x100_0000 + data[36] as u64 * 0x1_0000_0000 + data[37] as u64 * 0x100_0000_0000 + data[38] as u64
        * 0x1_0000_0000_0000 + data[39] as u64 * 0x100_0000_0000_0000;
    let es: u64 = data[54] as u64 + data[55] as u64 * 0x100;
    let n: u64 = data[56] as u64 + data[57] as u64 * 0x100;
    proof {
        assert(n * es <= 0xFFFF * 0xFFFF) by (nonlinear_arith)
            requires
                n <= 0xFFFF,
                es <= 0xFFFF,
        ;
    }
    off % 8 == 0 && es >= 56 && es % 8 == 0 && off <= len as u64 && n * es <= len as u64 - off
}

} // verus!
