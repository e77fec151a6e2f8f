use vstd::prelude::*;
use crate::addr::{lemma_page_mask, Address, PhysAddr};

verus! {

/// Bits 12..52 of an entry: the physical frame address.
pub const ADDR_MASK: u64 = 0x000F_FFFF_FFFF_F000;

pub open spec fn spec_present(e: u64) -> bool {
    e & 1 != 0
}

pub open spec fn spec_write(e: u64) -> bool {
    e & 2 != 0
}

pub open spec fn spec_page_size(e: u64) -> bool {
    e & 0x80 != 0
}

pub open spec fn spec_no_exec(e: u64) -> bool {
    e & 0x8000_0000_0000_0000 != 0
}

pub open spec fn spec_entry_addr(e: u64) -> u64 {
    e & ADDR_MASK
}

/// The value of bit `index` of `e`.
pub open spec fn spec_flag(e: u64, index: u64) -> bool {
    e & (1u64 << index) != 0
}

/// `e` with bit `index` set to `flag`.
pub open spec fn spec_with_flag(e: u64, index: u64, flag: bool) -> u64 {
    if flag {
        e | (1u64 << index)
    } else {
        e & !(1u64 << index)
    }
}

/// A 64-bit page-table entry: flags in the low and top bits, a frame address in bits 12..52.
#[derive(Clone, Copy, PartialEq, Eq, Structural, Debug)]
pub struct PageTableEntry {
    pub entry: u64,
}

/// Setting one of the flag bits changes that bit alone.
proof fn lemma_set_flag(e: u64, index: u64, flag: bool)
    requires
        index == 0 || index == 1 || index == 7 || index == 63,
    ensures
        spec_flag(spec_with_flag(e, index, flag), index) == flag,
        index != 0 ==> spec_present(spec_with_flag(e, index, flag)) == spec_present(e),
        index != 1 ==> spec_write(spec_with_flag(e, index, flag)) == spec_write(e),
        index != 7 ==> spec_page_size(spec_with_flag(e, index, flag)) == spec_page_size(e),
        index != 63 ==> spec_no_exec(spec_with_flag(e, index, flag)) == spec_no_exec(e),
        spec_entry_addr(spec_with_flag(e, index, flag)) == spec_entry_addr(e),
        spec_with_flag(e, index, flag) & !(1u64 << index) == e & !(1u64 << index),
{
    let m = 1u64 << index;
    lemma_flag_masks(e);
    assert(m == 1 || m == 2 || m == 0x80 || m == 0x8000_0000_0000_0000 ==> {
        &&& (e | m) & m != 0
        &&& (e & !m) & m == 0
        &&& (m != 1 ==> ((e | m) & 1 != 0) == (e & 1 != 0) && ((e & !m) & 1 != 0) == (e & 1 != 0))
        &&& (m != 2 ==> ((e | m) & 2 != 0) == (e & 2 != 0) && ((e & !m) & 2 != 0) == (e & 2 != 0))
        &&& (m != 0x80 ==> ((e | m) & 0x80 != 0) == (e & 0x80 != 0) && ((e & !m) & 0x80 != 0) == (e
            & 0x80 != 0))
        &&& (m != 0x8000_0000_0000_0000 ==> ((e | m) & 0x8000_0000_0000_0000 != 0) == (e
            & 0x8000_0000_0000_0000 != 0) && ((e & !m) & 0x8000_0000_0000_0000 != 0) == (e
            & 0x8000_0000_0000_0000 != 0))
        &&& (e | m) & 0x000F_FFFF_FFFF_F000 == e & 0x000F_FFFF_FFFF_F000
        &&& (e & !m) & 0x000F_FFFF_FFFF_F000 == e & 0x000F_FFFF_FFFF_F000
        &&& (e | m) & !m == e & !m
        &&& (e & !m) & !m == e & !m
    }) by (bit_vector);
}

/// The four flag masks, and each flag read through its bit index.
proof fn lemma_flag_masks(e: u64)
    ensures
        1u64 << 0u64 == 1,
        1u64 << 1u64 == 2,
        1u64 << 7u64 == 0x80,
        1u64 << 63u64 == 0x8000_0000_0000_0000,
        spec_flag(e, 0) == spec_present(e),
        spec_flag(e, 1) == spec_write(e),
        spec_flag(e, 7) == spec_page_size(e),
        spec_flag(e, 63) == spec_no_exec(e),
{
    assert(1u64 << 0u64 == 1 && 1u64 << 1u64 == 2 && 1u64 << 7u64 == 0x80 && 1u64 << 63u64
        == 0x8000_0000_0000_0000) by (bit_vector);
}

impl PageTableEntry {
    const PRESENT_IDX: u64 = 0;
    const WRITE_IDX: u64 = 1;
    const PAGE_SIZE_IDX: u64 = 7;
    const NO_EXEC_IDX: u64 = 63;

    /// The entry with every bit clear.
    pub fn empty() -> (r: PageTableEntry)
        ensures
            r.entry == 0,
    {
        PageTableEntry { entry: 0 }
    }

    fn get_flag(&self, index: u64) -> (r: bool)
        requires
            index < 64,
        ensures
            r == spec_flag(self.entry, index),
    {
        self.entry & (1u64 << index) != 0
    }

    fn set_flag(&mut self, flag: bool, index: u64)
        requires
            index == 0 || index == 1 || index == 7 || index == 63,
        ensures
            final(self).entry == spec_with_flag(old(self).entry, index, flag),
            spec_flag(final(self).entry, index) == flag,
            index != 0 ==> spec_present(final(self).entry) == spec_present(old(self).entry),
            index != 1 ==> spec_write(final(self).entry) == spec_write(old(self).entry),
            index != 7 ==> spec_page_size(final(self).entry) == spec_page_size(old(self).entry),
            index != 63 ==> spec_no_exec(final(self).entry) == spec_no_exec(old(self).entry),
            spec_entry_addr(final(self).entry) == spec_entry_addr(old(self).entry),
            final(self).entry & !(1u64 << index) == old(self).entry & !(1u64 << index),
    {
        proof {
            lemma_set_flag(self.entry, index, flag);
        }
        let m = 1u64 << index;
        if flag {
            self.entry = self.entry | m;
        } else {
            self.entry = self.entry & !m;
        }
    }

    pub fn present(&self) -> (r: bool)
        ensures
            r == spec_present(self.entry),
    {
        proof {
            lemma_flag_masks(self.entry);
        }
        self.get_flag(Self::PRESENT_IDX)
    }

    pub fn set_present(&mut self, present: bool)
        ensures
            spec_present(final(self).entry) == present,
            spec_write(final(self).entry) == spec_write(old(self).entry),
            spec_page_size(final(self).entry) == spec_page_size(old(self).entry),
            spec_no_exec(final(self).entry) == spec_no_exec(old(self).entry),
            spec_entry_addr(final(self).entry) == spec_entry_addr(old(self).entry),
            final(self).entry & !1u64 == old(self).entry & !1u64,
    {
        let ghost e = self.entry;
        self.set_flag(present, Self::PRESENT_IDX);
        proof {
            let f = self.entry;
            lemma_flag_masks(f);
        }
    }

    pub fn write(&self) -> (r: bool)
        ensures
            r == spec_write(self.entry),
    {
        proof {
            lemma_flag_masks(self.entry);
        }
        self.get_flag(Self::WRITE_IDX)
    }

    pub fn set_write(&mut self, rw: bool)
        ensures
            spec_write(final(self).entry) == rw,
            spec_present(final(self).entry) == spec_present(old(self).entry),
            spec_page_size(final(self).entry) == spec_page_size(old(self).entry),
            spec_no_exec(final(self).entry) == spec_no_exec(old(self).entry),
            spec_entry_addr(final(self).entry) == spec_entry_addr(old(self).entry),
            final(self).entry & !2u64 == old(self).entry & !2u64,
    {
        self.set_flag(rw, Self::WRITE_IDX);
        proof {
            let f = self.entry;
            lemma_flag_masks(f);
        }
    }

    pub fn no_exec(&self) -> (r: bool)
        ensures
            r == spec_no_exec(self.entry),
    {
        proof {
            lemma_flag_masks(self.entry);
        }
        self.get_flag(Self::NO_EXEC_IDX)
    }

    pub fn set_no_exec(&mut self, no_exec: bool)
        ensures
            spec_no_exec(final(self).entry) == no_exec,
            spec_present(final(self).entry) == spec_present(old(self).entry),
            spec_write(final(self).entry) == spec_write(old(self).entry),
            spec_page_size(final(self).entry) == spec_page_size(old(self).entry),
            spec_entry_addr(final(self).entry) == spec_entry_addr(old(self).entry),
            final(self).entry & !0x8000_0000_0000_0000u64 == old(self).entry & !0x8000_0000_0000_0000u64,
    {
        self.set_flag(no_exec, Self::NO_EXEC_IDX);
        proof {
            let f = self.entry;
            lemma_flag_masks(f);
        }
    }

    pub fn page_size(&self) -> (r: bool)
        ensures
            r == spec_page_size(self.entry),
    {
        proof {
            lemma_flag_masks(self.entry);
        }
        self.get_flag(Self::PAGE_SIZE_IDX)
    }

    pub fn set_page_size(&mut self, page_size: bool)
        ensures
            spec_page_size(final(self).entry) == page_size,
            spec_present(final(self).entry) == spec_present(old(self).entry),
            spec_write(final(self).entry) == spec_write(old(self).entry),
            spec_no_exec(final(self).entry) == spec_no_exec(old(self).entry),
            spec_entry_addr(final(self).entry) == spec_entry_addr(old(self).entry),
            final(self).entry & !0x80u64 == old(self).entry & !0x80u64,
    {
        self.set_flag(page_size, Self::PAGE_SIZE_IDX);
        proof {
            let f = self.entry;
            lemma_flag_masks(f);
        }
    }

    /// The physical frame address held in bits 12..52.
    pub fn addr(&self) -> (r: PhysAddr)
        ensures
            r.view() == spec_entry_addr(self.entry),
            r.view() % 4096 == 0,
    {
        let a = self.entry & ADDR_MASK;
        proof {
            let e = self.entry;
            assert(e & 0x000F_FFFF_FFFF_F000 < 0x0010_0000_0000_0000 && (e & 0x000F_FFFF_FFFF_F000) & 4095 == 0)
                by (bit_vector);
            lemma_page_mask(a);
        }
        PhysAddr::new(a)
    }

    /// Stores the frame containing `addr`, leaving the flag bits as they were.
    pub fn set_addr(&mut self, addr: PhysAddr)
        ensures
            spec_entry_addr(final(self).entry) == addr.view() - addr.view() % 4096,
            spec_present(final(self).entry) == spec_present(old(self).entry),
            spec_write(final(self).entry) == spec_write(old(self).entry),
            spec_page_size(final(self).entry) == spec_page_size(old(self).entry),
            spec_no_exec(final(self).entry) == spec_no_exec(old(self).entry),
            final(self).entry & !ADDR_MASK == old(self).entry & !ADDR_MASK,
    {
        let aligned = addr.align_down_page_u64();
        let e = self.entry & !ADDR_MASK;
        let n = e | aligned;
        proof {
            let old_e = self.entry;
            lemma_page_mask(aligned);
            assert(aligned < 0x0010_0000_0000_0000 && aligned & 4095 == 0 && e == old_e
                & !0x000F_FFFF_FFFF_F000u64 && n == e | aligned ==> {
                &&& n & 0x000F_FFFF_FFFF_F000 == aligned
                &&& (n & 1 != 0) == (old_e & 1 != 0)
                &&& (n & 2 != 0) == (old_e & 2 != 0)
                &&& (n & 0x80 != 0) == (old_e & 0x80 != 0)
                &&& (n & 0x8000_0000_0000_0000 != 0) == (old_e & 0x8000_0000_0000_0000 != 0)
                &&& n & !0x000F_FFFF_FFFF_F000u64 == old_e & !0x000F_FFFF_FFFF_F000u64
            }) by (bit_vector);
        }
        self.entry = n;
    }

    pub fn clear(&mut self)
        ensures
            final(self).entry == 0,
    {
        self.entry = 0;
    }
}

/// An entry with all of its recognised fields: zero is none of them.
pub proof fn lemma_zero_entry()
    ensures
        !spec_present(0),
        !spec_write(0),
        !spec_page_size(0),
        !spec_no_exec(0),
        spec_entry_addr(0) == 0,
{
    assert(0u64 & 1 == 0 && 0u64 & 2 == 0 && 0u64 & 0x80 == 0 && 0u64 & 0x8000_0000_0000_0000 == 0
        && 0u64 & 0x000F_FFFF_FFFF_F000 == 0) by (bit_vector);
}

} // verus!
