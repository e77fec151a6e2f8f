use vstd::prelude::*;
use crate::addr::PAGE_SIZE;

verus! {

/// Why the virtual bump allocator could not serve a request.
#[derive(Clone, Copy, PartialEq, Eq, Structural, Debug)]
pub enum VirtualAllocError {
    Exhausted,
}

/// Hands out virtual addresses a page at a time; nothing is freed.
pub struct VirtualAllocator {
    pub next_addr: u64,
}

impl VirtualAllocator {
    pub fn new(start_addr: u64) -> (r: VirtualAllocator)
        ensures
            r.next_addr == start_addr,
    {
        VirtualAllocator { next_addr: start_addr }
    }

    /// Reserves `num_pages` pages; returns their start.
    pub fn allocate(&mut self, num_pages: u64) -> (r: Result<u64, VirtualAllocError>)
        ensures
            old(self).next_addr + num_pages * 4096 <= u64::MAX ==> r == Ok::<u64, VirtualAllocError>(old(self).next_addr)
                && final(self).next_addr == old(self).next_addr + num_pages * 4096,
            old(self).next_addr + num_pages * 4096 > u64::MAX ==> r == Err::<u64, VirtualAllocError>(VirtualAllocError::Exhausted)
                && final(self).next_addr == old(self).next_addr,
    {
        let size = match num_pages.checked_mul(PAGE_SIZE) {
            Some(s) => s,
            None => {
                return Err(VirtualAllocError::Exhausted);
            },
        };
        match self.next_addr.checked_add(size) {
            Some(end_addr) => {
                let alloc_start = self.next_addr;
                self.next_addr = end_addr;
                Ok(alloc_start)
            },
            None => Err(VirtualAllocError::Exhausted),
        }
    }
}

/// Why the firmware-map frame allocator could not serve a request.
#[derive(Clone, Copy, PartialEq, Eq, Structural, Debug)]
pub enum FrameAllocatorError {
    NoMoreDescriptors,
}

/// Why a framebuffer could not be set up.
#[derive(Clone, Copy, PartialEq, Eq, Structural, Debug)]
pub enum FramebufferError {
    UnsupportedFormat,
}

/// A character cell of the text console: column, row.
#[derive(Clone, Copy, PartialEq, Eq, Structural, Debug)]
pub struct CharPos(pub usize, pub usize);

impl CharPos {
    /// The next cell on the same row.
    pub fn next_char(&self) -> (r: CharPos)
        requires
            self.0 < usize::MAX,
        ensures
            r == CharPos((self.0 + 1) as usize, self.1),
    {
        CharPos(self.0 + 1, self.1)
    }

    /// The first cell of the next row.
    pub fn next_line(&self) -> (r: CharPos)
        requires
            self.1 < usize::MAX,
        ensures
            r == CharPos(0, (self.1 + 1) as usize),
    {
        CharPos(0, self.1 + 1)
    }

    /// The first cell of this row.
    pub fn start_of_line(&self) -> (r: CharPos)
        ensures
            r == CharPos(0, self.1),
    {
        CharPos(0, self.1)
    }
}

/// A colour as red, green, blue bytes.
#[derive(Clone, Copy, PartialEq, Eq, Structural, Debug)]
pub struct Color(pub u8, pub u8, pub u8);

impl Color {
    /// The colour with the given red, green and blue.
    pub fn from_rgb(value: [u8; 3]) -> (r: Color)
        ensures
            r == Color(value[0], value[1], value[2]),
    {
        Color(value[0], value[1], value[2])
    }

    /// The bytes a BGR framebuffer stores for this colour.
    pub fn to_bgr(&self) -> (r: [u8; 3])
        ensures
            r@ == seq![self.2, self.1, self.0],
    {
        let r = [self.2, self.1, self.0];
        proof {
            assert(r@ =~= seq![self.2, self.1, self.0]);
        }
        r
    }
}

/// The CPU state pushed on an interrupt.
#[derive(Clone, Copy, PartialEq, Eq, Structural, Debug)]
pub struct ExceptionFrame {
    pub instruction_pointer: u64,
    pub code_segment: u64,
    pub flags: u64,
    pub stack_pointer: u64,
    pub stack_segment: u64,
}

/// Whether the interrupt-enable flag (bit 9) is set in an RFLAGS value.
pub fn are_interrupts_enabled(rflags: u64) -> (r: bool)
    ensures
        r == (rflags & 0x200 != 0),
{
    rflags & 0x200 != 0
}

} // verus!
