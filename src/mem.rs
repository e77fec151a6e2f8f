use vstd::prelude::*;
use crate::addr::PAGE_SIZE;
use crate::frame::{memory_map_wf, FirmwareMemoryType, MemoryDescriptor};
use crate::misc::FrameAllocatorError;

verus! {

/// Descriptor `d` cannot hold `pages` frames from its start.
pub open spec fn unfit(d: MemoryDescriptor, pages: u64) -> bool {
    d.ty != FirmwareMemoryType::Conventional || d.page_count * 4096 < pages * 4096
}

/// Allocates runs of frames straight from the firmware map: it walks the descriptors in order and
/// bumps through each free one that has room.
pub struct FrameAllocator {
    pub descriptors: Vec<MemoryDescriptor>,
    /// The next descriptor to move to.
    pub next_descriptor: usize,
    /// The descriptor being allocated from.
    pub current_descriptor: Option<usize>,
    pub current_addr: u64,
    pub total_physical_memory: u64,
}

impl FrameAllocator {
    pub open spec fn wf(&self) -> bool {
        &&& memory_map_wf(self.descriptors@)
        &&& self.next_descriptor <= self.descriptors@.len()
        &&& (self.current_descriptor matches Some(i) ==> i < self.next_descriptor
            && self.descriptors@[i as int].phys_start <= self.current_addr)
    }

    /// The current descriptor cannot serve `pages` frames from `current_addr`.
    pub open spec fn spec_invalid(&self, pages: u64) -> bool {
        match self.current_descriptor {
            Some(i) => {
                let d = self.descriptors@[i as int];
                let end = d.phys_start + d.page_count * 4096;
                d.ty != FirmwareMemoryType::Conventional || end < self.current_addr || end
                    - self.current_addr < pages * 4096
            },
            None => true,
        }
    }

    /// An allocator over `descriptors`, starting above address 0.
    pub fn new(descriptors: Vec<MemoryDescriptor>) -> (r: FrameAllocator)
        requires
            descriptors@.len() > 0,
            memory_map_wf(descriptors@),
        ensures
            r.wf(),
            r.descriptors@ == descriptors@,
            r.current_descriptor.is_none(),
            r.next_descriptor == 0,
            r.current_addr == 0x1000,
            r.total_physical_memory == descriptors@.last().phys_start + descriptors@.last().page_count * 4096,
    {
        let last = descriptors[descriptors.len() - 1];
        proof {
            assert(descriptors@[descriptors@.len() - 1].wf());
        }
        let total = last.phys_start + PAGE_SIZE * last.page_count;
        FrameAllocator {
            descriptors,
            next_descriptor: 0,
            current_descriptor: None,
            current_addr: 0x1000,
            total_physical_memory: total,
        }
    }

    /// Whether the current descriptor cannot serve `pages` frames.
    pub fn invalid_descriptor(&self, pages: u64) -> (r: bool)
        requires
            self.wf(),
            pages < 0x0010_0000_0000,
        ensures
            r == self.spec_invalid(pages),
    {
        match self.current_descriptor {
            Some(i) => {
                let d = self.descriptors[i];
                proof {
                    assert(self.descriptors@[i as int].wf());
                }
                let end = d.phys_start + d.page_count * PAGE_SIZE;
                d.ty != FirmwareMemoryType::Conventional || end < self.current_addr || end
                    - self.current_addr < pages * PAGE_SIZE
            },
            None => true,
        }
    }

    /// Allocates `pages` contiguous frames from the first descriptor, from the current one on,
    /// that is free and has room.
    pub fn allocate(&mut self, pages: u64) -> (r: Result<u64, FrameAllocatorError>)
        requires
            old(self).wf(),
            pages < 0x0010_0000_0000,
        ensures
            final(self).wf(),
            final(self).descriptors@ == old(self).descriptors@,
            r matches Ok(a) ==> final(self).current_descriptor matches Some(i) && {
                let d = final(self).descriptors@[i as int];
                &&& d.ty == FirmwareMemoryType::Conventional
                &&& d.phys_start <= a
                &&& a + pages * 4096 <= d.phys_start + d.page_count * 4096
                &&& final(self).current_addr == a + pages * 4096
            },
            r.is_err() ==> final(self).next_descriptor == final(self).descriptors@.len(),
            r.is_err() ==> old(self).spec_invalid(pages) && forall|j: int|
                old(self).next_descriptor <= j < old(self).descriptors@.len() ==> unfit(
                    #[trigger] old(self).descriptors@[j],
                    pages,
                ),
    {
        let ghost first_invalid = old(self).spec_invalid(pages);
        while self.invalid_descriptor(pages)
            invariant
                self.wf(),
                self.descriptors@ == old(self).descriptors@,
                pages < 0x0010_0000_0000,
                old(self).next_descriptor <= self.next_descriptor,
                first_invalid == old(self).spec_invalid(pages),
                self.next_descriptor > old(self).next_descriptor ==> first_invalid,
                self.next_descriptor == old(self).next_descriptor ==> *self == *old(self),
                self.next_descriptor > old(self).next_descriptor ==> self.current_descriptor == Some(
                    (self.next_descriptor - 1) as usize,
                ) && self.current_addr == self.descriptors@[self.next_descriptor - 1].phys_start,
                forall|j: int|
                    old(self).next_descriptor <= j < self.next_descriptor - 1 ==> unfit(
                        #[trigger] self.descriptors@[j],
                        pages,
                    ),
            decreases self.descriptors@.len() - self.next_descriptor + if self.current_descriptor.is_some() { 0int } else { 1int },
        {
            proof {
                if self.next_descriptor > old(self).next_descriptor {
                    let i = self.next_descriptor - 1;
                    assert(self.descriptors@[i as int].wf());
                    assert(unfit(self.descriptors@[i as int], pages));
                    assert forall|j: int| old(self).next_descriptor <= j < self.next_descriptor implies unfit(
                        #[trigger] self.descriptors@[j],
                        pages,
                    ) by {}
                }
            }
            if self.next_descriptor >= self.descriptors.len() {
                return Err(FrameAllocatorError::NoMoreDescriptors);
            }
            let i = self.next_descriptor;
            self.current_descriptor = Some(i);
            self.current_addr = self.descriptors[i].phys_start;
            self.next_descriptor = i + 1;
        }
        let alloc_start = self.current_addr;
        proof {
            let i = self.current_descriptor.unwrap();
            assert(self.descriptors@[i as int].wf());
        }
        self.current_addr = self.current_addr + pages * PAGE_SIZE;
        Ok(alloc_start)
    }

    pub fn total_physical_memory(&self) -> (r: u64)
        ensures
            r == self.total_physical_memory,
    {
        self.total_physical_memory
    }
}

} // verus!
