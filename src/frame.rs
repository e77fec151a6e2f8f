use vstd::prelude::*;
use crate::addr::{Page, PageRange, PhysAddr, PhysFrame, PAGE_SIZE, PHYSADDR_LIMIT};
use crate::paging::PageMapAllocator;

verus! {

/// The kind of memory a firmware memory-map descriptor reports.
#[derive(Clone, Copy, PartialEq, Eq, Structural, Debug)]
pub enum FirmwareMemoryType {
    Conventional,
    LoaderCode,
    LoaderData,
    BootServicesCode,
    BootServicesData,
    Other,
}

/// One entry of the firmware memory map: `page_count` frames from `phys_start`.
#[derive(Clone, Copy, PartialEq, Eq, Structural, Debug)]
pub struct MemoryDescriptor {
    pub ty: FirmwareMemoryType,
    pub phys_start: u64,
    pub page_count: u64,
}

impl MemoryDescriptor {
    /// The descriptor covers whole frames below the physical address limit.
    pub open spec fn wf(&self) -> bool {
        self.phys_start % 4096 == 0 && self.phys_start + self.page_count * 4096 < PHYSADDR_LIMIT
    }

    /// The descriptor is free memory of at least `min_frames` frames.
    pub open spec fn fits(&self, min_frames: u64) -> bool {
        self.ty == FirmwareMemoryType::Conventional && self.page_count >= min_frames
    }
}

/// Every descriptor of the map is well formed.
pub open spec fn memory_map_wf(map: Seq<MemoryDescriptor>) -> bool {
    forall|i: int| 0 <= i < map.len() ==> #[trigger] map[i].wf()
}

/// `i` is the first descriptor that fits.
pub open spec fn is_first_fit(map: Seq<MemoryDescriptor>, min_frames: u64, i: int) -> bool {
    &&& 0 <= i < map.len()
    &&& map[i].fits(min_frames)
    &&& forall|k: int| 0 <= k < i ==> !#[trigger] map[k].fits(min_frames)
}

/// A bump allocator over one contiguous reservation `[alloc_start, alloc_end)` of frames.
pub struct FrameAllocator {
    /// The first frame of the reservation, inclusive.
    pub alloc_start: PhysFrame,
    /// The end of the reservation, exclusive.
    pub alloc_end: PhysFrame,
    /// The next frame to hand out.
    pub next_frame: PhysFrame,
}

impl FrameAllocator {
    pub open spec fn wf(&self) -> bool {
        self.alloc_start.view() <= self.next_frame.view() <= self.alloc_end.view()
    }

    /// Frames left in the reservation.
    pub open spec fn spec_left(&self) -> int {
        (self.alloc_end.view() - self.next_frame.view()) / 4096
    }

    /// Reserves `min_frames` frames at the start of the first free descriptor that is big enough.
    pub fn new(memory_map: &Vec<MemoryDescriptor>, min_frames: u64) -> (r: FrameAllocator)
        requires
            memory_map_wf(memory_map@),
            exists|i: int| 0 <= i < memory_map@.len() && #[trigger] memory_map@[i].fits(min_frames),
        ensures
            r.wf(),
            exists|i: int|
                is_first_fit(memory_map@, min_frames, i) && r.alloc_start.view()
                    == memory_map@[i].phys_start,
            r.alloc_end.view() == r.alloc_start.view() + min_frames * 4096,
            r.next_frame == r.alloc_start,
    {
        let mut i: usize = 0;
        while i < memory_map.len()
            invariant
                memory_map_wf(memory_map@),
                0 <= i <= memory_map@.len(),
                forall|k: int| 0 <= k < i ==> !#[trigger] memory_map@[k].fits(min_frames),
                exists|k: int| 0 <= k < memory_map@.len() && #[trigger] memory_map@[k].fits(min_frames),
            decreases memory_map@.len() - i,
        {
            let d = memory_map[i];
            if d.ty == FirmwareMemoryType::Conventional && d.page_count >= min_frames {
                proof {
                    assert(memory_map@[i as int].wf());
                    assert(is_first_fit(memory_map@, min_frames, i as int));
                    assert((d.phys_start + min_frames * 4096) % 4096 == 0) by (nonlinear_arith)
                        requires
                            d.phys_start % 4096 == 0,
                    ;
                    assert(min_frames * 4096 <= d.page_count * 4096) by (nonlinear_arith)
                        requires
                            min_frames <= d.page_count,
                    ;
                }
                let start = PhysFrame::from_base_u64(d.phys_start);
                let end = PhysFrame::from_base_u64(d.phys_start + min_frames * PAGE_SIZE);
                return FrameAllocator { alloc_start: start, alloc_end: end, next_frame: start };
            }
            i += 1;
        }
        proof {
            let k = choose|k: int| 0 <= k < memory_map@.len() && #[trigger] memory_map@[k].fits(
                min_frames,
            );
            assert(!memory_map@[k].fits(min_frames));
        }
        FrameAllocator { alloc_start: PhysFrame::from_base_u64(0), alloc_end: PhysFrame::from_base_u64(0), next_frame: PhysFrame::from_base_u64(0) }
    }

    /// Hands out the next frame of the reservation.
    pub fn alloc_frame(&mut self) -> (r: PhysFrame)
        requires
            old(self).wf(),
            old(self).next_frame.view() < old(self).alloc_end.view(),
        ensures
            final(self).wf(),
            r == old(self).next_frame,
            final(self).next_frame.view() == old(self).next_frame.view() + 4096,
            final(self).alloc_start == old(self).alloc_start,
            final(self).alloc_end == old(self).alloc_end,
    {
        let ret = self.next_frame;
        let _ = self.alloc_end.base_u64();
        let _ = ret.base_u64();
        self.next_frame = ret.next();
        ret
    }

    /// Hands out `len` consecutive frames.
    pub fn alloc_frame_range(&mut self, len: u64) -> (r: PageRange<PhysFrame>)
        requires
            old(self).wf(),
            old(self).next_frame.view() + len * 4096 <= old(self).alloc_end.view(),
        ensures
            final(self).wf(),
            r.wf(),
            r.spec_start() == old(self).next_frame.view(),
            r.spec_end() == old(self).next_frame.view() + len * 4096,
            final(self).next_frame.view() == r.spec_end(),
            final(self).alloc_start == old(self).alloc_start,
            final(self).alloc_end == old(self).alloc_end,
    {
        let start = self.next_frame;
        let _ = self.alloc_end.base_u64();
        let _ = start.base_u64();
        proof {
            assert((start.view() + len * 4096) % 4096 == 0) by (nonlinear_arith)
                requires
                    start.view() % 4096 == 0,
            ;
        }
        let end = start.increment(len);
        let mut k: u64 = 0;
        while k < len
            invariant
                self.wf(),
                k <= len,
                self.next_frame.view() == start.view() + k * 4096,
                start.view() + len * 4096 <= self.alloc_end.view(),
                self.alloc_start == old(self).alloc_start,
                self.alloc_end == old(self).alloc_end,
            decreases len - k,
        {
            self.alloc_frame();
            k += 1;
        }
        PageRange::new(start, end)
    }

    pub fn alloc_start(&self) -> (r: PhysAddr)
        ensures
            r.view() == self.alloc_start.view(),
    {
        self.alloc_start.base_addr()
    }

    pub fn alloc_end(&self) -> (r: PhysAddr)
        ensures
            r.view() == self.alloc_end.view(),
    {
        self.alloc_end.base_addr()
    }

    /// The whole reservation.
    pub fn reserved_range(&self) -> (r: PageRange<PhysFrame>)
        requires
            self.wf(),
        ensures
            r.start == self.alloc_start,
            r.end == self.alloc_end,
            r.wf(),
    {
        PageRange::new(self.alloc_start, self.alloc_end)
    }

    /// The part of the reservation handed out so far.
    pub fn used_range(&self) -> (r: PageRange<PhysFrame>)
        requires
            self.wf(),
        ensures
            r.start == self.alloc_start,
            r.end == self.next_frame,
            r.wf(),
    {
        PageRange::new(self.alloc_start, self.next_frame)
    }

    /// The number of frames handed out so far.
    pub fn frames_allocated(&self) -> (r: u64)
        requires
            self.wf(),
        ensures
            r == (self.next_frame.view() - self.alloc_start.view()) / 4096,
    {
        (self.next_frame.base_u64() - self.alloc_start.base_u64()) / PAGE_SIZE
    }

    /// How many frames of the reservation are left.
    pub fn frames_left(&self) -> (r: u64)
        requires
            self.wf(),
        ensures
            r == self.spec_frames_left(),
    {
        (self.alloc_end.base_u64() - self.next_frame.base_u64()) / PAGE_SIZE
    }

    pub fn next_frame(&self) -> (r: PhysFrame)
        ensures
            r == self.next_frame,
    {
        self.next_frame
    }
}

impl PageMapAllocator for FrameAllocator {
    open spec fn spec_frames_left(&self) -> nat {
        if self.alloc_start.view() <= self.next_frame.view() <= self.alloc_end.view() {
            ((self.alloc_end.view() - self.next_frame.view()) / 4096) as nat
        } else {
            0
        }
    }

    open spec fn spec_issued(&self, frame: u64) -> bool {
        self.alloc_start.view() <= frame < self.next_frame.view()
    }

    open spec fn spec_wf(&self) -> bool {
        self.wf()
    }

    open spec fn spec_extent(&self) -> (int, int) {
        (self.alloc_start.view() as int, self.alloc_end.view() as int)
    }

    fn alloc_table_frame(&mut self) -> (r: Option<PhysFrame>) {
        let n = self.next_frame.base_u64();
        let s = self.alloc_start.base_u64();
        let e = self.alloc_end.base_u64();
        if s <= n && n < e {
            proof {
                assert(e % 4096 == 0 && n % 4096 == 0);
            }
            Some(self.alloc_frame())
        } else {
            None
        }
    }
}

} // verus!
