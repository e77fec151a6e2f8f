use vstd::prelude::*;
use crate::addr::{
    lemma_align_down_props, spec_align_down, spec_align_up, spec_is_aligned, lemma_page_mask, Address, Page, PageRange, PhysAddr, PhysFrame, VirtAddr, VirtPage, PHYSMEM_MAX,
    PHYSMEM_START,
};
use crate::frame::{memory_map_wf, FrameAllocator, MemoryDescriptor};
use crate::paging::{
    mapped, lemma_distinct_gibs, MapError, lemma_distinct_pages_indices, lemma_walk_same_gib, same_gib, same_indices,
    MappingFlags, PageMapAllocator, PageTableStore, MAX_TABLES,
};

verus! {

/// Start of the boot-info window: the end of the direct mapping.
pub const BOOTINFO_START: u64 = 0xFFFF_C000_0000_0000;

/// Size of the boot-info window (1 GiB).
pub const BOOTINFO_SIZE: u64 = 0x4000_0000;

/// Start of the kernel image: the end of the boot-info window.
pub const KERNEL_START: u64 = 0xFFFF_C000_4000_0000;

/// Addresses from the boot-info window up lie outside every 1 GiB region of the direct mapping.
proof fn lemma_above_direct(w: u64, a: int)
    requires
        w >= BOOTINFO_START,
        0 <= a < PHYSMEM_MAX,
    ensures
        !same_gib(w, direct_addr(a)),
{
    let d = direct_addr(a);
    assert(w >= 0xFFFF_C000_0000_0000u64 && d < 0xFFFF_C000_0000_0000u64 && d >= 0xFFFF_8000_0000_0000u64
        ==> (w >> 39) & 0x1FF != (d >> 39) & 0x1FF) by (bit_vector);
}

/// Where frame address `a` is seen in the direct mapping.
pub open spec fn direct_addr(a: int) -> u64 {
    (PHYSMEM_START + a) as u64
}

/// The direct-mapped address of the `k`-th GiB above `start`.
pub open spec fn gib_at(start: int, k: int) -> u64 {
    direct_addr(start + k * 0x4000_0000)
}

/// A four-level page map under construction, together with the physical address of its PML4.
pub struct Mappings {
    pub tables: PageTableStore,
    pub root: usize,
    pub level_4_phys_addr: PhysAddr,
}

impl Mappings {
    pub open spec fn wf(&self) -> bool {
        &&& self.tables.wf()
        &&& self.root < self.tables.n()
        &&& self.tables.level(self.root as int) == 4
        &&& self.tables.frames@[self.root as int] == self.level_4_phys_addr.view()
    }

    /// Page `page` maps to frame `frame` with rights `flags`.
    pub open spec fn maps(&self, page: u64, frame: u64, flags: MappingFlags) -> bool {
        self.tables.maps_to(self.root as int, page, frame, flags)
    }

    /// The lookup of `w` gives the same answer in `self` and in `other`.
    pub open spec fn same_walk(&self, other: &Mappings, w: u64) -> bool {
        other.tables.walk(other.root as int, w) == self.tables.walk(self.root as int, w)
    }

    /// Every table frame came from `allocator`, which has room for `n` more tables.
    pub open spec fn ready(&self, allocator: &FrameAllocator, n: int) -> bool {
        &&& self.wf()
        &&& allocator.wf()
        &&& self.tables.issued_by(allocator)
        &&& allocator.spec_frames_left() >= n
        &&& self.tables.n() + n < MAX_TABLES
    }

    /// A fresh, empty PML4 in a frame from `allocator`.
    pub fn new(allocator: &mut FrameAllocator) -> (r: Mappings)
        requires
            old(allocator).wf(),
            old(allocator).next_frame.view() < old(allocator).alloc_end.view(),
        ensures
            r.wf(),
            r.tables.n() == 1,
            r.tables.issued_by(final(allocator)),
            final(allocator).wf(),
            r.level_4_phys_addr.view() == old(allocator).next_frame.view(),
            final(allocator).next_frame.view() == old(allocator).next_frame.view() + 4096,
            final(allocator).alloc_start == old(allocator).alloc_start,
            final(allocator).alloc_end == old(allocator).alloc_end,
            forall|w: u64| (#[trigger] r.tables.walk(r.root as int, w)).is_none(),
    {
        let frame = allocator.alloc_frame();
        let mut tables = PageTableStore::new();
        let root = tables.add_table(frame, 4);
        proof {
            crate::entry::lemma_zero_entry();
            assert forall|w: u64| (#[trigger] tables.walk(root as int, w)).is_none() by {
                crate::addr::lemma_indices_bounded(w);
            }
        }
        Mappings { tables, root, level_4_phys_addr: frame.base_addr() }
    }

    /// Maps `page` to `frame` with `flags`; out of frames is a caller error here.
    pub fn map_page(
        &mut self,
        frame: PhysFrame,
        page: VirtPage,
        allocator: &mut FrameAllocator,
        flags: MappingFlags,
    )
        requires
            old(self).ready(old(allocator), 3),
            !old(self).tables.huge_at(old(self).root as int, page.view()),
        ensures
            final(allocator).alloc_start.view() == old(allocator).alloc_start.view(),
            final(allocator).alloc_end.view() == old(allocator).alloc_end.view(),
            forall|x: u64| old(allocator).spec_issued(x) ==> #[trigger] final(allocator).spec_issued(x),
            final(self).wf(),
            final(self).root == old(self).root,
            final(self).level_4_phys_addr == old(self).level_4_phys_addr,
            final(self).maps(page.view(), frame.view(), flags),
            forall|w: u64|
                (#[trigger] old(self).tables.walk(old(self).root as int, w)).is_some()
                    && !same_indices(w, page.view()) ==> old(self).same_walk(final(self), w),
            forall|w: u64|
                !same_indices(w, page.view()) && !mapped(old(self).tables, old(self).root as int, w) ==> !#[trigger] mapped(
                    final(self).tables,
                    final(self).root as int,
                    w,
                ),
            forall|w: u64|
                #[trigger] final(self).tables.huge_at(final(self).root as int, w) == old(self).tables.huge_at(old(self).root as int, w),
            final(self).tables.issued_by(final(allocator)),
            final(allocator).wf(),
            final(allocator).spec_frames_left() >= old(allocator).spec_frames_left() - 3,
            final(self).tables.n() <= old(self).tables.n() + 3,
    {
        let root = self.root;
        let r = self.tables.map_page(root, frame, page, allocator, flags);
        proof {
            assert(r.is_ok());
            assert(self.tables.frames@[root as int] == old(self).tables.frames@[root as int]);
        }
    }

    /// Maps the `k`-th page of `pages` to the `k`-th frame of `frames`, for every `k`.
    pub fn map_page_range(
        &mut self,
        frames: PageRange<PhysFrame>,
        pages: PageRange<VirtPage>,
        allocator: &mut FrameAllocator,
        flags: MappingFlags,
    )
        requires
            frames.wf(),
            pages.wf(),
            frames.spec_len() == pages.spec_len(),
            old(self).ready(old(allocator), 3 * pages.spec_len()),
            forall|k: int|
                0 <= k < pages.spec_len() ==> !old(self).tables.huge_at(
                    old(self).root as int,
                    #[trigger] pages.spec_page(k) as u64,
                ),
        ensures
            final(allocator).alloc_start.view() == old(allocator).alloc_start.view(),
            final(allocator).alloc_end.view() == old(allocator).alloc_end.view(),
            forall|x: u64| old(allocator).spec_issued(x) ==> #[trigger] final(allocator).spec_issued(x),
            final(self).wf(),
            final(self).root == old(self).root,
            final(self).level_4_phys_addr == old(self).level_4_phys_addr,
            forall|k: int|
                0 <= k < pages.spec_len() ==> final(self).maps(
                    #[trigger] pages.spec_page(k) as u64,
                    frames.spec_page(k) as u64,
                    flags,
                ),
            forall|w: u64|
                (#[trigger] old(self).tables.walk(old(self).root as int, w)).is_some() && (forall|k: int|
                    0 <= k < pages.spec_len() ==> !same_indices(w, pages.spec_page(k) as u64))
                    ==> old(self).same_walk(final(self), w),
            forall|w: u64|
                (forall|k: int| 0 <= k < pages.spec_len() ==> !same_indices(w, pages.spec_page(k) as u64)) && !mapped(
                    old(self).tables,
                    old(self).root as int,
                    w,
                ) ==> !#[trigger] mapped(final(self).tables, final(self).root as int, w),
            forall|w: u64|
                #[trigger] final(self).tables.huge_at(final(self).root as int, w) == old(self).tables.huge_at(old(self).root as int, w),
            final(self).tables.issued_by(final(allocator)),
            final(allocator).wf(),
            final(allocator).spec_frames_left() >= old(allocator).spec_frames_left() - 3
                * pages.spec_len(),
            final(self).tables.n() <= old(self).tables.n() + 3 * pages.spec_len(),
    {
        let len = pages.len();
        let ghost m0 = *self;
        let ghost a0 = *allocator;
        let mut i: u64 = 0;
        while i < len
            invariant
                frames.wf(),
                pages.wf(),
                frames.spec_len() == pages.spec_len(),
                len == pages.spec_len(),
                i <= len,
                self.wf(),
                self.root == m0.root,
                self.level_4_phys_addr == m0.level_4_phys_addr,
                m0.wf(),
                allocator.wf(),
                self.tables.issued_by(allocator),
                allocator.spec_frames_left() >= a0.spec_frames_left() - 3 * i,
                a0.spec_frames_left() >= 3 * len,
                forall|x: u64| a0.spec_issued(x) ==> #[trigger] allocator.spec_issued(x),
                allocator.alloc_start.view() == a0.alloc_start.view(),
                allocator.alloc_end.view() == a0.alloc_end.view(),
                self.tables.n() <= m0.tables.n() + 3 * i,
                m0.tables.n() + 3 * len < MAX_TABLES,
                forall|k: int|
                    0 <= k < i ==> self.maps(
                        #[trigger] pages.spec_page(k) as u64,
                        frames.spec_page(k) as u64,
                        flags,
                    ),
                forall|k: int|
                    0 <= k < len ==> !m0.tables.huge_at(m0.root as int, #[trigger] pages.spec_page(k) as u64),
                forall|w: u64|
                    #[trigger] self.tables.huge_at(self.root as int, w) == m0.tables.huge_at(m0.root as int, w),
                forall|w: u64|
                    (#[trigger] m0.tables.walk(m0.root as int, w)).is_some() && (forall|k: int|
                        0 <= k < i ==> !same_indices(w, pages.spec_page(k) as u64)) ==> m0.same_walk(
                        self,
                        w,
                    ),
                forall|w: u64|
                    (forall|k: int| 0 <= k < i ==> !same_indices(w, pages.spec_page(k) as u64)) && !mapped(
                        m0.tables,
                        m0.root as int,
                        w,
                    ) ==> !#[trigger] mapped(self.tables, self.root as int, w),
            decreases len - i,
        {
            let frame = frames.page(i);
            let page = pages.page(i);
            let ghost before = *self;
            proof {
                assert(!m0.tables.huge_at(m0.root as int, pages.spec_page(i as int) as u64));
            }
            self.map_page(frame, page, allocator, flags);
            proof {
                assert forall|k: int|
                    0 <= k < i + 1 implies self.maps(
                    #[trigger] pages.spec_page(k) as u64,
                    frames.spec_page(k) as u64,
                    flags,
                ) by {
                    if k < i {
                        let pk = pages.spec_page(k) as u64;
                        let pi = pages.spec_page(i as int) as u64;
                        lemma_range_pages(pages, k, i as int);
                        lemma_distinct_pages_indices(pk, pi);
                        assert(before.maps(pk, frames.spec_page(k) as u64, flags));
                        assert(before.tables.walk(before.root as int, pk).is_some());
                    }
                }
                assert forall|w: u64|
                    (#[trigger] m0.tables.walk(m0.root as int, w)).is_some() && (forall|k: int|
                        0 <= k < i + 1 ==> !same_indices(w, pages.spec_page(k) as u64)) implies m0.same_walk(
                    self,
                    w,
                ) by {
                    assert(m0.same_walk(&before, w));
                    assert(!same_indices(w, pages.spec_page(i as int) as u64));
                }
                assert forall|w: u64|
                    (forall|k: int| 0 <= k < i + 1 ==> !same_indices(w, pages.spec_page(k) as u64)) && !mapped(
                        m0.tables,
                        m0.root as int,
                        w,
                    ) implies !#[trigger] mapped(self.tables, self.root as int, w) by {
                    assert(!same_indices(w, pages.spec_page(i as int) as u64));
                    assert(!mapped(before.tables, before.root as int, w));
                }
            }
            i += 1;
        }
    }

    /// Maps `page` to `frame` with `flags`, or reports that the allocator ran out of frames.
    pub fn try_map_page(
        &mut self,
        frame: PhysFrame,
        page: VirtPage,
        allocator: &mut FrameAllocator,
        flags: MappingFlags,
    ) -> (r: Result<(), MapError>)
        requires
            old(self).wf(),
            old(allocator).wf(),
            old(self).tables.issued_by(old(allocator)),
            !old(self).tables.huge_at(old(self).root as int, page.view()),
        ensures
            final(allocator).alloc_start.view() == old(allocator).alloc_start.view(),
            final(allocator).alloc_end.view() == old(allocator).alloc_end.view(),
            forall|x: u64| old(allocator).spec_issued(x) ==> #[trigger] final(allocator).spec_issued(x),
            final(self).wf(),
            final(self).root == old(self).root,
            final(self).level_4_phys_addr == old(self).level_4_phys_addr,
            r.is_ok() ==> final(self).maps(page.view(), frame.view(), flags),
            old(self).ready(old(allocator), 3) ==> r.is_ok(),
            forall|w: u64|
                (#[trigger] old(self).tables.walk(old(self).root as int, w)).is_some()
                    && !same_indices(w, page.view()) ==> old(self).same_walk(final(self), w),
            forall|w: u64|
                !same_indices(w, page.view()) && !mapped(old(self).tables, old(self).root as int, w) ==> !#[trigger] mapped(
                    final(self).tables,
                    final(self).root as int,
                    w,
                ),
            forall|w: u64|
                #[trigger] final(self).tables.huge_at(final(self).root as int, w) == old(self).tables.huge_at(old(self).root as int, w),
            final(self).tables.issued_by(final(allocator)),
            final(allocator).wf(),
            final(allocator).spec_frames_left() >= old(allocator).spec_frames_left() - 3,
            final(self).tables.n() <= old(self).tables.n() + 3,
    {
        let root = self.root;
        let r = self.tables.map_page(root, frame, page, allocator, flags);
        proof {
            assert(self.tables.frames@[root as int] == old(self).tables.frames@[root as int]);
        }
        r
    }

    /// Maps the `k`-th page of `pages` to the `k`-th frame of `frames`, for every `k`, or reports
    /// that the allocator ran out of frames part way.
    pub fn try_map_page_range(
        &mut self,
        frames: PageRange<PhysFrame>,
        pages: PageRange<VirtPage>,
        allocator: &mut FrameAllocator,
        flags: MappingFlags,
    ) -> (r: Result<(), MapError>)
        requires
            frames.wf(),
            pages.wf(),
            frames.spec_len() == pages.spec_len(),
            old(self).wf(),
            old(allocator).wf(),
            old(self).tables.issued_by(old(allocator)),
            forall|k: int|
                0 <= k < pages.spec_len() ==> !old(self).tables.huge_at(
                    old(self).root as int,
                    #[trigger] pages.spec_page(k) as u64,
                ),
        ensures
            final(allocator).alloc_start.view() == old(allocator).alloc_start.view(),
            final(allocator).alloc_end.view() == old(allocator).alloc_end.view(),
            forall|x: u64| old(allocator).spec_issued(x) ==> #[trigger] final(allocator).spec_issued(x),
            final(self).wf(),
            final(self).root == old(self).root,
            final(self).level_4_phys_addr == old(self).level_4_phys_addr,
            r.is_ok() ==> forall|k: int|
                0 <= k < pages.spec_len() ==> final(self).maps(
                    #[trigger] pages.spec_page(k) as u64,
                    frames.spec_page(k) as u64,
                    flags,
                ),
            old(self).ready(old(allocator), 3 * pages.spec_len()) ==> r.is_ok(),
            forall|w: u64|
                (#[trigger] old(self).tables.walk(old(self).root as int, w)).is_some() && (forall|k: int|
                    0 <= k < pages.spec_len() ==> !same_indices(w, pages.spec_page(k) as u64))
                    ==> old(self).same_walk(final(self), w),
            forall|w: u64|
                (forall|k: int| 0 <= k < pages.spec_len() ==> !same_indices(w, pages.spec_page(k) as u64)) && !mapped(
                    old(self).tables,
                    old(self).root as int,
                    w,
                ) ==> !#[trigger] mapped(final(self).tables, final(self).root as int, w),
            forall|w: u64|
                #[trigger] final(self).tables.huge_at(final(self).root as int, w) == old(self).tables.huge_at(old(self).root as int, w),
            final(self).tables.issued_by(final(allocator)),
            final(allocator).wf(),
            final(allocator).spec_frames_left() >= old(allocator).spec_frames_left() - 3
                * pages.spec_len(),
            final(self).tables.n() <= old(self).tables.n() + 3 * pages.spec_len(),
    {
        let len = pages.len();
        let ghost m0 = *self;
        let ghost a0 = *allocator;
        let ghost good = old(self).ready(old(allocator), 3 * pages.spec_len());
        let mut i: u64 = 0;
        while i < len
            invariant
                frames.wf(),
                pages.wf(),
                frames.spec_len() == pages.spec_len(),
                len == pages.spec_len(),
                i <= len,
                self.wf(),
                self.root == m0.root,
                self.level_4_phys_addr == m0.level_4_phys_addr,
                m0.wf(),
                allocator.wf(),
                self.tables.issued_by(allocator),
                allocator.spec_frames_left() >= a0.spec_frames_left() - 3 * i,
                a0 == *old(allocator),
                m0 == *old(self),
                good == m0.ready(&a0, 3 * len),
                forall|x: u64| a0.spec_issued(x) ==> #[trigger] allocator.spec_issued(x),
                allocator.alloc_start.view() == a0.alloc_start.view(),
                allocator.alloc_end.view() == a0.alloc_end.view(),
                self.tables.n() <= m0.tables.n() + 3 * i,
                forall|k: int|
                    0 <= k < i ==> self.maps(
                        #[trigger] pages.spec_page(k) as u64,
                        frames.spec_page(k) as u64,
                        flags,
                    ),
                forall|k: int|
                    0 <= k < len ==> !m0.tables.huge_at(m0.root as int, #[trigger] pages.spec_page(k) as u64),
                forall|w: u64|
                    #[trigger] self.tables.huge_at(self.root as int, w) == m0.tables.huge_at(m0.root as int, w),
                forall|w: u64|
                    (#[trigger] m0.tables.walk(m0.root as int, w)).is_some() && (forall|k: int|
                        0 <= k < i ==> !same_indices(w, pages.spec_page(k) as u64)) ==> m0.same_walk(
                        self,
                        w,
                    ),
                forall|w: u64|
                    (forall|k: int| 0 <= k < i ==> !same_indices(w, pages.spec_page(k) as u64)) && !mapped(
                        m0.tables,
                        m0.root as int,
                        w,
                    ) ==> !#[trigger] mapped(self.tables, self.root as int, w),
            decreases len - i,
        {
            let frame = frames.page(i);
            let page = pages.page(i);
            let ghost before = *self;
            proof {
                assert(!m0.tables.huge_at(m0.root as int, pages.spec_page(i as int) as u64));
            }
            let ghost ab = *allocator;
            let r = self.try_map_page(frame, page, allocator, flags);
            proof {
                assert(ab.alloc_start.view() == a0.alloc_start.view());
                assert(allocator.alloc_start.view() == ab.alloc_start.view());
                assert(allocator.alloc_end.view() == ab.alloc_end.view());
                assert forall|w: u64|
                    (#[trigger] m0.tables.walk(m0.root as int, w)).is_some() && (forall|k: int|
                        0 <= k < i + 1 ==> !same_indices(w, pages.spec_page(k) as u64)) implies m0.same_walk(
                    self,
                    w,
                ) by {
                    assert(m0.same_walk(&before, w));
                    assert(!same_indices(w, pages.spec_page(i as int) as u64));
                }
                assert forall|w: u64|
                    (forall|k: int| 0 <= k < i + 1 ==> !same_indices(w, pages.spec_page(k) as u64)) && !mapped(
                        m0.tables,
                        m0.root as int,
                        w,
                    ) implies !#[trigger] mapped(self.tables, self.root as int, w) by {
                    assert(!same_indices(w, pages.spec_page(i as int) as u64));
                    assert(!mapped(before.tables, before.root as int, w));
                }
            }
            if r.is_err() {
                return r;
            }
            proof {
                assert forall|k: int|
                    0 <= k < i + 1 implies self.maps(
                    #[trigger] pages.spec_page(k) as u64,
                    frames.spec_page(k) as u64,
                    flags,
                ) by {
                    if k < i {
                        let pk = pages.spec_page(k) as u64;
                        let pi = pages.spec_page(i as int) as u64;
                        lemma_range_pages(pages, k, i as int);
                        lemma_distinct_pages_indices(pk, pi);
                        assert(before.maps(pk, frames.spec_page(k) as u64, flags));
                        assert(before.tables.walk(before.root as int, pk).is_some());
                    }
                }
                assert forall|w: u64|
                    (#[trigger] m0.tables.walk(m0.root as int, w)).is_some() && (forall|k: int|
                        0 <= k < i + 1 ==> !same_indices(w, pages.spec_page(k) as u64)) implies m0.same_walk(
                    self,
                    w,
                ) by {
                    assert(m0.same_walk(&before, w));
                    assert(!same_indices(w, pages.spec_page(i as int) as u64));
                }
                assert forall|w: u64|
                    (forall|k: int| 0 <= k < i + 1 ==> !same_indices(w, pages.spec_page(k) as u64)) && !mapped(
                        m0.tables,
                        m0.root as int,
                        w,
                    ) implies !#[trigger] mapped(self.tables, self.root as int, w) by {
                    assert(!same_indices(w, pages.spec_page(i as int) as u64));
                    assert(!mapped(before.tables, before.root as int, w));
                }
            }
            i += 1;
        }
        Ok(())
    }

    /// Allocates one frame per page of `pages` and maps them in order; returns the frames.
    pub fn alloc_and_map_range(
        &mut self,
        pages: PageRange<VirtPage>,
        allocator: &mut FrameAllocator,
        flags: MappingFlags,
    ) -> (r: PageRange<PhysFrame>)
        requires
            pages.wf(),
            old(self).ready(old(allocator), 4 * pages.spec_len()),
            forall|k: int|
                0 <= k < pages.spec_len() ==> !old(self).tables.huge_at(
                    old(self).root as int,
                    #[trigger] pages.spec_page(k) as u64,
                ),
        ensures
            final(allocator).alloc_start.view() == old(allocator).alloc_start.view(),
            final(allocator).alloc_end.view() == old(allocator).alloc_end.view(),
            forall|x: u64| old(allocator).spec_issued(x) ==> #[trigger] final(allocator).spec_issued(x),
            final(self).wf(),
            final(self).root == old(self).root,
            final(self).level_4_phys_addr == old(self).level_4_phys_addr,
            r.wf(),
            r.spec_start() == old(allocator).next_frame.view(),
            r.spec_len() == pages.spec_len(),
            forall|k: int|
                0 <= k < r.spec_len() ==> !old(allocator).spec_issued(#[trigger] r.spec_page(k) as u64)
                    && final(allocator).spec_issued(r.spec_page(k) as u64),
            forall|k: int|
                0 <= k < pages.spec_len() ==> final(self).maps(
                    #[trigger] pages.spec_page(k) as u64,
                    r.spec_page(k) as u64,
                    flags,
                ),
            forall|w: u64|
                (#[trigger] old(self).tables.walk(old(self).root as int, w)).is_some() && (forall|k: int|
                    0 <= k < pages.spec_len() ==> !same_indices(w, pages.spec_page(k) as u64))
                    ==> old(self).same_walk(final(self), w),
            forall|w: u64|
                (forall|k: int| 0 <= k < pages.spec_len() ==> !same_indices(w, pages.spec_page(k) as u64)) && !mapped(
                    old(self).tables,
                    old(self).root as int,
                    w,
                ) ==> !#[trigger] mapped(final(self).tables, final(self).root as int, w),
            forall|w: u64|
                #[trigger] final(self).tables.huge_at(final(self).root as int, w) == old(self).tables.huge_at(old(self).root as int, w),
            final(self).tables.issued_by(final(allocator)),
            final(allocator).wf(),
            final(allocator).spec_frames_left() >= old(allocator).spec_frames_left() - 4
                * pages.spec_len(),
            final(self).tables.n() <= old(self).tables.n() + 3 * pages.spec_len(),
    {
        let len = pages.len();
        proof {
            assert(old(allocator).spec_frames_left() >= len);
            assert((allocator.alloc_end.view() - allocator.next_frame.view()) / 4096 >= len);
            let _ = 0int;
        }
        let _ = allocator.next_frame.base_u64();
        let _ = allocator.alloc_end.base_u64();
        proof {
            assert(allocator.next_frame.view() + len * 4096 <= allocator.alloc_end.view()) by (nonlinear_arith)
                requires
                    (allocator.alloc_end.view() - allocator.next_frame.view()) / 4096 >= len,
                    allocator.next_frame.view() <= allocator.alloc_end.view(),
            ;
        }
        let frames = allocator.alloc_frame_range(len);
        proof {
            assert(self.tables.issued_by(allocator)) by {
                assert forall|t: int| 0 <= t < self.tables.n() implies allocator.spec_issued(#[trigger] self.tables.frames@[t]) by {
                    assert(old(allocator).spec_issued(self.tables.frames@[t]));
                }
            }
            assert(frames.spec_len() == len) by (nonlinear_arith)
                requires
                    frames.spec_end() - frames.spec_start() == len * 4096,
                    frames.spec_len() == (frames.spec_end() - frames.spec_start()) / 4096,
            ;
            let n0 = old(allocator).next_frame.view() as int;
            let n1 = allocator.next_frame.view() as int;
            let e = allocator.alloc_end.view() as int;
            let l = len as int;
            assert((e - n1) / 4096 >= (e - n0) / 4096 - l) by (nonlinear_arith)
                requires
                    n1 == n0 + l * 4096,
                    n1 <= e,
            ;
        }
        self.map_page_range(frames, pages, allocator, flags);
        frames
    }

    /// Allocates one frame per page of `pages` and maps them in order; returns the frames, and
    /// whether the mapping went through or the allocator ran out of frames for tables part way.
    pub fn try_alloc_and_map_range(
        &mut self,
        pages: PageRange<VirtPage>,
        allocator: &mut FrameAllocator,
        flags: MappingFlags,
    ) -> (r: (PageRange<PhysFrame>, bool))
        requires
            pages.wf(),
            old(self).wf(),
            old(allocator).wf(),
            old(self).tables.issued_by(old(allocator)),
            old(allocator).spec_frames_left() >= pages.spec_len(),
            forall|k: int|
                0 <= k < pages.spec_len() ==> !old(self).tables.huge_at(
                    old(self).root as int,
                    #[trigger] pages.spec_page(k) as u64,
                ),
        ensures
            final(allocator).alloc_start.view() == old(allocator).alloc_start.view(),
            final(allocator).alloc_end.view() == old(allocator).alloc_end.view(),
            forall|x: u64| old(allocator).spec_issued(x) ==> #[trigger] final(allocator).spec_issued(x),
            final(self).wf(),
            final(self).root == old(self).root,
            final(self).level_4_phys_addr == old(self).level_4_phys_addr,
            r.0.wf(),
            r.0.spec_start() == old(allocator).next_frame.view(),
            r.0.spec_len() == pages.spec_len(),
            forall|k: int|
                0 <= k < r.0.spec_len() ==> !old(allocator).spec_issued(#[trigger] r.0.spec_page(k) as u64)
                    && final(allocator).spec_issued(r.0.spec_page(k) as u64),
            r.1 ==> forall|k: int|
                0 <= k < pages.spec_len() ==> final(self).maps(
                    #[trigger] pages.spec_page(k) as u64,
                    r.0.spec_page(k) as u64,
                    flags,
                ),
            old(self).ready(old(allocator), 4 * pages.spec_len()) ==> r.1,
            forall|w: u64|
                (#[trigger] old(self).tables.walk(old(self).root as int, w)).is_some() && (forall|k: int|
                    0 <= k < pages.spec_len() ==> !same_indices(w, pages.spec_page(k) as u64))
                    ==> old(self).same_walk(final(self), w),
            forall|w: u64|
                (forall|k: int| 0 <= k < pages.spec_len() ==> !same_indices(w, pages.spec_page(k) as u64)) && !mapped(
                    old(self).tables,
                    old(self).root as int,
                    w,
                ) ==> !#[trigger] mapped(final(self).tables, final(self).root as int, w),
            forall|w: u64|
                #[trigger] final(self).tables.huge_at(final(self).root as int, w) == old(self).tables.huge_at(old(self).root as int, w),
            final(self).tables.issued_by(final(allocator)),
            final(allocator).wf(),
            final(allocator).spec_frames_left() >= old(allocator).spec_frames_left() - 4
                * pages.spec_len(),
            final(self).tables.n() <= old(self).tables.n() + 3 * pages.spec_len(),
    {
        let len = pages.len();
        proof {
            assert(old(allocator).spec_frames_left() >= len);
            assert((allocator.alloc_end.view() - allocator.next_frame.view()) / 4096 >= len);
            let _ = 0int;
        }
        let _ = allocator.next_frame.base_u64();
        let _ = allocator.alloc_end.base_u64();
        proof {
            assert(allocator.next_frame.view() + len * 4096 <= allocator.alloc_end.view()) by (nonlinear_arith)
                requires
                    (allocator.alloc_end.view() - allocator.next_frame.view()) / 4096 >= len,
                    allocator.next_frame.view() <= allocator.alloc_end.view(),
            ;
        }
        let frames = allocator.alloc_frame_range(len);
        proof {
            assert(self.tables.issued_by(allocator)) by {
                assert forall|t: int| 0 <= t < self.tables.n() implies allocator.spec_issued(#[trigger] self.tables.frames@[t]) by {
                    assert(old(allocator).spec_issued(self.tables.frames@[t]));
                }
            }
            assert(frames.spec_len() == len) by (nonlinear_arith)
                requires
                    frames.spec_end() - frames.spec_start() == len * 4096,
                    frames.spec_len() == (frames.spec_end() - frames.spec_start()) / 4096,
            ;
            let n0 = old(allocator).next_frame.view() as int;
            let n1 = allocator.next_frame.view() as int;
            let e = allocator.alloc_end.view() as int;
            let l = len as int;
            assert((e - n1) / 4096 >= (e - n0) / 4096 - l) by (nonlinear_arith)
                requires
                    n1 == n0 + l * 4096,
                    n1 <= e,
            ;
        }
        let mapped = self.try_map_page_range(frames, pages, allocator, flags);
        (frames, mapped.is_ok())
    }

    /// Frame `a` is seen at `PHYSMEM_START + a` through a 4 KiB page, readable and writable.
    pub open spec fn direct_small(&self, a: int) -> bool {
        self.maps(direct_addr(a), a as u64, MappingFlags { execute: false, write: true, present: true })
    }

    /// Frame `a` is seen at `PHYSMEM_START + a` through a 1 GiB page.
    pub open spec fn direct_huge(&self, a: int) -> bool {
        self.tables.maps_huge(self.root as int, direct_addr(a), (a - a % 0x4000_0000) as u64)
    }

    /// Maps every frame of `frame_range` at its direct-mapped page, with 4 KiB pages.
    pub fn direct_map_range(
        &mut self,
        frame_range: PageRange<PhysFrame>,
        allocator: &mut FrameAllocator,
    ) -> (r: Result<(), MapError>)
        requires
            frame_range.wf(),
            frame_range.spec_end() <= PHYSMEM_MAX,
            old(self).wf(),
            old(allocator).wf(),
            old(self).tables.issued_by(old(allocator)),
            forall|a: int|
                frame_range.spec_start() <= a < frame_range.spec_end() ==> !old(self).tables.huge_at(
                    old(self).root as int,
                    #[trigger] direct_addr(a),
                ),
        ensures
            forall|x: u64| old(allocator).spec_issued(x) ==> #[trigger] final(allocator).spec_issued(x),
            final(self).wf(),
            final(self).root == old(self).root,
            final(self).level_4_phys_addr == old(self).level_4_phys_addr,
            r.is_ok() ==> forall|k: int|
                0 <= k < frame_range.spec_len() ==> final(self).direct_small(
                    #[trigger] frame_range.spec_page(k),
                ),
            old(self).ready(old(allocator), 3 * frame_range.spec_len()) ==> r.is_ok(),
            forall|w: u64|
                (#[trigger] old(self).tables.walk(old(self).root as int, w)).is_some() && (forall|k: int|
                    0 <= k < frame_range.spec_len() ==> !same_indices(
                        w,
                        direct_addr(frame_range.spec_page(k)),
                    )) ==> old(self).same_walk(final(self), w),
            forall|w: u64|
                #[trigger] final(self).tables.huge_at(final(self).root as int, w) == old(self).tables.huge_at(old(self).root as int, w),
            final(self).tables.issued_by(final(allocator)),
            final(allocator).wf(),
            final(allocator).spec_frames_left() >= old(allocator).spec_frames_left() - 3
                * frame_range.spec_len(),
            final(self).tables.n() <= old(self).tables.n() + 3 * frame_range.spec_len(),
    {
        let start = frame_range.first();
        let end = frame_range.end();
        let _ = start.base_u64();
        let _ = end.base_u64();
        let start_page = start.as_direct_mapped();
        let end_page = end.as_direct_mapped();
        proof {
            let a = start_page.view();
            let b = end_page.view();
            crate::addr::lemma_half(a);
            crate::addr::lemma_half(b);
        }
        let pages = PageRange::new(start_page, end_page);
        proof {
            assert forall|k: int| 0 <= k < pages.spec_len() implies !self.tables.huge_at(
                self.root as int,
                #[trigger] pages.spec_page(k) as u64,
            ) by {
                assert(pages.spec_page(k) as u64 == direct_addr(frame_range.spec_page(k)));
                assert(frame_range.spec_page(k) < frame_range.spec_end()) by (nonlinear_arith)
                    requires
                        0 <= k < (frame_range.spec_end() - frame_range.spec_start()) / 4096,
                        frame_range.spec_page(k) == frame_range.spec_start() + k * 4096,
                ;
                assert(frame_range.spec_start() <= frame_range.spec_page(k)) by (nonlinear_arith)
                    requires
                        0 <= k,
                        frame_range.spec_page(k) == frame_range.spec_start() + k * 4096,
                ;
            }
        }
        let r = self.try_map_page_range(frame_range, pages, allocator, MappingFlags::new_rw_data());
        proof {
            assert forall|k: int| 0 <= k < frame_range.spec_len() && r.is_ok() implies self.direct_small(
                #[trigger] frame_range.spec_page(k),
            ) by {
                assert(pages.spec_page(k) as u64 == direct_addr(frame_range.spec_page(k)));
                assert(frame_range.spec_page(k) < frame_range.spec_end()) by (nonlinear_arith)
                    requires
                        0 <= k < (frame_range.spec_end() - frame_range.spec_start()) / 4096,
                        frame_range.spec_page(k) == frame_range.spec_start() + k * 4096,
                ;
                assert(frame_range.spec_start() <= frame_range.spec_page(k)) by (nonlinear_arith)
                    requires
                        0 <= k,
                        frame_range.spec_page(k) == frame_range.spec_start() + k * 4096,
                ;
            }
            assert forall|w: u64|
                (#[trigger] old(self).tables.walk(old(self).root as int, w)).is_some() && (forall|k: int|
                    0 <= k < frame_range.spec_len() ==> !same_indices(
                        w,
                        direct_addr(frame_range.spec_page(k)),
                    )) implies old(self).same_walk(self, w) by {
                assert forall|k: int| 0 <= k < pages.spec_len() implies !same_indices(w, pages.spec_page(k) as u64) by {
                    assert(!same_indices(w, direct_addr(frame_range.spec_page(k))));
                }
            }
        }
        r
    }

    /// Maps the 1 GiB-aligned `frame_range` at its direct-mapped address, one huge page per GiB.
    pub fn direct_map_huge_page(
        &mut self,
        frame_range: PageRange<PhysFrame>,
        allocator: &mut FrameAllocator,
    ) -> (r: Result<(), MapError>)
        requires
            frame_range.wf(),
            frame_range.spec_start() % 0x4000_0000 == 0,
            frame_range.spec_end() % 0x4000_0000 == 0,
            frame_range.spec_end() <= PHYSMEM_MAX,
            old(self).wf(),
            old(allocator).wf(),
            old(self).tables.issued_by(old(allocator)),
        ensures
            forall|x: u64| old(allocator).spec_issued(x) ==> #[trigger] final(allocator).spec_issued(x),
            final(self).wf(),
            final(self).root == old(self).root,
            final(self).level_4_phys_addr == old(self).level_4_phys_addr,
            r.is_ok() ==> forall|a: int|
                frame_range.spec_start() <= a < frame_range.spec_end() ==> #[trigger] final(self).direct_huge(a),
            old(self).ready(old(allocator), frame_range.spec_len() / 0x4_0000) ==> r.is_ok(),
            forall|w: u64|
                (#[trigger] old(self).tables.walk(old(self).root as int, w)).is_some() && (forall|a: int|
                    frame_range.spec_start() <= a < frame_range.spec_end() ==> !same_gib(w, #[trigger] direct_addr(a)))
                    ==> old(self).same_walk(final(self), w),
            forall|w: u64|
                (forall|a: int|
                    frame_range.spec_start() <= a < frame_range.spec_end() ==> !same_gib(w, #[trigger] direct_addr(a)))
                    ==> (#[trigger] final(self).tables.huge_at(final(self).root as int, w) == old(self).tables.huge_at(old(self).root as int, w)),
            final(self).tables.issued_by(final(allocator)),
            final(allocator).wf(),
            final(allocator).spec_frames_left() >= old(allocator).spec_frames_left() - frame_range.spec_len() / 0x4_0000,
            final(self).tables.n() <= old(self).tables.n() + frame_range.spec_len() / 0x4_0000,
    {
        let start = frame_range.first().base_u64();
        let end = frame_range.end().base_u64();
        let count = (end - start) / 0x4000_0000;
        let ghost m0 = *self;
        let ghost a0 = *allocator;
        proof {
            assert(count == frame_range.spec_len() / 0x4_0000);
        }
        let ghost good = old(self).ready(old(allocator), frame_range.spec_len() / 0x4_0000);
        let mut g: u64 = 0;
        while g < count
            invariant
                self.wf(),
                m0.wf(),
                self.root == m0.root,
                self.level_4_phys_addr == m0.level_4_phys_addr,
                start == frame_range.spec_start(),
                end == frame_range.spec_end(),
                start % 0x4000_0000 == 0,
                end % 0x4000_0000 == 0,
                start <= end <= PHYSMEM_MAX,
                count == (end - start) / 0x4000_0000,
                g <= count,
                allocator.wf(),
                self.tables.issued_by(allocator),
                allocator.spec_frames_left() >= a0.spec_frames_left() - g,
                forall|x: u64| a0.spec_issued(x) ==> #[trigger] allocator.spec_issued(x),
                good == m0.ready(&a0, count as int),
                a0 == *old(allocator),
                m0 == *old(self),
                self.tables.n() <= m0.tables.n() + g,
                forall|k: int| 0 <= k < g ==> #[trigger] self.direct_huge(start + k * 0x4000_0000),
                forall|w: u64|
                    (#[trigger] m0.tables.walk(m0.root as int, w)).is_some() && (forall|k: int|
                        0 <= k < g ==> !same_gib(w, #[trigger] gib_at(start as int, k)))
                        ==> m0.same_walk(self, w),
                forall|w: u64|
                    (forall|k: int|
                        0 <= k < g ==> !same_gib(w, #[trigger] gib_at(start as int, k)))
                        ==> (#[trigger] self.tables.huge_at(self.root as int, w) == m0.tables.huge_at(m0.root as int, w)),
            decreases count - g,
        {
            proof {
                assert(start + g * 0x4000_0000 + 0x4000_0000 <= end) by (nonlinear_arith)
                    requires
                        g < count,
                        count == (end - start) / 0x4000_0000,
                        start <= end,
                ;
                assert((start + g * 0x4000_0000) % 0x4000_0000 == 0) by (nonlinear_arith)
                    requires
                        start % 0x4000_0000 == 0,
                ;
            }
            let base = start + g * 0x4000_0000;
            let va_u = PHYSMEM_START + base;
            proof {
                crate::addr::lemma_half(va_u);
            }
            let va = VirtAddr::new(va_u);
            let ghost before = *self;
            let root = self.root;
            let r = self.tables.map_huge_page(root, PhysAddr::new(base), va, allocator);
            proof {
                assert(self.tables.frames@[root as int] == before.tables.frames@[root as int]);
                assert(va_u == gib_at(start as int, g as int));
                assert forall|w: u64|
                    (#[trigger] m0.tables.walk(m0.root as int, w)).is_some() && (forall|k: int|
                        0 <= k < g + 1 ==> !same_gib(w, #[trigger] gib_at(start as int, k)))
                        implies m0.same_walk(self, w) by {
                    assert(!same_gib(w, gib_at(start as int, g as int)));
                    assert(m0.same_walk(&before, w));
                }
                assert forall|w: u64|
                    (forall|k: int|
                        0 <= k < g + 1 ==> !same_gib(w, #[trigger] gib_at(start as int, k)))
                        implies (#[trigger] self.tables.huge_at(self.root as int, w) == m0.tables.huge_at(m0.root as int, w)) by {
                    assert(!same_gib(w, gib_at(start as int, g as int)));
                    assert(before.tables.huge_at(before.root as int, w) == m0.tables.huge_at(m0.root as int, w));
                }
            }
            if r.is_err() {
                return Err(MapError::OutOfFrames);
            }
            proof {
                assert forall|k: int| 0 <= k < g + 1 implies #[trigger] self.direct_huge(start + k * 0x4000_0000) by {
                    let bk = (start + k * 0x4000_0000) as int;
                    assert(bk % 0x4000_0000 == 0) by (nonlinear_arith)
                        requires
                            start % 0x4000_0000 == 0,
                            bk == start + k * 0x4000_0000,
                    ;
                    if k == g {
                        assert(direct_addr(bk) == va_u);
                        assert(bk % 0x4000_0000 == 0);
                        assert(self.tables.maps_huge(self.root as int, va_u, base));
                    }
                    if k < g {
                        let vk = (PHYSMEM_START + bk) as u64;
                        assert(bk < base) by (nonlinear_arith)
                            requires
                                k < g,
                                bk == start + k * 0x4000_0000,
                                base == start + g * 0x4000_0000,
                        ;
                        lemma_gib_bits(vk, va_u);
                        lemma_distinct_gibs(vk, va_u);
                        assert(before.direct_huge(bk));
                        assert(before.tables.huge_at(before.root as int, vk));
                        assert(before.tables.walk(before.root as int, vk).is_some());
                    }
                }
            }
            g += 1;
        }
        proof {
            assert forall|a: int| frame_range.spec_start() <= a < frame_range.spec_end() implies #[trigger] self.direct_huge(a) by {
                let k = (a - start) / 0x4000_0000;
                assert(0 <= k < count && start + k * 0x4000_0000 == a - a % 0x4000_0000) by (nonlinear_arith)
                    requires
                        start <= a < end,
                        start % 0x4000_0000 == 0,
                        count == (end - start) / 0x4000_0000,
                        end % 0x4000_0000 == 0,
                        k == (a - start) / 0x4000_0000,
                ;
                assert(self.direct_huge(start + k * 0x4000_0000));
                let x = direct_addr(a);
                let y = gib_at(start as int, k);
                lemma_same_gib_align(x, y);
                lemma_walk_same_gib(&self.tables, self.root as int, y, x);
            }
            assert forall|w: u64|
                (#[trigger] m0.tables.walk(m0.root as int, w)).is_some() && (forall|a: int|
                    frame_range.spec_start() <= a < frame_range.spec_end() ==> !same_gib(w, #[trigger] direct_addr(a)))
                    implies m0.same_walk(self, w) by {
                assert forall|k: int| 0 <= k < count implies !same_gib(w, #[trigger] gib_at(start as int, k)) by {
                    assert(start <= start + k * 0x4000_0000 < end) by (nonlinear_arith)
                        requires
                            0 <= k < count,
                            count == (end - start) / 0x4000_0000,
                            start <= end,
                    ;
                    assert(!same_gib(w, direct_addr(start + k * 0x4000_0000)));
                }
            }
            assert forall|w: u64|
                (forall|a: int|
                    frame_range.spec_start() <= a < frame_range.spec_end() ==> !same_gib(w, #[trigger] direct_addr(a)))
                    implies (#[trigger] self.tables.huge_at(self.root as int, w) == m0.tables.huge_at(m0.root as int, w)) by {
                assert forall|k: int| 0 <= k < count implies !same_gib(w, #[trigger] gib_at(start as int, k)) by {
                    assert(start <= start + k * 0x4000_0000 < end) by (nonlinear_arith)
                        requires
                            0 <= k < count,
                            count == (end - start) / 0x4000_0000,
                            start <= end,
                    ;
                    assert(!same_gib(w, direct_addr(start + k * 0x4000_0000)));
                }
            }
        }
        Ok(())
    }

    /// Frame address `a` is direct mapped as the three-way split of `[start, end)` against 1 GiB
    /// says: 1 GiB pages for the aligned middle, 4 KiB pages before and after it.
    pub open spec fn direct_split(&self, start: u64, end: u64, a: int) -> bool {
        let lo = spec_align_up(start, 0x4000_0000);
        let hi = spec_align_down(end, 0x4000_0000);
        if lo < hi && lo <= a < hi {
            self.direct_huge(a)
        } else {
            self.direct_small(a)
        }
    }

    /// Direct maps `frame_range`: 4 KiB pages up to the first 1 GiB boundary, 1 GiB pages for the
    /// whole GiBs in the middle, 4 KiB pages for the tail.
    #[verifier::rlimit(60)]
    #[verifier::spinoff_prover]
    pub fn direct_map_physical_range(
        &mut self,
        frame_range: PageRange<PhysFrame>,
        allocator: &mut FrameAllocator,
    ) -> (r: Result<(), MapError>)
        requires
            frame_range.wf(),
            frame_range.spec_end() <= PHYSMEM_MAX,
            old(self).wf(),
            old(allocator).wf(),
            old(self).tables.issued_by(old(allocator)),
            forall|a: int|
                frame_range.spec_start() <= a < frame_range.spec_end() ==> !old(self).tables.huge_at(
                    old(self).root as int,
                    #[trigger] direct_addr(a),
                ),
        ensures
            final(self).wf(),
            final(self).root == old(self).root,
            final(self).level_4_phys_addr == old(self).level_4_phys_addr,
            old(self).ready(old(allocator), 3 * frame_range.spec_len()) ==> r.is_ok(),
            r.is_ok() ==> forall|k: int|
                0 <= k < frame_range.spec_len() ==> final(self).direct_split(
                    frame_range.spec_start(),
                    frame_range.spec_end(),
                    #[trigger] frame_range.spec_page(k),
                ),
            r.is_ok() ==> forall|w: u64|
                w >= BOOTINFO_START ==> (#[trigger] final(self).tables.huge_at(final(self).root as int, w)
                    == old(self).tables.huge_at(old(self).root as int, w)),
            final(self).tables.issued_by(final(allocator)),
            final(allocator).wf(),
    {
        proof {
            crate::addr::lemma_page_size_pow2();
            assert(0x4_0000u64 * 4096 == 0x4000_0000u64);
        }
        let ghost m0 = *self;
        let ghost s = frame_range.spec_start();
        let ghost e = frame_range.spec_end();
        let ghost lo = spec_align_up(s, 0x4000_0000);
        let ghost hi = spec_align_down(e, 0x4000_0000);
        let (pre, mid, suf) = frame_range.aligned_range(0x4_0000);
        proof {
            lemma_align_down_props(s, 0x4000_0000);
            lemma_align_down_props(e, 0x4000_0000);
            lemma_gib_mask(s);
            lemma_gib_mask(e);
            lemma_gib_mask(spec_align_down(s, 0x4000_0000));
        }
        let ghost m1 = *self;
        if let Some(p) = pre {
            proof {
                assert(p.spec_len() <= frame_range.spec_len()) by (nonlinear_arith)
                    requires
                        p.spec_end() - p.spec_start() <= e - s,
                        p.spec_len() == (p.spec_end() - p.spec_start()) / 4096,
                        frame_range.spec_len() == (e - s) / 4096,
                        p.spec_start() <= p.spec_end(),
                ;
                assert forall|a: int| p.spec_start() <= a < p.spec_end() implies !self.tables.huge_at(
                    self.root as int,
                    #[trigger] direct_addr(a),
                ) by {
                    assert(!m0.tables.huge_at(m0.root as int, direct_addr(a)));
                }
            }
            self.direct_map_range(p, allocator)?;
        }
        let ghost m2 = *self;
        let ghost pre_end: int = match pre {
            Some(p) => p.spec_end() as int,
            None => s as int,
        };
        proof {
            assert(pre_end == if lo < hi { lo } else { e as int });
            assert forall|k: int| 0 <= k < frame_range.spec_len() && #[trigger] frame_range.spec_page(k) < pre_end
                implies m2.direct_small(frame_range.spec_page(k)) by {
                let p = pre.unwrap();
                assert(p.spec_page(k) == frame_range.spec_page(k));
                assert(k < p.spec_len()) by (nonlinear_arith)
                    requires
                        frame_range.spec_page(k) == s + k * 4096,
                        s + k * 4096 < p.spec_end(),
                        p.spec_start() == s,
                        p.spec_len() == (p.spec_end() - p.spec_start()) / 4096,
                        p.spec_end() % 4096 == 0,
                        s % 4096 == 0,
                ;
            }
        }
        if let Some(md) = mid {
            proof {
                assert(md.spec_len() / 0x4_0000 <= frame_range.spec_len() - span_len(pre)) by (nonlinear_arith)
                    requires
                        md.spec_end() - md.spec_start() <= e - s - (span_len(pre) * 4096),
                        md.spec_len() == (md.spec_end() - md.spec_start()) / 4096,
                        frame_range.spec_len() == (e - s) / 4096,
                        md.spec_start() <= md.spec_end(),
                        (e - s) % 4096 == 0,
                        span_len(pre) >= 0,
                ;
                lemma_gib_mask(lo as u64);
            }
            self.direct_map_huge_page(md, allocator)?;
        }
        let ghost m3 = *self;
        proof {
            assert forall|k: int| 0 <= k < frame_range.spec_len() && #[trigger] frame_range.spec_page(k) < pre_end
                implies m3.direct_small(frame_range.spec_page(k)) by {
                let a = frame_range.spec_page(k);
                frame_range_page_facts(frame_range, k);
                assert(m2.direct_small(a));
                if let Some(md) = mid {
                    assert forall|m: int| md.spec_start() <= m < md.spec_end() implies !same_gib(direct_addr(a), #[trigger] direct_addr(m)) by {
                        lemma_gib_apart(a, m);
                    }
                    assert(m2.tables.walk(m2.root as int, direct_addr(a)).is_some());
                }
            }
            assert forall|k: int| 0 <= k < frame_range.spec_len() && lo < hi && lo <= #[trigger] frame_range.spec_page(k) < hi
                implies m3.direct_huge(frame_range.spec_page(k)) by {
                frame_range_page_facts(frame_range, k);
            }
        }
        if let Some(sf) = suf {
            proof {
                assert forall|a: int| sf.spec_start() <= a < sf.spec_end() implies !self.tables.huge_at(
                    self.root as int,
                    #[trigger] direct_addr(a),
                ) by {
                    assert(!m0.tables.huge_at(m0.root as int, direct_addr(a)));
                    assert(m2.tables.huge_at(m2.root as int, direct_addr(a)) == m0.tables.huge_at(m0.root as int, direct_addr(a)));
                    if let Some(md) = mid {
                        assert forall|m: int| md.spec_start() <= m < md.spec_end() implies !same_gib(direct_addr(a), #[trigger] direct_addr(m)) by {
                            lemma_gib_apart(a, m);
                        }
                    }
                }
            }
            self.direct_map_range(sf, allocator)?;
        }
        proof {
            let m4 = *self;
            assert forall|w: u64| w >= BOOTINFO_START implies (#[trigger] m4.tables.huge_at(m4.root as int, w)
                == m0.tables.huge_at(m0.root as int, w)) by {
                if let Some(md) = mid {
                    assert forall|a: int| md.spec_start() <= a < md.spec_end() implies !same_gib(w, #[trigger] direct_addr(a)) by {
                        lemma_above_direct(w, a);
                    }
                }
            }
            assert forall|k: int| 0 <= k < frame_range.spec_len() implies m4.direct_split(
                s,
                e,
                #[trigger] frame_range.spec_page(k),
            ) by {
                let a = frame_range.spec_page(k);
                frame_range_page_facts(frame_range, k);
                if a < pre_end {
                    assert(m3.direct_small(a));
                    if let Some(sf) = suf {
                        assert forall|j: int| 0 <= j < sf.spec_len() implies !same_indices(direct_addr(a), direct_addr(#[trigger] sf.spec_page(j))) by {
                            frame_range_page_facts(sf, j);
                            lemma_pages_apart(a, sf.spec_page(j));
                        }
                        assert(m3.tables.walk(m3.root as int, direct_addr(a)).is_some());
                    }
                } else if lo < hi && a < hi {
                    assert(m3.direct_huge(a));
                    if let Some(sf) = suf {
                        assert forall|j: int| 0 <= j < sf.spec_len() implies !same_indices(direct_addr(a), direct_addr(#[trigger] sf.spec_page(j))) by {
                            frame_range_page_facts(sf, j);
                            lemma_pages_apart(a, sf.spec_page(j));
                        }
                        assert(m3.tables.walk(m3.root as int, direct_addr(a)).is_some());
                        assert(m3.tables.huge_at(m3.root as int, direct_addr(a)));
                    }
                } else {
                    let sf = suf.unwrap();
                    let j = (a - hi) / 4096;
                    assert(sf.spec_page(j) == a && 0 <= j < sf.spec_len()) by (nonlinear_arith)
                        requires
                            sf.spec_start() == hi,
                            hi <= a < e,
                            sf.spec_end() == e,
                            a % 4096 == 0,
                            hi % 4096 == 0,
                            e % 4096 == 0,
                            j == (a - hi) / 4096,
                            sf.spec_page(j) == sf.spec_start() + j * 4096,
                            sf.spec_len() == (sf.spec_end() - sf.spec_start()) / 4096,
                    ;
                }
            }
        }
        Ok(())
    }

    /// Direct maps all physical memory up to the end of the highest descriptor of the map.
    pub fn map_physical_memory(
        &mut self,
        memory_map: &Vec<MemoryDescriptor>,
        allocator: &mut FrameAllocator,
    ) -> (r: Result<(), MapError>)
        requires
            memory_map@.len() > 0,
            memory_map_wf(memory_map@),
            phys_end(memory_map@) <= PHYSMEM_MAX,
            old(self).wf(),
            old(allocator).wf(),
            old(self).tables.issued_by(old(allocator)),
            forall|a: int|
                0 <= a < phys_end(memory_map@) ==> !old(self).tables.huge_at(
                    old(self).root as int,
                    #[trigger] direct_addr(a),
                ),
        ensures
            final(self).wf(),
            final(self).root == old(self).root,
            final(self).level_4_phys_addr == old(self).level_4_phys_addr,
            old(self).ready(old(allocator), 3 * (phys_end(memory_map@) / 4096)) ==> r.is_ok(),
            r.is_ok() ==> forall|a: int|
                0 <= a < phys_end(memory_map@) && a % 4096 == 0 ==> #[trigger] final(self).direct_split(
                    0,
                    phys_end(memory_map@) as u64,
                    a,
                ),
            r.is_ok() ==> forall|w: u64|
                w >= BOOTINFO_START ==> (#[trigger] final(self).tables.huge_at(final(self).root as int, w)
                    == old(self).tables.huge_at(old(self).root as int, w)),
            final(self).tables.issued_by(final(allocator)),
            final(allocator).wf(),
    {
        let mut end: u64 = 0;
        let mut i: usize = 0;
        while i < memory_map.len()
            invariant
                memory_map_wf(memory_map@),
                0 <= i <= memory_map@.len(),
                end == phys_end(memory_map@.take(i as int)),
            decreases memory_map@.len() - i,
        {
            let d = memory_map[i];
            proof {
                assert(memory_map@[i as int].wf());
                assert(memory_map@.take(i as int + 1).drop_last() == memory_map@.take(i as int));
            }
            let d_end = d.phys_start + d.page_count * 4096;
            if d_end > end {
                end = d_end;
            }
            i += 1;
        }
        proof {
            assert(memory_map@.take(memory_map@.len() as int) == memory_map@);
            lemma_phys_end_bounds(memory_map@);
        }
        let frames = PageRange::new(PhysFrame::from_base_u64(0), PhysFrame::from_base_u64(end));
        self.direct_map_physical_range(frames, allocator)?;
        proof {
            assert forall|a: int| 0 <= a < end && a % 4096 == 0 implies #[trigger] self.direct_split(0, end, a) by {
                let k = a / 4096;
                assert(frames.spec_page(k) == a);
                assert(k < frames.spec_len());
            }
        }
        Ok(())
    }

    /// Identity maps the two pages that hold the code at `fn_addr` (it may straddle a boundary), so
    /// that it stays executable across the switch of page maps.
    pub fn identity_map_fn(&mut self, fn_addr: u64, allocator: &mut FrameAllocator)
        requires
            fn_addr < 0x0000_7FFF_FFFF_E000,
            old(self).ready(old(allocator), 6),
            !old(self).tables.huge_at(old(self).root as int, (fn_addr - fn_addr % 4096) as u64),
            !old(self).tables.huge_at(old(self).root as int, (fn_addr - fn_addr % 4096 + 4096) as u64),
        ensures
            final(self).wf(),
            final(self).root == old(self).root,
            final(self).level_4_phys_addr == old(self).level_4_phys_addr,
            final(self).maps(
                (fn_addr - fn_addr % 4096) as u64,
                (fn_addr - fn_addr % 4096) as u64,
                MappingFlags { execute: true, write: false, present: true },
            ),
            final(self).maps(
                (fn_addr - fn_addr % 4096 + 4096) as u64,
                (fn_addr - fn_addr % 4096 + 4096) as u64,
                MappingFlags { execute: true, write: false, present: true },
            ),
            final(self).tables.issued_by(final(allocator)),
            final(allocator).wf(),
    {
        proof {
            crate::addr::lemma_half(fn_addr);
        }
        let frame = PhysFrame::from_containing_u64(fn_addr);
        let page = VirtPage::from_containing_u64(fn_addr);
        let ghost p1 = (fn_addr - fn_addr % 4096 + 4096) as u64;
        proof {
            crate::addr::lemma_half(p1);
        }
        let next_frame = frame.next();
        let next_page = page.next();
        self.map_page(frame, page, allocator, MappingFlags::new_code());
        let ghost m1 = *self;
        proof {
            assert(fn_addr - fn_addr % 4096 != p1);
            lemma_page_mask(fn_addr);
            let p0 = (fn_addr - fn_addr % 4096) as u64;
            crate::addr::lemma_half(p0);
            lemma_distinct_pages_indices((fn_addr - fn_addr % 4096) as u64, p1);
        }
        self.map_page(next_frame, next_page, allocator, MappingFlags::new_code());
        proof {
            assert(m1.tables.walk(m1.root as int, (fn_addr - fn_addr % 4096) as u64).is_some());
        }
    }

    /// The physical address of the PML4, for CR3.
    pub fn level_4_phys_addr(&self) -> (r: PhysAddr)
        ensures
            r == self.level_4_phys_addr,
    {
        self.level_4_phys_addr
    }
}

/// The end of the highest descriptor of a memory map.
pub open spec fn phys_end(map: Seq<MemoryDescriptor>) -> int
    decreases map.len(),
{
    if map.len() == 0 {
        0
    } else {
        let rest = phys_end(map.drop_last());
        let d = map.last();
        let d_end = d.phys_start + d.page_count * 4096;
        if d_end > rest {
            d_end
        } else {
            rest
        }
    }
}

/// The end of a well-formed map is a frame address.
proof fn lemma_phys_end_bounds(map: Seq<MemoryDescriptor>)
    requires
        memory_map_wf(map),
    ensures
        phys_end(map) % 4096 == 0,
        0 <= phys_end(map) < crate::addr::PHYSADDR_LIMIT,
    decreases map.len(),
{
    if map.len() > 0 {
        assert(memory_map_wf(map.drop_last())) by {
            assert forall|i: int| 0 <= i < map.drop_last().len() implies #[trigger] map.drop_last()[i].wf() by {
                assert(map[i].wf());
            }
        }
        lemma_phys_end_bounds(map.drop_last());
        let d = map.last();
        assert(map[map.len() - 1].wf());
        assert((d.phys_start + d.page_count * 4096) % 4096 == 0) by (nonlinear_arith)
            requires
                d.phys_start % 4096 == 0,
        ;
    }
}

/// The `k`-th page of a frame range lies in it and is page aligned.
proof fn frame_range_page_facts(r: PageRange<PhysFrame>, k: int)
    requires
        r.wf(),
        0 <= k < r.spec_len(),
    ensures
        r.spec_start() <= r.spec_page(k) < r.spec_end(),
        r.spec_page(k) % 4096 == 0,
        r.spec_page(k) + 4096 <= r.spec_end(),
{
    let s = r.spec_start() as int;
    let e = r.spec_end() as int;
    assert(s + k * 4096 + 4096 <= e && (s + k * 4096) % 4096 == 0) by (nonlinear_arith)
        requires
            0 <= k < (e - s) / 4096,
            s <= e,
            s % 4096 == 0,
            e % 4096 == 0,
    ;
}

/// The number of pages of an optional range.
pub open spec fn span_len(r: Option<PageRange<PhysFrame>>) -> int {
    match r {
        Some(x) => x.spec_len(),
        None => 0,
    }
}

/// Frames in different GiBs are direct mapped in different 1 GiB regions.
proof fn lemma_gib_apart(a: int, m: int)
    requires
        0 <= a <= PHYSMEM_MAX,
        0 <= m <= PHYSMEM_MAX,
        a - a % 0x4000_0000 != m - m % 0x4000_0000,
    ensures
        !same_gib(direct_addr(a), direct_addr(m)),
{
    let x = direct_addr(a);
    let y = direct_addr(m);
    let xa = direct_addr(a - a % 0x4000_0000);
    let ya = direct_addr(m - m % 0x4000_0000);
    assert((xa - 0xFFFF_8000_0000_0000) % 0x4000_0000 == 0);
    assert((ya - 0xFFFF_8000_0000_0000) % 0x4000_0000 == 0);
    lemma_gib_bits(xa, ya);
    lemma_distinct_gibs(xa, ya);
    assert(xa % 0x4000_0000 == 0) by {
        assert(0xFFFF_8000_0000_0000int % 0x4000_0000 == 0);
    }
    assert(ya % 0x4000_0000 == 0) by {
        assert(0xFFFF_8000_0000_0000int % 0x4000_0000 == 0);
    }
    lemma_same_gib_align(x, xa);
    lemma_same_gib_align(y, ya);
}

/// Distinct page-aligned frames are direct mapped at addresses that differ in some index.
proof fn lemma_pages_apart(a: int, b: int)
    requires
        0 <= a <= PHYSMEM_MAX,
        0 <= b <= PHYSMEM_MAX,
        a % 4096 == 0,
        b % 4096 == 0,
        a != b,
    ensures
        !same_indices(direct_addr(a), direct_addr(b)),
{
    let x = direct_addr(a);
    let y = direct_addr(b);
    crate::addr::lemma_half(x);
    crate::addr::lemma_half(y);
    assert(0xFFFF_8000_0000_0000int % 4096 == 0);
    lemma_distinct_pages_indices(x, y);
}

/// Alignment to 1 GiB expressed with arithmetic.
proof fn lemma_gib_mask(a: u64)
    ensures
        spec_is_aligned(a, 0x4000_0000) <==> a % 0x4000_0000 == 0,
        spec_align_down(a, 0x4000_0000) == a - a % 0x4000_0000,
{
    vstd::bits::lemma_u64_low_bits_mask_is_mod(a, 30);
    vstd::arithmetic::power2::lemma2_to64();
    vstd::bits::lemma_low_bits_mask_values();
    assert(a & !0x3FFF_FFFFu64 == a - (a & 0x3FFF_FFFF)) by (bit_vector);
}

/// Two direct-mapped addresses of 1 GiB-aligned frames are 1 GiB aligned and in the upper half.
proof fn lemma_gib_bits(a: u64, b: u64)
    requires
        a >= 0xFFFF_8000_0000_0000,
        b >= 0xFFFF_8000_0000_0000,
        (a - 0xFFFF_8000_0000_0000) % 0x4000_0000 == 0,
        (b - 0xFFFF_8000_0000_0000) % 0x4000_0000 == 0,
    ensures
        a & 0x3FFF_FFFF == 0,
        b & 0x3FFF_FFFF == 0,
        a >> 47 == b >> 47,
{
    assert(a % 0x4000_0000 == 0 && b % 0x4000_0000 == 0);
    vstd::bits::lemma_u64_low_bits_mask_is_mod(a, 30);
    vstd::bits::lemma_u64_low_bits_mask_is_mod(b, 30);
    vstd::arithmetic::power2::lemma2_to64();
    vstd::bits::lemma_low_bits_mask_values();
    crate::addr::lemma_half(a);
    crate::addr::lemma_half(b);
}

/// An address and its 1 GiB-aligned floor lie in one 1 GiB region.
proof fn lemma_same_gib_align(x: u64, y: u64)
    requires
        y <= x,
        x - y < 0x4000_0000,
        y % 0x4000_0000 == 0,
    ensures
        same_gib(x, y),
{
    vstd::bits::lemma_u64_low_bits_mask_is_mod(y, 30);
    vstd::arithmetic::power2::lemma2_to64();
    vstd::bits::lemma_low_bits_mask_values();
    assert(y & 0x3FFF_FFFF == 0 && y <= x && x - y < 0x4000_0000 ==> (x >> 39) & 0x1FF == (y >> 39) & 0x1FF
        && (x >> 30) & 0x1FF == (y >> 30) & 0x1FF) by (bit_vector);
}

/// Two pages of one range have bases in one half of the address space, and distinct indices give
/// distinct bases.
pub proof fn lemma_range_pages(pages: PageRange<VirtPage>, k: int, i: int)
    requires
        pages.wf(),
        0 <= k < i < pages.spec_len(),
    ensures
        pages.spec_page(k) as u64 != pages.spec_page(i) as u64,
        (pages.spec_page(k) as u64) % 4096 == 0,
        (pages.spec_page(i) as u64) % 4096 == 0,
        (pages.spec_page(k) as u64) >> 47 == (pages.spec_page(i) as u64) >> 47,
{
    let s = pages.spec_start();
    let e = pages.spec_end();
    assert(s + i * 4096 < e) by (nonlinear_arith)
        requires
            i < (e - s) / 4096,
            s <= e,
    ;
    assert(s + k * 4096 < s + i * 4096) by (nonlinear_arith)
        requires
            k < i,
    ;
    assert((s + k * 4096) % 4096 == 0 && (s + i * 4096) % 4096 == 0) by (nonlinear_arith)
        requires
            s % 4096 == 0,
    ;
    let a = (s + k * 4096) as u64;
    let b = (s + i * 4096) as u64;
    assert(s <= a && a <= b && b <= e && s >> 47 == e >> 47 ==> a >> 47 == b >> 47) by (bit_vector);
}

} // verus!
