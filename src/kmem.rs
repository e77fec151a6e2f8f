use vstd::prelude::*;
use crate::addr::{Page, PageRange, VirtAddr, VirtPage};
use crate::heap::{apart, block_of, block_ok, blocks_after, first_fit, first_record, record_of, spec_try_alloc, AllocResult, KernelHeap};
use crate::kpage::{KernelPageTables, MappingType};
use crate::loader::KERNEL_LIMIT;
use crate::mappings::KERNEL_START;
use crate::paging::{same_indices, spec_has_flags, MapError, MappingFlags, PageMapAllocator, MAX_TABLES};
use crate::phys::PhysFrameAllocator;

verus! {

/// The kernel's memory: physical frames, page tables, and the early heap.
pub struct KernelMemoryManager {
    pub phys_allocator: PhysFrameAllocator,
    pub page_tables: KernelPageTables,
    pub heap: KernelHeap,
}

/// The `k`-th heap page above the page of `stack_top`.
pub open spec fn heap_page(stack_top: u64, k: int) -> u64 {
    (stack_top - stack_top % 4096 + 4096 + k * 4096) as u64
}

/// Pages of the early heap.
pub const KERNEL_HEAP_PAGES: u64 = 10;

/// The `k`-th page of a range is in the upper half and differs from the others.
proof fn lemma_heap_pages(pages: PageRange<VirtPage>, k: int, j: int)
    requires
        pages.wf(),
        pages.spec_start() >= KERNEL_START,
        0 <= k < j < pages.spec_len(),
    ensures
        !same_indices(pages.spec_page(k) as u64, pages.spec_page(j) as u64),
{
    crate::mappings::lemma_range_pages(pages, k, j);
    crate::paging::lemma_distinct_pages_indices(pages.spec_page(k) as u64, pages.spec_page(j) as u64);
}

impl KernelMemoryManager {
    /// Maps `KERNEL_HEAP_PAGES` fresh writable pages right above the page of `stack_top`.
    pub fn bootstrap_heap_area(
        stack_top: VirtAddr,
        allocator: &mut PhysFrameAllocator,
        page_tables: &mut KernelPageTables,
    ) -> (r: Result<PageRange<VirtPage>, MapError>)
        requires
            old(page_tables).wf(),
            old(allocator).wf(),
            stack_top.view() >= KERNEL_START,
            stack_top.view() <= KERNEL_LIMIT - 11 * 4096,
            forall|k: int| 0 <= k < KERNEL_HEAP_PAGES ==> !old(page_tables).tables.huge_at(
                old(page_tables).root as int,
                #[trigger] heap_page(stack_top.view(), k),
            ),
        ensures
            final(page_tables).wf(),
            final(allocator).wf(),
            r matches Ok(pages) ==> {
                &&& pages.wf()
                &&& pages.spec_start() == stack_top.view() - stack_top.view() % 4096 + 4096
                &&& pages.spec_len() == KERNEL_HEAP_PAGES
                &&& forall|k: int| 0 <= k < pages.spec_len() ==> (final(page_tables).tables.walk(
                    final(page_tables).root as int,
                    #[trigger] pages.spec_page(k) as u64,
                ) matches Some(e) && spec_has_flags(e, MappingFlags { execute: false, write: true, present: true }))
            },
            old(page_tables).tables.issued_by(old(allocator)) && old(allocator).spec_frames_left() >= 4
                * KERNEL_HEAP_PAGES && old(page_tables).tables.n() + 3 * KERNEL_HEAP_PAGES < MAX_TABLES
                ==> r.is_ok(),
    {
        let ghost ok0 = old(page_tables).tables.issued_by(old(allocator));
        let top_page = VirtPage::from_containing_addr(stack_top);
        proof {
            let t = top_page.view();
            assert(t + 11 * 4096 <= KERNEL_LIMIT);
            let a = (t + 4096) as u64;
            let b = (t + 11 * 4096) as u64;
            crate::addr::lemma_half(a);
            crate::addr::lemma_half(b);
        }
        let start = top_page.next();
        let end = start.increment(KERNEL_HEAP_PAGES);
        let pages = PageRange::new(start, end);
        let mut i: u64 = 0;
        while i < KERNEL_HEAP_PAGES
            invariant
                pages.wf(),
                pages.spec_start() >= KERNEL_START,
                pages.spec_len() == KERNEL_HEAP_PAGES,
                pages.spec_end() <= KERNEL_LIMIT,
                page_tables.wf(),
                allocator.wf(),
                i <= KERNEL_HEAP_PAGES,
                page_tables.root == old(page_tables).root,
                forall|w: u64| #[trigger] page_tables.tables.huge_at(page_tables.root as int, w) == old(page_tables).tables.huge_at(
                    old(page_tables).root as int,
                    w,
                ),
                forall|k: int| 0 <= k < KERNEL_HEAP_PAGES ==> !old(page_tables).tables.huge_at(
                    old(page_tables).root as int,
                    #[trigger] heap_page(stack_top.view(), k),
                ),
                pages.spec_start() == stack_top.view() - stack_top.view() % 4096 + 4096,
                forall|k: int| 0 <= k < i ==> (page_tables.tables.walk(
                    page_tables.root as int,
                    #[trigger] pages.spec_page(k) as u64,
                ) matches Some(e) && spec_has_flags(e, MappingFlags { execute: false, write: true, present: true })),
                ok0 == old(page_tables).tables.issued_by(old(allocator)),
                ok0 ==> page_tables.tables.issued_by(allocator),
                allocator.spec_frames_left() >= old(allocator).spec_frames_left() - 4 * i,
                page_tables.tables.n() <= old(page_tables).tables.n() + 3 * i,
            decreases KERNEL_HEAP_PAGES - i,
        {
            let page = pages.page(i);
            proof {
                assert(page.view() == heap_page(stack_top.view(), i as int));
            }
            let ghost before = *page_tables;
            page_tables.alloc_and_map_page(page, MappingType::DataRw, allocator)?;
            proof {
                assert forall|k: int| 0 <= k < i + 1 implies (page_tables.tables.walk(
                    page_tables.root as int,
                    #[trigger] pages.spec_page(k) as u64,
                ) matches Some(e) && spec_has_flags(e, MappingFlags { execute: false, write: true, present: true })) by {
                    if k < i {
                        lemma_heap_pages(pages, k, i as int);
                        assert(before.tables.walk(before.root as int, pages.spec_page(k) as u64).is_some());
                    }
                }
            }
            i += 1;
        }
        Ok(pages)
    }

    /// Takes over the page tables and frames, and sets up the early heap above `stack_top`.
    pub fn new(
        page_tables: KernelPageTables,
        phys_allocator: PhysFrameAllocator,
        stack_top: VirtAddr,
    ) -> (r: Result<KernelMemoryManager, MapError>)
        requires
            page_tables.wf(),
            phys_allocator.wf(),
            stack_top.view() >= KERNEL_START,
            stack_top.view() <= KERNEL_LIMIT - 11 * 4096,
            forall|k: int| 0 <= k < KERNEL_HEAP_PAGES ==> !page_tables.tables.huge_at(
                page_tables.root as int,
                #[trigger] heap_page(stack_top.view(), k),
            ),
        ensures
            r matches Ok(m) ==> m.heap.wf() && m.heap.pages.spec_start() == stack_top.view() - stack_top.view() % 4096 + 4096
                && m.heap.pages.spec_len() == KERNEL_HEAP_PAGES && m.heap.allocations@.len() == 0,
            page_tables.tables.issued_by(&phys_allocator) && phys_allocator.spec_frames_left() >= 4 * KERNEL_HEAP_PAGES
                && page_tables.tables.n() + 3 * KERNEL_HEAP_PAGES < MAX_TABLES ==> r.is_ok(),
    {
        let mut page_tables = page_tables;
        let mut phys_allocator = phys_allocator;
        let pages = Self::bootstrap_heap_area(stack_top, &mut phys_allocator, &mut page_tables)?;
        let heap = KernelHeap::new(pages);
        Ok(KernelMemoryManager { phys_allocator, page_tables, heap })
    }

    /// Allocates from the early heap.
    pub fn heap_alloc(&mut self, size: u64, align: u64) -> (r: Option<u64>)
        requires
            old(self).heap.wf(),
            crate::addr::is_pow2(align),
        ensures
            final(self).heap.wf(),
            r matches Some(p) ==> crate::addr::spec_is_aligned(p, align) && old(self).heap.pages.spec_start() < p
                && p + size <= old(self).heap.pages.spec_end(),
            r.is_none() <==> forall|i: int| 0 <= i < old(self).heap.free_list.blocks@.len() ==> spec_try_alloc(
                #[trigger] old(self).heap.free_list.blocks@[i].start,
                old(self).heap.free_list.blocks@[i].end,
                size,
                align,
            ).is_none(),
            r matches Some(p) ==> exists|i: int, res: AllocResult|
                #[trigger] first_fit(old(self).heap.free_list.blocks@, size, align, i, res) && p == res.alloc_start
                    && final(self).heap.free_list.blocks@ == blocks_after(old(self).heap.free_list.blocks@, i, res)
                    && final(self).heap.allocations@ == old(self).heap.allocations@.push(record_of(res)),
    {
        self.heap.allocate(size, align)
    }

    /// Returns an allocation to the early heap.
    pub fn heap_free(&mut self, ptr: u64) -> (r: bool)
        requires
            old(self).heap.wf(),
        ensures
            final(self).heap.wf(),
            !r ==> final(self).heap.free_list.blocks@ == old(self).heap.free_list.blocks@
                && final(self).heap.allocations@ == old(self).heap.allocations@,
            r <==> exists|k: int| 0 <= k < old(self).heap.allocations@.len() && (#[trigger] old(self).heap.allocations@[k]).alloc_start == ptr,
            forall|k: int|
                #[trigger] first_record(old(self).heap.allocations@, ptr, k) ==> {
                    let b = block_of(old(self).heap.allocations@[k]);
                    &&& (block_ok(b, old(self).heap.free_list.heap_start, old(self).heap.free_list.heap_end) && apart(
                        old(self).heap.free_list.blocks@,
                        b,
                    )) ==> r
                    &&& r ==> (exists|p: int| 0 <= p <= old(self).heap.free_list.blocks@.len() && final(self).heap.free_list.blocks@
                        == old(self).heap.free_list.blocks@.insert(p, b)) && final(self).heap.allocations@
                        == old(self).heap.allocations@.remove(k)
                },
    {
        self.heap.free(ptr)
    }
}

} // verus!
