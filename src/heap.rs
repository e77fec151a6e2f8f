use vstd::prelude::*;
use crate::addr::{align_up, is_pow2, lemma_align_down_props, spec_align_up, Page, PageRange, VirtPage};

verus! {

/// Bytes of the header `{start, end}` written before each allocation.
pub const ALLOC_HEADER_SIZE: u64 = 16;

/// Alignment of the allocation header.
pub const ALLOC_HEADER_ALIGN: u64 = 8;

/// Bytes of the header `{prev, next, size}` at the start of each free block.
pub const FREELIST_ENTRY_SIZE: u64 = 24;

/// Alignment of a free block header.
pub const FREELIST_ENTRY_ALIGN: u64 = 8;

/// An address inside the heap window.
#[derive(Clone, Copy, PartialEq, Eq, Structural, Debug)]
pub struct HeapOffset(pub u64);

impl HeapOffset {
    /// The address, for writing through.
    pub fn as_ptr_mut(&self) -> (r: u64)
        ensures
            r == self.0,
    {
        self.0
    }

    /// The address, for reading through.
    pub fn as_ptr(&self) -> (r: u64)
        ensures
            r == self.0,
    {
        self.0
    }
}

/// A block of free memory `[start, end)`; its header sits at `start`.
#[derive(Clone, Copy, PartialEq, Eq, Structural, Debug)]
pub struct FreeBlock {
    pub start: u64,
    pub end: u64,
}

impl FreeBlock {
    pub fn size(&self) -> (r: u64)
        requires
            self.start <= self.end,
        ensures
            r == self.end - self.start,
    {
        self.end - self.start
    }

    pub fn start(&self) -> (r: u64)
        ensures
            r == self.start,
    {
        self.start
    }

    pub fn end(&self) -> (r: u64)
        ensures
            r == self.end,
    {
        self.end
    }
}

/// Memory `[start, end)` taken from a free block by an allocation, header and padding included.
#[derive(Clone, Copy, PartialEq, Eq, Structural, Debug)]
pub struct AllocBlock {
    pub start: u64,
    pub end: u64,
}

impl AllocBlock {
    pub fn size(&self) -> (r: u64)
        requires
            self.start <= self.end,
        ensures
            r == self.end - self.start,
    {
        self.end - self.start
    }

    pub fn start(&self) -> (r: u64)
        ensures
            r == self.start,
    {
        self.start
    }

    pub fn end(&self) -> (r: u64)
        ensures
            r == self.end,
    {
        self.end
    }
}

/// Where an allocation from one free block goes.
#[derive(Clone, Copy, Debug)]
pub struct AllocResult {
    /// Where the allocation header goes.
    pub header_start: u64,
    /// The address handed to the caller.
    pub alloc_start: u64,
    /// The start of the space taken, header and padding included.
    pub used_start: u64,
    /// The end of the space taken.
    pub used_end: u64,
    /// What stays free of the block, when it can still hold a free block header.
    pub remaining: Option<(u64, u64)>,
}

/// The placement of `size` bytes aligned to `align` in the free block `[start, end)`: the header
/// right before the aligned start, the end rounded up to the free-header alignment and at least a
/// free header's size past the block start (so that the space can be freed again), and the rest of
/// the block kept free only if a free header fits in it.
pub open spec fn spec_try_alloc(start: u64, end: u64, size: u64, align: u64) -> Option<AllocResult> {
    let a = spec_align_up((start + ALLOC_HEADER_SIZE) as u64, align);
    let e0 = spec_align_up((a + size) as u64, FREELIST_ENTRY_ALIGN);
    let e = if e0 < start + FREELIST_ENTRY_SIZE {
        start + FREELIST_ENTRY_SIZE
    } else {
        e0
    };
    if start + ALLOC_HEADER_SIZE + align > u64::MAX || a + size + FREELIST_ENTRY_ALIGN > u64::MAX
        || end < e {
        None
    } else {
        let remaining = if end - e < FREELIST_ENTRY_SIZE {
            None
        } else {
            Some((e as u64, end))
        };
        Some(
            AllocResult {
                header_start: (a - ALLOC_HEADER_SIZE) as u64,
                alloc_start: a as u64,
                used_start: start,
                used_end: if remaining.is_some() {
                    e as u64
                } else {
                    end
                },
                remaining,
            },
        )
    }
}

/// A free header's size past an 8-aligned address is 8-aligned.
proof fn lemma_header_past_aligned(x: u64)
    requires
        crate::addr::spec_is_aligned(x, 8),
        x + FREELIST_ENTRY_SIZE <= u64::MAX,
    ensures
        crate::addr::spec_is_aligned((x + FREELIST_ENTRY_SIZE) as u64, 8),
{
    let y = (x + 24) as u64;
    assert(y & 7 == 0) by (bit_vector)
        requires
            x & 7 == 0,
            y == (x + 24) as u64,
    ;
}

/// Works out where `size` bytes aligned to `align` would go in `block`.
pub fn try_alloc_from_free_block(block: &FreeBlock, size: u64, align: u64) -> (r: Option<AllocResult>)
    requires
        is_pow2(align),
        block.start <= block.end,
    ensures
        r == spec_try_alloc(block.start, block.end, size, align),
{
    proof {
        crate::addr::lemma_page_size_pow2();
    }
    if align > u64::MAX - ALLOC_HEADER_SIZE || block.start > u64::MAX - ALLOC_HEADER_SIZE - align {
        return None;
    }
    proof {
        lemma_align_down_props((block.start + ALLOC_HEADER_SIZE) as u64, align);
    }
    let alloc_start = align_up(block.start + ALLOC_HEADER_SIZE, align);
    if size > u64::MAX - FREELIST_ENTRY_ALIGN || alloc_start > u64::MAX - FREELIST_ENTRY_ALIGN - size {
        return None;
    }
    proof {
        lemma_align_down_props((alloc_start + size) as u64, 8);
    }
    let alloc_end0 = align_up(alloc_start + size, FREELIST_ENTRY_ALIGN);
    if block.end - block.start < FREELIST_ENTRY_SIZE {
        return None;
    }
    let alloc_end = if alloc_end0 < block.start + FREELIST_ENTRY_SIZE {
        block.start + FREELIST_ENTRY_SIZE
    } else {
        alloc_end0
    };
    if block.end < alloc_end {
        return None;
    }
    let remaining = if block.end - alloc_end < FREELIST_ENTRY_SIZE {
        None
    } else {
        Some((alloc_end, block.end))
    };
    let used_end = match remaining {
        Some(_) => alloc_end,
        None => block.end,
    };
    Some(
        AllocResult {
            header_start: alloc_start - ALLOC_HEADER_SIZE,
            alloc_start,
            used_start: block.start,
            used_end,
            remaining,
        },
    )
}

} // verus!

verus! {

/// The free blocks of the heap window `[heap_start, heap_end)`, in ascending order. (Each free
/// block carries a header `{prev, next, size}` in memory; the order of this list is the order of
/// those links.)
pub struct FreeList {
    pub heap_start: u64,
    pub heap_end: u64,
    pub blocks: Vec<FreeBlock>,
}

/// `b` is a well-placed free block of the window `[lo, hi)`.
pub open spec fn block_ok(b: FreeBlock, lo: u64, hi: u64) -> bool {
    &&& lo <= b.start
    &&& b.end <= hi
    &&& b.start + FREELIST_ENTRY_SIZE <= b.end
    &&& crate::addr::spec_is_aligned(b.start, 8)
}

impl FreeList {
    pub open spec fn wf(&self) -> bool {
        &&& 0 < self.heap_start <= self.heap_end
        &&& forall|i: int| 0 <= i < self.blocks@.len() ==> block_ok(#[trigger] self.blocks@[i], self.heap_start, self.heap_end)
        &&& forall|i: int, j: int| 0 <= i < j < self.blocks@.len() ==> #[trigger] self.blocks@[i].end <= #[trigger] self.blocks@[j].start
    }

    /// One free block covering all of `pages`.
    pub fn new(pages: PageRange<VirtPage>) -> (r: FreeList)
        requires
            pages.wf(),
            pages.spec_start() > 0,
            pages.spec_start() < pages.spec_end(),
        ensures
            r.wf(),
            r.heap_start == pages.spec_start(),
            r.heap_end == pages.spec_end(),
            r.blocks@ == seq![FreeBlock { start: pages.spec_start(), end: pages.spec_end() }],
    {
        let start = pages.first().base_u64();
        let end = pages.end().base_u64();
        proof {
            VirtPage::lemma_base_aligned(start);
            VirtPage::lemma_base_aligned(end);
            crate::addr::lemma_page_mask(start);
            assert(start & 4095 == 0 ==> start & 7 == 0) by (bit_vector);
        }
        let mut blocks: Vec<FreeBlock> = Vec::new();
        blocks.push(FreeBlock { start, end });
        FreeList { heap_start: start, heap_end: end, blocks }
    }

    /// An address of the window.
    pub fn offset(&self, o: u64) -> (r: HeapOffset)
        requires
            self.heap_start <= o <= self.heap_end,
        ensures
            r.0 == o,
    {
        HeapOffset(o)
    }

    /// The first free block.
    pub fn head(&self) -> (r: Option<FreeBlock>)
        ensures
            self.blocks@.len() > 0 ==> r == Some(self.blocks@[0]),
            self.blocks@.len() == 0 ==> r.is_none(),
    {
        if self.blocks.len() > 0 {
            Some(self.blocks[0])
        } else {
            None
        }
    }

    /// Takes the first `len` bytes of free block `i`; the rest stays free.
    pub fn resize_block(&mut self, i: usize, len: u64) -> (r: AllocBlock)
        requires
            old(self).wf(),
            i < old(self).blocks@.len(),
            old(self).blocks@[i as int].start + len + FREELIST_ENTRY_SIZE <= old(self).blocks@[i as int].end,
            crate::addr::spec_is_aligned((old(self).blocks@[i as int].start + len) as u64, 8),
        ensures
            final(self).wf(),
            final(self).heap_start == old(self).heap_start,
            final(self).heap_end == old(self).heap_end,
            r == (AllocBlock { start: old(self).blocks@[i as int].start, end: (old(self).blocks@[i as int].start + len) as u64 }),
            final(self).blocks@ == old(self).blocks@.update(i as int, FreeBlock {
                start: (old(self).blocks@[i as int].start + len) as u64,
                end: old(self).blocks@[i as int].end,
            }),
    {
        let b = self.blocks[i];
        let nb = FreeBlock { start: b.start + len, end: b.end };
        self.blocks.set(i, nb);
        proof {
            assert forall|x: int, y: int| 0 <= x < y < self.blocks@.len() implies #[trigger] self.blocks@[x].end <= #[trigger] self.blocks@[y].start by {
                assert(old(self).blocks@[x].end <= old(self).blocks@[y].start);
            }
        }
        AllocBlock { start: b.start, end: b.start + len }
    }

    /// Takes all of free block `i`.
    pub fn remove_block(&mut self, i: usize) -> (r: AllocBlock)
        requires
            old(self).wf(),
            i < old(self).blocks@.len(),
        ensures
            final(self).wf(),
            final(self).heap_start == old(self).heap_start,
            final(self).heap_end == old(self).heap_end,
            r == (AllocBlock { start: old(self).blocks@[i as int].start, end: old(self).blocks@[i as int].end }),
            final(self).blocks@ == old(self).blocks@.remove(i as int),
    {
        let b = self.blocks.remove(i);
        proof {
            assert forall|x: int, y: int| 0 <= x < y < self.blocks@.len() implies #[trigger] self.blocks@[x].end <= #[trigger] self.blocks@[y].start by {
                let ox = if x < i { x } else { x + 1 };
                let oy = if y < i { y } else { y + 1 };
                assert(old(self).blocks@[ox].end <= old(self).blocks@[oy].start);
            }
        }
        AllocBlock { start: b.start, end: b.end }
    }
}

/// The header of an allocation: the space it took, `[start, end)`.
#[derive(Clone, Copy, PartialEq, Eq, Structural, Debug)]
pub struct AllocHeader {
    pub start: u64,
    pub end: u64,
}

/// A live allocation: its header, and where the header sits.
#[derive(Clone, Copy, PartialEq, Eq, Structural, Debug)]
pub struct AllocRecord {
    pub header_start: u64,
    pub alloc_start: u64,
    pub header: AllocHeader,
}

/// The free list after the allocation `res` from block `i`: the block keeps what remains after the
/// allocation, or leaves the list when no free header fits in the rest.
pub open spec fn blocks_after(blocks: Seq<FreeBlock>, i: int, res: AllocResult) -> Seq<FreeBlock> {
    if res.remaining.is_some() {
        blocks.update(i, FreeBlock { start: res.used_end, end: blocks[i].end })
    } else {
        blocks.remove(i)
    }
}

/// The record of the allocation `res`.
pub open spec fn record_of(res: AllocResult) -> AllocRecord {
    AllocRecord {
        header_start: res.header_start,
        alloc_start: res.alloc_start,
        header: AllocHeader { start: res.used_start, end: res.used_end },
    }
}

/// Block `i` is the first block where `size` bytes aligned to `align` fit, and `res` is where.
pub open spec fn first_fit(blocks: Seq<FreeBlock>, size: u64, align: u64, i: int, res: AllocResult) -> bool {
    &&& 0 <= i < blocks.len()
    &&& spec_try_alloc(blocks[i].start, blocks[i].end, size, align) == Some(res)
    &&& forall|k: int| 0 <= k < i ==> spec_try_alloc(#[trigger] blocks[k].start, blocks[k].end, size, align).is_none()
}

/// Record `k` is the first live allocation at `ptr`.
pub open spec fn first_record(allocs: Seq<AllocRecord>, ptr: u64, k: int) -> bool {
    &&& 0 <= k < allocs.len()
    &&& allocs[k].alloc_start == ptr
    &&& forall|j: int| 0 <= j < k ==> (#[trigger] allocs[j]).alloc_start != ptr
}

/// The space an allocation took, as a block.
pub open spec fn block_of(rec: AllocRecord) -> FreeBlock {
    FreeBlock { start: rec.header.start, end: rec.header.end }
}

/// The two blocks do not overlap.
pub open spec fn disjoint(a: FreeBlock, b: FreeBlock) -> bool {
    a.end <= b.start || b.end <= a.start
}

/// `b` overlaps none of `blocks`.
pub open spec fn apart(blocks: Seq<FreeBlock>, b: FreeBlock) -> bool {
    forall|j: int| 0 <= j < blocks.len() ==> (#[trigger] blocks[j]).end <= b.start || b.end <= blocks[j].start
}

/// The early kernel heap over a fixed window of pages.
pub struct KernelHeap {
    pub pages: PageRange<VirtPage>,
    pub free_list: FreeList,
    pub allocations: Vec<AllocRecord>,
}

impl KernelHeap {
    pub open spec fn wf(&self) -> bool {
        &&& self.free_list.wf()
        &&& self.free_list.heap_start == self.pages.spec_start()
        &&& self.free_list.heap_end == self.pages.spec_end()
        &&& self.allocs_ok()
    }

    /// Every live allocation's space lies in the window, can hold a free header, and overlaps
    /// neither a free block nor another live allocation.
    pub open spec fn allocs_ok(&self) -> bool {
        let allocs = self.allocations@;
        &&& forall|k: int|
            0 <= k < allocs.len() ==> block_ok(
                block_of(#[trigger] allocs[k]),
                self.free_list.heap_start,
                self.free_list.heap_end,
            )
        &&& forall|k: int| 0 <= k < allocs.len() ==> apart(self.free_list.blocks@, block_of(#[trigger] allocs[k]))
        &&& forall|k1: int, k2: int|
            0 <= k1 < k2 < allocs.len() ==> disjoint(block_of(#[trigger] allocs[k1]), block_of(#[trigger] allocs[k2]))
    }

    /// A heap whose whole window is one free block.
    pub fn new(pages: PageRange<VirtPage>) -> (r: KernelHeap)
        requires
            pages.wf(),
            pages.spec_start() > 0,
            pages.spec_start() < pages.spec_end(),
        ensures
            r.wf(),
            r.pages == pages,
            r.allocations@.len() == 0,
    {
        KernelHeap { pages, free_list: FreeList::new(pages), allocations: Vec::new() }
    }

    /// Allocates `size` bytes aligned to `align` from the first free block that has room.
    pub fn allocate(&mut self, size: u64, align: u64) -> (r: Option<u64>)
        requires
            old(self).wf(),
            is_pow2(align),
        ensures
            final(self).wf(),
            final(self).pages == old(self).pages,
            r matches Some(p) ==> {
                &&& crate::addr::spec_is_aligned(p, align)
                &&& old(self).pages.spec_start() + ALLOC_HEADER_SIZE <= p
                &&& p + size <= old(self).pages.spec_end()
            },
            r.is_none() <==> forall|i: int| 0 <= i < old(self).free_list.blocks@.len() ==> spec_try_alloc(
                #[trigger] old(self).free_list.blocks@[i].start,
                old(self).free_list.blocks@[i].end,
                size,
                align,
            ).is_none(),
            r.is_none() ==> final(self).free_list.blocks@ == old(self).free_list.blocks@
                && final(self).allocations@ == old(self).allocations@,
            r matches Some(p) ==> exists|i: int, res: AllocResult|
                #[trigger] first_fit(old(self).free_list.blocks@, size, align, i, res) && p == res.alloc_start
                    && final(self).free_list.blocks@ == blocks_after(old(self).free_list.blocks@, i, res)
                    && final(self).allocations@ == old(self).allocations@.push(record_of(res)),
    {
        let mut i: usize = 0;
        while i < self.free_list.blocks.len()
            invariant
                self.wf(),
                *self == *old(self),
                is_pow2(align),
                forall|k: int| 0 <= k < i ==> spec_try_alloc(
                    #[trigger] self.free_list.blocks@[k].start,
                    self.free_list.blocks@[k].end,
                    size,
                    align,
                ).is_none(),
            decreases self.free_list.blocks@.len() - i,
        {
            let b = self.free_list.blocks[i];
            proof {
                assert(block_ok(self.free_list.blocks@[i as int], self.free_list.heap_start, self.free_list.heap_end));
            }
            match try_alloc_from_free_block(&b, size, align) {
                Some(res) => {
                    proof {
                        crate::addr::lemma_page_size_pow2();
                        let s16 = (b.start + ALLOC_HEADER_SIZE) as u64;
                        crate::addr::lemma_align_up_aligned(s16, align);
                        let a = res.alloc_start;
                        crate::addr::lemma_align_up_aligned((a + size) as u64, 8);
                        if b.start + FREELIST_ENTRY_SIZE <= b.end {
                            lemma_header_past_aligned(b.start);
                        }
                    }
                    let ghost blocks0 = self.free_list.blocks@;
                    let ghost allocs0 = self.allocations@;
                    match res.remaining {
                        Some(_) => {
                            self.free_list.resize_block(i, res.used_end - res.used_start);
                        },
                        None => {
                            self.free_list.remove_block(i);
                        },
                    }
                    let header = AllocHeader { start: res.used_start, end: res.used_end };
                    self.allocations.push(AllocRecord { header_start: res.header_start, alloc_start: res.alloc_start, header });
                    proof {
                        assert(first_fit(blocks0, size, align, i as int, res));
                        assert(self.free_list.blocks@ =~= blocks_after(blocks0, i as int, res));
                        let nb = self.free_list.blocks@;
                        let rec = block_of(record_of(res));
                        let bi = blocks0[i as int];
                        let hs = self.free_list.heap_start;
                        let he = self.free_list.heap_end;
                        assert(block_ok(bi, hs, he));
                        assert(rec.start == bi.start && bi.start + FREELIST_ENTRY_SIZE <= rec.end && rec.end <= bi.end);
                        // Each new block is an old block or the rest of block `i`.
                        assert forall|j: int| 0 <= j < nb.len() implies (exists|o: int| 0 <= o < blocks0.len() && o != i
                            && #[trigger] nb[j] == blocks0[o]) || (nb[j].start == rec.end && nb[j].end == bi.end) by {
                            if res.remaining.is_some() {
                                if j != i {
                                    assert(nb[j] == blocks0[j]);
                                }
                            } else if j < i {
                                assert(nb[j] == blocks0[j]);
                            } else {
                                assert(nb[j] == blocks0[j + 1]);
                            }
                        }
                        assert forall|k: int| 0 <= k < self.allocations@.len() implies apart(nb, block_of(#[trigger] self.allocations@[k])) by {
                            assert forall|j: int| 0 <= j < nb.len() implies (#[trigger] nb[j]).end <= block_of(self.allocations@[k]).start
                                || block_of(self.allocations@[k]).end <= nb[j].start by {
                                if k < allocs0.len() {
                                    assert(self.allocations@[k] == allocs0[k]);
                                    assert(apart(blocks0, block_of(allocs0[k])));
                                    assert(disjoint(blocks0[i as int], block_of(allocs0[k])));
                                    if nb[j].start == rec.end && nb[j].end == bi.end {
                                    } else {
                                        let o = choose|o: int| 0 <= o < blocks0.len() && o != i && nb[j] == blocks0[o];
                                        assert(disjoint(blocks0[o], block_of(allocs0[k])));
                                    }
                                } else {
                                    assert(self.allocations@[k] == record_of(res));
                                    if nb[j].start == rec.end && nb[j].end == bi.end {
                                    } else {
                                        let o = choose|o: int| 0 <= o < blocks0.len() && o != i && nb[j] == blocks0[o];
                                        if o < i {
                                            assert(blocks0[o].end <= blocks0[i as int].start);
                                        } else {
                                            assert(blocks0[i as int].end <= blocks0[o].start);
                                        }
                                    }
                                }
                            }
                        }
                        assert forall|k: int| 0 <= k < self.allocations@.len() implies block_ok(
                            block_of(#[trigger] self.allocations@[k]), hs, he) by {
                            if k < allocs0.len() {
                                assert(self.allocations@[k] == allocs0[k]);
                            }
                        }
                        assert forall|k1: int, k2: int| 0 <= k1 < k2 < self.allocations@.len() implies disjoint(
                            block_of(#[trigger] self.allocations@[k1]), block_of(#[trigger] self.allocations@[k2])) by {
                            assert(self.allocations@[k1] == allocs0[k1]);
                            if k2 < allocs0.len() {
                                assert(self.allocations@[k2] == allocs0[k2]);
                            } else {
                                assert(apart(blocks0, block_of(allocs0[k1])));
                                assert(disjoint(blocks0[i as int], block_of(allocs0[k1])));
                            }
                        }
                    }
                    return Some(res.alloc_start);
                },
                None => {
                    i += 1;
                },
            }
        }
        None
    }
}

impl KernelHeap {
    /// Returns the space of the allocation at `ptr` to the free list, in address order. Gives
    /// `false`, changing nothing, when `ptr` is not a live allocation or its space would overlap a
    /// free block.
    pub fn free(&mut self, ptr: u64) -> (r: bool)
        requires
            old(self).wf(),
        ensures
            final(self).wf(),
            final(self).pages == old(self).pages,
            !r ==> final(self).free_list.blocks@ == old(self).free_list.blocks@,
            !r ==> final(self).allocations@ == old(self).allocations@,
            r <==> exists|k: int| 0 <= k < old(self).allocations@.len() && (#[trigger] old(self).allocations@[k]).alloc_start == ptr,
            forall|k: int|
                #[trigger] first_record(old(self).allocations@, ptr, k) ==> {
                    let b = block_of(old(self).allocations@[k]);
                    &&& (block_ok(b, old(self).free_list.heap_start, old(self).free_list.heap_end) && apart(
                        old(self).free_list.blocks@,
                        b,
                    )) ==> r
                    &&& r ==> (exists|p: int| 0 <= p <= old(self).free_list.blocks@.len() && final(self).free_list.blocks@
                        == old(self).free_list.blocks@.insert(p, b)) && final(self).allocations@
                        == old(self).allocations@.remove(k)
                },
    {
        let mut k: usize = 0;
        while k < self.allocations.len() && self.allocations[k].alloc_start != ptr
            invariant
                0 <= k <= self.allocations@.len(),
                forall|j: int| 0 <= j < k ==> (#[trigger] self.allocations@[j]).alloc_start != ptr,
            decreases self.allocations@.len() - k,
        {
            k += 1;
        }
        if k == self.allocations.len() {
            return false;
        }
        let rec = self.allocations[k];
        proof {
            assert(first_record(self.allocations@, ptr, k as int));
            assert forall|k2: int| #[trigger] first_record(self.allocations@, ptr, k2) implies k2 == k by {
                if k2 < k {
                } else if k2 > k {
                    assert(self.allocations@[k as int].alloc_start != ptr);
                }
            }
        }
        let b = FreeBlock { start: rec.header.start, end: rec.header.end };
        if b.start < self.free_list.heap_start || b.end > self.free_list.heap_end || b.start > u64::MAX
            - FREELIST_ENTRY_SIZE || b.start + FREELIST_ENTRY_SIZE > b.end || b.start & 7 != 0 {
            return false;
        }
        let n = self.free_list.blocks.len();
        let mut p: usize = 0;
        while p < n && self.free_list.blocks[p].start < b.start
            invariant
                n == self.free_list.blocks@.len(),
                0 <= p <= n,
                forall|j: int| 0 <= j < p ==> (#[trigger] self.free_list.blocks@[j]).start < b.start,
            decreases n - p,
        {
            p += 1;
        }
        proof {
            if apart(self.free_list.blocks@, b) && p > 0 {
                let q = (p - 1) as int;
                assert(self.free_list.blocks@[q].start < b.start);
            }
            if apart(self.free_list.blocks@, b) && p < n {
                assert(block_ok(self.free_list.blocks@[p as int], self.free_list.heap_start, self.free_list.heap_end));
            }
        }
        if p > 0 && self.free_list.blocks[p - 1].end > b.start {
            return false;
        }
        if p < n && b.end > self.free_list.blocks[p].start {
            return false;
        }
        let ghost old_blocks = self.free_list.blocks@;
        proof {
            assert(self.free_list.wf());
        }
        self.free_list.blocks.insert(p, b);
        let ghost allocs0 = self.allocations@;
        self.allocations.remove(k);
        proof {
            let nb = self.free_list.blocks@;
            let na = self.allocations@;
            assert(na =~= allocs0.remove(k as int));
            assert forall|m: int| 0 <= m < na.len() implies (#[trigger] na[m]) == allocs0[if m < k { m } else { m + 1 }] by {}
            assert forall|m: int| 0 <= m < na.len() implies apart(nb, block_of(#[trigger] na[m])) by {
                let om = if m < k { m } else { m + 1 };
                assert(apart(old_blocks, block_of(allocs0[om])));
                if om < k {
                    assert(disjoint(block_of(allocs0[om]), block_of(allocs0[k as int])));
                } else {
                    assert(disjoint(block_of(allocs0[k as int]), block_of(allocs0[om])));
                }
                assert forall|j: int| 0 <= j < nb.len() implies (#[trigger] nb[j]).end <= block_of(na[m]).start
                    || block_of(na[m]).end <= nb[j].start by {
                    if j < p {
                        assert(nb[j] == old_blocks[j]);
                    } else if j > p {
                        assert(nb[j] == old_blocks[j - 1]);
                    }
                }
            }
            assert forall|m: int| 0 <= m < na.len() implies block_ok(block_of(#[trigger] na[m]), self.free_list.heap_start, self.free_list.heap_end) by {
                let om = if m < k { m } else { m + 1 };
                assert(block_ok(block_of(allocs0[om]), self.free_list.heap_start, self.free_list.heap_end));
            }
            assert forall|m1: int, m2: int| 0 <= m1 < m2 < na.len() implies disjoint(block_of(#[trigger] na[m1]), block_of(#[trigger] na[m2])) by {
                let o1 = if m1 < k { m1 } else { m1 + 1 };
                let o2 = if m2 < k { m2 } else { m2 + 1 };
                assert(disjoint(block_of(allocs0[o1]), block_of(allocs0[o2])));
            }
            assert(nb == old_blocks.insert(p as int, b));
            assert(nb[p as int] == b);
            assert forall|i: int| 0 <= i < nb.len() implies block_ok(#[trigger] nb[i], self.free_list.heap_start, self.free_list.heap_end) by {
                if i < p {
                    assert(nb[i] == old_blocks[i]);
                } else if i > p {
                    assert(nb[i] == old_blocks[i - 1]);
                }
            }
            assert forall|x: int, y: int| 0 <= x < y < nb.len() implies #[trigger] nb[x].end <= #[trigger] nb[y].start by {
                let ox = if x < p { x } else { x - 1 };
                let oy = if y <= p { y } else { y - 1 };
                if x == p {
                    assert(nb[y] == old_blocks[y - 1]);
                    if y - 1 > p {
                        assert(old_blocks[p as int].end <= old_blocks[y - 1].start);
                        assert(block_ok(old_blocks[p as int], self.free_list.heap_start, self.free_list.heap_end));
                    }
                } else if y == p {
                    assert(nb[x] == old_blocks[x]);
                    if x < p - 1 {
                        assert(old_blocks[x].end <= old_blocks[p - 1].start);
                        assert(block_ok(old_blocks[p - 1], self.free_list.heap_start, self.free_list.heap_end));
                    }
                } else {
                    assert(nb[x] == old_blocks[ox]);
                    assert(nb[y] == old_blocks[oy]);
                }
            }
            assert(old(self).allocations@[k as int].alloc_start == ptr);
            assert(self.allocations@ == old(self).allocations@.remove(k as int));
            assert(old_blocks == old(self).free_list.blocks@);
            assert(b == block_of(old(self).allocations@[k as int]));
            assert(0 <= p <= old_blocks.len() && self.free_list.blocks@ == old(self).free_list.blocks@.insert(p as int, b));
        }
        true
    }
}

} // verus!
