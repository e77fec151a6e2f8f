use vstd::prelude::*;
use crate::addr::{
    align_up, is_pow2, lemma_align_down_props, lemma_page_size_pow2, spec_align_up, Address, Page,
    PageRange, PhysAddr, PhysFrame, VirtPage, PAGE_SIZE, PHYSADDR_LIMIT,
};
use crate::frame::{FirmwareMemoryType, FrameAllocator, MemoryDescriptor};
use crate::loader::KernelAddresses;
use crate::mappings::{Mappings, BOOTINFO_SIZE, BOOTINFO_START};
use crate::paging::{MapError, MappingFlags, PageMapAllocator, MAX_TABLES};

verus! {

/// What the kernel may do with a region of physical memory.
#[derive(Clone, Copy, PartialEq, Eq, Structural, Debug)]
pub enum RegionType {
    Usable,
    Allocated,
    Bootloader,
}

/// `pages` frames of physical memory from `start`, of one type.
#[derive(Clone, Copy, PartialEq, Eq, Structural, Debug)]
pub struct MemRegion {
    pub start: u64,
    pub pages: u64,
    pub ty: RegionType,
}

impl MemRegion {
    /// The exclusive end address.
    pub open spec fn end(&self) -> int {
        self.start + self.pages * 4096
    }

    /// The region of the frames of `range`, of type `ty`.
    pub fn from_range(range: &PageRange<PhysFrame>, ty: RegionType) -> (r: MemRegion)
        requires
            range.wf(),
        ensures
            r.start == range.spec_start(),
            r.end() == range.spec_end(),
            r.ty == ty,
    {
        let start = range.first().base_u64();
        let pages = range.len();
        proof {
            PhysFrame::lemma_base_aligned(range.spec_start());
            PhysFrame::lemma_base_aligned(range.spec_end());
        }
        MemRegion { start, pages, ty }
    }
}

/// Regions are in ascending order and do not overlap.
pub open spec fn sorted_disjoint(rs: Seq<MemRegion>) -> bool {
    forall|i: int, j: int| 0 <= i < j < rs.len() ==> #[trigger] rs[i].end() <= #[trigger] rs[j].start
}

/// How many regions have the Bootloader type.
pub open spec fn bootloader_count(rs: Seq<MemRegion>) -> nat
    decreases rs.len(),
{
    if rs.len() == 0 {
        0
    } else {
        bootloader_count(rs.drop_last()) + if rs.last().ty == RegionType::Bootloader {
            1nat
        } else {
            0nat
        }
    }
}

/// The firmware map lists well-formed descriptors in ascending, non-overlapping order.
pub open spec fn firmware_map_sorted(map: Seq<MemoryDescriptor>) -> bool {
    &&& forall|i: int| 0 <= i < map.len() ==> #[trigger] map[i].wf()
    &&& forall|i: int, j: int|
        0 <= i < j < map.len() ==> #[trigger] map[i].phys_start + map[i].page_count * 4096
            <= #[trigger] map[j].phys_start
}

/// The region type that the kernel sees for a firmware memory type: loader and boot-services
/// memory is free once the kernel runs; loader data holds the kernel image.
pub open spec fn spec_region_type(ty: FirmwareMemoryType) -> RegionType {
    match ty {
        FirmwareMemoryType::Conventional => RegionType::Usable,
        FirmwareMemoryType::LoaderData => RegionType::Allocated,
        FirmwareMemoryType::LoaderCode => RegionType::Usable,
        FirmwareMemoryType::BootServicesCode => RegionType::Usable,
        FirmwareMemoryType::BootServicesData => RegionType::Usable,
        FirmwareMemoryType::Other => RegionType::Allocated,
    }
}

/// The region that a firmware descriptor becomes.
pub fn new_mem_region(descriptor: &MemoryDescriptor) -> (r: MemRegion)
    ensures
        r == (MemRegion {
            start: descriptor.phys_start,
            pages: descriptor.page_count,
            ty: spec_region_type(descriptor.ty),
        }),
{
    let ty = match descriptor.ty {
        FirmwareMemoryType::Conventional => RegionType::Usable,
        FirmwareMemoryType::LoaderData => RegionType::Allocated,
        FirmwareMemoryType::LoaderCode => RegionType::Usable,
        FirmwareMemoryType::BootServicesCode => RegionType::Usable,
        FirmwareMemoryType::BootServicesData => RegionType::Usable,
        FirmwareMemoryType::Other => RegionType::Allocated,
    };
    MemRegion { start: descriptor.phys_start, pages: descriptor.page_count, ty }
}

/// The region a firmware descriptor becomes.
pub open spec fn spec_region(d: MemoryDescriptor) -> MemRegion {
    MemRegion { start: d.phys_start, pages: d.page_count, ty: spec_region_type(d.ty) }
}

/// The regions of a firmware map, in map order, where a region that touches the previous one and
/// has its type is merged into it.
pub open spec fn spec_coalesce(map: Seq<MemoryDescriptor>) -> Seq<MemRegion>
    decreases map.len(),
{
    if map.len() == 0 {
        Seq::empty()
    } else {
        let rest = spec_coalesce(map.drop_last());
        let r = spec_region(map.last());
        if rest.len() > 0 && rest.last().ty == r.ty && rest.last().end() == r.start {
            rest.drop_last().push(
                MemRegion { start: rest.last().start, pages: (rest.last().pages + r.pages) as u64, ty: r.ty },
            )
        } else {
            rest.push(r)
        }
    }
}

/// Turns the firmware map into regions, merging neighbours of the same type that touch.
pub fn coalesce_regions(memory_map: &Vec<MemoryDescriptor>) -> (r: Vec<MemRegion>)
    requires
        firmware_map_sorted(memory_map@),
    ensures
        r@ == spec_coalesce(memory_map@),
        sorted_disjoint(r@),
        forall|i: int| 0 <= i < r@.len() ==> #[trigger] r@[i].ty != RegionType::Bootloader,
        r@.len() <= memory_map@.len(),
        forall|i: int| 0 <= i < r@.len() ==> #[trigger] r@[i].end() < PHYSADDR_LIMIT && r@[i].start % 4096 == 0,
        forall|i: int, j: int| 0 <= i < j < r@.len() ==> !(#[trigger] r@[i].end() == #[trigger] r@[j].start && r@[i].ty == r@[j].ty && j == i + 1),
{
    let mut out: Vec<MemRegion> = Vec::new();
    let n = memory_map.len();
    if n == 0 {
        return out;
    }
    let mut cur = new_mem_region(&memory_map[0]);
    proof {
        assert(memory_map@[0].wf());
        assert(memory_map@.take(1).drop_last() =~= memory_map@.take(0));
        assert(memory_map@.take(0) =~= Seq::<MemoryDescriptor>::empty());
        assert(spec_coalesce(memory_map@.take(0)).len() == 0);
        assert(memory_map@.take(1).last() == memory_map@[0]);
        assert(spec_coalesce(memory_map@.take(1)) =~= out@.push(cur));
    }
    let mut i: usize = 1;
    while i < n
        invariant
            firmware_map_sorted(memory_map@),
            n == memory_map@.len(),
            1 <= i <= n,
            sorted_disjoint(out@),
            forall|k: int| 0 <= k < out@.len() ==> #[trigger] out@[k].ty != RegionType::Bootloader,
            cur.ty != RegionType::Bootloader,
            out@.len() < i,
            forall|k: int| 0 <= k < out@.len() ==> #[trigger] out@[k].end() <= cur.start,
            forall|k: int| 0 <= k < out@.len() ==> #[trigger] out@[k].end() < PHYSADDR_LIMIT && out@[k].start % 4096 == 0,
            out@.len() > 0 ==> !(out@.last().end() == cur.start && out@.last().ty == cur.ty),
            forall|a: int, b: int| 0 <= a < b < out@.len() ==> !(#[trigger] out@[a].end() == #[trigger] out@[b].start && out@[a].ty == out@[b].ty && b == a + 1),
            cur.start % 4096 == 0,
            cur.end() == memory_map@[i - 1].phys_start + memory_map@[i - 1].page_count * 4096,
            cur.start <= cur.end(),
            cur.end() < PHYSADDR_LIMIT,
            spec_coalesce(memory_map@.take(i as int)) == out@.push(cur),
        decreases n - i,
    {
        let r = new_mem_region(&memory_map[i]);
        let ghost prev = out@.push(cur);
        proof {
            assert(memory_map@.take(i + 1).drop_last() =~= memory_map@.take(i as int));
            assert(memory_map@.take(i + 1).last() == memory_map@[i as int]);
            assert(prev.last() == cur);
            assert(prev.drop_last() =~= out@);
            assert(memory_map@[i as int].wf());
            assert(memory_map@[i - 1].phys_start + memory_map@[i - 1].page_count * 4096 <= memory_map@[i as int].phys_start);
        }
        if r.ty == cur.ty && cur.start + cur.pages * PAGE_SIZE == r.start {
            cur = MemRegion { start: cur.start, pages: cur.pages + r.pages, ty: cur.ty };
            proof {
                assert(spec_coalesce(memory_map@.take(i + 1)) =~= out@.push(cur));
            }
        } else {
            let ghost old_out = out@;
            out.push(cur);
            proof {
                assert forall|a: int, b: int| 0 <= a < b < out@.len() implies #[trigger] out@[a].end() <= #[trigger] out@[b].start by {
                    if b == out@.len() - 1 {
                        assert(old_out[a].end() <= cur.start);
                    }
                }
            }
            cur = r;
            proof {
                assert(spec_coalesce(memory_map@.take(i + 1)) =~= out@.push(cur));
            }
        }
        i += 1;
    }
    let ghost old_out = out@;
    out.push(cur);
    proof {
        assert(memory_map@.take(n as int) =~= memory_map@);
        assert(out@.drop_last() == old_out);
        assert forall|a: int, b: int| 0 <= a < b < out@.len() implies #[trigger] out@[a].end() <= #[trigger] out@[b].start by {
            if b == out@.len() - 1 {
                assert(old_out[a].end() <= cur.start);
            }
        }
    }
    out
}

/// Appending keeps the ordering when the new region starts after every region so far.
proof fn lemma_push_sorted(rs: Seq<MemRegion>, x: MemRegion)
    requires
        sorted_disjoint(rs),
        forall|k: int| 0 <= k < rs.len() ==> #[trigger] rs[k].end() <= x.start,
    ensures
        sorted_disjoint(rs.push(x)),
        bootloader_count(rs.push(x)) == bootloader_count(rs) + if x.ty == RegionType::Bootloader {
            1nat
        } else {
            0nat
        },
        forall|k: int| 0 <= k < rs.len() ==> #[trigger] rs.push(x)[k] == rs[k],
{
    assert(rs.push(x).drop_last() == rs);
    assert forall|a: int, b: int| 0 <= a < b < rs.push(x).len() implies #[trigger] rs.push(x)[a].end()
        <= #[trigger] rs.push(x)[b].start by {
        if b == rs.len() {
            assert(rs[a].end() <= x.start);
        }
    }
}

/// The region `r` holds the frames `[lo, hi)`.
pub open spec fn holds_range(r: MemRegion, lo: u64, hi: u64) -> bool {
    r.start <= lo && hi <= r.end()
}

/// What a region that holds `[lo, hi)` turns into: a prefix of its own type, a Bootloader region
/// for `[lo, hi)`, and a suffix of its own type, the prefix and suffix only when non-empty.
pub open spec fn split_pieces(r: MemRegion, lo: u64, hi: u64) -> Seq<MemRegion> {
    let pre = if r.start < lo {
        seq![MemRegion { start: r.start, pages: ((lo - r.start) / 4096) as u64, ty: r.ty }]
    } else {
        Seq::<MemRegion>::empty()
    };
    let post = if hi < r.end() {
        seq![MemRegion { start: hi, pages: ((r.end() - hi) / 4096) as u64, ty: r.ty }]
    } else {
        Seq::<MemRegion>::empty()
    };
    pre + seq![MemRegion { start: lo, pages: ((hi - lo) / 4096) as u64, ty: RegionType::Bootloader }] + post
}

/// `rs` with its first region that holds `[lo, hi)` split by `split_pieces`.
pub open spec fn spec_split(rs: Seq<MemRegion>, lo: u64, hi: u64) -> Seq<MemRegion>
    decreases rs.len(),
{
    if rs.len() == 0 {
        rs
    } else if holds_range(rs[0], lo, hi) {
        split_pieces(rs[0], lo, hi) + rs.skip(1)
    } else {
        seq![rs[0]] + spec_split(rs.skip(1), lo, hi)
    }
}

/// Splits the first region that holds the bootloader's used frames `used` into a prefix, a
/// Bootloader region for exactly those frames, and a suffix; every other region is kept.
#[verifier::rlimit(60)]
pub fn split_reserved(regions: &Vec<MemRegion>, used: &PageRange<PhysFrame>) -> (r: Vec<MemRegion>)
    requires
        sorted_disjoint(regions@),
        used.wf(),
        forall|k: int| 0 <= k < regions@.len() ==> #[trigger] regions@[k].end() < PHYSADDR_LIMIT && regions@[k].start % 4096 == 0,
        forall|k: int| 0 <= k < regions@.len() ==> #[trigger] regions@[k].ty != RegionType::Bootloader,
    ensures
        r@ == spec_split(regions@, used.spec_start(), used.spec_end()),
        sorted_disjoint(r@),
        bootloader_count(r@) <= 1,
        r@.len() <= regions@.len() + 2,
        forall|i: int|
            0 <= i < r@.len() && #[trigger] r@[i].ty == RegionType::Bootloader ==> r@[i].start
                == used.spec_start() && r@[i].end() == used.spec_end(),
{
    let used_start = used.first().base_u64();
    let used_end = used.end().base_u64();
    proof {
        PhysFrame::lemma_base_aligned(used_start);
        PhysFrame::lemma_base_aligned(used_end);
    }
    let ghost whole = spec_split(regions@, used_start, used_end);
    let mut out: Vec<MemRegion> = Vec::new();
    let mut done = false;
    let mut i: usize = 0;
    proof {
        assert(regions@.skip(0) =~= regions@);
        assert(out@ + spec_split(regions@.skip(0), used_start, used_end) =~= whole);
    }
    while i < regions.len()
        invariant
            sorted_disjoint(regions@),
            forall|k: int| 0 <= k < regions@.len() ==> #[trigger] regions@[k].end() < PHYSADDR_LIMIT && regions@[k].start % 4096 == 0,
            forall|k: int| 0 <= k < regions@.len() ==> #[trigger] regions@[k].ty != RegionType::Bootloader,
            used_start == used.spec_start(),
            used_end == used.spec_end(),
            used_start <= used_end,
            used_start % 4096 == 0,
            used_end % 4096 == 0,
            whole == spec_split(regions@, used_start, used_end),
            0 <= i <= regions@.len(),
            !done ==> out@ + spec_split(regions@.skip(i as int), used_start, used_end) == whole,
            done ==> out@ + regions@.skip(i as int) == whole,
            out@.len() <= i + if done { 2int } else { 0int },
            sorted_disjoint(out@),
            bootloader_count(out@) == if done { 1nat } else { 0nat },
            forall|k: int| 0 <= k < out@.len() && i < regions@.len() ==> #[trigger] out@[k].end() <= regions@[i as int].start,
            forall|k: int|
                0 <= k < out@.len() && #[trigger] out@[k].ty == RegionType::Bootloader ==> out@[k].start
                    == used_start && out@[k].end() == used_end,
        decreases regions@.len() - i,
    {
        let r = regions[i];
        proof {
            assert(regions@[i as int].end() < PHYSADDR_LIMIT);
            let rest = regions@.skip(i as int);
            assert(rest[0] == r);
            assert(rest.skip(1) =~= regions@.skip(i + 1));
        }
        let r_end = r.start + r.pages * PAGE_SIZE;
        let ghost before = out@;
        if !done && r.start <= used_start && used_end <= r_end {
            if r.start < used_start {
                let pre = MemRegion { start: r.start, pages: (used_start - r.start) / PAGE_SIZE, ty: r.ty };
                proof {
                    assert(pre.end() == used_start);
                    lemma_push_sorted(out@, pre);
                }
                out.push(pre);
            }
            let boot = MemRegion { start: used_start, pages: (used_end - used_start) / PAGE_SIZE, ty: RegionType::Bootloader };
            proof {
                assert(boot.end() == used_end);
                lemma_push_sorted(out@, boot);
            }
            out.push(boot);
            if used_end < r_end {
                let post = MemRegion { start: used_end, pages: (r_end - used_end) / PAGE_SIZE, ty: r.ty };
                proof {
                    assert(post.end() == r_end);
                    lemma_push_sorted(out@, post);
                }
                out.push(post);
            }
            proof {
                assert(out@ =~= before + split_pieces(r, used_start, used_end));
                assert(before + (split_pieces(r, used_start, used_end) + regions@.skip(i + 1)) =~= out@ + regions@.skip(i + 1));
            }
            done = true;
        } else {
            proof {
                lemma_push_sorted(out@, r);
                if !done {
                    assert(before + (seq![r] + spec_split(regions@.skip(i + 1), used_start, used_end)) =~= before.push(r) + spec_split(regions@.skip(i + 1), used_start, used_end));
                } else {
                    assert(regions@.skip(i as int) =~= seq![r] + regions@.skip(i + 1));
                    assert(before + regions@.skip(i as int) =~= before.push(r) + regions@.skip(i + 1));
                }
            }
            out.push(r);
        }
        proof {
            assert forall|k: int| 0 <= k < out@.len() && i + 1 < regions@.len() implies #[trigger] out@[k].end() <= regions@[i + 1].start by {
                assert(regions@[i as int].end() <= regions@[i + 1].start);
                if k < before.len() {
                    assert(out@[k] == before[k]);
                }
            }
        }
        i += 1;
    }
    proof {
        assert(regions@.skip(regions@.len() as int) =~= Seq::<MemRegion>::empty());
        assert(out@ + Seq::<MemRegion>::empty() =~= out@);
    }
    out
}

/// The regions the kernel receives: the coalesced firmware map, with the region that holds the
/// bootloader's used frames split into a prefix of its own type, a Bootloader region for exactly
/// those frames, and a suffix of its own type (prefix and suffix only when non-empty).
pub fn create_mem_regions(memory_map: &Vec<MemoryDescriptor>, used: &PageRange<PhysFrame>) -> (r: Vec<
    MemRegion,
>)
    requires
        firmware_map_sorted(memory_map@),
        used.wf(),
    ensures
        r@ == spec_split(spec_coalesce(memory_map@), used.spec_start(), used.spec_end()),
        sorted_disjoint(r@),
        bootloader_count(r@) <= 1,
        r@.len() <= memory_map@.len() + 2,
        forall|i: int|
            0 <= i < r@.len() && #[trigger] r@[i].ty == RegionType::Bootloader ==> r@[i].start
                == used.spec_start() && r@[i].end() == used.spec_end(),
{
    let regions = coalesce_regions(memory_map);
    split_reserved(&regions, used)
}

/// Hands out the pages of the boot-info window in ascending order.
pub struct BootInfoPageAllocator {
    pub next: VirtPage,
    pub end: VirtPage,
}

impl BootInfoPageAllocator {
    pub open spec fn wf(&self) -> bool {
        PageRange { start: self.next, end: self.end }.wf()
    }

    /// An allocator over the pages of `range`.
    pub fn new(range: PageRange<VirtPage>) -> (r: BootInfoPageAllocator)
        requires
            range.wf(),
        ensures
            r.wf(),
            r.next == range.start,
            r.end == range.end,
    {
        BootInfoPageAllocator { next: range.start, end: range.end }
    }

    /// The next page of the window.
    pub fn alloc_page(&mut self) -> (r: VirtPage)
        requires
            old(self).wf(),
            old(self).next.view() < old(self).end.view(),
        ensures
            final(self).wf(),
            r == old(self).next,
            final(self).next.view() == old(self).next.view() + 4096,
            final(self).end == old(self).end,
    {
        let mut it = PageRange::new(self.next, self.end).iter();
        let r = it.next();
        self.next = it.next;
        r.unwrap()
    }

    /// The next `n` pages of the window.
    pub fn alloc_pages(&mut self, n: u64) -> (r: PageRange<VirtPage>)
        requires
            old(self).wf(),
            old(self).next.view() + n * 4096 <= old(self).end.view(),
        ensures
            final(self).wf(),
            r.wf(),
            r.start == old(self).next,
            r.spec_end() == old(self).next.view() + n * 4096,
            final(self).next == r.end,
            final(self).end == old(self).end,
    {
        let first = self.next;
        let mut k: u64 = 0;
        while k < n
            invariant
                self.wf(),
                k <= n,
                self.next.view() == first.view() + k * 4096,
                first.view() + n * 4096 <= self.end.view(),
                self.end == old(self).end,
                old(self).wf(),
                first == old(self).next,
            decreases n - k,
        {
            self.alloc_page();
            k += 1;
        }
        proof {
            VirtPage::lemma_base_aligned(first.view());
            VirtPage::lemma_valid_between(first.view(), self.next.view(), self.end.view());
        }
        PageRange::new(first, self.next)
    }
}

/// A bump allocator for the boot-info record and its region array, inside contiguous frames
/// `[start, end)`.
pub struct BootInfoAllocator {
    pub current: u64,
    pub start: PhysFrame,
    pub end: u64,
}

impl BootInfoAllocator {
    pub open spec fn wf(&self) -> bool {
        self.start.view() <= self.current < self.end <= PHYSADDR_LIMIT
    }

    /// Takes one frame from `allocator` as the arena.
    pub fn new(allocator: &mut FrameAllocator) -> (r: BootInfoAllocator)
        requires
            old(allocator).wf(),
            old(allocator).next_frame.view() < old(allocator).alloc_end.view(),
        ensures
            r.wf(),
            r.start.view() == old(allocator).next_frame.view(),
            r.current == r.start.view(),
            r.end == r.start.view() + 4096,
            final(allocator).wf(),
            final(allocator).next_frame.view() == old(allocator).next_frame.view() + 4096,
            final(allocator).alloc_start == old(allocator).alloc_start,
            final(allocator).alloc_end == old(allocator).alloc_end,
    {
        let _ = allocator.next_frame.base_u64();
        let _ = allocator.alloc_end.base_u64();
        Self::new_range(allocator, 1)
    }

    /// Takes `pages` contiguous frames from `allocator` as the arena.
    pub fn new_range(allocator: &mut FrameAllocator, pages: u64) -> (r: BootInfoAllocator)
        requires
            old(allocator).wf(),
            pages >= 1,
            old(allocator).next_frame.view() + pages * 4096 <= old(allocator).alloc_end.view(),
        ensures
            r.wf(),
            r.start.view() == old(allocator).next_frame.view(),
            r.current == r.start.view(),
            r.end == r.start.view() + pages * 4096,
            r.end % 4096 == 0,
            r.end < PHYSADDR_LIMIT,
            final(allocator).wf(),
            final(allocator).next_frame.view() == old(allocator).next_frame.view() + pages * 4096,
            final(allocator).alloc_start == old(allocator).alloc_start,
            final(allocator).alloc_end == old(allocator).alloc_end,
    {
        let range = allocator.alloc_frame_range(pages);
        let start = range.first();
        let end = range.end().base_u64();
        BootInfoAllocator { current: start.base_u64(), start, end }
    }

    /// The first frame of the arena.
    pub fn frame(&self) -> (r: PhysFrame)
        ensures
            r == self.start,
    {
        self.start
    }

    /// Reserves `size` bytes aligned to `align`; returns their physical address.
    pub fn allocate(&mut self, size: u64, align: u64) -> (r: u64)
        requires
            old(self).wf(),
            is_pow2(align),
            spec_align_up(old(self).current, align) + size < old(self).end,
        ensures
            final(self).wf(),
            final(self).start == old(self).start,
            final(self).end == old(self).end,
            r == spec_align_up(old(self).current, align),
            final(self).current == r + size,
    {
        let next = align_up(self.current, align);
        self.current = next + size;
        next
    }
}

/// An address that is a multiple of 8 stays where it is when aligned up to 8.
proof fn lemma_aligned8(x: u64)
    requires
        x % 8 == 0,
    ensures
        spec_align_up(x, 8) == x,
{
    vstd::bits::lemma_u64_low_bits_mask_is_mod(x, 3);
    vstd::arithmetic::power2::lemma2_to64();
    vstd::bits::lemma_low_bits_mask_values();
}

/// Translates `pointer` by `virtual_offset`, from where the bootloader wrote a structure to where
/// the kernel sees it.
pub fn fixup_pointer(virtual_offset: u64, pointer: u64) -> (r: u64)
    requires
        pointer + virtual_offset <= u64::MAX,
    ensures
        r == pointer + virtual_offset,
{
    pointer + virtual_offset
}

/// Pixel layouts of the framebuffer.
#[derive(Clone, Copy, PartialEq, Eq, Structural, Debug)]
pub enum FramebufferFormat {
    /// Blue, green, red, one pad byte: 32 bits per pixel.
    Bgr,
}

/// The framebuffer as the kernel sees it.
#[derive(Clone, Copy, PartialEq, Eq, Structural, Debug)]
pub struct FramebufferInfo {
    pub address: u64,
    pub format: FramebufferFormat,
    pub stride: u64,
    pub width: u64,
    pub height: u64,
}

/// The framebuffer as the firmware reports it: physical address and size in bytes.
#[derive(Clone, Copy, PartialEq, Eq, Structural, Debug)]
pub struct FramebufferDescriptor {
    pub phys_addr: u64,
    pub byte_len: u64,
    pub stride: u64,
    pub width: u64,
    pub height: u64,
}

/// The region array as the kernel sees it.
#[derive(Clone, Copy, PartialEq, Eq, Structural, Debug)]
pub struct MemRegions {
    pub ptr: u64,
    pub len: u64,
}

/// The record handed to the kernel.
#[derive(Clone, Copy)]
pub struct BootInfo {
    pub mem_regions: MemRegions,
    pub framebuffer: FramebufferInfo,
    pub kernel_addrs: KernelAddresses,
}

/// Bytes of one region record: start, pages, type, padding.
pub const MEM_REGION_BYTES: u64 = 24;

/// Bytes of the boot-info record.
pub const BOOT_INFO_BYTES: u64 = 88;

/// What `create_boot_info` leaves to write into the arena frame: `regions` at physical address
/// `regions_phys`, then `boot_info` at `boot_info_phys`. The kernel finds the record at
/// `boot_info_virt`.
pub struct BootInfoPlan {
    pub boot_info: BootInfo,
    pub boot_info_phys: u64,
    pub boot_info_virt: u64,
    pub regions: Vec<MemRegion>,
    pub regions_phys: u64,
}

/// Frames of arena that hold the region array of a map of `len` descriptors (at most two more
/// regions after the split) and the record.
pub open spec fn arena_pages(len: int) -> int {
    (MEM_REGION_BYTES * (len + 2) + BOOT_INFO_BYTES) / 4096 + 1
}

/// The number of pages that hold `len` bytes from `addr`.
pub open spec fn fb_pages(addr: int, len: int) -> int {
    (addr + len - 1 - (addr + len - 1) % 4096 + 4096 - (addr - addr % 4096)) / 4096
}

/// Maps the frames that hold the framebuffer into the next pages of the boot-info window; the flag
/// is false when the allocator ran out of frames for tables part way.
pub fn map_framebuffer(
    framebuffer: &FramebufferDescriptor,
    frame_allocator: &mut FrameAllocator,
    page_alloc: &mut BootInfoPageAllocator,
    mappings: &mut Mappings,
) -> (r: (PageRange<VirtPage>, bool))
    requires
        old(mappings).wf(),
        old(frame_allocator).wf(),
        old(mappings).tables.issued_by(old(frame_allocator)),
        forall|w: u64| w >= BOOTINFO_START ==> !#[trigger] old(mappings).tables.huge_at(old(mappings).root as int, w),
        framebuffer.byte_len > 0,
        framebuffer.phys_addr + framebuffer.byte_len <= PHYSADDR_LIMIT - 4096,
        old(page_alloc).wf(),
        old(page_alloc).next.view() >= BOOTINFO_START + 4096,
        old(page_alloc).next.view() + fb_pages(framebuffer.phys_addr as int, framebuffer.byte_len as int) * 4096
            <= old(page_alloc).end.view(),
        old(page_alloc).end.view() <= BOOTINFO_START + BOOTINFO_SIZE,
    ensures
        final(mappings).wf(),
        final(mappings).root == old(mappings).root,
        final(mappings).level_4_phys_addr == old(mappings).level_4_phys_addr,
        final(frame_allocator).wf(),
        final(mappings).tables.issued_by(final(frame_allocator)),
        final(page_alloc).wf(),
        final(page_alloc).end == old(page_alloc).end,
        r.0.wf(),
        r.0.start == old(page_alloc).next,
        r.0.spec_len() == fb_pages(framebuffer.phys_addr as int, framebuffer.byte_len as int),
        old(mappings).ready(old(frame_allocator), 3 * fb_pages(framebuffer.phys_addr as int, framebuffer.byte_len as int))
            ==> r.1,
        r.1 ==> forall|k: int|
            0 <= k < r.0.spec_len() ==> final(mappings).maps(
                #[trigger] r.0.spec_page(k) as u64,
                (framebuffer.phys_addr - framebuffer.phys_addr % 4096 + k * 4096) as u64,
                MappingFlags { execute: false, write: true, present: true },
            ),
        forall|w: u64|
            (#[trigger] old(mappings).tables.walk(old(mappings).root as int, w)).is_some() && (forall|k: int|
                0 <= k < r.0.spec_len() ==> !crate::paging::same_indices(w, r.0.spec_page(k) as u64))
                ==> old(mappings).same_walk(final(mappings), w),
{
    let fb_start = PhysFrame::from_containing_u64(framebuffer.phys_addr);
    let fb_end = PhysFrame::from_containing_u64(framebuffer.phys_addr + framebuffer.byte_len - 1);
    let fb_frames = PageRange::new(fb_start, fb_end.next());
    let fb_count = fb_frames.len();
    let pages = page_alloc.alloc_pages(fb_count);
    proof {
        assert forall|k: int| 0 <= k < pages.spec_len() implies !mappings.tables.huge_at(
            mappings.root as int,
            #[trigger] pages.spec_page(k) as u64,
        ) by {
            assert(pages.spec_page(k) >= BOOTINFO_START) by (nonlinear_arith)
                requires
                    k >= 0,
                    pages.spec_page(k) == pages.spec_start() + k * 4096,
                    pages.spec_start() >= BOOTINFO_START,
            ;
        }
    }
    let mapped = mappings.try_map_page_range(fb_frames, pages, frame_allocator, MappingFlags::new_rw_data());
    (pages, mapped.is_ok())
}

/// Builds the boot-info record: an arena of frames mapped at `BOOTINFO_START`, the framebuffer
/// mapped in the next pages of the window, the memory regions, and the record itself, with every
/// address in it translated to where the kernel sees it.
#[verifier::rlimit(100)]
#[verifier::spinoff_prover]
pub fn create_boot_info(
    frame_allocator: &mut FrameAllocator,
    mappings: &mut Mappings,
    framebuffer: &FramebufferDescriptor,
    memory_map: &Vec<MemoryDescriptor>,
    kernel_addrs: KernelAddresses,
) -> (r: Result<BootInfoPlan, MapError>)
    requires
        old(mappings).wf(),
        old(frame_allocator).wf(),
        old(mappings).tables.issued_by(old(frame_allocator)),
        old(frame_allocator).spec_frames_left() >= arena_pages(memory_map@.len() as int),
        forall|w: u64| w >= BOOTINFO_START ==> !#[trigger] old(mappings).tables.huge_at(old(mappings).root as int, w),
        firmware_map_sorted(memory_map@),
        framebuffer.byte_len > 0,
        framebuffer.phys_addr + framebuffer.byte_len <= PHYSADDR_LIMIT - 4096,
        arena_pages(memory_map@.len() as int) + fb_pages(framebuffer.phys_addr as int, framebuffer.byte_len as int)
            <= 0x4_0000,
    ensures
        final(mappings).wf(),
        final(frame_allocator).wf(),
        old(mappings).ready(
            old(frame_allocator),
            4 * arena_pages(memory_map@.len() as int) + 3 * fb_pages(framebuffer.phys_addr as int, framebuffer.byte_len as int),
        ) ==> r.is_ok(),
        r matches Ok(plan) ==> ({
            let frame = old(frame_allocator).next_frame.view() as int;
            let offset = BOOTINFO_START - frame;
            let ap = arena_pages(memory_map@.len() as int);
            let rw = MappingFlags { execute: false, write: true, present: true };
            &&& forall|k: int| 0 <= k < ap ==> #[trigger] final(mappings).maps(
                (BOOTINFO_START + k * 4096) as u64,
                (frame + k * 4096) as u64,
                rw,
            )
            &&& forall|k: int|
                0 <= k < fb_pages(framebuffer.phys_addr as int, framebuffer.byte_len as int) ==> #[trigger] final(mappings).maps(
                    (BOOTINFO_START + (ap + k) * 4096) as u64,
                    (framebuffer.phys_addr - framebuffer.phys_addr % 4096 + k * 4096) as u64,
                    rw,
                )
            &&& frame <= plan.regions_phys && plan.regions_phys + MEM_REGION_BYTES * plan.regions@.len() <= plan.boot_info_phys
            &&& plan.boot_info_phys + BOOT_INFO_BYTES <= frame + ap * 4096
            &&& plan.boot_info_virt == plan.boot_info_phys + offset
            &&& plan.boot_info.mem_regions.ptr == plan.regions_phys + offset
            &&& plan.boot_info.mem_regions.len == plan.regions@.len()
            &&& plan.boot_info.framebuffer.address == BOOTINFO_START + ap * 4096 + framebuffer.phys_addr % 4096
            &&& plan.boot_info.kernel_addrs == kernel_addrs
            &&& plan.regions@ == spec_split(
                spec_coalesce(memory_map@),
                final(frame_allocator).alloc_start.view(),
                final(frame_allocator).next_frame.view(),
            )
            &&& sorted_disjoint(plan.regions@)
            &&& bootloader_count(plan.regions@) <= 1
        }),
{
    let len = memory_map.len() as u64;
    let ap = (MEM_REGION_BYTES * (len + 2) + BOOT_INFO_BYTES) / PAGE_SIZE + 1;
    let ghost fa0 = *frame_allocator;
    proof {
        let e = frame_allocator.alloc_end.view() as int;
        let n0 = frame_allocator.next_frame.view() as int;
        assert(n0 + ap * 4096 <= e) by (nonlinear_arith)
            requires
                (e - n0) / 4096 >= ap,
                n0 <= e,
        ;
    }
    let mut arena = BootInfoAllocator::new_range(frame_allocator, ap);
    proof {
        crate::addr::lemma_half(0xFFFF_C000_0000_0000);
        crate::addr::lemma_half(0xFFFF_C000_4000_0000);
        assert forall|t: int| 0 <= t < mappings.tables.n() implies frame_allocator.spec_issued(#[trigger] mappings.tables.frames@[t]) by {
            assert(fa0.spec_issued(mappings.tables.frames@[t]));
        }
        let n0 = fa0.next_frame.view() as int;
        let n1 = frame_allocator.next_frame.view() as int;
        let e = frame_allocator.alloc_end.view() as int;
        assert((e - n1) / 4096 == (e - n0) / 4096 - ap) by (nonlinear_arith)
            requires
                n1 == n0 + ap * 4096,
        ;
    }
    let window = PageRange::new(
        VirtPage::from_base_u64(BOOTINFO_START),
        VirtPage::from_base_u64(BOOTINFO_START + BOOTINFO_SIZE),
    );
    let mut pages = BootInfoPageAllocator::new(window);
    let arena_frames = PageRange::new(arena.frame(), PhysFrame::from_base_u64(arena.end));
    let arena_window = pages.alloc_pages(ap);
    proof {
        assert(arena_frames.spec_len() == ap);
        assert(arena_window.spec_len() == ap);
        assert forall|k: int| 0 <= k < arena_window.spec_len() implies !mappings.tables.huge_at(
            mappings.root as int,
            #[trigger] arena_window.spec_page(k) as u64,
        ) by {
            assert(arena_window.spec_page(k) >= BOOTINFO_START);
        }
    }
    if mappings.try_map_page_range(arena_frames, arena_window, frame_allocator, MappingFlags::new_rw_data()).is_err() {
        return Err(MapError::OutOfFrames);
    }
    let ghost m1 = *mappings;
    let virtual_offset = BOOTINFO_START - arena.frame().base_u64();

    let (fb_page_range, fb_mapped) = map_framebuffer(framebuffer, frame_allocator, &mut pages, mappings);
    if !fb_mapped {
        return Err(MapError::OutOfFrames);
    }
    proof {
        assert forall|k: int| 0 <= k < ap implies #[trigger] mappings.maps(
            (BOOTINFO_START + k * 4096) as u64,
            (fa0.next_frame.view() + k * 4096) as u64,
            MappingFlags { execute: false, write: true, present: true },
        ) by {
            let a = (BOOTINFO_START + k * 4096) as u64;
            assert(a == arena_window.spec_page(k) as u64);
            assert(m1.maps(a, arena_frames.spec_page(k) as u64, MappingFlags { execute: false, write: true, present: true }));
            assert forall|j: int| 0 <= j < fb_page_range.spec_len() implies !crate::paging::same_indices(a, #[trigger] fb_page_range.spec_page(j) as u64) by {
                let b = fb_page_range.spec_page(j) as u64;
                assert(fb_page_range.spec_start() <= fb_page_range.spec_page(j) && fb_page_range.spec_page(j) % 4096 == 0) by (nonlinear_arith)
                    requires
                        0 <= j,
                        fb_page_range.spec_page(j) == fb_page_range.spec_start() + j * 4096,
                        fb_page_range.spec_start() % 4096 == 0,
                ;
                assert(b <= 0xFFFF_C000_4000_0000u64);
                crate::addr::lemma_half(a);
                crate::addr::lemma_half(b);
                crate::paging::lemma_distinct_pages_indices(a, b);
            }
            assert(m1.tables.walk(m1.root as int, a).is_some());
        }
    }
    let fb_virt = fb_page_range.first().base_u64() + framebuffer.phys_addr % PAGE_SIZE;

    let regions = create_mem_regions(memory_map, &frame_allocator.used_range());
    proof {
        lemma_page_size_pow2();
        lemma_align_down_props(arena.current, 8);
    }
    proof {
        let f = arena.start.view();
        lemma_aligned8(f);
        assert(arena.current == f);
        assert((f + 24 * regions@.len()) % 8 == 0) by (nonlinear_arith)
            requires
                f % 4096 == 0,
        ;
        lemma_aligned8((f + 24 * regions@.len()) as u64);
    }
    let regions_phys = arena.allocate(MEM_REGION_BYTES * regions.len() as u64, 8);
    let boot_info_phys = arena.allocate(BOOT_INFO_BYTES, 8);
    let boot_info = BootInfo {
        mem_regions: MemRegions {
            ptr: fixup_pointer(virtual_offset, regions_phys),
            len: regions.len() as u64,
        },
        framebuffer: FramebufferInfo {
            address: fb_virt,
            format: FramebufferFormat::Bgr,
            stride: framebuffer.stride,
            width: framebuffer.width,
            height: framebuffer.height,
        },
        kernel_addrs,
    };
    let boot_info_virt = fixup_pointer(virtual_offset, boot_info_phys);
    proof {
        let frame = fa0.next_frame.view() as int;
        let offset = BOOTINFO_START - frame;
        assert(arena.start.view() == frame);
        assert(frame <= regions_phys);
        assert(regions_phys + MEM_REGION_BYTES * regions@.len() <= boot_info_phys);
        assert(boot_info_phys + BOOT_INFO_BYTES <= frame + ap * 4096);
        assert(boot_info_virt == boot_info_phys + offset);
        assert(boot_info.framebuffer.address == BOOTINFO_START + ap * 4096 + framebuffer.phys_addr % 4096);
        assert(regions@ == spec_split(spec_coalesce(memory_map@), frame_allocator.alloc_start.view(), frame_allocator.next_frame.view()));
        assert(fb_page_range.spec_start() == BOOTINFO_START + ap * 4096);
        assert forall|k: int|
            0 <= k < fb_pages(framebuffer.phys_addr as int, framebuffer.byte_len as int) implies #[trigger] mappings.maps(
                (BOOTINFO_START + (ap + k) * 4096) as u64,
                (framebuffer.phys_addr - framebuffer.phys_addr % 4096 + k * 4096) as u64,
                MappingFlags { execute: false, write: true, present: true },
            ) by {
            assert(fb_page_range.spec_page(k) == BOOTINFO_START + (ap + k) * 4096);
        }
    }
    Ok(BootInfoPlan { boot_info, boot_info_phys, boot_info_virt, regions, regions_phys })
}

} // verus!
