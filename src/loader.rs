use vstd::prelude::*;
use crate::addr::{
    Address, Page, PageRange, PhysAddr, PhysFrame, VirtAddr, VirtPage, PAGE_SIZE, PHYSADDR_LIMIT,
};
use crate::elf::{
    SegmentHeader,
    SegmentKind,
};
use crate::frame::FrameAllocator;
use crate::mappings::{Mappings, KERNEL_START};
use crate::addr::spec_is_canonical;
use crate::paging::{mapped, lemma_distinct_pages_indices, same_indices, MappingFlags, PageMapAllocator, MAX_TABLES};

verus! {

/// Pages of stack placed after the kernel image.
pub const KERNEL_STACK_PAGES: u64 = 3;

/// The highest page base that a loaded segment or the stack may reach.
pub const KERNEL_LIMIT: u64 = 0xFFFF_FFFF_FFFF_F000;

/// Why the kernel image could not be loaded.
#[derive(Clone, Copy, Debug)]
pub enum LoaderError {
    /// A segment lies (partly) below `KERNEL_START` or past the top of the address space; the
    /// value is the base of the page that holds the segment's start.
    InvalidKernelSegmentAddress(u64),
    /// A segment's alignment is not the page size.
    ImproperAlignment(u64),
    /// A segment's file bytes lie outside physical memory, or their offset within a page differs
    /// from that of the segment's virtual address.
    InvalidFileRange(u64),
    /// The boot frame reservation ran out of frames for the segment's pages or tables.
    OutOfFrames,
    /// The ELF reader refused the image.
    ElfFileError(&'static str),
}

/// Where the loaded kernel lives.
#[derive(Clone, Copy, PartialEq, Eq, Structural, Debug)]
pub struct KernelAddresses {
    pub kernel_end: VirtAddr,
    pub kernel_entry: VirtAddr,
    pub stack_top: VirtAddr,
    pub stack_pages: u64,
}

/// Rounds down to a page boundary.
pub open spec fn floor_page(a: int) -> int {
    a - a % 4096
}

/// The checks a segment must pass: page alignment, a kernel-space destination, file bytes inside
/// physical memory at the same in-page offset as the destination.
pub open spec fn segment_error(phys_offset: u64, h: SegmentHeader) -> Option<LoaderError> {
    if h.align != 4096 {
        Some(LoaderError::ImproperAlignment(h.align))
    } else if h.virtual_addr < KERNEL_START || h.file_size > h.mem_size || h.virtual_addr
        + h.mem_size > KERNEL_LIMIT {
        Some(LoaderError::InvalidKernelSegmentAddress((h.virtual_addr - h.virtual_addr % 4096) as u64))
    } else if phys_offset + h.offset + h.file_size > PHYSADDR_LIMIT - 4096 || (phys_offset + h.offset)
        % 4096 != h.virtual_addr % 4096 {
        Some(LoaderError::InvalidFileRange(h.offset))
    } else {
        None
    }
}

/// The copy that carries the tail of the file bytes into the fresh frame that replaces the last
/// file frame: from `src` to `dst`, `len` bytes.
#[derive(Clone, Copy, PartialEq, Eq, Structural, Debug)]
pub struct FrameCopy {
    pub src: u64,
    pub dst: u64,
    pub len: u64,
}

/// What loading one segment leaves for the caller to do in memory: zero `zero_frames`, then
/// perform `copy`.
#[derive(Clone, Copy)]
pub struct SegmentLoad {
    pub zero_frames: Option<PageRange<PhysFrame>>,
    pub copy: Option<FrameCopy>,
}

/// The page layout of a segment.
#[derive(Clone, Copy)]
pub struct SegmentPlan {
    /// Frames holding `[phys + offset, phys + offset + file_size)`.
    pub file_frames: Option<PageRange<PhysFrame>>,
    /// Pages holding `[virtual_addr, virtual_addr + file_size)`.
    pub file_pages: Option<PageRange<VirtPage>>,
    /// Pages holding `[virtual_addr + file_size, virtual_addr + mem_size)`.
    pub zero_pages: Option<PageRange<VirtPage>>,
    /// The last file page is also the first zero page.
    pub boundary: bool,
}

/// The pages (or frames) that hold the bytes `[lo, hi)`, as a pair of bases.
pub open spec fn page_span(lo: int, hi: int) -> Option<(int, int)> {
    if lo < hi {
        Some((floor_page(lo), floor_page(hi - 1) + 4096))
    } else {
        None
    }
}

pub open spec fn vspan(r: Option<PageRange<VirtPage>>) -> Option<(int, int)> {
    match r {
        Some(x) => Some((x.spec_start() as int, x.spec_end() as int)),
        None => None,
    }
}

pub open spec fn pspan(r: Option<PageRange<PhysFrame>>) -> Option<(int, int)> {
    match r {
        Some(x) => Some((x.spec_start() as int, x.spec_end() as int)),
        None => None,
    }
}

/// The exact layout of a segment that passed the checks.
pub open spec fn plan_spec(phys_offset: u64, h: SegmentHeader, p: SegmentPlan) -> bool {
    let sps = phys_offset + h.offset;
    let va = h.virtual_addr as int;
    &&& pspan(p.file_frames) == page_span(sps, sps + h.file_size)
    &&& vspan(p.file_pages) == page_span(va, va + h.file_size)
    &&& vspan(p.zero_pages) == page_span(va + h.file_size, va + h.mem_size)
    &&& p.boundary == (h.file_size > 0 && h.mem_size > h.file_size && (va + h.file_size) % 4096 != 0)
    &&& (p.file_frames matches Some(f) ==> f.wf())
    &&& (p.file_pages matches Some(f) ==> f.wf())
    &&& (p.zero_pages matches Some(f) ==> f.wf())
}

/// True when `addr` is in the kernel's part of the address space.
pub fn is_valid_kernel_addr(addr: u64) -> (r: bool)
    ensures
        r == (addr >= KERNEL_START),
{
    addr >= KERNEL_START
}

/// The rights a segment asks for: execute and write from its flags, always present.
pub fn phdr_flags_to_mappings_flags(header: &SegmentHeader) -> (r: MappingFlags)
    ensures
        r == (MappingFlags { execute: header.execute, write: header.write, present: true }),
{
    MappingFlags::new(header.execute, header.write, true)
}

/// Checks a segment and works out its pages and frames.
pub fn plan_segment(phys_offset: u64, h: &SegmentHeader) -> (r: Result<SegmentPlan, LoaderError>)
    ensures
        segment_error(phys_offset, *h) matches Some(err) ==> r == Err::<SegmentPlan, LoaderError>(err),
        segment_error(phys_offset, *h).is_none() ==> (r matches Ok(p) && plan_spec(phys_offset, *h, p)),
{
    if h.align != PAGE_SIZE {
        return Err(LoaderError::ImproperAlignment(h.align));
    }
    if h.virtual_addr < KERNEL_START || h.virtual_addr > KERNEL_LIMIT || h.file_size > h.mem_size
        || h.mem_size > KERNEL_LIMIT - h.virtual_addr {
        return Err(LoaderError::InvalidKernelSegmentAddress(h.virtual_addr - h.virtual_addr % PAGE_SIZE));
    }
    let top = PHYSADDR_LIMIT - PAGE_SIZE;
    if phys_offset > top || h.offset > top - phys_offset || h.file_size > top - phys_offset - h.offset {
        return Err(LoaderError::InvalidFileRange(h.offset));
    }
    let sps = phys_offset + h.offset;
    if sps % PAGE_SIZE != h.virtual_addr % PAGE_SIZE {
        return Err(LoaderError::InvalidFileRange(h.offset));
    }
    let va = h.virtual_addr;
    proof {
        lemma_high_half(va, (va + h.mem_size) as u64);
    }
    let (file_frames, file_pages) = if h.file_size > 0 {
        let f0 = PhysFrame::from_containing_u64(sps);
        let f1 = PhysFrame::from_containing_u64(sps + h.file_size - 1).next();
        proof {
            lemma_high_half(va, (va + h.file_size - 1) as u64);
        }
        let p0 = VirtPage::from_containing_u64(va);
        let p1 = VirtPage::from_containing_u64(va + h.file_size - 1);
        proof {
            assert(p1.view() + 4096 <= KERNEL_LIMIT);
            lemma_high_half((p1.view() + 4096) as u64, KERNEL_LIMIT);
        }
        let p1 = p1.next();
        proof {
            lemma_high_half(p0.view(), p1.view());
        }
        (Some(PageRange::new(f0, f1)), Some(PageRange::new(p0, p1)))
    } else {
        (None, None)
    };
    let zero_pages = if h.mem_size > h.file_size {
        proof {
            lemma_high_half((va + h.file_size) as u64, (va + h.mem_size - 1) as u64);
        }
        let z0 = VirtPage::from_containing_u64(va + h.file_size);
        let z1 = VirtPage::from_containing_u64(va + h.mem_size - 1);
        proof {
            assert(z1.view() + 4096 <= KERNEL_LIMIT);
            lemma_high_half((z1.view() + 4096) as u64, KERNEL_LIMIT);
        }
        let z1 = z1.next();
        proof {
            lemma_high_half(z0.view(), z1.view());
        }
        Some(PageRange::new(z0, z1))
    } else {
        None
    };
    let boundary = h.file_size > 0 && h.mem_size > h.file_size && (va + h.file_size) % PAGE_SIZE != 0;
    Ok(SegmentPlan { file_frames, file_pages, zero_pages, boundary })
}

/// Addresses from `KERNEL_START` to `KERNEL_LIMIT` are canonical and in the upper half.
proof fn lemma_high_half(a: u64, b: u64)
    requires
        KERNEL_START - 4096 <= a <= b <= KERNEL_LIMIT,
    ensures
        a >> 47 == 0x1FFFF,
        b >> 47 == 0x1FFFF,
{
    crate::addr::lemma_half(a);
    crate::addr::lemma_half(b);
}

} // verus!

verus! {

/// The kernel image: where its bytes sit in physical memory and what its ELF headers say.
pub struct Loader {
    pub kernel_phys_offset: PhysAddr,
    pub segments: Vec<SegmentHeader>,
    pub entry_point: u64,
}

/// The number of pages of an optional range.
pub open spec fn vlen(r: Option<PageRange<VirtPage>>) -> int {
    match r {
        Some(x) => x.spec_len(),
        None => 0,
    }
}

/// The byte copy that the boundary fix-up performs for a segment whose file part ends inside a
/// page: from the file bytes of that page to the same offsets of the fresh frame at `dst_frame`.
pub open spec fn fixup_copy(phys_offset: u64, h: SegmentHeader, dst_frame: int) -> FrameCopy {
    let sps = phys_offset + h.offset;
    let fe = sps + h.file_size;
    let last = floor_page(fe - 1);
    let src = if last > sps { last } else { sps as int };
    FrameCopy { src: src as u64, dst: (dst_frame + (src - last)) as u64, len: (fe - src) as u64 }
}

/// The base of the `j`-th frame that holds a segment's file bytes.
pub open spec fn file_frame(phys: u64, h: SegmentHeader, j: int) -> int {
    floor_page(phys + h.offset) + j * 4096
}

/// The `k`-th page of a segment's file part.
pub open spec fn seg_page(h: SegmentHeader, k: int) -> u64 {
    (floor_page(h.virtual_addr as int) + k * 4096) as u64
}

/// The `k`-th page of a segment's zero-filled tail.
pub open spec fn zero_page(h: SegmentHeader, k: int) -> u64 {
    (floor_page(h.virtual_addr + h.file_size) + k * 4096) as u64
}

/// The number of pages that hold a segment's file bytes.
pub open spec fn seg_nf(h: SegmentHeader) -> int {
    if h.file_size > 0 {
        (floor_page(h.virtual_addr + h.file_size - 1) + 4096 - floor_page(h.virtual_addr as int)) / 4096
    } else {
        0
    }
}

/// The number of pages that hold a segment's zero-filled tail.
pub open spec fn seg_nz(h: SegmentHeader) -> int {
    if h.mem_size > h.file_size {
        (floor_page(h.virtual_addr + h.mem_size - 1) + 4096 - floor_page(h.virtual_addr + h.file_size))
            / 4096
    } else {
        0
    }
}

/// The segment's file bytes end inside a page that its zero tail continues.
pub open spec fn seg_boundary(h: SegmentHeader) -> bool {
    h.file_size > 0 && h.mem_size > h.file_size && (h.virtual_addr + h.file_size) % 4096 != 0
}

/// The rights a segment's pages get.
pub open spec fn seg_flags(h: SegmentHeader) -> MappingFlags {
    MappingFlags { execute: h.execute, write: h.write, present: true }
}

/// The `k`-th page above the page that holds `kernel_end` (the guard page is the first).
pub open spec fn stack_page(kernel_end: int, k: int) -> u64 {
    (floor_page(kernel_end) + 4096 + k * 4096) as u64
}

/// Frames that loading segment `h` may take.
pub open spec fn seg_frames(h: SegmentHeader) -> int {
    if h.kind == SegmentKind::Load {
        3 * seg_nf(h) + 4 * seg_nz(h)
    } else {
        0
    }
}

/// Table slots that loading segment `h` is checked against.
pub open spec fn seg_tables(h: SegmentHeader) -> int {
    if h.kind == SegmentKind::Load {
        4 * (seg_nf(h) + seg_nz(h))
    } else {
        0
    }
}

/// Frames that loading all of `segs` may take.
pub open spec fn load_frames(segs: Seq<SegmentHeader>) -> int
    decreases segs.len(),
{
    if segs.len() == 0 {
        0
    } else {
        load_frames(segs.drop_last()) + seg_frames(segs.last())
    }
}

/// Table slots that loading all of `segs` is checked against.
pub open spec fn load_tables(segs: Seq<SegmentHeader>) -> int
    decreases segs.len(),
{
    if segs.len() == 0 {
        0
    } else {
        load_tables(segs.drop_last()) + seg_tables(segs.last())
    }
}

/// Every loadable segment passes the checks.
pub open spec fn loads_valid(phys: u64, segs: Seq<SegmentHeader>) -> bool {
    forall|i: int| 0 <= i < segs.len() && (#[trigger] segs[i]).kind == SegmentKind::Load ==> segment_error(phys, segs[i]).is_none()
}

/// The page counts of a segment that passed the checks are not negative.
proof fn lemma_seg_costs(h: SegmentHeader)
    ensures
        seg_frames(h) >= 0,
        seg_tables(h) >= 0,
{
    let va = h.virtual_addr as int;
    if h.file_size > 0 {
        let b = va + h.file_size - 1;
        assert(va - va % 4096 <= b - b % 4096 + 4096) by (nonlinear_arith)
            requires
                va <= b,
                va >= 0,
        ;
    }
    if h.mem_size > h.file_size {
        let a = va + h.file_size;
        let b = va + h.mem_size - 1;
        assert(a - a % 4096 <= b - b % 4096 + 4096) by (nonlinear_arith)
            requires
                a <= b,
                a >= 0,
        ;
    }
}

/// The costs of a prefix grow one segment at a time and stay within the whole.
proof fn lemma_load_prefix(segs: Seq<SegmentHeader>, i: int)
    requires
        0 <= i <= segs.len(),
    ensures
        i < segs.len() ==> load_frames(segs.take(i + 1)) == load_frames(segs.take(i)) + seg_frames(segs[i]),
        i < segs.len() ==> load_tables(segs.take(i + 1)) == load_tables(segs.take(i)) + seg_tables(segs[i]),
        load_frames(segs.take(i)) <= load_frames(segs),
        load_tables(segs.take(i)) <= load_tables(segs),
    decreases segs.len(),
{
    if i < segs.len() {
        assert(segs.take(i + 1).drop_last() =~= segs.take(i));
        assert(segs.take(i + 1).last() == segs[i]);
    }
    if i == segs.len() {
        assert(segs.take(i) =~= segs);
    } else {
        let d = segs.drop_last();
        lemma_load_prefix(d, i);
        assert(d.take(i) =~= segs.take(i));
        lemma_seg_costs(segs.last());
    }
}

/// How many loadable segments there are.
pub open spec fn load_count(segs: Seq<SegmentHeader>) -> nat
    decreases segs.len(),
{
    if segs.len() == 0 {
        0
    } else {
        load_count(segs.drop_last()) + if segs.last().kind == SegmentKind::Load {
            1nat
        } else {
            0nat
        }
    }
}

/// The end of the highest loadable segment (zero when there is none).
pub open spec fn load_end(segs: Seq<SegmentHeader>) -> int
    decreases segs.len(),
{
    if segs.len() == 0 {
        0
    } else {
        let rest = load_end(segs.drop_last());
        let h = segs.last();
        if h.kind == SegmentKind::Load && h.virtual_addr + h.mem_size > rest {
            h.virtual_addr + h.mem_size
        } else {
            rest
        }
    }
}

impl Loader {
    /// The kernel image whose bytes lie at physical address `kernel_phys_offset`, with the program
    /// headers `segments` (in file order) and the entry point `entry_point` of its ELF header.
    pub fn new(segments: Vec<SegmentHeader>, entry_point: u64, kernel_phys_offset: u64) -> (r: Loader)
        requires
            kernel_phys_offset < PHYSADDR_LIMIT,
        ensures
            r.segments@ == segments@,
            r.entry_point == entry_point,
            r.kernel_phys_offset.view() == kernel_phys_offset,
    {
        Loader { kernel_phys_offset: PhysAddr::new(kernel_phys_offset), segments, entry_point }
    }

    /// Maps one loadable segment: the file pages onto the frames of the image, the zero pages onto
    /// fresh frames. When the file part ends inside a page, that page is remapped onto the first
    /// fresh frame and the returned copy carries its file bytes there.
    #[verifier::rlimit(80)]
    #[verifier::spinoff_prover]
    pub fn map_load_segment(
        &self,
        phdr: &SegmentHeader,
        mappings: &mut Mappings,
        allocator: &mut FrameAllocator,
    ) -> (r: Result<SegmentLoad, LoaderError>)
        requires
            old(mappings).wf(),
            old(allocator).wf(),
            old(mappings).tables.issued_by(old(allocator)),
            forall|w: u64| w >= KERNEL_START ==> !#[trigger] old(mappings).tables.huge_at(old(mappings).root as int, w),
        ensures
            final(mappings).wf(),
            final(mappings).root == old(mappings).root,
            final(mappings).level_4_phys_addr == old(mappings).level_4_phys_addr,
            final(allocator).wf(),
            final(mappings).tables.issued_by(final(allocator)),
            forall|w: u64| w >= KERNEL_START ==> !#[trigger] final(mappings).tables.huge_at(final(mappings).root as int, w),
            segment_error(self.kernel_phys_offset.view(), *phdr) matches Some(e) ==> r == Err::<SegmentLoad, LoaderError>(e),
            segment_error(self.kernel_phys_offset.view(), *phdr).is_none() ==> (old(allocator).spec_frames_left()
                >= 3 * seg_nf(*phdr) + 4 * seg_nz(*phdr) && old(mappings).tables.n() + 4 * (seg_nf(*phdr)
                + seg_nz(*phdr)) < MAX_TABLES ==> r.is_ok()),
            r matches Err(e) ==> segment_error(self.kernel_phys_offset.view(), *phdr) == Some(e) || e is OutOfFrames,
            r matches Ok(load) ==> forall|k: int|
                0 <= k < seg_nf(*phdr) && !(seg_boundary(*phdr) && k == seg_nf(*phdr) - 1)
                    ==> #[trigger] final(mappings).maps(
                    (floor_page(phdr.virtual_addr as int) + k * 4096) as u64,
                    (floor_page(self.kernel_phys_offset.view() + phdr.offset) + k * 4096) as u64,
                    seg_flags(*phdr),
                ),
            r matches Ok(load) ==> (seg_nz(*phdr) == 0 ==> load.zero_frames.is_none()),
            r matches Ok(load) ==> (seg_nz(*phdr) > 0 ==> (load.zero_frames matches Some(zf) && zf.wf()
                && zf.spec_len() == seg_nz(*phdr) && forall|k: int|
                0 <= k < seg_nz(*phdr) ==> #[trigger] final(mappings).maps(
                    (floor_page(phdr.virtual_addr + phdr.file_size) + k * 4096) as u64,
                    zf.spec_page(k) as u64,
                    seg_flags(*phdr),
                ))),
            r matches Ok(load) ==> (seg_boundary(*phdr) ==> (load.zero_frames matches Some(zf) && load.copy
                == Some(fixup_copy(self.kernel_phys_offset.view(), *phdr, zf.spec_start() as int)))),
            r matches Ok(load) ==> (!seg_boundary(*phdr) ==> load.copy.is_none()),
            segment_error(self.kernel_phys_offset.view(), *phdr).is_some() ==> *final(mappings) == *old(mappings)
                && *final(allocator) == *old(allocator),
            final(allocator).spec_frames_left() >= old(allocator).spec_frames_left() - 3 * seg_nf(*phdr) - 4
                * seg_nz(*phdr),
            final(mappings).tables.n() <= old(mappings).tables.n() + 3 * (seg_nf(*phdr) + seg_nz(*phdr)),
            forall|x: u64| old(allocator).spec_issued(x) ==> #[trigger] final(allocator).spec_issued(x),
            r matches Ok(load) ==> (load.zero_frames matches Some(zf) ==> forall|k: int|
                0 <= k < zf.spec_len() ==> !old(allocator).spec_issued(#[trigger] zf.spec_page(k) as u64)
                    && final(allocator).spec_issued(zf.spec_page(k) as u64)),
            r.is_ok() ==> forall|w: u64|
                (forall|k: int| 0 <= k < seg_nf(*phdr) ==> !same_indices(w, seg_page(*phdr, k)))
                    && (forall|k: int| 0 <= k < seg_nz(*phdr) ==> !same_indices(w, zero_page(*phdr, k)))
                    && !mapped(old(mappings).tables, old(mappings).root as int, w) ==> !#[trigger] mapped(
                    final(mappings).tables,
                    final(mappings).root as int,
                    w,
                ),
            final(allocator).alloc_start.view() == old(allocator).alloc_start.view(),
            final(allocator).alloc_end.view() == old(allocator).alloc_end.view(),
            r matches Ok(load) ==> (load.zero_frames matches Some(zf) ==> forall|k: int|
                0 <= k < zf.spec_len() ==> old(allocator).alloc_start.view() <= #[trigger] zf.spec_page(k)
                    < old(allocator).alloc_end.view()),
            r matches Ok(load) ==> (load.zero_frames matches Some(zf) ==> ((self.kernel_phys_offset.view()
                + phdr.offset + phdr.file_size <= old(allocator).alloc_start.view() || old(allocator).alloc_end.view()
                <= floor_page(self.kernel_phys_offset.view() + phdr.offset)) ==> forall|k: int, j: int|
                0 <= k < zf.spec_len() && 0 <= j < seg_nf(*phdr) ==> #[trigger] zf.spec_page(k) != #[trigger] file_frame(
                    self.kernel_phys_offset.view(),
                    *phdr,
                    j,
                ))),
    {
        let phys = self.kernel_phys_offset.as_u64();
        let plan = plan_segment(phys, phdr)?;
        let flags = phdr_flags_to_mappings_flags(phdr);
        let nf: u64 = match plan.file_pages {
            Some(p) => p.len(),
            None => 0,
        };
        let nz: u64 = match plan.zero_pages {
            Some(p) => p.len(),
            None => 0,
        };
        proof {
            lemma_segment_counts(phys, *phdr, plan);
        }
        let ghost m0 = *mappings;
        let ghost a0 = *allocator;
        let ghost va = phdr.virtual_addr as int;
        let ghost sps = phys + phdr.offset;
        if let Some(fp) = plan.file_pages {
            let ff = plan.file_frames.unwrap();
            proof {
                lemma_same_span_len(sps, va, phdr.file_size as int);
                assert forall|k: int| 0 <= k < fp.spec_len() implies !mappings.tables.huge_at(
                    mappings.root as int,
                    #[trigger] fp.spec_page(k) as u64,
                ) by {
                    assert(fp.spec_page(k) >= KERNEL_START);
                }
            }
            if mappings.try_map_page_range(ff, fp, allocator, flags).is_err() {
                return Err(LoaderError::OutOfFrames);
            }
        }
        let ghost m1 = *mappings;
        let ghost a1 = *allocator;
        let mut zero_frames: Option<PageRange<PhysFrame>> = None;
        if let Some(zp) = plan.zero_pages {
            proof {
                assert forall|k: int| 0 <= k < zp.spec_len() implies !mappings.tables.huge_at(
                    mappings.root as int,
                    #[trigger] zp.spec_page(k) as u64,
                ) by {
                    assert(zp.spec_page(k) >= KERNEL_START);
                    assert(m1.tables.huge_at(m1.root as int, zp.spec_page(k) as u64) == m0.tables.huge_at(m0.root as int, zp.spec_page(k) as u64));
                }
            }
            if allocator.frames_left() < nz {
                return Err(LoaderError::OutOfFrames);
            }
            let (zf, mapped_all) = mappings.try_alloc_and_map_range(zp, allocator, flags);
            if !mapped_all {
                return Err(LoaderError::OutOfFrames);
            }
            zero_frames = Some(zf);
        }
        let copy = if plan.boundary {
            let zf = zero_frames.unwrap();
            let last = align_down_page(sps_exec(phys, phdr.offset) + phdr.file_size - 1);
            let start = sps_exec(phys, phdr.offset);
            let src = if last > start { last } else { start };
            let dst = zf.first().base_u64() + (src - last);
            let len = start + phdr.file_size - src;
            Some(FrameCopy { src, dst, len })
        } else {
            None
        };
        proof {
            if nf > 0 {
                let fp = plan.file_pages.unwrap();
                let ff = plan.file_frames.unwrap();
                if let Some(zp) = plan.zero_pages {
                    if plan.boundary {
                        assert(zp.spec_start() == fp.spec_end() - 4096);
                    } else {
                        assert(zp.spec_start() >= fp.spec_end());
                    }
                    lemma_file_pages_survive(m1, *mappings, fp, ff, zp, plan.boundary, flags);
                }
                assert(fp.spec_len() == seg_nf(*phdr));
                assert(plan.boundary == seg_boundary(*phdr));
                assert(flags == seg_flags(*phdr));
                assert forall|k: int|
                    0 <= k < seg_nf(*phdr) && !(seg_boundary(*phdr) && k == seg_nf(*phdr) - 1) implies #[trigger] mappings.maps(
                    (floor_page(va) + k * 4096) as u64,
                    (floor_page(sps) + k * 4096) as u64,
                    seg_flags(*phdr),
                ) by {
                    assert(fp.spec_page(k) == floor_page(va) + k * 4096);
                    assert(ff.spec_page(k) == floor_page(sps) + k * 4096);
                    if plan.zero_pages.is_none() {
                        assert(m1.maps(fp.spec_page(k) as u64, ff.spec_page(k) as u64, flags));
                    }
                }
            }
            if let Some(zp) = plan.zero_pages {
                let zf = zero_frames.unwrap();
                assert(zp.spec_len() == seg_nz(*phdr));
                assert(flags == seg_flags(*phdr));
                assert forall|k: int| 0 <= k < seg_nz(*phdr) implies #[trigger] mappings.maps(
                    (floor_page(phdr.virtual_addr + phdr.file_size) + k * 4096) as u64,
                    zf.spec_page(k) as u64,
                    seg_flags(*phdr),
                ) by {
                    assert(zp.spec_page(k) == floor_page(phdr.virtual_addr + phdr.file_size) + k * 4096);
                }
            }
        }
        proof {
            assert forall|w: u64|
                (forall|k: int| 0 <= k < seg_nf(*phdr) ==> !same_indices(w, seg_page(*phdr, k)))
                    && (forall|k: int| 0 <= k < seg_nz(*phdr) ==> !same_indices(w, zero_page(*phdr, k)))
                    && !mapped(m0.tables, m0.root as int, w) implies !#[trigger] mapped(mappings.tables, mappings.root as int, w) by {
                if let Some(fp) = plan.file_pages {
                    assert forall|k: int| 0 <= k < fp.spec_len() implies !same_indices(w, fp.spec_page(k) as u64) by {
                        assert(fp.spec_page(k) as u64 == seg_page(*phdr, k));
                    }
                }
                assert(!mapped(m1.tables, m1.root as int, w));
                if let Some(zp) = plan.zero_pages {
                    assert forall|k: int| 0 <= k < zp.spec_len() implies !same_indices(w, zp.spec_page(k) as u64) by {
                        assert(zp.spec_page(k) as u64 == zero_page(*phdr, k));
                    }
                }
            }
        }
        Ok(SegmentLoad { zero_frames, copy })
    }
}

impl Loader {
    /// Places the kernel stack after `kernel_end`: one non-present guard page, then
    /// `KERNEL_STACK_PAGES` fresh writable pages. Returns the stack top: 16 bytes below the end of
    /// the highest stack page.
    pub fn create_kernel_stack(
        &self,
        kernel_end: VirtAddr,
        mappings: &mut Mappings,
        allocator: &mut FrameAllocator,
    ) -> (r: Result<VirtAddr, LoaderError>)
        requires
            old(mappings).wf(),
            old(allocator).wf(),
            old(mappings).tables.issued_by(old(allocator)),
            forall|w: u64| w >= KERNEL_START ==> !#[trigger] old(mappings).tables.huge_at(old(mappings).root as int, w),
        ensures
            final(mappings).wf(),
            final(mappings).root == old(mappings).root,
            final(mappings).level_4_phys_addr == old(mappings).level_4_phys_addr,
            final(allocator).wf(),
            final(mappings).tables.issued_by(final(allocator)),
            forall|w: u64| w >= KERNEL_START ==> !#[trigger] final(mappings).tables.huge_at(final(mappings).root as int, w),
            kernel_end.view() < KERNEL_START || floor_page(kernel_end.view() as int) + 5 * 4096 > KERNEL_LIMIT
                ==> r == Err::<VirtAddr, LoaderError>(LoaderError::InvalidKernelSegmentAddress(kernel_end.view())),
            r matches Ok(top) ==> {
                let guard = floor_page(kernel_end.view() as int) + 4096;
                &&& top.view() == guard + 4 * 4096 - 16
                &&& final(mappings).maps(guard as u64, 0, MappingFlags { execute: false, write: false, present: false })
            },
            r matches Err(e) ==> e is OutOfFrames || e == LoaderError::InvalidKernelSegmentAddress(kernel_end.view()),
            r matches Ok(_) ==> forall|k: int|
                1 <= k <= KERNEL_STACK_PAGES ==> (final(mappings).tables.walk(
                    final(mappings).root as int,
                    #[trigger] stack_page(kernel_end.view() as int, k),
                ) matches Some(e) && crate::paging::spec_has_flags(e, MappingFlags { execute: false, write: true, present: true })),
            KERNEL_START <= kernel_end.view() && floor_page(kernel_end.view() as int) + 5 * 4096 <= KERNEL_LIMIT
                && old(allocator).spec_frames_left() >= 15 && old(mappings).tables.n() + 15 < MAX_TABLES
                ==> r.is_ok(),
            final(allocator).spec_frames_left() >= old(allocator).spec_frames_left() - 15,
            final(mappings).tables.n() <= old(mappings).tables.n() + 15,
            forall|x: u64| old(allocator).spec_issued(x) ==> #[trigger] final(allocator).spec_issued(x),
    {
        let end = kernel_end.as_u64();
        if end < KERNEL_START || end - end % PAGE_SIZE > KERNEL_LIMIT - 5 * PAGE_SIZE {
            return Err(LoaderError::InvalidKernelSegmentAddress(end));
        }
        let left = allocator.frames_left();
        if left < 15 || mappings.tables.len() >= MAX_TABLES - 15 {
            return Err(LoaderError::OutOfFrames);
        }
        proof {
            lemma_high_half((end - end % 4096) as u64, KERNEL_LIMIT);
            lemma_high_half((end - end % 4096 + 4096) as u64, KERNEL_LIMIT);
            lemma_high_half((end - end % 4096 + 8192) as u64, KERNEL_LIMIT);
            lemma_high_half((end - end % 4096 + 5 * 4096) as u64, KERNEL_LIMIT);
        }
        let guard_page = VirtPage::from_containing_addr(kernel_end).next();
        let zero_frame = PhysFrame::from_base_u64(0);
        mappings.map_page(zero_frame, guard_page, allocator, MappingFlags::new_guard());
        let ghost m1 = *mappings;
        let stack_start = guard_page.next();
        let stack_end = stack_start.increment(KERNEL_STACK_PAGES);
        let stack_pages = PageRange::new(stack_start, stack_end);
        proof {
            assert forall|k: int| 0 <= k < stack_pages.spec_len() implies !mappings.tables.huge_at(
                mappings.root as int,
                #[trigger] stack_pages.spec_page(k) as u64,
            ) by {
                assert(stack_pages.spec_page(k) >= KERNEL_START);
            }
            assert(stack_pages.spec_len() == 3);
        }
        mappings.alloc_and_map_range(stack_pages, allocator, MappingFlags::new_rw_data());
        proof {
            let g = guard_page.view();
            assert forall|j: int| 0 <= j < stack_pages.spec_len() implies !same_indices(g, #[trigger] stack_pages.spec_page(j) as u64) by {
                let b = stack_pages.spec_page(j) as u64;
                lemma_high_half(g, b);
                lemma_distinct_pages_indices(g, b);
            }
            assert(m1.tables.walk(m1.root as int, g).is_some());
            assert forall|k: int| 1 <= k <= KERNEL_STACK_PAGES implies stack_page(kernel_end.view() as int, k)
                == stack_pages.spec_page(k - 1) as u64 by {}
        }
        let top = stack_end.base_u64() - 16;
        proof {
            lemma_high_half(top, KERNEL_LIMIT);
            assert(<VirtAddr as Address>::valid(top));
        }
        Ok(VirtAddr::new(top))
    }

    /// Maps every loadable segment, then the stack. Returns the kernel's addresses and, per
    /// loadable segment in order, the zeroing and copying left to do in memory.
    pub fn load_kernel(&self, mappings: &mut Mappings, allocator: &mut FrameAllocator) -> (r: Result<
        (KernelAddresses, Vec<SegmentLoad>),
        LoaderError,
    >)
        requires
            old(mappings).wf(),
            old(allocator).wf(),
            old(mappings).tables.issued_by(old(allocator)),
            forall|w: u64| w >= KERNEL_START ==> !#[trigger] old(mappings).tables.huge_at(old(mappings).root as int, w),
        ensures
            final(mappings).wf(),
            final(mappings).root == old(mappings).root,
            final(mappings).level_4_phys_addr == old(mappings).level_4_phys_addr,
            final(allocator).wf(),
            final(mappings).tables.issued_by(final(allocator)),
            r matches Ok((addrs, loads)) ==> {
                &&& addrs.kernel_end.view() == load_end(self.segments@)
                &&& addrs.kernel_entry.view() == self.entry_point
                &&& addrs.stack_top.view() == floor_page(load_end(self.segments@)) + 5 * 4096 - 16
                &&& addrs.stack_pages == KERNEL_STACK_PAGES
                &&& loads@.len() == load_count(self.segments@)
                &&& final(mappings).maps(
                    stack_page(load_end(self.segments@), 0),
                    0,
                    MappingFlags { execute: false, write: false, present: false },
                )
                &&& forall|k: int|
                    1 <= k <= KERNEL_STACK_PAGES ==> (final(mappings).tables.walk(
                        final(mappings).root as int,
                        #[trigger] stack_page(load_end(self.segments@), k),
                    ) matches Some(e) && crate::paging::spec_has_flags(e, MappingFlags { execute: false, write: true, present: true }))
            },
            r matches Err(e) ==> e is OutOfFrames || (exists|j: int|
                0 <= j < self.segments@.len() && (#[trigger] self.segments@[j]).kind == SegmentKind::Load
                    && segment_error(self.kernel_phys_offset.view(), self.segments@[j]) == Some(e))
                || e == LoaderError::InvalidKernelSegmentAddress(load_end(self.segments@) as u64)
                || e == LoaderError::InvalidKernelSegmentAddress(self.entry_point),
            loads_valid(self.kernel_phys_offset.view(), self.segments@) && spec_is_canonical(self.entry_point)
                && KERNEL_START <= load_end(self.segments@) && floor_page(load_end(self.segments@)) + 5 * 4096
                <= KERNEL_LIMIT && old(allocator).spec_frames_left() >= load_frames(self.segments@) + 15
                && old(mappings).tables.n() + load_tables(self.segments@) + 15 < MAX_TABLES ==> r.is_ok(),
    {
        let ghost good = loads_valid(self.kernel_phys_offset.view(), self.segments@) && spec_is_canonical(self.entry_point)
            && KERNEL_START <= load_end(self.segments@) && floor_page(load_end(self.segments@)) + 5 * 4096
            <= KERNEL_LIMIT && old(allocator).spec_frames_left() >= load_frames(self.segments@) + 15
            && old(mappings).tables.n() + load_tables(self.segments@) + 15 < MAX_TABLES;
        let ghost f0 = old(allocator).spec_frames_left() as int;
        let ghost n0 = old(mappings).tables.n();
        let mut kernel_end: u64 = 0;
        let mut loads: Vec<SegmentLoad> = Vec::new();
        let mut i: usize = 0;
        while i < self.segments.len()
            invariant
                mappings.wf(),
                mappings.root == old(mappings).root,
                mappings.level_4_phys_addr == old(mappings).level_4_phys_addr,
                allocator.wf(),
                mappings.tables.issued_by(allocator),
                forall|w: u64| w >= KERNEL_START ==> !#[trigger] mappings.tables.huge_at(mappings.root as int, w),
                0 <= i <= self.segments@.len(),
                kernel_end == load_end(self.segments@.take(i as int)),
                loads@.len() == load_count(self.segments@.take(i as int)),
                allocator.spec_frames_left() >= f0 - load_frames(self.segments@.take(i as int)),
                mappings.tables.n() <= n0 + load_tables(self.segments@.take(i as int)),
                f0 == old(allocator).spec_frames_left(),
                n0 == old(mappings).tables.n(),
                good == (loads_valid(self.kernel_phys_offset.view(), self.segments@) && spec_is_canonical(self.entry_point)
                    && KERNEL_START <= load_end(self.segments@) && floor_page(load_end(self.segments@)) + 5 * 4096
                    <= KERNEL_LIMIT && f0 >= load_frames(self.segments@) + 15
                    && n0 + load_tables(self.segments@) + 15 < MAX_TABLES),
            decreases self.segments@.len() - i,
        {
            let phdr = self.segments[i];
            proof {
                assert(self.segments@.take(i as int + 1).drop_last() == self.segments@.take(i as int));
                lemma_load_prefix(self.segments@, i as int);
                lemma_load_prefix(self.segments@, i as int + 1);
                lemma_seg_costs(phdr);
                if good && phdr.kind == SegmentKind::Load {
                    assert(segment_error(self.kernel_phys_offset.view(), self.segments@[i as int]).is_none());
                }
            }
            if phdr.kind == SegmentKind::Load {
                let load = self.map_load_segment(&phdr, mappings, allocator)?;
                loads.push(load);
                let seg_end = phdr.virtual_addr + phdr.mem_size;
                if seg_end > kernel_end {
                    kernel_end = seg_end;
                }
            }
            i += 1;
        }
        proof {
            assert(self.segments@.take(self.segments@.len() as int) == self.segments@);
            lemma_load_prefix(self.segments@, self.segments@.len() as int);
            if good {
                crate::addr::lemma_half(kernel_end);
                crate::addr::lemma_half(self.entry_point);
            }
        }
        if !crate::addr::is_canonical(kernel_end) {
            return Err(LoaderError::InvalidKernelSegmentAddress(kernel_end));
        }
        if !crate::addr::is_canonical(self.entry_point) {
            return Err(LoaderError::InvalidKernelSegmentAddress(self.entry_point));
        }
        let end_addr = VirtAddr::new(kernel_end);
        let stack_top = self.create_kernel_stack(end_addr, mappings, allocator)?;
        let addresses = KernelAddresses {
            kernel_end: end_addr,
            kernel_entry: VirtAddr::new(self.entry_point),
            stack_top,
            stack_pages: KERNEL_STACK_PAGES,
        };
        Ok((addresses, loads))
    }
}

/// File pages below the zero pages keep their mapping while the zero pages are mapped.
proof fn lemma_file_pages_survive(
    m1: Mappings,
    m2: Mappings,
    fp: PageRange<VirtPage>,
    ff: PageRange<PhysFrame>,
    zp: PageRange<VirtPage>,
    boundary: bool,
    fl: MappingFlags,
)
    requires
        fp.wf(),
        zp.wf(),
        fp.spec_start() >= KERNEL_START,
        zp.spec_start() >= KERNEL_START,
        zp.spec_end() <= KERNEL_LIMIT,
        fp.spec_end() <= KERNEL_LIMIT,
        boundary ==> zp.spec_start() == fp.spec_end() - 4096,
        !boundary ==> zp.spec_start() >= fp.spec_end(),
        forall|k: int|
            0 <= k < fp.spec_len() ==> m1.maps(#[trigger] fp.spec_page(k) as u64, ff.spec_page(k) as u64, fl),
        forall|w: u64|
            (#[trigger] m1.tables.walk(m1.root as int, w)).is_some() && (forall|j: int|
                0 <= j < zp.spec_len() ==> !same_indices(w, zp.spec_page(j) as u64)) ==> m1.same_walk(&m2, w),
        m2.root == m1.root,
    ensures
        forall|k: int|
            0 <= k < fp.spec_len() && !(boundary && k == fp.spec_len() - 1) ==> m2.maps(
                #[trigger] fp.spec_page(k) as u64,
                ff.spec_page(k) as u64,
                fl,
            ),
{
    assert forall|k: int| 0 <= k < fp.spec_len() && !(boundary && k == fp.spec_len() - 1) implies m2.maps(
        #[trigger] fp.spec_page(k) as u64,
        ff.spec_page(k) as u64,
        fl,
    ) by {
        let a = fp.spec_page(k) as u64;
        assert(m1.maps(a, ff.spec_page(k) as u64, fl));
        assert(fp.spec_page(k) % 4096 == 0 && fp.spec_start() <= fp.spec_page(k)) by (nonlinear_arith)
            requires
                0 <= k,
                fp.spec_page(k) == fp.spec_start() + k * 4096,
                fp.spec_start() % 4096 == 0,
        ;
        assert(fp.spec_page(k) < zp.spec_start()) by (nonlinear_arith)
            requires
                0 <= k < (fp.spec_end() - fp.spec_start()) / 4096,
                !(boundary && k == (fp.spec_end() - fp.spec_start()) / 4096 - 1),
                fp.spec_page(k) == fp.spec_start() + k * 4096,
                fp.spec_start() <= fp.spec_end(),
                fp.spec_start() % 4096 == 0,
                fp.spec_end() % 4096 == 0,
                boundary ==> zp.spec_start() == fp.spec_end() - 4096,
                !boundary ==> zp.spec_start() >= fp.spec_end(),
        ;
        assert forall|j: int| 0 <= j < zp.spec_len() implies !same_indices(a, #[trigger] zp.spec_page(j) as u64) by {
            let b = zp.spec_page(j) as u64;
            assert(zp.spec_start() <= zp.spec_page(j) < zp.spec_end() && zp.spec_page(j) % 4096 == 0) by (nonlinear_arith)
                requires
                    0 <= j < (zp.spec_end() - zp.spec_start()) / 4096,
                    zp.spec_page(j) == zp.spec_start() + j * 4096,
                    zp.spec_start() <= zp.spec_end(),
                    zp.spec_start() % 4096 == 0,
            ;
            lemma_high_half(a, b);
            lemma_distinct_pages_indices(a, b);
        }
    }
}

/// The physical address of a segment's first file byte.
fn sps_exec(phys: u64, offset: u64) -> (r: u64)
    requires
        phys + offset <= u64::MAX,
    ensures
        r == phys + offset,
{
    phys + offset
}

/// Rounds down to a page boundary.
fn align_down_page(a: u64) -> (r: u64)
    ensures
        r == floor_page(a as int),
{
    a - a % PAGE_SIZE
}

/// Two byte ranges of one length that start at the same in-page offset span as many pages.
proof fn lemma_same_span_len(a: int, b: int, len: int)
    requires
        a >= 0,
        b >= 0,
        len > 0,
        a % 4096 == b % 4096,
    ensures
        floor_page(a + len - 1) - floor_page(a) == floor_page(b + len - 1) - floor_page(b),
{
    vstd::arithmetic::div_mod::lemma_add_mod_noop(a, len - 1, 4096);
    vstd::arithmetic::div_mod::lemma_add_mod_noop(b, len - 1, 4096);
}

/// The page counts of a planned segment are small enough to be added up.
proof fn lemma_segment_counts(phys: u64, h: SegmentHeader, p: SegmentPlan)
    requires
        segment_error(phys, h).is_none(),
        plan_spec(phys, h, p),
    ensures
        vlen(p.file_pages) <= 0x0010_0000_0000_0000,
        vlen(p.zero_pages) <= 0x0010_0000_0000_0000,
{
}

} // verus!
