use vstd::prelude::*;
use crate::addr::{
    lemma_indices_bounded, spec_level_index, spec_pd_index, spec_pdpt_index, spec_pml4_index, spec_pt_index, Address,
    Page, PhysAddr, PhysFrame, VirtAddr, VirtPage, PHYSADDR_LIMIT, PHYSMEM_MAX, PHYSMEM_START,
};
use crate::entry::{
    lemma_zero_entry, spec_entry_addr, spec_no_exec, spec_page_size, spec_present, spec_write,
    PageTableEntry,
};

verus! {

/// Most tables a store holds.
pub const MAX_TABLES: usize = 0x0040_0000;

/// Number of entries in a page table of any level.
pub const NUM_PAGE_TABLE_ENTRIES: usize = 512;

/// Why a mapping could not be installed.
#[derive(Clone, Copy, PartialEq, Eq, Structural, Debug)]
pub enum MapError {
    /// The frame allocator had no frame for a new page table.
    OutOfFrames,
    /// The allocator handed out a frame that already holds a page table.
    FrameInUse,
}

/// A source of fresh physical frames for page tables.
pub trait PageMapAllocator {
    /// How many more frames the allocator promises to hand out.
    spec fn spec_frames_left(&self) -> nat;

    /// Frames that have been handed out (and may hold data) already.
    spec fn spec_issued(&self, frame: u64) -> bool;

    /// The allocator's own bookkeeping is consistent.
    spec fn spec_wf(&self) -> bool;

    /// The extent of memory the allocator hands frames out of; allocation leaves it as it is.
    spec fn spec_extent(&self) -> (int, int);

    fn alloc_table_frame(&mut self) -> (r: Option<PhysFrame>)
        requires
            old(self).spec_wf(),
        ensures
            old(self).spec_frames_left() > 0 ==> r.is_some(),
            final(self).spec_frames_left() >= old(self).spec_frames_left() - 1,
            r matches Some(f) ==> !old(self).spec_issued(f.view()) && final(self).spec_issued(
                f.view(),
            ),
            forall|x: u64| old(self).spec_issued(x) ==> final(self).spec_issued(x),
            old(self).spec_wf() ==> final(self).spec_wf(),
            final(self).spec_extent() == old(self).spec_extent(),
    ;
}

/// Converts the physical address of a page table to the virtual address at which it is read.
pub trait Mapper {
    spec fn spec_can_map(phys: u64) -> bool;

    spec fn spec_table_virt(phys: u64) -> u64;

    fn to_table_virt_addr(phys_addr: PhysAddr) -> (r: VirtAddr)
        requires
            Self::spec_can_map(phys_addr.view()),
        ensures
            r.view() == Self::spec_table_virt(phys_addr.view()),
    ;
}

/// The policy while low physical memory is identity mapped (bootloader phase).
pub struct IdentityMapper {}

impl Mapper for IdentityMapper {
    open spec fn spec_can_map(phys: u64) -> bool {
        phys < 0x0000_8000_0000_0000
    }

    open spec fn spec_table_virt(phys: u64) -> u64 {
        phys
    }

    fn to_table_virt_addr(phys_addr: PhysAddr) -> (r: VirtAddr) {
        let p = phys_addr.as_u64();
        proof {
            assert(<IdentityMapper as Mapper>::spec_can_map(phys_addr.view()));
            crate::addr::lemma_half(p);
        }
        VirtAddr::new(p)
    }
}

/// The policy once all physical memory is mapped at `PHYSMEM_START` (kernel phase).
pub struct DirectMapper {}

impl Mapper for DirectMapper {
    open spec fn spec_can_map(phys: u64) -> bool {
        phys < PHYSMEM_MAX
    }

    open spec fn spec_table_virt(phys: u64) -> u64 {
        (phys + PHYSMEM_START) as u64
    }

    fn to_table_virt_addr(phys_addr: PhysAddr) -> (r: VirtAddr) {
        proof {
            assert(<DirectMapper as Mapper>::spec_can_map(phys_addr.view()));
        }
        phys_addr.as_direct_mapped()
    }
}

/// The page tables that live in physical memory: table `t` occupies frame `frames[t]`, sits at
/// paging level `levels[t]` (4 = PML4 ... 1 = PT) and holds `entries[512 * t .. 512 * t + 512]`.
pub struct PageTableStore {
    pub frames: Vec<u64>,
    pub levels: Vec<u8>,
    pub entries: Vec<PageTableEntry>,
}

/// True when `e` is a present intermediate entry (not a huge-page leaf).
pub open spec fn spec_is_link(e: u64) -> bool {
    spec_present(e) && !spec_page_size(e)
}

impl PageTableStore {
    /// Number of tables.
    pub open spec fn n(&self) -> int {
        self.frames@.len() as int
    }

    pub open spec fn level(&self, t: int) -> int {
        self.levels@[t] as int
    }

    /// Entry `j` of table `t`.
    pub open spec fn entry(&self, t: int, j: int) -> u64 {
        self.entries@[t * 512 + j].entry
    }

    /// Some table of the given level occupies frame `f`.
    pub open spec fn holds(&self, f: u64, level: int) -> bool {
        exists|t: int| 0 <= t < self.n() && #[trigger] self.frames@[t] == f && self.level(t) == level
    }

    /// The table that occupies frame `f`.
    pub open spec fn index_of(&self, f: u64) -> int {
        choose|t: int| 0 <= t < self.n() && #[trigger] self.frames@[t] == f
    }

    /// An entry of an intermediate table links to a table of the next level with write set and
    /// no-execute clear, or is a huge-page leaf of a level 3 table, or is zero.
    pub open spec fn entry_ok(&self, t: int, j: int) -> bool {
        let e = self.entry(t, j);
        self.level(t) >= 2 ==> {
            ||| e == 0
            ||| (self.level(t) == 3 && spec_present(e) && spec_page_size(e))
            ||| (spec_is_link(e) && spec_write(e) && !spec_no_exec(e) && self.holds(
                spec_entry_addr(e),
                self.level(t) - 1,
            ))
        }
    }

    pub open spec fn wf(&self) -> bool {
        &&& self.levels@.len() == self.n()
        &&& self.entries@.len() == self.n() * 512
        &&& forall|t1: int, t2: int|
            0 <= t1 < self.n() && 0 <= t2 < self.n() && #[trigger] self.frames@[t1]
                == #[trigger] self.frames@[t2] ==> t1 == t2
        &&& forall|t: int|
            0 <= t < self.n() ==> #[trigger] self.frames@[t] % 4096 == 0 && self.frames@[t]
                < PHYSADDR_LIMIT && 1 <= self.level(t) <= 4
        &&& forall|t: int, j: int| 0 <= t < self.n() && 0 <= j < 512 ==> #[trigger] self.entry_ok(t, j)
        &&& self.tree()
    }

    /// Entry `j` of table `t` is an intermediate link.
    pub open spec fn link_at(&self, t: int, j: int) -> bool {
        0 <= t < self.n() && 0 <= j < 512 && self.level(t) >= 2 && spec_is_link(self.entry(t, j))
    }

    /// No two links point to one table: the tables form a forest.
    pub open spec fn tree(&self) -> bool {
        forall|t1: int, j1: int, t2: int, j2: int|
            #[trigger] self.link_at(t1, j1) && #[trigger] self.link_at(t2, j2) && spec_entry_addr(
                self.entry(t1, j1),
            ) == spec_entry_addr(self.entry(t2, j2)) ==> t1 == t2 && j1 == j2
    }

    /// Every table occupies a frame that `issued` says was handed out.
    pub open spec fn issued_by<A: PageMapAllocator>(&self, alloc: &A) -> bool {
        forall|t: int| 0 <= t < self.n() ==> alloc.spec_issued(#[trigger] self.frames@[t])
    }

    /// The table below entry `j` of table `t`, when that entry links to one.
    pub open spec fn child(&self, t: int, j: int) -> int {
        self.index_of(spec_entry_addr(self.entry(t, j)))
    }

    /// The entry that translates `va` when the walk starts at table `root`: the level 1 entry, or
    /// a level 3 huge-page entry. `None` when an intermediate entry on the way is not present.
    pub open spec fn walk(&self, root: int, va: u64) -> Option<u64> {
        let e4 = self.entry(root, spec_pml4_index(va) as int);
        if !spec_present(e4) {
            None
        } else {
            let t3 = self.index_of(spec_entry_addr(e4));
            let e3 = self.entry(t3, spec_pdpt_index(va) as int);
            if !spec_present(e3) {
                None
            } else if spec_page_size(e3) {
                Some(e3)
            } else {
                let t2 = self.index_of(spec_entry_addr(e3));
                let e2 = self.entry(t2, spec_pd_index(va) as int);
                if !spec_present(e2) {
                    None
                } else {
                    let t1 = self.index_of(spec_entry_addr(e2));
                    Some(self.entry(t1, spec_pt_index(va) as int))
                }
            }
        }
    }

    /// The walk for `va` from `root` ends in a huge-page entry.
    pub open spec fn huge_at(&self, root: int, va: u64) -> bool {
        let e4 = self.entry(root, spec_pml4_index(va) as int);
        spec_present(e4) && {
            let e3 = self.entry(self.index_of(spec_entry_addr(e4)), spec_pdpt_index(va) as int);
            spec_present(e3) && spec_page_size(e3)
        }
    }

    /// Tables `0..old.n()` keep their frames and levels.
    pub open spec fn extends(&self, old: &PageTableStore) -> bool {
        &&& old.n() <= self.n()
        &&& forall|t: int| 0 <= t < old.n() ==> #[trigger] self.frames@[t] == old.frames@[t]
        &&& forall|t: int| 0 <= t < old.n() ==> #[trigger] self.levels@[t] == old.levels@[t]
    }

    /// Every entry of the old tables is unchanged, except entry `j0` of table `t0`.
    pub open spec fn same_entries_except(&self, old: &PageTableStore, t0: int, j0: int) -> bool {
        forall|t: int, j: int|
            0 <= t < old.n() && 0 <= j < 512 && !(t == t0 && j == j0) ==> #[trigger] self.entry(t, j)
                == old.entry(t, j)
    }

    /// An empty store.
    pub fn new() -> (r: PageTableStore)
        ensures
            r.wf(),
            r.n() == 0,
    {
        PageTableStore { frames: Vec::new(), levels: Vec::new(), entries: Vec::new() }
    }

    /// The number of tables.
    pub fn len(&self) -> (r: usize)
        ensures
            r == self.n(),
    {
        self.frames.len()
    }

    /// The frame that table `t` occupies.
    pub fn frame_of(&self, t: usize) -> (r: PhysFrame)
        requires
            self.wf(),
            t < self.n(),
        ensures
            r.view() == self.frames@[t as int],
    {
        PhysFrame::from_base_u64(self.frames[t])
    }

    /// The level of table `t`.
    pub fn level_of(&self, t: usize) -> (r: u8)
        requires
            self.wf(),
            t < self.n(),
        ensures
            r == self.levels@[t as int],
    {
        self.levels[t]
    }

    /// The table that occupies frame `f`, if any.
    pub fn find(&self, f: u64) -> (r: Option<usize>)
        requires
            self.wf(),
        ensures
            r matches Some(t) ==> t < self.n() && self.frames@[t as int] == f && self.index_of(f)
                == t,
            r.is_none() ==> forall|t: int| 0 <= t < self.n() ==> self.frames@[t] != f,
    {
        let mut i: usize = 0;
        while i < self.frames.len()
            invariant
                self.wf(),
                i <= self.n(),
                forall|t: int| 0 <= t < i ==> self.frames@[t] != f,
            decreases self.n() - i,
        {
            if self.frames[i] == f {
                proof {
                    self.lemma_index_of(i as int);
                }
                return Some(i);
            }
            i += 1;
        }
        None
    }

    /// `index_of` finds the table that occupies a frame.
    pub proof fn lemma_index_of(&self, t: int)
        requires
            self.wf(),
            0 <= t < self.n(),
        ensures
            self.index_of(self.frames@[t]) == t,
    {
        let f = self.frames@[t];
        assert(0 <= t < self.n() && self.frames@[t] == f);
        let u = self.index_of(f);
        assert(0 <= u < self.n() && self.frames@[u] == f);
    }

    /// Entry `j` of table `t`.
    pub fn get_entry(&self, t: usize, j: usize) -> (r: PageTableEntry)
        requires
            self.wf(),
            t < self.n(),
            j < 512,
        ensures
            r.entry == self.entry(t as int, j as int),
    {
        proof {
            assert(t * 512 + j < self.n() * 512);
            assert(self.entries@.len() == self.entries.len());
        }
        self.entries[t * 512 + j]
    }

    /// Overwrites entry `j` of table `t`.
    fn set_entry(&mut self, t: usize, j: usize, e: PageTableEntry)
        requires
            old(self).wf(),
            t < old(self).n(),
            j < 512,
        ensures
            final(self).frames@ == old(self).frames@,
            final(self).levels@ == old(self).levels@,
            final(self).entries@.len() == old(self).entries@.len(),
            final(self).entry(t as int, j as int) == e.entry,
            final(self).same_entries_except(old(self), t as int, j as int),
    {
        proof {
            assert(t * 512 + j < self.n() * 512);
            assert(self.entries@.len() == self.entries.len());
        }
        self.entries.set(t * 512 + j, e);
        proof {
            assert forall|t2: int, j2: int|
                0 <= t2 < old(self).n() && 0 <= j2 < 512 && !(t2 == t && j2 == j) implies #[trigger] self.entry(
                t2,
                j2,
            ) == old(self).entry(t2, j2) by {
                assert(t2 * 512 + j2 != t * 512 + j);
            }
        }
    }

    /// Adds an all-zero table of the given level in frame `frame`.
    pub fn add_table(&mut self, frame: PhysFrame, level: u8) -> (r: usize)
        requires
            old(self).wf(),
            1 <= level <= 4,
            forall|t: int| 0 <= t < old(self).n() ==> old(self).frames@[t] != frame.view(),
            old(self).n() < MAX_TABLES,
        ensures
            final(self).wf(),
            r == old(self).n(),
            final(self).n() == old(self).n() + 1,
            final(self).frames@[r as int] == frame.view(),
            final(self).level(r as int) == level,
            final(self).extends(old(self)),
            final(self).same_entries_except(old(self), -1, -1),
            forall|j: int| 0 <= j < 512 ==> #[trigger] final(self).entry(r as int, j) == 0,
    {
        let r = self.frames.len();
        let base = frame.base_u64();
        let ghost old_entries = self.entries@;
        let mut k: usize = 0;
        while k < NUM_PAGE_TABLE_ENTRIES
            invariant
                self.frames@ == old(self).frames@,
                self.levels@ == old(self).levels@,
                r == old(self).n(),
                r < MAX_TABLES,
                old_entries == old(self).entries@,
                old_entries.len() == r * 512,
                k <= 512,
                self.entries@.len() == r * 512 + k,
                forall|i: int| 0 <= i < r * 512 ==> #[trigger] self.entries@[i] == old_entries[i],
                forall|i: int| r * 512 <= i < r * 512 + k ==> #[trigger] self.entries@[i].entry == 0,
            decreases 512 - k,
        {
            self.entries.push(PageTableEntry::empty());
            k += 1;
        }
        self.frames.push(base);
        self.levels.push(level);
        proof {
            lemma_zero_entry();
            assert forall|t: int, j: int| 0 <= t < old(self).n() && 0 <= j < 512 implies #[trigger] self.entry(t, j)
                == old(self).entry(t, j) by {
                assert(t * 512 + j < r * 512);
            }
            assert forall|j: int| 0 <= j < 512 implies #[trigger] self.entry(r as int, j) == 0 by {
                assert(r * 512 <= r * 512 + j < r * 512 + 512);
            }
            assert forall|f: u64, l: int| old(self).holds(f, l) implies self.holds(f, l) by {
                let t = choose|t: int| 0 <= t < old(self).n() && #[trigger] old(self).frames@[t] == f
                    && old(self).level(t) == l;
                assert(self.frames@[t] == f);
            }
            assert forall|t: int, j: int| self.link_at(t, j) implies old(self).link_at(t, j) && self.entry(t, j) == old(self).entry(t, j) by {
                if t >= old(self).n() {
                    assert(self.entry(t, j) == 0);
                }
            }
            assert forall|t: int, j: int| 0 <= t < self.n() && 0 <= j < 512 implies #[trigger] self.entry_ok(t, j) by {
                if t < old(self).n() {
                    assert(old(self).entry_ok(t, j));
                    assert(self.entry(t, j) == old(self).entry(t, j));
                    assert(self.level(t) == old(self).level(t));
                    let e = self.entry(t, j);
                    if old(self).holds(spec_entry_addr(e), old(self).level(t) - 1) {
                        assert(self.holds(spec_entry_addr(e), self.level(t) - 1));
                    }
                } else {
                    assert(self.entry(t, j) == 0);
                }
            }
        }
        r
    }

    /// The index into a table of `level` that `va` selects.
    pub fn level_index(va: VirtAddr, level: u8) -> (r: usize)
        requires
            1 <= level <= 4,
        ensures
            r == spec_level_index(va.view(), level as int),
            r < 512,
    {
        if level == 4 {
            va.get_page_map_l4_idx() as usize
        } else if level == 3 {
            va.get_page_dir_ptr_idx() as usize
        } else if level == 2 {
            va.get_page_dir_idx() as usize
        } else {
            va.get_page_table_idx() as usize
        }
    }

    /// The table below the entry of table `t` that `va` selects, if that entry is present.
    pub fn get(&self, t: usize, va: VirtAddr) -> (r: Option<usize>)
        requires
            self.wf(),
            t < self.n(),
            2 <= self.level(t as int),
            !(self.level(t as int) == 3 && spec_page_size(
                self.entry(t as int, spec_level_index(va.view(), 3) as int),
            )),
        ensures
            ({
                let e = self.entry(t as int, spec_level_index(va.view(), self.level(t as int)) as int);
                &&& spec_present(e) ==> r == Some(self.index_of(spec_entry_addr(e)) as usize)
                &&& !spec_present(e) ==> r.is_none()
            }),
            r matches Some(c) ==> c < self.n() && self.level(c as int) == self.level(t as int) - 1,
    {
        let level = self.levels[t];
        proof {
            assert(self.frames@[t as int] % 4096 == 0);
        }
        let j = Self::level_index(va, level);
        let e = self.get_entry(t, j);
        if e.present() {
            proof {
                assert(self.entry_ok(t as int, j as int));
                lemma_zero_entry();
            }
            let a = e.addr().as_u64();
            let c = self.find(a);
            match c {
                Some(c) => Some(c),
                None => {
                    proof {
                        let w = choose|u: int| 0 <= u < self.n() && #[trigger] self.frames@[u] == a
                            && self.level(u) == self.level(t as int) - 1;
                        assert(self.frames@[w] == a);
                    }
                    None
                },
            }
        } else {
            None
        }
    }
}

/// Rewriting one entry of a table with an acceptable value keeps every other entry acceptable.
proof fn lemma_entry_ok_kept(old: &PageTableStore, new: &PageTableStore, t0: int, j0: int)
    requires
        old.wf(),
        new.extends(old),
        new.levels@.len() == new.n(),
        new.entries@.len() == new.n() * 512,
        new.same_entries_except(old, t0, j0),
    ensures
        forall|t: int, j: int|
            0 <= t < old.n() && 0 <= j < 512 && !(t == t0 && j == j0) ==> #[trigger] new.entry_ok(t, j),
        forall|f: u64, l: int| old.holds(f, l) ==> new.holds(f, l),
{
    assert forall|f: u64, l: int| old.holds(f, l) implies new.holds(f, l) by {
        let t = choose|t: int| 0 <= t < old.n() && #[trigger] old.frames@[t] == f && old.level(t) == l;
        assert(new.frames@[t] == f);
    }
    assert forall|t: int, j: int|
        0 <= t < old.n() && 0 <= j < 512 && !(t == t0 && j == j0) implies #[trigger] new.entry_ok(t, j) by {
        assert(old.entry_ok(t, j));
        assert(new.entry(t, j) == old.entry(t, j));
        assert(new.level(t) == old.level(t));
        let e = new.entry(t, j);
        if old.holds(spec_entry_addr(e), old.level(t) - 1) {
            assert(new.holds(spec_entry_addr(e), new.level(t) - 1));
        }
    }
}

impl PageTableStore {
    /// The table below the entry of table `t` that `va` selects; when that entry is not present, a
    /// fresh zeroed table of the next level is allocated and linked with present and write set.
    pub fn get_mut_or_insert<A: PageMapAllocator>(
        &mut self,
        t: usize,
        va: VirtAddr,
        allocator: &mut A,
    ) -> (r: Result<usize, MapError>)
        requires
            old(allocator).spec_wf(),
            old(self).wf(),
            t < old(self).n(),
            2 <= old(self).level(t as int),
            !(old(self).level(t as int) == 3 && spec_page_size(
                old(self).entry(t as int, spec_level_index(va.view(), 3) as int),
            )),
        ensures
            final(allocator).spec_extent() == old(allocator).spec_extent(),
            forall|x: u64| old(allocator).spec_issued(x) ==> #[trigger] final(allocator).spec_issued(x),
            final(self).wf(),
            final(self).extends(old(self)),
            final(self).same_entries_except(
                old(self),
                t as int,
                spec_level_index(va.view(), old(self).level(t as int)) as int,
            ),
            ({
                let j = spec_level_index(va.view(), old(self).level(t as int)) as int;
                let e = final(self).entry(t as int, j);
                &&& r matches Ok(c) ==> {
                    &&& c < final(self).n()
                    &&& final(self).level(c as int) == old(self).level(t as int) - 1
                    &&& spec_is_link(e)
                    &&& spec_entry_addr(e) == final(self).frames@[c as int]
                }
                &&& spec_present(old(self).entry(t as int, j)) ==> r == Ok::<usize, MapError>(
                    old(self).index_of(spec_entry_addr(old(self).entry(t as int, j))) as usize,
                ) && final(self).entries@ == old(self).entries@ && final(self).n() == old(self).n()
                    && *final(allocator) == *old(allocator)
                &&& !spec_present(old(self).entry(t as int, j)) ==> (r matches Ok(c) ==> c
                    == old(self).n() && forall|k: int|
                    0 <= k < 512 ==> #[trigger] final(self).entry(c as int, k) == 0)
            }),
            old(self).issued_by(old(allocator)) ==> final(self).issued_by(final(allocator)),
            final(allocator).spec_frames_left() >= old(allocator).spec_frames_left() - 1,
            final(allocator).spec_wf(),
            final(self).n() <= old(self).n() + 1,
            forall|root: int, w: u64|
                0 <= root < old(self).n() && old(self).level(root) == 4 && !old(self).huge_at(root, w)
                    ==> !#[trigger] final(self).huge_at(root, w),
            forall|rt: int, w: u64|
                0 <= rt < old(self).n() && old(self).level(rt) == 4 && (#[trigger] old(self).walk(
                    rt,
                    w,
                )).is_some() ==> final(self).walk(rt, w) == old(self).walk(rt, w),
            forall|rt: int, w: u64|
                0 <= rt < old(self).n() && old(self).level(rt) == 4 && #[trigger] old(self).huge_at(rt, w)
                    ==> final(self).huge_at(rt, w),
            forall|rt: int, w: u64|
                0 <= rt < old(self).n() && old(self).level(rt) == 4 && !mapped(*old(self), rt, w) ==> !#[trigger] mapped(
                    *final(self),
                    rt,
                    w,
                ),
            old(self).issued_by(old(allocator)) && old(allocator).spec_frames_left() >= 1
                && old(self).n() + 1 < MAX_TABLES ==> r.is_ok(),
    {
        let level = self.levels[t];
        proof {
            assert(self.frames@[t as int] % 4096 == 0);
        }
        let j = Self::level_index(va, level);
        let e = self.get_entry(t, j);
        proof {
            assert(self.entry_ok(t as int, j as int));
            lemma_zero_entry();
        }
        if e.present() {
            let a = e.addr().as_u64();
            let c = self.find(a);
            match c {
                Some(c) => Ok(c),
                None => {
                    proof {
                        let w = choose|u: int| 0 <= u < self.n() && #[trigger] self.frames@[u] == a
                            && self.level(u) == self.level(t as int) - 1;
                        assert(self.frames@[w] == a);
                    }
                    Err(MapError::FrameInUse)
                },
            }
        } else {
            let ghost a0 = *allocator;
            let f = match allocator.alloc_table_frame() {
                Some(f) => f,
                None => {
                    return Err(MapError::OutOfFrames);
                },
            };
            if self.frames.len() >= MAX_TABLES - 1 {
                return Err(MapError::OutOfFrames);
            }
            if self.find(f.base_u64()).is_some() {
                return Err(MapError::FrameInUse);
            }
            let ghost s0 = *self;
            let c = self.add_table(f, level - 1);
            let ghost s1 = *self;
            let mut ne = e;
            ne.set_addr(f.base_addr());
            ne.set_present(true);
            ne.set_write(true);
            proof {
                assert(f.view() % 4096 == 0) by {
                    assert(self.frames@[c as int] % 4096 == 0);
                }
                assert(self.frames@[c as int] == f.view());
            }
            self.set_entry(t, j, ne);
            proof {
                lemma_entry_ok_kept(&s0, &s1, -1, -1);
                assert(s1.wf());
                assert forall|t1: int, j1: int|
                    #[trigger] s1.link_at(t1, j1) && !(t1 == t && j1 == j) implies spec_entry_addr(
                        s1.entry(t1, j1),
                    ) != spec_entry_addr(self.entry(t as int, j as int)) by {
                    if t1 >= s0.n() {
                        assert(s1.entry(t1, j1) == 0);
                    } else {
                        assert(s1.entry(t1, j1) == s0.entry(t1, j1));
                        assert(s0.entry_ok(t1, j1));
                        let u = choose|u: int| 0 <= u < s0.n() && #[trigger] s0.frames@[u] == spec_entry_addr(s0.entry(t1, j1))
                            && s0.level(u) == s0.level(t1) - 1;
                        assert(s0.frames@[u] != f.view());
                    }
                }
                lemma_tree_after_write(&s1, self, t as int, j as int);
                assert(self.extends(&s0));
                assert(self.same_entries_except(&s0, t as int, j as int));
                lemma_entry_ok_kept(&s0, self, t as int, j as int);
                assert(self.frames@[c as int] == f.view());
                assert(self.holds(f.view(), self.level(t as int) - 1)) by {
                    assert(self.level(c as int) == level - 1);
                }
                assert(self.entry_ok(t as int, j as int));
                assert forall|t2: int, j2: int| 0 <= t2 < self.n() && 0 <= j2 < 512 implies #[trigger] self.entry_ok(t2, j2) by {
                    if t2 == c {
                        assert(s1.entry_ok(t2, j2));
                        assert(self.entry(t2, j2) == s1.entry(t2, j2));
                    }
                }
                assert forall|k: int| 0 <= k < 512 implies #[trigger] self.entry(c as int, k) == 0 by {
                    assert(self.entry(c as int, k) == s1.entry(c as int, k));
                }
                assert(self.same_entries_except(&s0, t as int, j as int));
                lemma_absent_write_keeps_walks(&s0, self, t as int, j as int);
                assert forall|rt: int, w: u64|
                    0 <= rt < s0.n() && s0.level(rt) == 4 && !mapped(s0, rt, w) implies !#[trigger] mapped(*self, rt, w) by {
                    lemma_absent_write_keeps_unmapped(&s0, self, t as int, j as int, c as int, rt, w);
                }
                assert forall|root: int, w: u64|
                    0 <= root < s0.n() && s0.level(root) == 4 && !s0.huge_at(root, w)
                        implies !#[trigger] self.huge_at(root, w) by {
                    lemma_huge_free_kept(&s0, self, t as int, j as int, c as int, root, w);
                }
                if old(self).issued_by(&a0) {
                    assert forall|u: int| 0 <= u < self.n() implies allocator.spec_issued(#[trigger] self.frames@[u]) by {
                        if u < s0.n() {
                            assert(self.frames@[u] == s0.frames@[u]);
                            assert(a0.spec_issued(s0.frames@[u]));
                        }
                    }
                }
            }
            Ok(c)
        }
    }
}

/// In a well-formed store, an entry of an intermediate table that is present (and not a 1 GiB leaf)
/// holds the page-aligned frame of a table of the next level, with write set and no-execute clear;
/// an entry that is not present is zero.
pub proof fn lemma_intermediate_entry(s: &PageTableStore, t: int, j: int)
    requires
        s.wf(),
        0 <= t < s.n(),
        0 <= j < 512,
        s.level(t) >= 2,
    ensures
        !spec_present(s.entry(t, j)) ==> s.entry(t, j) == 0,
        spec_present(s.entry(t, j)) && !(s.level(t) == 3 && spec_page_size(s.entry(t, j))) ==> {
            &&& s.holds(spec_entry_addr(s.entry(t, j)), s.level(t) - 1)
            &&& spec_entry_addr(s.entry(t, j)) % 4096 == 0
            &&& spec_write(s.entry(t, j))
            &&& !spec_no_exec(s.entry(t, j))
        },
{
    assert(s.entry_ok(t, j));
    lemma_zero_entry();
    let e = s.entry(t, j);
    if spec_present(e) && !(s.level(t) == 3 && spec_page_size(e)) {
        let u = choose|u: int| 0 <= u < s.n() && #[trigger] s.frames@[u] == spec_entry_addr(e) && s.level(u)
            == s.level(t) - 1;
        assert(s.frames@[u] % 4096 == 0);
    }
}

/// Two addresses select the same entry at every level.
pub open spec fn same_indices(a: u64, b: u64) -> bool {
    &&& spec_pml4_index(a) == spec_pml4_index(b)
    &&& spec_pdpt_index(a) == spec_pdpt_index(b)
    &&& spec_pd_index(a) == spec_pd_index(b)
    &&& spec_pt_index(a) == spec_pt_index(b)
}

/// Distinct page bases in one half of the address space differ in some table index.
pub proof fn lemma_distinct_pages_indices(a: u64, b: u64)
    requires
        a % 4096 == 0,
        b % 4096 == 0,
        a >> 47 == b >> 47,
        a != b,
    ensures
        !same_indices(a, b),
{
    crate::addr::lemma_page_mask(a);
    crate::addr::lemma_page_mask(b);
    assert(a & 4095 == 0 && b & 4095 == 0 && a >> 47 == b >> 47 && (a >> 39) & 0x1FF == (b >> 39)
        & 0x1FF && (a >> 30) & 0x1FF == (b >> 30) & 0x1FF && (a >> 21) & 0x1FF == (b >> 21) & 0x1FF
        && (a >> 12) & 0x1FF == (b >> 12) & 0x1FF ==> a == b) by (bit_vector);
}

impl PageTableStore {
    /// `new` holds the same entries as `self` at every slot that the walk for `w` reads.
    pub open spec fn path_same(&self, new: &PageTableStore, root: int, w: u64) -> bool {
        let e4 = self.entry(root, spec_pml4_index(w) as int);
        &&& new.entry(root, spec_pml4_index(w) as int) == e4
        &&& spec_present(e4) ==> {
            let t3 = self.index_of(spec_entry_addr(e4));
            let e3 = self.entry(t3, spec_pdpt_index(w) as int);
            &&& new.entry(t3, spec_pdpt_index(w) as int) == e3
            &&& spec_is_link(e3) ==> {
                let t2 = self.index_of(spec_entry_addr(e3));
                let e2 = self.entry(t2, spec_pd_index(w) as int);
                &&& new.entry(t2, spec_pd_index(w) as int) == e2
                &&& spec_present(e2) ==> {
                    let t1 = self.index_of(spec_entry_addr(e2));
                    new.entry(t1, spec_pt_index(w) as int) == self.entry(t1, spec_pt_index(w) as int)
                }
            }
        }
    }

    /// The tables on a successful walk: level 3 below the root, then 2, then 1.
    pub proof fn lemma_walk_levels(&self, root: int, w: u64)
        requires
            self.wf(),
            0 <= root < self.n(),
            self.level(root) == 4,
        ensures
            ({
                let e4 = self.entry(root, spec_pml4_index(w) as int);
                spec_present(e4) ==> {
                    let t3 = self.index_of(spec_entry_addr(e4));
                    let e3 = self.entry(t3, spec_pdpt_index(w) as int);
                    &&& 0 <= t3 < self.n() && self.level(t3) == 3 && spec_is_link(e4)
                    &&& self.link_at(root, spec_pml4_index(w) as int)
                    &&& spec_entry_addr(e4) == self.frames@[t3]
                    &&& spec_is_link(e3) ==> {
                        let t2 = self.index_of(spec_entry_addr(e3));
                        let e2 = self.entry(t2, spec_pd_index(w) as int);
                        &&& 0 <= t2 < self.n() && self.level(t2) == 2
                        &&& self.link_at(t3, spec_pdpt_index(w) as int)
                        &&& spec_entry_addr(e3) == self.frames@[t2]
                        &&& spec_present(e2) ==> {
                            let t1 = self.index_of(spec_entry_addr(e2));
                            &&& 0 <= t1 < self.n() && self.level(t1) == 1 && spec_is_link(e2)
                            &&& self.link_at(t2, spec_pd_index(w) as int)
                            &&& spec_entry_addr(e2) == self.frames@[t1]
                        }
                    }
                }
            }),
    {
        lemma_indices_bounded(w);
        lemma_zero_entry();
        let i4 = spec_pml4_index(w) as int;
        let e4 = self.entry(root, i4);
        assert(self.entry_ok(root, i4));
        if spec_present(e4) {
            let u3 = choose|u: int| 0 <= u < self.n() && #[trigger] self.frames@[u] == spec_entry_addr(e4)
                && self.level(u) == 3;
            assert(self.frames@[u3] == spec_entry_addr(e4));
            self.lemma_index_of(u3);
            let i3 = spec_pdpt_index(w) as int;
            let e3 = self.entry(u3, i3);
            assert(self.entry_ok(u3, i3));
            if spec_is_link(e3) {
                let u2 = choose|u: int| 0 <= u < self.n() && #[trigger] self.frames@[u] == spec_entry_addr(e3)
                    && self.level(u) == 2;
                assert(self.frames@[u2] == spec_entry_addr(e3));
                self.lemma_index_of(u2);
                let i2 = spec_pd_index(w) as int;
                let e2 = self.entry(u2, i2);
                assert(self.entry_ok(u2, i2));
                if spec_present(e2) {
                    let u1 = choose|u: int| 0 <= u < self.n() && #[trigger] self.frames@[u] == spec_entry_addr(e2)
                        && self.level(u) == 1;
                    assert(self.frames@[u1] == spec_entry_addr(e2));
                    self.lemma_index_of(u1);
                }
            }
        }
    }

    /// A walk reads only the slots on its path: when those hold the same entries, it ends the same.
    pub proof fn lemma_walk_kept(&self, new: &PageTableStore, root: int, w: u64)
        requires
            self.wf(),
            new.wf(),
            new.extends(self),
            0 <= root < self.n(),
            self.level(root) == 4,
            self.path_same(new, root, w),
        ensures
            new.walk(root, w) == self.walk(root, w),
    {
        self.lemma_walk_levels(root, w);
        let e4 = self.entry(root, spec_pml4_index(w) as int);
        if spec_present(e4) {
            let t3 = self.index_of(spec_entry_addr(e4));
            new.lemma_index_of(t3);
            let e3 = self.entry(t3, spec_pdpt_index(w) as int);
            if spec_is_link(e3) {
                let t2 = self.index_of(spec_entry_addr(e3));
                new.lemma_index_of(t2);
                let e2 = self.entry(t2, spec_pd_index(w) as int);
                if spec_present(e2) {
                    let t1 = self.index_of(spec_entry_addr(e2));
                    new.lemma_index_of(t1);
                }
            }
        }
    }
}

/// Changing only a slot that was absent, in a table of level 2 or more, keeps every successful walk.
proof fn lemma_absent_write_keeps_walks(old: &PageTableStore, new: &PageTableStore, t: int, j: int)
    requires
        old.wf(),
        new.wf(),
        new.extends(old),
        new.same_entries_except(old, t, j),
        0 <= t < old.n(),
        0 <= j < 512,
        old.level(t) >= 2,
        !spec_present(old.entry(t, j)),
    ensures
        forall|rt: int, w: u64|
            0 <= rt < old.n() && old.level(rt) == 4 && (#[trigger] old.walk(rt, w)).is_some()
                ==> new.walk(rt, w) == old.walk(rt, w),
        forall|rt: int, w: u64|
            0 <= rt < old.n() && old.level(rt) == 4 && #[trigger] old.huge_at(rt, w) ==> new.huge_at(rt, w),
{
    assert forall|rt: int, w: u64|
        0 <= rt < old.n() && old.level(rt) == 4 && #[trigger] old.huge_at(rt, w) implies new.huge_at(rt, w) by {
        lemma_indices_bounded(w);
        old.lemma_walk_levels(rt, w);
        let e4 = old.entry(rt, spec_pml4_index(w) as int);
        let t3 = old.index_of(spec_entry_addr(e4));
        new.lemma_index_of(t3);
    }
    assert forall|rt: int, w: u64|
        0 <= rt < old.n() && old.level(rt) == 4 && (#[trigger] old.walk(rt, w)).is_some()
            implies new.walk(rt, w) == old.walk(rt, w) by {
        lemma_indices_bounded(w);
        old.lemma_walk_levels(rt, w);
        old.lemma_walk_kept(new, rt, w);
    }
}

/// Writing the leaf slot of page `p` keeps the walks of pages that differ from `p` in some index.
proof fn lemma_leaf_write_keeps_walks(
    old: &PageTableStore,
    new: &PageTableStore,
    root: int,
    p: u64,
    t1: int,
)
    requires
        old.wf(),
        new.wf(),
        new.frames@ == old.frames@,
        new.levels@ == old.levels@,
        new.same_entries_except(old, t1, spec_pt_index(p) as int),
        0 <= root < old.n(),
        old.level(root) == 4,
        ({
            let e4 = old.entry(root, spec_pml4_index(p) as int);
            let t3 = old.index_of(spec_entry_addr(e4));
            let e3 = old.entry(t3, spec_pdpt_index(p) as int);
            let t2 = old.index_of(spec_entry_addr(e3));
            let e2 = old.entry(t2, spec_pd_index(p) as int);
            &&& spec_is_link(e4) && spec_is_link(e3) && spec_is_link(e2)
            &&& old.index_of(spec_entry_addr(e2)) == t1
        }),
    ensures
        forall|w: u64|
            !same_indices(w, p) ==> #[trigger] new.walk(root, w) == old.walk(root, w),
{
    old.lemma_walk_levels(root, p);
    lemma_indices_bounded(p);
    assert forall|w: u64| !same_indices(w, p) implies #[trigger] new.walk(root, w) == old.walk(root, w) by {
        lemma_indices_bounded(w);
        old.lemma_walk_levels(root, w);
        let e4 = old.entry(root, spec_pml4_index(w) as int);
        let t3 = old.index_of(spec_entry_addr(e4));
        let e3 = old.entry(t3, spec_pdpt_index(w) as int);
        if spec_present(e4) && spec_is_link(e3) {
            let t2 = old.index_of(spec_entry_addr(e3));
            let e2 = old.entry(t2, spec_pd_index(w) as int);
            if spec_present(e2) {
                let u1 = old.index_of(spec_entry_addr(e2));
                if u1 == t1 && spec_pt_index(w) == spec_pt_index(p) {
                    // One parent per table: the whole path of `w` is the path of `p`.
                    let pe4 = old.entry(root, spec_pml4_index(p) as int);
                    let pt3 = old.index_of(spec_entry_addr(pe4));
                    let pe3 = old.entry(pt3, spec_pdpt_index(p) as int);
                    let pt2 = old.index_of(spec_entry_addr(pe3));
                    assert(old.link_at(t2, spec_pd_index(w) as int));
                    assert(old.link_at(pt2, spec_pd_index(p) as int));
                    assert(t2 == pt2);
                    assert(old.link_at(t3, spec_pdpt_index(w) as int));
                    assert(old.link_at(pt3, spec_pdpt_index(p) as int));
                    assert(t3 == pt3);
                    assert(old.link_at(root, spec_pml4_index(w) as int));
                    assert(old.link_at(root, spec_pml4_index(p) as int));
                    assert(false);
                }
            }
        }
        old.lemma_walk_kept(new, root, w);
    }
}

/// Two addresses select the same PML4 and PDPT entries: they lie in one 1 GiB region.
pub open spec fn same_gib(a: u64, b: u64) -> bool {
    spec_pml4_index(a) == spec_pml4_index(b) && spec_pdpt_index(a) == spec_pdpt_index(b)
}

/// A walk that ends at a level 3 entry reads nothing below it.
pub proof fn lemma_walk_same_gib(s: &PageTableStore, root: int, a: u64, b: u64)
    requires
        same_gib(a, b),
        s.huge_at(root, a),
    ensures
        s.walk(root, b) == s.walk(root, a),
        s.huge_at(root, b),
{
}

/// Distinct 1 GiB-aligned addresses in one half of the address space lie in distinct regions.
pub proof fn lemma_distinct_gibs(a: u64, b: u64)
    requires
        a & 0x3FFF_FFFF == 0,
        b & 0x3FFF_FFFF == 0,
        a >> 47 == b >> 47,
        a != b,
    ensures
        !same_gib(a, b),
{
    assert(a & 0x3FFF_FFFF == 0 && b & 0x3FFF_FFFF == 0 && a >> 47 == b >> 47 && (a >> 39) & 0x1FF
        == (b >> 39) & 0x1FF && (a >> 30) & 0x1FF == (b >> 30) & 0x1FF ==> a == b) by (bit_vector);
}

/// Writing a level 3 slot on the path of `va` keeps every walk outside the 1 GiB region of `va`.
proof fn lemma_level3_write_keeps(old: &PageTableStore, new: &PageTableStore, root: int, va: u64, t3: int)
    requires
        old.wf(),
        new.wf(),
        new.frames@ == old.frames@,
        new.levels@ == old.levels@,
        new.same_entries_except(old, t3, spec_pdpt_index(va) as int),
        0 <= root < old.n(),
        old.level(root) == 4,
        spec_is_link(old.entry(root, spec_pml4_index(va) as int)),
        old.index_of(spec_entry_addr(old.entry(root, spec_pml4_index(va) as int))) == t3,
    ensures
        forall|w: u64|
            (#[trigger] old.walk(root, w)).is_some() && !same_gib(w, va) ==> new.walk(root, w)
                == old.walk(root, w),
        forall|w: u64| !same_gib(w, va) ==> (#[trigger] new.huge_at(root, w) == old.huge_at(root, w)),
{
    old.lemma_walk_levels(root, va);
    lemma_indices_bounded(va);
    assert forall|w: u64| !same_gib(w, va) implies (#[trigger] new.huge_at(root, w) == old.huge_at(root, w)) by {
        lemma_indices_bounded(w);
        old.lemma_walk_levels(root, w);
        let e4 = old.entry(root, spec_pml4_index(w) as int);
        assert(new.entry(root, spec_pml4_index(w) as int) == e4);
        if spec_present(e4) {
            let u = old.index_of(spec_entry_addr(e4));
            new.lemma_index_of(u);
            if u == t3 && spec_pdpt_index(w) == spec_pdpt_index(va) {
                assert(old.link_at(root, spec_pml4_index(w) as int));
                assert(old.link_at(root, spec_pml4_index(va) as int));
            }
        }
    }
    assert forall|w: u64| (#[trigger] old.walk(root, w)).is_some() && !same_gib(w, va) implies new.walk(
        root,
        w,
    ) == old.walk(root, w) by {
        lemma_indices_bounded(w);
        old.lemma_walk_levels(root, w);
        let e4 = old.entry(root, spec_pml4_index(w) as int);
        let u = old.index_of(spec_entry_addr(e4));
        if u == t3 && spec_pdpt_index(w) == spec_pdpt_index(va) {
            assert(old.link_at(root, spec_pml4_index(w) as int));
            assert(old.link_at(root, spec_pml4_index(va) as int));
        }
        old.lemma_walk_kept(new, root, w);
    }
}

/// The walk for `w` ends in a present entry.
pub open spec fn mapped(s: PageTableStore, root: int, w: u64) -> bool {
    s.walk(root, w) matches Some(e) && spec_present(e)
}

/// Linking an absent slot to a fresh zeroed table makes no walk end in a present entry that did
/// not before.
proof fn lemma_absent_write_keeps_unmapped(
    old: &PageTableStore,
    new: &PageTableStore,
    t: int,
    j: int,
    c: int,
    root: int,
    w: u64,
)
    requires
        old.wf(),
        new.wf(),
        new.extends(old),
        new.same_entries_except(old, t, j),
        0 <= t < old.n(),
        0 <= j < 512,
        !spec_present(old.entry(t, j)),
        old.level(t) >= 2,
        spec_is_link(new.entry(t, j)),
        c == old.n(),
        c < new.n(),
        spec_entry_addr(new.entry(t, j)) == new.frames@[c],
        forall|k: int| 0 <= k < 512 ==> #[trigger] new.entry(c, k) == 0,
        0 <= root < old.n(),
        old.level(root) == 4,
        !mapped(*old, root, w),
    ensures
        !mapped(*new, root, w),
{
    lemma_indices_bounded(w);
    lemma_zero_entry();
    old.lemma_walk_levels(root, w);
    new.lemma_index_of(c);
    let i4 = spec_pml4_index(w) as int;
    let i3 = spec_pdpt_index(w) as int;
    let i2 = spec_pd_index(w) as int;
    let e4 = old.entry(root, i4);
    if root == t && i4 == j {
        assert(new.entry(c, i3) == 0);
    } else {
        assert(new.entry(root, i4) == e4);
        if spec_present(e4) {
            let t3 = old.index_of(spec_entry_addr(e4));
            new.lemma_index_of(t3);
            let e3 = old.entry(t3, i3);
            if t3 == t && i3 == j {
                assert(new.entry(c, i2) == 0);
            } else {
                assert(new.entry(t3, i3) == e3);
                if spec_is_link(e3) {
                    let t2 = old.index_of(spec_entry_addr(e3));
                    new.lemma_index_of(t2);
                    let e2 = old.entry(t2, i2);
                    if t2 == t && i2 == j {
                        assert(new.entry(c, spec_pt_index(w) as int) == 0);
                    } else {
                        assert(new.entry(t2, i2) == e2);
                        if spec_present(e2) {
                            let t1 = old.index_of(spec_entry_addr(e2));
                            new.lemma_index_of(t1);
                            assert(new.entry(t1, spec_pt_index(w) as int) == old.entry(t1, spec_pt_index(w) as int));
                        }
                    }
                }
            }
        }
    }
}

/// Writing one entry keeps the forest shape when the new entry links to no table that another link
/// already reaches.
proof fn lemma_tree_after_write(old: &PageTableStore, new: &PageTableStore, t0: int, j0: int)
    requires
        old.wf(),
        new.frames@ == old.frames@,
        new.levels@ == old.levels@,
        new.entries@.len() == old.entries@.len(),
        new.same_entries_except(old, t0, j0),
        0 <= t0 < old.n(),
        0 <= j0 < 512,
        new.link_at(t0, j0) ==> forall|t1: int, j1: int|
            #[trigger] old.link_at(t1, j1) && !(t1 == t0 && j1 == j0) ==> spec_entry_addr(
                old.entry(t1, j1),
            ) != spec_entry_addr(new.entry(t0, j0)),
    ensures
        new.tree(),
{
    assert forall|t1: int, j1: int, t2: int, j2: int|
        #[trigger] new.link_at(t1, j1) && #[trigger] new.link_at(t2, j2) && spec_entry_addr(
            new.entry(t1, j1),
        ) == spec_entry_addr(new.entry(t2, j2)) implies t1 == t2 && j1 == j2 by {
        let a = (t1 == t0 && j1 == j0);
        let b = (t2 == t0 && j2 == j0);
        if !a {
            assert(new.entry(t1, j1) == old.entry(t1, j1));
            assert(old.link_at(t1, j1));
        }
        if !b {
            assert(new.entry(t2, j2) == old.entry(t2, j2));
            assert(old.link_at(t2, j2));
        }
    }
}

/// Linking a previously absent entry to a fresh zeroed table adds no huge-page entry to any walk.
proof fn lemma_huge_free_kept(
    old: &PageTableStore,
    new: &PageTableStore,
    t: int,
    j: int,
    c: int,
    root: int,
    w: u64,
)
    requires
        old.wf(),
        new.wf(),
        new.extends(old),
        new.same_entries_except(old, t, j),
        0 <= t < old.n(),
        0 <= j < 512,
        !spec_present(old.entry(t, j)),
        spec_is_link(new.entry(t, j)),
        c == old.n(),
        c < new.n(),
        spec_entry_addr(new.entry(t, j)) == new.frames@[c],
        forall|k: int| 0 <= k < 512 ==> #[trigger] new.entry(c, k) == 0,
        0 <= root < old.n(),
        old.level(root) == 4,
        !old.huge_at(root, w),
    ensures
        !new.huge_at(root, w),
{
    lemma_indices_bounded(w);
    lemma_zero_entry();
    let i4 = spec_pml4_index(w) as int;
    let i3 = spec_pdpt_index(w) as int;
    assert(old.frames@[root] % 4096 == 0);
    if root == t && i4 == j {
        new.lemma_index_of(c);
        assert(new.entry(c, i3) == 0);
    } else {
        let e4 = old.entry(root, i4);
        assert(new.entry(root, i4) == e4);
        if spec_present(e4) {
            assert(old.entry_ok(root, i4));
            let u = choose|u: int| 0 <= u < old.n() && #[trigger] old.frames@[u] == spec_entry_addr(e4)
                && old.level(u) == 3;
            assert(old.frames@[u] == spec_entry_addr(e4));
            old.lemma_index_of(u);
            assert(new.frames@[u] == spec_entry_addr(e4));
            new.lemma_index_of(u);
            if !(u == t && i3 == j) {
                assert(new.entry(u, i3) == old.entry(u, i3));
            }
        }
    }
}

/// Writing an entry of a level 1 table leaves every walk's huge-page ending as it was.
proof fn lemma_leaf_write_keeps_huge(
    old: &PageTableStore,
    new: &PageTableStore,
    t: int,
    j: int,
    root: int,
    w: u64,
)
    requires
        old.wf(),
        new.frames@ == old.frames@,
        new.levels@ == old.levels@,
        new.same_entries_except(old, t, j),
        0 <= t < old.n(),
        old.level(t) == 1,
        0 <= root < old.n(),
        old.level(root) == 4,
    ensures
        new.huge_at(root, w) == old.huge_at(root, w),
{
    lemma_indices_bounded(w);
    lemma_zero_entry();
    let i4 = spec_pml4_index(w) as int;
    let i3 = spec_pdpt_index(w) as int;
    let e4 = old.entry(root, i4);
    assert(new.entry(root, i4) == e4);
    if spec_present(e4) {
        assert(old.entry_ok(root, i4));
        let u = choose|u: int| 0 <= u < old.n() && #[trigger] old.frames@[u] == spec_entry_addr(e4)
            && old.level(u) == 3;
        assert(old.frames@[u] == spec_entry_addr(e4));
        old.lemma_index_of(u);
        assert(new.index_of(spec_entry_addr(e4)) == old.index_of(spec_entry_addr(e4)));
        assert(new.entry(u, i3) == old.entry(u, i3));
    }
}

impl PageTableStore {
    /// The walk for `va` ends in a 1 GiB huge-page entry for `frame`: present, writable, not
    /// executable.
    pub open spec fn maps_huge(&self, root: int, va: u64, frame: u64) -> bool {
        &&& self.huge_at(root, va)
        &&& self.walk(root, va) matches Some(e) && spec_page_size(e) && spec_present(e) && spec_write(
            e,
        ) && spec_no_exec(e) && spec_entry_addr(e) == frame
    }

    /// Maps the 1 GiB region at `va` to the 1 GiB frame region at `frame` with one PDPT entry.
    pub fn map_huge_page<A: PageMapAllocator>(
        &mut self,
        root: usize,
        frame: PhysAddr,
        va: VirtAddr,
        allocator: &mut A,
    ) -> (r: Result<(), MapError>)
        requires
            old(allocator).spec_wf(),
            old(self).wf(),
            root < old(self).n(),
            old(self).level(root as int) == 4,
            frame.view() % 0x4000_0000 == 0,
        ensures
            final(allocator).spec_extent() == old(allocator).spec_extent(),
            forall|x: u64| old(allocator).spec_issued(x) ==> #[trigger] final(allocator).spec_issued(x),
            final(self).wf(),
            final(self).extends(old(self)),
            r.is_ok() ==> final(self).maps_huge(root as int, va.view(), frame.view()),
            forall|w: u64|
                (#[trigger] old(self).walk(root as int, w)).is_some() && !same_gib(w, va.view())
                    ==> final(self).walk(root as int, w) == old(self).walk(root as int, w),
            forall|w: u64|
                !same_gib(w, va.view()) ==> (#[trigger] final(self).huge_at(root as int, w) == old(self).huge_at(root as int, w)),
            old(self).issued_by(old(allocator)) ==> final(self).issued_by(final(allocator)),
            final(allocator).spec_frames_left() >= old(allocator).spec_frames_left() - 1,
            final(allocator).spec_wf(),
            final(self).n() <= old(self).n() + 1,
            old(self).issued_by(old(allocator)) && old(allocator).spec_frames_left() >= 1
                && old(self).n() + 1 < MAX_TABLES ==> r.is_ok(),
    {
        let ghost v = va.view();
        proof {
            lemma_indices_bounded(v);
            assert(self.frames@[root as int] % 4096 == 0);
        }
        let c3 = self.get_mut_or_insert(root, va, allocator)?;
        let ghost s1 = *self;
        proof {
            self.lemma_index_of(c3 as int);
            assert(self.frames@[c3 as int] % 4096 == 0);
        }
        let i3 = va.get_page_dir_ptr_idx() as usize;
        let mut e = self.get_entry(c3, i3);
        e.set_no_exec(true);
        e.set_write(true);
        e.set_present(true);
        e.set_page_size(true);
        e.set_addr(frame);
        self.set_entry(c3, i3, e);
        proof {
            let s2 = *self;
            lemma_entry_ok_kept(&s1, &s2, c3 as int, i3 as int);
            assert(frame.view() % 4096 == 0);
            assert(self.entry_ok(c3 as int, i3 as int));
            assert forall|t: int, j: int| 0 <= t < self.n() && 0 <= j < 512 implies #[trigger] self.entry_ok(t, j) by {
                if t == c3 && j == i3 {
                    assert(self.entry_ok(c3 as int, i3 as int));
                }
            }
            lemma_tree_after_write(&s1, &s2, c3 as int, i3 as int);
            assert(self.wf());
            lemma_level3_write_keeps(&s1, &s2, root as int, v, c3 as int);
            assert(self.frames@[c3 as int] == s1.frames@[c3 as int]);
            self.lemma_index_of(c3 as int);
            let e4 = self.entry(root as int, spec_pml4_index(v) as int);
            assert(e4 == s1.entry(root as int, spec_pml4_index(v) as int));
            assert(self.index_of(spec_entry_addr(e4)) == c3);
            assert forall|w: u64| !same_gib(w, v) implies (#[trigger] self.huge_at(root as int, w) == old(self).huge_at(root as int, w)) by {
                assert(s2.huge_at(root as int, w) == s1.huge_at(root as int, w));
                if old(self).huge_at(root as int, w) {
                    assert(s1.huge_at(root as int, w));
                } else {
                    assert(!s1.huge_at(root as int, w));
                }
            }
        }
        Ok(())
    }
}

/// The access rights of a leaf mapping.
#[derive(Clone, Copy, PartialEq, Eq, Structural, Debug)]
pub struct MappingFlags {
    pub execute: bool,
    pub write: bool,
    pub present: bool,
}

/// `e` carries exactly the rights of `flags`.
pub open spec fn spec_has_flags(e: u64, flags: MappingFlags) -> bool {
    &&& spec_no_exec(e) == !flags.execute
    &&& spec_write(e) == flags.write
    &&& spec_present(e) == flags.present
}

impl MappingFlags {
    /// Writes the rights into `entry`: no-execute, write and present; the rest is kept.
    pub fn set_for_entry(&self, entry: &mut PageTableEntry)
        ensures
            spec_has_flags(final(entry).entry, *self),
            spec_page_size(final(entry).entry) == spec_page_size(old(entry).entry),
            spec_entry_addr(final(entry).entry) == spec_entry_addr(old(entry).entry),
    {
        entry.set_no_exec(!self.execute);
        entry.set_write(self.write);
        entry.set_present(self.present);
    }

    pub fn new(execute: bool, write: bool, present: bool) -> (r: MappingFlags)
        ensures
            r == (MappingFlags { execute, write, present }),
    {
        MappingFlags { execute, write, present }
    }

    /// Readable and writable data: not executable.
    pub fn new_rw_data() -> (r: MappingFlags)
        ensures
            r == (MappingFlags { execute: false, write: true, present: true }),
    {
        MappingFlags { execute: false, write: true, present: true }
    }

    /// Executable, read-only code.
    pub fn new_code() -> (r: MappingFlags)
        ensures
            r == (MappingFlags { execute: true, write: false, present: true }),
    {
        MappingFlags { execute: true, write: false, present: true }
    }

    /// A guard page: not present, so any access faults.
    pub fn new_guard() -> (r: MappingFlags)
        ensures
            r == (MappingFlags { execute: false, write: false, present: false }),
    {
        MappingFlags { execute: false, write: false, present: false }
    }
}

impl PageTableStore {
    /// The walk for `page` from `root` ends in a leaf with frame address `frame` and rights `flags`.
    pub open spec fn maps_to(&self, root: int, page: u64, frame: u64, flags: MappingFlags) -> bool {
        self.walk(root, page) matches Some(e) && spec_entry_addr(e) == frame && spec_has_flags(e, flags)
    }

    /// Maps `page` to `frame` with `flags`, walking from the PML4 `root` and allocating any missing
    /// intermediate table from `allocator`.
    pub fn map_page<A: PageMapAllocator>(
        &mut self,
        root: usize,
        frame: PhysFrame,
        page: VirtPage,
        allocator: &mut A,
        flags: MappingFlags,
    ) -> (r: Result<(), MapError>)
        requires
            old(allocator).spec_wf(),
            old(self).wf(),
            root < old(self).n(),
            old(self).level(root as int) == 4,
            !old(self).huge_at(root as int, page.view()),
        ensures
            final(allocator).spec_extent() == old(allocator).spec_extent(),
            forall|x: u64| old(allocator).spec_issued(x) ==> #[trigger] final(allocator).spec_issued(x),
            final(self).wf(),
            final(self).extends(old(self)),
            r.is_ok() ==> final(self).maps_to(root as int, page.view(), frame.view(), flags),
            forall|w: u64|
                (#[trigger] old(self).walk(root as int, w)).is_some() && !same_indices(w, page.view())
                    ==> final(self).walk(root as int, w) == old(self).walk(root as int, w),
            forall|w: u64|
                !same_indices(w, page.view()) && !mapped(*old(self), root as int, w) ==> !#[trigger] mapped(
                    *final(self),
                    root as int,
                    w,
                ),
            forall|rt: int, w: u64|
                0 <= rt < old(self).n() && old(self).level(rt) == 4 ==> (#[trigger] final(self).huge_at(rt, w)
                    == old(self).huge_at(rt, w)),
            old(self).issued_by(old(allocator)) ==> final(self).issued_by(final(allocator)),
            final(allocator).spec_frames_left() >= old(allocator).spec_frames_left() - 3,
            final(allocator).spec_wf(),
            final(self).n() <= old(self).n() + 3,
            old(self).issued_by(old(allocator)) && old(allocator).spec_frames_left() >= 3
                && old(self).n() + 3 < MAX_TABLES ==> r.is_ok(),
    {
        let va = page.base_addr();
        let _ = frame.base_u64();
        let ghost v = va.view();
        let ghost s0 = *self;
        proof {
            lemma_indices_bounded(v);
            assert(self.frames@[root as int] % 4096 == 0);
            let e4 = self.entry(root as int, spec_pml4_index(v) as int);
            assert(self.entry_ok(root as int, spec_pml4_index(v) as int));
            lemma_zero_entry();
            if spec_present(e4) {
                let t3 = self.index_of(spec_entry_addr(e4));
                let w = choose|u: int| 0 <= u < self.n() && #[trigger] self.frames@[u] == spec_entry_addr(e4)
                    && self.level(u) == 3;
                assert(self.frames@[w] == spec_entry_addr(e4));
                self.lemma_index_of(w);
                assert(self.entry_ok(t3, spec_pdpt_index(v) as int));
            }
        }
        let c3 = self.get_mut_or_insert(root, va, allocator)?;
        let ghost s1 = *self;
        proof {
            lemma_zero_entry();
            self.lemma_index_of(c3 as int);
            assert(self.frames@[c3 as int] % 4096 == 0);
            assert(self.entry_ok(c3 as int, spec_pdpt_index(v) as int));
        }
        let c2 = self.get_mut_or_insert(c3, va, allocator)?;
        let ghost s2 = *self;
        proof {
            self.lemma_index_of(c2 as int);
            assert(self.frames@[c2 as int] % 4096 == 0);
        }
        let c1 = self.get_mut_or_insert(c2, va, allocator)?;
        let ghost s3 = *self;
        proof {
            self.lemma_index_of(c1 as int);
            assert(self.frames@[c1 as int] % 4096 == 0);
        }
        let i1 = va.get_page_table_idx() as usize;
        let mut e = self.get_entry(c1, i1);
        e.set_addr(frame.base_addr());
        flags.set_for_entry(&mut e);
        let ghost sl = *self;
        proof {
            assert(self.entry(c1 as int, i1 as int) == sl.entry(c1 as int, i1 as int));
        }
        self.set_entry(c1, i1, e);
        proof {
            let ghost s4 = *self;
            lemma_entry_ok_kept(&s3, &s4, c1 as int, i1 as int);
            lemma_tree_after_write(&s3, &s4, c1 as int, i1 as int);
            assert(s3.entry_ok(c1 as int, i1 as int));
            assert forall|t: int, j: int| 0 <= t < self.n() && 0 <= j < 512 implies #[trigger] self.entry_ok(t, j) by {
                if t == c1 && j == i1 {
                    assert(self.level(t) == 1);
                }
            }
            assert(self.wf());
            assert forall|rt: int, w: u64|
                0 <= rt < s0.n() && s0.level(rt) == 4
                    implies (#[trigger] self.huge_at(rt, w) == s0.huge_at(rt, w)) by {
                assert(s1.huge_at(rt, w) == s0.huge_at(rt, w));
                assert(s2.huge_at(rt, w) == s1.huge_at(rt, w));
                assert(s3.huge_at(rt, w) == s2.huge_at(rt, w));
                lemma_leaf_write_keeps_huge(&s3, self, c1 as int, i1 as int, rt, w);
            }
            // The path links survive the later writes.
            let i4 = spec_pml4_index(v) as int;
            let i3 = spec_pdpt_index(v) as int;
            let i2 = spec_pd_index(v) as int;
            assert(self.entry(root as int, i4) == s1.entry(root as int, i4));
            assert(self.entry(c3 as int, i3) == s2.entry(c3 as int, i3));
            assert(self.entry(c2 as int, i2) == s3.entry(c2 as int, i2));
            assert(self.frames@[c3 as int] == s1.frames@[c3 as int]);
            assert(self.frames@[c2 as int] == s2.frames@[c2 as int]);
            assert(self.frames@[c1 as int] == s3.frames@[c1 as int]);
            self.lemma_index_of(c3 as int);
            self.lemma_index_of(c2 as int);
            self.lemma_index_of(c1 as int);
            let e4 = self.entry(root as int, i4);
            assert(spec_is_link(e4));
            assert(self.index_of(spec_entry_addr(e4)) == c3);
            let e3 = self.entry(c3 as int, i3);
            assert(spec_is_link(e3));
            assert(self.index_of(spec_entry_addr(e3)) == c2);
            let e2 = self.entry(c2 as int, i2);
            assert(spec_is_link(e2));
            assert(self.index_of(spec_entry_addr(e2)) == c1);
            let el = self.entry(c1 as int, spec_pt_index(v) as int);
            assert(el == e.entry);
            assert(spec_entry_addr(el) == frame.view());
            assert(s3.entry(root as int, i4) == s1.entry(root as int, i4));
            assert(s3.entry(c3 as int, i3) == s2.entry(c3 as int, i3));
            s3.lemma_index_of(c3 as int);
            s3.lemma_index_of(c2 as int);
            s3.lemma_index_of(c1 as int);
            lemma_leaf_write_keeps_walks(&s3, self, root as int, v, c1 as int);
            assert forall|w: u64| !same_indices(w, v) && !mapped(s0, root as int, w) implies !#[trigger] mapped(
                *self,
                root as int,
                w,
            ) by {
                assert(!mapped(s1, root as int, w));
                assert(!mapped(s2, root as int, w));
                assert(!mapped(s3, root as int, w));
                assert(self.walk(root as int, w) == s3.walk(root as int, w));
            }
        }
        Ok(())
    }
}

} // verus!

verus! {

impl PageTableStore {
    /// The table occupying frame `f`, by searching; `None` when no table does.
    fn find_unique(&self, f: u64) -> (r: Option<usize>)
        requires
            self.frames@.len() == self.levels@.len(),
        ensures
            r matches Some(t) ==> t < self.n() && self.frames@[t as int] == f,
            r.is_none() ==> forall|t: int| 0 <= t < self.n() ==> self.frames@[t] != f,
    {
        let mut i: usize = 0;
        while i < self.frames.len()
            invariant
                i <= self.n(),
                forall|t: int| 0 <= t < i ==> self.frames@[t] != f,
            decreases self.n() - i,
        {
            if self.frames[i] == f {
                return Some(i);
            }
            i += 1;
        }
        None
    }

    /// The sizes, frames and levels part of `wf`.
    pub open spec fn shape_ok(&self) -> bool {
        &&& self.levels@.len() == self.n()
        &&& self.entries@.len() == self.n() * 512
        &&& forall|t1: int, t2: int|
            0 <= t1 < self.n() && 0 <= t2 < self.n() && #[trigger] self.frames@[t1]
                == #[trigger] self.frames@[t2] ==> t1 == t2
        &&& forall|t: int|
            0 <= t < self.n() ==> #[trigger] self.frames@[t] % 4096 == 0 && self.frames@[t]
                < PHYSADDR_LIMIT && 1 <= self.level(t) <= 4
    }

    fn check_shape(&self) -> (r: bool)
        ensures
            r == self.shape_ok(),
    {
        let n = self.frames.len();
        let el = self.entries.len();
        if self.levels.len() != n || n > usize::MAX / 512 {
            return false;
        }
        if el != n * 512 {
            return false;
        }
        let mut i: usize = 0;
        while i < n
            invariant
                n == self.n(),
                self.levels@.len() == n,
                i <= n,
                forall|t1: int, t2: int| 0 <= t1 < i && 0 <= t2 < n && self.frames@[t1] == self.frames@[t2] ==> t1 == t2,
                forall|t: int| 0 <= t < i ==> #[trigger] self.frames@[t] % 4096 == 0 && self.frames@[t] < PHYSADDR_LIMIT
                    && 1 <= self.level(t) <= 4,
            decreases n - i,
        {
            let f = self.frames[i];
            let l = self.levels[i];
            if f % 4096 != 0 || f >= PHYSADDR_LIMIT || l < 1 || l > 4 {
                return false;
            }
            let mut k: usize = 0;
            while k < n
                invariant
                    n == self.n(),
                    i < n,
                    k <= n,
                    f == self.frames@[i as int],
                    forall|t2: int| 0 <= t2 < k && self.frames@[t2] == f ==> t2 == i,
                decreases n - k,
            {
                if k != i && self.frames[k] == f {
                    return false;
                }
                k += 1;
            }
            i += 1;
        }
        true
    }

    /// The entries part of `wf`.
    pub open spec fn entries_ok(&self) -> bool {
        forall|t: int, j: int| 0 <= t < self.n() && 0 <= j < 512 ==> #[trigger] self.entry_ok(t, j)
    }

    fn check_entries(&self) -> (r: bool)
        requires
            self.shape_ok(),
        ensures
            r == self.entries_ok(),
    {
        proof {
            crate::entry::lemma_zero_entry();
        }
        let n = self.frames.len();
        let mut t: usize = 0;
        while t < n
            invariant
                self.shape_ok(),
                n == self.n(),
                t <= n,
                forall|t0: int, j: int| 0 <= t0 < t && 0 <= j < 512 ==> #[trigger] self.entry_ok(t0, j),
            decreases n - t,
        {
            let level = self.levels[t];
            proof {
                assert(self.frames@[t as int] % 4096 == 0);
            }
            let mut j: usize = 0;
            while j < NUM_PAGE_TABLE_ENTRIES
                invariant
                    self.shape_ok(),
                    n == self.n(),
                    t < n,
                    level == self.levels@[t as int],
                    1 <= level <= 4,
                    j <= 512,
                    forall|t0: int, j0: int| 0 <= t0 < t && 0 <= j0 < 512 ==> #[trigger] self.entry_ok(t0, j0),
                    forall|j0: int| 0 <= j0 < j ==> #[trigger] self.entry_ok(t as int, j0),
                decreases 512 - j,
            {
                let e = self.get_entry_shaped(t, j);
                if level >= 2 && e.entry != 0 {
                    let huge_leaf = level == 3 && e.present() && e.page_size();
                    if !huge_leaf {
                        if !(e.present() && !e.page_size() && e.write() && !e.no_exec()) {
                            proof {
                                assert(!self.entry_ok(t as int, j as int));
                            }
                            return false;
                        }
                        let a = e.addr().as_u64();
                        match self.find_unique(a) {
                            Some(u) => {
                                if self.levels[u] != level - 1 {
                                    proof {
                                        assert forall|w: int| 0 <= w < self.n() && #[trigger] self.frames@[w] == a implies self.level(w) != level - 1 by {
                                            assert(w == u);
                                        }
                                        assert(!self.entry_ok(t as int, j as int));
                                    }
                                    return false;
                                }
                            },
                            None => {
                                proof {
                                    assert(!self.entry_ok(t as int, j as int));
                                }
                                return false;
                            },
                        }
                    }
                }
                j += 1;
            }
            t += 1;
        }
        true
    }

    /// Entry `j` of table `t` of a store whose sizes are right.
    fn get_entry_shaped(&self, t: usize, j: usize) -> (r: PageTableEntry)
        requires
            self.shape_ok(),
            t < self.n(),
            j < 512,
        ensures
            r.entry == self.entry(t as int, j as int),
    {
        proof {
            assert(t * 512 + j < self.n() * 512);
            assert(self.entries@.len() == self.entries.len());
        }
        self.entries[t * 512 + j]
    }
}

} // verus!

verus! {

/// Slot `(t0, j0)` comes before slot `(t, j)` in table-major order.
pub open spec fn slot_before(t0: int, j0: int, t: int, j: int) -> bool {
    t0 < t || (t0 == t && j0 < j)
}

impl PageTableStore {
    /// Slot `(t, j)` links to the table in frame `frames[u]`.
    pub open spec fn targets(&self, t: int, j: int, u: int) -> bool {
        self.link_at(t, j) && spec_entry_addr(self.entry(t, j)) == self.frames@[u]
    }

    fn check_tree(&self) -> (r: bool)
        requires
            self.shape_ok(),
            self.entries_ok(),
        ensures
            r == self.tree(),
    {
        let n = self.frames.len();
        let mut seen: Vec<bool> = Vec::new();
        let mut k: usize = 0;
        while k < n
            invariant
                k <= n,
                seen@.len() == k,
                forall|u: int| 0 <= u < k ==> !#[trigger] seen@[u],
            decreases n - k,
        {
            seen.push(false);
            k += 1;
        }
        let mut t: usize = 0;
        while t < n
            invariant
                self.shape_ok(),
                self.entries_ok(),
                n == self.n(),
                t <= n,
                seen@.len() == n,
                forall|u: int|
                    0 <= u < n ==> (#[trigger] seen@[u] <==> exists|t0: int, j0: int|
                        slot_before(t0, j0, t as int, 0) && 0 <= j0 < 512 && #[trigger] self.targets(t0, j0, u)),
                forall|t1: int, j1: int, t2: int, j2: int|
                    slot_before(t1, j1, t as int, 0) && slot_before(t2, j2, t as int, 0) && #[trigger] self.link_at(t1, j1)
                        && #[trigger] self.link_at(t2, j2) && spec_entry_addr(self.entry(t1, j1)) == spec_entry_addr(
                        self.entry(t2, j2),
                    ) ==> t1 == t2 && j1 == j2,
            decreases n - t,
        {
            let level = self.levels[t];
            proof {
                assert(self.frames@[t as int] % 4096 == 0);
            }
            let mut j: usize = 0;
            while j < NUM_PAGE_TABLE_ENTRIES
                invariant
                    self.shape_ok(),
                    self.entries_ok(),
                    n == self.n(),
                    t < n,
                    level == self.levels@[t as int],
                    j <= 512,
                    seen@.len() == n,
                    forall|u: int|
                        0 <= u < n ==> (#[trigger] seen@[u] <==> exists|t0: int, j0: int|
                            slot_before(t0, j0, t as int, j as int) && 0 <= j0 < 512 && #[trigger] self.targets(t0, j0, u)),
                    forall|t1: int, j1: int, t2: int, j2: int|
                        slot_before(t1, j1, t as int, j as int) && slot_before(t2, j2, t as int, j as int)
                            && #[trigger] self.link_at(t1, j1) && #[trigger] self.link_at(t2, j2) && spec_entry_addr(
                            self.entry(t1, j1),
                        ) == spec_entry_addr(self.entry(t2, j2)) ==> t1 == t2 && j1 == j2,
                decreases 512 - j,
            {
                let e = self.get_entry_shaped(t, j);
                if level >= 2 && e.present() && !e.page_size() {
                    proof {
                        assert(self.entry_ok(t as int, j as int));
                        crate::entry::lemma_zero_entry();
                    }
                    let a = e.addr().as_u64();
                    let u = match self.find_unique(a) {
                        Some(u) => u,
                        None => {
                            proof {
                                let w = choose|w: int| 0 <= w < self.n() && #[trigger] self.frames@[w] == a
                                    && self.level(w) == self.level(t as int) - 1;
                                assert(self.frames@[w] == a);
                            }
                            return false;
                        },
                    };
                    proof {
                        assert(self.targets(t as int, j as int, u as int));
                    }
                    if seen[u] {
                        proof {
                            let (t0, j0) = choose|t0: int, j0: int|
                                slot_before(t0, j0, t as int, j as int) && 0 <= j0 < 512 && #[trigger] self.targets(t0, j0, u as int);
                            assert(self.link_at(t0, j0) && self.link_at(t as int, j as int));
                        }
                        return false;
                    }
                    let ghost seen0 = seen@;
                    seen.set(u, true);
                    proof {
                        assert forall|v: int| 0 <= v < n implies (#[trigger] seen@[v] <==> exists|t0: int, j0: int|
                            slot_before(t0, j0, t as int, j + 1) && 0 <= j0 < 512 && #[trigger] self.targets(t0, j0, v)) by {
                            if v == u {
                                assert(slot_before(t as int, j as int, t as int, j + 1) && self.targets(t as int, j as int, v));
                            } else {
                                if exists|t0: int, j0: int| slot_before(t0, j0, t as int, j + 1) && 0 <= j0 < 512 && #[trigger] self.targets(t0, j0, v) {
                                    let (t0, j0) = choose|t0: int, j0: int| slot_before(t0, j0, t as int, j + 1) && 0 <= j0 < 512 && #[trigger] self.targets(t0, j0, v);
                                    if t0 == t && j0 == j {
                                        assert(self.frames@[v] == self.frames@[u as int]);
                                    }
                                    assert(slot_before(t0, j0, t as int, j as int));
                                }
                            }
                        }
                        assert forall|t1: int, j1: int, t2: int, j2: int|
                            slot_before(t1, j1, t as int, j + 1) && slot_before(t2, j2, t as int, j + 1)
                                && #[trigger] self.link_at(t1, j1) && #[trigger] self.link_at(t2, j2) && spec_entry_addr(
                                self.entry(t1, j1),
                            ) == spec_entry_addr(self.entry(t2, j2)) implies t1 == t2 && j1 == j2 by {
                            if t1 == t && j1 == j && !(t2 == t && j2 == j) {
                                assert(self.targets(t2, j2, u as int));
                                assert(seen0[u as int]);
                            } else if t2 == t && j2 == j && !(t1 == t && j1 == j) {
                                assert(self.targets(t1, j1, u as int));
                                assert(seen0[u as int]);
                            }
                        }
                    }
                } else {
                    proof {
                        assert(!self.link_at(t as int, j as int));
                        assert forall|v: int| 0 <= v < n implies (#[trigger] seen@[v] <==> exists|t0: int, j0: int|
                            slot_before(t0, j0, t as int, j + 1) && 0 <= j0 < 512 && #[trigger] self.targets(t0, j0, v)) by {
                            if exists|t0: int, j0: int| slot_before(t0, j0, t as int, j + 1) && 0 <= j0 < 512 && #[trigger] self.targets(t0, j0, v) {
                                let (t0, j0) = choose|t0: int, j0: int| slot_before(t0, j0, t as int, j + 1) && 0 <= j0 < 512 && #[trigger] self.targets(t0, j0, v);
                                assert(slot_before(t0, j0, t as int, j as int));
                            }
                        }
                    }
                }
                j += 1;
            }
            proof {
                assert forall|v: int| 0 <= v < n implies (#[trigger] seen@[v] <==> exists|t0: int, j0: int|
                    slot_before(t0, j0, t + 1, 0) && 0 <= j0 < 512 && #[trigger] self.targets(t0, j0, v)) by {
                    if exists|t0: int, j0: int| slot_before(t0, j0, t + 1, 0) && 0 <= j0 < 512 && #[trigger] self.targets(t0, j0, v) {
                        let (t0, j0) = choose|t0: int, j0: int| slot_before(t0, j0, t + 1, 0) && 0 <= j0 < 512 && #[trigger] self.targets(t0, j0, v);
                        assert(slot_before(t0, j0, t as int, 512));
                    }
                }
            }
            t += 1;
        }
        true
    }

    /// Checks the store's invariant.
    pub fn check_wf(&self) -> (r: bool)
        ensures
            r == self.wf(),
    {
        if !self.check_shape() {
            return false;
        }
        if !self.check_entries() {
            return false;
        }
        self.check_tree()
    }
}

} // verus!
