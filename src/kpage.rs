use vstd::prelude::*;
use crate::addr::{lemma_indices_bounded, spec_pd_index, spec_pdpt_index, spec_pml4_index, spec_pt_index, Address, PhysAddr, PhysFrame, VirtAddr, VirtPage};
use crate::entry::{spec_entry_addr, spec_present, spec_page_size, PageTableEntry};
use crate::paging::{MapError, MappingFlags, PageMapAllocator, PageTableStore, MAX_TABLES};
use crate::phys::PhysFrameAllocator;

verus! {

/// The kinds of kernel mapping.
#[derive(Clone, Copy, PartialEq, Eq, Structural, Debug)]
pub enum MappingType {
    /// Readable and writable data: present, writable, not executable.
    DataRw,
}

impl MappingType {
    /// The rights of this kind of mapping.
    pub open spec fn spec_flags(&self) -> MappingFlags {
        match self {
            MappingType::DataRw => MappingFlags { execute: false, write: true, present: true },
        }
    }

    pub fn flags(&self) -> (r: MappingFlags)
        ensures
            r == self.spec_flags(),
    {
        match self {
            MappingType::DataRw => MappingFlags::new_rw_data(),
        }
    }

    /// Writes this kind's rights into `entry`.
    pub fn apply(&self, entry: &mut PageTableEntry)
        ensures
            crate::paging::spec_has_flags(final(entry).entry, self.spec_flags()),
            spec_entry_addr(final(entry).entry) == spec_entry_addr(old(entry).entry),
            spec_page_size(final(entry).entry) == spec_page_size(old(entry).entry),
    {
        self.flags().set_for_entry(entry);
    }
}

/// The active page tables as the kernel edits them, from the PML4 that CR3 names.
pub struct KernelPageTables {
    pub tables: PageTableStore,
    pub root: usize,
    pub level_4_phys_addr: PhysAddr,
}

impl KernelPageTables {
    pub open spec fn wf(&self) -> bool {
        &&& self.tables.wf()
        &&& self.root < self.tables.n()
        &&& self.tables.level(self.root as int) == 4
        &&& self.tables.frames@[self.root as int] == self.level_4_phys_addr.view()
    }

    /// Takes over the tables whose PML4 sits in frame `cr3`; `None` when the tables break the
    /// store's invariant or no PML4 sits there.
    pub fn new(tables: PageTableStore, cr3: u64) -> (r: Option<KernelPageTables>)
        ensures
            r matches Some(k) ==> k.wf() && k.level_4_phys_addr.view() == cr3 && k.tables == tables,
            r.is_none() <==> !tables.wf() || forall|t: int| 0 <= t < tables.n() && tables.level(t) == 4 ==> tables.frames@[t] != cr3,
    {
        if !tables.check_wf() {
            return None;
        }
        match tables.find(cr3) {
            Some(root) => {
                if tables.level_of(root) == 4 {
                    let addr = tables.frame_of(root).base_addr();
                    Some(KernelPageTables { tables, root, level_4_phys_addr: addr })
                } else {
                    proof {
                        assert forall|t: int| 0 <= t < tables.n() && tables.level(t) == 4 implies tables.frames@[t] != cr3 by {
                            if tables.frames@[t] == cr3 {
                                assert(tables.frames@[root as int] == cr3);
                            }
                        }
                    }
                    None
                }
            },
            None => None,
        }
    }

    /// Whether the walk for `addr` ends in a 1 GiB huge-page entry.
    pub fn is_huge_at(&self, addr: VirtAddr) -> (r: bool)
        requires
            self.wf(),
        ensures
            r == self.tables.huge_at(self.root as int, addr.view()),
    {
        let ghost v = addr.view();
        proof {
            lemma_indices_bounded(v);
            self.tables.lemma_walk_levels(self.root as int, v);
        }
        let e4 = self.tables.get_entry(self.root, addr.get_page_map_l4_idx() as usize);
        if !e4.present() {
            return false;
        }
        let t3 = self.tables.find(e4.addr().as_u64()).unwrap();
        let e3 = self.tables.get_entry(t3, addr.get_page_dir_ptr_idx() as usize);
        e3.present() && e3.page_size()
    }

    /// The entry that translates `addr`: the level 1 entry, or the level 3 entry of a 1 GiB page;
    /// `None` when an intermediate entry on the way is not present.
    pub fn get_entry(&self, addr: VirtAddr) -> (r: Option<PageTableEntry>)
        requires
            self.wf(),
        ensures
            r matches Some(e) ==> self.tables.walk(self.root as int, addr.view()) == Some(e.entry),
            r.is_none() ==> self.tables.walk(self.root as int, addr.view()).is_none(),
    {
        let ghost v = addr.view();
        proof {
            lemma_indices_bounded(v);
            self.tables.lemma_walk_levels(self.root as int, v);
        }
        let e4 = self.tables.get_entry(self.root, addr.get_page_map_l4_idx() as usize);
        if !e4.present() {
            return None;
        }
        let t3 = self.tables.find(e4.addr().as_u64()).unwrap();
        let e3 = self.tables.get_entry(t3, addr.get_page_dir_ptr_idx() as usize);
        if !e3.present() {
            return None;
        }
        if e3.page_size() {
            return Some(e3);
        }
        let t2 = self.tables.find(e3.addr().as_u64()).unwrap();
        let e2 = self.tables.get_entry(t2, addr.get_page_dir_idx() as usize);
        if !e2.present() {
            return None;
        }
        let t1 = self.tables.find(e2.addr().as_u64()).unwrap();
        Some(self.tables.get_entry(t1, addr.get_page_table_idx() as usize))
    }

    /// Maps `page` onto a fresh frame from `allocator` with the rights of `ty`; returns the frame.
    pub fn alloc_and_map_page(
        &mut self,
        page: VirtPage,
        ty: MappingType,
        allocator: &mut PhysFrameAllocator,
    ) -> (r: Result<PhysFrame, MapError>)
        requires
            old(self).wf(),
            old(allocator).wf(),
            !old(self).tables.huge_at(old(self).root as int, page.view()),
        ensures
            final(self).wf(),
            final(self).root == old(self).root,
            final(allocator).wf(),
            r matches Ok(f) ==> final(self).tables.maps_to(final(self).root as int, page.view(), f.view(), ty.spec_flags())
                && old(allocator).is_free(f.view() as int / 4096) && !final(allocator).is_free(f.view() as int / 4096)
                && final(allocator).bitmap.bit(f.view() as int / 4096),
            forall|w: u64|
                (#[trigger] old(self).tables.walk(old(self).root as int, w)).is_some() && !crate::paging::same_indices(w, page.view())
                    ==> final(self).tables.walk(final(self).root as int, w) == old(self).tables.walk(old(self).root as int, w),
            forall|w: u64| #[trigger] final(self).tables.huge_at(final(self).root as int, w) == old(self).tables.huge_at(old(self).root as int, w),
            r matches Err(e) ==> e is OutOfFrames || e is FrameInUse,
            old(self).tables.issued_by(old(allocator)) ==> final(self).tables.issued_by(final(allocator)),
            final(allocator).spec_frames_left() >= old(allocator).spec_frames_left() - 4,
            final(self).tables.n() <= old(self).tables.n() + 3,
            old(self).tables.issued_by(old(allocator)) && old(allocator).spec_frames_left() >= 4
                && old(self).tables.n() + 3 < MAX_TABLES ==> r.is_ok(),
    {
        let frame = match allocator.alloc_frame() {
            Some(f) => f,
            None => {
                return Err(MapError::OutOfFrames);
            },
        };
        proof {
            if old(self).tables.issued_by(old(allocator)) {
                assert forall|t: int| 0 <= t < self.tables.n() implies allocator.spec_issued(#[trigger] self.tables.frames@[t]) by {
                    let x = self.tables.frames@[t];
                    assert(old(allocator).spec_issued(x));
                    let k = (x as int) / 4096;
                    if k != frame.view() as int / 4096 && 0 <= k < allocator.num_frames {
                        assert(allocator.bitmap.bits()[k] == old(allocator).bitmap.bits()[k]);
                    }
                }
            }
        }
        let ghost a1 = *allocator;
        let root = self.root;
        let flags = ty.flags();
        let ghost t0 = self.tables;
        let res = self.tables.map_page(root, frame, page, allocator, flags);
        proof {
            assert(self.tables.frames@[root as int] == t0.frames@[root as int]);
            let k = frame.view() as int / 4096;
            assert(a1.bitmap.bits()[k]);
            assert(a1.bitmap.bits()[k] == a1.bitmap.bit(k));
            assert(a1.spec_issued(frame.view()));
            assert(allocator.spec_issued(frame.view()));
            assert(allocator.spec_extent() == a1.spec_extent());
        }
        match res {
            Ok(()) => Ok(frame),
            Err(e) => Err(e),
        }
    }
}

} // verus!
