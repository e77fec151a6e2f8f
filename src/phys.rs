use vstd::prelude::*;
use crate::addr::{Page, PageRange, PhysFrame, PAGE_SIZE, PHYSADDR_LIMIT};
use crate::boot_info::{MemRegion, RegionType};
use crate::paging::PageMapAllocator;

verus! {

/// Bit `b` (0 = most significant) of `byte`.
pub open spec fn spec_byte_bit(byte: u8, b: int) -> bool {
    (byte >> ((7 - b) as u8)) & 1 == 1
}

/// Setting or clearing bit `b` of a byte sets that bit as asked and leaves bit `c`.
proof fn lemma_bits_u8(byte: u8, b: u8, c: u8)
    requires
        b < 8,
        c < 8,
    ensures
        spec_byte_bit(byte | (1u8 << (7 - b) as u8), b as int),
        !spec_byte_bit(byte & !(1u8 << (7 - b) as u8), b as int),
        c != b ==> spec_byte_bit(byte | (1u8 << (7 - b) as u8), c as int) == spec_byte_bit(byte, c as int),
        c != b ==> spec_byte_bit(byte & !(1u8 << (7 - b) as u8), c as int) == spec_byte_bit(byte, c as int),
{
    let m = 1u8 << (7 - b) as u8;
    let sb = (7 - b) as u8;
    let sc = (7 - c) as u8;
    assert(b < 8 && c < 8 && sb == 7 - b && sc == 7 - c && m == 1u8 << sb ==> ((byte | m) >> sb) & 1 == 1
        && ((byte & !m) >> sb) & 1 == 0 && (c != b ==> ((byte | m) >> sc) & 1 == (byte >> sc) & 1 && ((byte
        & !m) >> sc) & 1 == (byte >> sc) & 1)) by (bit_vector);
    assert(((7 - (b as int)) as u8) == sb);
    assert(((7 - (c as int)) as u8) == sc);
}

/// One bit per frame, most significant bit first within each byte: 1 = allocated, 0 = free.
pub struct Bitmap {
    pub map: Vec<u8>,
}

impl Bitmap {
    /// The status of frame number `i`.
    pub open spec fn bit(&self, i: int) -> bool {
        spec_byte_bit(self.map@[i / 8], i % 8)
    }

    /// The bits of all frames the map covers.
    pub open spec fn bits(&self) -> Seq<bool> {
        Seq::new((self.map@.len() * 8) as nat, |i: int| self.bit(i))
    }

    /// A map of `len` bytes, every frame free.
    pub fn new(len: u64) -> (r: Bitmap)
        ensures
            r.map@.len() == len,
            forall|i: int| 0 <= i < len * 8 ==> !#[trigger] r.bit(i),
    {
        let mut map: Vec<u8> = Vec::new();
        let mut k: u64 = 0;
        while k < len
            invariant
                k <= len,
                map@.len() == k,
                forall|j: int| 0 <= j < k ==> #[trigger] map@[j] == 0,
            decreases len - k,
        {
            map.push(0);
            k += 1;
        }
        proof {
            assert forall|i: int| 0 <= i < len * 8 implies !#[trigger] spec_byte_bit(map@[i / 8], i % 8) by {
                assert(map@[i / 8] == 0);
                let c = (i % 8) as u8;
                assert(c < 8 ==> (0u8 >> (7 - c) as u8) & 1 == 0) by (bit_vector);
            }
        }
        Bitmap { map }
    }

    /// Marks frame number `idx` allocated (`allocated`) or free.
    pub fn write(&mut self, idx: u64, allocated: bool)
        requires
            idx < old(self).map@.len() * 8,
        ensures
            final(self).map@.len() == old(self).map@.len(),
            final(self).bit(idx as int) == allocated,
            forall|i: int| 0 <= i < old(self).map@.len() * 8 && i != idx ==> #[trigger] final(self).bit(i) == old(self).bit(i),
            final(self).bits() == old(self).bits().update(idx as int, allocated),
    {
        let len = self.map.len();
        proof {
            assert(idx / 8 < len);
        }
        let byte_idx = (idx / 8) as usize;
        let bit_idx = (idx % 8) as u8;
        let byte = self.map[byte_idx];
        let mask: u8 = 1u8 << (7 - bit_idx);
        let nb: u8 = if allocated { byte | mask } else { byte & !mask };
        proof {
            lemma_bits_u8(byte, bit_idx, bit_idx);
        }
        self.map.set(byte_idx, nb);
        proof {
            assert forall|i: int| 0 <= i < old(self).map@.len() * 8 && i != idx implies #[trigger] self.bit(i) == old(self).bit(i) by {
                if i / 8 == byte_idx as int {
                    assert(i % 8 != idx % 8) by (nonlinear_arith)
                        requires
                            i / 8 == idx / 8,
                            i != idx,
                            i >= 0,
                            idx >= 0,
                    ;
                    lemma_bits_u8(byte, bit_idx, (i % 8) as u8);
                }
            }
            assert(self.bits() =~= old(self).bits().update(idx as int, allocated)) by {
                assert forall|i: int| 0 <= i < self.bits().len() implies #[trigger] self.bits()[i] == old(self).bits().update(idx as int, allocated)[i] by {
                    if i != idx {
                        assert(self.bit(i) == old(self).bit(i));
                    }
                }
            }
        }
    }

    /// Whether frame number `idx` is allocated.
    pub fn read(&self, idx: u64) -> (r: bool)
        requires
            idx < self.map@.len() * 8,
        ensures
            r == self.bit(idx as int),
    {
        let len = self.map.len();
        proof {
            assert(idx / 8 < len);
        }
        let byte = self.map[(idx / 8) as usize];
        let b = (idx % 8) as u8;
        let shifted = byte >> (7 - b);
        proof {
            assert((7 - b) as u8 == (7 - (idx % 8)) as u8);
            assert(shifted == byte >> ((7 - (idx % 8)) as u8));

        }
        shifted & 1 == 1
    }
}

/// How many of the first `n` bits are set.
pub open spec fn count_set(bits: Seq<bool>, n: int) -> nat
    decreases n,
{
    if n <= 0 {
        0
    } else {
        count_set(bits, n - 1) + if bits[n - 1] {
            1nat
        } else {
            0nat
        }
    }
}

/// Changing one of the first `n` bits changes the count by the difference.
proof fn lemma_count_update(bits: Seq<bool>, n: int, i: int, v: bool)
    requires
        0 <= i < n <= bits.len(),
    ensures
        count_set(bits.update(i, v), n) + (if bits[i] { 1int } else { 0int }) == count_set(bits, n) + (if v {
            1int
        } else {
            0int
        }),
    decreases n,
{
    if n - 1 > i {
        lemma_count_update(bits, n - 1, i, v);
    } else {
        assert(bits.update(i, v)[i] == v);
        lemma_count_same(bits, bits.update(i, v), i);
    }
}

/// Two sequences that agree below `n` count alike below `n`.
proof fn lemma_count_same(a: Seq<bool>, b: Seq<bool>, n: int)
    requires
        0 <= n <= a.len(),
        n <= b.len(),
        forall|j: int| 0 <= j < n ==> a[j] == b[j],
    ensures
        count_set(a, n) == count_set(b, n),
    decreases n,
{
    if n > 0 {
        lemma_count_same(a, b, n - 1);
    }
}

/// At most `n` of the first `n` bits are set, and fewer exactly when one of them is clear.
proof fn lemma_count_bound(bits: Seq<bool>, n: int)
    requires
        0 <= n <= bits.len(),
    ensures
        count_set(bits, n) <= n,
        count_set(bits, n) < n <==> exists|j: int| 0 <= j < n && !bits[j],
    decreases n,
{
    if n > 0 {
        lemma_count_bound(bits, n - 1);
        if !bits[n - 1] {
            assert(0 <= n - 1 < n && !bits[n - 1]);
        } else if count_set(bits, n) < n {
            let j = choose|j: int| 0 <= j < n - 1 && !bits[j];
            assert(0 <= j < n && !bits[j]);
        } else {
            assert forall|j: int| 0 <= j < n implies bits[j] by {
                if j < n - 1 && !bits[j] {
                    assert(exists|k: int| 0 <= k < n - 1 && !bits[k]);
                }
            }
        }
    }
}

/// The exclusive end address of the highest region.
pub open spec fn regions_end(rs: Seq<MemRegion>) -> int
    decreases rs.len(),
{
    if rs.len() == 0 {
        0
    } else {
        let rest = regions_end(rs.drop_last());
        if rs.last().end() > rest {
            rs.last().end()
        } else {
            rest
        }
    }
}

/// Regions cover whole frames below the physical address limit.
pub open spec fn regions_wf(rs: Seq<MemRegion>) -> bool {
    forall|i: int| 0 <= i < rs.len() ==> #[trigger] rs[i].start % 4096 == 0 && rs[i].end() < PHYSADDR_LIMIT
}

/// Frame number `i` lies in a region that is not Usable.
pub open spec fn reserved_frame(rs: Seq<MemRegion>, i: int) -> bool {
    exists|k: int|
        0 <= k < rs.len() && (#[trigger] rs[k]).ty != RegionType::Usable && rs[k].start <= i * 4096
            < rs[k].end()
}

/// Frame number `i` lies in a non-Usable region among the first `upto`.
pub open spec fn marked(rs: Seq<MemRegion>, upto: int, i: int) -> bool {
    exists|k: int|
        0 <= k < upto && (#[trigger] rs[k]).ty != RegionType::Usable && rs[k].start <= i * 4096 < rs[k].end()
}

/// A Usable region can hold `bytes` bytes of bitmap.
pub open spec fn can_hold(r: MemRegion, bytes: int) -> bool {
    r.ty == RegionType::Usable && r.pages * 4096 > bytes
}

/// True when `r` is Usable and larger than `bytes`.
fn region_can_hold(r: &MemRegion, bytes: u64) -> (b: bool)
    requires
        r.start + r.pages * 4096 < PHYSADDR_LIMIT,
    ensures
        b == can_hold(*r, bytes as int),
{
    r.ty == RegionType::Usable && r.pages * PAGE_SIZE > bytes
}

/// Manages all physical frames below the end of the highest region with a bitmap.
pub struct PhysFrameAllocator {
    pub bitmap: Bitmap,
    /// Frames `0 .. num_frames` are managed.
    pub num_frames: u64,
    /// The frames that hold the bitmap itself.
    pub storage: PageRange<PhysFrame>,
    pub allocated: u64,
}

impl PhysFrameAllocator {
    pub open spec fn wf(&self) -> bool {
        &&& self.num_frames <= self.bitmap.map@.len() * 8
        &&& self.num_frames <= PHYSADDR_LIMIT / 4096
        &&& self.storage.wf()
        &&& self.allocated == count_set(self.bitmap.bits(), self.num_frames as int)
    }

    /// How many managed frames are free.
    pub open spec fn free_count(&self) -> int {
        self.num_frames - self.allocated
    }

    /// Frame number `i` is managed and free.
    pub open spec fn is_free(&self, i: int) -> bool {
        0 <= i < self.num_frames && !self.bitmap.bit(i)
    }

    /// Builds the bitmap for `regions`: it lives at the start of the first Usable region that can
    /// hold it, and every frame of a non-Usable region and of the bitmap itself starts allocated.
    #[verifier::rlimit(50)]
    pub fn new(regions: &Vec<MemRegion>) -> (r: PhysFrameAllocator)
        requires
            regions_wf(regions@),
            exists|k: int| 0 <= k < regions@.len() && can_hold(#[trigger] regions@[k], (regions_end(regions@) / 4096 + 7) / 8),
        ensures
            r.wf(),
            r.num_frames == regions_end(regions@) / 4096,
            r.bitmap.map@.len() == (r.num_frames + 7) / 8,
            exists|k: int| 0 <= k < regions@.len() && can_hold(#[trigger] regions@[k], r.bitmap.map@.len() as int)
                && r.storage.spec_start() == regions@[k].start
                && forall|j: int| 0 <= j < k ==> !can_hold(#[trigger] regions@[j], r.bitmap.map@.len() as int),
            r.storage.spec_end() == r.storage.spec_start() + ((r.bitmap.map@.len() + 4095) / 4096) * 4096,
            forall|i: int|
                0 <= i < r.num_frames ==> (#[trigger] r.bitmap.bit(i) <==> (reserved_frame(regions@, i) || (
                r.storage.spec_start() <= i * 4096 < r.storage.spec_end()))),
            r.allocated == count_set(r.bitmap.bits(), r.num_frames as int),
    {
        let n = regions.len();
        let mut end: u64 = 0;
        let mut i: usize = 0;
        while i < n
            invariant
                n == regions@.len(),
                regions_wf(regions@),
                0 <= i <= n,
                end == regions_end(regions@.take(i as int)),
                end < PHYSADDR_LIMIT,
            decreases n - i,
        {
            let r = regions[i];
            proof {
                assert(regions@.take(i as int + 1).drop_last() == regions@.take(i as int));
                assert(regions@[i as int].end() < PHYSADDR_LIMIT);
            }
            let r_end = r.start + r.pages * PAGE_SIZE;
            if r_end > end {
                end = r_end;
            }
            i += 1;
        }
        proof {
            assert(regions@.take(n as int) == regions@);
        }
        let num_frames = end / PAGE_SIZE;
        let required_bytes = (num_frames + 7) / 8;
        let mut k: usize = 0;
        while k < n && !region_can_hold(&regions[k], required_bytes)
            invariant
                n == regions@.len(),
                regions_wf(regions@),
                0 <= k <= n,
                forall|j: int| 0 <= j < k ==> !can_hold(#[trigger] regions@[j], required_bytes as int),
                exists|j: int| 0 <= j < regions@.len() && can_hold(#[trigger] regions@[j], required_bytes as int),
            decreases n - k,
        {
            k += 1;
        }
        proof {
            if k == n {
                let j = choose|j: int| 0 <= j < regions@.len() && can_hold(#[trigger] regions@[j], required_bytes as int);
                assert(!can_hold(regions@[j], required_bytes as int));
            }
            assert(regions@[k as int].end() < PHYSADDR_LIMIT);
        }
        let home = regions[k];
        let storage_pages = (required_bytes + 4095) / PAGE_SIZE;
        proof {
            assert(storage_pages * 4096 <= home.pages * 4096) by (nonlinear_arith)
                requires
                    storage_pages == (required_bytes + 4095) / 4096,
                    home.pages * 4096 > required_bytes,
            ;
            assert((home.start + storage_pages * 4096) % 4096 == 0) by (nonlinear_arith)
                requires
                    home.start % 4096 == 0,
            ;
        }
        let storage = PageRange::new(
            PhysFrame::from_base_u64(home.start),
            PhysFrame::from_base_u64(home.start + storage_pages * PAGE_SIZE),
        );
        let mut bitmap = Bitmap::new(required_bytes);
        let mut j: usize = 0;
        while j < n
            invariant
                n == regions@.len(),
                regions_wf(regions@),
                0 <= j <= n,
                bitmap.map@.len() == required_bytes,
                num_frames <= required_bytes * 8,
                forall|i: int| 0 <= i < num_frames ==> (#[trigger] bitmap.bit(i) <==> marked(regions@, j as int, i)),
            decreases n - j,
        {
            let r = regions[j];
            proof {
                assert(regions@[j as int].end() < PHYSADDR_LIMIT);
                assert(regions@[j as int].start % 4096 == 0);
            }
            let ghost before = bitmap;
            if r.ty != RegionType::Usable {
                let first = r.start / PAGE_SIZE;
                let last = first + r.pages;
                let mut f = first;
                while f < last
                    invariant
                        first <= f <= last,
                        first * 4096 == r.start,
                        last == first + r.pages,
                        bitmap.map@.len() == required_bytes,
                        num_frames <= required_bytes * 8,
                        forall|i: int| 0 <= i < num_frames ==> (#[trigger] bitmap.bit(i) <==> (before.bit(i) || (first <= i < f))),
                    decreases last - f,
                {
                    if f < num_frames {
                        bitmap.write(f, true);
                    }
                    f += 1;
                }
            }
            proof {
                assert forall|i: int| 0 <= i < num_frames implies (#[trigger] bitmap.bit(i) <==> marked(regions@, j + 1, i)) by {
                    if marked(regions@, j + 1, i) && !marked(regions@, j as int, i) {
                        let w = choose|w: int| 0 <= w < j + 1 && (#[trigger] regions@[w]).ty != RegionType::Usable && regions@[w].start <= i * 4096 < regions@[w].end();
                        assert(w == j);
                    }
                    if r.ty != RegionType::Usable && r.start / 4096 <= i < r.start / 4096 + r.pages {
                        assert(regions@[j as int].start <= i * 4096 < regions@[j as int].end());
                    }
                }
            }
            j += 1;
        }
        let ghost marked_all = bitmap;
        let s0 = home.start / PAGE_SIZE;
        proof {
            assert(s0 * 4096 == home.start);
            assert(home.start + storage_pages * 4096 < PHYSADDR_LIMIT);
            assert(s0 + storage_pages < PHYSADDR_LIMIT) by (nonlinear_arith)
                requires
                    s0 * 4096 + storage_pages * 4096 < PHYSADDR_LIMIT,
            ;
        }
        let mut f = s0;
        let s_end = s0 + storage_pages;
        while f < s_end
            invariant
                s0 * 4096 == home.start,
                s_end == s0 + storage_pages,
                s0 <= f <= s_end,
                bitmap.map@.len() == required_bytes,
                num_frames <= required_bytes * 8,
                forall|i: int| 0 <= i < num_frames ==> (#[trigger] bitmap.bit(i) <==> (marked_all.bit(i) || (s0 <= i < f))),
            decreases s_end - f,
        {
            if f < num_frames {
                bitmap.write(f, true);
            }
            f += 1;
        }
        let mut allocated: u64 = 0;
        let mut i: u64 = 0;
        while i < num_frames
            invariant
                i <= num_frames,
                allocated <= i,
                allocated == count_set(bitmap.bits(), i as int),
                num_frames <= bitmap.map@.len() * 8,
            decreases num_frames - i,
        {
            if bitmap.read(i) {
                allocated += 1;
            }
            proof {
                assert(bitmap.bits()[i as int] == bitmap.bit(i as int));
            }
            i += 1;
        }
        proof {
            assert(regions@.take(n as int) == regions@);
            assert forall|i: int| 0 <= i < num_frames implies (#[trigger] bitmap.bit(i) <==> (reserved_frame(regions@, i) || (
                storage.spec_start() <= i * 4096 < storage.spec_end()))) by {
                if marked(regions@, n as int, i) {
                    let w = choose|w: int| 0 <= w < n && (#[trigger] regions@[w]).ty != RegionType::Usable && regions@[w].start <= i * 4096 < regions@[w].end();
                    assert(regions@[w].ty != RegionType::Usable);
                }
                if reserved_frame(regions@, i) {
                    let w = choose|w: int| 0 <= w < regions@.len() && (#[trigger] regions@[w]).ty != RegionType::Usable && regions@[w].start <= i * 4096 < regions@[w].end();
                    assert(marked(regions@, n as int, i));
                }
            }
            assert(can_hold(regions@[k as int], required_bytes as int));
        }
        PhysFrameAllocator { bitmap, num_frames, storage, allocated }
    }
}

impl PhysFrameAllocator {
    /// Allocates the lowest free frame, or `None` when every managed frame is allocated.
    pub fn alloc_frame(&mut self) -> (r: Option<PhysFrame>)
        requires
            old(self).wf(),
        ensures
            final(self).wf(),
            final(self).num_frames == old(self).num_frames,
            final(self).storage == old(self).storage,
            r.is_none() <==> forall|j: int| 0 <= j < old(self).num_frames ==> !#[trigger] old(self).is_free(j),
            r matches Some(f) ==> {
                &&& old(self).is_free(f.view() as int / 4096)
                &&& f.view() % 4096 == 0
                &&& forall|j: int| 0 <= j < f.view() as int / 4096 ==> !#[trigger] old(self).is_free(j)
                &&& final(self).bitmap.bits() == old(self).bitmap.bits().update(f.view() as int / 4096, true)
                &&& final(self).allocated == old(self).allocated + 1
            },
            r.is_none() ==> *final(self) == *old(self),
            r.is_some() <==> old(self).free_count() > 0,
    {
        proof {
            lemma_count_bound(self.bitmap.bits(), self.num_frames as int);
        }
        let mut i: u64 = 0;
        while i < self.num_frames
            invariant
                self.wf(),
                *self == *old(self),
                i <= self.num_frames,
                forall|j: int| 0 <= j < i ==> !#[trigger] self.is_free(j),
            decreases self.num_frames - i,
        {
            if !self.bitmap.read(i) {
                proof {
                    let bits = self.bitmap.bits();
                    assert(bits[i as int] == self.bitmap.bit(i as int));
                    assert(old(self).is_free(i as int));
                    lemma_count_bound(bits, self.num_frames as int);
                    lemma_count_update(bits, self.num_frames as int, i as int, true);
                }
                self.bitmap.write(i, true);
                self.allocated = self.allocated + 1;
                let f = PhysFrame::from_base_u64(i * PAGE_SIZE);
                return Some(f);
            }
            i += 1;
        }
        proof {
            assert forall|j: int| 0 <= j < self.num_frames implies self.bitmap.bits()[j] by {
                assert(!self.is_free(j));
            }
        }
        None
    }

    /// Marks `frame` free again.
    pub fn free_frame(&mut self, frame: PhysFrame)
        requires
            old(self).wf(),
            frame.view() as int / 4096 < old(self).num_frames,
            old(self).bitmap.bit(frame.view() as int / 4096),
        ensures
            final(self).wf(),
            final(self).num_frames == old(self).num_frames,
            final(self).storage == old(self).storage,
            final(self).bitmap.bits() == old(self).bitmap.bits().update(frame.view() as int / 4096, false),
            final(self).allocated == old(self).allocated - 1,
    {
        let idx = frame.idx();
        proof {
            let bits = self.bitmap.bits();
            assert(bits[idx as int] == self.bitmap.bit(idx as int));
            lemma_count_update(bits, self.num_frames as int, idx as int, false);
        }
        self.bitmap.write(idx, false);
        self.allocated = self.allocated - 1;
    }

    /// Allocated frames and managed frames, for reporting.
    pub fn print_stats(&self) -> (r: (u64, u64))
        ensures
            r == (self.allocated, self.num_frames),
    {
        (self.allocated, self.num_frames)
    }
}

/// Allocating a free frame and then freeing it leaves the bitmap as it was.
pub proof fn lemma_alloc_then_free(before: Seq<bool>, idx: int)
    requires
        0 <= idx < before.len(),
        !before[idx],
    ensures
        before.update(idx, true).update(idx, false) == before,
{
    assert(before.update(idx, true).update(idx, false) =~= before);
}

impl PageMapAllocator for PhysFrameAllocator {
    open spec fn spec_frames_left(&self) -> nat {
        if self.allocated <= self.num_frames {
            (self.num_frames - self.allocated) as nat
        } else {
            0
        }
    }

    open spec fn spec_issued(&self, frame: u64) -> bool {
        !self.is_free(frame as int / 4096)
    }

    open spec fn spec_wf(&self) -> bool {
        self.wf()
    }

    open spec fn spec_extent(&self) -> (int, int) {
        (0, self.num_frames * 4096)
    }

    fn alloc_table_frame(&mut self) -> (r: Option<PhysFrame>) {
        proof {
            lemma_count_bound(self.bitmap.bits(), self.num_frames as int);
            if self.spec_frames_left() > 0 {
                let j = choose|j: int| 0 <= j < self.num_frames && !self.bitmap.bits()[j];
                assert(self.is_free(j));
            }
        }
        let r = self.alloc_frame();
        proof {
            if let Some(f) = r {
                assert forall|x: u64| old(self).spec_issued(x) implies self.spec_issued(x) by {
                    let k = (x as int) / 4096;
                    if k != f.view() as int / 4096 && 0 <= k < self.num_frames {
                        assert(self.bitmap.bits()[k] == old(self).bitmap.bits()[k]);
                    }
                }
                assert(self.bitmap.bits()[f.view() as int / 4096]);
            }
        }
        r
    }
}

} // verus!
