use vstd::prelude::*;
use vstd::bits::lemma_u64_low_bits_mask_is_mod;
use vstd::arithmetic::power2::lemma2_to64;
use vstd::bits::lemma_low_bits_mask_values;

verus! {

/// Size of a page/frame in bytes.
pub const PAGE_SIZE: u64 = 4096;

/// Number of bits that may be set in a physical address.
pub const PHYSADDR_SIZE: u64 = 52;

/// Number of significant bits of a virtual address; the upper bits are a sign extension.
pub const VIRTADDR_SIZE: u64 = 48;

/// Exclusive upper bound of physical addresses.
pub const PHYSADDR_LIMIT: u64 = 0x0010_0000_0000_0000;

/// The start of the direct mapped physical memory (the start of the high canonical half).
pub const PHYSMEM_START: u64 = 0xFFFF_8000_0000_0000;

/// The amount of physical memory that can be direct mapped (64 TiB).
pub const PHYSMEM_MAX: u64 = 0x0000_4000_0000_0000;

/// True when `a` is a nonzero power of two.
pub open spec fn is_pow2(a: u64) -> bool {
    a != 0 && a & ((a - 1) as u64) == 0
}

pub open spec fn spec_is_aligned(addr: u64, align: u64) -> bool {
    addr & ((align - 1) as u64) == 0
}

pub open spec fn spec_align_down(addr: u64, align: u64) -> u64 {
    addr & !((align - 1) as u64)
}

/// The smallest multiple of `align` that is at least `addr` (as a mathematical integer).
pub open spec fn spec_align_up(addr: u64, align: u64) -> int {
    if spec_is_aligned(addr, align) {
        addr as int
    } else {
        spec_align_down(addr, align) + align
    }
}

/// Aligning down lands on an aligned address at most `align - 1` below.
pub proof fn lemma_align_down_props(addr: u64, align: u64)
    requires
        is_pow2(align),
    ensures
        spec_align_down(addr, align) <= addr,
        addr - spec_align_down(addr, align) < align,
        spec_is_aligned(spec_align_down(addr, align), align),
        spec_is_aligned(addr, align) <==> spec_align_down(addr, align) == addr,
{
    let m = (align - 1) as u64;
    assert(addr & !m <= addr && addr - (addr & !m) == addr & m && addr & m <= m && (addr & !m) & m == 0
        && ((addr & m == 0) <==> (addr & !m) == addr)) by (bit_vector);
}

/// The page size is a power of two.
pub proof fn lemma_page_size_pow2()
    ensures
        is_pow2(PAGE_SIZE),
        is_pow2(0x4000_0000),
        is_pow2(8),
{
    assert(4096u64 & 4095u64 == 0 && 0x4000_0000u64 & 0x3FFF_FFFFu64 == 0 && 8u64 & 7u64 == 0)
        by (bit_vector);
}

/// Addresses of the upper half have all-ones top bits, those of the lower half all-zero ones.
pub proof fn lemma_half(v: u64)
    ensures
        v >= 0xFFFF_8000_0000_0000 ==> v >> 47 == 0x1FFFF,
        v < 0x0000_8000_0000_0000 ==> v >> 47 == 0,
{
    assert((v >= 0xFFFF_8000_0000_0000u64 ==> v >> 47 == 0x1FFFF) && (v < 0x0000_8000_0000_0000u64 ==> v
        >> 47 == 0)) by (bit_vector);
}

/// Aligning up lands on an aligned address.
pub proof fn lemma_align_up_aligned(addr: u64, align: u64)
    requires
        is_pow2(align),
        spec_align_up(addr, align) <= u64::MAX,
    ensures
        spec_is_aligned(spec_align_up(addr, align) as u64, align),
        addr <= spec_align_up(addr, align) < addr + align,
{
    lemma_align_down_props(addr, align);
    if !spec_is_aligned(addr, align) {
        let d = spec_align_down(addr, align);
        let r = (d + align) as u64;
        let m = (align - 1) as u64;
        assert(r & m == 0) by (bit_vector)
            requires
                d & m == 0,
                align & m == 0,
                align != 0,
                m == (align - 1) as u64,
                r == (d + align) as u64,
        ;
    }
}

/// Page alignment expressed with arithmetic.
pub proof fn lemma_page_mask(addr: u64)
    ensures
        addr & 4095 == addr % 4096,
        addr & !4095u64 == addr - addr % 4096,
        spec_is_aligned(addr, PAGE_SIZE) <==> addr % 4096 == 0,
        spec_align_down(addr, PAGE_SIZE) == addr - addr % 4096,
{
    lemma_u64_low_bits_mask_is_mod(addr, 12);
    lemma2_to64();
    lemma_low_bits_mask_values();
    assert(addr & !4095u64 == addr - (addr & 4095)) by (bit_vector);
}

/// For every address and power-of-two alignment, aligning down and then up moves by 0 or `align`.
pub proof fn lemma_align_down_then_up(addr: u64, align: u64)
    requires
        is_pow2(align),
    ensures
        spec_align_up(spec_align_down(addr, align), align) - spec_align_down(addr, align) == 0
            || spec_align_up(spec_align_down(addr, align), align) - spec_align_down(addr, align)
            == align as int,
{
    lemma_align_down_props(addr, align);
}

/// Tests whether `align` is a nonzero power of two.
pub fn is_power_of_two(align: u64) -> (r: bool)
    ensures
        r == is_pow2(align),
{
    align != 0 && align & (align - 1) == 0
}

/// Rounds `addr` down to a multiple of the power of two `align`.
pub fn align_down(addr: u64, align: u64) -> (r: u64)
    requires
        is_pow2(align),
    ensures
        r == spec_align_down(addr, align),
        r <= addr,
        addr - r < align,
        spec_is_aligned(r, align),
{
    proof {
        lemma_align_down_props(addr, align);
    }
    addr & !(align - 1)
}

/// Rounds `addr` up to a multiple of the power of two `align`; an aligned address is kept.
pub fn align_up(addr: u64, align: u64) -> (r: u64)
    requires
        is_pow2(align),
        spec_align_up(addr, align) <= u64::MAX,
    ensures
        r == spec_align_up(addr, align),
        r >= addr,
        r - addr < align,
        spec_is_aligned(r, align),
{
    proof {
        lemma_align_down_props(addr, align);
    }
    if is_aligned(addr, align) {
        addr
    } else {
        let d = align_down(addr, align);
        let r = d + align;
        proof {
            let m = (align - 1) as u64;
            assert(spec_is_aligned(d, align));
            assert(r & m == 0) by (bit_vector)
                requires
                    d & m == 0,
                    align & m == 0,
                    align != 0,
                    m == (align - 1) as u64,
                    r == (d + align) as u64,
            ;
        }
        r
    }
}

/// True when `addr` is a multiple of the power of two `align`.
pub fn is_aligned(addr: u64, align: u64) -> (r: bool)
    requires
        is_pow2(align),
    ensures
        r == spec_is_aligned(addr, align),
{
    proof {
        lemma_align_down_props(addr, align);
    }
    align_down(addr, align) == addr
}

/// True when `v` is in canonical form: bits 47..63 are all equal.
pub open spec fn spec_is_canonical(v: u64) -> bool {
    v >> 47 == 0 || v >> 47 == 0x1FFFF
}

/// Tests whether `v` is a canonical virtual address.
pub fn is_canonical(v: u64) -> (r: bool)
    ensures
        r == spec_is_canonical(v),
{
    let upper_bit = v & (1u64 << 47) != 0;
    let required_sign_extension: u64 = if upper_bit { 0xFFFF } else { 0 };
    let sign_extension = v >> 48;
    proof {
        assert(((v & (1u64 << 47) != 0) ==> ((v >> 48 == 0xFFFF) <==> (v >> 47 == 0x1FFFF)) && v >> 47 != 0)
            && ((v & (1u64 << 47) == 0) ==> ((v >> 48 == 0) <==> (v >> 47 == 0)) && v >> 47 != 0x1FFFF))
            by (bit_vector);
    }
    sign_extension == required_sign_extension
}

/// Index into the page table (level 1) selected by `v`.
pub open spec fn spec_pt_index(v: u64) -> u64 {
    (v >> 12) & 0x1FF
}

/// Index into the page directory (level 2) selected by `v`.
pub open spec fn spec_pd_index(v: u64) -> u64 {
    (v >> 21) & 0x1FF
}

/// Index into the page directory pointer table (level 3) selected by `v`.
pub open spec fn spec_pdpt_index(v: u64) -> u64 {
    (v >> 30) & 0x1FF
}

/// Index into the page map level 4 selected by `v`.
pub open spec fn spec_pml4_index(v: u64) -> u64 {
    (v >> 39) & 0x1FF
}

/// The index of `v` in the table of the given level (4 = PML4 ... 1 = PT).
pub open spec fn spec_level_index(v: u64, level: int) -> u64 {
    if level == 4 {
        spec_pml4_index(v)
    } else if level == 3 {
        spec_pdpt_index(v)
    } else if level == 2 {
        spec_pd_index(v)
    } else {
        spec_pt_index(v)
    }
}

/// Every table index is below 512.
pub proof fn lemma_indices_bounded(v: u64)
    ensures
        spec_pml4_index(v) < 512,
        spec_pdpt_index(v) < 512,
        spec_pd_index(v) < 512,
        spec_pt_index(v) < 512,
{
    lemma_index_bits(v);
}

/// Masking out an index and shifting it down is shifting down and masking.
proof fn lemma_index_bits(v: u64)
    ensures
        (v & (0x1FFu64 << 12u64)) >> 12u64 == (v >> 12u64) & 0x1FF,
        (v & (0x1FFu64 << 21u64)) >> 21u64 == (v >> 21u64) & 0x1FF,
        (v & (0x1FFu64 << 30u64)) >> 30u64 == (v >> 30u64) & 0x1FF,
        (v & (0x1FFu64 << 39u64)) >> 39u64 == (v >> 39u64) & 0x1FF,
        (v >> 12u64) & 0x1FF < 512,
        (v >> 21u64) & 0x1FF < 512,
        (v >> 30u64) & 0x1FF < 512,
        (v >> 39u64) & 0x1FF < 512,
{
    assert((v & (0x1FFu64 << 12u64)) >> 12u64 == (v >> 12u64) & 0x1FF && (v & (0x1FFu64 << 21u64)) >> 21u64
        == (v >> 21u64) & 0x1FF && (v & (0x1FFu64 << 30u64)) >> 30u64 == (v >> 30u64) & 0x1FF && (v & (
    0x1FFu64 << 39u64)) >> 39u64 == (v >> 39u64) & 0x1FF && (v >> 12u64) & 0x1FF < 512 && (v >> 21u64)
        & 0x1FF < 512 && (v >> 30u64) & 0x1FF < 512 && (v >> 39u64) & 0x1FF < 512) by (bit_vector);
}

/// Operations shared by physical and virtual addresses.
pub trait Address: Sized {
    /// The raw value of the address.
    spec fn spec_u64(&self) -> u64;

    /// Which raw values form a valid address of this kind.
    spec fn valid(addr: u64) -> bool;

    fn as_u64(&self) -> (r: u64)
        ensures
            r == self.spec_u64(),
            Self::valid(r),
    ;

    fn new(addr: u64) -> (r: Self)
        requires
            Self::valid(addr),
        ensures
            r.spec_u64() == addr,
    ;
}

/// A physical address: at most 52 significant bits.
#[derive(Clone, Copy, PartialEq, Eq, Structural, Debug)]
pub struct PhysAddr(u64);

impl PhysAddr {
    #[verifier::type_invariant]
    spec fn inv(self) -> bool {
        self.0 < PHYSADDR_LIMIT
    }

    pub closed spec fn view(self) -> u64 {
        self.0
    }

    /// Rounds down to a multiple of the power of two `align`.
    pub fn align_down(&self, align: u64) -> (r: PhysAddr)
        requires
            is_pow2(align),
        ensures
            r.view() == spec_align_down(self.view(), align),
    {
        proof {
            use_type_invariant(self);
        }
        PhysAddr(align_down(self.0, align))
    }

    /// Rounds up to a multiple of the power of two `align`.
    pub fn align_up(&self, align: u64) -> (r: PhysAddr)
        requires
            is_pow2(align),
            spec_align_up(self.view(), align) < PHYSADDR_LIMIT,
        ensures
            r.view() == spec_align_up(self.view(), align),
    {
        PhysAddr(align_up(self.0, align))
    }

    pub fn is_aligned(&self, align: u64) -> (r: bool)
        requires
            is_pow2(align),
        ensures
            r == spec_is_aligned(self.view(), align),
    {
        is_aligned(self.0, align)
    }

    /// The raw address rounded down to its frame.
    pub fn align_down_page_u64(&self) -> (r: u64)
        ensures
            r == self.view() - self.view() % 4096,
            r < PHYSADDR_LIMIT,
            r % 4096 == 0,
    {
        proof {
            use_type_invariant(self);
            lemma_page_mask(self.0);
            lemma_page_size_pow2();
        }
        align_down(self.0, PAGE_SIZE)
    }

    /// The virtual address of this physical address in the direct mapping.
    pub fn as_direct_mapped(&self) -> (r: VirtAddr)
        requires
            self.view() <= PHYSMEM_MAX,
        ensures
            r.view() == self.view() + PHYSMEM_START,
    {
        let v = self.0 + PHYSMEM_START;
        proof {
            lemma_half(v);
        }
        VirtAddr(v)
    }
}

impl Address for PhysAddr {
    open spec fn spec_u64(&self) -> u64 {
        self.view()
    }

    open spec fn valid(addr: u64) -> bool {
        addr < PHYSADDR_LIMIT
    }

    fn as_u64(&self) -> (r: u64) {
        proof {
            use_type_invariant(self);
        }
        self.0
    }

    fn new(addr: u64) -> (r: Self) {
        proof {
            assert(<PhysAddr as Address>::valid(addr));
        }
        let r = PhysAddr(addr);
        assert(r.spec_u64() == addr);
        r
    }
}

/// A canonical virtual address.
#[derive(Clone, Copy, PartialEq, Eq, Structural, Debug)]
pub struct VirtAddr(u64);

impl VirtAddr {
    #[verifier::type_invariant]
    spec fn inv(self) -> bool {
        spec_is_canonical(self.0)
    }

    pub closed spec fn view(self) -> u64 {
        self.0
    }

    pub fn get_page_table_idx(&self) -> (r: u64)
        ensures
            r == spec_pt_index(self.view()),
            r < 512,
    {
        let v = self.0;
        proof {
            lemma_index_bits(v);
        }
        (v & (0x1FF << 12)) >> 12
    }

    pub fn get_page_dir_idx(&self) -> (r: u64)
        ensures
            r == spec_pd_index(self.view()),
            r < 512,
    {
        let v = self.0;
        proof {
            lemma_index_bits(v);
        }
        (v & (0x1FF << 21)) >> 21
    }

    pub fn get_page_dir_ptr_idx(&self) -> (r: u64)
        ensures
            r == spec_pdpt_index(self.view()),
            r < 512,
    {
        let v = self.0;
        proof {
            lemma_index_bits(v);
        }
        (v & (0x1FF << 30)) >> 30
    }

    pub fn get_page_map_l4_idx(&self) -> (r: u64)
        ensures
            r == spec_pml4_index(self.view()),
            r < 512,
    {
        let v = self.0;
        proof {
            lemma_index_bits(v);
        }
        (v & (0x1FF << 39)) >> 39
    }

    /// The in-page byte offset of the address.
    pub fn page_offset(&self) -> (r: u64)
        ensures
            r == self.view() % 4096,
    {
        proof {
            lemma_page_mask(self.0);
        }
        self.0 & 0xFFF
    }

    pub fn is_aligned(&self, align: u64) -> (r: bool)
        requires
            is_pow2(align),
        ensures
            r == spec_is_aligned(self.view(), align),
    {
        is_aligned(self.0, align)
    }

    /// Rounds down to the containing page boundary.
    pub fn align_down_page(&self) -> (r: VirtAddr)
        ensures
            r.view() == self.view() - self.view() % 4096,
    {
        proof {
            use_type_invariant(self);
            lemma_page_mask(self.0);
            lemma_page_size_pow2();
        }
        let v = align_down(self.0, PAGE_SIZE);
        proof {
            let w = self.0;
            assert(w >> 47 == (w & !4095u64) >> 47) by (bit_vector);
        }
        VirtAddr(v)
    }
}

impl Address for VirtAddr {
    open spec fn spec_u64(&self) -> u64 {
        self.view()
    }

    open spec fn valid(addr: u64) -> bool {
        spec_is_canonical(addr)
    }

    fn as_u64(&self) -> (r: u64) {
        proof {
            use_type_invariant(self);
        }
        self.0
    }

    fn new(addr: u64) -> (r: Self) {
        proof {
            assert(<VirtAddr as Address>::valid(addr));
        }
        let r = VirtAddr(addr);
        assert(r.spec_u64() == addr);
        r
    }
}

/// A canonical value is accepted by `VirtAddr::new`, and the address it gives reads back as it.
pub proof fn lemma_virt_addr_round_trip(v: u64)
    requires
        spec_is_canonical(v),
    ensures
        <VirtAddr as Address>::valid(v),
        forall|a: VirtAddr| #[trigger] a.spec_u64() == v ==> a.view() == v,
{
}

/// A page-aligned physical address is accepted by `PhysFrame::from_base_u64`, and the frame it
/// gives has it as its base.
pub proof fn lemma_frame_round_trip(pa: u64)
    requires
        pa % 4096 == 0,
        pa < PHYSADDR_LIMIT,
    ensures
        <PhysFrame as Page>::valid_base(pa),
        forall|f: PhysFrame| #[trigger] f.spec_base() == pa ==> f.view() == pa,
{
}

/// A page-aligned unit of memory: a physical frame or a virtual page.
pub trait Page: Sized + Copy {
    /// The base address of the page.
    spec fn spec_base(&self) -> u64;

    /// Which raw values are the base address of a page of this kind.
    spec fn valid_base(addr: u64) -> bool;

    /// Two bases lie in one contiguous stretch of valid addresses.
    spec fn same_space(lo: u64, hi: u64) -> bool;

    /// Every aligned address between two bases of one stretch is a base too.
    proof fn lemma_valid_between(lo: u64, mid: u64, hi: u64)
        requires
            Self::valid_base(lo),
            Self::valid_base(hi),
            Self::same_space(lo, hi),
            lo <= mid <= hi,
            mid % 4096 == 0,
        ensures
            Self::valid_base(mid),
            Self::same_space(lo, mid),
            Self::same_space(mid, hi),
    ;

    /// The base of any page is a multiple of the page size.
    proof fn lemma_base_aligned(addr: u64)
        requires
            Self::valid_base(addr),
        ensures
            addr % 4096 == 0,
            Self::same_space(addr, addr),
    ;

    fn base_u64(&self) -> (r: u64)
        ensures
            r == self.spec_base(),
            Self::valid_base(r),
    ;

    fn from_base_u64(addr: u64) -> (r: Self)
        requires
            Self::valid_base(addr),
        ensures
            r.spec_base() == addr,
    ;

    /// The page `n` pages above this one.
    fn increment(&self, n: u64) -> (r: Self)
        requires
            self.spec_base() + n * 4096 <= u64::MAX,
            Self::valid_base((self.spec_base() + n * 4096) as u64),
        ensures
            r.spec_base() == self.spec_base() + n * 4096,
    {
        Self::from_base_u64(self.base_u64() + n * PAGE_SIZE)
    }

    /// The page `n` pages below this one.
    fn decrement(&self, n: u64) -> (r: Self)
        requires
            self.spec_base() - n * 4096 >= 0,
            Self::valid_base((self.spec_base() - n * 4096) as u64),
        ensures
            r.spec_base() == self.spec_base() - n * 4096,
    {
        Self::from_base_u64(self.base_u64() - n * PAGE_SIZE)
    }

    /// The page right above this one.
    fn next(&self) -> (r: Self)
        requires
            self.spec_base() + 4096 <= u64::MAX,
            Self::valid_base((self.spec_base() + 4096) as u64),
        ensures
            r.spec_base() == self.spec_base() + 4096,
    {
        self.increment(1)
    }
}

/// A page-aligned physical address.
#[derive(Clone, Copy, PartialEq, Eq, Structural, Debug)]
pub struct PhysFrame(PhysAddr);

/// True when `a` is the base of a physical frame.
pub open spec fn spec_frame_base(a: u64) -> bool {
    a % 4096 == 0 && a < PHYSADDR_LIMIT
}

/// True when `a` is the base of a virtual page.
pub open spec fn spec_page_base(a: u64) -> bool {
    a % 4096 == 0 && spec_is_canonical(a)
}

impl PhysFrame {
    #[verifier::type_invariant]
    spec fn inv(self) -> bool {
        self.0.view() % 4096 == 0
    }

    pub closed spec fn view(self) -> u64 {
        self.0.view()
    }

    /// The frame starting at the page-aligned address `addr`.
    pub fn from_base_addr(addr: PhysAddr) -> (r: PhysFrame)
        requires
            addr.view() % 4096 == 0,
        ensures
            r.view() == addr.view(),
    {
        PhysFrame(addr)
    }

    pub fn base_addr(&self) -> (r: PhysAddr)
        ensures
            r.view() == self.view(),
    {
        self.0
    }

    /// The frame containing `addr`.
    pub fn from_containing_u64(addr: u64) -> (r: PhysFrame)
        requires
            addr < PHYSADDR_LIMIT,
        ensures
            r.view() == addr - addr % 4096,
    {
        proof {
            lemma_page_mask(addr);
            lemma_page_size_pow2();
        }
        let a = align_down(addr, PAGE_SIZE);
        PhysFrame(PhysAddr::new(a))
    }

    /// The page at which this frame is seen through a mapping that adds `offset`.
    pub fn to_virt_page(&self, offset: u64) -> (r: VirtPage)
        requires
            self.view() + offset <= u64::MAX,
            spec_page_base((self.view() + offset) as u64),
        ensures
            r.view() == self.view() + offset,
    {
        VirtPage::from_base_u64(self.base_u64() + offset)
    }

    /// The page of this frame in the direct mapping.
    pub fn as_direct_mapped(&self) -> (r: VirtPage)
        requires
            self.view() <= PHYSMEM_MAX,
        ensures
            r.view() == self.view() + PHYSMEM_START,
    {
        proof {
            use_type_invariant(self);
            let v = (self.view() + PHYSMEM_START) as u64;
            lemma_half(v);
            assert(PHYSMEM_START % 4096 == 0);
        }
        self.to_virt_page(PHYSMEM_START)
    }

    /// The frame number (base address divided by the page size).
    pub fn idx(&self) -> (r: u64)
        ensures
            r == self.view() / 4096,
    {
        self.base_u64() / PAGE_SIZE
    }
}

impl Page for PhysFrame {
    open spec fn spec_base(&self) -> u64 {
        self.view()
    }

    open spec fn valid_base(addr: u64) -> bool {
        spec_frame_base(addr)
    }

    open spec fn same_space(lo: u64, hi: u64) -> bool {
        true
    }

    proof fn lemma_valid_between(lo: u64, mid: u64, hi: u64) {
    }

    proof fn lemma_base_aligned(addr: u64) {
    }

    fn base_u64(&self) -> (r: u64) {
        proof {
            use_type_invariant(self);
        }
        self.0.as_u64()
    }

    fn from_base_u64(addr: u64) -> (r: Self) {
        PhysFrame(PhysAddr::new(addr))
    }
}

/// A page-aligned virtual address.
#[derive(Clone, Copy, PartialEq, Eq, Structural, Debug)]
pub struct VirtPage(VirtAddr);

impl VirtPage {
    #[verifier::type_invariant]
    spec fn inv(self) -> bool {
        self.0.view() % 4096 == 0
    }

    pub closed spec fn view(self) -> u64 {
        self.0.view()
    }

    /// The page starting at the page-aligned address `addr`.
    pub fn from_base_addr(addr: VirtAddr) -> (r: VirtPage)
        requires
            addr.view() % 4096 == 0,
        ensures
            r.view() == addr.view(),
    {
        VirtPage(addr)
    }

    pub fn base_addr(&self) -> (r: VirtAddr)
        ensures
            r.view() == self.view(),
    {
        self.0
    }

    /// The page containing the canonical address `addr`.
    pub fn from_containing_addr(addr: VirtAddr) -> (r: VirtPage)
        ensures
            r.view() == addr.view() - addr.view() % 4096,
    {
        VirtPage(addr.align_down_page())
    }

    /// The page containing `addr`.
    pub fn from_containing_u64(addr: u64) -> (r: VirtPage)
        requires
            spec_is_canonical(addr),
        ensures
            r.view() == addr - addr % 4096,
    {
        Self::from_containing_addr(VirtAddr::new(addr))
    }
}

impl Page for VirtPage {
    open spec fn spec_base(&self) -> u64 {
        self.view()
    }

    open spec fn valid_base(addr: u64) -> bool {
        spec_page_base(addr)
    }

    open spec fn same_space(lo: u64, hi: u64) -> bool {
        lo >> 47 == hi >> 47
    }

    proof fn lemma_valid_between(lo: u64, mid: u64, hi: u64) {
        assert(lo <= mid && mid <= hi && lo >> 47 == hi >> 47 ==> mid >> 47 == lo >> 47)
            by (bit_vector);
    }

    proof fn lemma_base_aligned(addr: u64) {
    }

    fn base_u64(&self) -> (r: u64) {
        proof {
            use_type_invariant(self);
        }
        self.0.as_u64()
    }

    fn from_base_u64(addr: u64) -> (r: Self) {
        VirtPage(VirtAddr::new(addr))
    }
}

/// The half-open range of pages `[start, end)`.
#[derive(Clone, Copy)]
pub struct PageRange<P: Page> {
    /// Inclusive lower bound.
    pub start: P,
    /// Exclusive upper bound.
    pub end: P,
}

/// A range of physical frames.
pub type PhysFrameRange = PageRange<PhysFrame>;

/// A range of virtual pages.
pub type VirtPageRange = PageRange<VirtPage>;

impl<P: Page> PageRange<P> {
    /// The range is ordered and lies in one stretch of valid addresses.
    pub open spec fn wf(&self) -> bool {
        &&& self.start.spec_base() <= self.end.spec_base()
        &&& P::valid_base(self.start.spec_base())
        &&& P::valid_base(self.end.spec_base())
        &&& P::same_space(self.start.spec_base(), self.end.spec_base())
    }

    pub open spec fn spec_start(&self) -> u64 {
        self.start.spec_base()
    }

    pub open spec fn spec_end(&self) -> u64 {
        self.end.spec_base()
    }

    /// The number of pages in the range.
    pub open spec fn spec_len(&self) -> int {
        (self.spec_end() - self.spec_start()) / 4096
    }

    /// The base of the `i`-th page of the range.
    pub open spec fn spec_page(&self, i: int) -> int {
        self.spec_start() + i * 4096
    }

    pub fn new(start: P, end: P) -> (r: Self)
        requires
            start.spec_base() <= end.spec_base(),
            P::same_space(start.spec_base(), end.spec_base()),
        ensures
            r.start == start,
            r.end == end,
            r.wf(),
    {
        let _ = start.base_u64();
        let _ = end.base_u64();
        PageRange { start, end }
    }

    pub fn first(&self) -> (r: P)
        ensures
            r == self.start,
    {
        self.start
    }

    pub fn end(&self) -> (r: P)
        ensures
            r == self.end,
    {
        self.end
    }

    /// The last page of a non-empty range.
    pub fn last(&self) -> (r: P)
        requires
            self.wf(),
            self.spec_start() < self.spec_end(),
        ensures
            r.spec_base() == self.spec_end() - 4096,
    {
        proof {
            P::lemma_base_aligned(self.spec_start());
            P::lemma_base_aligned(self.spec_end());
            P::lemma_valid_between(
                self.spec_start(),
                (self.spec_end() - 4096) as u64,
                self.spec_end(),
            );
        }
        self.end.decrement(1)
    }

    pub fn len(&self) -> (r: u64)
        requires
            self.wf(),
        ensures
            r == self.spec_len(),
    {
        (self.end.base_u64() - self.start.base_u64()) / PAGE_SIZE
    }

    /// The number of bytes covered by the range.
    pub fn len_bytes(&self) -> (r: u64)
        requires
            self.wf(),
        ensures
            r == self.spec_end() - self.spec_start(),
    {
        self.end.base_u64() - self.start.base_u64()
    }

    pub fn contains(&self, page: P) -> (r: bool)
        ensures
            r == (self.spec_start() <= page.spec_base() < self.spec_end()),
    {
        let b = page.base_u64();
        b >= self.start.base_u64() && b < self.end.base_u64()
    }

    /// True when `other` lies within this range.
    pub fn contains_range(&self, other: &PageRange<P>) -> (r: bool)
        ensures
            r == (self.spec_start() <= other.spec_start() && other.spec_end() <= self.spec_end()),
    {
        other.start.base_u64() >= self.start.base_u64() && other.end.base_u64()
            <= self.end.base_u64()
    }

    /// The `i`-th page of the range.
    pub fn page(&self, i: u64) -> (r: P)
        requires
            self.wf(),
            i < self.spec_len(),
        ensures
            r.spec_base() == self.spec_page(i as int),
    {
        proof {
            P::lemma_base_aligned(self.spec_start());
            P::lemma_base_aligned(self.spec_end());
            assert(self.spec_start() + i * 4096 < self.spec_end()) by (nonlinear_arith)
                requires
                    i < (self.spec_end() - self.spec_start()) / 4096,
                    self.spec_start() <= self.spec_end(),
            ;
            assert((self.spec_start() + i * 4096) % 4096 == 0) by (nonlinear_arith)
                requires
                    self.spec_start() % 4096 == 0,
            ;
            P::lemma_valid_between(
                self.spec_start(),
                (self.spec_start() + i * 4096) as u64,
                self.spec_end(),
            );
        }
        self.start.increment(i)
    }

    /// An iterator over the pages of the range, in ascending order.
    pub fn iter(&self) -> (r: PageRangeIter<P>)
        ensures
            r.next == self.start,
            r.range == *self,
    {
        PageRangeIter { next: self.start, range: *self }
    }
}

/// Walks the pages of a range in ascending order.
#[derive(Clone, Copy)]
pub struct PageRangeIter<P: Page> {
    pub next: P,
    pub range: PageRange<P>,
}

impl<P: Page> PageRangeIter<P> {
    pub open spec fn wf(&self) -> bool {
        &&& self.range.wf()
        &&& self.range.spec_start() <= self.next.spec_base() <= self.range.spec_end()
        &&& P::valid_base(self.next.spec_base())
        &&& P::same_space(self.next.spec_base(), self.range.spec_end())
    }

    /// The next page of the range, or `None` once it is exhausted.
    pub fn next(&mut self) -> (r: Option<P>)
        requires
            old(self).wf(),
        ensures
            final(self).wf(),
            final(self).range == old(self).range,
            old(self).next.spec_base() < old(self).range.spec_end() ==> r == Some(old(self).next)
                && final(self).next.spec_base() == old(self).next.spec_base() + 4096,
            old(self).next.spec_base() >= old(self).range.spec_end() ==> r.is_none()
                && final(self).next == old(self).next,
    {
        let ret = self.next;
        if self.range.contains(ret) {
            proof {
                P::lemma_base_aligned(ret.spec_base());
                P::lemma_base_aligned(self.range.spec_end());
                P::lemma_valid_between(
                    ret.spec_base(),
                    (ret.spec_base() + 4096) as u64,
                    self.range.spec_end(),
                );
            }
            self.next = ret.next();
            Some(ret)
        } else {
            None
        }
    }
}

/// A physical range as a pair of base addresses.
pub open spec fn span_of(r: Option<PageRange<PhysFrame>>) -> Option<(u64, u64)> {
    match r {
        Some(x) => Some((x.spec_start(), x.spec_end())),
        None => None,
    }
}

/// The non-empty range `[lo, hi)` as a pair, or nothing when it is empty.
pub open spec fn nonempty_span(lo: u64, hi: u64) -> Option<(u64, u64)> {
    if lo < hi {
        Some((lo, hi))
    } else {
        None
    }
}

impl PageRange<PhysFrame> {
    /// Splits the range against an alignment of `align_pages` pages: the part before the first
    /// aligned boundary, the aligned middle, and the part after the last aligned boundary.
    /// When no whole aligned block fits, the entire range is the first part.
    pub fn aligned_range(&self, align_pages: u64) -> (r: (
        Option<PageRange<PhysFrame>>,
        Option<PageRange<PhysFrame>>,
        Option<PageRange<PhysFrame>>,
    ))
        requires
            self.wf(),
            align_pages * 4096 < PHYSADDR_LIMIT,
            is_pow2((align_pages * 4096) as u64),
        ensures
            ({
                let al = (align_pages * 4096) as u64;
                let a = spec_align_up(self.spec_start(), al);
                let b = spec_align_down(self.spec_end(), al);
                if a < b {
                    &&& span_of(r.0) == nonempty_span(self.spec_start(), a as u64)
                    &&& span_of(r.1) == Some((a as u64, b))
                    &&& span_of(r.2) == nonempty_span(b, self.spec_end())
                } else {
                    &&& span_of(r.0) == nonempty_span(self.spec_start(), self.spec_end())
                    &&& r.1.is_none()
                    &&& r.2.is_none()
                }
            }),
            r.0 matches Some(x) ==> x.wf(),
            r.1 matches Some(x) ==> x.wf(),
            r.2 matches Some(x) ==> x.wf(),
    {
        let al = align_pages * PAGE_SIZE;
        let s = self.start.base_u64();
        let e = self.end.base_u64();
        proof {
            lemma_align_down_props(s, al);
            lemma_align_down_props(e, al);
            lemma_page_mask(s);
            lemma_page_mask(e);
        }
        let a = align_up(s, al);
        let b = align_down(e, al);
        if a < b {
            proof {
                assert(al % 4096 == 0) by (nonlinear_arith)
                    requires
                        al == align_pages * 4096,
                ;
                lemma_aligned_multiple(a, al);
                lemma_aligned_multiple(b, al);
            }
            let first = if s < a {
                Some(PageRange::new(self.start, PhysFrame::from_base_u64(a)))
            } else {
                None
            };
            let middle = Some(PageRange::new(PhysFrame::from_base_u64(a), PhysFrame::from_base_u64(b)));
            let last = if b < e {
                Some(PageRange::new(PhysFrame::from_base_u64(b), self.end))
            } else {
                None
            };
            (first, middle, last)
        } else if s < e {
            (Some(*self), None, None)
        } else {
            (None, None, None)
        }
    }
}

/// An address aligned to a multiple of the page size is page aligned.
proof fn lemma_aligned_multiple(a: u64, al: u64)
    requires
        is_pow2(al),
        spec_is_aligned(a, al),
        al % 4096 == 0,
    ensures
        a % 4096 == 0,
{
    let m = (al - 1) as u64;
    lemma_page_mask(a);
    lemma_page_mask(al);
    assert(a & m == 0 && al & m == 0 && al != 0 && m == (al - 1) as u64 && al & 4095 == 0 ==> a & 4095 == 0)
        by (bit_vector);
}

} // verus!
