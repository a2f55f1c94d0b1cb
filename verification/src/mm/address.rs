//! Sv39 virtual and physical addresses and page numbers.
use vstd::prelude::*;
use crate::config::PAGE_SIZE;

verus! {

/// Bit width of an Sv39 virtual address.
pub const VA_WIDTH_SV39: usize = 39;

/// Bit width of an Sv39 physical address.
pub const PA_WIDTH_SV39: usize = 56;

/// Number of distinct 39-bit virtual addresses.
pub open spec fn va_span() -> int {
    0x80_0000_0000
}

/// Number of distinct 56-bit physical addresses.
pub open spec fn pa_span() -> int {
    0x100_0000_0000_0000
}

/// The page that holds the address `a`.
pub open spec fn floor_spec(a: int) -> int {
    a / PAGE_SIZE as int
}

/// The first page at or above the address `a`.
pub open spec fn ceil_spec(a: int) -> int {
    (a + PAGE_SIZE - 1) / PAGE_SIZE as int
}

/// The 39-bit address `a` as a full address, sign-extended from bit 38.
pub open spec fn sign_extend_va(a: int) -> int {
    if a >= 0x40_0000_0000 {
        a % va_span() + (0x1_0000_0000_0000_0000 - va_span())
    } else {
        a
    }
}

/// Whether `a` is a canonical Sv39 address: bits 38 to 63 all equal.
pub open spec fn canonical_va(a: int) -> bool {
    a < 0x40_0000_0000 || 0x1_0000_0000_0000_0000 - 0x40_0000_0000 <= a
}

/// A virtual address (39 significant bits).
#[derive(Copy, Clone, Debug, PartialEq, Eq, Structural)]
pub struct VirtAddr(pub usize);

/// A physical address (56 significant bits).
#[derive(Copy, Clone, Debug, PartialEq, Eq, Structural)]
pub struct PhysAddr(pub usize);

/// A virtual page number.
#[derive(Copy, Clone, Debug, PartialEq, Eq, Structural)]
pub struct VirtPageNum(pub usize);

/// A physical page number.
#[derive(Copy, Clone, Debug, PartialEq, Eq, Structural)]
pub struct PhysPageNum(pub usize);

impl VirtAddr {
    /// Keeps the low 39 bits of `v`, as the conversion from `usize` does.
    pub fn from_usize(v: usize) -> (r: VirtAddr)
        ensures
            r.0 == v as int % va_span(),
    {
        let w = v as u64;
        assert(w & 0x7f_ffff_ffffu64 == w % 0x80_0000_0000) by (bit_vector);
        VirtAddr((w & 0x7f_ffff_ffffu64) as usize)
    }

    /// The address as a `usize`, sign-extended from bit 38.
    pub fn to_usize(self) -> (r: usize)
        ensures
            r == sign_extend_va(self.0 as int),
    {
        let v = self.0;
        let w = v as u64;
        if w >= 0x40_0000_0000u64 {
            assert(w | 0xffff_ff80_0000_0000u64 == (w % 0x80_0000_0000) + 0xffff_ff80_0000_0000u64)
                by (bit_vector);
            (w | 0xffff_ff80_0000_0000u64) as usize
        } else {
            v
        }
    }

    /// The address of the first byte of page `vpn`.
    pub fn from_vpn(vpn: VirtPageNum) -> (r: VirtAddr)
        ensures
            r.0 == (vpn.0 * PAGE_SIZE) % (usize::MAX as int + 1),
    {
        VirtAddr(vpn.0.wrapping_mul(PAGE_SIZE))
    }

    /// The page that holds this address.
    pub fn floor(&self) -> (r: VirtPageNum)
        ensures
            r.0 == floor_spec(self.0 as int),
    {
        VirtPageNum(self.0 / PAGE_SIZE)
    }

    /// The first page at or above this address.
    pub fn ceil(&self) -> (r: VirtPageNum)
        ensures
            r.0 == ceil_spec(self.0 as int),
    {
        if self.0 == 0 {
            VirtPageNum(0)
        } else {
            VirtPageNum((self.0 - 1) / PAGE_SIZE + 1)
        }
    }

    /// Offset of this address inside its page.
    pub fn page_offset(&self) -> (r: usize)
        ensures
            r == self.0 % PAGE_SIZE,
    {
        self.0 % PAGE_SIZE
    }

    /// Whether this address is the first byte of a page.
    pub fn aligned(&self) -> (r: bool)
        ensures
            r == (self.0 % PAGE_SIZE == 0),
    {
        self.page_offset() == 0
    }
}

impl PhysAddr {
    /// Keeps the low 56 bits of `v`, as the conversion from `usize` does.
    pub fn from_usize(v: usize) -> (r: PhysAddr)
        ensures
            r.0 == v as int % pa_span(),
    {
        let w = v as u64;
        assert(w & 0xff_ffff_ffff_ffffu64 == w % 0x100_0000_0000_0000) by (bit_vector);
        PhysAddr((w & 0xff_ffff_ffff_ffffu64) as usize)
    }

    /// Offset of this address inside its page.
    pub fn page_offset(&self) -> (r: usize)
        ensures
            r == self.0 % PAGE_SIZE,
    {
        self.0 % PAGE_SIZE
    }
}

impl VirtPageNum {
    /// The page of a page-aligned address.
    pub fn from_va(va: VirtAddr) -> (r: VirtPageNum)
        requires
            va.0 % PAGE_SIZE == 0,
        ensures
            r.0 == va.0 / PAGE_SIZE,
    {
        va.floor()
    }

    /// Moves to the next page.
    pub fn step(&mut self)
        requires
            old(self).0 < usize::MAX,
        ensures
            final(self).0 == old(self).0 + 1,
    {
        self.0 = self.0 + 1;
    }
}

impl PhysPageNum {
    /// The page of a page-aligned physical address.
    pub fn from_pa(pa: PhysAddr) -> (r: PhysPageNum)
        requires
            pa.0 % PAGE_SIZE == 0,
        ensures
            r.0 == pa.0 / PAGE_SIZE,
    {
        PhysPageNum(pa.0 / PAGE_SIZE)
    }
}

/// A canonical address cut to 39 bits and sign-extended back is the address
/// itself.
pub proof fn lemma_canonical_roundtrip(a: usize)
    requires
        canonical_va(a as int),
    ensures
        sign_extend_va(a as int % va_span()) == a,
{
    if a >= 0x40_0000_0000 {
        let base: int = 0x1_0000_0000_0000_0000 - va_span();
        assert(base == 0x1ff_ffff * va_span());
        assert((a as int) % va_span() == a - base) by {
            vstd::arithmetic::div_mod::lemma_fundamental_div_mod_converse(a as int, va_span(), 0x1ff_ffff, a - base);
        }
    }
}

/// The first address of page `vpn`, taken back to its page, is `vpn`, when the
/// address fits.
pub proof fn lemma_page_address_roundtrip(vpn: usize)
    requires
        vpn * PAGE_SIZE <= usize::MAX,
    ensures
        floor_spec((vpn * PAGE_SIZE) % (usize::MAX as int + 1)) == vpn,
        ceil_spec((vpn * PAGE_SIZE) % (usize::MAX as int + 1)) == vpn,
{
    assert((vpn * PAGE_SIZE) % (usize::MAX as int + 1) == vpn * PAGE_SIZE) by {
        vstd::arithmetic::div_mod::lemma_small_mod((vpn * PAGE_SIZE) as nat, (usize::MAX as int + 1) as nat);
    }
}

/// A half-open range `[l, r)` of virtual page numbers.
#[derive(Copy, Clone, Debug, PartialEq, Eq, Structural)]
pub struct VPNRange {
    l: VirtPageNum,
    r: VirtPageNum,
}

impl VPNRange {
    /// First page of the range.
    pub closed spec fn start(self) -> usize {
        self.l.0
    }

    /// First page after the range.
    pub closed spec fn end(self) -> usize {
        self.r.0
    }

    /// Every range keeps its start at or below its end.
    pub open spec fn wf(self) -> bool {
        self.start() <= self.end()
    }

    /// The range from `start` up to `end`.
    pub fn new(start: VirtPageNum, end: VirtPageNum) -> (r: VPNRange)
        requires
            start.0 <= end.0,
        ensures
            r.start() == start.0,
            r.end() == end.0,
            r.wf(),
    {
        VPNRange { l: start, r: end }
    }

    /// First page of the range.
    pub fn get_start(&self) -> (r: VirtPageNum)
        ensures
            r.0 == self.start(),
    {
        self.l
    }

    /// First page after the range.
    pub fn get_end(&self) -> (r: VirtPageNum)
        ensures
            r.0 == self.end(),
    {
        self.r
    }
}

} // verus!
