//! Virtual addresses, page numbers and half-open ranges of virtual pages.
use vstd::prelude::*;

verus! {

/// Number of bits of the offset inside a page.
pub const PAGE_SIZE_BITS: usize = 12;

/// Size of a page in bytes.
pub const PAGE_SIZE: usize = 4096;

/// Width of a virtual address under SV39.
pub const VA_WIDTH_SV39: usize = 39;

/// Width of a physical address under SV39.
pub const PA_WIDTH_SV39: usize = 56;

/// A physical address.
#[derive(Clone, Copy, PartialEq, Eq, Structural, Debug)]
pub struct PhysAddr(pub usize);

/// A virtual address.
#[derive(Clone, Copy, PartialEq, Eq, Structural, Debug)]
pub struct VirtAddr(pub usize);

/// A virtual page number.
#[derive(Clone, Copy, PartialEq, Eq, Structural, Debug)]
pub struct VirtPageNum(pub usize);

/// A physical page number.
#[derive(Clone, Copy, PartialEq, Eq, Structural, Debug)]
pub struct PhysPageNum(pub usize);

/// The page number of the page that holds byte `va`.
pub open spec fn floor_page(va: int) -> int {
    va / (PAGE_SIZE as int)
}

/// The number of the first page boundary at or above byte `va`.
pub open spec fn ceil_page(va: int) -> int {
    (va + PAGE_SIZE - 1) / (PAGE_SIZE as int)
}

/// The low `VA_WIDTH_SV39` bits of `v`.
pub open spec fn va_bits(v: usize) -> usize {
    (v as int % 0x80_0000_0000int) as usize
}

/// The low `PA_WIDTH_SV39` bits of `v`.
pub open spec fn pa_bits(v: usize) -> usize {
    (v as int % 0x100_0000_0000_0000int) as usize
}

impl PhysAddr {
    /// The physical address that `v` names: its low `PA_WIDTH_SV39` bits.
    pub fn from_usize(v: usize) -> (pa: PhysAddr)
        ensures
            pa.0 == pa_bits(v),
    {
        let low = (v as u64) % 0x100_0000_0000_0000u64;
        assert(low <= v);
        PhysAddr(low as usize)
    }

    /// The offset of this address inside its page.
    pub fn page_offset(&self) -> (off: usize)
        ensures
            off == self.0 % PAGE_SIZE,
    {
        self.0 % PAGE_SIZE
    }

    /// Whether this address is at the start of a page.
    pub fn aligned(&self) -> (b: bool)
        ensures
            b == (self.0 % PAGE_SIZE == 0),
    {
        self.page_offset() == 0
    }

    /// The number of the page that starts at this address.
    pub fn to_ppn(&self) -> (ppn: PhysPageNum)
        requires
            self.0 % PAGE_SIZE == 0,
        ensures
            ppn.0 == self.0 / PAGE_SIZE,
    {
        PhysPageNum(self.0 / PAGE_SIZE)
    }
}

impl VirtAddr {
    /// The virtual address that `v` names: its low `VA_WIDTH_SV39` bits.
    pub fn from_usize(v: usize) -> (va: VirtAddr)
        ensures
            va.0 == va_bits(v),
    {
        let low = (v as u64) % 0x80_0000_0000u64;
        assert(low <= v);
        VirtAddr(low as usize)
    }

    /// The number of the page that starts at this address.
    pub fn to_vpn(&self) -> (vpn: VirtPageNum)
        requires
            self.0 % PAGE_SIZE == 0,
        ensures
            vpn.0 == self.0 / PAGE_SIZE,
    {
        self.floor()
    }

    /// The page that holds this address.
    pub fn floor(&self) -> (vpn: VirtPageNum)
        ensures
            vpn.0 == floor_page(self.0 as int),
    {
        VirtPageNum(self.0 / PAGE_SIZE)
    }

    /// The first page boundary at or above this address, as a page number.
    pub fn ceil(&self) -> (vpn: VirtPageNum)
        ensures
            vpn.0 == ceil_page(self.0 as int),
    {
        if self.0 == 0 {
            VirtPageNum(0)
        } else {
            VirtPageNum((self.0 - 1) / PAGE_SIZE + 1)
        }
    }

    /// The offset of this address inside its page.
    pub fn page_offset(&self) -> (off: usize)
        ensures
            off == self.0 % PAGE_SIZE,
    {
        self.0 % PAGE_SIZE
    }

    /// Whether this address is at the start of a page.
    pub fn aligned(&self) -> (b: bool)
        ensures
            b == (self.0 % PAGE_SIZE == 0),
    {
        self.page_offset() == 0
    }
}

impl VirtPageNum {
    /// The address of the first byte of this page: the number shifted left by
    /// `PAGE_SIZE_BITS`, dropping the bits shifted out, as on the machine.
    pub fn to_addr(&self) -> (va: VirtAddr)
        ensures
            va.0 == self.0 << 12usize,
            self.0 * PAGE_SIZE <= usize::MAX ==> va.0 == self.0 * PAGE_SIZE,
    {
        let v = self.0;
        proof {
            if v * 4096 <= usize::MAX {
                vstd::arithmetic::power2::lemma2_to64();
                vstd::bits::lemma_usize_shl_is_mul(v, 12);
            }
        }
        VirtAddr(v << PAGE_SIZE_BITS)
    }
}

/// A half-open range `[start, end)` of virtual pages, with `start <= end`.
#[derive(Clone, Copy, PartialEq, Eq, Structural, Debug)]
pub struct VPNRange {
    l: VirtPageNum,
    r: VirtPageNum,
}

impl VPNRange {
    /// A range never ends before it starts.
    #[verifier::type_invariant]
    pub open spec fn ordered(self) -> bool {
        self.start() <= self.end()
    }

    /// The first page of the range.
    pub closed spec fn start(self) -> usize {
        self.l.0
    }

    /// The page just past the range.
    pub closed spec fn end(self) -> usize {
        self.r.0
    }

    /// Whether the range runs from page `s` up to (not including) page `e`.
    pub open spec fn spans(self, s: usize, e: usize) -> bool {
        self.start() == s && self.end() == e
    }

    /// The pages of the range.
    pub open spec fn pages(self) -> Set<int> {
        Set::new(|p: int| self.start() <= p < self.end())
    }

    /// Two ranges with the same bounds are the same value.
    pub proof fn lemma_spans_determine(self, other: VPNRange)
        requires
            self.start() == other.start(),
            self.end() == other.end(),
        ensures
            self == other,
    {
    }

    /// The range `[start, end)`; the caller keeps `start <= end`.
    pub fn new(start: VirtPageNum, end: VirtPageNum) -> (rng: VPNRange)
        requires
            start.0 <= end.0,
        ensures
            rng.spans(start.0, end.0),
    {
        VPNRange { l: start, r: end }
    }

    pub fn get_start(&self) -> (s: VirtPageNum)
        ensures
            s.0 == self.start(),
            s.0 <= self.end(),
    {
        proof {
            use_type_invariant(self);
        }
        self.l
    }

    pub fn get_end(&self) -> (e: VirtPageNum)
        ensures
            e.0 == self.end(),
            self.start() <= e.0,
    {
        proof {
            use_type_invariant(self);
        }
        self.r
    }
}

} // verus!
