//! Physical and virtual address values with their bit-field decomposition
//! into page-table indices (Sv39 layout: three 9-bit indices above a 12-bit
//! page offset).
use vstd::prelude::*;

use crate::bits::{bit_at, bits_of, get_bits, low_mask};
use crate::config::PAGE_SIZE;

verus! {

/// A physical address. The platform implements 32 physical address bits, so
/// bits 32..64 must be zero.
#[derive(Debug, Copy, Clone, PartialEq, Eq, Structural)]
pub struct PhysAddr(pub u64);

impl PhysAddr {
    /// Wrap a raw physical address; bits above the implemented width must be
    /// clear.
    pub fn new(addr: u64) -> (r: Self)
        requires
            addr < 0x1_0000_0000,
        ensures
            r.0 == addr,
    {
        PhysAddr(addr)
    }

    /// The raw address value.
    pub fn as_u64(self) -> (r: u64)
        ensures
            r == self.0,
    {
        self.0
    }

    /// The address rounded down to its page boundary.
    pub fn page_aligned(self) -> (r: Self)
        ensures
            r.0 == (self.0 / PAGE_SIZE) * PAGE_SIZE,
    {
        PhysAddr((self.0 / PAGE_SIZE) * PAGE_SIZE)
    }

    /// The offset of the address within its page.
    pub fn page_offset(self) -> (r: u64)
        ensures
            r == self.0 % PAGE_SIZE,
    {
        let r = get_bits(self.0, 0, 12);
        proof {
            crate::bits::lemma_bits_of_shapes(self.0);
        }
        r
    }

    /// Page-table index for the fourth (Sv48) level: bits 39..48.
    pub fn p4_index(self) -> (r: usize)
        ensures
            r == bits_of(self.0, 39, 48),
            r < 512,
    {
        index_bits(self.0, 39)
    }

    /// Page-table index for the third level: bits 30..39.
    pub fn p3_index(self) -> (r: usize)
        ensures
            r == bits_of(self.0, 30, 39),
            r < 512,
    {
        index_bits(self.0, 30)
    }

    /// Page-table index for the second level: bits 21..30.
    pub fn p2_index(self) -> (r: usize)
        ensures
            r == bits_of(self.0, 21, 30),
            r < 512,
    {
        index_bits(self.0, 21)
    }

    /// Page-table index for the first level: bits 12..21.
    pub fn p1_index(self) -> (r: usize)
        ensures
            r == bits_of(self.0, 12, 21),
            r < 512,
    {
        index_bits(self.0, 12)
    }

    /// The physical page number: the address divided by the page size.
    pub fn page_number(self) -> (r: u64)
        ensures
            r == self.0 / PAGE_SIZE,
    {
        let r = get_bits(self.0, 12, 64);
        proof {
            crate::bits::lemma_bits_of_shapes(self.0);
        }
        r
    }
}

/// Whether a virtual address is canonically sign-extended above the
/// implemented Sv39 width: bits 39..64 must replicate bit 38.
pub open spec fn canonical(a: u64) -> bool {
    if bit_at(a, 38) {
        bits_of(a, 39, 64) == 0x1FF_FFFF
    } else {
        bits_of(a, 39, 64) == 0
    }
}

/// Two canonical page-aligned addresses with equal page-table indices are
/// the same address: the three indices and the sign bit pin all 64 bits.
pub proof fn lemma_triple_injective(a: u64, b: u64)
    requires
        canonical(a),
        canonical(b),
        a % 4096 == 0,
        b % 4096 == 0,
        bits_of(a, 30, 39) == bits_of(b, 30, 39),
        bits_of(a, 21, 30) == bits_of(b, 21, 30),
        bits_of(a, 12, 21) == bits_of(b, 12, 21),
    ensures
        a == b,
{
    assert((if (a >> 38) & 1 == 1 {
        (a >> 39) & 0x1FF_FFFF == 0x1FF_FFFF
    } else {
        (a >> 39) & 0x1FF_FFFF == 0
    }) && (if (b >> 38) & 1 == 1 {
        (b >> 39) & 0x1FF_FFFF == 0x1FF_FFFF
    } else {
        (b >> 39) & 0x1FF_FFFF == 0
    }) && a % 4096 == 0 && b % 4096 == 0 && (a >> 30) & 0x1FF == (b >> 30) & 0x1FF && (a >> 21)
        & 0x1FF == (b >> 21) & 0x1FF && (a >> 12) & 0x1FF == (b >> 12) & 0x1FF ==> a == b)
        by (bit_vector);
    crate::bits::lemma_bits_of_shapes(a);
    crate::bits::lemma_bits_of_shapes(b);
    assert(bit_at(a, 38) == ((a >> 38) & 1 == 1));
    assert(bit_at(b, 38) == ((b >> 38) & 1 == 1));
}

/// Every address between two canonical addresses of the same half is itself
/// canonical.
pub proof fn lemma_canonical_between(lo: u64, hi: u64, v: u64)
    requires
        canonical(lo),
        canonical(hi),
        bit_at(lo, 38) == bit_at(hi, 38),
        lo <= v <= hi,
    ensures
        canonical(v),
        bit_at(v, 38) == bit_at(lo, 38),
{
    assert((if (lo >> 38) & 1 == 1 {
        (lo >> 39) & 0x1FF_FFFF == 0x1FF_FFFF
    } else {
        (lo >> 39) & 0x1FF_FFFF == 0
    }) && (if (hi >> 38) & 1 == 1 {
        (hi >> 39) & 0x1FF_FFFF == 0x1FF_FFFF
    } else {
        (hi >> 39) & 0x1FF_FFFF == 0
    }) && (((lo >> 38) & 1 == 1) == ((hi >> 38) & 1 == 1)) && lo <= v <= hi ==> ((if (v >> 38) & 1
        == 1 {
        (v >> 39) & 0x1FF_FFFF == 0x1FF_FFFF
    } else {
        (v >> 39) & 0x1FF_FFFF == 0
    }) && (((v >> 38) & 1 == 1) == ((lo >> 38) & 1 == 1)))) by (bit_vector);
    crate::bits::lemma_bits_of_shapes(lo);
    crate::bits::lemma_bits_of_shapes(hi);
    crate::bits::lemma_bits_of_shapes(v);
    assert(bit_at(lo, 38) == ((lo >> 38) & 1 == 1));
    assert(bit_at(hi, 38) == ((hi >> 38) & 1 == 1));
    assert(bit_at(v, 38) == ((v >> 38) & 1 == 1));
}

/// Every address below the sign-extension boundary is canonical on the low
/// side of the address hole.
pub proof fn lemma_low_half_canonical(a: u64)
    requires
        a < 0x40_0000_0000,
    ensures
        canonical(a),
        !bit_at(a, 38),
{
    assert(a < 0x40_0000_0000 ==> (a >> 38) & 1 == 0 && (a >> 39) & 0x1FF_FFFF == 0)
        by (bit_vector);
    crate::bits::lemma_bits_of_shapes(a);
}

/// A virtual address, canonically sign-extended above the implemented width.
#[derive(Debug, Copy, Clone, PartialEq, Eq, Structural)]
pub struct VirtAddr(pub u64);

impl VirtAddr {
    /// Wrap a raw virtual address; it must be correctly sign-extended.
    pub fn new(vaddr: u64) -> (r: Self)
        requires
            canonical(vaddr),
        ensures
            r.0 == vaddr,
    {
        VirtAddr(vaddr)
    }

    /// The raw address value.
    pub fn as_u64(self) -> (r: u64)
        ensures
            r == self.0,
    {
        self.0
    }

    /// The address rounded down to its page boundary.
    pub fn page_aligned(self) -> (r: Self)
        ensures
            r.0 == (self.0 / PAGE_SIZE) * PAGE_SIZE,
    {
        VirtAddr((self.0 / PAGE_SIZE) * PAGE_SIZE)
    }

    /// The offset of the address within its page.
    pub fn page_offset(self) -> (r: u64)
        ensures
            r == self.0 % PAGE_SIZE,
    {
        let r = get_bits(self.0, 0, 12);
        proof {
            crate::bits::lemma_bits_of_shapes(self.0);
        }
        r
    }

    /// Page-table index for the fourth (Sv48) level: bits 39..48.
    pub fn p4_index(self) -> (r: usize)
        ensures
            r == bits_of(self.0, 39, 48),
            r < 512,
    {
        index_bits(self.0, 39)
    }

    /// Page-table index for the third level: bits 30..39.
    pub fn p3_index(self) -> (r: usize)
        ensures
            r == bits_of(self.0, 30, 39),
            r < 512,
    {
        index_bits(self.0, 30)
    }

    /// Page-table index for the second level: bits 21..30.
    pub fn p2_index(self) -> (r: usize)
        ensures
            r == bits_of(self.0, 21, 30),
            r < 512,
    {
        index_bits(self.0, 21)
    }

    /// Page-table index for the first level: bits 12..21.
    pub fn p1_index(self) -> (r: usize)
        ensures
            r == bits_of(self.0, 12, 21),
            r < 512,
    {
        index_bits(self.0, 12)
    }

    /// The virtual page number: the address divided by the page size.
    pub fn page_number(self) -> (r: u64)
        ensures
            r == self.0 / PAGE_SIZE,
    {
        let r = get_bits(self.0, 12, 64);
        proof {
            crate::bits::lemma_bits_of_shapes(self.0);
        }
        r
    }
}

/// Extract one 9-bit page-table index starting at bit `lo`.
fn index_bits(x: u64, lo: u64) -> (r: usize)
    requires
        lo + 9 <= 64,
    ensures
        r == bits_of(x, lo, (lo + 9) as u64),
        r < 512,
{
    let r = get_bits(x, lo, lo + 9);
    proof {
        assert(low_mask(9) == 511) by (bit_vector);
    }
    r as usize
}

} // verus!
