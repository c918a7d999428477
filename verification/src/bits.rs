//! Bit-field extraction and single-bit update on 64-bit words, with exact
//! specifications. Address decomposition and status-register fabrication are
//! built on these.
use vstd::prelude::*;

verus! {

/// A mask with the low `w` bits set.
pub open spec fn low_mask(w: u64) -> u64 {
    if w >= 64 {
        !0u64
    } else {
        ((1u64 << w) - 1) as u64
    }
}

/// The bit field `[lo, hi)` of `x`, shifted down to the low bits.
pub open spec fn bits_of(x: u64, lo: u64, hi: u64) -> u64
    recommends
        lo <= hi <= 64,
{
    (x >> lo) & low_mask((hi - lo) as u64)
}

/// Bit `i` of `x`.
pub open spec fn bit_at(x: u64, i: u64) -> bool
    recommends
        i < 64,
{
    (x >> i) & 1 == 1
}

/// `x` with bit `i` forced to `v`.
pub open spec fn spec_set_bit(x: u64, i: u64, v: bool) -> u64
    recommends
        i < 64,
{
    if v {
        x | (1u64 << i)
    } else {
        x & !(1u64 << i)
    }
}

/// Extract the bit field `[lo, hi)` of `x`.
pub fn get_bits(x: u64, lo: u64, hi: u64) -> (r: u64)
    requires
        lo < hi <= 64,
    ensures
        r == bits_of(x, lo, hi),
        r <= low_mask((hi - lo) as u64),
{
    let w = hi - lo;
    let mask = if w >= 64 {
        !0u64
    } else {
        proof {
            assert(w < 64 ==> 1u64 << w >= 1) by (bit_vector);
        }
        (1u64 << w) - 1
    };
    let r = (x >> lo) & mask;
    proof {
        assert(r <= mask) by (bit_vector)
            requires
                r == (x >> lo) & mask,
        ;
    }
    r
}

/// Read bit `i` of `x`.
pub fn get_bit(x: u64, i: u64) -> (r: bool)
    requires
        i < 64,
    ensures
        r == bit_at(x, i),
{
    (x >> i) & 1 == 1
}

/// Return `x` with bit `i` forced to `v`.
pub fn set_bit(x: u64, i: u64, v: bool) -> (r: u64)
    requires
        i < 64,
    ensures
        r == spec_set_bit(x, i, v),
{
    if v {
        x | (1u64 << i)
    } else {
        x & !(1u64 << i)
    }
}

/// How each bit field used by the paging layer reads as plain shift-mask
/// arithmetic.
pub proof fn lemma_bits_of_shapes(x: u64)
    ensures
        bits_of(x, 0, 12) == x % 4096,
        bits_of(x, 12, 64) == x / 4096,
        bits_of(x, 39, 64) == (x >> 39) & 0x1FF_FFFF,
        bits_of(x, 30, 39) == (x >> 30) & 0x1FF,
        bits_of(x, 21, 30) == (x >> 21) & 0x1FF,
        bits_of(x, 12, 21) == (x >> 12) & 0x1FF,
        bit_at(x, 38) == ((x >> 38) & 1 == 1),
{
    assert(bits_of(x, 0, 12) == x % 4096 && bits_of(x, 12, 64) == x / 4096 && bits_of(x, 39, 64)
        == (x >> 39) & 0x1FF_FFFF && bits_of(x, 30, 39) == (x >> 30) & 0x1FF && bits_of(x, 21, 30)
        == (x >> 21) & 0x1FF && bits_of(x, 12, 21) == (x >> 12) & 0x1FF) by (bit_vector);
}

/// Setting bit `i` changes exactly that bit: every other bit keeps its value.
pub proof fn lemma_set_bit_effect(x: u64, i: u64, v: bool, j: u64)
    requires
        i < 64,
        j < 64,
    ensures
        bit_at(spec_set_bit(x, i, v), j) == if i == j {
            v
        } else {
            bit_at(x, j)
        },
{
    if v {
        assert(((x | (1u64 << i)) >> j) & 1 == (if i == j {
            1u64
        } else {
            (x >> j) & 1
        })) by (bit_vector)
            requires
                i < 64 && j < 64,
        ;
    } else {
        assert(((x & !(1u64 << i)) >> j) & 1 == (if i == j {
            0u64
        } else {
            (x >> j) & 1
        })) by (bit_vector)
            requires
                i < 64 && j < 64,
        ;
    }
}

} // verus!
