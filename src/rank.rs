//! Ranks: double-precision values placed on the integers by the IEEE-754
//! total order.
//!
//! A double is stored as a sign bit followed by a 63-bit magnitude, and for
//! two values of one sign a larger magnitude means a value further from zero.
//! The rank of a non-negative value is its magnitude; the rank of a negative
//! value is `-magnitude - 1`. The map is a bijection between the 2^64 bit
//! patterns and the `i64` range, and orders values as `f64::total_cmp` does:
//! it agrees with `<` on all non-NaN values, with `-0.0` ranked just below
//! `+0.0`.
use vstd::prelude::*;

verus! {

/// The rank of positive infinity.
pub const POS_INFINITY_RANK: i64 = 0x7ff0_0000_0000_0000;

/// The rank of negative infinity.
pub const NEG_INFINITY_RANK: i64 = -0x7ff0_0000_0000_0001;

/// Bit patterns from this one upward have the sign bit set.
pub const SIGN_BIT: u64 = 0x8000_0000_0000_0000;

/// The rank of a bit pattern, as a mathematical integer.
pub open spec fn rank_spec(bits: u64) -> int {
    if bits < SIGN_BIT {
        bits as int
    } else {
        -((bits - SIGN_BIT) as int) - 1
    }
}

/// The rank of the double whose bit pattern is `bits` (as `f64::to_bits` gives it).
pub fn rank_from_bits(bits: u64) -> (r: i64)
    ensures
        r as int == rank_spec(bits),
{
    if bits < SIGN_BIT {
        bits as i64
    } else {
        let magnitude: u64 = bits - SIGN_BIT;
        -(magnitude as i64) - 1
    }
}

/// The bit pattern whose rank is `r`.
pub open spec fn unrank_spec(r: int) -> u64 {
    if r >= 0 {
        r as u64
    } else {
        ((-(r + 1)) + SIGN_BIT) as u64
    }
}

/// The bit pattern of the double of rank `r` (for `f64::from_bits`).
pub fn bits_from_rank(r: i64) -> (bits: u64)
    ensures
        bits == unrank_spec(r as int),
{
    if r >= 0 {
        r as u64
    } else {
        let magnitude: i64 = -(r + 1);
        magnitude as u64 + SIGN_BIT
    }
}

/// From bits to rank and back gives the bits one started from, and every
/// rank lies in the `i64` range.
pub proof fn lemma_bits_round_trip(bits: u64)
    ensures
        i64::MIN <= rank_spec(bits) <= i64::MAX,
        unrank_spec(rank_spec(bits)) == bits,
{
}

/// From a rank to bits and back gives the rank one started from.
pub proof fn lemma_rank_round_trip(r: i64)
    ensures
        rank_spec(unrank_spec(r as int)) == r as int,
{
}

/// For two patterns with the sign bit clear, a larger magnitude ranks higher;
/// with the sign bit set, a larger magnitude ranks lower; and every negative
/// pattern ranks below every non-negative one.
pub proof fn lemma_rank_orders_sign_magnitude(a: u64, b: u64)
    ensures
        a < SIGN_BIT && b < SIGN_BIT ==> (rank_spec(a) < rank_spec(b) <==> a < b),
        a >= SIGN_BIT && b >= SIGN_BIT ==> (rank_spec(a) < rank_spec(b) <==> a > b),
        a >= SIGN_BIT && b < SIGN_BIT ==> rank_spec(a) < rank_spec(b),
{
}

} // verus!
