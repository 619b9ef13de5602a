//! Double-precision numbers, read by their bits.
//!
//! This crate does no arithmetic on doubles. Where it has to compare or
//! round one, it takes the 64 bits of its IEEE 754 form: the top bit is the
//! sign, the next eleven are the exponent field, the last 52 the fraction.
//!
//! The modules that compare ray parameters take each as an integer rank.
//! Exponent and fraction together form the magnitude field, and among
//! numbers of one sign a larger field means a number farther from zero.
//! Ranks built from it therefore order as the numbers themselves do, with
//! both zeros at rank 0, negative numbers below and positive numbers above.

use vstd::arithmetic::power2::{lemma2_to64, lemma_pow2_adds, lemma_pow2_pos, pow2};
use vstd::prelude::*;

verus! {

/// The sign bit of a double.
pub const SIGN: u64 = 0x8000_0000_0000_0000;

/// The bits of a double below its sign bit.
pub const MAGNITUDE: u64 = 0x7fff_ffff_ffff_ffff;

/// The magnitude field of an infinity, the largest of any number. Above it
/// lie the bit patterns that stand for no number.
pub const INFINITY: u64 = 0x7ff0_0000_0000_0000;

/// The fraction bits of a double.
pub const FRACTION: u64 = 0x000f_ffff_ffff_ffff;

/// The leading bit of a normal number's significand, which the fraction
/// leaves unwritten.
pub const HIDDEN: u64 = 0x0010_0000_0000_0000;

/// The magnitude field of these bits.
pub open spec fn magnitude(bits: u64) -> u64 {
    bits & MAGNITUDE
}

/// Whether the sign bit is set.
pub open spec fn is_negative(bits: u64) -> bool {
    bits & SIGN != 0
}

/// Whether these bits stand for a number, an infinity included.
pub open spec fn is_number(bits: u64) -> bool {
    magnitude(bits) <= INFINITY
}

/// The exponent field of these bits.
pub open spec fn exponent(bits: u64) -> nat {
    (magnitude(bits) >> 52) as nat
}

/// The significand of the number with these bits, as a whole number: the
/// fraction, led by the hidden bit unless the exponent field is zero.
pub open spec fn significand(bits: u64) -> nat {
    if exponent(bits) == 0 {
        (bits & FRACTION) as nat
    } else {
        (bits & FRACTION) as nat + HIDDEN as nat
    }
}

/// The power of two that the significand is scaled by, plus 1075: a finite
/// number with these bits has the magnitude `significand * 2^(scale - 1075)`.
pub open spec fn scale(bits: u64) -> nat {
    if exponent(bits) == 0 {
        1
    } else {
        exponent(bits)
    }
}

/// Whether these bits stand for a finite number.
pub open spec fn is_finite(bits: u64) -> bool {
    magnitude(bits) < INFINITY
}

/// The size of a finite number, in units of `2^-1075`: a whole number that
/// is proportional to the number's distance from zero.
pub open spec fn weight(bits: u64) -> nat {
    significand(bits) * pow2(scale(bits))
}

/// The rank of the number with these bits: its magnitude field, counted
/// downwards from zero where the sign bit is set.
pub open spec fn rank_of(bits: u64) -> int {
    if is_negative(bits) {
        -(magnitude(bits) as int)
    } else {
        magnitude(bits) as int
    }
}

/// The rank of the double with these bits, or `None` if they stand for no
/// number.
pub fn rank(bits: u64) -> (r: Option<i64>)
    ensures
        match r {
            Some(rank) => is_number(bits) && rank == rank_of(bits),
            None => !is_number(bits),
        },
{
    let field = bits & MAGNITUDE;
    assert(bits & 0x7fff_ffff_ffff_ffff <= 0x7fff_ffff_ffff_ffff) by (bit_vector);
    if field > INFINITY {
        None
    } else if bits & SIGN != 0 {
        Some(-(field as i64))
    } else {
        Some(field as i64)
    }
}

/// The sign of a rank is the sign of its number: zero for both zeros,
/// negative below, positive above.
pub proof fn lemma_rank_sign(bits: u64)
    ensures
        rank_of(bits) == 0 <==> magnitude(bits) == 0,
        rank_of(bits) < 0 <==> is_negative(bits) && magnitude(bits) != 0,
        rank_of(bits) > 0 <==> !is_negative(bits) && magnitude(bits) != 0,
{
}

/// Two doubles share a rank only if they are the same double or are both
/// zero.
pub proof fn lemma_rank_tells_apart(a: u64, b: u64)
    ensures
        rank_of(a) == rank_of(b) <==> a == b || (magnitude(a) == 0 && magnitude(b) == 0),
{
    assert((a & 0x8000_0000_0000_0000 != 0) == (b & 0x8000_0000_0000_0000 != 0) && a
        & 0x7fff_ffff_ffff_ffff == b & 0x7fff_ffff_ffff_ffff ==> a == b) by (bit_vector);
}

/// Among finite numbers the magnitude field orders as the sizes do: the
/// field of one number is below that of another exactly if the number lies
/// nearer to zero.
pub proof fn lemma_magnitude_orders_as_weight(a: u64, b: u64)
    requires
        is_finite(a),
        is_finite(b),
    ensures
        magnitude(a) < magnitude(b) <==> weight(a) < weight(b),
        magnitude(a) == magnitude(b) <==> weight(a) == weight(b),
{
    if magnitude(a) < magnitude(b) {
        lemma_field_below_weighs_less(a, b);
    } else if magnitude(b) < magnitude(a) {
        lemma_field_below_weighs_less(b, a);
    } else {
        assert((a & 0x7fff_ffff_ffff_ffff) & 0x000f_ffff_ffff_ffff == a & 0x000f_ffff_ffff_ffff)
            by (bit_vector);
        assert((b & 0x7fff_ffff_ffff_ffff) & 0x000f_ffff_ffff_ffff == b & 0x000f_ffff_ffff_ffff)
            by (bit_vector);
    }
}

/// A finite number with the smaller magnitude field has the smaller size.
proof fn lemma_field_below_weighs_less(a: u64, b: u64)
    requires
        is_finite(a),
        is_finite(b),
        magnitude(a) < magnitude(b),
    ensures
        weight(a) < weight(b),
{
    let m = magnitude(a);
    let n = magnitude(b);
    assert((a & 0x7fff_ffff_ffff_ffff) & 0x000f_ffff_ffff_ffff == a & 0x000f_ffff_ffff_ffff)
        by (bit_vector);
    assert((b & 0x7fff_ffff_ffff_ffff) & 0x000f_ffff_ffff_ffff == b & 0x000f_ffff_ffff_ffff)
        by (bit_vector);
    assert((m >> 52) < (n >> 52) || ((m >> 52) == (n >> 52) && (m & 0x000f_ffff_ffff_ffff) < (n
        & 0x000f_ffff_ffff_ffff))) by (bit_vector)
        requires
            m < n,
    ;
    assert((m & 0x000f_ffff_ffff_ffff) < 0x0010_0000_0000_0000) by (bit_vector);
    assert((n & 0x000f_ffff_ffff_ffff) < 0x0010_0000_0000_0000) by (bit_vector);
    let p = pow2(scale(a));
    let q = pow2(scale(b));
    lemma_pow2_pos(scale(a));
    lemma_pow2_pos(scale(b));
    if scale(a) == scale(b) {
        assert(significand(a) < significand(b));
        assert(significand(a) * p < significand(b) * p) by (nonlinear_arith)
            requires
                significand(a) < significand(b),
                p > 0,
        ;
    } else {
        let more = (scale(b) - scale(a)) as nat;
        lemma_pow2_adds(scale(a), more);
        lemma_pow2_adds(1, (more - 1) as nat);
        lemma_pow2_pos((more - 1) as nat);
        assert(pow2(1) == 2) by {
            lemma2_to64();
        }
        assert(significand(a) * p < significand(b) * q) by (nonlinear_arith)
            requires
                significand(a) < 2 * 0x0010_0000_0000_0000,
                significand(b) >= 0x0010_0000_0000_0000,
                q == p * pow2(more),
                pow2(more) == 2 * pow2((more - 1) as nat),
                pow2((more - 1) as nat) >= 1,
                p > 0,
        ;
    }
}

/// Every number ranks between the two infinities.
pub proof fn lemma_rank_within_infinities(bits: u64)
    requires
        is_number(bits),
    ensures
        -(INFINITY as int) <= rank_of(bits) <= INFINITY as int,
{
}

} // verus!
