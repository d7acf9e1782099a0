//! IEEE-754 binary64 values held as their bit patterns, and the ordering
//! relation of binary64 numbers stated over those patterns.

use vstd::prelude::*;

verus! {

/// Mask of the exponent field.
pub const EXPONENT_MASK: u64 = 0x7ff0_0000_0000_0000u64;

/// Mask of the fraction (mantissa) field.
pub const FRACTION_MASK: u64 = 0x000f_ffff_ffff_ffffu64;

/// Mask of the sign bit.
pub const SIGN_MASK: u64 = 0x8000_0000_0000_0000u64;

/// Mask of every bit but the sign bit.
pub const MAGNITUDE_MASK: u64 = 0x7fff_ffff_ffff_ffffu64;

/// The pattern is a NaN: all exponent bits set and a nonzero fraction.
pub open spec fn is_nan(b: u64) -> bool {
    (b & EXPONENT_MASK) == EXPONENT_MASK && (b & FRACTION_MASK) != 0
}

/// The pattern is +0.0 or -0.0.
pub open spec fn is_zero(b: u64) -> bool {
    (b & MAGNITUDE_MASK) == 0
}

/// A key whose unsigned order is the numeric order of non-NaN binary64 values
/// (with -0.0 placed just below +0.0).
pub open spec fn order_key(b: u64) -> u64 {
    if (b & SIGN_MASK) != 0 {
        !b
    } else {
        b | SIGN_MASK
    }
}

/// `a < b` as binary64 numbers: false when either is NaN, and
/// -0.0 and +0.0 compare equal.
pub open spec fn lt(a: u64, b: u64) -> bool {
    &&& !is_nan(a)
    &&& !is_nan(b)
    &&& !(is_zero(a) && is_zero(b))
    &&& order_key(a) < order_key(b)
}

/// The bit pattern of +0.0.
pub open spec fn positive_zero() -> u64 {
    0u64
}

/// The keys of the two zeros are adjacent, and nothing else has them.
proof fn lemma_zero_keys(b: u64)
    ensures
        is_zero(b) <==> (order_key(b) == 0x7fff_ffff_ffff_ffffu64 || order_key(b)
            == 0x8000_0000_0000_0000u64),
{
    assert(((b & 0x7fff_ffff_ffff_ffffu64) == 0) <==> ((if (b & 0x8000_0000_0000_0000u64) != 0 {
        !b
    } else {
        b | 0x8000_0000_0000_0000u64
    }) == 0x7fff_ffff_ffff_ffffu64 || (if (b & 0x8000_0000_0000_0000u64) != 0 {
        !b
    } else {
        b | 0x8000_0000_0000_0000u64
    }) == 0x8000_0000_0000_0000u64)) by (bit_vector);
}

/// On non-NaN patterns `lt` is a strict weak order: irreflexive,
/// asymmetric, and whenever `a < c` every `b` lies above `a` or below `c`.
pub proof fn lemma_lt_weak_order(a: u64, b: u64, c: u64)
    requires
        !is_nan(a),
        !is_nan(b),
        !is_nan(c),
    ensures
        !lt(a, a),
        lt(a, b) ==> !lt(b, a),
        lt(a, c) ==> lt(a, b) || lt(b, c),
{
    lemma_zero_keys(a);
    lemma_zero_keys(b);
    lemma_zero_keys(c);
}

/// Executable `a < b` on binary64 bit patterns.
pub fn less_than(a: u64, b: u64) -> (r: bool)
    ensures
        r == lt(a, b),
{
    let a_nan: bool = (a & EXPONENT_MASK) == EXPONENT_MASK && (a & FRACTION_MASK) != 0;
    let b_nan: bool = (b & EXPONENT_MASK) == EXPONENT_MASK && (b & FRACTION_MASK) != 0;
    if a_nan || b_nan {
        return false;
    }
    if (a & MAGNITUDE_MASK) == 0 && (b & MAGNITUDE_MASK) == 0 {
        return false;
    }
    let ka: u64 = if (a & SIGN_MASK) != 0 {
        !a
    } else {
        a | SIGN_MASK
    };
    let kb: u64 = if (b & SIGN_MASK) != 0 {
        !b
    } else {
        b | SIGN_MASK
    };
    ka < kb
}

/// `lt` is the numeric order of binary64 values, read off the patterns:
/// NaN compares with nothing; among non-negative patterns (sign bit clear)
/// the larger pattern is the larger number; among negative ones the larger
/// magnitude is the smaller number; a negative value is below a
/// non-negative one unless both are zeros; a non-negative value is never
/// below a negative one.
pub proof fn law_binary64_order(a: u64, b: u64)
    ensures
        is_nan(a) || is_nan(b) ==> !lt(a, b),
        !is_nan(a) && !is_nan(b) && (a & SIGN_MASK) == 0 && (b & SIGN_MASK) == 0 ==> (lt(a, b) <==> a
            < b),
        !is_nan(a) && !is_nan(b) && (a & SIGN_MASK) != 0 && (b & SIGN_MASK) != 0 ==> (lt(a, b) <==> (a
            & MAGNITUDE_MASK) > (b & MAGNITUDE_MASK)),
        !is_nan(a) && !is_nan(b) && (a & SIGN_MASK) != 0 && (b & SIGN_MASK) == 0 ==> (lt(a, b) <==> !(
        is_zero(a) && is_zero(b))),
        !is_nan(a) && !is_nan(b) && (a & SIGN_MASK) == 0 && (b & SIGN_MASK) != 0 ==> !lt(a, b),
{
    assert(((a & 0x8000_0000_0000_0000u64) == 0 && (b & 0x8000_0000_0000_0000u64) == 0) ==> (((a
        | 0x8000_0000_0000_0000u64) < (b | 0x8000_0000_0000_0000u64)) == (a < b))) by (bit_vector);
    assert(((a & 0x8000_0000_0000_0000u64) != 0 && (b & 0x8000_0000_0000_0000u64) != 0) ==> ((!a
        < !b) == ((a & 0x7fff_ffff_ffff_ffffu64) > (b & 0x7fff_ffff_ffff_ffffu64)))) by (bit_vector);
    assert(((a & 0x8000_0000_0000_0000u64) != 0 && (b & 0x8000_0000_0000_0000u64) == 0) ==> (!a < (b
        | 0x8000_0000_0000_0000u64))) by (bit_vector);
    assert(((a & 0x8000_0000_0000_0000u64) == 0 && (b & 0x8000_0000_0000_0000u64) != 0) ==> !((a
        | 0x8000_0000_0000_0000u64) < !b)) by (bit_vector);
    assert(((a & 0x8000_0000_0000_0000u64) == 0 && (b & 0x8000_0000_0000_0000u64) == 0 && (a
        & 0x7fff_ffff_ffff_ffffu64) == 0 && (b & 0x7fff_ffff_ffff_ffffu64) == 0) ==> a == b) by (bit_vector);
    assert(((a & 0x8000_0000_0000_0000u64) != 0 && (b & 0x8000_0000_0000_0000u64) != 0 && (a
        & 0x7fff_ffff_ffff_ffffu64) == 0 && (b & 0x7fff_ffff_ffff_ffffu64) == 0) ==> a == b) by (bit_vector);
}

} // verus!
