//! Bit-level model of IEEE-754 binary64 scalars.
//!
//! Scalars travel through this crate as their raw 64-bit patterns, so that
//! the sign, zero, NaN and ordering structure of the format can be stated
//! and verified as plain integer logic.
use vstd::prelude::*;

verus! {

/// Mask of the sign bit.
pub const SIGN_MASK: u64 = 0x8000_0000_0000_0000;

/// Mask of everything but the sign bit (the magnitude).
pub const MAG_MASK: u64 = 0x7FFF_FFFF_FFFF_FFFF;

/// Mask of the biased-exponent field.
pub const EXP_MASK: u64 = 0x7FF0_0000_0000_0000;

/// Mask of the fraction field.
pub const FRAC_MASK: u64 = 0x000F_FFFF_FFFF_FFFF;

/// Bit pattern of positive zero.
pub const ZERO_BITS: u64 = 0;

/// Bit pattern of one.
pub const ONE_BITS: u64 = 0x3FF0_0000_0000_0000;

/// The pattern encodes a NaN: exponent field all ones, fraction non-zero.
pub open spec fn is_nan_bits(a: u64) -> bool {
    a & EXP_MASK == EXP_MASK && a & FRAC_MASK != 0
}

/// The pattern encodes an infinity.
pub open spec fn is_inf_bits(a: u64) -> bool {
    a & EXP_MASK == EXP_MASK && a & FRAC_MASK == 0
}

/// The pattern encodes a zero (of either sign).
pub open spec fn is_zero_bits(a: u64) -> bool {
    a & MAG_MASK == 0
}

/// The sign bit is set.
pub open spec fn is_neg_bits(a: u64) -> bool {
    a & SIGN_MASK != 0
}

/// Equality of the encoded values: zeros of both signs are equal, a NaN is
/// equal to nothing, everything else is equal exactly to its own pattern.
pub open spec fn f_eq(a: u64, b: u64) -> bool {
    &&& !is_nan_bits(a)
    &&& !is_nan_bits(b)
    &&& (a == b || (is_zero_bits(a) && is_zero_bits(b)))
}

/// Strict order of the encoded values: NaN is ordered below nothing and
/// above nothing; otherwise the format orders as sign and magnitude.
pub open spec fn f_lt(a: u64, b: u64) -> bool {
    if is_nan_bits(a) || is_nan_bits(b) {
        false
    } else if is_zero_bits(a) && is_zero_bits(b) {
        false
    } else if is_neg_bits(a) != is_neg_bits(b) {
        is_neg_bits(a)
    } else if !is_neg_bits(a) {
        a < b
    } else {
        b < a
    }
}

/// Non-strict order of the encoded values.
pub open spec fn f_le(a: u64, b: u64) -> bool {
    f_lt(a, b) || f_eq(a, b)
}

/// The pattern of the negated value: the sign bit flipped.
pub open spec fn neg_of(a: u64) -> u64 {
    a ^ SIGN_MASK
}

/// The pattern of the magnitude: the sign bit cleared.
pub open spec fn abs_of(a: u64) -> u64 {
    a & MAG_MASK
}

/// Negation of an encoded value flips the sign bit and nothing else.
pub fn neg_bits(a: u64) -> (r: u64)
    ensures
        r == neg_of(a),
{
    a ^ SIGN_MASK
}

/// Magnitude of an encoded value: the sign bit cleared.
pub fn abs_bits(a: u64) -> (r: u64)
    ensures
        r == abs_of(a),
{
    a & MAG_MASK
}

/// Decides `f_eq` on two patterns.
pub fn eq_bits(a: u64, b: u64) -> (r: bool)
    ensures
        r == f_eq(a, b),
{
    let a_nan: bool = a & EXP_MASK == EXP_MASK && a & FRAC_MASK != 0;
    let b_nan: bool = b & EXP_MASK == EXP_MASK && b & FRAC_MASK != 0;
    !a_nan && !b_nan && (a == b || (a & MAG_MASK == 0 && b & MAG_MASK == 0))
}

/// Decides `f_lt` on two patterns.
pub fn lt_bits(a: u64, b: u64) -> (r: bool)
    ensures
        r == f_lt(a, b),
{
    let a_nan: bool = a & EXP_MASK == EXP_MASK && a & FRAC_MASK != 0;
    let b_nan: bool = b & EXP_MASK == EXP_MASK && b & FRAC_MASK != 0;
    if a_nan || b_nan {
        false
    } else if a & MAG_MASK == 0 && b & MAG_MASK == 0 {
        false
    } else if (a & SIGN_MASK != 0) != (b & SIGN_MASK != 0) {
        a & SIGN_MASK != 0
    } else if a & SIGN_MASK == 0 {
        a < b
    } else {
        b < a
    }
}

/// Decides `f_le` on two patterns.
pub fn le_bits(a: u64, b: u64) -> (r: bool)
    ensures
        r == f_le(a, b),
{
    let lt: bool = lt_bits(a, b);
    let eq: bool = eq_bits(a, b);
    lt || eq
}

/// The pattern encodes a value that is a mathematical integer (zero counts;
/// infinities and NaN do not).
pub open spec fn is_integer_bits(a: u64) -> bool {
    if a & EXP_MASK == EXP_MASK {
        false
    } else if is_zero_bits(a) {
        true
    } else if (a >> 52) & 0x7FF < 1023 {
        false
    } else if (a >> 52) & 0x7FF >= 1075 {
        true
    } else {
        a & (low_mask_u64((1075 - ((a >> 52) & 0x7FF)) as u64)) == 0
    }
}

/// The low `k` bits set, for `k < 64`.
pub open spec fn low_mask_u64(k: u64) -> u64 {
    ((1u64 << k) - 1) as u64
}

/// Decides `is_integer_bits`: the encoded value has no fraction below the
/// binary point.
pub fn integer_valued_bits(a: u64) -> (r: bool)
    ensures
        r == is_integer_bits(a),
{
    let e: u64 = (a >> 52) & 0x7FF;
    if a & EXP_MASK == EXP_MASK {
        false
    } else if a & MAG_MASK == 0 {
        true
    } else if e < 1023 {
        false
    } else if e >= 1075 {
        true
    } else {
        let k: u64 = 1075 - e;
        assert(1u64 << k >= 1) by (bit_vector)
            requires
                k < 64,
        ;
        let mask: u64 = (1u64 << k) - 1;
        assert(mask == low_mask_u64(k));
        a & mask == 0
    }
}

} // verus!
