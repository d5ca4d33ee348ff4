//! Trusted arithmetic on IEEE-754 binary64 bit patterns.
//!
//! The four rounding operations of the format are carried out by
//! `rustc_apfloat`, a software implementation of IEEE-754 arithmetic that
//! works on raw bit patterns and rounds to nearest, ties to even, exactly as
//! the hardware format does.  Each result is given a name; the rest of the
//! crate reasons about those names.
use vstd::prelude::*;
use rustc_apfloat::Float;
use crate::fbits::is_nan_bits;

verus! {

pub uninterp spec fn add_bits(a: u64, b: u64) -> u64;

pub uninterp spec fn sub_bits(a: u64, b: u64) -> u64;

pub uninterp spec fn mul_bits(a: u64, b: u64) -> u64;

pub uninterp spec fn div_bits(a: u64, b: u64) -> u64;

/// Relies on `rustc_apfloat::ieee::Double`'s `Add`: the rounded sum depends
/// on the operand patterns alone; its `add_r` treats non-NaN operands
/// symmetrically, and a single NaN operand propagates whichever side it is
/// on, so the sum is commutative unless both operands are NaN.
#[verifier::external_body]
pub(crate) fn bits_add(a: u64, b: u64) -> (r: u64)
    ensures
        r == add_bits(a, b),
        !(is_nan_bits(a) && is_nan_bits(b)) ==> r == add_bits(b, a),
{
    let x = rustc_apfloat::ieee::Double::from_bits(a as u128);
    let y = rustc_apfloat::ieee::Double::from_bits(b as u128);
    (x + y).value.to_bits() as u64
}

/// Relies on `rustc_apfloat::ieee::Double`'s `Sub`: the rounded difference
/// depends on the operand patterns alone.
#[verifier::external_body]
pub(crate) fn bits_sub(a: u64, b: u64) -> (r: u64)
    ensures
        r == sub_bits(a, b),
{
    let x = rustc_apfloat::ieee::Double::from_bits(a as u128);
    let y = rustc_apfloat::ieee::Double::from_bits(b as u128);
    (x - y).value.to_bits() as u64
}

/// Relies on `rustc_apfloat::ieee::Double`'s `Mul`: the rounded product
/// depends on the operand patterns alone; its `mul_r` treats non-NaN
/// operands symmetrically and propagates a single NaN operand from either
/// side, so the product is commutative unless both operands are NaN; and a
/// NaN arising from non-NaN operands (zero times infinity) is the format's
/// one canonical quiet NaN.
#[verifier::external_body]
pub(crate) fn bits_mul(a: u64, b: u64) -> (r: u64)
    ensures
        r == mul_bits(a, b),
        !(is_nan_bits(a) && is_nan_bits(b)) ==> r == mul_bits(b, a),
        !is_nan_bits(a) && !is_nan_bits(b) && is_nan_bits(r) ==> r == 0x7FF8_0000_0000_0000u64,
{
    let x = rustc_apfloat::ieee::Double::from_bits(a as u128);
    let y = rustc_apfloat::ieee::Double::from_bits(b as u128);
    (x * y).value.to_bits() as u64
}

/// Relies on `rustc_apfloat::ieee::Double`'s `Div`: the rounded quotient
/// depends on the operand patterns alone.
#[verifier::external_body]
pub(crate) fn bits_div(a: u64, b: u64) -> (r: u64)
    ensures
        r == div_bits(a, b),
{
    let x = rustc_apfloat::ieee::Double::from_bits(a as u128);
    let y = rustc_apfloat::ieee::Double::from_bits(b as u128);
    (x / y).value.to_bits() as u64
}

} // verus!
