//! IEEE-754 single-precision arithmetic, performed on the raw bit patterns.
//!
//! The engine's values and fractional rows are single-precision numbers; the
//! library carries them as their `u32` bit patterns and computes with them
//! through `rustc_apfloat`, a pure-software IEEE-754 implementation, in the
//! default rounding mode (nearest, ties to even). Each operation's result is
//! a function of the argument bits alone; the spec functions below name those
//! results, and every contract that speaks of an interpolated value speaks of
//! these names.
use vstd::prelude::*;

use rustc_apfloat::Float;
use rustc_apfloat::Round;
use rustc_apfloat::ieee::Single;

verus! {

pub uninterp spec fn add_bits(a: u32, b: u32) -> u32;

pub uninterp spec fn sub_bits(a: u32, b: u32) -> u32;

pub uninterp spec fn mul_bits(a: u32, b: u32) -> u32;

pub uninterp spec fn div_bits(a: u32, b: u32) -> u32;

pub uninterp spec fn floor_bits(a: u32) -> u32;

pub uninterp spec fn bits_trunc_u32(a: u32) -> u32;

pub uninterp spec fn u32_to_bits(x: u32) -> u32;

/// Relies on `rustc_apfloat::ieee::Single`'s `Add` (`add_r`, nearest-even):
/// IEEE single-precision addition on the bit patterns.
#[verifier::external_body]
pub(crate) fn fp_add(a: u32, b: u32) -> (r: u32)
    ensures
        r == add_bits(a, b),
{
    let x = Single::from_bits(a as u128);
    let y = Single::from_bits(b as u128);
    (x + y).value.to_bits() as u32
}

/// Relies on `rustc_apfloat::ieee::Single`'s `Sub` (`sub_r`, nearest-even):
/// IEEE single-precision subtraction on the bit patterns.
#[verifier::external_body]
pub(crate) fn fp_sub(a: u32, b: u32) -> (r: u32)
    ensures
        r == sub_bits(a, b),
{
    let x = Single::from_bits(a as u128);
    let y = Single::from_bits(b as u128);
    (x - y).value.to_bits() as u32
}

/// Relies on `rustc_apfloat::ieee::Single`'s `Mul` (`mul_r`, nearest-even):
/// IEEE single-precision multiplication on the bit patterns.
#[verifier::external_body]
pub(crate) fn fp_mul(a: u32, b: u32) -> (r: u32)
    ensures
        r == mul_bits(a, b),
{
    let x = Single::from_bits(a as u128);
    let y = Single::from_bits(b as u128);
    (x * y).value.to_bits() as u32
}

/// Relies on `rustc_apfloat::ieee::Single`'s `Div` (`div_r`, nearest-even):
/// IEEE single-precision division on the bit patterns.
#[verifier::external_body]
pub(crate) fn fp_div(a: u32, b: u32) -> (r: u32)
    ensures
        r == div_bits(a, b),
{
    let x = Single::from_bits(a as u128);
    let y = Single::from_bits(b as u128);
    (x / y).value.to_bits() as u32
}

/// Relies on `rustc_apfloat::Float::round_to_integral` with rounding toward
/// negative: the IEEE floor of the single-precision number, on the bit
/// patterns.
#[verifier::external_body]
pub(crate) fn fp_floor(a: u32) -> (r: u32)
    ensures
        r == floor_bits(a),
{
    let x = Single::from_bits(a as u128);
    x.round_to_integral(Round::TowardNegative).value.to_bits() as u32
}

/// Relies on `rustc_apfloat::Float::to_u128_r` at width 32, rounding toward
/// zero: the saturating conversion of the single-precision number to `u32`
/// (NaN to zero, negatives to zero, overflow to the maximum), as an `as`
/// cast performs it.
#[verifier::external_body]
pub(crate) fn fp_trunc_u32(a: u32) -> (r: u32)
    ensures
        r == bits_trunc_u32(a),
{
    let x = Single::from_bits(a as u128);
    let mut exact = false;
    x.to_u128_r(32, Round::TowardZero, &mut exact).value as u32
}

/// Relies on `rustc_apfloat::Float::from_u128` (nearest-even): the
/// single-precision number nearest to the integer, as bit patterns.
#[verifier::external_body]
pub(crate) fn fp_from_u32(x: u32) -> (r: u32)
    ensures
        r == u32_to_bits(x),
{
    Single::from_u128(x as u128).value.to_bits() as u32
}

} // verus!
