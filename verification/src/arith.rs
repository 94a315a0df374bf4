//! The arithmetic kernel: IEEE-754 binary64 values carried as `u64` bit
//! patterns, with the operations done by outside software-float code.

use vstd::prelude::*;
use rustc_apfloat::Float;

verus! {

/// Bit pattern of the binary64 value +0.0.
pub const ZERO_BITS: u64 = 0;

/// Bit pattern of the binary64 value 1.0.
pub const ONE_BITS: u64 = 0x3FF0_0000_0000_0000;

/// Bit pattern of the binary64 value 2.0.
pub const TWO_BITS: u64 = 0x4000_0000_0000_0000;

/// Bit pattern of the binary64 value -1.0.
pub const NEG_ONE_BITS: u64 = 0xBFF0_0000_0000_0000;

/// The bit pattern of the binary64 sum of the two binary64 values the
/// arguments encode, rounded to nearest, ties to even.
pub uninterp spec fn add_bits(a: u64, b: u64) -> u64;

/// The bit pattern of the binary64 difference of the two binary64 values
/// the arguments encode, rounded to nearest, ties to even.
pub uninterp spec fn sub_bits(a: u64, b: u64) -> u64;

/// The bit pattern of the binary64 product of the two binary64 values the
/// arguments encode, rounded to nearest, ties to even.
pub uninterp spec fn mul_bits(a: u64, b: u64) -> u64;

/// The bit pattern of the first binary64 value raised to the second.
pub uninterp spec fn pow_bits(a: u64, b: u64) -> u64;

/// A binary64 value is strictly greater than zero exactly when its bit
/// pattern has the sign bit clear and encodes neither +0.0 nor a NaN:
/// the patterns from 1 (the smallest positive subnormal) through
/// 0x7FF0_0000_0000_0000 (+infinity).
pub open spec fn pos_bits(a: u64) -> bool {
    1 <= a && a <= 0x7FF0_0000_0000_0000
}

/// Whether the binary64 value the argument encodes is strictly positive.
pub fn is_pos(a: u64) -> (r: bool)
    ensures
        r == pos_bits(a),
{
    1 <= a && a <= 0x7FF0_0000_0000_0000
}

/// Relies on rustc_apfloat's binary64 addition (`Add` on `ieee::Double`,
/// rounding to nearest, ties to even): the sum is a function of the two
/// bit patterns alone.
#[verifier::external_body]
pub(crate) fn add_val(a: u64, b: u64) -> (r: u64)
    ensures
        r == add_bits(a, b),
{
    let s = rustc_apfloat::ieee::Double::from_bits(a as u128)
        + rustc_apfloat::ieee::Double::from_bits(b as u128);
    s.value.to_bits() as u64
}

/// Relies on rustc_apfloat's binary64 subtraction (`Sub` on `ieee::Double`,
/// rounding to nearest, ties to even): the difference is a function of the
/// two bit patterns alone.
#[verifier::external_body]
pub(crate) fn sub_val(a: u64, b: u64) -> (r: u64)
    ensures
        r == sub_bits(a, b),
{
    let s = rustc_apfloat::ieee::Double::from_bits(a as u128)
        - rustc_apfloat::ieee::Double::from_bits(b as u128);
    s.value.to_bits() as u64
}

/// Relies on rustc_apfloat's binary64 multiplication (`Mul` on
/// `ieee::Double`, rounding to nearest, ties to even): the product is a
/// function of the two bit patterns alone.
#[verifier::external_body]
pub(crate) fn mul_val(a: u64, b: u64) -> (r: u64)
    ensures
        r == mul_bits(a, b),
{
    let s = rustc_apfloat::ieee::Double::from_bits(a as u128)
        * rustc_apfloat::ieee::Double::from_bits(b as u128);
    s.value.to_bits() as u64
}

/// Relies on libm::pow, with bytemuck::cast to view each bit pattern as a
/// binary64 value. Which inputs produce a NaN (a NaN operand, or a
/// negative base with a non-integer exponent) is decided by libm's own
/// code, but the payload of such a NaN comes from host arithmetic and
/// may differ between machines, so the conversion of the result
/// canonicalizes every NaN to the one quiet-NaN pattern: the returned
/// bits are then a function of the two argument bit patterns alone.
#[verifier::external_body]
pub(crate) fn pow_val(a: u64, b: u64) -> (r: u64)
    ensures
        r == pow_bits(a, b),
{
    let p = libm::pow(bytemuck::cast(a), bytemuck::cast(b));
    if p.is_nan() {
        0x7FF8_0000_0000_0000
    } else {
        p.to_bits()
    }
}

/// Relies on rand::random: a fresh pseudo-random 64-bit word. Nothing is
/// promised of the value.
#[verifier::external_body]
pub(crate) fn random_word() -> u64 {
    rand::random()
}

} // verus!
