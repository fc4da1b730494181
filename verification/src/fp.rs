//! The trusted boundary around IEEE 754 binary64 arithmetic.
//!
//! Values are carried everywhere as bit patterns (`u64`). The operations a
//! solve needs — parsing a decimal token, division, multiplication,
//! subtraction, and rendering — are performed by `rustc_apfloat`, a software
//! implementation of IEEE 754 binary64 that works directly on bit patterns.
//! Each operation is deterministic in its argument bits, so its result is
//! given an uninterpreted name that the callers' contracts speak of.

use rustc_apfloat::Float;
use rustc_apfloat::ieee::Double;
use vstd::prelude::*;

verus! {

/// Bit pattern of positive zero: all bits clear.
pub const POS_ZERO_BITS: u64 = 0x0000_0000_0000_0000;

/// Bit pattern of negative zero: only the sign bit set.
pub const NEG_ZERO_BITS: u64 = 0x8000_0000_0000_0000;

/// A binary64 value equals zero exactly when every bit besides the sign bit
/// is clear, i.e. the pattern encodes positive or negative zero.
pub open spec fn is_zero_bits(b: u64) -> bool {
    b == POS_ZERO_BITS || b == NEG_ZERO_BITS
}

/// Exact-zero test on a binary64 bit pattern.
pub fn is_zero(b: u64) -> (r: bool)
    ensures
        r == is_zero_bits(b),
{
    b == POS_ZERO_BITS || b == NEG_ZERO_BITS
}

/// The bit pattern the decimal token `s` parses to, or `None` when `s` is
/// not a valid numeric token.
pub uninterp spec fn parse_bits_of(s: Seq<char>) -> Option<u64>;

/// Bit pattern of the round-to-nearest-even binary64 quotient of the values
/// encoded by `a` and `b`.
pub uninterp spec fn div_bits(a: u64, b: u64) -> u64;

/// Bit pattern of the round-to-nearest-even binary64 product of the values
/// encoded by `a` and `b`.
pub uninterp spec fn mul_bits(a: u64, b: u64) -> u64;

/// Bit pattern of the round-to-nearest-even binary64 difference of the
/// values encoded by `a` and `b`.
pub uninterp spec fn sub_bits(a: u64, b: u64) -> u64;

/// The text the value encoded by `b` renders to.
pub uninterp spec fn fmt_bits(b: u64) -> Seq<char>;

/// Relies on `rustc_apfloat::ieee::Double`'s `FromStr`: correctly rounded
/// (nearest-even) conversion of a decimal token to binary64, an error for a
/// malformed token. The result depends on the token alone.
#[verifier::external_body]
pub(crate) fn parse_number(s: &str) -> (r: Option<u64>)
    ensures
        r == parse_bits_of(s@),
{
    match s.parse::<Double>() {
        Ok(d) => Some(d.to_bits() as u64),
        Err(_) => None,
    }
}

/// Relies on `rustc_apfloat::ieee::Double`'s `Div`: the IEEE 754 binary64
/// quotient, rounded to nearest-even, deterministic in the operand bits.
#[verifier::external_body]
pub(crate) fn fdiv(a: u64, b: u64) -> (r: u64)
    ensures
        r == div_bits(a, b),
{
    (Double::from_bits(a as u128) / Double::from_bits(b as u128)).value.to_bits() as u64
}

/// Relies on `rustc_apfloat::ieee::Double`'s `Mul`: the IEEE 754 binary64
/// product, rounded to nearest-even, deterministic in the operand bits.
#[verifier::external_body]
pub(crate) fn fmul(a: u64, b: u64) -> (r: u64)
    ensures
        r == mul_bits(a, b),
{
    (Double::from_bits(a as u128) * Double::from_bits(b as u128)).value.to_bits() as u64
}

/// Relies on `rustc_apfloat::ieee::Double`'s `Sub`: the IEEE 754 binary64
/// difference, rounded to nearest-even, deterministic in the operand bits.
#[verifier::external_body]
pub(crate) fn fsub(a: u64, b: u64) -> (r: u64)
    ensures
        r == sub_bits(a, b),
{
    (Double::from_bits(a as u128) - Double::from_bits(b as u128)).value.to_bits() as u64
}

/// Relies on `rustc_apfloat::ieee::Double`'s `Display`: a decimal rendering
/// of the encoded value, deterministic in the bits.
#[verifier::external_body]
pub(crate) fn fmt_value(b: u64) -> (r: String)
    ensures
        r@ == fmt_bits(b),
{
    format!("{}", Double::from_bits(b as u128))
}

} // verus!
