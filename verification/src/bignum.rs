//! Arbitrary-precision arithmetic on big-endian byte strings, through
//! `num-bigint`.
//!
//! Each function reads its operands with `from_bytes_be`, performs one
//! `num-bigint` operation and writes the result with `to_bytes_be`, which
//! yields the shortest big-endian encoding (a single zero byte for zero).

use num_bigint::{BigInt, BigUint, Sign};
use vstd::arithmetic::power2::pow2;
use vstd::prelude::*;

use crate::bytes::{be_min, be_value};

verus! {

/// The signed value of a sign flag and a big-endian magnitude.
pub open spec fn signed_value(negative: bool, magnitude: Seq<u8>) -> int {
    if negative {
        -(be_value(magnitude) as int)
    } else {
        be_value(magnitude) as int
    }
}

/// The absolute value of `x`.
pub open spec fn abs(x: int) -> nat {
    if x < 0 {
        (-x) as nat
    } else {
        x as nat
    }
}

/// `BigUint * BigUint`.
/// Claimed: the result encodes the product of the two operand values.
#[verifier::external_body]
pub(crate) fn biguint_mul_be(a: &[u8], b: &[u8]) -> (r: Vec<u8>)
    ensures
        r@ == be_min(be_value(a@) * be_value(b@)),
{
    (BigUint::from_bytes_be(a) * BigUint::from_bytes_be(b)).to_bytes_be()
}

/// `BigUint << usize`.
/// Claimed: the result encodes the operand value times 2^`shift`.
#[verifier::external_body]
pub(crate) fn biguint_shl_be(a: &[u8], shift: u8) -> (r: Vec<u8>)
    ensures
        r@ == be_min(be_value(a@) * pow2(shift as nat)),
{
    (BigUint::from_bytes_be(a) << (shift as usize)).to_bytes_be()
}

/// `BigUint >> usize`.
/// Claimed: the result encodes the operand value divided by 2^`shift`,
/// rounded down.
#[verifier::external_body]
pub(crate) fn biguint_shr_be(a: &[u8], shift: u8) -> (r: Vec<u8>)
    ensures
        r@ == be_min(be_value(a@) / pow2(shift as nat)),
{
    (BigUint::from_bytes_be(a) >> (shift as usize)).to_bytes_be()
}

/// `BigInt - BigInt`, the operands given as sign flags and big-endian
/// magnitudes (`Sign::Minus` for a set flag, `Sign::Plus` otherwise).
/// Claimed: the result is the sign of the difference (`true` exactly when it
/// is negative) and the shortest encoding of its magnitude.
#[verifier::external_body]
pub(crate) fn bigint_sub_be(a_negative: bool, a: &[u8], b_negative: bool, b: &[u8]) -> (r: (
    bool,
    Vec<u8>,
))
    ensures
        r.0 == (signed_value(a_negative, a@) - signed_value(b_negative, b@) < 0),
        r.1@ == be_min(abs(signed_value(a_negative, a@) - signed_value(b_negative, b@))),
{
    let sa = if a_negative { Sign::Minus } else { Sign::Plus };
    let sb = if b_negative { Sign::Minus } else { Sign::Plus };
    let difference = BigInt::from_bytes_be(sa, a) - BigInt::from_bytes_be(sb, b);
    let (sign, magnitude) = difference.to_bytes_be();
    match sign {
        Sign::Minus => (true, magnitude),
        Sign::NoSign => (false, magnitude),
        Sign::Plus => (false, magnitude),
    }
}

} // verus!
