//! The arbitrary-precision integers of `num_bigint`, as the verifier sees them.
//!
//! `BigInt` is opaque here. `int_value` names the mathematical integer that a
//! `BigInt` holds, and each function below states, without proof, what one
//! operation of `num_bigint` does to that integer.

use vstd::prelude::*;
use vstd::math::abs;
use core::cmp::Ordering;
use num_bigint::BigInt;
use crate::encoding::{bit_length, decimal, le_bytes, le_value, parse_decimal};

verus! {

/// `num_bigint::BigInt`: a signed integer of unbounded size.
#[verifier::external_type_specification]
#[verifier::external_body]
pub struct ExBigInt(num_bigint::BigInt);

/// The mathematical integer that a `BigInt` holds.
pub uninterp spec fn int_value(v: BigInt) -> int;

/// Quotient of the division that rounds towards zero.
pub open spec fn trunc_div(a: int, b: int) -> int
    recommends
        b != 0,
{
    if a >= 0 {
        if b > 0 {
            a / b
        } else {
            -(a / (-b))
        }
    } else {
        if b > 0 {
            -((-a) / b)
        } else {
            (-a) / (-b)
        }
    }
}

/// Remainder of the division that rounds towards zero: it has the sign of `a`.
pub open spec fn trunc_rem(a: int, b: int) -> int
    recommends
        b != 0,
{
    a - trunc_div(a, b) * b
}

/// Quotient of the division that rounds towards negative infinity.
pub open spec fn floor_div(a: int, b: int) -> int
    recommends
        b != 0,
{
    if b > 0 {
        a / b
    } else {
        (-a) / (-b)
    }
}

/// `num_traits::Zero::zero` for `BigInt`: the integer 0.
#[verifier::external_body]
pub(crate) fn zero() -> (r: BigInt)
    ensures
        int_value(r) == 0,
{
    num_traits::Zero::zero()
}

/// `num_traits::One::one` for `BigInt`: the integer 1.
#[verifier::external_body]
pub(crate) fn one() -> (r: BigInt)
    ensures
        int_value(r) == 1,
{
    num_traits::One::one()
}

/// `num_traits::Zero::is_zero` for `BigInt`: whether the integer is 0.
#[verifier::external_body]
pub(crate) fn is_zero(a: &BigInt) -> (r: bool)
    ensures
        r == (int_value(*a) == 0),
{
    num_traits::Zero::is_zero(a)
}

/// `Clone::clone` for `BigInt`: a copy that holds the same integer.
#[verifier::external_body]
pub(crate) fn duplicate(a: &BigInt) -> (r: BigInt)
    ensures
        int_value(r) == int_value(*a),
{
    a.clone()
}

/// `&BigInt + &BigInt`: the exact sum.
#[verifier::external_body]
pub(crate) fn sum(a: &BigInt, b: &BigInt) -> (r: BigInt)
    ensures
        int_value(r) == int_value(*a) + int_value(*b),
{
    a + b
}

/// `&BigInt - &BigInt`: the exact difference.
#[verifier::external_body]
pub(crate) fn difference(a: &BigInt, b: &BigInt) -> (r: BigInt)
    ensures
        int_value(r) == int_value(*a) - int_value(*b),
{
    a - b
}

/// `&BigInt * &BigInt`: the exact product.
#[verifier::external_body]
pub(crate) fn product(a: &BigInt, b: &BigInt) -> (r: BigInt)
    ensures
        int_value(r) == int_value(*a) * int_value(*b),
{
    a * b
}

/// `&BigInt / &BigInt`: the quotient rounded towards zero. The operator panics
/// on a zero divisor.
#[verifier::external_body]
pub(crate) fn quotient(a: &BigInt, b: &BigInt) -> (r: BigInt)
    requires
        int_value(*b) != 0,
    ensures
        int_value(r) == trunc_div(int_value(*a), int_value(*b)),
{
    a / b
}

/// `&BigInt % &BigInt`: the remainder of the division that rounds towards
/// zero. The operator panics on a zero divisor.
#[verifier::external_body]
pub(crate) fn remainder(a: &BigInt, b: &BigInt) -> (r: BigInt)
    requires
        int_value(*b) != 0,
    ensures
        int_value(r) == trunc_rem(int_value(*a), int_value(*b)),
{
    a % b
}

/// `num_integer::Integer::div_floor` for `BigInt`: the quotient rounded towards
/// negative infinity. It panics on a zero divisor.
#[verifier::external_body]
pub(crate) fn floor_quotient(a: &BigInt, b: &BigInt) -> (r: BigInt)
    requires
        int_value(*b) != 0,
    ensures
        int_value(r) == floor_div(int_value(*a), int_value(*b)),
{
    num_integer::Integer::div_floor(a, b)
}

/// `BigInt::from` for `u64`: the same number.
#[verifier::external_body]
pub(crate) fn from_u64(x: u64) -> (r: BigInt)
    ensures
        int_value(r) == x,
{
    BigInt::from(x)
}

/// `BigInt::from` for `i64`: the same number.
#[verifier::external_body]
pub(crate) fn from_i64(x: i64) -> (r: BigInt)
    ensures
        int_value(r) == x,
{
    BigInt::from(x)
}

/// `==` on `BigInt`: whether both hold the same integer.
#[verifier::external_body]
pub(crate) fn equal(a: &BigInt, b: &BigInt) -> (r: bool)
    ensures
        r == (int_value(*a) == int_value(*b)),
{
    a == b
}

/// `Ord::cmp` on `BigInt`: the order of the integers.
#[verifier::external_body]
pub(crate) fn compare(a: &BigInt, b: &BigInt) -> (r: Ordering)
    ensures
        match r {
            Ordering::Less => int_value(*a) < int_value(*b),
            Ordering::Equal => int_value(*a) == int_value(*b),
            Ordering::Greater => int_value(*a) > int_value(*b),
        },
{
    a.cmp(b)
}

/// `<=` on `BigInt`: the order of the integers.
#[verifier::external_body]
pub(crate) fn at_most(a: &BigInt, b: &BigInt) -> (r: bool)
    ensures
        r == (int_value(*a) <= int_value(*b)),
{
    a <= b
}

/// `BigInt::parse_bytes` in radix 10, on the bytes of `s`: the integer that
/// the text denotes as a signed decimal literal, or `None` where it is none.
#[verifier::external_body]
pub(crate) fn from_decimal(s: &str) -> (r: Option<BigInt>)
    ensures
        match r {
            Some(v) => parse_decimal(s@) == Some(int_value(v)),
            None => parse_decimal(s@) is None,
        },
{
    BigInt::parse_bytes(s.as_bytes(), 10)
}

/// `BigInt::to_str_radix` in radix 10: the digits of the integer without
/// leading zeros, after a `-` if it is negative.
#[verifier::external_body]
pub(crate) fn to_decimal(a: &BigInt) -> (r: String)
    ensures
        r@ == decimal(int_value(*a)),
{
    a.to_str_radix(10)
}

/// `BigInt::to_bytes_le`, without the sign: the shortest little-endian
/// encoding of the absolute value.
#[verifier::external_body]
pub(crate) fn magnitude_bytes(a: &BigInt) -> (r: Vec<u8>)
    ensures
        r@ == le_bytes(abs(int_value(*a))),
{
    a.to_bytes_le().1
}

/// `BigInt::from_bytes_le` with the sign `Plus`: the number that the bytes
/// encode, least significant byte first.
#[verifier::external_body]
pub(crate) fn from_magnitude_bytes(bytes: &Vec<u8>) -> (r: BigInt)
    ensures
        int_value(r) == le_value(bytes@),
{
    BigInt::from_bytes_le(num_bigint::Sign::Plus, bytes.as_slice())
}

/// `BigInt::bits`: the number of bits of the absolute value.
#[verifier::external_body]
pub(crate) fn bits(a: &BigInt) -> (r: usize)
    ensures
        r == bit_length(abs(int_value(*a))),
{
    a.bits()
}

} // verus!
