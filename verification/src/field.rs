//! What a prime field offers: the contract that every concrete field type
//! meets.

use vstd::prelude::*;
use core::ops::{Add, Div, Mul, Sub};
use crate::encoding::{bit_length, decimal, le_bytes, le_value, parse_decimal};

verus! {

/// Raising to a power.
pub trait Pow<RHS> {
    type Output;

    fn pow(self, exp: RHS) -> Self::Output;
}

/// The text of a field element as a signed number of small absolute value:
/// `v` itself up to the middle of the field, and above it the negative
/// number `v - order`, in parentheses.
pub open spec fn compact_decimal(v: int, order: int) -> Seq<char> {
    if v <= (order - 1) / 2 {
        decimal(v)
    } else {
        seq!['('] + decimal(v - order) + seq![')']
    }
}

/// A prime field.
pub trait Field:
    From<i32>
    + From<u32>
    + From<usize>
    + Clone
    + PartialEq
    + Eq
    + core::hash::Hash
    + PartialOrd
    + core::fmt::Debug
    + Add<Self, Output = Self>
    + for<'a> Add<&'a Self, Output = Self>
    + Sub<Self, Output = Self>
    + for<'a> Sub<&'a Self, Output = Self>
    + Mul<Self, Output = Self>
    + for<'a> Mul<&'a Self, Output = Self>
    + Div<Self, Output = Self>
    + for<'a> Div<&'a Self, Output = Self>
    + Pow<usize, Output = Self>
    + Pow<Self, Output = Self>
    + for<'a> Pow<&'a Self, Output = Self>
{
    /// The scalar of the proof backend that elements of this field are
    /// exchanged with.
    type BellmanScalar;

    /// The prime that the field is taken modulo.
    spec fn order() -> int;

    /// The canonical integer of an element, in `[0, order() - 1]`.
    spec fn canonical(&self) -> int;

    /// The canonical integer of a backend scalar.
    spec fn scalar(e: Self::BellmanScalar) -> int;

    /// Whether an element has a multiplicative inverse.
    spec fn has_inverse(&self) -> bool;

    /// The element that a backend scalar stands for.
    fn from_bellman(e: Self::BellmanScalar) -> (r: Self)
        ensures
            r.canonical() == Self::scalar(e),
            0 <= r.canonical() < Self::order(),
    ;

    /// The backend scalar that stands for this element.
    fn into_bellman(self) -> (e: Self::BellmanScalar)
        ensures
            Self::scalar(e) == self.canonical(),
    ;

    /// Returns this `Field`'s contents as little-endian byte vector
    fn into_byte_vector(&self) -> (r: Vec<u8>)
        ensures
            r@ == le_bytes(self.canonical() as nat),
            0 <= self.canonical() < Self::order(),
    ;

    /// Returns an element of this `Field` from a little-endian byte vector
    fn from_byte_vector(bytes: Vec<u8>) -> (r: Self)
        requires
            le_value(bytes@) < Self::order(),
        ensures
            r.canonical() == le_value(bytes@),
    ;

    /// Returns this `Field`'s contents as decimal string
    fn to_dec_string(&self) -> (r: String)
        ensures
            r@ == decimal(self.canonical()),
            0 <= self.canonical() < Self::order(),
    ;

    /// Returns the multiplicative inverse, i.e.: self * self.inverse_mul() = Self::one()
    fn inverse_mul(&self) -> (r: Self)
        requires
            self.has_inverse(),
        ensures
            0 <= r.canonical() < Self::order(),
            (self.canonical() * r.canonical()) % Self::order() == 1,
    ;

    /// Returns the smallest value that can be represented by this field type.
    fn min_value() -> (r: Self)
        ensures
            r.canonical() == 0,
    ;

    /// Returns the largest value that can be represented by this field type.
    fn max_value() -> (r: Self)
        ensures
            r.canonical() == Self::order() - 1,
    ;

    /// Returns the number of required bits to represent this field type.
    fn get_required_bits() -> (r: usize)
        ensures
            r == bit_length(Self::order() as nat),
    ;

    /// Tries to parse a string into this representation
    fn try_from_dec_str<'a>(s: &'a str) -> (r: Result<Self, ()>)
        ensures
            match parse_decimal(s@) {
                Some(x) => r is Ok && r.unwrap().canonical() == x % Self::order(),
                None => r is Err,
            },
    ;

    /// Returns a decimal string representing a the member of the equivalence class of this `Field` in Z/pZ
    /// which lies in [-(p-1)/2, (p-1)/2]
    fn to_compact_dec_string(&self) -> (r: String)
        ensures
            r@ == compact_decimal(self.canonical(), Self::order()),
    ;
}

} // verus!
