//! The scalar field element of the `pairing_ce` proof backend, as the
//! verifier sees it.
//!
//! `Fr` is opaque here. `scalar_value` names the canonical integer of an
//! `Fr`, and the two functions below state, without proof, how `ff_ce` turns
//! one into bytes and reads one from decimal text.

use vstd::prelude::*;
use pairing_ce::bn256::Fr;
use pairing_ce::ff::{PrimeField, PrimeFieldRepr};
use crate::bn128::modulus;
use crate::encoding::{le_value, plain_decimal};

verus! {

/// `pairing_ce::bn256::Fr`: an element of the scalar field of the curve, in
/// the backend's own fixed-width form.
#[verifier::external_type_specification]
#[verifier::external_body]
pub struct ExFr(pairing_ce::bn256::Fr);

/// The canonical integer of a backend scalar.
pub uninterp spec fn scalar_value(e: Fr) -> int;

/// `PrimeField::into_repr` followed by `PrimeFieldRepr::write_le` into a
/// vector: the canonical integer of the scalar, which is below the modulus,
/// as four 64-bit words, least significant byte first.
#[verifier::external_body]
pub(crate) fn scalar_bytes(e: &Fr) -> (r: Vec<u8>)
    ensures
        r@.len() == 32,
        le_value(r@) == scalar_value(*e),
        le_value(r@) < modulus(),
{
    let mut res: Vec<u8> = Vec::new();
    e.into_repr().write_le(&mut res).unwrap();
    res
}

/// `PrimeField::from_str`: the scalar that a plain decimal literal denotes,
/// reduced modulo the field's prime, or `None` where the text is no such
/// literal.
#[verifier::external_body]
pub(crate) fn scalar_from_decimal(s: &str) -> (r: Option<Fr>)
    ensures
        match r {
            Some(e) => plain_decimal(s@) is Some && scalar_value(e) == plain_decimal(s@).unwrap()
                % (modulus() as nat),
            None => plain_decimal(s@) is None,
        },
{
    Fr::from_str(s)
}

} // verus!
