//! What holds of the field operations taken together.

use vstd::prelude::*;
use crate::bn128::{
    canonical,
    field_add,
    field_div,
    field_inverse,
    field_mul,
    field_sub,
    is_inverse,
    is_quotient,
    lemma_nonzero_is_coprime,
    modulus,
    BN128,
};
use crate::encoding::{
    decimal,
    le_bytes,
    le_value,
    lemma_decimal_round_trip,
    lemma_le_bytes_round_trip,
    parse_decimal,
};
use crate::euclid::{bezout, lemma_bezout};
use crate::modular::{
    lemma_add_then_sub,
    lemma_bezout_coefficient_inverts,
    lemma_inverse_unique,
    lemma_mod_of_residue,
    lemma_mul_then_mul_inverse,
};

verus! {

/// Subtraction undoes addition: `(a + b) - b == a`.
pub proof fn law_add_then_sub(a: BN128, b: BN128)
    requires
        a.wf(),
        b.wf(),
    ensures
        field_sub(field_add(a@, b@), b@) == a@,
{
    lemma_add_then_sub(a@, b@, modulus());
}

/// An element that is not zero times its inverse is one:
/// `a * a.inverse_mul() == 1`, and the inverse is the only canonical element
/// with that property.
pub proof fn law_inverse(a: BN128)
    requires
        a.wf(),
        a@ != 0,
    ensures
        is_inverse(a@, field_inverse(a@)),
        field_mul(a@, field_inverse(a@)) == 1,
        forall|r: int| is_inverse(a@, r) ==> r == field_inverse(a@),
{
    let p = modulus();
    let b = bezout(a@, p);
    lemma_nonzero_is_coprime(a@);
    lemma_bezout(a@, p);
    lemma_bezout_coefficient_inverts(a@, b.1, b.2, p);
    vstd::arithmetic::div_mod::lemma_mod_bound(b.1, p);
    assert forall|r: int| is_inverse(a@, r) implies r == field_inverse(a@) by {
        lemma_inverse_unique(a@, r, field_inverse(a@), p);
    }
}

/// Division undoes multiplication: `(a * b) / b == a` for a `b` that is not
/// zero.
pub proof fn law_mul_then_div(a: BN128, b: BN128)
    requires
        a.wf(),
        b.wf(),
        b@ != 0,
    ensures
        field_div(field_mul(a@, b@), b@) == a@,
{
    law_inverse(b);
    lemma_mul_then_mul_inverse(a@, b@, field_inverse(b@), modulus());
}

/// The quotient is the only canonical element whose product with the
/// divisor is the dividend.
pub proof fn law_quotient_unique(a: BN128, b: BN128, q: int)
    requires
        a.wf(),
        b.wf(),
        b@ != 0,
        is_quotient(a@, b@, q),
    ensures
        q == field_div(a@, b@),
{
    law_inverse(b);
    lemma_mul_then_mul_inverse(q, b@, field_inverse(b@), modulus());
}

/// The decimal text of an element reads back as the element.
pub proof fn law_decimal_round_trip(a: BN128)
    requires
        a.wf(),
    ensures
        parse_decimal(decimal(a@)) == Some(a@),
        canonical(a@) == a@,
{
    lemma_decimal_round_trip(a@);
    lemma_mod_of_residue(a@, modulus());
}

/// The bytes of an element decode to the element, and are an encoding that
/// decoding accepts.
pub proof fn law_bytes_round_trip(a: BN128)
    requires
        a.wf(),
    ensures
        le_value(le_bytes(a@ as nat)) == a@,
        le_value(le_bytes(a@ as nat)) < modulus(),
{
    lemma_le_bytes_round_trip(a@ as nat);
}

} // verus!
