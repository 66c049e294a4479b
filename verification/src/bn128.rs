//! The scalar field of the BN128 curve.

use vstd::prelude::*;
use vstd::arithmetic::power::pow;
use vstd::arithmetic::power2::{lemma2_to64, lemma_pow2_adds, lemma_pow2_unfold, pow2};
use num_bigint::BigInt;
use vstd::string::StringExecFns;
use core::cmp::Ordering;
use pairing_ce::bn256::Fr;
use crate::bellman::{self, scalar_value};
use crate::bigint::{self, int_value};
use crate::encoding::{
    bit_length,
    decimal,
    le_bytes,
    le_value,
    lemma_bit_length_between,
    lemma_decimal_is_plain,
    lemma_le_bytes_round_trip,
    parse_decimal,
};
use crate::euclid::{bezout, gcd, lemma_trunc_rem_is_mod};
use crate::field::{compact_decimal, Field, Pow};
use crate::modular::{
    lemma_add_residues,
    lemma_bezout_coefficient_inverts,
    lemma_mod_of_residue,
    lemma_mul_inverse_then_mul,
    lemma_pow_step,
    lemma_residue_near_zero,
    lemma_sub_residues,
};
use crate::certificate::{lemma_modulus_digits_prime, wide};
use crate::primality::{is_prime, lemma_prime_coprime};
use crate::utils::extended_euclid;

verus! {

/// Ten to the nineteenth: the weight of one group of digits of the modulus.
pub const GROUP: u64 = 10_000_000_000_000_000_000;

/// The prime that the field is taken modulo.
///
/// It is 21888242871839275222246405745257275088548364400416034343698204186575808495617,
/// written here in groups of nineteen decimal digits.
pub open spec fn modulus() -> int {
    (((2 * GROUP + 1888242871839275222) * GROUP + 2464057452572750885) * GROUP
        + 4836440041603434369) * GROUP + 8204186575808495617
}

/// The canonical representative of the residue class of `x`.
pub open spec fn canonical(x: int) -> int {
    x % modulus()
}

/// The sum of two field elements.
pub open spec fn field_add(a: int, b: int) -> int {
    canonical(a + b)
}

/// The difference of two field elements.
pub open spec fn field_sub(a: int, b: int) -> int {
    canonical(a - b)
}

/// The product of two field elements.
pub open spec fn field_mul(a: int, b: int) -> int {
    canonical(a * b)
}

/// The `n`-th power of a field element.
pub open spec fn field_pow(a: int, n: nat) -> int {
    canonical(pow(a, n))
}

/// The multiplicative inverse of an element that is not zero: its Bézout
/// coefficient against the modulus, reduced into canonical range.
pub open spec fn field_inverse(a: int) -> int {
    canonical(bezout(a, modulus()).1)
}

/// The quotient of `a` by an element `b` that is not zero.
pub open spec fn field_div(a: int, b: int) -> int {
    field_mul(a, field_inverse(b))
}

/// Whether `r` is the multiplicative inverse of `a`.
pub open spec fn is_inverse(a: int, r: int) -> bool {
    0 <= r < modulus() && field_mul(a, r) == 1
}

/// Whether `q` is the quotient of `a` by `b`: the element whose product with
/// `b` is `a`.
pub open spec fn is_quotient(a: int, b: int, q: int) -> bool {
    0 <= q < modulus() && field_mul(q, b) == a
}

/// Why an operation on field elements cannot give a result.
#[derive(Debug, Clone, Copy, PartialEq, Eq, Structural)]
pub enum FieldError {
    /// The divisor, or the element to invert, has no inverse: it is zero.
    DivisionByZero,
    /// The bytes encode a number that is not below the modulus.
    MalformedEncoding,
}

/// The modulus is a prime number.
pub proof fn lemma_modulus_is_prime()
    ensures
        is_prime(modulus()),
{
    lemma_modulus_digits_prime();
    assert(modulus() == wide(
        2,
        18882428718392752222464057452572750885,
        48364400416034343698204186575808495617,
    )) by (nonlinear_arith)
        requires
            GROUP == 10_000_000_000_000_000_000,
    ;
}

/// The modulus has 254 bits.
pub proof fn lemma_modulus_bits()
    ensures
        bit_length(modulus() as nat) == 254,
{
    lemma2_to64();
    lemma_pow2_adds(32, 31);
    lemma_pow2_adds(63, 63);
    lemma_pow2_unfold(127);
    lemma_pow2_adds(126, 127);
    lemma_pow2_adds(127, 127);
    let low = pow2(63) as int;
    let mid = pow2(126) as int;
    let high = pow2(127) as int;
    assert(low == 0x8000_0000_0000_0000) by (nonlinear_arith)
        requires
            low == 0x1_0000_0000 * 0x8000_0000,
    ;
    assert(mid * high <= modulus() < high * high) by (nonlinear_arith)
        requires
            low == 0x8000_0000_0000_0000,
            mid == low * low,
            high == 2 * mid,
            GROUP == 10_000_000_000_000_000_000,
            modulus() == (((2 * GROUP + 1888242871839275222) * GROUP + 2464057452572750885)
                * GROUP + 4836440041603434369) * GROUP + 8204186575808495617,
    ;
    lemma_bit_length_between(modulus() as nat, 254);
}

/// Every canonical element but zero is coprime to the modulus, and so has an
/// inverse.
pub proof fn lemma_nonzero_is_coprime(a: int)
    requires
        0 < a < modulus(),
    ensures
        gcd(a as nat, modulus() as nat) == 1,
{
    lemma_modulus_is_prime();
    lemma_prime_coprime(modulus(), a);
}

/// An element of the field: an integer in `[0, modulus() - 1]`.
#[derive(Debug, Hash, Ord)]
pub struct BN128 {
    value: BigInt,
}

impl View for BN128 {
    type V = int;

    /// The canonical integer of the element.
    closed spec fn view(&self) -> int {
        int_value(self.value)
    }
}

/// The modulus as a `BigInt`.
pub(crate) fn prime() -> (r: BigInt)
    ensures
        int_value(r) == modulus(),
{
    let group = bigint::from_u64(GROUP);
    let g4 = bigint::from_u64(2);
    let g3 = bigint::sum(&bigint::product(&g4, &group), &bigint::from_u64(1888242871839275222));
    let g2 = bigint::sum(&bigint::product(&g3, &group), &bigint::from_u64(2464057452572750885));
    let g1 = bigint::sum(&bigint::product(&g2, &group), &bigint::from_u64(4836440041603434369));
    bigint::sum(&bigint::product(&g1, &group), &bigint::from_u64(8204186575808495617))
}

/// The canonical representative of `x`, by the floor of its quotient by the
/// modulus.
pub(crate) fn reduce(x: &BigInt) -> (r: BigInt)
    ensures
        int_value(r) == canonical(int_value(*x)),
        0 <= int_value(r) < modulus(),
{
    let p = prime();
    let q = bigint::floor_quotient(x, &p);
    proof {
        let v = int_value(*x);
        vstd::arithmetic::div_mod::lemma_fundamental_div_mod(v, modulus());
        vstd::arithmetic::div_mod::lemma_mod_bound(v, modulus());
        assert(v - (v / modulus()) * modulus() == v % modulus()) by (nonlinear_arith)
            requires
                v == modulus() * (v / modulus()) + v % modulus(),
        ;
    }
    bigint::difference(x, &bigint::product(&q, &p))
}

impl BN128 {
    /// Whether the element is in canonical range. Every element that this
    /// library hands out is.
    pub open spec fn wf(&self) -> bool {
        0 <= self@ < modulus()
    }

    #[verifier::type_invariant]
    closed spec fn in_range(&self) -> bool {
        self.wf()
    }

    /// The additive identity.
    pub fn zero() -> (r: BN128)
        ensures
            r@ == 0,
            r.wf(),
    {
        BN128 { value: bigint::from_i64(0) }
    }

    /// Whether this is the additive identity.
    pub fn is_zero(&self) -> (r: bool)
        ensures
            r == (self@ == 0),
    {
        bigint::equal(&self.value, &bigint::from_i64(0))
    }

    /// The multiplicative identity.
    pub fn one() -> (r: BN128)
        ensures
            r@ == 1,
            r.wf(),
    {
        BN128 { value: bigint::from_i64(1) }
    }

    /// The multiplicative inverse, or `DivisionByZero` for zero, which has
    /// none.
    pub fn checked_inverse_mul(&self) -> (r: Result<BN128, FieldError>)
        ensures
            match r {
                Ok(inv) => self@ != 0 && inv@ == field_inverse(self@) && is_inverse(self@, inv@),
                Err(e) => self@ == 0 && e == FieldError::DivisionByZero,
            },
    {
        if self.is_zero() {
            Err(FieldError::DivisionByZero)
        } else {
            Ok(self.inverse_mul())
        }
    }

    /// The quotient by `other`, or `DivisionByZero` where `other` is zero.
    pub fn checked_div(self, other: &BN128) -> (r: Result<BN128, FieldError>)
        ensures
            match r {
                Ok(q) => other@ != 0 && q@ == field_div(self@, other@) && is_quotient(
                    self@,
                    other@,
                    q@,
                ),
                Err(e) => other@ == 0 && e == FieldError::DivisionByZero,
            },
    {
        proof {
            use_type_invariant(&self);
        }
        match other.checked_inverse_mul() {
            Ok(inv) => {
                proof {
                    lemma_mul_inverse_then_mul(self@, other@, inv@, modulus());
                }
                Ok(self * inv)
            },
            Err(e) => Err(e),
        }
    }

    /// The element that the bytes encode, least significant byte first, or
    /// `MalformedEncoding` where they encode no canonical value.
    pub fn try_from_byte_vector(bytes: Vec<u8>) -> (r: Result<BN128, FieldError>)
        ensures
            match r {
                Ok(x) => le_value(bytes@) < modulus() && x@ == le_value(bytes@),
                Err(e) => le_value(bytes@) >= modulus() && e == FieldError::MalformedEncoding,
            },
    {
        let x = bigint::from_magnitude_bytes(&bytes);
        if bigint::at_most(&prime(), &x) {
            Err(FieldError::MalformedEncoding)
        } else {
            Ok(BN128 { value: x })
        }
    }

    /// The element that the integer `x` stands for.
    pub fn from_bigint(x: &BigInt) -> (r: BN128)
        ensures
            r@ == canonical(int_value(*x)),
            0 <= int_value(*x) < modulus() ==> r@ == int_value(*x),
            -modulus() < int_value(*x) < 0 ==> r@ == int_value(*x) + modulus(),
            r.wf(),
    {
        proof {
            if -modulus() < int_value(*x) < modulus() {
                lemma_residue_near_zero(int_value(*x), modulus());
            }
        }
        BN128 { value: reduce(x) }
    }

    /// The canonical integer of the element.
    pub fn to_bigint(&self) -> (r: BigInt)
        ensures
            int_value(r) == self@,
            self.wf(),
    {
        proof {
            use_type_invariant(self);
        }
        bigint::duplicate(&self.value)
    }
}

impl Clone for BN128 {
    fn clone(&self) -> (r: BN128)
        ensures
            r@ == self@,
            r.wf(),
    {
        proof {
            use_type_invariant(self);
        }
        BN128 { value: bigint::duplicate(&self.value) }
    }
}

impl Default for BN128 {
    /// The additive identity.
    fn default() -> (r: BN128)
        ensures
            r@ == 0,
            r.wf(),
    {
        BN128::zero()
    }
}

impl PartialEq for BN128 {
    fn eq(&self, other: &BN128) -> (r: bool) {
        bigint::equal(&self.value, &other.value)
    }
}

impl vstd::std_specs::cmp::PartialEqSpecImpl for BN128 {
    open spec fn obeys_eq_spec() -> bool {
        true
    }

    open spec fn eq_spec(&self, other: &BN128) -> bool {
        self@ == other@
    }
}

impl Eq for BN128 {

}

impl PartialOrd for BN128 {
    fn partial_cmp(&self, other: &BN128) -> (r: Option<Ordering>) {
        Some(bigint::compare(&self.value, &other.value))
    }
}

impl vstd::std_specs::cmp::PartialOrdSpecImpl for BN128 {
    open spec fn obeys_partial_cmp_spec() -> bool {
        true
    }

    open spec fn partial_cmp_spec(&self, other: &BN128) -> Option<Ordering> {
        if self@ < other@ {
            Some(Ordering::Less)
        } else if self@ == other@ {
            Some(Ordering::Equal)
        } else {
            Some(Ordering::Greater)
        }
    }
}

impl core::ops::Add<BN128> for BN128 {
    type Output = BN128;

    /// The sum, reduced into canonical range.
    fn add(self, other: BN128) -> (r: BN128)
        ensures
            r@ == field_add(self@, other@),
            r@ == if self@ + other@ < modulus() {
                self@ + other@
            } else {
                self@ + other@ - modulus()
            },
            r.wf(),
    {
        proof {
            use_type_invariant(&self);
            use_type_invariant(&other);
            lemma_add_residues(self@, other@, modulus());
        }
        let total = bigint::sum(&self.value, &other.value);
        proof {
            lemma_trunc_rem_is_mod(int_value(total), modulus());
        }
        BN128 { value: bigint::remainder(&total, &prime()) }
    }
}

/// What the operator returns is stated by `add` itself, over the canonical
/// integers; no element is named for it here.
impl vstd::std_specs::ops::AddSpecImpl<BN128> for BN128 {
    open spec fn obeys_add_spec() -> bool {
        false
    }

    open spec fn add_req(self, other: BN128) -> bool {
        true
    }

    open spec fn add_spec(self, other: BN128) -> BN128 {
        self
    }
}

impl<'a> core::ops::Add<&'a BN128> for BN128 {
    type Output = BN128;

    /// The sum, reduced into canonical range.
    fn add(self, other: &'a BN128) -> (r: BN128)
        ensures
            r@ == field_add(self@, other@),
            r@ == if self@ + other@ < modulus() {
                self@ + other@
            } else {
                self@ + other@ - modulus()
            },
            r.wf(),
    {
        proof {
            use_type_invariant(&self);
            use_type_invariant(other);
            lemma_add_residues(self@, other@, modulus());
        }
        let total = bigint::sum(&self.value, &other.value);
        proof {
            lemma_trunc_rem_is_mod(int_value(total), modulus());
        }
        BN128 { value: bigint::remainder(&total, &prime()) }
    }
}

/// What the operator returns is stated by `add` itself, over the canonical
/// integers; no element is named for it here.
impl<'a> vstd::std_specs::ops::AddSpecImpl<&'a BN128> for BN128 {
    open spec fn obeys_add_spec() -> bool {
        false
    }

    open spec fn add_req(self, other: &'a BN128) -> bool {
        true
    }

    open spec fn add_spec(self, other: &'a BN128) -> BN128 {
        self
    }
}

impl core::ops::Sub<BN128> for BN128 {
    type Output = BN128;

    /// The difference, reduced into canonical range.
    fn sub(self, other: BN128) -> (r: BN128)
        ensures
            r@ == field_sub(self@, other@),
            r@ == if self@ >= other@ {
                self@ - other@
            } else {
                self@ - other@ + modulus()
            },
            r.wf(),
    {
        proof {
            use_type_invariant(&self);
            use_type_invariant(&other);
            lemma_sub_residues(self@, other@, modulus());
        }
        let x = bigint::difference(&self.value, &other.value);
        BN128 { value: reduce(&x) }
    }
}

/// What the operator returns is stated by `sub` itself, over the canonical
/// integers; no element is named for it here.
impl vstd::std_specs::ops::SubSpecImpl<BN128> for BN128 {
    open spec fn obeys_sub_spec() -> bool {
        false
    }

    open spec fn sub_req(self, other: BN128) -> bool {
        true
    }

    open spec fn sub_spec(self, other: BN128) -> BN128 {
        self
    }
}

impl<'a> core::ops::Sub<&'a BN128> for BN128 {
    type Output = BN128;

    /// The difference, reduced into canonical range.
    fn sub(self, other: &'a BN128) -> (r: BN128)
        ensures
            r@ == field_sub(self@, other@),
            r@ == if self@ >= other@ {
                self@ - other@
            } else {
                self@ - other@ + modulus()
            },
            r.wf(),
    {
        proof {
            use_type_invariant(&self);
            use_type_invariant(other);
            lemma_sub_residues(self@, other@, modulus());
        }
        let x = bigint::difference(&self.value, &other.value);
        BN128 { value: reduce(&x) }
    }
}

/// What the operator returns is stated by `sub` itself, over the canonical
/// integers; no element is named for it here.
impl<'a> vstd::std_specs::ops::SubSpecImpl<&'a BN128> for BN128 {
    open spec fn obeys_sub_spec() -> bool {
        false
    }

    open spec fn sub_req(self, other: &'a BN128) -> bool {
        true
    }

    open spec fn sub_spec(self, other: &'a BN128) -> BN128 {
        self
    }
}

impl core::ops::Mul<BN128> for BN128 {
    type Output = BN128;

    /// The product, reduced into canonical range.
    fn mul(self, other: BN128) -> (r: BN128)
        ensures
            r@ == field_mul(self@, other@),
            self@ * other@ < modulus() ==> r@ == self@ * other@,
            r.wf(),
    {
        proof {
            use_type_invariant(&self);
            use_type_invariant(&other);
        }
        let total = bigint::product(&self.value, &other.value);
        proof {
            assert(0 <= self@ * other@) by (nonlinear_arith)
                requires
                    0 <= self@,
                    0 <= other@,
            ;
            lemma_trunc_rem_is_mod(int_value(total), modulus());
            if self@ * other@ < modulus() {
                lemma_mod_of_residue(self@ * other@, modulus());
            }
        }
        BN128 { value: bigint::remainder(&total, &prime()) }
    }
}

/// What the operator returns is stated by `mul` itself, over the canonical
/// integers; no element is named for it here.
impl vstd::std_specs::ops::MulSpecImpl<BN128> for BN128 {
    open spec fn obeys_mul_spec() -> bool {
        false
    }

    open spec fn mul_req(self, other: BN128) -> bool {
        true
    }

    open spec fn mul_spec(self, other: BN128) -> BN128 {
        self
    }
}

impl<'a> core::ops::Mul<&'a BN128> for BN128 {
    type Output = BN128;

    /// The product, reduced into canonical range.
    fn mul(self, other: &'a BN128) -> (r: BN128)
        ensures
            r@ == field_mul(self@, other@),
            self@ * other@ < modulus() ==> r@ == self@ * other@,
            r.wf(),
    {
        proof {
            use_type_invariant(&self);
            use_type_invariant(other);
        }
        let total = bigint::product(&self.value, &other.value);
        proof {
            assert(0 <= self@ * other@) by (nonlinear_arith)
                requires
                    0 <= self@,
                    0 <= other@,
            ;
            lemma_trunc_rem_is_mod(int_value(total), modulus());
            if self@ * other@ < modulus() {
                lemma_mod_of_residue(self@ * other@, modulus());
            }
        }
        BN128 { value: bigint::remainder(&total, &prime()) }
    }
}

/// What the operator returns is stated by `mul` itself, over the canonical
/// integers; no element is named for it here.
impl<'a> vstd::std_specs::ops::MulSpecImpl<&'a BN128> for BN128 {
    open spec fn obeys_mul_spec() -> bool {
        false
    }

    open spec fn mul_req(self, other: &'a BN128) -> bool {
        true
    }

    open spec fn mul_spec(self, other: &'a BN128) -> BN128 {
        self
    }
}

impl core::ops::Div<BN128> for BN128 {
    type Output = BN128;

    /// The quotient: the product with the inverse of `other`.
    fn div(self, other: BN128) -> (r: BN128)
        ensures
            r@ == field_div(self@, other@),
            is_quotient(self@, other@, r@),
            r.wf(),
    {
        proof {
            use_type_invariant(&self);
        }
        let inv = other.inverse_mul();
        proof {
            lemma_mul_inverse_then_mul(self@, other@, inv@, modulus());
        }
        self * inv
    }
}

/// What the operator returns is stated by `div` itself, over the canonical
/// integers; no element is named for it here.
impl vstd::std_specs::ops::DivSpecImpl<BN128> for BN128 {
    open spec fn obeys_div_spec() -> bool {
        false
    }

    open spec fn div_req(self, other: BN128) -> bool {
        other@ != 0
    }

    open spec fn div_spec(self, other: BN128) -> BN128 {
        self
    }
}

impl<'a> core::ops::Div<&'a BN128> for BN128 {
    type Output = BN128;

    /// The quotient: the product with the inverse of `other`.
    fn div(self, other: &'a BN128) -> (r: BN128)
        ensures
            r@ == field_div(self@, other@),
            is_quotient(self@, other@, r@),
            r.wf(),
    {
        self / other.clone()
    }
}

/// What the operator returns is stated by `div` itself, over the canonical
/// integers; no element is named for it here.
impl<'a> vstd::std_specs::ops::DivSpecImpl<&'a BN128> for BN128 {
    open spec fn obeys_div_spec() -> bool {
        false
    }

    open spec fn div_req(self, other: &'a BN128) -> bool {
        other@ != 0
    }

    open spec fn div_spec(self, other: &'a BN128) -> BN128 {
        self
    }
}

impl From<i32> for BN128 {
    /// The element that `num` stands for; a negative number counts back from
    /// the modulus.
    fn from(num: i32) -> (r: BN128)
        ensures
            r@ == canonical(num as int),
            r@ == if num >= 0 {
                num as int
            } else {
                modulus() + num
            },
            r.wf(),
    {
        proof {
            lemma_residue_near_zero(num as int, modulus());
        }
        BN128::from_bigint(&bigint::from_i64(num as i64))
    }
}

/// What the conversion returns is stated by `from` itself, over the canonical
/// integer; no element is named for it here.
impl vstd::std_specs::convert::FromSpecImpl<i32> for BN128 {
    open spec fn obeys_from_spec() -> bool {
        false
    }

    open spec fn from_spec(num: i32) -> BN128 {
        arbitrary()
    }
}

impl From<u32> for BN128 {
    /// The element that `num` stands for.
    fn from(num: u32) -> (r: BN128)
        ensures
            r@ == num,
            r.wf(),
    {
        proof {
            lemma_mod_of_residue(num as int, modulus());
        }
        BN128::from_bigint(&bigint::from_u64(num as u64))
    }
}

/// What the conversion returns is stated by `from` itself, over the canonical
/// integer; no element is named for it here.
impl vstd::std_specs::convert::FromSpecImpl<u32> for BN128 {
    open spec fn obeys_from_spec() -> bool {
        false
    }

    open spec fn from_spec(num: u32) -> BN128 {
        arbitrary()
    }
}

impl From<usize> for BN128 {
    /// The element that `num` stands for.
    fn from(num: usize) -> (r: BN128)
        ensures
            r@ == num,
            r.wf(),
    {
        proof {
            lemma_mod_of_residue(num as int, modulus());
        }
        BN128::from_bigint(&bigint::from_u64(num as u64))
    }
}

/// What the conversion returns is stated by `from` itself, over the canonical
/// integer; no element is named for it here.
impl vstd::std_specs::convert::FromSpecImpl<usize> for BN128 {
    open spec fn obeys_from_spec() -> bool {
        false
    }

    open spec fn from_spec(num: usize) -> BN128 {
        arbitrary()
    }
}

impl Pow<usize> for BN128 {
    type Output = BN128;

    /// The power with exponent `exp`, by `exp` multiplications.
    fn pow(self, exp: usize) -> (r: BN128)
        ensures
            r@ == field_pow(self@, exp as nat),
            0 <= pow(self@, exp as nat) < modulus() ==> r@ == pow(self@, exp as nat),
            r.wf(),
    {
        proof {
            if 0 <= pow(self@, exp as nat) < modulus() {
                lemma_mod_of_residue(pow(self@, exp as nat), modulus());
            }
        }
        let mut res = BN128::from(1i32);
        proof {
            lemma_mod_of_residue(1, modulus());
            vstd::arithmetic::power::lemma_pow0(self@);
        }
        for i in 0..exp
            invariant
                res@ == field_pow(self@, i as nat),
        {
            proof {
                lemma_pow_step(self@, i as nat, modulus());
            }
            res = res * &self;
        }
        res
    }
}

impl Pow<BN128> for BN128 {
    type Output = BN128;

    /// The power whose exponent is the canonical integer of `exp`.
    fn pow(self, exp: BN128) -> (r: BN128)
        ensures
            r@ == field_pow(self@, exp@ as nat),
            0 <= pow(self@, exp@ as nat) < modulus() ==> r@ == pow(self@, exp@ as nat),
            r.wf(),
    {
        proof {
            if 0 <= pow(self@, exp@ as nat) < modulus() {
                lemma_mod_of_residue(pow(self@, exp@ as nat), modulus());
            }
        }
        self.pow(&exp)
    }
}

impl<'a> Pow<&'a BN128> for BN128 {
    type Output = BN128;

    /// The power whose exponent is the canonical integer of `exp`, by that
    /// many multiplications.
    fn pow(self, exp: &'a BN128) -> (r: BN128)
        ensures
            r@ == field_pow(self@, exp@ as nat),
            0 <= pow(self@, exp@ as nat) < modulus() ==> r@ == pow(self@, exp@ as nat),
            r.wf(),
    {
        proof {
            if 0 <= pow(self@, exp@ as nat) < modulus() {
                lemma_mod_of_residue(pow(self@, exp@ as nat), modulus());
            }
        }
        let mut res = BN128::one();
        let mut current = BN128::zero();
        proof {
            use_type_invariant(exp);
            lemma_mod_of_residue(1, modulus());
            vstd::arithmetic::power::lemma_pow0(self@);
        }
        loop
            invariant
                0 <= current@ <= exp@ < modulus(),
                res@ == field_pow(self@, current@ as nat),
                0 <= pow(self@, exp@ as nat) < modulus() ==> canonical(pow(self@, exp@ as nat))
                    == pow(self@, exp@ as nat),
            decreases exp@ - current@,
        {
            if bigint::at_most(&exp.value, &current.value) {
                return res;
            }
            proof {
                lemma_pow_step(self@, current@ as nat, modulus());
                lemma_mod_of_residue(current@ + 1, modulus());
            }
            res = res * &self;
            current = current + BN128::one();
        }
    }
}

impl Field for BN128 {
    type BellmanScalar = Fr;

    open spec fn order() -> int {
        modulus()
    }

    open spec fn canonical(&self) -> int {
        self@
    }

    open spec fn scalar(e: Fr) -> int {
        scalar_value(e)
    }

    open spec fn has_inverse(&self) -> bool {
        self@ != 0
    }

    /// The element with the canonical integer of the backend scalar, by way
    /// of its little-endian bytes.
    fn from_bellman(e: Fr) -> (r: BN128)
        ensures
            r@ == scalar_value(e),
            r.wf(),
    {
        let res = bellman::scalar_bytes(&e);
        BN128::from_byte_vector(res)
    }

    /// The backend scalar with the canonical integer of the element, by way
    /// of its decimal text.
    fn into_bellman(self) -> (e: Fr)
        ensures
            scalar_value(e) == self@,
    {
        proof {
            use_type_invariant(&self);
            lemma_decimal_is_plain(self@ as nat);
            lemma_mod_of_residue(self@, modulus());
        }
        let s = self.to_dec_string();
        match bellman::scalar_from_decimal(s.as_str()) {
            Some(e) => e,
            None => {
                proof {
                    assert(false);
                }
                unreached()
            },
        }
    }

    /// The shortest little-endian encoding of the canonical integer; zero
    /// is the single byte 0.
    fn into_byte_vector(&self) -> (r: Vec<u8>)
        ensures
            r@ == le_bytes(self@ as nat),
            le_value(r@) == self@,
            self.wf(),
    {
        proof {
            use_type_invariant(self);
            lemma_le_bytes_round_trip(self@ as nat);
        }
        bigint::magnitude_bytes(&self.value)
    }

    /// The element that the bytes encode, least significant byte first.
    /// The bytes are taken as they are: they must encode a canonical value.
    fn from_byte_vector(bytes: Vec<u8>) -> (r: BN128)
        ensures
            r@ == le_value(bytes@),
            r.wf(),
    {
        BN128 { value: bigint::from_magnitude_bytes(&bytes) }
    }

    /// The decimal digits of the canonical integer.
    fn to_dec_string(&self) -> (r: String)
        ensures
            r@ == decimal(self@),
            self.wf(),
    {
        proof {
            use_type_invariant(self);
        }
        bigint::to_decimal(&self.value)
    }

    /// The multiplicative inverse of an element that is not zero: the
    /// Bézout coefficient that the extended Euclidean algorithm finds for it
    /// against the modulus, reduced into canonical range.
    fn inverse_mul(&self) -> (r: BN128)
        ensures
            r@ == field_inverse(self@),
            is_inverse(self@, r@),
            r.wf(),
    {
        proof {
            use_type_invariant(self);
        }
        let p = prime();
        let (d, s, t) = extended_euclid(&self.value, &p);
        proof {
            lemma_nonzero_is_coprime(self@);
            assert(int_value(d) == 1);
            lemma_bezout_coefficient_inverts(self@, int_value(s), int_value(t), modulus());
        }
        BN128 { value: reduce(&s) }
    }

    /// The additive identity.
    fn min_value() -> (r: BN128)
        ensures
            r@ == 0,
            r.wf(),
    {
        BN128::zero()
    }

    /// The element one below the modulus.
    fn max_value() -> (r: BN128)
        ensures
            r@ == modulus() - 1,
            r.wf(),
    {
        BN128 { value: bigint::difference(&prime(), &bigint::from_i64(1)) }
    }

    /// The number of bits of the modulus.
    fn get_required_bits() -> (r: usize)
        ensures
            r == bit_length(modulus() as nat),
            r == 254,
    {
        proof {
            lemma_modulus_bits();
        }
        bigint::bits(&prime())
    }

    /// The element that a signed decimal literal stands for, or an error
    /// where the text is no such literal.
    fn try_from_dec_str<'a>(s: &'a str) -> (r: Result<BN128, ()>)
        ensures
            match parse_decimal(s@) {
                Some(x) => r is Ok && r.unwrap()@ == canonical(x) && r.unwrap().wf(),
                None => r is Err,
            },
            match parse_decimal(s@) {
                Some(x) => (0 <= x < modulus() ==> r.unwrap()@ == x) && (-modulus() < x < 0
                    ==> r.unwrap()@ == x + modulus()),
                None => true,
            },
    {
        match bigint::from_decimal(s) {
            Some(x) => Ok(BN128::from_bigint(&x)),
            None => Err(()),
        }
    }

    /// The decimal text of the member of the element's residue class that
    /// is smallest in absolute value: elements up to `(modulus() - 1) / 2`
    /// as they are, those above as a negative number in parentheses.
    fn to_compact_dec_string(&self) -> (r: String)
        ensures
            r@ == compact_decimal(self@, modulus()),
    {
        proof {
            use_type_invariant(self);
        }
        let p = prime();
        let top = bigint::difference(&p, &bigint::from_i64(1));
        let middle = bigint::quotient(&top, &bigint::from_i64(2));
        if bigint::at_most(&self.value, &middle) {
            bigint::to_decimal(&self.value)
        } else {
            let negative = bigint::to_decimal(&bigint::difference(&self.value, &p));
            proof {
                reveal_strlit("(");
                reveal_strlit(")");
                assert("("@ =~= seq!['(']);
                assert(")"@ =~= seq![')']);
            }
            String::from_str("(").concat(negative.as_str()).concat(")")
        }
    }
}

} // verus!
