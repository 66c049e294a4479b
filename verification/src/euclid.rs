//! Greatest common divisors and Bézout coefficients over the mathematical
//! integers, and the facts about them that the field arithmetic rests on.

use vstd::prelude::*;
use vstd::math::abs;
use crate::bigint::{trunc_div, trunc_rem};

verus! {

/// The greatest common divisor of two natural numbers, with `gcd(0, 0) == 0`.
pub open spec fn gcd(a: nat, b: nat) -> nat
    decreases b,
{
    if b == 0 {
        a
    } else {
        gcd(b, a % b)
    }
}

/// The gcd of `a` and `b` together with the Bézout coefficients that Euclid's
/// algorithm with truncating division finds: `(d, s, t)` with
/// `d == s * a + t * b`.
pub open spec fn bezout(a: int, b: int) -> (int, int, int)
    decreases abs(b),
    via bezout_decreases
{
    if b == 0 {
        (a, 1, 0)
    } else {
        let q = trunc_div(a, b);
        let inner = bezout(b, a - q * b);
        (inner.0, inner.2, inner.1 - q * inner.2)
    }
}

#[via_fn]
proof fn bezout_decreases(a: int, b: int) {
    if b != 0 {
        lemma_trunc_rem_bounds(a, b);
    }
}

/// The remainder of a truncating division is, in absolute value, the
/// remainder of the absolute values, and smaller than the divisor.
pub proof fn lemma_trunc_rem_bounds(a: int, b: int)
    requires
        b != 0,
    ensures
        abs(a - trunc_div(a, b) * b) == abs(a) % abs(b),
        abs(a - trunc_div(a, b) * b) < abs(b),
{
    let n = abs(a) as int;
    let m = abs(b) as int;
    assert(n == m * (n / m) + n % m && 0 <= n % m < m) by {
        vstd::arithmetic::div_mod::lemma_fundamental_div_mod(n, m);
        vstd::arithmetic::div_mod::lemma_mod_bound(n, m);
    }
    let k = n / m;
    let q = trunc_div(a, b);
    if a >= 0 {
        if b > 0 {
            assert(q == k);
            assert(a - q * b == n % m) by (nonlinear_arith)
                requires q == k, a == n, b == m, n == m * k + n % m;
        } else {
            assert(q == -k);
            assert(a - q * b == n % m) by (nonlinear_arith)
                requires q == -k, a == n, b == -m, n == m * k + n % m;
        }
    } else {
        if b > 0 {
            assert(q == -k);
            assert(a - q * b == -(n % m)) by (nonlinear_arith)
                requires q == -k, a == -n, b == m, n == m * k + n % m;
        } else {
            assert(q == k);
            assert(a - q * b == -(n % m)) by (nonlinear_arith)
                requires q == k, a == -n, b == -m, n == m * k + n % m;
        }
    }
}

/// On a dividend that is not negative and a positive divisor, the truncating
/// remainder is the ordinary one.
pub proof fn lemma_trunc_rem_is_mod(a: int, b: int)
    requires
        0 <= a,
        0 < b,
    ensures
        trunc_rem(a, b) == a % b,
        0 <= a % b < b,
{
    lemma_trunc_rem_bounds(a, b);
    vstd::arithmetic::div_mod::lemma_fundamental_div_mod(a, b);
    assert(a - (a / b) * b == a % b) by (nonlinear_arith)
        requires
            a == b * (a / b) + a % b,
    ;
}

/// The gcd of zero and `b` is `b`.
pub proof fn lemma_gcd_of_zero(b: nat)
    ensures
        gcd(0, b) == b,
        gcd(b, 0) == b,
{
    if b != 0 {
        assert(0nat % b == 0) by {
            vstd::arithmetic::div_mod::lemma_small_mod(0, b);
        }
        assert(gcd(0, b) == gcd(b, 0));
    }
}

/// The state of the iterative algorithm after some rounds, read as the answer
/// it is heading for: the coefficients found for the current pair of
/// remainders, carried back to the original pair.
pub open spec fn carried(inner: (int, int, int), old_s: int, s: int, old_t: int, t: int) -> (
    int,
    int,
    int,
) {
    (inner.0, inner.1 * old_s + inner.2 * s, inner.1 * old_t + inner.2 * t)
}

/// One round of the iterative algorithm leaves the answer it is heading for
/// unchanged.
pub proof fn lemma_round_keeps_answer(old_r: int, r: int, old_s: int, s: int, old_t: int, t: int)
    requires
        r != 0,
    ensures
        ({
            let q = trunc_div(old_r, r);
            carried(bezout(old_r, r), old_s, s, old_t, t) == carried(
                bezout(r, old_r - q * r),
                s,
                old_s - q * s,
                t,
                old_t - q * t,
            )
        }),
{
    let q = trunc_div(old_r, r);
    let inner = bezout(r, old_r - q * r);
    let x = inner.1;
    let y = inner.2;
    assert(bezout(old_r, r) == (inner.0, y, x - q * y));
    assert(y * old_s + (x - q * y) * s == x * s + y * (old_s - q * s)) by (nonlinear_arith);
    assert(y * old_t + (x - q * y) * t == x * t + y * (old_t - q * t)) by (nonlinear_arith);
}

/// The coefficients that `bezout` names satisfy Bézout's identity, and the
/// first component is, up to sign, the gcd.
pub proof fn lemma_bezout(a: int, b: int)
    ensures
        bezout(a, b).0 == bezout(a, b).1 * a + bezout(a, b).2 * b,
        abs(bezout(a, b).0) == gcd(abs(a), abs(b)),
        a >= 0 && b >= 0 ==> bezout(a, b).0 >= 0,
    decreases abs(b),
{
    if b != 0 {
        let q = trunc_div(a, b);
        let r = a - q * b;
        lemma_trunc_rem_bounds(a, b);
        lemma_bezout(b, r);
        let inner = bezout(b, r);
        let x = inner.1;
        let y = inner.2;
        assert(y * a + (x - q * y) * b == x * b + y * (a - q * b)) by (nonlinear_arith);
        if a >= 0 && b >= 0 {
            assert(r >= 0) by {
                assert(q == a / b);
                vstd::arithmetic::div_mod::lemma_fundamental_div_mod(a, b);
                vstd::arithmetic::div_mod::lemma_mod_bound(a, b);
                assert(a - (a / b) * b == a % b) by (nonlinear_arith)
                    requires a == b * (a / b) + a % b;
            }
        }
    }
}

} // verus!
