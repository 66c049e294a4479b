//! The extended Euclidean algorithm on integers of unbounded size.

use vstd::prelude::*;
use vstd::math::abs;
use num_bigint::BigInt;
use crate::bigint::{self, int_value};
use crate::euclid::{bezout, carried, gcd, lemma_bezout, lemma_round_keeps_answer, lemma_trunc_rem_bounds};

verus! {

/// Calculates the gcd using an iterative implementation of the extended
/// euclidian algorithm, returning `(d, s, t)` so that `d = s * a + t * b`.
///
/// The result is exactly the triple that `bezout` names. For `a` and `b` that
/// are not negative `d` is their gcd; otherwise it is the gcd up to sign.
pub fn extended_euclid(a: &BigInt, b: &BigInt) -> (res: (BigInt, BigInt, BigInt))
    ensures
        (int_value(res.0), int_value(res.1), int_value(res.2)) == bezout(
            int_value(*a),
            int_value(*b),
        ),
        int_value(res.0) == int_value(res.1) * int_value(*a) + int_value(res.2) * int_value(*b),
        abs(int_value(res.0)) == gcd(abs(int_value(*a)), abs(int_value(*b))),
        int_value(*a) >= 0 && int_value(*b) >= 0 ==> int_value(res.0) >= 0,
{
    let mut s = bigint::zero();
    let mut old_s = bigint::one();
    let mut t = bigint::one();
    let mut old_t = bigint::zero();
    let mut r = bigint::duplicate(b);
    let mut old_r = bigint::duplicate(a);
    proof {
        let inner = bezout(int_value(*a), int_value(*b));
        assert(inner.1 * 1 + inner.2 * 0 == inner.1) by (nonlinear_arith);
        assert(inner.1 * 0 + inner.2 * 1 == inner.2) by (nonlinear_arith);
    }
    while !bigint::is_zero(&r)
        invariant
            bezout(int_value(*a), int_value(*b)) == carried(
                bezout(int_value(old_r), int_value(r)),
                int_value(old_s),
                int_value(s),
                int_value(old_t),
                int_value(t),
            ),
        decreases abs(int_value(r)),
    {
        proof {
            lemma_trunc_rem_bounds(int_value(old_r), int_value(r));
            lemma_round_keeps_answer(
                int_value(old_r),
                int_value(r),
                int_value(old_s),
                int_value(s),
                int_value(old_t),
                int_value(t),
            );
        }
        let quotient = bigint::quotient(&old_r, &r);
        let tmp_r = bigint::difference(&old_r, &bigint::product(&quotient, &r));
        old_r = r;
        r = tmp_r;
        let tmp_s = bigint::difference(&old_s, &bigint::product(&quotient, &s));
        old_s = s;
        s = tmp_s;
        let tmp_t = bigint::difference(&old_t, &bigint::product(&quotient, &t));
        old_t = t;
        t = tmp_t;
    }
    proof {
        let inner = bezout(int_value(old_r), int_value(r));
        assert(inner == (int_value(old_r), 1int, 0int));
        assert(1 * int_value(old_s) + 0 * int_value(s) == int_value(old_s)) by (nonlinear_arith);
        assert(1 * int_value(old_t) + 0 * int_value(t) == int_value(old_t)) by (nonlinear_arith);
        lemma_bezout(int_value(*a), int_value(*b));
    }
    (old_r, old_s, old_t)
}

} // verus!
