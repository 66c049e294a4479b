//! Facts about residues modulo a positive integer.

use vstd::prelude::*;
use vstd::arithmetic::div_mod::{
    lemma_mod_multiples_vanish,
    lemma_mul_mod_noop_general,
    lemma_small_mod,
    lemma_sub_mod_noop,
};
use vstd::arithmetic::power::{lemma_pow_adds, pow};

verus! {

/// A canonical residue is its own remainder.
pub proof fn lemma_mod_of_residue(x: int, m: int)
    requires
        0 <= x < m,
    ensures
        x % m == x,
{
    lemma_small_mod(x as nat, m as nat);
}

/// The residue of a number within one modulus of zero: the number itself,
/// or the number plus the modulus where it is negative.
pub proof fn lemma_residue_near_zero(x: int, m: int)
    requires
        -m < x < m,
    ensures
        x % m == if x >= 0 {
            x
        } else {
            x + m
        },
{
    if x >= 0 {
        lemma_mod_of_residue(x, m);
    } else {
        lemma_mod_multiples_vanish(-1, x + m, m);
        lemma_mod_of_residue(x + m, m);
    }
}

/// The sum of two canonical residues, reduced: the sum itself, or the sum
/// less the modulus where it reaches the modulus.
pub proof fn lemma_add_residues(a: int, b: int, m: int)
    requires
        0 <= a < m,
        0 <= b < m,
    ensures
        (a + b) % m == if a + b < m {
            a + b
        } else {
            a + b - m
        },
{
    if a + b < m {
        lemma_mod_of_residue(a + b, m);
    } else {
        lemma_mod_multiples_vanish(1, a + b - m, m);
        lemma_mod_of_residue(a + b - m, m);
    }
}

/// The difference of two canonical residues, reduced: the difference itself,
/// or the difference plus the modulus where it is negative.
pub proof fn lemma_sub_residues(a: int, b: int, m: int)
    requires
        0 <= a < m,
        0 <= b < m,
    ensures
        (a - b) % m == if a >= b {
            a - b
        } else {
            a - b + m
        },
{
    if a >= b {
        lemma_mod_of_residue(a - b, m);
    } else {
        lemma_mod_multiples_vanish(-1, a - b + m, m);
        lemma_mod_of_residue(a - b + m, m);
    }
}

/// Adding `b` and taking it away again gives `a` back.
pub proof fn lemma_add_then_sub(a: int, b: int, m: int)
    requires
        0 <= a < m,
    ensures
        ((a + b) % m - b) % m == a,
{
    lemma_sub_mod_noop((a + b) % m, b, m);
    lemma_sub_mod_noop(a + b, b, m);
    vstd::arithmetic::div_mod::lemma_mod_twice(a + b, m);
    lemma_mod_of_residue(a, m);
}

/// A Bézout coefficient of `v`, for a pair whose combination is 1, is an
/// inverse of `v` modulo the other member of the pair.
pub proof fn lemma_bezout_coefficient_inverts(v: int, s: int, t: int, m: int)
    requires
        m > 1,
        s * v + t * m == 1,
    ensures
        (v * (s % m)) % m == 1,
{
    lemma_mul_mod_noop_general(v, s, m);
    assert(v * s == m * (-t) + 1) by (nonlinear_arith)
        requires
            s * v + t * m == 1,
    ;
    lemma_mod_multiples_vanish(-t, 1, m);
    lemma_mod_of_residue(1, m);
}

/// Multiplying by an inverse of `b` and then by `b` gives `a` back.
pub proof fn lemma_mul_inverse_then_mul(a: int, b: int, inv: int, m: int)
    requires
        0 <= a < m,
        (b * inv) % m == 1,
    ensures
        (((a * inv) % m) * b) % m == a,
{
    lemma_mul_mod_noop_general(a * inv, b, m);
    assert((a * inv) * b == a * (b * inv)) by (nonlinear_arith);
    lemma_mul_mod_noop_general(a, b * inv, m);
    assert(a * 1 == a);
    lemma_mod_of_residue(a, m);
}

/// Multiplying by `b` and then by an inverse of `b` gives `a` back.
pub proof fn lemma_mul_then_mul_inverse(a: int, b: int, inv: int, m: int)
    requires
        0 <= a < m,
        (b * inv) % m == 1,
    ensures
        (((a * b) % m) * inv) % m == a,
{
    lemma_mul_mod_noop_general(a * b, inv, m);
    assert((a * b) * inv == a * (b * inv)) by (nonlinear_arith);
    lemma_mul_mod_noop_general(a, b * inv, m);
    assert(a * 1 == a);
    lemma_mod_of_residue(a, m);
}

/// A residue has at most one inverse among the canonical residues.
pub proof fn lemma_inverse_unique(a: int, r1: int, r2: int, m: int)
    requires
        0 <= r1 < m,
        0 <= r2 < m,
        (a * r1) % m == 1,
        (a * r2) % m == 1,
    ensures
        r1 == r2,
{
    lemma_mul_then_mul_inverse(r1, a, r2, m);
    assert(r1 * a == a * r1) by (nonlinear_arith);
    lemma_mul_mod_noop_general(1, r2, m);
    assert(1 * r2 == r2);
    lemma_mod_of_residue(r2, m);
    lemma_mod_of_residue(1, m);
}

/// The next power is the last one times the base, each reduced.
pub proof fn lemma_pow_step(a: int, n: nat, m: int)
    requires
        m > 0,
    ensures
        ((pow(a, n) % m) * a) % m == pow(a, n + 1) % m,
{
    lemma_mul_mod_noop_general(pow(a, n), a, m);
    vstd::arithmetic::power::lemma_pow1(a);
    lemma_pow_adds(a, n, 1);
}

} // verus!
