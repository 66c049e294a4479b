//! Primality by certificate.
//!
//! A number `n` is prime when some base `a` has `a^(n-1) = 1` modulo `n` and,
//! for distinct primes `q` that divide `n - 1` and whose product exceeds the
//! square root of `n`, `a^((n-1)/q) - 1` is coprime to `n`. The lemmas here
//! prove that criterion, so that a certificate of a few numbers settles the
//! primality of a number far too large for trial division.

use vstd::prelude::*;
use vstd::arithmetic::div_mod::{
    lemma_fundamental_div_mod,
    lemma_mod_bound,
    lemma_mod_multiples_basic,
    lemma_mod_multiples_vanish,
    lemma_mul_mod_noop_general,
    lemma_small_mod,
};
use vstd::arithmetic::power::{
    lemma1_pow,
    lemma_pow0,
    lemma_pow1,
    lemma_pow_adds,
    lemma_pow_mod_noop,
    lemma_pow_multiplies,
    pow,
};
use vstd::math::abs;
use vstd::set_lib::{lemma_int_range, lemma_len_subset, lemma_map_size, set_int_range};
use vstd::relations::injective_on;
use crate::euclid::{bezout, gcd, lemma_bezout, lemma_gcd_of_zero};

verus! {

/// Whether `n` is a prime number.
pub open spec fn is_prime(n: int) -> bool {
    n > 1 && forall|d: int| 1 < d < n ==> #[trigger] (n % d) != 0
}

/// A multiple of `d` leaves no remainder on division by `d`.
pub proof fn lemma_multiple_divides(d: int, k: int)
    requires
        d > 0,
    ensures
        (d * k) % d == 0,
        (k * d) % d == 0,
{
    lemma_mod_multiples_basic(k, d);
    assert(d * k == k * d) by (nonlinear_arith);
}

/// What `d` divides is a multiple of `d`.
pub proof fn lemma_divisible_is_multiple(x: int, d: int)
    requires
        d > 0,
        x % d == 0,
    ensures
        x == d * (x / d),
{
    lemma_fundamental_div_mod(x, d);
}

/// Reducing modulo `n` first does not change the remainder modulo a divisor
/// of `n`.
pub proof fn lemma_mod_of_divisor(x: int, n: int, d: int)
    requires
        d > 0,
        n > 0,
        n % d == 0,
    ensures
        (x % n) % d == x % d,
{
    lemma_fundamental_div_mod(x, n);
    lemma_divisible_is_multiple(n, d);
    let m = n / d;
    let q = x / n;
    assert(x == d * (m * q) + x % n) by (nonlinear_arith)
        requires
            x == n * q + x % n,
            n == d * m,
    ;
    lemma_mod_multiples_vanish(m * q, x % n, d);
}

/// The gcd divides both numbers, and is positive unless both are zero.
pub proof fn lemma_gcd_divides(u: nat, v: nat)
    ensures
        u > 0 || v > 0 ==> gcd(u, v) > 0,
        gcd(u, v) > 0 ==> (u as int) % (gcd(u, v) as int) == 0 && (v as int) % (gcd(u, v) as int)
            == 0,
    decreases v,
{
    if v == 0 {
        if u > 0 {
            vstd::arithmetic::div_mod::lemma_mod_self_0(u as int);
            lemma_multiple_divides(u as int, 0);
        }
    } else {
        lemma_mod_bound(u as int, v as int);
        lemma_gcd_divides(v, u % v);
        let g = gcd(u, v) as int;
        assert(g == gcd(v, u % v));
        assert(g > 0);
        lemma_fundamental_div_mod(u as int, v as int);
        lemma_divisible_is_multiple(v as int, g);
        lemma_divisible_is_multiple((u % v) as int, g);
        let a = (v as int) / g;
        let b = ((u % v) as int) / g;
        let q = (u as int) / (v as int);
        assert(u as int == g * (a * q + b)) by (nonlinear_arith)
            requires
                u as int == (v as int) * q + (u % v) as int,
                v as int == g * a,
                (u % v) as int == g * b,
        ;
        lemma_multiple_divides(g, a * q + b);
    }
}

/// The gcd does not depend on the order of the two numbers.
pub proof fn lemma_gcd_symmetric(u: nat, v: nat)
    ensures
        gcd(u, v) == gcd(v, u),
    decreases u + v,
{
    if u == 0 || v == 0 {
        lemma_gcd_of_zero(u);
        lemma_gcd_of_zero(v);
    } else if u < v {
        lemma_small_mod(u, v);
        assert(gcd(u, v) == gcd(v, u % v));
    } else if u == v {
    } else {
        lemma_small_mod(v, u);
        assert(gcd(v, u) == gcd(u, v % u));
    }
}

/// The gcd is a combination of the two numbers.
pub proof fn lemma_gcd_is_combination(u: nat, v: nat) -> (c: (int, int))
    ensures
        gcd(u, v) == c.0 * u + c.1 * v,
{
    lemma_bezout(u as int, v as int);
    let b = bezout(u as int, v as int);
    assert(abs(u as int) == u && abs(v as int) == v);
    (b.1, b.2)
}

/// Euclid's lemma: what is coprime to `q` and divides `q * m` divides `m`.
pub proof fn lemma_coprime_divides(g: nat, q: nat, m: int)
    requires
        g > 0,
        gcd(g, q) == 1,
        (q * m) % (g as int) == 0,
    ensures
        m % (g as int) == 0,
{
    let c = lemma_gcd_is_combination(g, q);
    lemma_divisible_is_multiple(q * m, g as int);
    let k = (q * m) / (g as int);
    assert(m == g * (c.0 * m + c.1 * k)) by (nonlinear_arith)
        requires
            1 == c.0 * g + c.1 * q,
            q * m == g * k,
    ;
    lemma_multiple_divides(g as int, c.0 * m + c.1 * k);
}

/// A number is coprime to a prime or a multiple of it.
pub proof fn lemma_prime_or_coprime(q: int, g: nat)
    requires
        is_prime(q),
        g > 0,
    ensures
        gcd(g, q as nat) == 1 || (g as int) % q == 0,
{
    lemma_gcd_divides(g, q as nat);
    let d = gcd(g, q as nat) as int;
    if d != 1 {
        if d < q {
            assert(q % d == 0);
            assert(false);
        }
        assert(d <= q) by {
            lemma_divisible_is_multiple(q, d);
            assert(q / d >= 1 && d <= q) by (nonlinear_arith)
                requires
                    q == d * (q / d),
                    q > 0,
                    d > 0,
            ;
        }
    }
}

/// In a prime modulus every canonical residue but zero is coprime to the
/// modulus.
pub proof fn lemma_prime_coprime(p: int, v: int)
    requires
        is_prime(p),
        0 < v < p,
    ensures
        gcd(v as nat, p as nat) == 1,
{
    lemma_gcd_divides(v as nat, p as nat);
    let d = gcd(v as nat, p as nat) as int;
    assert(d <= v) by {
        lemma_divisible_is_multiple(v, d);
        assert(d <= v) by (nonlinear_arith)
            requires
                v == d * (v / d),
                v > 0,
                d > 0,
        ;
    }
    if d > 1 {
        assert(p % d == 0);
    }
}

/// A power of a number that is 1 modulo `d` is 1 modulo `d`.
pub proof fn lemma_pow_of_unit_residue(x: int, k: nat, d: int)
    requires
        d > 1,
        x % d == 1,
    ensures
        pow(x, k) % d == 1,
{
    lemma_pow_mod_noop(x, k, d);
    lemma1_pow(k);
    lemma_small_mod(1, d as nat);
}

/// If `a^g` is 1 modulo `d`, so is `a^(g * m)`.
pub proof fn lemma_pow_of_multiple(a: int, g: nat, m: nat, d: int)
    requires
        d > 1,
        pow(a, g) % d == 1,
    ensures
        pow(a, g * m) % d == 1,
{
    lemma_pow_multiplies(a, g, m);
    lemma_pow_of_unit_residue(pow(a, g), m, d);
}

/// If `a^u` and `a^v` are 1 modulo `d`, so is `a^gcd(u, v)`.
pub proof fn lemma_pow_of_gcd(a: int, d: int, u: nat, v: nat)
    requires
        d > 1,
        pow(a, u) % d == 1,
        pow(a, v) % d == 1,
    ensures
        pow(a, gcd(u, v)) % d == 1,
    decreases v,
{
    if v != 0 {
        let q = u / v;
        let r = u % v;
        lemma_fundamental_div_mod(u as int, v as int);
        lemma_mod_bound(u as int, v as int);
        assert(q >= 0) by {
            vstd::arithmetic::div_mod::lemma_div_pos_is_pos(u as int, v as int);
        }
        assert(u == v * q + r);
        lemma_pow_adds(a, v * q, r);
        lemma_pow_of_multiple(a, v, q, d);
        lemma_mul_mod_noop_general(pow(a, v * q), pow(a, r), d);
        assert(1 * (pow(a, r) % d) == pow(a, r) % d);
        vstd::arithmetic::div_mod::lemma_mod_twice(pow(a, r), d);
        assert(pow(a, r) % d == 1);
        lemma_pow_of_gcd(a, d, v, r);
    }
}

/// Whether every exponent `k` for which `a^k` is 1 modulo some divisor
/// `d > 1` of `n` is a multiple of `f`.
pub open spec fn order_multiple(a: int, n: int, f: int) -> bool {
    forall|d: int, k: nat|
        1 < d && n % d == 0 && #[trigger] (pow(a, k) % d) == 1 ==> (k as int) % f == 0
}

/// Every exponent is a multiple of 1.
pub proof fn lemma_order_multiple_of_one(a: int, n: int)
    ensures
        order_multiple(a, n, 1),
{
    assert forall|d: int, k: nat|
        1 < d && n % d == 0 && #[trigger] (pow(a, k) % d) == 1 implies (k as int) % 1 == 0 by {
        lemma_small_mod(0, 1);
        lemma_mod_multiples_basic(k as int, 1);
    }
}

/// One more prime in the order: where `a^(n-1)` is 1 modulo `n`, the
/// exponents are multiples of `f`, `q` is a prime that divides `n - 1` but
/// not `f`, and `a^((n-1)/q) - 1` is coprime to `n`, as the combination
/// `x * (b - 1) + y * n == 1` witnesses, the exponents are multiples of
/// `f * q`.
pub proof fn lemma_order_gains_prime(a: int, n: int, f: int, q: int, b: int, x: int, y: int)
    requires
        n > 1,
        f > 0,
        pow(a, (n - 1) as nat) % n == 1,
        order_multiple(a, n, f),
        is_prime(q),
        f % q != 0,
        (n - 1) % q == 0,
        pow(a, ((n - 1) / q) as nat) % n == b,
        x * (b - 1) + y * n == 1,
    ensures
        order_multiple(a, n, f * q),
{
    assert forall|d: int, k: nat|
        1 < d && n % d == 0 && #[trigger] (pow(a, k) % d) == 1 implies (k as int) % (f * q)
        == 0 by {
        let e = (n - 1) as nat;
        let h = ((n - 1) / q) as nat;
        lemma_divisible_is_multiple(n - 1, q);
        assert(h >= 0 && (n - 1) / q >= 0) by (nonlinear_arith)
            requires
                n - 1 == q * ((n - 1) / q),
                n - 1 > 0,
                q > 0,
        ;
        // modulo d, a^(n-1) is 1 and a^((n-1)/q) is b
        lemma_mod_of_divisor(pow(a, e), n, d);
        lemma_small_mod(1, d as nat);
        assert(pow(a, e) % d == 1);
        lemma_mod_of_divisor(pow(a, h), n, d);
        assert(pow(a, h) % d == b % d);
        // hence a^g is 1 modulo d, for the gcd g of k and n - 1
        lemma_pow_of_gcd(a, d, k, e);
        let g = gcd(k, e);
        lemma_gcd_divides(k, e);
        assert(g > 0);
        // q divides g: else g divides (n-1)/q, and b would be 1 modulo d
        lemma_prime_or_coprime(q, g);
        if gcd(g, q as nat) == 1 {
            assert((q * (h as int)) % (g as int) == 0);
            lemma_coprime_divides(g, q as nat, h as int);
            lemma_divisible_is_multiple(h as int, g as int);
            let m = (h as int) / (g as int);
            assert(m >= 0) by (nonlinear_arith)
                requires
                    h as int == g * m,
                    h >= 0,
                    g > 0,
            ;
            lemma_pow_of_multiple(a, g, m as nat, d);
            assert(g * (m as nat) == h);
            assert(b % d == 1);
            // then d divides b - 1 and n, and so 1
            lemma_fundamental_div_mod(b, d);
            lemma_divisible_is_multiple(n, d);
            let u = b / d;
            let w = n / d;
            assert(1 == d * (x * u + y * w)) by (nonlinear_arith)
                requires
                    x * (b - 1) + y * n == 1,
                    b == d * u + 1,
                    n == d * w,
            ;
            assert(false) by (nonlinear_arith)
                requires
                    1 == d * (x * u + y * w),
                    d > 1,
            ;
        }
        assert((g as int) % q == 0);
        // so q divides k, as f does; and f is coprime to q
        lemma_divisible_is_multiple(g as int, q);
        lemma_divisible_is_multiple(k as int, g as int);
        let kg = (k as int) / (g as int);
        let gq = (g as int) / q;
        assert(k as int == q * (gq * kg)) by (nonlinear_arith)
            requires
                k as int == g * kg,
                g as int == q * gq,
        ;
        lemma_multiple_divides(q, gq * kg);
        assert((k as int) % q == 0);
        assert((k as int) % f == 0);
        lemma_prime_or_coprime(q, f as nat);
        lemma_divisible_is_multiple(k as int, f);
        let kf = (k as int) / f;
        assert((f * kf) % q == 0);
        // q is coprime to f and divides f * kf, so it divides kf
        lemma_gcd_symmetric(f as nat, q as nat);
        lemma_coprime_divides(q as nat, f as nat, kf);
        lemma_divisible_is_multiple(kf, q);
        assert(k as int == (f * q) * (kf / q)) by (nonlinear_arith)
            requires
                k as int == f * kf,
                kf == q * (kf / q),
        ;
        assert(f * q > 0) by (nonlinear_arith)
            requires
                f > 0,
                q > 0,
        ;
        lemma_multiple_divides(f * q, kf / q);
    }
}

/// The pigeonhole principle: a function that sends `count` arguments to
/// different values below `bound` has `count <= bound`.
pub proof fn lemma_pigeonhole(f: spec_fn(int) -> int, count: int, bound: int)
    requires
        count >= 0,
        bound >= 0,
        forall|i: int| 0 <= i < count ==> 0 <= #[trigger] f(i) < bound,
        forall|i: int, j: int| 0 <= i < j < count ==> #[trigger] f(i) != #[trigger] f(j),
    ensures
        count <= bound,
{
    let x = set_int_range(0, count);
    let y = x.map(f);
    lemma_int_range(0, count);
    lemma_int_range(0, bound);
    assert(injective_on(f, x)) by {
        assert forall|i: int, j: int|
            x.contains(i) && x.contains(j) && #[trigger] f(i) == #[trigger] f(j) implies i
            == j by {
            if i < j {
                assert(f(i) != f(j));
            } else if j < i {
                assert(f(j) != f(i));
            }
        }
    }
    lemma_map_size(x, y, f);
    assert(y.subset_of(set_int_range(0, bound))) by {
        assert forall|v: int| y.contains(v) implies set_int_range(0, bound).contains(v) by {
            let i = choose|i: int| x.contains(i) && v == f(i);
            assert(0 <= f(i) < bound);
        }
    }
    lemma_len_subset(y, set_int_range(0, bound));
}

/// Where the exponents are multiples of `f`, every divisor `d > 1` of `n` is
/// at least `f`: the first `f` powers of `a` differ modulo `d`.
pub proof fn lemma_divisor_at_least(a: int, n: int, f: int, d: int)
    requires
        n > 1,
        f > 0,
        pow(a, (n - 1) as nat) % n == 1,
        order_multiple(a, n, f),
        1 < d,
        n % d == 0,
    ensures
        f <= d,
{
    let e = (n - 1) as nat;
    lemma_mod_of_divisor(pow(a, e), n, d);
    lemma_small_mod(1, d as nat);
    assert(pow(a, e) % d == 1);
    let residue = |i: int| pow(a, i as nat) % d;
    assert forall|i: int| 0 <= i < f implies 0 <= #[trigger] residue(i) < d by {
        lemma_mod_bound(pow(a, i as nat), d);
    }
    assert forall|i: int, j: int| 0 <= i < j < f implies #[trigger] residue(i) != #[trigger] residue(
        j,
    ) by {
        if residue(i) == residue(j) {
            let ni = i as nat;
            let nj = j as nat;
            let c = ((n - 2) * i) as nat;
            assert((n - 2) * i >= 0) by (nonlinear_arith)
                requires
                    n >= 2,
                    i >= 0,
            ;
            let turns = (e * ni) as nat;
            assert(ni + c == e * ni) by (nonlinear_arith)
                requires
                    c == (n - 2) * i,
                    e == n - 1,
                    ni == i,
            ;
            let gap = (j - i) as nat;
            assert(nj + c == gap + turns);
            // a^(i + c) is a power of a^(n-1)
            lemma_pow_of_multiple(a, e, ni, d);
            assert(pow(a, ni + c) % d == 1);
            // a^(j + c) has the same residue, as a^i and a^j have
            lemma_pow_adds(a, ni, c);
            lemma_pow_adds(a, nj, c);
            lemma_mul_mod_noop_general(pow(a, ni), pow(a, c), d);
            lemma_mul_mod_noop_general(pow(a, nj), pow(a, c), d);
            assert(pow(a, nj + c) % d == 1);
            // and it is a^(j - i) times a power of a^(n-1)
            lemma_pow_adds(a, gap, turns);
            lemma_mul_mod_noop_general(pow(a, gap), pow(a, turns), d);
            assert((pow(a, gap) % d) * 1 == pow(a, gap) % d);
            vstd::arithmetic::div_mod::lemma_mod_twice(pow(a, gap), d);
            assert(pow(a, gap) % d == 1);
            assert((gap as int) % f == 0);
            lemma_small_mod(gap, f as nat);
            assert(false);
        }
    }
    lemma_pigeonhole(residue, f, d);
}

/// The criterion: where `a^(n-1)` is 1 modulo `n` and the exponents are
/// multiples of an `f` above the square root of `n`, `n` is prime.
pub proof fn lemma_certified_prime(a: int, n: int, f: int)
    requires
        n > 1,
        f > 0,
        pow(a, (n - 1) as nat) % n == 1,
        order_multiple(a, n, f),
        f * f > n,
    ensures
        is_prime(n),
{
    assert forall|d: int| 1 < d < n implies #[trigger] (n % d) != 0 by {
        if n % d == 0 {
            lemma_divisible_is_multiple(n, d);
            let e = n / d;
            assert(1 < e) by (nonlinear_arith)
                requires
                    n == d * e,
                    1 < d < n,
            ;
            lemma_multiple_divides(e, d);
            assert(n == e * d) by (nonlinear_arith)
                requires
                    n == d * e,
            ;
            lemma_divisor_at_least(a, n, f, d);
            lemma_divisor_at_least(a, n, f, e);
            assert(false) by (nonlinear_arith)
                requires
                    n == d * e,
                    0 < f <= d,
                    f <= e,
                    f * f > n,
            ;
        }
    }
}

/// One round of square-and-multiply: from `a^e` to `a^(2e + bit)`, where `c`
/// is `a^bit`.
pub proof fn lemma_power_round(a: int, n: int, e: nat, x: int, bit: nat, c: int, y: int)
    requires
        n > 0,
        pow(a, e) % n == x,
        (bit == 0 && c == 1) || (bit == 1 && c == a),
        (x * x * c) % n == y,
    ensures
        pow(a, 2 * e + bit) % n == y,
{
    let p = pow(a, e);
    lemma_pow_adds(a, e, e);
    lemma_pow_adds(a, e + e, bit);
    lemma_pow0(a);
    lemma_pow1(a);
    assert(pow(a, 2 * e + bit) == p * p * c);
    lemma_mul_mod_noop_general(p, p, n);
    lemma_mul_mod_noop_general(p * p, c, n);
    lemma_mul_mod_noop_general(x * x, c, n);
}

/// A power of a power: from `a^u` and its `v`-th power to `a^(u * v)`.
pub proof fn lemma_power_of_power(a: int, n: int, u: nat, c: int, v: nat, r: int)
    requires
        n > 0,
        pow(a, u) % n == c,
        pow(c, v) % n == r,
    ensures
        pow(a, u * v) % n == r,
{
    lemma_pow_multiplies(a, u, v);
    lemma_pow_mod_noop(pow(a, u), v, n);
}

} // verus!
