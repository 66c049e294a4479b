//! The certificate that the modulus of the field is prime.
//!
//! Each number below is shown prime from the primality of a few prime
//! divisors of its predecessor, the number one below it, down to primes small
//! enough to try every divisor. The long functions are the modular powers
//! that the criterion asks for, one squaring to a step.

use vstd::prelude::*;
use vstd::arithmetic::div_mod::{lemma_fundamental_div_mod_converse, lemma_small_mod};
use vstd::arithmetic::power::{lemma_pow0, pow};
use crate::primality::{
    is_prime,
    lemma_certified_prime,
    lemma_order_gains_prime,
    lemma_order_multiple_of_one,
    lemma_power_of_power,
    lemma_power_round,
};

verus! {

/// The number with the decimal digits of `c2`, then the 38 digits of `c1`,
/// then the 38 digits of `c0`.
pub open spec fn wide(c2: int, c1: int, c0: int) -> int {
    (c2 * 100000000000000000000000000000000000000 + c1) * 100000000000000000000000000000000000000
        + c0
}

/// 17 is prime.
proof fn lemma_prime_17()
    ensures
        is_prime(17),
{
    assert forall|d: int| 1 < d < 17 implies #[trigger] (17int % d) != 0 by {
        if d == 2 {
            assert(17int % 2 != 0);
        } else if d == 3 {
            assert(17int % 3 != 0);
        } else if d == 4 {
            assert(17int % 4 != 0);
        } else if d == 5 {
            assert(17int % 5 != 0);
        } else if d == 6 {
            assert(17int % 6 != 0);
        } else if d == 7 {
            assert(17int % 7 != 0);
        } else if d == 8 {
            assert(17int % 8 != 0);
        } else if d == 9 {
            assert(17int % 9 != 0);
        } else if d == 10 {
            assert(17int % 10 != 0);
        } else if d == 11 {
            assert(17int % 11 != 0);
        } else if d == 12 {
            assert(17int % 12 != 0);
        } else if d == 13 {
            assert(17int % 13 != 0);
        } else if d == 14 {
            assert(17int % 14 != 0);
        } else if d == 15 {
            assert(17int % 15 != 0);
        } else if d == 16 {
            assert(17int % 16 != 0);
        }
    }
}

/// 3 is prime.
proof fn lemma_prime_3()
    ensures
        is_prime(3),
{
    assert forall|d: int| 1 < d < 3 implies #[trigger] (3int % d) != 0 by {
        if d == 2 {
            assert(3int % 2 != 0);
        }
    }
}

/// Modulo 409: the base 2 to the predecessor divided by 17 and by 3.
proof fn lemma_409_power_stem()
    ensures
        pow(2int, 8nat) % 409int == 256,
{
    let n: int = 409;
    let a: int = 2;
    let x0: int = 1;
    let e0: nat = 0;
    lemma_pow0(a);
    lemma_small_mod(1, n as nat);
    let x1: int = 2;
    assert((x0 * x0 * a) % n == x1) by (nonlinear_arith)
        requires
            n == 409,
            a == 2,
            x0 == 1,
            x1 == 2,
    ;
    lemma_power_round(a, n, e0, x0, 1, a, x1);
    let e1: nat = 2 * e0 + 1;
    let x2: int = 4;
    assert((x1 * x1 * 1) % n == x2) by (nonlinear_arith)
        requires
            n == 409,
            x1 == 2,
            x2 == 4,
    ;
    lemma_power_round(a, n, e1, x1, 0, 1, x2);
    let e2: nat = 2 * e1 + 0;
    let x3: int = 16;
    assert((x2 * x2 * 1) % n == x3) by (nonlinear_arith)
        requires
            n == 409,
            x2 == 4,
            x3 == 16,
    ;
    lemma_power_round(a, n, e2, x2, 0, 1, x3);
    let e3: nat = 2 * e2 + 0;
    let x4: int = 256;
    assert((x3 * x3 * 1) % n == x4) by (nonlinear_arith)
        requires
            n == 409,
            x3 == 16,
            x4 == 256,
    ;
    lemma_power_round(a, n, e3, x3, 0, 1, x4);
    let e4: nat = 2 * e3 + 0;
    assert(e4 == 8);
}

/// Modulo 409: the first power to the 17, which is the base to the predecessor
/// divided by 3.
proof fn lemma_409_power_without_3()
    ensures
        pow(256int, 17nat) % 409int == 355,
{
    let n: int = 409;
    let a: int = 256;
    let x0: int = 1;
    let e0: nat = 0;
    lemma_pow0(a);
    lemma_small_mod(1, n as nat);
    let x1: int = 256;
    assert((x0 * x0 * a) % n == x1) by (nonlinear_arith)
        requires
            n == 409,
            a == 256,
            x0 == 1,
            x1 == 256,
    ;
    lemma_power_round(a, n, e0, x0, 1, a, x1);
    let e1: nat = 2 * e0 + 1;
    let x2: int = 96;
    assert((x1 * x1 * 1) % n == x2) by (nonlinear_arith)
        requires
            n == 409,
            x1 == 256,
            x2 == 96,
    ;
    lemma_power_round(a, n, e1, x1, 0, 1, x2);
    let e2: nat = 2 * e1 + 0;
    let x3: int = 218;
    assert((x2 * x2 * 1) % n == x3) by (nonlinear_arith)
        requires
            n == 409,
            x2 == 96,
            x3 == 218,
    ;
    lemma_power_round(a, n, e2, x2, 0, 1, x3);
    let e3: nat = 2 * e2 + 0;
    let x4: int = 80;
    assert((x3 * x3 * 1) % n == x4) by (nonlinear_arith)
        requires
            n == 409,
            x3 == 218,
            x4 == 80,
    ;
    lemma_power_round(a, n, e3, x3, 0, 1, x4);
    let e4: nat = 2 * e3 + 0;
    let x5: int = 355;
    assert((x4 * x4 * a) % n == x5) by (nonlinear_arith)
        requires
            n == 409,
            a == 256,
            x4 == 80,
            x5 == 355,
    ;
    lemma_power_round(a, n, e4, x4, 1, a, x5);
    let e5: nat = 2 * e4 + 1;
    assert(e5 == 17);
}

/// Modulo 409: the first power to the 3, which is the base to the predecessor
/// divided by 17.
proof fn lemma_409_power_without_17()
    ensures
        pow(256int, 3nat) % 409int == 36,
{
    let n: int = 409;
    let a: int = 256;
    let x0: int = 1;
    let e0: nat = 0;
    lemma_pow0(a);
    lemma_small_mod(1, n as nat);
    let x1: int = 256;
    assert((x0 * x0 * a) % n == x1) by (nonlinear_arith)
        requires
            n == 409,
            a == 256,
            x0 == 1,
            x1 == 256,
    ;
    lemma_power_round(a, n, e0, x0, 1, a, x1);
    let e1: nat = 2 * e0 + 1;
    let x2: int = 36;
    assert((x1 * x1 * a) % n == x2) by (nonlinear_arith)
        requires
            n == 409,
            a == 256,
            x1 == 256,
            x2 == 36,
    ;
    lemma_power_round(a, n, e1, x1, 1, a, x2);
    let e2: nat = 2 * e1 + 1;
    assert(e2 == 3);
}

/// Modulo 409: the power above to the 17, which is the base to the
/// predecessor.
proof fn lemma_409_power_full()
    ensures
        pow(36int, 17nat) % 409int == 1,
{
    let n: int = 409;
    let a: int = 36;
    let x0: int = 1;
    let e0: nat = 0;
    lemma_pow0(a);
    lemma_small_mod(1, n as nat);
    let x1: int = 36;
    assert((x0 * x0 * a) % n == x1) by (nonlinear_arith)
        requires
            n == 409,
            a == 36,
            x0 == 1,
            x1 == 36,
    ;
    lemma_power_round(a, n, e0, x0, 1, a, x1);
    let e1: nat = 2 * e0 + 1;
    let x2: int = 69;
    assert((x1 * x1 * 1) % n == x2) by (nonlinear_arith)
        requires
            n == 409,
            x1 == 36,
            x2 == 69,
    ;
    lemma_power_round(a, n, e1, x1, 0, 1, x2);
    let e2: nat = 2 * e1 + 0;
    let x3: int = 262;
    assert((x2 * x2 * 1) % n == x3) by (nonlinear_arith)
        requires
            n == 409,
            x2 == 69,
            x3 == 262,
    ;
    lemma_power_round(a, n, e2, x2, 0, 1, x3);
    let e3: nat = 2 * e2 + 0;
    let x4: int = 341;
    assert((x3 * x3 * 1) % n == x4) by (nonlinear_arith)
        requires
            n == 409,
            x3 == 262,
            x4 == 341,
    ;
    lemma_power_round(a, n, e3, x3, 0, 1, x4);
    let e4: nat = 2 * e3 + 0;
    let x5: int = 1;
    assert((x4 * x4 * a) % n == x5) by (nonlinear_arith)
        requires
            n == 409,
            a == 36,
            x4 == 341,
            x5 == 1,
    ;
    lemma_power_round(a, n, e4, x4, 1, a, x5);
    let e5: nat = 2 * e4 + 1;
    assert(e5 == 17);
}

/// 409 is prime: with base 2, by the prime divisors 17 and 3 of its
/// predecessor.
proof fn lemma_prime_409()
    ensures
        is_prime(409int),
{
    let n: int = 409;
    let a: int = 2;
    lemma_409_power_stem();
    lemma_409_power_without_3();
    lemma_409_power_without_17();
    lemma_409_power_full();
    lemma_power_of_power(a, n, 8nat, 256, 17nat, 355);
    lemma_power_of_power(a, n, 8nat, 256, 3nat, 36);
    assert(8nat * 3nat == 24) by (nonlinear_arith);
    assert(8nat * 17nat == 136) by (nonlinear_arith);
    lemma_power_of_power(a, n, 24nat, 36, 17nat, 1);
    assert(24nat * 17nat == 408) by (nonlinear_arith);
    assert(pow(a, (n - 1) as nat) % n == 1);
    lemma_order_multiple_of_one(a, n);
    lemma_prime_17();
    assert((n - 1) % 17int == 0 && (n - 1) / 17int == 24) by {
        assert(n - 1 == 24int * 17int + 0) by (nonlinear_arith)
            requires
                n == 409,
        ;
        lemma_fundamental_div_mod_converse(n - 1, 17, 24, 0);
    }
    assert(pow(a, ((n - 1) / 17int) as nat) % n == 36);
    assert(187int * (36int - 1) + (-16int) * n == 1) by (nonlinear_arith)
        requires
            n == 409,
    ;
    assert(1int % 17int != 0) by {
        lemma_small_mod(1, 17);
    }
    lemma_order_gains_prime(a, n, 1, 17, 36, 187int, (-16int));
    assert(1int * 17int == 17) by (nonlinear_arith);
    lemma_prime_3();
    assert((n - 1) % 3int == 0 && (n - 1) / 3int == 136) by {
        assert(n - 1 == 136int * 3int + 0) by (nonlinear_arith)
            requires
                n == 409,
        ;
        lemma_fundamental_div_mod_converse(n - 1, 3, 136, 0);
    }
    assert(pow(a, ((n - 1) / 3int) as nat) % n == 355);
    assert((-119int) * (355int - 1) + 103int * n == 1) by (nonlinear_arith)
        requires
            n == 409,
    ;
    assert(17int % 3int != 0) by (nonlinear_arith);
    lemma_order_gains_prime(a, n, 17, 3, 355, (-119int), 103int);
    assert(17int * 3int == 51) by (nonlinear_arith);
    assert(51int * 51int > n) by (nonlinear_arith)
        requires
            n == 409,
    ;
    lemma_certified_prime(a, n, 51);
}

/// Modulo 1637: the base 2 to the predecessor divided by 409.
proof fn lemma_1637_power_stem()
    ensures
        pow(2int, 4nat) % 1637int == 16,
{
    let n: int = 1637;
    let a: int = 2;
    let x0: int = 1;
    let e0: nat = 0;
    lemma_pow0(a);
    lemma_small_mod(1, n as nat);
    let x1: int = 2;
    assert((x0 * x0 * a) % n == x1) by (nonlinear_arith)
        requires
            n == 1637,
            a == 2,
            x0 == 1,
            x1 == 2,
    ;
    lemma_power_round(a, n, e0, x0, 1, a, x1);
    let e1: nat = 2 * e0 + 1;
    let x2: int = 4;
    assert((x1 * x1 * 1) % n == x2) by (nonlinear_arith)
        requires
            n == 1637,
            x1 == 2,
            x2 == 4,
    ;
    lemma_power_round(a, n, e1, x1, 0, 1, x2);
    let e2: nat = 2 * e1 + 0;
    let x3: int = 16;
    assert((x2 * x2 * 1) % n == x3) by (nonlinear_arith)
        requires
            n == 1637,
            x2 == 4,
            x3 == 16,
    ;
    lemma_power_round(a, n, e2, x2, 0, 1, x3);
    let e3: nat = 2 * e2 + 0;
    assert(e3 == 4);
}

/// Modulo 1637: the power above to the 409, which is the base to the
/// predecessor.
proof fn lemma_1637_power_full()
    ensures
        pow(16int, 409nat) % 1637int == 1,
{
    let n: int = 1637;
    let a: int = 16;
    let x0: int = 1;
    let e0: nat = 0;
    lemma_pow0(a);
    lemma_small_mod(1, n as nat);
    let x1: int = 16;
    assert((x0 * x0 * a) % n == x1) by (nonlinear_arith)
        requires
            n == 1637,
            a == 16,
            x0 == 1,
            x1 == 16,
    ;
    lemma_power_round(a, n, e0, x0, 1, a, x1);
    let e1: nat = 2 * e0 + 1;
    let x2: int = 822;
    assert((x1 * x1 * a) % n == x2) by (nonlinear_arith)
        requires
            n == 1637,
            a == 16,
            x1 == 16,
            x2 == 822,
    ;
    lemma_power_round(a, n, e1, x1, 1, a, x2);
    let e2: nat = 2 * e1 + 1;
    let x3: int = 1240;
    assert((x2 * x2 * 1) % n == x3) by (nonlinear_arith)
        requires
            n == 1637,
            x2 == 822,
            x3 == 1240,
    ;
    lemma_power_round(a, n, e2, x2, 0, 1, x3);
    let e3: nat = 2 * e2 + 0;
    let x4: int = 457;
    assert((x3 * x3 * 1) % n == x4) by (nonlinear_arith)
        requires
            n == 1637,
            x3 == 1240,
            x4 == 457,
    ;
    lemma_power_round(a, n, e3, x3, 0, 1, x4);
    let e4: nat = 2 * e3 + 0;
    let x5: int = 467;
    assert((x4 * x4 * a) % n == x5) by (nonlinear_arith)
        requires
            n == 1637,
            a == 16,
            x4 == 457,
            x5 == 467,
    ;
    lemma_power_round(a, n, e4, x4, 1, a, x5);
    let e5: nat = 2 * e4 + 1;
    let x6: int = 977;
    assert((x5 * x5 * a) % n == x6) by (nonlinear_arith)
        requires
            n == 1637,
            a == 16,
            x5 == 467,
            x6 == 977,
    ;
    lemma_power_round(a, n, e5, x5, 1, a, x6);
    let e6: nat = 2 * e5 + 1;
    let x7: int = 158;
    assert((x6 * x6 * 1) % n == x7) by (nonlinear_arith)
        requires
            n == 1637,
            x6 == 977,
            x7 == 158,
    ;
    lemma_power_round(a, n, e6, x6, 0, 1, x7);
    let e7: nat = 2 * e6 + 0;
    let x8: int = 409;
    assert((x7 * x7 * 1) % n == x8) by (nonlinear_arith)
        requires
            n == 1637,
            x7 == 158,
            x8 == 409,
    ;
    lemma_power_round(a, n, e7, x7, 0, 1, x8);
    let e8: nat = 2 * e7 + 0;
    let x9: int = 1;
    assert((x8 * x8 * a) % n == x9) by (nonlinear_arith)
        requires
            n == 1637,
            a == 16,
            x8 == 409,
            x9 == 1,
    ;
    lemma_power_round(a, n, e8, x8, 1, a, x9);
    let e9: nat = 2 * e8 + 1;
    assert(e9 == 409);
}

/// 1637 is prime: with base 2, by the prime divisor 409 of its predecessor.
proof fn lemma_prime_1637()
    ensures
        is_prime(1637int),
{
    let n: int = 1637;
    let a: int = 2;
    lemma_1637_power_stem();
    lemma_1637_power_full();
    lemma_power_of_power(a, n, 4nat, 16, 409nat, 1);
    assert(pow(a, (n - 1) as nat) % n == 1);
    lemma_order_multiple_of_one(a, n);
    lemma_prime_409();
    assert((n - 1) % 409int == 0 && (n - 1) / 409int == 4) by {
        assert(n - 1 == 4int * 409int + 0) by (nonlinear_arith)
            requires
                n == 1637,
        ;
        lemma_fundamental_div_mod_converse(n - 1, 409, 4, 0);
    }
    assert(pow(a, ((n - 1) / 409int) as nat) % n == 16);
    assert(764int * (16int - 1) + (-7int) * n == 1) by (nonlinear_arith)
        requires
            n == 1637,
    ;
    assert(1int % 409int != 0) by {
        lemma_small_mod(1, 409);
    }
    lemma_order_gains_prime(a, n, 1, 409, 16, 764int, (-7int));
    assert(1int * 409int == 409) by (nonlinear_arith);
    assert(409int * 409int > n) by (nonlinear_arith)
        requires
            n == 1637,
    ;
    lemma_certified_prime(a, n, 409);
}

/// 7 is prime.
proof fn lemma_prime_7()
    ensures
        is_prime(7),
{
    assert forall|d: int| 1 < d < 7 implies #[trigger] (7int % d) != 0 by {
        if d == 2 {
            assert(7int % 2 != 0);
        } else if d == 3 {
            assert(7int % 3 != 0);
        } else if d == 4 {
            assert(7int % 4 != 0);
        } else if d == 5 {
            assert(7int % 5 != 0);
        } else if d == 6 {
            assert(7int % 6 != 0);
        }
    }
}

/// 5 is prime.
proof fn lemma_prime_5()
    ensures
        is_prime(5),
{
    assert forall|d: int| 1 < d < 5 implies #[trigger] (5int % d) != 0 by {
        if d == 2 {
            assert(5int % 2 != 0);
        } else if d == 3 {
            assert(5int % 3 != 0);
        } else if d == 4 {
            assert(5int % 4 != 0);
        }
    }
}

/// Modulo 71: the base 2 to the predecessor divided by 7 and by 5.
proof fn lemma_71_power_stem()
    ensures
        pow(2int, 2nat) % 71int == 4,
{
    let n: int = 71;
    let a: int = 2;
    let x0: int = 1;
    let e0: nat = 0;
    lemma_pow0(a);
    lemma_small_mod(1, n as nat);
    let x1: int = 2;
    assert((x0 * x0 * a) % n == x1) by (nonlinear_arith)
        requires
            n == 71,
            a == 2,
            x0 == 1,
            x1 == 2,
    ;
    lemma_power_round(a, n, e0, x0, 1, a, x1);
    let e1: nat = 2 * e0 + 1;
    let x2: int = 4;
    assert((x1 * x1 * 1) % n == x2) by (nonlinear_arith)
        requires
            n == 71,
            x1 == 2,
            x2 == 4,
    ;
    lemma_power_round(a, n, e1, x1, 0, 1, x2);
    let e2: nat = 2 * e1 + 0;
    assert(e2 == 2);
}

/// Modulo 71: the first power to the 7, which is the base to the predecessor
/// divided by 5.
proof fn lemma_71_power_without_5()
    ensures
        pow(4int, 7nat) % 71int == 54,
{
    let n: int = 71;
    let a: int = 4;
    let x0: int = 1;
    let e0: nat = 0;
    lemma_pow0(a);
    lemma_small_mod(1, n as nat);
    let x1: int = 4;
    assert((x0 * x0 * a) % n == x1) by (nonlinear_arith)
        requires
            n == 71,
            a == 4,
            x0 == 1,
            x1 == 4,
    ;
    lemma_power_round(a, n, e0, x0, 1, a, x1);
    let e1: nat = 2 * e0 + 1;
    let x2: int = 64;
    assert((x1 * x1 * a) % n == x2) by (nonlinear_arith)
        requires
            n == 71,
            a == 4,
            x1 == 4,
            x2 == 64,
    ;
    lemma_power_round(a, n, e1, x1, 1, a, x2);
    let e2: nat = 2 * e1 + 1;
    let x3: int = 54;
    assert((x2 * x2 * a) % n == x3) by (nonlinear_arith)
        requires
            n == 71,
            a == 4,
            x2 == 64,
            x3 == 54,
    ;
    lemma_power_round(a, n, e2, x2, 1, a, x3);
    let e3: nat = 2 * e2 + 1;
    assert(e3 == 7);
}

/// Modulo 71: the first power to the 5, which is the base to the predecessor
/// divided by 7.
proof fn lemma_71_power_without_7()
    ensures
        pow(4int, 5nat) % 71int == 30,
{
    let n: int = 71;
    let a: int = 4;
    let x0: int = 1;
    let e0: nat = 0;
    lemma_pow0(a);
    lemma_small_mod(1, n as nat);
    let x1: int = 4;
    assert((x0 * x0 * a) % n == x1) by (nonlinear_arith)
        requires
            n == 71,
            a == 4,
            x0 == 1,
            x1 == 4,
    ;
    lemma_power_round(a, n, e0, x0, 1, a, x1);
    let e1: nat = 2 * e0 + 1;
    let x2: int = 16;
    assert((x1 * x1 * 1) % n == x2) by (nonlinear_arith)
        requires
            n == 71,
            x1 == 4,
            x2 == 16,
    ;
    lemma_power_round(a, n, e1, x1, 0, 1, x2);
    let e2: nat = 2 * e1 + 0;
    let x3: int = 30;
    assert((x2 * x2 * a) % n == x3) by (nonlinear_arith)
        requires
            n == 71,
            a == 4,
            x2 == 16,
            x3 == 30,
    ;
    lemma_power_round(a, n, e2, x2, 1, a, x3);
    let e3: nat = 2 * e2 + 1;
    assert(e3 == 5);
}

/// Modulo 71: the power above to the 7, which is the base to the predecessor.
proof fn lemma_71_power_full()
    ensures
        pow(30int, 7nat) % 71int == 1,
{
    let n: int = 71;
    let a: int = 30;
    let x0: int = 1;
    let e0: nat = 0;
    lemma_pow0(a);
    lemma_small_mod(1, n as nat);
    let x1: int = 30;
    assert((x0 * x0 * a) % n == x1) by (nonlinear_arith)
        requires
            n == 71,
            a == 30,
            x0 == 1,
            x1 == 30,
    ;
    lemma_power_round(a, n, e0, x0, 1, a, x1);
    let e1: nat = 2 * e0 + 1;
    let x2: int = 20;
    assert((x1 * x1 * a) % n == x2) by (nonlinear_arith)
        requires
            n == 71,
            a == 30,
            x1 == 30,
            x2 == 20,
    ;
    lemma_power_round(a, n, e1, x1, 1, a, x2);
    let e2: nat = 2 * e1 + 1;
    let x3: int = 1;
    assert((x2 * x2 * a) % n == x3) by (nonlinear_arith)
        requires
            n == 71,
            a == 30,
            x2 == 20,
            x3 == 1,
    ;
    lemma_power_round(a, n, e2, x2, 1, a, x3);
    let e3: nat = 2 * e2 + 1;
    assert(e3 == 7);
}

/// 71 is prime: with base 2, by the prime divisors 7 and 5 of its predecessor.
proof fn lemma_prime_71()
    ensures
        is_prime(71int),
{
    let n: int = 71;
    let a: int = 2;
    lemma_71_power_stem();
    lemma_71_power_without_5();
    lemma_71_power_without_7();
    lemma_71_power_full();
    lemma_power_of_power(a, n, 2nat, 4, 7nat, 54);
    lemma_power_of_power(a, n, 2nat, 4, 5nat, 30);
    assert(2nat * 5nat == 10) by (nonlinear_arith);
    assert(2nat * 7nat == 14) by (nonlinear_arith);
    lemma_power_of_power(a, n, 10nat, 30, 7nat, 1);
    assert(10nat * 7nat == 70) by (nonlinear_arith);
    assert(pow(a, (n - 1) as nat) % n == 1);
    lemma_order_multiple_of_one(a, n);
    lemma_prime_7();
    assert((n - 1) % 7int == 0 && (n - 1) / 7int == 10) by {
        assert(n - 1 == 10int * 7int + 0) by (nonlinear_arith)
            requires
                n == 71,
        ;
        lemma_fundamental_div_mod_converse(n - 1, 7, 10, 0);
    }
    assert(pow(a, ((n - 1) / 7int) as nat) % n == 30);
    assert((-22int) * (30int - 1) + 9int * n == 1) by (nonlinear_arith)
        requires
            n == 71,
    ;
    assert(1int % 7int != 0) by {
        lemma_small_mod(1, 7);
    }
    lemma_order_gains_prime(a, n, 1, 7, 30, (-22int), 9int);
    assert(1int * 7int == 7) by (nonlinear_arith);
    lemma_prime_5();
    assert((n - 1) % 5int == 0 && (n - 1) / 5int == 14) by {
        assert(n - 1 == 14int * 5int + 0) by (nonlinear_arith)
            requires
                n == 71,
        ;
        lemma_fundamental_div_mod_converse(n - 1, 5, 14, 0);
    }
    assert(pow(a, ((n - 1) / 5int) as nat) % n == 54);
    assert((-4int) * (54int - 1) + 3int * n == 1) by (nonlinear_arith)
        requires
            n == 71,
    ;
    assert(7int % 5int != 0) by (nonlinear_arith);
    lemma_order_gains_prime(a, n, 7, 5, 54, (-4int), 3int);
    assert(7int * 5int == 35) by (nonlinear_arith);
    assert(35int * 35int > n) by (nonlinear_arith)
        requires
            n == 71,
    ;
    lemma_certified_prime(a, n, 35);
}

/// Modulo 853: the base 2 to the predecessor divided by 71.
proof fn lemma_853_power_stem()
    ensures
        pow(2int, 12nat) % 853int == 684,
{
    let n: int = 853;
    let a: int = 2;
    let x0: int = 1;
    let e0: nat = 0;
    lemma_pow0(a);
    lemma_small_mod(1, n as nat);
    let x1: int = 2;
    assert((x0 * x0 * a) % n == x1) by (nonlinear_arith)
        requires
            n == 853,
            a == 2,
            x0 == 1,
            x1 == 2,
    ;
    lemma_power_round(a, n, e0, x0, 1, a, x1);
    let e1: nat = 2 * e0 + 1;
    let x2: int = 8;
    assert((x1 * x1 * a) % n == x2) by (nonlinear_arith)
        requires
            n == 853,
            a == 2,
            x1 == 2,
            x2 == 8,
    ;
    lemma_power_round(a, n, e1, x1, 1, a, x2);
    let e2: nat = 2 * e1 + 1;
    let x3: int = 64;
    assert((x2 * x2 * 1) % n == x3) by (nonlinear_arith)
        requires
            n == 853,
            x2 == 8,
            x3 == 64,
    ;
    lemma_power_round(a, n, e2, x2, 0, 1, x3);
    let e3: nat = 2 * e2 + 0;
    let x4: int = 684;
    assert((x3 * x3 * 1) % n == x4) by (nonlinear_arith)
        requires
            n == 853,
            x3 == 64,
            x4 == 684,
    ;
    lemma_power_round(a, n, e3, x3, 0, 1, x4);
    let e4: nat = 2 * e3 + 0;
    assert(e4 == 12);
}

/// Modulo 853: the power above to the 71, which is the base to the
/// predecessor.
proof fn lemma_853_power_full()
    ensures
        pow(684int, 71nat) % 853int == 1,
{
    let n: int = 853;
    let a: int = 684;
    let x0: int = 1;
    let e0: nat = 0;
    lemma_pow0(a);
    lemma_small_mod(1, n as nat);
    let x1: int = 684;
    assert((x0 * x0 * a) % n == x1) by (nonlinear_arith)
        requires
            n == 853,
            a == 684,
            x0 == 1,
            x1 == 684,
    ;
    lemma_power_round(a, n, e0, x0, 1, a, x1);
    let e1: nat = 2 * e0 + 1;
    let x2: int = 412;
    assert((x1 * x1 * 1) % n == x2) by (nonlinear_arith)
        requires
            n == 853,
            x1 == 684,
            x2 == 412,
    ;
    lemma_power_round(a, n, e1, x1, 0, 1, x2);
    let e2: nat = 2 * e1 + 0;
    let x3: int = 850;
    assert((x2 * x2 * 1) % n == x3) by (nonlinear_arith)
        requires
            n == 853,
            x2 == 412,
            x3 == 850,
    ;
    lemma_power_round(a, n, e2, x2, 0, 1, x3);
    let e3: nat = 2 * e2 + 0;
    let x4: int = 9;
    assert((x3 * x3 * 1) % n == x4) by (nonlinear_arith)
        requires
            n == 853,
            x3 == 850,
            x4 == 9,
    ;
    lemma_power_round(a, n, e3, x3, 0, 1, x4);
    let e4: nat = 2 * e3 + 0;
    let x5: int = 812;
    assert((x4 * x4 * a) % n == x5) by (nonlinear_arith)
        requires
            n == 853,
            a == 684,
            x4 == 9,
            x5 == 812,
    ;
    lemma_power_round(a, n, e4, x4, 1, a, x5);
    let e5: nat = 2 * e4 + 1;
    let x6: int = 813;
    assert((x5 * x5 * a) % n == x6) by (nonlinear_arith)
        requires
            n == 853,
            a == 684,
            x5 == 812,
            x6 == 813,
    ;
    lemma_power_round(a, n, e5, x5, 1, a, x6);
    let e6: nat = 2 * e5 + 1;
    let x7: int = 1;
    assert((x6 * x6 * a) % n == x7) by (nonlinear_arith)
        requires
            n == 853,
            a == 684,
            x6 == 813,
            x7 == 1,
    ;
    lemma_power_round(a, n, e6, x6, 1, a, x7);
    let e7: nat = 2 * e6 + 1;
    assert(e7 == 71);
}

/// 853 is prime: with base 2, by the prime divisor 71 of its predecessor.
proof fn lemma_prime_853()
    ensures
        is_prime(853int),
{
    let n: int = 853;
    let a: int = 2;
    lemma_853_power_stem();
    lemma_853_power_full();
    lemma_power_of_power(a, n, 12nat, 684, 71nat, 1);
    assert(pow(a, (n - 1) as nat) % n == 1);
    lemma_order_multiple_of_one(a, n);
    lemma_prime_71();
    assert((n - 1) % 71int == 0 && (n - 1) / 71int == 12) by {
        assert(n - 1 == 12int * 71int + 0) by (nonlinear_arith)
            requires
                n == 853,
        ;
        lemma_fundamental_div_mod_converse(n - 1, 71, 12, 0);
    }
    assert(pow(a, ((n - 1) / 71int) as nat) % n == 684);
    assert(286int * (684int - 1) + (-229int) * n == 1) by (nonlinear_arith)
        requires
            n == 853,
    ;
    assert(1int % 71int != 0) by {
        lemma_small_mod(1, 71);
    }
    lemma_order_gains_prime(a, n, 1, 71, 684, 286int, (-229int));
    assert(1int * 71int == 71) by (nonlinear_arith);
    assert(71int * 71int > n) by (nonlinear_arith)
        requires
            n == 853,
    ;
    lemma_certified_prime(a, n, 71);
}

/// Modulo 639533339: the base 2 to the predecessor divided by 1637 and by 853.
proof fn lemma_639533339_power_stem()
    ensures
        pow(2int, 458nat) % 639533339int == 569936353,
{
    let n: int = 639533339;
    let a: int = 2;
    let x0: int = 1;
    let e0: nat = 0;
    lemma_pow0(a);
    lemma_small_mod(1, n as nat);
    let x1: int = 2;
    assert((x0 * x0 * a) % n == x1) by (nonlinear_arith)
        requires
            n == 639533339,
            a == 2,
            x0 == 1,
            x1 == 2,
    ;
    lemma_power_round(a, n, e0, x0, 1, a, x1);
    let e1: nat = 2 * e0 + 1;
    let x2: int = 8;
    assert((x1 * x1 * a) % n == x2) by (nonlinear_arith)
        requires
            n == 639533339,
            a == 2,
            x1 == 2,
            x2 == 8,
    ;
    lemma_power_round(a, n, e1, x1, 1, a, x2);
    let e2: nat = 2 * e1 + 1;
    let x3: int = 128;
    assert((x2 * x2 * a) % n == x3) by (nonlinear_arith)
        requires
            n == 639533339,
            a == 2,
            x2 == 8,
            x3 == 128,
    ;
    lemma_power_round(a, n, e2, x2, 1, a, x3);
    let e3: nat = 2 * e2 + 1;
    let x4: int = 16384;
    assert((x3 * x3 * 1) % n == x4) by (nonlinear_arith)
        requires
            n == 639533339,
            x3 == 128,
            x4 == 16384,
    ;
    lemma_power_round(a, n, e3, x3, 0, 1, x4);
    let e4: nat = 2 * e3 + 0;
    let x5: int = 268435456;
    assert((x4 * x4 * 1) % n == x5) by (nonlinear_arith)
        requires
            n == 639533339,
            x4 == 16384,
            x5 == 268435456,
    ;
    lemma_power_round(a, n, e4, x4, 0, 1, x5);
    let e5: nat = 2 * e4 + 0;
    let x6: int = 588504884;
    assert((x5 * x5 * a) % n == x6) by (nonlinear_arith)
        requires
            n == 639533339,
            a == 2,
            x5 == 268435456,
            x6 == 588504884,
    ;
    lemma_power_round(a, n, e5, x5, 1, a, x6);
    let e6: nat = 2 * e5 + 1;
    let x7: int = 381214812;
    assert((x6 * x6 * 1) % n == x7) by (nonlinear_arith)
        requires
            n == 639533339,
            x6 == 588504884,
            x7 == 381214812,
    ;
    lemma_power_round(a, n, e6, x6, 0, 1, x7);
    let e7: nat = 2 * e6 + 0;
    let x8: int = 307520719;
    assert((x7 * x7 * a) % n == x8) by (nonlinear_arith)
        requires
            n == 639533339,
            a == 2,
            x7 == 381214812,
            x8 == 307520719,
    ;
    lemma_power_round(a, n, e7, x7, 1, a, x8);
    let e8: nat = 2 * e7 + 1;
    let x9: int = 569936353;
    assert((x8 * x8 * 1) % n == x9) by (nonlinear_arith)
        requires
            n == 639533339,
            x8 == 307520719,
            x9 == 569936353,
    ;
    lemma_power_round(a, n, e8, x8, 0, 1, x9);
    let e9: nat = 2 * e8 + 0;
    assert(e9 == 458);
}

/// Modulo 639533339: the first power to the 1637, which is the base to the
/// predecessor divided by 853.
proof fn lemma_639533339_power_without_853()
    ensures
        pow(569936353int, 1637nat) % 639533339int == 256057581,
{
    let n: int = 639533339;
    let a: int = 569936353;
    let x0: int = 1;
    let e0: nat = 0;
    lemma_pow0(a);
    lemma_small_mod(1, n as nat);
    let x1: int = 569936353;
    assert((x0 * x0 * a) % n == x1) by (nonlinear_arith)
        requires
            n == 639533339,
            a == 569936353,
            x0 == 1,
            x1 == 569936353,
    ;
    lemma_power_round(a, n, e0, x0, 1, a, x1);
    let e1: nat = 2 * e0 + 1;
    let x2: int = 576757596;
    assert((x1 * x1 * a) % n == x2) by (nonlinear_arith)
        requires
            n == 639533339,
            a == 569936353,
            x1 == 569936353,
            x2 == 576757596,
    ;
    lemma_power_round(a, n, e1, x1, 1, a, x2);
    let e2: nat = 2 * e1 + 1;
    let x3: int = 346350812;
    assert((x2 * x2 * 1) % n == x3) by (nonlinear_arith)
        requires
            n == 639533339,
            x2 == 576757596,
            x3 == 346350812,
    ;
    lemma_power_round(a, n, e2, x2, 0, 1, x3);
    let e3: nat = 2 * e2 + 0;
    let x4: int = 476081691;
    assert((x3 * x3 * 1) % n == x4) by (nonlinear_arith)
        requires
            n == 639533339,
            x3 == 346350812,
            x4 == 476081691,
    ;
    lemma_power_round(a, n, e3, x3, 0, 1, x4);
    let e4: nat = 2 * e3 + 0;
    let x5: int = 282182576;
    assert((x4 * x4 * a) % n == x5) by (nonlinear_arith)
        requires
            n == 639533339,
            a == 569936353,
            x4 == 476081691,
            x5 == 282182576,
    ;
    lemma_power_round(a, n, e4, x4, 1, a, x5);
    let e5: nat = 2 * e4 + 1;
    let x6: int = 144132996;
    assert((x5 * x5 * a) % n == x6) by (nonlinear_arith)
        requires
            n == 639533339,
            a == 569936353,
            x5 == 282182576,
            x6 == 144132996,
    ;
    lemma_power_round(a, n, e5, x5, 1, a, x6);
    let e6: nat = 2 * e5 + 1;
    let x7: int = 306995837;
    assert((x6 * x6 * 1) % n == x7) by (nonlinear_arith)
        requires
            n == 639533339,
            x6 == 144132996,
            x7 == 306995837,
    ;
    lemma_power_round(a, n, e6, x6, 0, 1, x7);
    let e7: nat = 2 * e6 + 0;
    let x8: int = 530514611;
    assert((x7 * x7 * 1) % n == x8) by (nonlinear_arith)
        requires
            n == 639533339,
            x7 == 306995837,
            x8 == 530514611,
    ;
    lemma_power_round(a, n, e7, x7, 0, 1, x8);
    let e8: nat = 2 * e7 + 0;
    let x9: int = 148227881;
    assert((x8 * x8 * a) % n == x9) by (nonlinear_arith)
        requires
            n == 639533339,
            a == 569936353,
            x8 == 530514611,
            x9 == 148227881,
    ;
    lemma_power_round(a, n, e8, x8, 1, a, x9);
    let e9: nat = 2 * e8 + 1;
    let x10: int = 449868847;
    assert((x9 * x9 * 1) % n == x10) by (nonlinear_arith)
        requires
            n == 639533339,
            x9 == 148227881,
            x10 == 449868847,
    ;
    lemma_power_round(a, n, e9, x9, 0, 1, x10);
    let e10: nat = 2 * e9 + 0;
    let x11: int = 256057581;
    assert((x10 * x10 * a) % n == x11) by (nonlinear_arith)
        requires
            n == 639533339,
            a == 569936353,
            x10 == 449868847,
            x11 == 256057581,
    ;
    lemma_power_round(a, n, e10, x10, 1, a, x11);
    let e11: nat = 2 * e10 + 1;
    assert(e11 == 1637);
}

/// Modulo 639533339: the first power to the 853, which is the base to the
/// predecessor divided by 1637.
proof fn lemma_639533339_power_without_1637()
    ensures
        pow(569936353int, 853nat) % 639533339int == 248876995,
{
    let n: int = 639533339;
    let a: int = 569936353;
    let x0: int = 1;
    let e0: nat = 0;
    lemma_pow0(a);
    lemma_small_mod(1, n as nat);
    let x1: int = 569936353;
    assert((x0 * x0 * a) % n == x1) by (nonlinear_arith)
        requires
            n == 639533339,
            a == 569936353,
            x0 == 1,
            x1 == 569936353,
    ;
    lemma_power_round(a, n, e0, x0, 1, a, x1);
    let e1: nat = 2 * e0 + 1;
    let x2: int = 576757596;
    assert((x1 * x1 * a) % n == x2) by (nonlinear_arith)
        requires
            n == 639533339,
            a == 569936353,
            x1 == 569936353,
            x2 == 576757596,
    ;
    lemma_power_round(a, n, e1, x1, 1, a, x2);
    let e2: nat = 2 * e1 + 1;
    let x3: int = 346350812;
    assert((x2 * x2 * 1) % n == x3) by (nonlinear_arith)
        requires
            n == 639533339,
            x2 == 576757596,
            x3 == 346350812,
    ;
    lemma_power_round(a, n, e2, x2, 0, 1, x3);
    let e3: nat = 2 * e2 + 0;
    let x4: int = 580870054;
    assert((x3 * x3 * a) % n == x4) by (nonlinear_arith)
        requires
            n == 639533339,
            a == 569936353,
            x3 == 346350812,
            x4 == 580870054,
    ;
    lemma_power_round(a, n, e3, x3, 1, a, x4);
    let e4: nat = 2 * e3 + 1;
    let x5: int = 307631766;
    assert((x4 * x4 * 1) % n == x5) by (nonlinear_arith)
        requires
            n == 639533339,
            x4 == 580870054,
            x5 == 307631766,
    ;
    lemma_power_round(a, n, e4, x4, 0, 1, x5);
    let e5: nat = 2 * e4 + 0;
    let x6: int = 48885504;
    assert((x5 * x5 * a) % n == x6) by (nonlinear_arith)
        requires
            n == 639533339,
            a == 569936353,
            x5 == 307631766,
            x6 == 48885504,
    ;
    lemma_power_round(a, n, e5, x5, 1, a, x6);
    let e6: nat = 2 * e5 + 1;
    let x7: int = 308492291;
    assert((x6 * x6 * 1) % n == x7) by (nonlinear_arith)
        requires
            n == 639533339,
            x6 == 48885504,
            x7 == 308492291,
    ;
    lemma_power_round(a, n, e6, x6, 0, 1, x7);
    let e7: nat = 2 * e6 + 0;
    let x8: int = 315972641;
    assert((x7 * x7 * a) % n == x8) by (nonlinear_arith)
        requires
            n == 639533339,
            a == 569936353,
            x7 == 308492291,
            x8 == 315972641,
    ;
    lemma_power_round(a, n, e7, x7, 1, a, x8);
    let e8: nat = 2 * e7 + 1;
    let x9: int = 195747935;
    assert((x8 * x8 * 1) % n == x9) by (nonlinear_arith)
        requires
            n == 639533339,
            x8 == 315972641,
            x9 == 195747935,
    ;
    lemma_power_round(a, n, e8, x8, 0, 1, x9);
    let e9: nat = 2 * e8 + 0;
    let x10: int = 248876995;
    assert((x9 * x9 * a) % n == x10) by (nonlinear_arith)
        requires
            n == 639533339,
            a == 569936353,
            x9 == 195747935,
            x10 == 248876995,
    ;
    lemma_power_round(a, n, e9, x9, 1, a, x10);
    let e10: nat = 2 * e9 + 1;
    assert(e10 == 853);
}

/// Modulo 639533339: the power above to the 1637, which is the base to the
/// predecessor.
proof fn lemma_639533339_power_full()
    ensures
        pow(248876995int, 1637nat) % 639533339int == 1,
{
    let n: int = 639533339;
    let a: int = 248876995;
    let x0: int = 1;
    let e0: nat = 0;
    lemma_pow0(a);
    lemma_small_mod(1, n as nat);
    let x1: int = 248876995;
    assert((x0 * x0 * a) % n == x1) by (nonlinear_arith)
        requires
            n == 639533339,
            a == 248876995,
            x0 == 1,
            x1 == 248876995,
    ;
    lemma_power_round(a, n, e0, x0, 1, a, x1);
    let e1: nat = 2 * e0 + 1;
    let x2: int = 257756831;
    assert((x1 * x1 * a) % n == x2) by (nonlinear_arith)
        requires
            n == 639533339,
            a == 248876995,
            x1 == 248876995,
            x2 == 257756831,
    ;
    lemma_power_round(a, n, e1, x1, 1, a, x2);
    let e2: nat = 2 * e1 + 1;
    let x3: int = 448608357;
    assert((x2 * x2 * 1) % n == x3) by (nonlinear_arith)
        requires
            n == 639533339,
            x2 == 257756831,
            x3 == 448608357,
    ;
    lemma_power_round(a, n, e2, x2, 0, 1, x3);
    let e3: nat = 2 * e2 + 0;
    let x4: int = 461042979;
    assert((x3 * x3 * 1) % n == x4) by (nonlinear_arith)
        requires
            n == 639533339,
            x3 == 448608357,
            x4 == 461042979,
    ;
    lemma_power_round(a, n, e3, x3, 0, 1, x4);
    let e4: nat = 2 * e3 + 0;
    let x5: int = 605154259;
    assert((x4 * x4 * a) % n == x5) by (nonlinear_arith)
        requires
            n == 639533339,
            a == 248876995,
            x4 == 461042979,
            x5 == 605154259,
    ;
    lemma_power_round(a, n, e4, x4, 1, a, x5);
    let e5: nat = 2 * e4 + 1;
    let x6: int = 547712976;
    assert((x5 * x5 * a) % n == x6) by (nonlinear_arith)
        requires
            n == 639533339,
            a == 248876995,
            x5 == 605154259,
            x6 == 547712976,
    ;
    lemma_power_round(a, n, e5, x5, 1, a, x6);
    let e6: nat = 2 * e5 + 1;
    let x7: int = 181348006;
    assert((x6 * x6 * 1) % n == x7) by (nonlinear_arith)
        requires
            n == 639533339,
            x6 == 547712976,
            x7 == 181348006,
    ;
    lemma_power_round(a, n, e6, x6, 0, 1, x7);
    let e7: nat = 2 * e6 + 0;
    let x8: int = 343175704;
    assert((x7 * x7 * 1) % n == x8) by (nonlinear_arith)
        requires
            n == 639533339,
            x7 == 181348006,
            x8 == 343175704,
    ;
    lemma_power_round(a, n, e7, x7, 0, 1, x8);
    let e8: nat = 2 * e7 + 0;
    let x9: int = 147059079;
    assert((x8 * x8 * a) % n == x9) by (nonlinear_arith)
        requires
            n == 639533339,
            a == 248876995,
            x8 == 343175704,
            x9 == 147059079,
    ;
    lemma_power_round(a, n, e8, x8, 1, a, x9);
    let e9: nat = 2 * e8 + 1;
    let x10: int = 301238345;
    assert((x9 * x9 * 1) % n == x10) by (nonlinear_arith)
        requires
            n == 639533339,
            x9 == 147059079,
            x10 == 301238345,
    ;
    lemma_power_round(a, n, e9, x9, 0, 1, x10);
    let e10: nat = 2 * e9 + 0;
    let x11: int = 1;
    assert((x10 * x10 * a) % n == x11) by (nonlinear_arith)
        requires
            n == 639533339,
            a == 248876995,
            x10 == 301238345,
            x11 == 1,
    ;
    lemma_power_round(a, n, e10, x10, 1, a, x11);
    let e11: nat = 2 * e10 + 1;
    assert(e11 == 1637);
}

/// 639533339 is prime: with base 2, by the prime divisors 1637 and 853 of its
/// predecessor.
proof fn lemma_prime_639533339()
    ensures
        is_prime(639533339int),
{
    let n: int = 639533339;
    let a: int = 2;
    lemma_639533339_power_stem();
    lemma_639533339_power_without_853();
    lemma_639533339_power_without_1637();
    lemma_639533339_power_full();
    lemma_power_of_power(a, n, 458nat, 569936353, 1637nat, 256057581);
    lemma_power_of_power(a, n, 458nat, 569936353, 853nat, 248876995);
    assert(458nat * 853nat == 390674) by (nonlinear_arith);
    assert(458nat * 1637nat == 749746) by (nonlinear_arith);
    lemma_power_of_power(a, n, 390674nat, 248876995, 1637nat, 1);
    assert(390674nat * 1637nat == 639533338) by (nonlinear_arith);
    assert(pow(a, (n - 1) as nat) % n == 1);
    lemma_order_multiple_of_one(a, n);
    lemma_prime_1637();
    assert((n - 1) % 1637int == 0 && (n - 1) / 1637int == 390674) by {
        assert(n - 1 == 390674int * 1637int + 0) by (nonlinear_arith)
            requires
                n == 639533339,
        ;
        lemma_fundamental_div_mod_converse(n - 1, 1637, 390674, 0);
    }
    assert(pow(a, ((n - 1) / 1637int) as nat) % n == 248876995);
    assert(296391531int * (248876995int - 1) + (-115341967int) * n == 1) by (nonlinear_arith)
        requires
            n == 639533339,
    ;
    assert(1int % 1637int != 0) by {
        lemma_small_mod(1, 1637);
    }
    lemma_order_gains_prime(a, n, 1, 1637, 248876995, 296391531int, (-115341967int));
    assert(1int * 1637int == 1637) by (nonlinear_arith);
    lemma_prime_853();
    assert((n - 1) % 853int == 0 && (n - 1) / 853int == 749746) by {
        assert(n - 1 == 749746int * 853int + 0) by (nonlinear_arith)
            requires
                n == 639533339,
        ;
        lemma_fundamental_div_mod_converse(n - 1, 853, 749746, 0);
    }
    assert(pow(a, ((n - 1) / 853int) as nat) % n == 256057581);
    assert(303978671int * (256057581int - 1) + (-121707561int) * n == 1) by (nonlinear_arith)
        requires
            n == 639533339,
    ;
    assert(1637int % 853int != 0) by (nonlinear_arith);
    lemma_order_gains_prime(a, n, 1637, 853, 256057581, 303978671int, (-121707561int));
    assert(1637int * 853int == 1396361) by (nonlinear_arith);
    assert(1396361int * 1396361int > n) by (nonlinear_arith)
        requires
            n == 639533339,
    ;
    lemma_certified_prime(a, n, 1396361);
}

/// Modulo 65865678001877903: the base 2 to the predecessor divided by
/// 639533339.
proof fn lemma_65865678001877903_power_stem()
    ensures
        pow(2int, 102990218nat) % 65865678001877903int == 8595199928015311,
{
    let n: int = 65865678001877903;
    let a: int = 2;
    let x0: int = 1;
    let e0: nat = 0;
    lemma_pow0(a);
    lemma_small_mod(1, n as nat);
    let x1: int = 2;
    assert((x0 * x0 * a) % n == x1) by (nonlinear_arith)
        requires
            n == 65865678001877903,
            a == 2,
            x0 == 1,
            x1 == 2,
    ;
    lemma_power_round(a, n, e0, x0, 1, a, x1);
    let e1: nat = 2 * e0 + 1;
    let x2: int = 8;
    assert((x1 * x1 * a) % n == x2) by (nonlinear_arith)
        requires
            n == 65865678001877903,
            a == 2,
            x1 == 2,
            x2 == 8,
    ;
    lemma_power_round(a, n, e1, x1, 1, a, x2);
    let e2: nat = 2 * e1 + 1;
    let x3: int = 64;
    assert((x2 * x2 * 1) % n == x3) by (nonlinear_arith)
        requires
            n == 65865678001877903,
            x2 == 8,
            x3 == 64,
    ;
    lemma_power_round(a, n, e2, x2, 0, 1, x3);
    let e3: nat = 2 * e2 + 0;
    let x4: int = 4096;
    assert((x3 * x3 * 1) % n == x4) by (nonlinear_arith)
        requires
            n == 65865678001877903,
            x3 == 64,
            x4 == 4096,
    ;
    lemma_power_round(a, n, e3, x3, 0, 1, x4);
    let e4: nat = 2 * e3 + 0;
    let x5: int = 16777216;
    assert((x4 * x4 * 1) % n == x5) by (nonlinear_arith)
        requires
            n == 65865678001877903,
            x4 == 4096,
            x5 == 16777216,
    ;
    lemma_power_round(a, n, e4, x4, 0, 1, x5);
    let e5: nat = 2 * e4 + 0;
    let x6: int = 562949953421312;
    assert((x5 * x5 * a) % n == x6) by (nonlinear_arith)
        requires
            n == 65865678001877903,
            a == 2,
            x5 == 16777216,
            x6 == 562949953421312,
    ;
    lemma_power_round(a, n, e5, x5, 1, a, x6);
    let e6: nat = 2 * e5 + 1;
    let x7: int = 33669438334804592;
    assert((x6 * x6 * 1) % n == x7) by (nonlinear_arith)
        requires
            n == 65865678001877903,
            x6 == 562949953421312,
            x7 == 33669438334804592,
    ;
    lemma_power_round(a, n, e6, x6, 0, 1, x7);
    let e7: nat = 2 * e6 + 0;
    let x8: int = 29183889115278499;
    assert((x7 * x7 * 1) % n == x8) by (nonlinear_arith)
        requires
            n == 65865678001877903,
            x7 == 33669438334804592,
            x8 == 29183889115278499,
    ;
    lemma_power_round(a, n, e7, x7, 0, 1, x8);
    let e8: nat = 2 * e7 + 0;
    let x9: int = 29525774262854301;
    assert((x8 * x8 * 1) % n == x9) by (nonlinear_arith)
        requires
            n == 65865678001877903,
            x8 == 29183889115278499,
            x9 == 29525774262854301,
    ;
    lemma_power_round(a, n, e8, x8, 0, 1, x9);
    let e9: nat = 2 * e8 + 0;
    let x10: int = 38887542728293898;
    assert((x9 * x9 * a) % n == x10) by (nonlinear_arith)
        requires
            n == 65865678001877903,
            a == 2,
            x9 == 29525774262854301,
            x10 == 38887542728293898,
    ;
    lemma_power_round(a, n, e9, x9, 1, a, x10);
    let e10: nat = 2 * e9 + 1;
    let x11: int = 59236409187319396;
    assert((x10 * x10 * a) % n == x11) by (nonlinear_arith)
        requires
            n == 65865678001877903,
            a == 2,
            x10 == 38887542728293898,
            x11 == 59236409187319396,
    ;
    lemma_power_round(a, n, e10, x10, 1, a, x11);
    let e11: nat = 2 * e10 + 1;
    let x12: int = 6154534983015613;
    assert((x11 * x11 * a) % n == x12) by (nonlinear_arith)
        requires
            n == 65865678001877903,
            a == 2,
            x11 == 59236409187319396,
            x12 == 6154534983015613,
    ;
    lemma_power_round(a, n, e11, x11, 1, a, x12);
    let e12: nat = 2 * e11 + 1;
    let x13: int = 36599328655427822;
    assert((x12 * x12 * 1) % n == x13) by (nonlinear_arith)
        requires
            n == 65865678001877903,
            x12 == 6154534983015613,
            x13 == 36599328655427822,
    ;
    lemma_power_round(a, n, e12, x12, 0, 1, x13);
    let e13: nat = 2 * e12 + 0;
    let x14: int = 34345934146059857;
    assert((x13 * x13 * 1) % n == x14) by (nonlinear_arith)
        requires
            n == 65865678001877903,
            x13 == 36599328655427822,
            x14 == 34345934146059857,
    ;
    lemma_power_round(a, n, e13, x13, 0, 1, x14);
    let e14: nat = 2 * e13 + 0;
    let x15: int = 24290170823953961;
    assert((x14 * x14 * 1) % n == x15) by (nonlinear_arith)
        requires
            n == 65865678001877903,
            x14 == 34345934146059857,
            x15 == 24290170823953961,
    ;
    lemma_power_round(a, n, e14, x14, 0, 1, x15);
    let e15: nat = 2 * e14 + 0;
    let x16: int = 36278529593780522;
    assert((x15 * x15 * 1) % n == x16) by (nonlinear_arith)
        requires
            n == 65865678001877903,
            x15 == 24290170823953961,
            x16 == 36278529593780522,
    ;
    lemma_power_round(a, n, e15, x15, 0, 1, x16);
    let e16: nat = 2 * e15 + 0;
    let x17: int = 3469598488387767;
    assert((x16 * x16 * 1) % n == x17) by (nonlinear_arith)
        requires
            n == 65865678001877903,
            x16 == 36278529593780522,
            x17 == 3469598488387767,
    ;
    lemma_power_round(a, n, e16, x16, 0, 1, x17);
    let e17: nat = 2 * e16 + 0;
    let x18: int = 2511672767434082;
    assert((x17 * x17 * 1) % n == x18) by (nonlinear_arith)
        requires
            n == 65865678001877903,
            x17 == 3469598488387767,
            x18 == 2511672767434082,
    ;
    lemma_power_round(a, n, e17, x17, 0, 1, x18);
    let e18: nat = 2 * e17 + 0;
    let x19: int = 38057013584529261;
    assert((x18 * x18 * a) % n == x19) by (nonlinear_arith)
        requires
            n == 65865678001877903,
            a == 2,
            x18 == 2511672767434082,
            x19 == 38057013584529261,
    ;
    lemma_power_round(a, n, e18, x18, 1, a, x19);
    let e19: nat = 2 * e18 + 1;
    let x20: int = 20679008872633708;
    assert((x19 * x19 * a) % n == x20) by (nonlinear_arith)
        requires
            n == 65865678001877903,
            a == 2,
            x19 == 38057013584529261,
            x20 == 20679008872633708,
    ;
    lemma_power_round(a, n, e19, x19, 1, a, x20);
    let e20: nat = 2 * e19 + 1;
    let x21: int = 54636828819129795;
    assert((x20 * x20 * 1) % n == x21) by (nonlinear_arith)
        requires
            n == 65865678001877903,
            x20 == 20679008872633708,
            x21 == 54636828819129795,
    ;
    lemma_power_round(a, n, e20, x20, 0, 1, x21);
    let e21: nat = 2 * e20 + 0;
    let x22: int = 64564281277289374;
    assert((x21 * x21 * 1) % n == x22) by (nonlinear_arith)
        requires
            n == 65865678001877903,
            x21 == 54636828819129795,
            x22 == 64564281277289374,
    ;
    lemma_power_round(a, n, e21, x21, 0, 1, x22);
    let e22: nat = 2 * e21 + 0;
    let x23: int = 44900285821727216;
    assert((x22 * x22 * 1) % n == x23) by (nonlinear_arith)
        requires
            n == 65865678001877903,
            x22 == 64564281277289374,
            x23 == 44900285821727216,
    ;
    lemma_power_round(a, n, e22, x22, 0, 1, x23);
    let e23: nat = 2 * e22 + 0;
    let x24: int = 37692726735093938;
    assert((x23 * x23 * a) % n == x24) by (nonlinear_arith)
        requires
            n == 65865678001877903,
            a == 2,
            x23 == 44900285821727216,
            x24 == 37692726735093938,
    ;
    lemma_power_round(a, n, e23, x23, 1, a, x24);
    let e24: nat = 2 * e23 + 1;
    let x25: int = 11626112380210856;
    assert((x24 * x24 * 1) % n == x25) by (nonlinear_arith)
        requires
            n == 65865678001877903,
            x24 == 37692726735093938,
            x25 == 11626112380210856,
    ;
    lemma_power_round(a, n, e24, x24, 0, 1, x25);
    let e25: nat = 2 * e24 + 0;
    let x26: int = 29991397622566647;
    assert((x25 * x25 * a) % n == x26) by (nonlinear_arith)
        requires
            n == 65865678001877903,
            a == 2,
            x25 == 11626112380210856,
            x26 == 29991397622566647,
    ;
    lemma_power_round(a, n, e25, x25, 1, a, x26);
    let e26: nat = 2 * e25 + 1;
    let x27: int = 8595199928015311;
    assert((x26 * x26 * 1) % n == x27) by (nonlinear_arith)
        requires
            n == 65865678001877903,
            x26 == 29991397622566647,
            x27 == 8595199928015311,
    ;
    lemma_power_round(a, n, e26, x26, 0, 1, x27);
    let e27: nat = 2 * e26 + 0;
    assert(e27 == 102990218);
}

/// Modulo 65865678001877903: the power above to the 639533339, which is the
/// base to the predecessor.
proof fn lemma_65865678001877903_power_full()
    ensures
        pow(8595199928015311int, 639533339nat) % 65865678001877903int == 1,
{
    let n: int = 65865678001877903;
    let a: int = 8595199928015311;
    let x0: int = 1;
    let e0: nat = 0;
    lemma_pow0(a);
    lemma_small_mod(1, n as nat);
    let x1: int = 8595199928015311;
    assert((x0 * x0 * a) % n == x1) by (nonlinear_arith)
        requires
            n == 65865678001877903,
            a == 8595199928015311,
            x0 == 1,
            x1 == 8595199928015311,
    ;
    lemma_power_round(a, n, e0, x0, 1, a, x1);
    let e1: nat = 2 * e0 + 1;
    let x2: int = 19226070235069677;
    assert((x1 * x1 * 1) % n == x2) by (nonlinear_arith)
        requires
            n == 65865678001877903,
            x1 == 8595199928015311,
            x2 == 19226070235069677,
    ;
    lemma_power_round(a, n, e1, x1, 0, 1, x2);
    let e2: nat = 2 * e1 + 0;
    let x3: int = 56968334197042590;
    assert((x2 * x2 * 1) % n == x3) by (nonlinear_arith)
        requires
            n == 65865678001877903,
            x2 == 19226070235069677,
            x3 == 56968334197042590,
    ;
    lemma_power_round(a, n, e2, x2, 0, 1, x3);
    let e3: nat = 2 * e2 + 0;
    let x4: int = 18611656393288241;
    assert((x3 * x3 * a) % n == x4) by (nonlinear_arith)
        requires
            n == 65865678001877903,
            a == 8595199928015311,
            x3 == 56968334197042590,
            x4 == 18611656393288241,
    ;
    lemma_power_round(a, n, e3, x3, 1, a, x4);
    let e4: nat = 2 * e3 + 1;
    let x5: int = 43734149829486000;
    assert((x4 * x4 * a) % n == x5) by (nonlinear_arith)
        requires
            n == 65865678001877903,
            a == 8595199928015311,
            x4 == 18611656393288241,
            x5 == 43734149829486000,
    ;
    lemma_power_round(a, n, e4, x4, 1, a, x5);
    let e5: nat = 2 * e4 + 1;
    let x6: int = 48447415136911303;
    assert((x5 * x5 * 1) % n == x6) by (nonlinear_arith)
        requires
            n == 65865678001877903,
            x5 == 43734149829486000,
            x6 == 48447415136911303,
    ;
    lemma_power_round(a, n, e5, x5, 0, 1, x6);
    let e6: nat = 2 * e5 + 0;
    let x7: int = 64820389105270256;
    assert((x6 * x6 * 1) % n == x7) by (nonlinear_arith)
        requires
            n == 65865678001877903,
            x6 == 48447415136911303,
            x7 == 64820389105270256,
    ;
    lemma_power_round(a, n, e6, x6, 0, 1, x7);
    let e7: nat = 2 * e6 + 0;
    let x8: int = 51329992322973469;
    assert((x7 * x7 * 1) % n == x8) by (nonlinear_arith)
        requires
            n == 65865678001877903,
            x7 == 64820389105270256,
            x8 == 51329992322973469,
    ;
    lemma_power_round(a, n, e7, x7, 0, 1, x8);
    let e8: nat = 2 * e7 + 0;
    let x9: int = 61286237417813760;
    assert((x8 * x8 * 1) % n == x9) by (nonlinear_arith)
        requires
            n == 65865678001877903,
            x8 == 51329992322973469,
            x9 == 61286237417813760,
    ;
    lemma_power_round(a, n, e8, x8, 0, 1, x9);
    let e9: nat = 2 * e8 + 0;
    let x10: int = 58465146411114843;
    assert((x9 * x9 * a) % n == x10) by (nonlinear_arith)
        requires
            n == 65865678001877903,
            a == 8595199928015311,
            x9 == 61286237417813760,
            x10 == 58465146411114843,
    ;
    lemma_power_round(a, n, e9, x9, 1, a, x10);
    let e10: nat = 2 * e9 + 1;
    let x11: int = 25160803760737125;
    assert((x10 * x10 * a) % n == x11) by (nonlinear_arith)
        requires
            n == 65865678001877903,
            a == 8595199928015311,
            x10 == 58465146411114843,
            x11 == 25160803760737125,
    ;
    lemma_power_round(a, n, e10, x10, 1, a, x11);
    let e11: nat = 2 * e10 + 1;
    let x12: int = 43282835694537230;
    assert((x11 * x11 * a) % n == x12) by (nonlinear_arith)
        requires
            n == 65865678001877903,
            a == 8595199928015311,
            x11 == 25160803760737125,
            x12 == 43282835694537230,
    ;
    lemma_power_round(a, n, e11, x11, 1, a, x12);
    let e12: nat = 2 * e11 + 1;
    let x13: int = 17564606142202988;
    assert((x12 * x12 * a) % n == x13) by (nonlinear_arith)
        requires
            n == 65865678001877903,
            a == 8595199928015311,
            x12 == 43282835694537230,
            x13 == 17564606142202988,
    ;
    lemma_power_round(a, n, e12, x12, 1, a, x13);
    let e13: nat = 2 * e12 + 1;
    let x14: int = 55317398354378580;
    assert((x13 * x13 * 1) % n == x14) by (nonlinear_arith)
        requires
            n == 65865678001877903,
            x13 == 17564606142202988,
            x14 == 55317398354378580,
    ;
    lemma_power_round(a, n, e13, x13, 0, 1, x14);
    let e14: nat = 2 * e13 + 0;
    let x15: int = 1018752242786798;
    assert((x14 * x14 * a) % n == x15) by (nonlinear_arith)
        requires
            n == 65865678001877903,
            a == 8595199928015311,
            x14 == 55317398354378580,
            x15 == 1018752242786798,
    ;
    lemma_power_round(a, n, e14, x14, 1, a, x15);
    let e15: nat = 2 * e14 + 1;
    let x16: int = 12272844760177368;
    assert((x15 * x15 * 1) % n == x16) by (nonlinear_arith)
        requires
            n == 65865678001877903,
            x15 == 1018752242786798,
            x16 == 12272844760177368,
    ;
    lemma_power_round(a, n, e15, x15, 0, 1, x16);
    let e16: nat = 2 * e15 + 0;
    let x17: int = 60491326033384519;
    assert((x16 * x16 * 1) % n == x17) by (nonlinear_arith)
        requires
            n == 65865678001877903,
            x16 == 12272844760177368,
            x17 == 60491326033384519,
    ;
    lemma_power_round(a, n, e16, x16, 0, 1, x17);
    let e17: nat = 2 * e16 + 0;
    let x18: int = 51365274646233044;
    assert((x17 * x17 * 1) % n == x18) by (nonlinear_arith)
        requires
            n == 65865678001877903,
            x17 == 60491326033384519,
            x18 == 51365274646233044,
    ;
    lemma_power_round(a, n, e17, x17, 0, 1, x18);
    let e18: nat = 2 * e17 + 0;
    let x19: int = 35194706668242559;
    assert((x18 * x18 * 1) % n == x19) by (nonlinear_arith)
        requires
            n == 65865678001877903,
            x18 == 51365274646233044,
            x19 == 35194706668242559,
    ;
    lemma_power_round(a, n, e18, x18, 0, 1, x19);
    let e19: nat = 2 * e18 + 0;
    let x20: int = 41777112883480135;
    assert((x19 * x19 * 1) % n == x20) by (nonlinear_arith)
        requires
            n == 65865678001877903,
            x19 == 35194706668242559,
            x20 == 41777112883480135,
    ;
    lemma_power_round(a, n, e19, x19, 0, 1, x20);
    let e20: nat = 2 * e19 + 0;
    let x21: int = 38459179869673960;
    assert((x20 * x20 * 1) % n == x21) by (nonlinear_arith)
        requires
            n == 65865678001877903,
            x20 == 41777112883480135,
            x21 == 38459179869673960,
    ;
    lemma_power_round(a, n, e20, x20, 0, 1, x21);
    let e21: nat = 2 * e20 + 0;
    let x22: int = 34048583907657784;
    assert((x21 * x21 * a) % n == x22) by (nonlinear_arith)
        requires
            n == 65865678001877903,
            a == 8595199928015311,
            x21 == 38459179869673960,
            x22 == 34048583907657784,
    ;
    lemma_power_round(a, n, e21, x21, 1, a, x22);
    let e22: nat = 2 * e21 + 1;
    let x23: int = 64143099883154873;
    assert((x22 * x22 * 1) % n == x23) by (nonlinear_arith)
        requires
            n == 65865678001877903,
            x22 == 34048583907657784,
            x23 == 64143099883154873,
    ;
    lemma_power_round(a, n, e22, x22, 0, 1, x23);
    let e23: nat = 2 * e22 + 0;
    let x24: int = 7159896889705541;
    assert((x23 * x23 * 1) % n == x24) by (nonlinear_arith)
        requires
            n == 65865678001877903,
            x23 == 64143099883154873,
            x24 == 7159896889705541,
    ;
    lemma_power_round(a, n, e23, x23, 0, 1, x24);
    let e24: nat = 2 * e23 + 0;
    let x25: int = 33061215984632264;
    assert((x24 * x24 * 1) % n == x25) by (nonlinear_arith)
        requires
            n == 65865678001877903,
            x24 == 7159896889705541,
            x25 == 33061215984632264,
    ;
    lemma_power_round(a, n, e24, x24, 0, 1, x25);
    let e25: nat = 2 * e24 + 0;
    let x26: int = 45545585862734603;
    assert((x25 * x25 * a) % n == x26) by (nonlinear_arith)
        requires
            n == 65865678001877903,
            a == 8595199928015311,
            x25 == 33061215984632264,
            x26 == 45545585862734603,
    ;
    lemma_power_round(a, n, e25, x25, 1, a, x26);
    let e26: nat = 2 * e25 + 1;
    let x27: int = 60626625102889057;
    assert((x26 * x26 * a) % n == x27) by (nonlinear_arith)
        requires
            n == 65865678001877903,
            a == 8595199928015311,
            x26 == 45545585862734603,
            x27 == 60626625102889057,
    ;
    lemma_power_round(a, n, e26, x26, 1, a, x27);
    let e27: nat = 2 * e26 + 1;
    let x28: int = 57018535114983506;
    assert((x27 * x27 * 1) % n == x28) by (nonlinear_arith)
        requires
            n == 65865678001877903,
            x27 == 60626625102889057,
            x28 == 57018535114983506,
    ;
    lemma_power_round(a, n, e27, x27, 0, 1, x28);
    let e28: nat = 2 * e27 + 0;
    let x29: int = 51349957123922359;
    assert((x28 * x28 * a) % n == x29) by (nonlinear_arith)
        requires
            n == 65865678001877903,
            a == 8595199928015311,
            x28 == 57018535114983506,
            x29 == 51349957123922359,
    ;
    lemma_power_round(a, n, e28, x28, 1, a, x29);
    let e29: nat = 2 * e28 + 1;
    let x30: int = 1;
    assert((x29 * x29 * a) % n == x30) by (nonlinear_arith)
        requires
            n == 65865678001877903,
            a == 8595199928015311,
            x29 == 51349957123922359,
            x30 == 1,
    ;
    lemma_power_round(a, n, e29, x29, 1, a, x30);
    let e30: nat = 2 * e29 + 1;
    assert(e30 == 639533339);
}

/// 65865678001877903 is prime: with base 2, by the prime divisor 639533339 of
/// its predecessor.
proof fn lemma_prime_65865678001877903()
    ensures
        is_prime(65865678001877903int),
{
    let n: int = 65865678001877903;
    let a: int = 2;
    lemma_65865678001877903_power_stem();
    lemma_65865678001877903_power_full();
    lemma_power_of_power(a, n, 102990218nat, 8595199928015311, 639533339nat, 1);
    assert(pow(a, (n - 1) as nat) % n == 1);
    lemma_order_multiple_of_one(a, n);
    lemma_prime_639533339();
    assert((n - 1) % 639533339int == 0 && (n - 1) / 639533339int == 102990218) by {
        assert(n - 1 == 102990218int * 639533339int + 0) by (nonlinear_arith)
            requires
                n == 65865678001877903,
        ;
        lemma_fundamental_div_mod_converse(n - 1, 639533339, 102990218, 0);
    }
    assert(pow(a, ((n - 1) / 639533339int) as nat) % n == 8595199928015311);
    assert((-26832391183668398int) * (8595199928015311int - 1) + 3501516628490027int * n == 1) by (nonlinear_arith)
        requires
            n == 65865678001877903,
    ;
    assert(1int % 639533339int != 0) by {
        lemma_small_mod(1, 639533339);
    }
    lemma_order_gains_prime(a, n, 1, 639533339, 8595199928015311, (-26832391183668398int), 3501516628490027int);
    assert(1int * 639533339int == 639533339) by (nonlinear_arith);
    assert(639533339int * 639533339int > n) by (nonlinear_arith)
        requires
            n == 65865678001877903,
    ;
    lemma_certified_prime(a, n, 639533339);
}

/// Modulo 13818364434197438864469338081: the base 2 to the predecessor divided
/// by 65865678001877903.
proof fn lemma_13818364434197438864469338081_power_stem()
    ensures
        pow(2int, 209796131360nat) % 13818364434197438864469338081int == 7935281130018080704632618576,
{
    let n: int = 13818364434197438864469338081;
    let a: int = 2;
    let x0: int = 1;
    let e0: nat = 0;
    lemma_pow0(a);
    lemma_small_mod(1, n as nat);
    let x1: int = 2;
    assert((x0 * x0 * a) % n == x1) by (nonlinear_arith)
        requires
            n == 13818364434197438864469338081,
            a == 2,
            x0 == 1,
            x1 == 2,
    ;
    lemma_power_round(a, n, e0, x0, 1, a, x1);
    let e1: nat = 2 * e0 + 1;
    let x2: int = 8;
    assert((x1 * x1 * a) % n == x2) by (nonlinear_arith)
        requires
            n == 13818364434197438864469338081,
            a == 2,
            x1 == 2,
            x2 == 8,
    ;
    lemma_power_round(a, n, e1, x1, 1, a, x2);
    let e2: nat = 2 * e1 + 1;
    let x3: int = 64;
    assert((x2 * x2 * 1) % n == x3) by (nonlinear_arith)
        requires
            n == 13818364434197438864469338081,
            x2 == 8,
            x3 == 64,
    ;
    lemma_power_round(a, n, e2, x2, 0, 1, x3);
    let e3: nat = 2 * e2 + 0;
    let x4: int = 4096;
    assert((x3 * x3 * 1) % n == x4) by (nonlinear_arith)
        requires
            n == 13818364434197438864469338081,
            x3 == 64,
            x4 == 4096,
    ;
    lemma_power_round(a, n, e3, x3, 0, 1, x4);
    let e4: nat = 2 * e3 + 0;
    let x5: int = 16777216;
    assert((x4 * x4 * 1) % n == x5) by (nonlinear_arith)
        requires
            n == 13818364434197438864469338081,
            x4 == 4096,
            x5 == 16777216,
    ;
    lemma_power_round(a, n, e4, x4, 0, 1, x5);
    let e5: nat = 2 * e4 + 0;
    let x6: int = 281474976710656;
    assert((x5 * x5 * 1) % n == x6) by (nonlinear_arith)
        requires
            n == 13818364434197438864469338081,
            x5 == 16777216,
            x6 == 281474976710656,
    ;
    lemma_power_round(a, n, e5, x5, 0, 1, x6);
    let e6: nat = 2 * e5 + 0;
    let x7: int = 6454316252356847677925181781;
    assert((x6 * x6 * a) % n == x7) by (nonlinear_arith)
        requires
            n == 13818364434197438864469338081,
            a == 2,
            x6 == 281474976710656,
            x7 == 6454316252356847677925181781,
    ;
    lemma_power_round(a, n, e6, x6, 1, a, x7);
    let e7: nat = 2 * e6 + 1;
    let x8: int = 3495777377331334031211076330;
    assert((x7 * x7 * a) % n == x8) by (nonlinear_arith)
        requires
            n == 13818364434197438864469338081,
            a == 2,
            x7 == 6454316252356847677925181781,
            x8 == 3495777377331334031211076330,
    ;
    lemma_power_round(a, n, e7, x7, 1, a, x8);
    let e8: nat = 2 * e7 + 1;
    let x9: int = 5951512278320042950352511356;
    assert((x8 * x8 * 1) % n == x9) by (nonlinear_arith)
        requires
            n == 13818364434197438864469338081,
            x8 == 3495777377331334031211076330,
            x9 == 5951512278320042950352511356,
    ;
    lemma_power_round(a, n, e8, x8, 0, 1, x9);
    let e9: nat = 2 * e8 + 0;
    let x10: int = 3033976872573099009872716038;
    assert((x9 * x9 * a) % n == x10) by (nonlinear_arith)
        requires
            n == 13818364434197438864469338081,
            a == 2,
            x9 == 5951512278320042950352511356,
            x10 == 3033976872573099009872716038,
    ;
    lemma_power_round(a, n, e9, x9, 1, a, x10);
    let e10: nat = 2 * e9 + 1;
    let x11: int = 5465722792888113942790748758;
    assert((x10 * x10 * a) % n == x11) by (nonlinear_arith)
        requires
            n == 13818364434197438864469338081,
            a == 2,
            x10 == 3033976872573099009872716038,
            x11 == 5465722792888113942790748758,
    ;
    lemma_power_round(a, n, e10, x10, 1, a, x11);
    let e11: nat = 2 * e10 + 1;
    let x12: int = 2529445442512532155623637994;
    assert((x11 * x11 * 1) % n == x12) by (nonlinear_arith)
        requires
            n == 13818364434197438864469338081,
            x11 == 5465722792888113942790748758,
            x12 == 2529445442512532155623637994,
    ;
    lemma_power_round(a, n, e11, x11, 0, 1, x12);
    let e12: nat = 2 * e11 + 0;
    let x13: int = 440353389748771911165647087;
    assert((x12 * x12 * 1) % n == x13) by (nonlinear_arith)
        requires
            n == 13818364434197438864469338081,
            x12 == 2529445442512532155623637994,
            x13 == 440353389748771911165647087,
    ;
    lemma_power_round(a, n, e12, x12, 0, 1, x13);
    let e13: nat = 2 * e12 + 0;
    let x14: int = 3112286383224838334422801731;
    assert((x13 * x13 * 1) % n == x14) by (nonlinear_arith)
        requires
            n == 13818364434197438864469338081,
            x13 == 440353389748771911165647087,
            x14 == 3112286383224838334422801731,
    ;
    lemma_power_round(a, n, e13, x13, 0, 1, x14);
    let e14: nat = 2 * e13 + 0;
    let x15: int = 10883367953763375060713818947;
    assert((x14 * x14 * a) % n == x15) by (nonlinear_arith)
        requires
            n == 13818364434197438864469338081,
            a == 2,
            x14 == 3112286383224838334422801731,
            x15 == 10883367953763375060713818947,
    ;
    lemma_power_round(a, n, e14, x14, 1, a, x15);
    let e15: nat = 2 * e14 + 1;
    let x16: int = 1565875933293083035397743092;
    assert((x15 * x15 * a) % n == x16) by (nonlinear_arith)
        requires
            n == 13818364434197438864469338081,
            a == 2,
            x15 == 10883367953763375060713818947,
            x16 == 1565875933293083035397743092,
    ;
    lemma_power_round(a, n, e15, x15, 1, a, x16);
    let e16: nat = 2 * e15 + 1;
    let x17: int = 490821471181962507738633853;
    assert((x16 * x16 * 1) % n == x17) by (nonlinear_arith)
        requires
            n == 13818364434197438864469338081,
            x16 == 1565875933293083035397743092,
            x17 == 490821471181962507738633853,
    ;
    lemma_power_round(a, n, e16, x16, 0, 1, x17);
    let e17: nat = 2 * e16 + 0;
    let x18: int = 3614946713776805242456025115;
    assert((x17 * x17 * a) % n == x18) by (nonlinear_arith)
        requires
            n == 13818364434197438864469338081,
            a == 2,
            x17 == 490821471181962507738633853,
            x18 == 3614946713776805242456025115,
    ;
    lemma_power_round(a, n, e17, x17, 1, a, x18);
    let e18: nat = 2 * e17 + 1;
    let x19: int = 6928623037275597399094225425;
    assert((x18 * x18 * 1) % n == x19) by (nonlinear_arith)
        requires
            n == 13818364434197438864469338081,
            x18 == 3614946713776805242456025115,
            x19 == 6928623037275597399094225425,
    ;
    lemma_power_round(a, n, e18, x18, 0, 1, x19);
    let e19: nat = 2 * e18 + 0;
    let x20: int = 6696758088301655987143847572;
    assert((x19 * x19 * 1) % n == x20) by (nonlinear_arith)
        requires
            n == 13818364434197438864469338081,
            x19 == 6928623037275597399094225425,
            x20 == 6696758088301655987143847572,
    ;
    lemma_power_round(a, n, e19, x19, 0, 1, x20);
    let e20: nat = 2 * e19 + 0;
    let x21: int = 7819367881320079670549657171;
    assert((x20 * x20 * a) % n == x21) by (nonlinear_arith)
        requires
            n == 13818364434197438864469338081,
            a == 2,
            x20 == 6696758088301655987143847572,
            x21 == 7819367881320079670549657171,
    ;
    lemma_power_round(a, n, e20, x20, 1, a, x21);
    let e21: nat = 2 * e20 + 1;
    let x22: int = 10070268653200299995843475387;
    assert((x21 * x21 * 1) % n == x22) by (nonlinear_arith)
        requires
            n == 13818364434197438864469338081,
            x21 == 7819367881320079670549657171,
            x22 == 10070268653200299995843475387,
    ;
    lemma_power_round(a, n, e21, x21, 0, 1, x22);
    let e22: nat = 2 * e21 + 0;
    let x23: int = 3816707788476410042118326014;
    assert((x22 * x22 * a) % n == x23) by (nonlinear_arith)
        requires
            n == 13818364434197438864469338081,
            a == 2,
            x22 == 10070268653200299995843475387,
            x23 == 3816707788476410042118326014,
    ;
    lemma_power_round(a, n, e22, x22, 1, a, x23);
    let e23: nat = 2 * e22 + 1;
    let x24: int = 10583777458174873562128618897;
    assert((x23 * x23 * a) % n == x24) by (nonlinear_arith)
        requires
            n == 13818364434197438864469338081,
            a == 2,
            x23 == 3816707788476410042118326014,
            x24 == 10583777458174873562128618897,
    ;
    lemma_power_round(a, n, e23, x23, 1, a, x24);
    let e24: nat = 2 * e23 + 1;
    let x25: int = 61611541808797052178780058;
    assert((x24 * x24 * a) % n == x25) by (nonlinear_arith)
        requires
            n == 13818364434197438864469338081,
            a == 2,
            x24 == 10583777458174873562128618897,
            x25 == 61611541808797052178780058,
    ;
    lemma_power_round(a, n, e24, x24, 1, a, x25);
    let e25: nat = 2 * e24 + 1;
    let x26: int = 13703444609288914443892883008;
    assert((x25 * x25 * 1) % n == x26) by (nonlinear_arith)
        requires
            n == 13818364434197438864469338081,
            x25 == 61611541808797052178780058,
            x26 == 13703444609288914443892883008,
    ;
    lemma_power_round(a, n, e25, x25, 0, 1, x26);
    let e26: nat = 2 * e25 + 0;
    let x27: int = 11889075508072828027261057686;
    assert((x26 * x26 * a) % n == x27) by (nonlinear_arith)
        requires
            n == 13818364434197438864469338081,
            a == 2,
            x26 == 13703444609288914443892883008,
            x27 == 11889075508072828027261057686,
    ;
    lemma_power_round(a, n, e26, x26, 1, a, x27);
    let e27: nat = 2 * e26 + 1;
    let x28: int = 6696750377520025105869736712;
    assert((x27 * x27 * 1) % n == x28) by (nonlinear_arith)
        requires
            n == 13818364434197438864469338081,
            x27 == 11889075508072828027261057686,
            x28 == 6696750377520025105869736712,
    ;
    lemma_power_round(a, n, e27, x27, 0, 1, x28);
    let e28: nat = 2 * e27 + 0;
    let x29: int = 9102474818579538724333781260;
    assert((x28 * x28 * a) % n == x29) by (nonlinear_arith)
        requires
            n == 13818364434197438864469338081,
            a == 2,
            x28 == 6696750377520025105869736712,
            x29 == 9102474818579538724333781260,
    ;
    lemma_power_round(a, n, e28, x28, 1, a, x29);
    let e29: nat = 2 * e28 + 1;
    let x30: int = 7993853100498013929712605736;
    assert((x29 * x29 * 1) % n == x30) by (nonlinear_arith)
        requires
            n == 13818364434197438864469338081,
            x29 == 9102474818579538724333781260,
            x30 == 7993853100498013929712605736,
    ;
    lemma_power_round(a, n, e29, x29, 0, 1, x30);
    let e30: nat = 2 * e29 + 0;
    let x31: int = 13077241212351534571391395675;
    assert((x30 * x30 * 1) % n == x31) by (nonlinear_arith)
        requires
            n == 13818364434197438864469338081,
            x30 == 7993853100498013929712605736,
            x31 == 13077241212351534571391395675,
    ;
    lemma_power_round(a, n, e30, x30, 0, 1, x31);
    let e31: nat = 2 * e30 + 0;
    let x32: int = 776611901396362500027549364;
    assert((x31 * x31 * 1) % n == x32) by (nonlinear_arith)
        requires
            n == 13818364434197438864469338081,
            x31 == 13077241212351534571391395675,
            x32 == 776611901396362500027549364,
    ;
    lemma_power_round(a, n, e31, x31, 0, 1, x32);
    let e32: nat = 2 * e31 + 0;
    let x33: int = 692313430825461849034301520;
    assert((x32 * x32 * a) % n == x33) by (nonlinear_arith)
        requires
            n == 13818364434197438864469338081,
            a == 2,
            x32 == 776611901396362500027549364,
            x33 == 692313430825461849034301520,
    ;
    lemma_power_round(a, n, e32, x32, 1, a, x33);
    let e33: nat = 2 * e32 + 1;
    let x34: int = 9108418817094604941133376915;
    assert((x33 * x33 * 1) % n == x34) by (nonlinear_arith)
        requires
            n == 13818364434197438864469338081,
            x33 == 692313430825461849034301520,
            x34 == 9108418817094604941133376915,
    ;
    lemma_power_round(a, n, e33, x33, 0, 1, x34);
    let e34: nat = 2 * e33 + 0;
    let x35: int = 13554696113211819504756156809;
    assert((x34 * x34 * 1) % n == x35) by (nonlinear_arith)
        requires
            n == 13818364434197438864469338081,
            x34 == 9108418817094604941133376915,
            x35 == 13554696113211819504756156809,
    ;
    lemma_power_round(a, n, e34, x34, 0, 1, x35);
    let e35: nat = 2 * e34 + 0;
    let x36: int = 9851413725777882755728564398;
    assert((x35 * x35 * 1) % n == x36) by (nonlinear_arith)
        requires
            n == 13818364434197438864469338081,
            x35 == 13554696113211819504756156809,
            x36 == 9851413725777882755728564398,
    ;
    lemma_power_round(a, n, e35, x35, 0, 1, x36);
    let e36: nat = 2 * e35 + 0;
    let x37: int = 11475781924502439791542453899;
    assert((x36 * x36 * 1) % n == x37) by (nonlinear_arith)
        requires
            n == 13818364434197438864469338081,
            x36 == 9851413725777882755728564398,
            x37 == 11475781924502439791542453899,
    ;
    lemma_power_round(a, n, e36, x36, 0, 1, x37);
    let e37: nat = 2 * e36 + 0;
    let x38: int = 7935281130018080704632618576;
    assert((x37 * x37 * 1) % n == x38) by (nonlinear_arith)
        requires
            n == 13818364434197438864469338081,
            x37 == 11475781924502439791542453899,
            x38 == 7935281130018080704632618576,
    ;
    lemma_power_round(a, n, e37, x37, 0, 1, x38);
    let e38: nat = 2 * e37 + 0;
    assert(e38 == 209796131360);
}

/// Modulo 13818364434197438864469338081: the power above to the
/// 65865678001877903, which is the base to the predecessor.
proof fn lemma_13818364434197438864469338081_power_full()
    ensures
        pow(7935281130018080704632618576int, 65865678001877903nat) % 13818364434197438864469338081int == 1,
{
    let n: int = 13818364434197438864469338081;
    let a: int = 7935281130018080704632618576;
    let x0: int = 1;
    let e0: nat = 0;
    lemma_pow0(a);
    lemma_small_mod(1, n as nat);
    let x1: int = 7935281130018080704632618576;
    assert((x0 * x0 * a) % n == x1) by (nonlinear_arith)
        requires
            n == 13818364434197438864469338081,
            a == 7935281130018080704632618576,
            x0 == 1,
            x1 == 7935281130018080704632618576,
    ;
    lemma_power_round(a, n, e0, x0, 1, a, x1);
    let e1: nat = 2 * e0 + 1;
    let x2: int = 6024626098376368604520791548;
    assert((x1 * x1 * a) % n == x2) by (nonlinear_arith)
        requires
            n == 13818364434197438864469338081,
            a == 7935281130018080704632618576,
            x1 == 7935281130018080704632618576,
            x2 == 6024626098376368604520791548,
    ;
    lemma_power_round(a, n, e1, x1, 1, a, x2);
    let e2: nat = 2 * e1 + 1;
    let x3: int = 12956526157738010221657952029;
    assert((x2 * x2 * a) % n == x3) by (nonlinear_arith)
        requires
            n == 13818364434197438864469338081,
            a == 7935281130018080704632618576,
            x2 == 6024626098376368604520791548,
            x3 == 12956526157738010221657952029,
    ;
    lemma_power_round(a, n, e2, x2, 1, a, x3);
    let e3: nat = 2 * e2 + 1;
    let x4: int = 13033178315209579486208481915;
    assert((x3 * x3 * 1) % n == x4) by (nonlinear_arith)
        requires
            n == 13818364434197438864469338081,
            x3 == 12956526157738010221657952029,
            x4 == 13033178315209579486208481915,
    ;
    lemma_power_round(a, n, e3, x3, 0, 1, x4);
    let e4: nat = 2 * e3 + 0;
    let x5: int = 9317283377009505927246043607;
    assert((x4 * x4 * a) % n == x5) by (nonlinear_arith)
        requires
            n == 13818364434197438864469338081,
            a == 7935281130018080704632618576,
            x4 == 13033178315209579486208481915,
            x5 == 9317283377009505927246043607,
    ;
    lemma_power_round(a, n, e4, x4, 1, a, x5);
    let e5: nat = 2 * e4 + 1;
    let x6: int = 3487141057479528001213568715;
    assert((x5 * x5 * 1) % n == x6) by (nonlinear_arith)
        requires
            n == 13818364434197438864469338081,
            x5 == 9317283377009505927246043607,
            x6 == 3487141057479528001213568715,
    ;
    lemma_power_round(a, n, e5, x5, 0, 1, x6);
    let e6: nat = 2 * e5 + 0;
    let x7: int = 8970463893610592358603246707;
    assert((x6 * x6 * a) % n == x7) by (nonlinear_arith)
        requires
            n == 13818364434197438864469338081,
            a == 7935281130018080704632618576,
            x6 == 3487141057479528001213568715,
            x7 == 8970463893610592358603246707,
    ;
    lemma_power_round(a, n, e6, x6, 1, a, x7);
    let e7: nat = 2 * e6 + 1;
    let x8: int = 13047074007182443388793947416;
    assert((x7 * x7 * 1) % n == x8) by (nonlinear_arith)
        requires
            n == 13818364434197438864469338081,
            x7 == 8970463893610592358603246707,
            x8 == 13047074007182443388793947416,
    ;
    lemma_power_round(a, n, e7, x7, 0, 1, x8);
    let e8: nat = 2 * e7 + 0;
    let x9: int = 1735893499133178782183529707;
    assert((x8 * x8 * 1) % n == x9) by (nonlinear_arith)
        requires
            n == 13818364434197438864469338081,
            x8 == 13047074007182443388793947416,
            x9 == 1735893499133178782183529707,
    ;
    lemma_power_round(a, n, e8, x8, 0, 1, x9);
    let e9: nat = 2 * e8 + 0;
    let x10: int = 2277860932176299701036661121;
    assert((x9 * x9 * 1) % n == x10) by (nonlinear_arith)
        requires
            n == 13818364434197438864469338081,
            x9 == 1735893499133178782183529707,
            x10 == 2277860932176299701036661121,
    ;
    lemma_power_round(a, n, e9, x9, 0, 1, x10);
    let e10: nat = 2 * e9 + 0;
    let x11: int = 10456841577218911324352461447;
    assert((x10 * x10 * 1) % n == x11) by (nonlinear_arith)
        requires
            n == 13818364434197438864469338081,
            x10 == 2277860932176299701036661121,
            x11 == 10456841577218911324352461447,
    ;
    lemma_power_round(a, n, e10, x10, 0, 1, x11);
    let e11: nat = 2 * e10 + 0;
    let x12: int = 11582084072275290222046741408;
    assert((x11 * x11 * 1) % n == x12) by (nonlinear_arith)
        requires
            n == 13818364434197438864469338081,
            x11 == 10456841577218911324352461447,
            x12 == 11582084072275290222046741408,
    ;
    lemma_power_round(a, n, e11, x11, 0, 1, x12);
    let e12: nat = 2 * e11 + 0;
    let x13: int = 4440869139873206848644823141;
    assert((x12 * x12 * 1) % n == x13) by (nonlinear_arith)
        requires
            n == 13818364434197438864469338081,
            x12 == 11582084072275290222046741408,
            x13 == 4440869139873206848644823141,
    ;
    lemma_power_round(a, n, e12, x12, 0, 1, x13);
    let e13: nat = 2 * e12 + 0;
    let x14: int = 8368951715619670804580817870;
    assert((x13 * x13 * 1) % n == x14) by (nonlinear_arith)
        requires
            n == 13818364434197438864469338081,
            x13 == 4440869139873206848644823141,
            x14 == 8368951715619670804580817870,
    ;
    lemma_power_round(a, n, e13, x13, 0, 1, x14);
    let e14: nat = 2 * e13 + 0;
    let x15: int = 9262168650417991593144528480;
    assert((x14 * x14 * 1) % n == x15) by (nonlinear_arith)
        requires
            n == 13818364434197438864469338081,
            x14 == 8368951715619670804580817870,
            x15 == 9262168650417991593144528480,
    ;
    lemma_power_round(a, n, e14, x14, 0, 1, x15);
    let e15: nat = 2 * e14 + 0;
    let x16: int = 10413093752592839881829586129;
    assert((x15 * x15 * 1) % n == x16) by (nonlinear_arith)
        requires
            n == 13818364434197438864469338081,
            x15 == 9262168650417991593144528480,
            x16 == 10413093752592839881829586129,
    ;
    lemma_power_round(a, n, e15, x15, 0, 1, x16);
    let e16: nat = 2 * e15 + 0;
    let x17: int = 11541844625233648289585365274;
    assert((x16 * x16 * 1) % n == x17) by (nonlinear_arith)
        requires
            n == 13818364434197438864469338081,
            x16 == 10413093752592839881829586129,
            x17 == 11541844625233648289585365274,
    ;
    lemma_power_round(a, n, e16, x16, 0, 1, x17);
    let e17: nat = 2 * e16 + 0;
    let x18: int = 4089172793395676412059969189;
    assert((x17 * x17 * a) % n == x18) by (nonlinear_arith)
        requires
            n == 13818364434197438864469338081,
            a == 7935281130018080704632618576,
            x17 == 11541844625233648289585365274,
            x18 == 4089172793395676412059969189,
    ;
    lemma_power_round(a, n, e17, x17, 1, a, x18);
    let e18: nat = 2 * e17 + 1;
    let x19: int = 123795530186511610780831045;
    assert((x18 * x18 * a) % n == x19) by (nonlinear_arith)
        requires
            n == 13818364434197438864469338081,
            a == 7935281130018080704632618576,
            x18 == 4089172793395676412059969189,
            x19 == 123795530186511610780831045,
    ;
    lemma_power_round(a, n, e18, x18, 1, a, x19);
    let e19: nat = 2 * e18 + 1;
    let x20: int = 3995911146589813549241500956;
    assert((x19 * x19 * a) % n == x20) by (nonlinear_arith)
        requires
            n == 13818364434197438864469338081,
            a == 7935281130018080704632618576,
            x19 == 123795530186511610780831045,
            x20 == 3995911146589813549241500956,
    ;
    lemma_power_round(a, n, e19, x19, 1, a, x20);
    let e20: nat = 2 * e19 + 1;
    let x21: int = 7213163208392189156475395815;
    assert((x20 * x20 * a) % n == x21) by (nonlinear_arith)
        requires
            n == 13818364434197438864469338081,
            a == 7935281130018080704632618576,
            x20 == 3995911146589813549241500956,
            x21 == 7213163208392189156475395815,
    ;
    lemma_power_round(a, n, e20, x20, 1, a, x21);
    let e21: nat = 2 * e20 + 1;
    let x22: int = 3274665168306567780251474939;
    assert((x21 * x21 * a) % n == x22) by (nonlinear_arith)
        requires
            n == 13818364434197438864469338081,
            a == 7935281130018080704632618576,
            x21 == 7213163208392189156475395815,
            x22 == 3274665168306567780251474939,
    ;
    lemma_power_round(a, n, e21, x21, 1, a, x22);
    let e22: nat = 2 * e21 + 1;
    let x23: int = 7783209883449169180516943092;
    assert((x22 * x22 * 1) % n == x23) by (nonlinear_arith)
        requires
            n == 13818364434197438864469338081,
            x22 == 3274665168306567780251474939,
            x23 == 7783209883449169180516943092,
    ;
    lemma_power_round(a, n, e22, x22, 0, 1, x23);
    let e23: nat = 2 * e22 + 0;
    let x24: int = 12137052172119357729802499609;
    assert((x23 * x23 * 1) % n == x24) by (nonlinear_arith)
        requires
            n == 13818364434197438864469338081,
            x23 == 7783209883449169180516943092,
            x24 == 12137052172119357729802499609,
    ;
    lemma_power_round(a, n, e23, x23, 0, 1, x24);
    let e24: nat = 2 * e23 + 0;
    let x25: int = 753190004820108438227960086;
    assert((x24 * x24 * 1) % n == x25) by (nonlinear_arith)
        requires
            n == 13818364434197438864469338081,
            x24 == 12137052172119357729802499609,
            x25 == 753190004820108438227960086,
    ;
    lemma_power_round(a, n, e24, x24, 0, 1, x25);
    let e25: nat = 2 * e24 + 0;
    let x26: int = 9480013504884722808418395875;
    assert((x25 * x25 * 1) % n == x26) by (nonlinear_arith)
        requires
            n == 13818364434197438864469338081,
            x25 == 753190004820108438227960086,
            x26 == 9480013504884722808418395875,
    ;
    lemma_power_round(a, n, e25, x25, 0, 1, x26);
    let e26: nat = 2 * e25 + 0;
    let x27: int = 10310184326597100927003724519;
    assert((x26 * x26 * a) % n == x27) by (nonlinear_arith)
        requires
            n == 13818364434197438864469338081,
            a == 7935281130018080704632618576,
            x26 == 9480013504884722808418395875,
            x27 == 10310184326597100927003724519,
    ;
    lemma_power_round(a, n, e26, x26, 1, a, x27);
    let e27: nat = 2 * e26 + 1;
    let x28: int = 3138503201478530464709256003;
    assert((x27 * x27 * a) % n == x28) by (nonlinear_arith)
        requires
            n == 13818364434197438864469338081,
            a == 7935281130018080704632618576,
            x27 == 10310184326597100927003724519,
            x28 == 3138503201478530464709256003,
    ;
    lemma_power_round(a, n, e27, x27, 1, a, x28);
    let e28: nat = 2 * e27 + 1;
    let x29: int = 12483562629543047011950850809;
    assert((x28 * x28 * 1) % n == x29) by (nonlinear_arith)
        requires
            n == 13818364434197438864469338081,
            x28 == 3138503201478530464709256003,
            x29 == 12483562629543047011950850809,
    ;
    lemma_power_round(a, n, e28, x28, 0, 1, x29);
    let e29: nat = 2 * e28 + 0;
    let x30: int = 2281409498763660828057122321;
    assert((x29 * x29 * a) % n == x30) by (nonlinear_arith)
        requires
            n == 13818364434197438864469338081,
            a == 7935281130018080704632618576,
            x29 == 12483562629543047011950850809,
            x30 == 2281409498763660828057122321,
    ;
    lemma_power_round(a, n, e29, x29, 1, a, x30);
    let e30: nat = 2 * e29 + 1;
    let x31: int = 8432267785655359550494713763;
    assert((x30 * x30 * 1) % n == x31) by (nonlinear_arith)
        requires
            n == 13818364434197438864469338081,
            x30 == 2281409498763660828057122321,
            x31 == 8432267785655359550494713763,
    ;
    lemma_power_round(a, n, e30, x30, 0, 1, x31);
    let e31: nat = 2 * e30 + 0;
    let x32: int = 9286782187083334098797683226;
    assert((x31 * x31 * 1) % n == x32) by (nonlinear_arith)
        requires
            n == 13818364434197438864469338081,
            x31 == 8432267785655359550494713763,
            x32 == 9286782187083334098797683226,
    ;
    lemma_power_round(a, n, e31, x31, 0, 1, x32);
    let e32: nat = 2 * e31 + 0;
    let x33: int = 7349931621413274043139007121;
    assert((x32 * x32 * 1) % n == x33) by (nonlinear_arith)
        requires
            n == 13818364434197438864469338081,
            x32 == 9286782187083334098797683226,
            x33 == 7349931621413274043139007121,
    ;
    lemma_power_round(a, n, e32, x32, 0, 1, x33);
    let e33: nat = 2 * e32 + 0;
    let x34: int = 11241010701785258861774228018;
    assert((x33 * x33 * 1) % n == x34) by (nonlinear_arith)
        requires
            n == 13818364434197438864469338081,
            x33 == 7349931621413274043139007121,
            x34 == 11241010701785258861774228018,
    ;
    lemma_power_round(a, n, e33, x33, 0, 1, x34);
    let e34: nat = 2 * e33 + 0;
    let x35: int = 10495543114326162342869356054;
    assert((x34 * x34 * a) % n == x35) by (nonlinear_arith)
        requires
            n == 13818364434197438864469338081,
            a == 7935281130018080704632618576,
            x34 == 11241010701785258861774228018,
            x35 == 10495543114326162342869356054,
    ;
    lemma_power_round(a, n, e34, x34, 1, a, x35);
    let e35: nat = 2 * e34 + 1;
    let x36: int = 1878424754868214010089219927;
    assert((x35 * x35 * a) % n == x36) by (nonlinear_arith)
        requires
            n == 13818364434197438864469338081,
            a == 7935281130018080704632618576,
            x35 == 10495543114326162342869356054,
            x36 == 1878424754868214010089219927,
    ;
    lemma_power_round(a, n, e35, x35, 1, a, x36);
    let e36: nat = 2 * e35 + 1;
    let x37: int = 7214738950431482892676211854;
    assert((x36 * x36 * 1) % n == x37) by (nonlinear_arith)
        requires
            n == 13818364434197438864469338081,
            x36 == 1878424754868214010089219927,
            x37 == 7214738950431482892676211854,
    ;
    lemma_power_round(a, n, e36, x36, 0, 1, x37);
    let e37: nat = 2 * e36 + 0;
    let x38: int = 8378849114816027470545259614;
    assert((x37 * x37 * 1) % n == x38) by (nonlinear_arith)
        requires
            n == 13818364434197438864469338081,
            x37 == 7214738950431482892676211854,
            x38 == 8378849114816027470545259614,
    ;
    lemma_power_round(a, n, e37, x37, 0, 1, x38);
    let e38: nat = 2 * e37 + 0;
    let x39: int = 12903809095485579282294832217;
    assert((x38 * x38 * 1) % n == x39) by (nonlinear_arith)
        requires
            n == 13818364434197438864469338081,
            x38 == 8378849114816027470545259614,
            x39 == 12903809095485579282294832217,
    ;
    lemma_power_round(a, n, e38, x38, 0, 1, x39);
    let e39: nat = 2 * e38 + 0;
    let x40: int = 10620567016425678254099014230;
    assert((x39 * x39 * a) % n == x40) by (nonlinear_arith)
        requires
            n == 13818364434197438864469338081,
            a == 7935281130018080704632618576,
            x39 == 12903809095485579282294832217,
            x40 == 10620567016425678254099014230,
    ;
    lemma_power_round(a, n, e39, x39, 1, a, x40);
    let e40: nat = 2 * e39 + 1;
    let x41: int = 2552326705477704630885573290;
    assert((x40 * x40 * 1) % n == x41) by (nonlinear_arith)
        requires
            n == 13818364434197438864469338081,
            x40 == 10620567016425678254099014230,
            x41 == 2552326705477704630885573290,
    ;
    lemma_power_round(a, n, e40, x40, 0, 1, x41);
    let e41: nat = 2 * e40 + 0;
    let x42: int = 93879213923488799007543223;
    assert((x41 * x41 * 1) % n == x42) by (nonlinear_arith)
        requires
            n == 13818364434197438864469338081,
            x41 == 2552326705477704630885573290,
            x42 == 93879213923488799007543223,
    ;
    lemma_power_round(a, n, e41, x41, 0, 1, x42);
    let e42: nat = 2 * e41 + 0;
    let x43: int = 5861745727356882287855134263;
    assert((x42 * x42 * a) % n == x43) by (nonlinear_arith)
        requires
            n == 13818364434197438864469338081,
            a == 7935281130018080704632618576,
            x42 == 93879213923488799007543223,
            x43 == 5861745727356882287855134263,
    ;
    lemma_power_round(a, n, e42, x42, 1, a, x43);
    let e43: nat = 2 * e42 + 1;
    let x44: int = 5715998367833451257024545553;
    assert((x43 * x43 * a) % n == x44) by (nonlinear_arith)
        requires
            n == 13818364434197438864469338081,
            a == 7935281130018080704632618576,
            x43 == 5861745727356882287855134263,
            x44 == 5715998367833451257024545553,
    ;
    lemma_power_round(a, n, e43, x43, 1, a, x44);
    let e44: nat = 2 * e43 + 1;
    let x45: int = 9315829236175563345934962545;
    assert((x44 * x44 * 1) % n == x45) by (nonlinear_arith)
        requires
            n == 13818364434197438864469338081,
            x44 == 5715998367833451257024545553,
            x45 == 9315829236175563345934962545,
    ;
    lemma_power_round(a, n, e44, x44, 0, 1, x45);
    let e45: nat = 2 * e44 + 0;
    let x46: int = 6932638189365131593329946845;
    assert((x45 * x45 * 1) % n == x46) by (nonlinear_arith)
        requires
            n == 13818364434197438864469338081,
            x45 == 9315829236175563345934962545,
            x46 == 6932638189365131593329946845,
    ;
    lemma_power_round(a, n, e45, x45, 0, 1, x46);
    let e46: nat = 2 * e45 + 0;
    let x47: int = 3083762274448825405925025177;
    assert((x46 * x46 * a) % n == x47) by (nonlinear_arith)
        requires
            n == 13818364434197438864469338081,
            a == 7935281130018080704632618576,
            x46 == 6932638189365131593329946845,
            x47 == 3083762274448825405925025177,
    ;
    lemma_power_round(a, n, e46, x46, 1, a, x47);
    let e47: nat = 2 * e46 + 1;
    let x48: int = 3124199797785987746960266099;
    assert((x47 * x47 * a) % n == x48) by (nonlinear_arith)
        requires
            n == 13818364434197438864469338081,
            a == 7935281130018080704632618576,
            x47 == 3083762274448825405925025177,
            x48 == 3124199797785987746960266099,
    ;
    lemma_power_round(a, n, e47, x47, 1, a, x48);
    let e48: nat = 2 * e47 + 1;
    let x49: int = 3057894684126085342478126306;
    assert((x48 * x48 * a) % n == x49) by (nonlinear_arith)
        requires
            n == 13818364434197438864469338081,
            a == 7935281130018080704632618576,
            x48 == 3124199797785987746960266099,
            x49 == 3057894684126085342478126306,
    ;
    lemma_power_round(a, n, e48, x48, 1, a, x49);
    let e49: nat = 2 * e48 + 1;
    let x50: int = 3859583265371772333019919582;
    assert((x49 * x49 * 1) % n == x50) by (nonlinear_arith)
        requires
            n == 13818364434197438864469338081,
            x49 == 3057894684126085342478126306,
            x50 == 3859583265371772333019919582,
    ;
    lemma_power_round(a, n, e49, x49, 0, 1, x50);
    let e50: nat = 2 * e49 + 0;
    let x51: int = 6246147404744190337875264163;
    assert((x50 * x50 * 1) % n == x51) by (nonlinear_arith)
        requires
            n == 13818364434197438864469338081,
            x50 == 3859583265371772333019919582,
            x51 == 6246147404744190337875264163,
    ;
    lemma_power_round(a, n, e50, x50, 0, 1, x51);
    let e51: nat = 2 * e50 + 0;
    let x52: int = 7624688656232388209735739235;
    assert((x51 * x51 * 1) % n == x52) by (nonlinear_arith)
        requires
            n == 13818364434197438864469338081,
            x51 == 6246147404744190337875264163,
            x52 == 7624688656232388209735739235,
    ;
    lemma_power_round(a, n, e51, x51, 0, 1, x52);
    let e52: nat = 2 * e51 + 0;
    let x53: int = 5751857602344423908298335459;
    assert((x52 * x52 * a) % n == x53) by (nonlinear_arith)
        requires
            n == 13818364434197438864469338081,
            a == 7935281130018080704632618576,
            x52 == 7624688656232388209735739235,
            x53 == 5751857602344423908298335459,
    ;
    lemma_power_round(a, n, e52, x52, 1, a, x53);
    let e53: nat = 2 * e52 + 1;
    let x54: int = 9228697715789270620358885072;
    assert((x53 * x53 * a) % n == x54) by (nonlinear_arith)
        requires
            n == 13818364434197438864469338081,
            a == 7935281130018080704632618576,
            x53 == 5751857602344423908298335459,
            x54 == 9228697715789270620358885072,
    ;
    lemma_power_round(a, n, e53, x53, 1, a, x54);
    let e54: nat = 2 * e53 + 1;
    let x55: int = 7213377970993644489293477400;
    assert((x54 * x54 * a) % n == x55) by (nonlinear_arith)
        requires
            n == 13818364434197438864469338081,
            a == 7935281130018080704632618576,
            x54 == 9228697715789270620358885072,
            x55 == 7213377970993644489293477400,
    ;
    lemma_power_round(a, n, e54, x54, 1, a, x55);
    let e55: nat = 2 * e54 + 1;
    let x56: int = 1;
    assert((x55 * x55 * a) % n == x56) by (nonlinear_arith)
        requires
            n == 13818364434197438864469338081,
            a == 7935281130018080704632618576,
            x55 == 7213377970993644489293477400,
            x56 == 1,
    ;
    lemma_power_round(a, n, e55, x55, 1, a, x56);
    let e56: nat = 2 * e55 + 1;
    assert(e56 == 65865678001877903);
}

/// 13818364434197438864469338081 is prime: with base 2, by the prime divisor
/// 65865678001877903 of its predecessor.
proof fn lemma_prime_13818364434197438864469338081()
    ensures
        is_prime(13818364434197438864469338081int),
{
    let n: int = 13818364434197438864469338081;
    let a: int = 2;
    lemma_13818364434197438864469338081_power_stem();
    lemma_13818364434197438864469338081_power_full();
    lemma_power_of_power(a, n, 209796131360nat, 7935281130018080704632618576, 65865678001877903nat, 1);
    assert(pow(a, (n - 1) as nat) % n == 1);
    lemma_order_multiple_of_one(a, n);
    lemma_prime_65865678001877903();
    assert((n - 1) % 65865678001877903int == 0 && (n - 1) / 65865678001877903int == 209796131360) by {
        assert(n - 1 == 209796131360int * 65865678001877903int + 0) by (nonlinear_arith)
            requires
                n == 13818364434197438864469338081,
        ;
        lemma_fundamental_div_mod_converse(n - 1, 65865678001877903, 209796131360, 0);
    }
    assert(pow(a, ((n - 1) / 65865678001877903int) as nat) % n == 7935281130018080704632618576);
    assert((-1536539538315178280123351415int) * (7935281130018080704632618576int - 1) + 882367320820141738818589946int * n == 1) by (nonlinear_arith)
        requires
            n == 13818364434197438864469338081,
    ;
    assert(1int % 65865678001877903int != 0) by {
        lemma_small_mod(1, 65865678001877903);
    }
    lemma_order_gains_prime(a, n, 1, 65865678001877903, 7935281130018080704632618576, (-1536539538315178280123351415int), 882367320820141738818589946int);
    assert(1int * 65865678001877903int == 65865678001877903) by (nonlinear_arith);
    assert(65865678001877903int * 65865678001877903int > n) by (nonlinear_arith)
        requires
            n == 13818364434197438864469338081,
    ;
    lemma_certified_prime(a, n, 65865678001877903);
}

/// Modulo 31: the base 3 to the predecessor divided by 5 and by 3.
proof fn lemma_31_power_stem()
    ensures
        pow(3int, 2nat) % 31int == 9,
{
    let n: int = 31;
    let a: int = 3;
    let x0: int = 1;
    let e0: nat = 0;
    lemma_pow0(a);
    lemma_small_mod(1, n as nat);
    let x1: int = 3;
    assert((x0 * x0 * a) % n == x1) by (nonlinear_arith)
        requires
            n == 31,
            a == 3,
            x0 == 1,
            x1 == 3,
    ;
    lemma_power_round(a, n, e0, x0, 1, a, x1);
    let e1: nat = 2 * e0 + 1;
    let x2: int = 9;
    assert((x1 * x1 * 1) % n == x2) by (nonlinear_arith)
        requires
            n == 31,
            x1 == 3,
            x2 == 9,
    ;
    lemma_power_round(a, n, e1, x1, 0, 1, x2);
    let e2: nat = 2 * e1 + 0;
    assert(e2 == 2);
}

/// Modulo 31: the first power to the 5, which is the base to the predecessor
/// divided by 3.
proof fn lemma_31_power_without_3()
    ensures
        pow(9int, 5nat) % 31int == 25,
{
    let n: int = 31;
    let a: int = 9;
    let x0: int = 1;
    let e0: nat = 0;
    lemma_pow0(a);
    lemma_small_mod(1, n as nat);
    let x1: int = 9;
    assert((x0 * x0 * a) % n == x1) by (nonlinear_arith)
        requires
            n == 31,
            a == 9,
            x0 == 1,
            x1 == 9,
    ;
    lemma_power_round(a, n, e0, x0, 1, a, x1);
    let e1: nat = 2 * e0 + 1;
    let x2: int = 19;
    assert((x1 * x1 * 1) % n == x2) by (nonlinear_arith)
        requires
            n == 31,
            x1 == 9,
            x2 == 19,
    ;
    lemma_power_round(a, n, e1, x1, 0, 1, x2);
    let e2: nat = 2 * e1 + 0;
    let x3: int = 25;
    assert((x2 * x2 * a) % n == x3) by (nonlinear_arith)
        requires
            n == 31,
            a == 9,
            x2 == 19,
            x3 == 25,
    ;
    lemma_power_round(a, n, e2, x2, 1, a, x3);
    let e3: nat = 2 * e2 + 1;
    assert(e3 == 5);
}

/// Modulo 31: the first power to the 3, which is the base to the predecessor
/// divided by 5.
proof fn lemma_31_power_without_5()
    ensures
        pow(9int, 3nat) % 31int == 16,
{
    let n: int = 31;
    let a: int = 9;
    let x0: int = 1;
    let e0: nat = 0;
    lemma_pow0(a);
    lemma_small_mod(1, n as nat);
    let x1: int = 9;
    assert((x0 * x0 * a) % n == x1) by (nonlinear_arith)
        requires
            n == 31,
            a == 9,
            x0 == 1,
            x1 == 9,
    ;
    lemma_power_round(a, n, e0, x0, 1, a, x1);
    let e1: nat = 2 * e0 + 1;
    let x2: int = 16;
    assert((x1 * x1 * a) % n == x2) by (nonlinear_arith)
        requires
            n == 31,
            a == 9,
            x1 == 9,
            x2 == 16,
    ;
    lemma_power_round(a, n, e1, x1, 1, a, x2);
    let e2: nat = 2 * e1 + 1;
    assert(e2 == 3);
}

/// Modulo 31: the power above to the 5, which is the base to the predecessor.
proof fn lemma_31_power_full()
    ensures
        pow(16int, 5nat) % 31int == 1,
{
    let n: int = 31;
    let a: int = 16;
    let x0: int = 1;
    let e0: nat = 0;
    lemma_pow0(a);
    lemma_small_mod(1, n as nat);
    let x1: int = 16;
    assert((x0 * x0 * a) % n == x1) by (nonlinear_arith)
        requires
            n == 31,
            a == 16,
            x0 == 1,
            x1 == 16,
    ;
    lemma_power_round(a, n, e0, x0, 1, a, x1);
    let e1: nat = 2 * e0 + 1;
    let x2: int = 8;
    assert((x1 * x1 * 1) % n == x2) by (nonlinear_arith)
        requires
            n == 31,
            x1 == 16,
            x2 == 8,
    ;
    lemma_power_round(a, n, e1, x1, 0, 1, x2);
    let e2: nat = 2 * e1 + 0;
    let x3: int = 1;
    assert((x2 * x2 * a) % n == x3) by (nonlinear_arith)
        requires
            n == 31,
            a == 16,
            x2 == 8,
            x3 == 1,
    ;
    lemma_power_round(a, n, e2, x2, 1, a, x3);
    let e3: nat = 2 * e2 + 1;
    assert(e3 == 5);
}

/// 31 is prime: with base 3, by the prime divisors 5 and 3 of its predecessor.
proof fn lemma_prime_31()
    ensures
        is_prime(31int),
{
    let n: int = 31;
    let a: int = 3;
    lemma_31_power_stem();
    lemma_31_power_without_3();
    lemma_31_power_without_5();
    lemma_31_power_full();
    lemma_power_of_power(a, n, 2nat, 9, 5nat, 25);
    lemma_power_of_power(a, n, 2nat, 9, 3nat, 16);
    assert(2nat * 3nat == 6) by (nonlinear_arith);
    assert(2nat * 5nat == 10) by (nonlinear_arith);
    lemma_power_of_power(a, n, 6nat, 16, 5nat, 1);
    assert(6nat * 5nat == 30) by (nonlinear_arith);
    assert(pow(a, (n - 1) as nat) % n == 1);
    lemma_order_multiple_of_one(a, n);
    lemma_prime_5();
    assert((n - 1) % 5int == 0 && (n - 1) / 5int == 6) by {
        assert(n - 1 == 6int * 5int + 0) by (nonlinear_arith)
            requires
                n == 31,
        ;
        lemma_fundamental_div_mod_converse(n - 1, 5, 6, 0);
    }
    assert(pow(a, ((n - 1) / 5int) as nat) % n == 16);
    assert((-2int) * (16int - 1) + 1int * n == 1) by (nonlinear_arith)
        requires
            n == 31,
    ;
    assert(1int % 5int != 0) by {
        lemma_small_mod(1, 5);
    }
    lemma_order_gains_prime(a, n, 1, 5, 16, (-2int), 1int);
    assert(1int * 5int == 5) by (nonlinear_arith);
    lemma_prime_3();
    assert((n - 1) % 3int == 0 && (n - 1) / 3int == 10) by {
        assert(n - 1 == 10int * 3int + 0) by (nonlinear_arith)
            requires
                n == 31,
        ;
        lemma_fundamental_div_mod_converse(n - 1, 3, 10, 0);
    }
    assert(pow(a, ((n - 1) / 3int) as nat) % n == 25);
    assert((-9int) * (25int - 1) + 7int * n == 1) by (nonlinear_arith)
        requires
            n == 31,
    ;
    assert(5int % 3int != 0) by (nonlinear_arith);
    lemma_order_gains_prime(a, n, 5, 3, 25, (-9int), 7int);
    assert(5int * 3int == 15) by (nonlinear_arith);
    assert(15int * 15int > n) by (nonlinear_arith)
        requires
            n == 31,
    ;
    lemma_certified_prime(a, n, 15);
}

/// Modulo 93001: the base 2 to the predecessor divided by 31 and by 5 and by
/// 3.
proof fn lemma_93001_power_stem()
    ensures
        pow(2int, 200nat) % 93001int == 32400,
{
    let n: int = 93001;
    let a: int = 2;
    let x0: int = 1;
    let e0: nat = 0;
    lemma_pow0(a);
    lemma_small_mod(1, n as nat);
    let x1: int = 2;
    assert((x0 * x0 * a) % n == x1) by (nonlinear_arith)
        requires
            n == 93001,
            a == 2,
            x0 == 1,
            x1 == 2,
    ;
    lemma_power_round(a, n, e0, x0, 1, a, x1);
    let e1: nat = 2 * e0 + 1;
    let x2: int = 8;
    assert((x1 * x1 * a) % n == x2) by (nonlinear_arith)
        requires
            n == 93001,
            a == 2,
            x1 == 2,
            x2 == 8,
    ;
    lemma_power_round(a, n, e1, x1, 1, a, x2);
    let e2: nat = 2 * e1 + 1;
    let x3: int = 64;
    assert((x2 * x2 * 1) % n == x3) by (nonlinear_arith)
        requires
            n == 93001,
            x2 == 8,
            x3 == 64,
    ;
    lemma_power_round(a, n, e2, x2, 0, 1, x3);
    let e3: nat = 2 * e2 + 0;
    let x4: int = 4096;
    assert((x3 * x3 * 1) % n == x4) by (nonlinear_arith)
        requires
            n == 93001,
            x3 == 64,
            x4 == 4096,
    ;
    lemma_power_round(a, n, e3, x3, 0, 1, x4);
    let e4: nat = 2 * e3 + 0;
    let x5: int = 74072;
    assert((x4 * x4 * a) % n == x5) by (nonlinear_arith)
        requires
            n == 93001,
            a == 2,
            x4 == 4096,
            x5 == 74072,
    ;
    lemma_power_round(a, n, e4, x4, 1, a, x5);
    let e5: nat = 2 * e4 + 1;
    let x6: int = 67189;
    assert((x5 * x5 * 1) % n == x6) by (nonlinear_arith)
        requires
            n == 93001,
            x5 == 74072,
            x6 == 67189,
    ;
    lemma_power_round(a, n, e5, x5, 0, 1, x6);
    let e6: nat = 2 * e5 + 0;
    let x7: int = 180;
    assert((x6 * x6 * 1) % n == x7) by (nonlinear_arith)
        requires
            n == 93001,
            x6 == 67189,
            x7 == 180,
    ;
    lemma_power_round(a, n, e6, x6, 0, 1, x7);
    let e7: nat = 2 * e6 + 0;
    let x8: int = 32400;
    assert((x7 * x7 * 1) % n == x8) by (nonlinear_arith)
        requires
            n == 93001,
            x7 == 180,
            x8 == 32400,
    ;
    lemma_power_round(a, n, e7, x7, 0, 1, x8);
    let e8: nat = 2 * e7 + 0;
    assert(e8 == 200);
}

/// Modulo 93001: the first power to the 31.
proof fn lemma_93001_power_stem_31()
    ensures
        pow(32400int, 31nat) % 93001int == 33622,
{
    let n: int = 93001;
    let a: int = 32400;
    let x0: int = 1;
    let e0: nat = 0;
    lemma_pow0(a);
    lemma_small_mod(1, n as nat);
    let x1: int = 32400;
    assert((x0 * x0 * a) % n == x1) by (nonlinear_arith)
        requires
            n == 93001,
            a == 32400,
            x0 == 1,
            x1 == 32400,
    ;
    lemma_power_round(a, n, e0, x0, 1, a, x1);
    let e1: nat = 2 * e0 + 1;
    let x2: int = 23094;
    assert((x1 * x1 * a) % n == x2) by (nonlinear_arith)
        requires
            n == 93001,
            a == 32400,
            x1 == 32400,
            x2 == 23094,
    ;
    lemma_power_round(a, n, e1, x1, 1, a, x2);
    let e2: nat = 2 * e1 + 1;
    let x3: int = 42120;
    assert((x2 * x2 * a) % n == x3) by (nonlinear_arith)
        requires
            n == 93001,
            a == 32400,
            x2 == 23094,
            x3 == 42120,
    ;
    lemma_power_round(a, n, e2, x2, 1, a, x3);
    let e3: nat = 2 * e2 + 1;
    let x4: int = 52049;
    assert((x3 * x3 * a) % n == x4) by (nonlinear_arith)
        requires
            n == 93001,
            a == 32400,
            x3 == 42120,
            x4 == 52049,
    ;
    lemma_power_round(a, n, e3, x3, 1, a, x4);
    let e4: nat = 2 * e3 + 1;
    let x5: int = 33622;
    assert((x4 * x4 * a) % n == x5) by (nonlinear_arith)
        requires
            n == 93001,
            a == 32400,
            x4 == 52049,
            x5 == 33622,
    ;
    lemma_power_round(a, n, e4, x4, 1, a, x5);
    let e5: nat = 2 * e4 + 1;
    assert(e5 == 31);
}

/// Modulo 93001: the first power to the 5.
proof fn lemma_93001_power_stem_5()
    ensures
        pow(32400int, 5nat) % 93001int == 26691,
{
    let n: int = 93001;
    let a: int = 32400;
    let x0: int = 1;
    let e0: nat = 0;
    lemma_pow0(a);
    lemma_small_mod(1, n as nat);
    let x1: int = 32400;
    assert((x0 * x0 * a) % n == x1) by (nonlinear_arith)
        requires
            n == 93001,
            a == 32400,
            x0 == 1,
            x1 == 32400,
    ;
    lemma_power_round(a, n, e0, x0, 1, a, x1);
    let e1: nat = 2 * e0 + 1;
    let x2: int = 57713;
    assert((x1 * x1 * 1) % n == x2) by (nonlinear_arith)
        requires
            n == 93001,
            x1 == 32400,
            x2 == 57713,
    ;
    lemma_power_round(a, n, e1, x1, 0, 1, x2);
    let e2: nat = 2 * e1 + 0;
    let x3: int = 26691;
    assert((x2 * x2 * a) % n == x3) by (nonlinear_arith)
        requires
            n == 93001,
            a == 32400,
            x2 == 57713,
            x3 == 26691,
    ;
    lemma_power_round(a, n, e2, x2, 1, a, x3);
    let e3: nat = 2 * e2 + 1;
    assert(e3 == 5);
}

/// Modulo 93001: the first power to the 31 times 5, which is the base to the
/// predecessor divided by 3.
proof fn lemma_93001_power_without_3()
    ensures
        pow(33622int, 5nat) % 93001int == 22786,
{
    let n: int = 93001;
    let a: int = 33622;
    let x0: int = 1;
    let e0: nat = 0;
    lemma_pow0(a);
    lemma_small_mod(1, n as nat);
    let x1: int = 33622;
    assert((x0 * x0 * a) % n == x1) by (nonlinear_arith)
        requires
            n == 93001,
            a == 33622,
            x0 == 1,
            x1 == 33622,
    ;
    lemma_power_round(a, n, e0, x0, 1, a, x1);
    let e1: nat = 2 * e0 + 1;
    let x2: int = 11729;
    assert((x1 * x1 * 1) % n == x2) by (nonlinear_arith)
        requires
            n == 93001,
            x1 == 33622,
            x2 == 11729,
    ;
    lemma_power_round(a, n, e1, x1, 0, 1, x2);
    let e2: nat = 2 * e1 + 0;
    let x3: int = 22786;
    assert((x2 * x2 * a) % n == x3) by (nonlinear_arith)
        requires
            n == 93001,
            a == 33622,
            x2 == 11729,
            x3 == 22786,
    ;
    lemma_power_round(a, n, e2, x2, 1, a, x3);
    let e3: nat = 2 * e2 + 1;
    assert(e3 == 5);
}

/// Modulo 93001: the first power to the 31 times 3, which is the base to the
/// predecessor divided by 5.
proof fn lemma_93001_power_without_5()
    ensures
        pow(33622int, 3nat) % 93001int == 28198,
{
    let n: int = 93001;
    let a: int = 33622;
    let x0: int = 1;
    let e0: nat = 0;
    lemma_pow0(a);
    lemma_small_mod(1, n as nat);
    let x1: int = 33622;
    assert((x0 * x0 * a) % n == x1) by (nonlinear_arith)
        requires
            n == 93001,
            a == 33622,
            x0 == 1,
            x1 == 33622,
    ;
    lemma_power_round(a, n, e0, x0, 1, a, x1);
    let e1: nat = 2 * e0 + 1;
    let x2: int = 28198;
    assert((x1 * x1 * a) % n == x2) by (nonlinear_arith)
        requires
            n == 93001,
            a == 33622,
            x1 == 33622,
            x2 == 28198,
    ;
    lemma_power_round(a, n, e1, x1, 1, a, x2);
    let e2: nat = 2 * e1 + 1;
    assert(e2 == 3);
}

/// Modulo 93001: the first power to the 5 times 3, which is the base to the
/// predecessor divided by 31.
proof fn lemma_93001_power_without_31()
    ensures
        pow(26691int, 3nat) % 93001int == 52049,
{
    let n: int = 93001;
    let a: int = 26691;
    let x0: int = 1;
    let e0: nat = 0;
    lemma_pow0(a);
    lemma_small_mod(1, n as nat);
    let x1: int = 26691;
    assert((x0 * x0 * a) % n == x1) by (nonlinear_arith)
        requires
            n == 93001,
            a == 26691,
            x0 == 1,
            x1 == 26691,
    ;
    lemma_power_round(a, n, e0, x0, 1, a, x1);
    let e1: nat = 2 * e0 + 1;
    let x2: int = 52049;
    assert((x1 * x1 * a) % n == x2) by (nonlinear_arith)
        requires
            n == 93001,
            a == 26691,
            x1 == 26691,
            x2 == 52049,
    ;
    lemma_power_round(a, n, e1, x1, 1, a, x2);
    let e2: nat = 2 * e1 + 1;
    assert(e2 == 3);
}

/// Modulo 93001: the power without 3 to the 3, which is the base to the
/// predecessor.
proof fn lemma_93001_power_full()
    ensures
        pow(22786int, 3nat) % 93001int == 1,
{
    let n: int = 93001;
    let a: int = 22786;
    let x0: int = 1;
    let e0: nat = 0;
    lemma_pow0(a);
    lemma_small_mod(1, n as nat);
    let x1: int = 22786;
    assert((x0 * x0 * a) % n == x1) by (nonlinear_arith)
        requires
            n == 93001,
            a == 22786,
            x0 == 1,
            x1 == 22786,
    ;
    lemma_power_round(a, n, e0, x0, 1, a, x1);
    let e1: nat = 2 * e0 + 1;
    let x2: int = 1;
    assert((x1 * x1 * a) % n == x2) by (nonlinear_arith)
        requires
            n == 93001,
            a == 22786,
            x1 == 22786,
            x2 == 1,
    ;
    lemma_power_round(a, n, e1, x1, 1, a, x2);
    let e2: nat = 2 * e1 + 1;
    assert(e2 == 3);
}

/// 93001 is prime: with base 2, by the prime divisors 31, 5 and 3 of its
/// predecessor.
proof fn lemma_prime_93001()
    ensures
        is_prime(93001int),
{
    let n: int = 93001;
    let a: int = 2;
    lemma_93001_power_stem();
    lemma_93001_power_stem_31();
    lemma_93001_power_stem_5();
    lemma_93001_power_without_3();
    lemma_93001_power_without_5();
    lemma_93001_power_without_31();
    lemma_93001_power_full();
    lemma_power_of_power(a, n, 200nat, 32400, 31nat, 33622);
    lemma_power_of_power(a, n, 200nat, 32400, 5nat, 26691);
    assert(200nat * 31nat == 6200) by (nonlinear_arith);
    assert(200nat * 5nat == 1000) by (nonlinear_arith);
    lemma_power_of_power(a, n, 6200nat, 33622, 5nat, 22786);
    lemma_power_of_power(a, n, 6200nat, 33622, 3nat, 28198);
    lemma_power_of_power(a, n, 1000nat, 26691, 3nat, 52049);
    assert(6200nat * 5nat == 31000) by (nonlinear_arith);
    assert(6200nat * 3nat == 18600) by (nonlinear_arith);
    assert(1000nat * 3nat == 3000) by (nonlinear_arith);
    lemma_power_of_power(a, n, 31000nat, 22786, 3nat, 1);
    assert(31000nat * 3nat == 93000) by (nonlinear_arith);
    assert(pow(a, (n - 1) as nat) % n == 1);
    lemma_order_multiple_of_one(a, n);
    lemma_prime_31();
    assert((n - 1) % 31int == 0 && (n - 1) / 31int == 3000) by {
        assert(n - 1 == 3000int * 31int + 0) by (nonlinear_arith)
            requires
                n == 93001,
        ;
        lemma_fundamental_div_mod_converse(n - 1, 31, 3000, 0);
    }
    assert(pow(a, ((n - 1) / 31int) as nat) % n == 52049);
    assert((-13596int) * (52049int - 1) + 7609int * n == 1) by (nonlinear_arith)
        requires
            n == 93001,
    ;
    assert(1int % 31int != 0) by {
        lemma_small_mod(1, 31);
    }
    lemma_order_gains_prime(a, n, 1, 31, 52049, (-13596int), 7609int);
    assert(1int * 31int == 31) by (nonlinear_arith);
    lemma_prime_5();
    assert((n - 1) % 5int == 0 && (n - 1) / 5int == 18600) by {
        assert(n - 1 == 18600int * 5int + 0) by (nonlinear_arith)
            requires
                n == 93001,
        ;
        lemma_fundamental_div_mod_converse(n - 1, 5, 18600, 0);
    }
    assert(pow(a, ((n - 1) / 5int) as nat) % n == 28198);
    assert(35420int * (28198int - 1) + (-10739int) * n == 1) by (nonlinear_arith)
        requires
            n == 93001,
    ;
    assert(31int % 5int != 0) by (nonlinear_arith);
    lemma_order_gains_prime(a, n, 31, 5, 28198, 35420int, (-10739int));
    assert(31int * 5int == 155) by (nonlinear_arith);
    lemma_prime_3();
    assert((n - 1) % 3int == 0 && (n - 1) / 3int == 31000) by {
        assert(n - 1 == 31000int * 3int + 0) by (nonlinear_arith)
            requires
                n == 93001,
        ;
        lemma_fundamental_div_mod_converse(n - 1, 3, 31000, 0);
    }
    assert(pow(a, ((n - 1) / 3int) as nat) % n == 22786);
    assert((-7596int) * (22786int - 1) + 1861int * n == 1) by (nonlinear_arith)
        requires
            n == 93001,
    ;
    assert(155int % 3int != 0) by (nonlinear_arith);
    lemma_order_gains_prime(a, n, 155, 3, 22786, (-7596int), 1861int);
    assert(155int * 3int == 465) by (nonlinear_arith);
    assert(465int * 465int > n) by (nonlinear_arith)
        requires
            n == 93001,
    ;
    lemma_certified_prime(a, n, 465);
}

/// 11 is prime.
proof fn lemma_prime_11()
    ensures
        is_prime(11),
{
    assert forall|d: int| 1 < d < 11 implies #[trigger] (11int % d) != 0 by {
        if d == 2 {
            assert(11int % 2 != 0);
        } else if d == 3 {
            assert(11int % 3 != 0);
        } else if d == 4 {
            assert(11int % 4 != 0);
        } else if d == 5 {
            assert(11int % 5 != 0);
        } else if d == 6 {
            assert(11int % 6 != 0);
        } else if d == 7 {
            assert(11int % 7 != 0);
        } else if d == 8 {
            assert(11int % 8 != 0);
        } else if d == 9 {
            assert(11int % 9 != 0);
        } else if d == 10 {
            assert(11int % 10 != 0);
        }
    }
}

/// Modulo 661: the base 2 to the predecessor divided by 11 and by 5.
proof fn lemma_661_power_stem()
    ensures
        pow(2int, 12nat) % 661int == 130,
{
    let n: int = 661;
    let a: int = 2;
    let x0: int = 1;
    let e0: nat = 0;
    lemma_pow0(a);
    lemma_small_mod(1, n as nat);
    let x1: int = 2;
    assert((x0 * x0 * a) % n == x1) by (nonlinear_arith)
        requires
            n == 661,
            a == 2,
            x0 == 1,
            x1 == 2,
    ;
    lemma_power_round(a, n, e0, x0, 1, a, x1);
    let e1: nat = 2 * e0 + 1;
    let x2: int = 8;
    assert((x1 * x1 * a) % n == x2) by (nonlinear_arith)
        requires
            n == 661,
            a == 2,
            x1 == 2,
            x2 == 8,
    ;
    lemma_power_round(a, n, e1, x1, 1, a, x2);
    let e2: nat = 2 * e1 + 1;
    let x3: int = 64;
    assert((x2 * x2 * 1) % n == x3) by (nonlinear_arith)
        requires
            n == 661,
            x2 == 8,
            x3 == 64,
    ;
    lemma_power_round(a, n, e2, x2, 0, 1, x3);
    let e3: nat = 2 * e2 + 0;
    let x4: int = 130;
    assert((x3 * x3 * 1) % n == x4) by (nonlinear_arith)
        requires
            n == 661,
            x3 == 64,
            x4 == 130,
    ;
    lemma_power_round(a, n, e3, x3, 0, 1, x4);
    let e4: nat = 2 * e3 + 0;
    assert(e4 == 12);
}

/// Modulo 661: the first power to the 11, which is the base to the predecessor
/// divided by 5.
proof fn lemma_661_power_without_5()
    ensures
        pow(130int, 11nat) % 661int == 247,
{
    let n: int = 661;
    let a: int = 130;
    let x0: int = 1;
    let e0: nat = 0;
    lemma_pow0(a);
    lemma_small_mod(1, n as nat);
    let x1: int = 130;
    assert((x0 * x0 * a) % n == x1) by (nonlinear_arith)
        requires
            n == 661,
            a == 130,
            x0 == 1,
            x1 == 130,
    ;
    lemma_power_round(a, n, e0, x0, 1, a, x1);
    let e1: nat = 2 * e0 + 1;
    let x2: int = 375;
    assert((x1 * x1 * 1) % n == x2) by (nonlinear_arith)
        requires
            n == 661,
            x1 == 130,
            x2 == 375,
    ;
    lemma_power_round(a, n, e1, x1, 0, 1, x2);
    let e2: nat = 2 * e1 + 0;
    let x3: int = 634;
    assert((x2 * x2 * a) % n == x3) by (nonlinear_arith)
        requires
            n == 661,
            a == 130,
            x2 == 375,
            x3 == 634,
    ;
    lemma_power_round(a, n, e2, x2, 1, a, x3);
    let e3: nat = 2 * e2 + 1;
    let x4: int = 247;
    assert((x3 * x3 * a) % n == x4) by (nonlinear_arith)
        requires
            n == 661,
            a == 130,
            x3 == 634,
            x4 == 247,
    ;
    lemma_power_round(a, n, e3, x3, 1, a, x4);
    let e4: nat = 2 * e3 + 1;
    assert(e4 == 11);
}

/// Modulo 661: the first power to the 5, which is the base to the predecessor
/// divided by 11.
proof fn lemma_661_power_without_11()
    ensures
        pow(130int, 5nat) % 661int == 634,
{
    let n: int = 661;
    let a: int = 130;
    let x0: int = 1;
    let e0: nat = 0;
    lemma_pow0(a);
    lemma_small_mod(1, n as nat);
    let x1: int = 130;
    assert((x0 * x0 * a) % n == x1) by (nonlinear_arith)
        requires
            n == 661,
            a == 130,
            x0 == 1,
            x1 == 130,
    ;
    lemma_power_round(a, n, e0, x0, 1, a, x1);
    let e1: nat = 2 * e0 + 1;
    let x2: int = 375;
    assert((x1 * x1 * 1) % n == x2) by (nonlinear_arith)
        requires
            n == 661,
            x1 == 130,
            x2 == 375,
    ;
    lemma_power_round(a, n, e1, x1, 0, 1, x2);
    let e2: nat = 2 * e1 + 0;
    let x3: int = 634;
    assert((x2 * x2 * a) % n == x3) by (nonlinear_arith)
        requires
            n == 661,
            a == 130,
            x2 == 375,
            x3 == 634,
    ;
    lemma_power_round(a, n, e2, x2, 1, a, x3);
    let e3: nat = 2 * e2 + 1;
    assert(e3 == 5);
}

/// Modulo 661: the power above to the 11, which is the base to the
/// predecessor.
proof fn lemma_661_power_full()
    ensures
        pow(634int, 11nat) % 661int == 1,
{
    let n: int = 661;
    let a: int = 634;
    let x0: int = 1;
    let e0: nat = 0;
    lemma_pow0(a);
    lemma_small_mod(1, n as nat);
    let x1: int = 634;
    assert((x0 * x0 * a) % n == x1) by (nonlinear_arith)
        requires
            n == 661,
            a == 634,
            x0 == 1,
            x1 == 634,
    ;
    lemma_power_round(a, n, e0, x0, 1, a, x1);
    let e1: nat = 2 * e0 + 1;
    let x2: int = 68;
    assert((x1 * x1 * 1) % n == x2) by (nonlinear_arith)
        requires
            n == 661,
            x1 == 634,
            x2 == 68,
    ;
    lemma_power_round(a, n, e1, x1, 0, 1, x2);
    let e2: nat = 2 * e1 + 0;
    let x3: int = 81;
    assert((x2 * x2 * a) % n == x3) by (nonlinear_arith)
        requires
            n == 661,
            a == 634,
            x2 == 68,
            x3 == 81,
    ;
    lemma_power_round(a, n, e2, x2, 1, a, x3);
    let e3: nat = 2 * e2 + 1;
    let x4: int = 1;
    assert((x3 * x3 * a) % n == x4) by (nonlinear_arith)
        requires
            n == 661,
            a == 634,
            x3 == 81,
            x4 == 1,
    ;
    lemma_power_round(a, n, e3, x3, 1, a, x4);
    let e4: nat = 2 * e3 + 1;
    assert(e4 == 11);
}

/// 661 is prime: with base 2, by the prime divisors 11 and 5 of its
/// predecessor.
proof fn lemma_prime_661()
    ensures
        is_prime(661int),
{
    let n: int = 661;
    let a: int = 2;
    lemma_661_power_stem();
    lemma_661_power_without_5();
    lemma_661_power_without_11();
    lemma_661_power_full();
    lemma_power_of_power(a, n, 12nat, 130, 11nat, 247);
    lemma_power_of_power(a, n, 12nat, 130, 5nat, 634);
    assert(12nat * 5nat == 60) by (nonlinear_arith);
    assert(12nat * 11nat == 132) by (nonlinear_arith);
    lemma_power_of_power(a, n, 60nat, 634, 11nat, 1);
    assert(60nat * 11nat == 660) by (nonlinear_arith);
    assert(pow(a, (n - 1) as nat) % n == 1);
    lemma_order_multiple_of_one(a, n);
    lemma_prime_11();
    assert((n - 1) % 11int == 0 && (n - 1) / 11int == 60) by {
        assert(n - 1 == 60int * 11int + 0) by (nonlinear_arith)
            requires
                n == 661,
        ;
        lemma_fundamental_div_mod_converse(n - 1, 11, 60, 0);
    }
    assert(pow(a, ((n - 1) / 11int) as nat) % n == 634);
    assert(118int * (634int - 1) + (-113int) * n == 1) by (nonlinear_arith)
        requires
            n == 661,
    ;
    assert(1int % 11int != 0) by {
        lemma_small_mod(1, 11);
    }
    lemma_order_gains_prime(a, n, 1, 11, 634, 118int, (-113int));
    assert(1int * 11int == 11) by (nonlinear_arith);
    lemma_prime_5();
    assert((n - 1) % 5int == 0 && (n - 1) / 5int == 132) by {
        assert(n - 1 == 132int * 5int + 0) by (nonlinear_arith)
            requires
                n == 661,
        ;
        lemma_fundamental_div_mod_converse(n - 1, 5, 132, 0);
    }
    assert(pow(a, ((n - 1) / 5int) as nat) % n == 247);
    assert((-309int) * (247int - 1) + 115int * n == 1) by (nonlinear_arith)
        requires
            n == 661,
    ;
    assert(11int % 5int != 0) by (nonlinear_arith);
    lemma_order_gains_prime(a, n, 11, 5, 247, (-309int), 115int);
    assert(11int * 5int == 55) by (nonlinear_arith);
    assert(55int * 55int > n) by (nonlinear_arith)
        requires
            n == 661,
    ;
    lemma_certified_prime(a, n, 55);
}

/// Modulo 12048837557: the base 2 to the predecessor divided by 93001 and by
/// 661.
proof fn lemma_12048837557_power_stem()
    ensures
        pow(2int, 196nat) % 12048837557int == 9314271357,
{
    let n: int = 12048837557;
    let a: int = 2;
    let x0: int = 1;
    let e0: nat = 0;
    lemma_pow0(a);
    lemma_small_mod(1, n as nat);
    let x1: int = 2;
    assert((x0 * x0 * a) % n == x1) by (nonlinear_arith)
        requires
            n == 12048837557,
            a == 2,
            x0 == 1,
            x1 == 2,
    ;
    lemma_power_round(a, n, e0, x0, 1, a, x1);
    let e1: nat = 2 * e0 + 1;
    let x2: int = 8;
    assert((x1 * x1 * a) % n == x2) by (nonlinear_arith)
        requires
            n == 12048837557,
            a == 2,
            x1 == 2,
            x2 == 8,
    ;
    lemma_power_round(a, n, e1, x1, 1, a, x2);
    let e2: nat = 2 * e1 + 1;
    let x3: int = 64;
    assert((x2 * x2 * 1) % n == x3) by (nonlinear_arith)
        requires
            n == 12048837557,
            x2 == 8,
            x3 == 64,
    ;
    lemma_power_round(a, n, e2, x2, 0, 1, x3);
    let e3: nat = 2 * e2 + 0;
    let x4: int = 4096;
    assert((x3 * x3 * 1) % n == x4) by (nonlinear_arith)
        requires
            n == 12048837557,
            x3 == 64,
            x4 == 4096,
    ;
    lemma_power_round(a, n, e3, x3, 0, 1, x4);
    let e4: nat = 2 * e3 + 0;
    let x5: int = 16777216;
    assert((x4 * x4 * 1) % n == x5) by (nonlinear_arith)
        requires
            n == 12048837557,
            x4 == 4096,
            x5 == 16777216,
    ;
    lemma_power_round(a, n, e4, x4, 0, 1, x5);
    let e5: nat = 2 * e4 + 0;
    let x6: int = 4165083158;
    assert((x5 * x5 * a) % n == x6) by (nonlinear_arith)
        requires
            n == 12048837557,
            a == 2,
            x5 == 16777216,
            x6 == 4165083158,
    ;
    lemma_power_round(a, n, e5, x5, 1, a, x6);
    let e6: nat = 2 * e5 + 1;
    let x7: int = 821496352;
    assert((x6 * x6 * 1) % n == x7) by (nonlinear_arith)
        requires
            n == 12048837557,
            x6 == 4165083158,
            x7 == 821496352,
    ;
    lemma_power_round(a, n, e6, x6, 0, 1, x7);
    let e7: nat = 2 * e6 + 0;
    let x8: int = 9314271357;
    assert((x7 * x7 * 1) % n == x8) by (nonlinear_arith)
        requires
            n == 12048837557,
            x7 == 821496352,
            x8 == 9314271357,
    ;
    lemma_power_round(a, n, e7, x7, 0, 1, x8);
    let e8: nat = 2 * e7 + 0;
    assert(e8 == 196);
}

/// Modulo 12048837557: the first power to the 93001, which is the base to the
/// predecessor divided by 661.
proof fn lemma_12048837557_power_without_661()
    ensures
        pow(9314271357int, 93001nat) % 12048837557int == 8877273464,
{
    let n: int = 12048837557;
    let a: int = 9314271357;
    let x0: int = 1;
    let e0: nat = 0;
    lemma_pow0(a);
    lemma_small_mod(1, n as nat);
    let x1: int = 9314271357;
    assert((x0 * x0 * a) % n == x1) by (nonlinear_arith)
        requires
            n == 12048837557,
            a == 9314271357,
            x0 == 1,
            x1 == 9314271357,
    ;
    lemma_power_round(a, n, e0, x0, 1, a, x1);
    let e1: nat = 2 * e0 + 1;
    let x2: int = 9168089018;
    assert((x1 * x1 * 1) % n == x2) by (nonlinear_arith)
        requires
            n == 12048837557,
            x1 == 9314271357,
            x2 == 9168089018,
    ;
    lemma_power_round(a, n, e1, x1, 0, 1, x2);
    let e2: nat = 2 * e1 + 0;
    let x3: int = 4061668814;
    assert((x2 * x2 * a) % n == x3) by (nonlinear_arith)
        requires
            n == 12048837557,
            a == 9314271357,
            x2 == 9168089018,
            x3 == 4061668814,
    ;
    lemma_power_round(a, n, e2, x2, 1, a, x3);
    let e3: nat = 2 * e2 + 1;
    let x4: int = 7562296142;
    assert((x3 * x3 * a) % n == x4) by (nonlinear_arith)
        requires
            n == 12048837557,
            a == 9314271357,
            x3 == 4061668814,
            x4 == 7562296142,
    ;
    lemma_power_round(a, n, e3, x3, 1, a, x4);
    let e4: nat = 2 * e3 + 1;
    let x5: int = 234144577;
    assert((x4 * x4 * 1) % n == x5) by (nonlinear_arith)
        requires
            n == 12048837557,
            x4 == 7562296142,
            x5 == 234144577,
    ;
    lemma_power_round(a, n, e4, x4, 0, 1, x5);
    let e5: nat = 2 * e4 + 0;
    let x6: int = 2768983253;
    assert((x5 * x5 * a) % n == x6) by (nonlinear_arith)
        requires
            n == 12048837557,
            a == 9314271357,
            x5 == 234144577,
            x6 == 2768983253,
    ;
    lemma_power_round(a, n, e5, x5, 1, a, x6);
    let e6: nat = 2 * e5 + 1;
    let x7: int = 6628019596;
    assert((x6 * x6 * 1) % n == x7) by (nonlinear_arith)
        requires
            n == 12048837557,
            x6 == 2768983253,
            x7 == 6628019596,
    ;
    lemma_power_round(a, n, e6, x6, 0, 1, x7);
    let e7: nat = 2 * e6 + 0;
    let x8: int = 4241546384;
    assert((x7 * x7 * a) % n == x8) by (nonlinear_arith)
        requires
            n == 12048837557,
            a == 9314271357,
            x7 == 6628019596,
            x8 == 4241546384,
    ;
    lemma_power_round(a, n, e7, x7, 1, a, x8);
    let e8: nat = 2 * e7 + 1;
    let x9: int = 347048005;
    assert((x8 * x8 * a) % n == x9) by (nonlinear_arith)
        requires
            n == 12048837557,
            a == 9314271357,
            x8 == 4241546384,
            x9 == 347048005,
    ;
    lemma_power_round(a, n, e8, x8, 1, a, x9);
    let e9: nat = 2 * e8 + 1;
    let x10: int = 4910460436;
    assert((x9 * x9 * 1) % n == x10) by (nonlinear_arith)
        requires
            n == 12048837557,
            x9 == 347048005,
            x10 == 4910460436,
    ;
    lemma_power_round(a, n, e9, x9, 0, 1, x10);
    let e10: nat = 2 * e9 + 0;
    let x11: int = 10782540533;
    assert((x10 * x10 * a) % n == x11) by (nonlinear_arith)
        requires
            n == 12048837557,
            a == 9314271357,
            x10 == 4910460436,
            x11 == 10782540533,
    ;
    lemma_power_round(a, n, e10, x10, 1, a, x11);
    let e11: nat = 2 * e10 + 1;
    let x12: int = 4918240498;
    assert((x11 * x11 * 1) % n == x12) by (nonlinear_arith)
        requires
            n == 12048837557,
            x11 == 10782540533,
            x12 == 4918240498,
    ;
    lemma_power_round(a, n, e11, x11, 0, 1, x12);
    let e12: nat = 2 * e11 + 0;
    let x13: int = 11866516789;
    assert((x12 * x12 * 1) % n == x13) by (nonlinear_arith)
        requires
            n == 12048837557,
            x12 == 4918240498,
            x13 == 11866516789,
    ;
    lemma_power_round(a, n, e12, x12, 0, 1, x13);
    let e13: nat = 2 * e12 + 0;
    let x14: int = 332226191;
    assert((x13 * x13 * a) % n == x14) by (nonlinear_arith)
        requires
            n == 12048837557,
            a == 9314271357,
            x13 == 11866516789,
            x14 == 332226191,
    ;
    lemma_power_round(a, n, e13, x13, 1, a, x14);
    let e14: nat = 2 * e13 + 1;
    let x15: int = 10078003434;
    assert((x14 * x14 * 1) % n == x15) by (nonlinear_arith)
        requires
            n == 12048837557,
            x14 == 332226191,
            x15 == 10078003434,
    ;
    lemma_power_round(a, n, e14, x14, 0, 1, x15);
    let e15: nat = 2 * e14 + 0;
    let x16: int = 3456573169;
    assert((x15 * x15 * 1) % n == x16) by (nonlinear_arith)
        requires
            n == 12048837557,
            x15 == 10078003434,
            x16 == 3456573169,
    ;
    lemma_power_round(a, n, e15, x15, 0, 1, x16);
    let e16: nat = 2 * e15 + 0;
    let x17: int = 8877273464;
    assert((x16 * x16 * a) % n == x17) by (nonlinear_arith)
        requires
            n == 12048837557,
            a == 9314271357,
            x16 == 3456573169,
            x17 == 8877273464,
    ;
    lemma_power_round(a, n, e16, x16, 1, a, x17);
    let e17: nat = 2 * e16 + 1;
    assert(e17 == 93001);
}

/// Modulo 12048837557: the first power to the 661, which is the base to the
/// predecessor divided by 93001.
proof fn lemma_12048837557_power_without_93001()
    ensures
        pow(9314271357int, 661nat) % 12048837557int == 4746995210,
{
    let n: int = 12048837557;
    let a: int = 9314271357;
    let x0: int = 1;
    let e0: nat = 0;
    lemma_pow0(a);
    lemma_small_mod(1, n as nat);
    let x1: int = 9314271357;
    assert((x0 * x0 * a) % n == x1) by (nonlinear_arith)
        requires
            n == 12048837557,
            a == 9314271357,
            x0 == 1,
            x1 == 9314271357,
    ;
    lemma_power_round(a, n, e0, x0, 1, a, x1);
    let e1: nat = 2 * e0 + 1;
    let x2: int = 9168089018;
    assert((x1 * x1 * 1) % n == x2) by (nonlinear_arith)
        requires
            n == 12048837557,
            x1 == 9314271357,
            x2 == 9168089018,
    ;
    lemma_power_round(a, n, e1, x1, 0, 1, x2);
    let e2: nat = 2 * e1 + 0;
    let x3: int = 4061668814;
    assert((x2 * x2 * a) % n == x3) by (nonlinear_arith)
        requires
            n == 12048837557,
            a == 9314271357,
            x2 == 9168089018,
            x3 == 4061668814,
    ;
    lemma_power_round(a, n, e2, x2, 1, a, x3);
    let e3: nat = 2 * e2 + 1;
    let x4: int = 9046522363;
    assert((x3 * x3 * 1) % n == x4) by (nonlinear_arith)
        requires
            n == 12048837557,
            x3 == 4061668814,
            x4 == 9046522363,
    ;
    lemma_power_round(a, n, e3, x3, 0, 1, x4);
    let e4: nat = 2 * e3 + 0;
    let x5: int = 6578070318;
    assert((x4 * x4 * 1) % n == x5) by (nonlinear_arith)
        requires
            n == 12048837557,
            x4 == 9046522363,
            x5 == 6578070318,
    ;
    lemma_power_round(a, n, e4, x4, 0, 1, x5);
    let e5: nat = 2 * e4 + 0;
    let x6: int = 5082060440;
    assert((x5 * x5 * a) % n == x6) by (nonlinear_arith)
        requires
            n == 12048837557,
            a == 9314271357,
            x5 == 6578070318,
            x6 == 5082060440,
    ;
    lemma_power_round(a, n, e5, x5, 1, a, x6);
    let e6: nat = 2 * e5 + 1;
    let x7: int = 1427382409;
    assert((x6 * x6 * 1) % n == x7) by (nonlinear_arith)
        requires
            n == 12048837557,
            x6 == 5082060440,
            x7 == 1427382409,
    ;
    lemma_power_round(a, n, e6, x6, 0, 1, x7);
    let e7: nat = 2 * e6 + 0;
    let x8: int = 8433024288;
    assert((x7 * x7 * a) % n == x8) by (nonlinear_arith)
        requires
            n == 12048837557,
            a == 9314271357,
            x7 == 1427382409,
            x8 == 8433024288,
    ;
    lemma_power_round(a, n, e7, x7, 1, a, x8);
    let e8: nat = 2 * e7 + 1;
    let x9: int = 4031795360;
    assert((x8 * x8 * 1) % n == x9) by (nonlinear_arith)
        requires
            n == 12048837557,
            x8 == 8433024288,
            x9 == 4031795360,
    ;
    lemma_power_round(a, n, e8, x8, 0, 1, x9);
    let e9: nat = 2 * e8 + 0;
    let x10: int = 4746995210;
    assert((x9 * x9 * a) % n == x10) by (nonlinear_arith)
        requires
            n == 12048837557,
            a == 9314271357,
            x9 == 4031795360,
            x10 == 4746995210,
    ;
    lemma_power_round(a, n, e9, x9, 1, a, x10);
    let e10: nat = 2 * e9 + 1;
    assert(e10 == 661);
}

/// Modulo 12048837557: the power above to the 93001, which is the base to the
/// predecessor.
proof fn lemma_12048837557_power_full()
    ensures
        pow(4746995210int, 93001nat) % 12048837557int == 1,
{
    let n: int = 12048837557;
    let a: int = 4746995210;
    let x0: int = 1;
    let e0: nat = 0;
    lemma_pow0(a);
    lemma_small_mod(1, n as nat);
    let x1: int = 4746995210;
    assert((x0 * x0 * a) % n == x1) by (nonlinear_arith)
        requires
            n == 12048837557,
            a == 4746995210,
            x0 == 1,
            x1 == 4746995210,
    ;
    lemma_power_round(a, n, e0, x0, 1, a, x1);
    let e1: nat = 2 * e0 + 1;
    let x2: int = 6461955269;
    assert((x1 * x1 * 1) % n == x2) by (nonlinear_arith)
        requires
            n == 12048837557,
            x1 == 4746995210,
            x2 == 6461955269,
    ;
    lemma_power_round(a, n, e1, x1, 0, 1, x2);
    let e2: nat = 2 * e1 + 0;
    let x3: int = 2981714033;
    assert((x2 * x2 * a) % n == x3) by (nonlinear_arith)
        requires
            n == 12048837557,
            a == 4746995210,
            x2 == 6461955269,
            x3 == 2981714033,
    ;
    lemma_power_round(a, n, e2, x2, 1, a, x3);
    let e3: nat = 2 * e2 + 1;
    let x4: int = 9681621874;
    assert((x3 * x3 * a) % n == x4) by (nonlinear_arith)
        requires
            n == 12048837557,
            a == 4746995210,
            x3 == 2981714033,
            x4 == 9681621874,
    ;
    lemma_power_round(a, n, e3, x3, 1, a, x4);
    let e4: nat = 2 * e3 + 1;
    let x5: int = 6023560310;
    assert((x4 * x4 * 1) % n == x5) by (nonlinear_arith)
        requires
            n == 12048837557,
            x4 == 9681621874,
            x5 == 6023560310,
    ;
    lemma_power_round(a, n, e4, x4, 0, 1, x5);
    let e5: nat = 2 * e4 + 0;
    let x6: int = 9174352505;
    assert((x5 * x5 * a) % n == x6) by (nonlinear_arith)
        requires
            n == 12048837557,
            a == 4746995210,
            x5 == 6023560310,
            x6 == 9174352505,
    ;
    lemma_power_round(a, n, e5, x5, 1, a, x6);
    let e6: nat = 2 * e5 + 1;
    let x7: int = 10390882295;
    assert((x6 * x6 * 1) % n == x7) by (nonlinear_arith)
        requires
            n == 12048837557,
            x6 == 9174352505,
            x7 == 10390882295,
    ;
    lemma_power_round(a, n, e6, x6, 0, 1, x7);
    let e7: nat = 2 * e6 + 0;
    let x8: int = 11653420293;
    assert((x7 * x7 * a) % n == x8) by (nonlinear_arith)
        requires
            n == 12048837557,
            a == 4746995210,
            x7 == 10390882295,
            x8 == 11653420293,
    ;
    lemma_power_round(a, n, e7, x7, 1, a, x8);
    let e8: nat = 2 * e7 + 1;
    let x9: int = 6776742415;
    assert((x8 * x8 * a) % n == x9) by (nonlinear_arith)
        requires
            n == 12048837557,
            a == 4746995210,
            x8 == 11653420293,
            x9 == 6776742415,
    ;
    lemma_power_round(a, n, e8, x8, 1, a, x9);
    let e9: nat = 2 * e8 + 1;
    let x10: int = 8165790361;
    assert((x9 * x9 * 1) % n == x10) by (nonlinear_arith)
        requires
            n == 12048837557,
            x9 == 6776742415,
            x10 == 8165790361,
    ;
    lemma_power_round(a, n, e9, x9, 0, 1, x10);
    let e10: nat = 2 * e9 + 0;
    let x11: int = 5748487736;
    assert((x10 * x10 * a) % n == x11) by (nonlinear_arith)
        requires
            n == 12048837557,
            a == 4746995210,
            x10 == 8165790361,
            x11 == 5748487736,
    ;
    lemma_power_round(a, n, e10, x10, 1, a, x11);
    let e11: nat = 2 * e10 + 1;
    let x12: int = 7308113147;
    assert((x11 * x11 * 1) % n == x12) by (nonlinear_arith)
        requires
            n == 12048837557,
            x11 == 5748487736,
            x12 == 7308113147,
    ;
    lemma_power_round(a, n, e11, x11, 0, 1, x12);
    let e12: nat = 2 * e11 + 0;
    let x13: int = 7776442859;
    assert((x12 * x12 * 1) % n == x13) by (nonlinear_arith)
        requires
            n == 12048837557,
            x12 == 7308113147,
            x13 == 7776442859,
    ;
    lemma_power_round(a, n, e12, x12, 0, 1, x13);
    let e13: nat = 2 * e12 + 0;
    let x14: int = 538682138;
    assert((x13 * x13 * a) % n == x14) by (nonlinear_arith)
        requires
            n == 12048837557,
            a == 4746995210,
            x13 == 7776442859,
            x14 == 538682138,
    ;
    lemma_power_round(a, n, e13, x13, 1, a, x14);
    let e14: nat = 2 * e13 + 1;
    let x15: int = 1421815290;
    assert((x14 * x14 * 1) % n == x15) by (nonlinear_arith)
        requires
            n == 12048837557,
            x14 == 538682138,
            x15 == 1421815290,
    ;
    lemma_power_round(a, n, e14, x14, 0, 1, x15);
    let e15: nat = 2 * e14 + 0;
    let x16: int = 6322326642;
    assert((x15 * x15 * 1) % n == x16) by (nonlinear_arith)
        requires
            n == 12048837557,
            x15 == 1421815290,
            x16 == 6322326642,
    ;
    lemma_power_round(a, n, e15, x15, 0, 1, x16);
    let e16: nat = 2 * e15 + 0;
    let x17: int = 1;
    assert((x16 * x16 * a) % n == x17) by (nonlinear_arith)
        requires
            n == 12048837557,
            a == 4746995210,
            x16 == 6322326642,
            x17 == 1,
    ;
    lemma_power_round(a, n, e16, x16, 1, a, x17);
    let e17: nat = 2 * e16 + 1;
    assert(e17 == 93001);
}

/// 12048837557 is prime: with base 2, by the prime divisors 93001 and 661 of
/// its predecessor.
proof fn lemma_prime_12048837557()
    ensures
        is_prime(12048837557int),
{
    let n: int = 12048837557;
    let a: int = 2;
    lemma_12048837557_power_stem();
    lemma_12048837557_power_without_661();
    lemma_12048837557_power_without_93001();
    lemma_12048837557_power_full();
    lemma_power_of_power(a, n, 196nat, 9314271357, 93001nat, 8877273464);
    lemma_power_of_power(a, n, 196nat, 9314271357, 661nat, 4746995210);
    assert(196nat * 661nat == 129556) by (nonlinear_arith);
    assert(196nat * 93001nat == 18228196) by (nonlinear_arith);
    lemma_power_of_power(a, n, 129556nat, 4746995210, 93001nat, 1);
    assert(129556nat * 93001nat == 12048837556) by (nonlinear_arith);
    assert(pow(a, (n - 1) as nat) % n == 1);
    lemma_order_multiple_of_one(a, n);
    lemma_prime_93001();
    assert((n - 1) % 93001int == 0 && (n - 1) / 93001int == 129556) by {
        assert(n - 1 == 129556int * 93001int + 0) by (nonlinear_arith)
            requires
                n == 12048837557,
        ;
        lemma_fundamental_div_mod_converse(n - 1, 93001, 129556, 0);
    }
    assert(pow(a, ((n - 1) / 93001int) as nat) % n == 4746995210);
    assert((-1744493148int) * (4746995210int - 1) + 687294569int * n == 1) by (nonlinear_arith)
        requires
            n == 12048837557,
    ;
    assert(1int % 93001int != 0) by {
        lemma_small_mod(1, 93001);
    }
    lemma_order_gains_prime(a, n, 1, 93001, 4746995210, (-1744493148int), 687294569int);
    assert(1int * 93001int == 93001) by (nonlinear_arith);
    lemma_prime_661();
    assert((n - 1) % 661int == 0 && (n - 1) / 661int == 18228196) by {
        assert(n - 1 == 18228196int * 661int + 0) by (nonlinear_arith)
            requires
                n == 12048837557,
        ;
        lemma_fundamental_div_mod_converse(n - 1, 661, 18228196, 0);
    }
    assert(pow(a, ((n - 1) / 661int) as nat) % n == 8877273464);
    assert(1826643224int * (8877273464int - 1) + (-1345823723int) * n == 1) by (nonlinear_arith)
        requires
            n == 12048837557,
    ;
    assert(93001int % 661int != 0) by (nonlinear_arith);
    lemma_order_gains_prime(a, n, 93001, 661, 8877273464, 1826643224int, (-1345823723int));
    assert(93001int * 661int == 61473661) by (nonlinear_arith);
    assert(61473661int * 61473661int > n) by (nonlinear_arith)
        requires
            n == 12048837557,
    ;
    lemma_certified_prime(a, n, 61473661);
}

/// Modulo 5156902474397: the base 2 to the predecessor divided by 12048837557.
proof fn lemma_5156902474397_power_stem()
    ensures
        pow(2int, 428nat) % 5156902474397int == 4746712836098,
{
    let n: int = 5156902474397;
    let a: int = 2;
    let x0: int = 1;
    let e0: nat = 0;
    lemma_pow0(a);
    lemma_small_mod(1, n as nat);
    let x1: int = 2;
    assert((x0 * x0 * a) % n == x1) by (nonlinear_arith)
        requires
            n == 5156902474397,
            a == 2,
            x0 == 1,
            x1 == 2,
    ;
    lemma_power_round(a, n, e0, x0, 1, a, x1);
    let e1: nat = 2 * e0 + 1;
    let x2: int = 8;
    assert((x1 * x1 * a) % n == x2) by (nonlinear_arith)
        requires
            n == 5156902474397,
            a == 2,
            x1 == 2,
            x2 == 8,
    ;
    lemma_power_round(a, n, e1, x1, 1, a, x2);
    let e2: nat = 2 * e1 + 1;
    let x3: int = 64;
    assert((x2 * x2 * 1) % n == x3) by (nonlinear_arith)
        requires
            n == 5156902474397,
            x2 == 8,
            x3 == 64,
    ;
    lemma_power_round(a, n, e2, x2, 0, 1, x3);
    let e3: nat = 2 * e2 + 0;
    let x4: int = 8192;
    assert((x3 * x3 * a) % n == x4) by (nonlinear_arith)
        requires
            n == 5156902474397,
            a == 2,
            x3 == 64,
            x4 == 8192,
    ;
    lemma_power_round(a, n, e3, x3, 1, a, x4);
    let e4: nat = 2 * e3 + 1;
    let x5: int = 67108864;
    assert((x4 * x4 * 1) % n == x5) by (nonlinear_arith)
        requires
            n == 5156902474397,
            x4 == 8192,
            x5 == 67108864,
    ;
    lemma_power_round(a, n, e4, x4, 0, 1, x5);
    let e5: nat = 2 * e4 + 0;
    let x6: int = 3247534443830;
    assert((x5 * x5 * a) % n == x6) by (nonlinear_arith)
        requires
            n == 5156902474397,
            a == 2,
            x5 == 67108864,
            x6 == 3247534443830,
    ;
    lemma_power_round(a, n, e5, x5, 1, a, x6);
    let e6: nat = 2 * e5 + 1;
    let x7: int = 3848293325051;
    assert((x6 * x6 * a) % n == x7) by (nonlinear_arith)
        requires
            n == 5156902474397,
            a == 2,
            x6 == 3247534443830,
            x7 == 3848293325051,
    ;
    lemma_power_round(a, n, e6, x6, 1, a, x7);
    let e7: nat = 2 * e6 + 1;
    let x8: int = 5053068510787;
    assert((x7 * x7 * 1) % n == x8) by (nonlinear_arith)
        requires
            n == 5156902474397,
            x7 == 3848293325051,
            x8 == 5053068510787,
    ;
    lemma_power_round(a, n, e7, x7, 0, 1, x8);
    let e8: nat = 2 * e7 + 0;
    let x9: int = 4746712836098;
    assert((x8 * x8 * 1) % n == x9) by (nonlinear_arith)
        requires
            n == 5156902474397,
            x8 == 5053068510787,
            x9 == 4746712836098,
    ;
    lemma_power_round(a, n, e8, x8, 0, 1, x9);
    let e9: nat = 2 * e8 + 0;
    assert(e9 == 428);
}

/// Modulo 5156902474397: the power above to the 12048837557, which is the base
/// to the predecessor.
proof fn lemma_5156902474397_power_full()
    ensures
        pow(4746712836098int, 12048837557nat) % 5156902474397int == 1,
{
    let n: int = 5156902474397;
    let a: int = 4746712836098;
    let x0: int = 1;
    let e0: nat = 0;
    lemma_pow0(a);
    lemma_small_mod(1, n as nat);
    let x1: int = 4746712836098;
    assert((x0 * x0 * a) % n == x1) by (nonlinear_arith)
        requires
            n == 5156902474397,
            a == 4746712836098,
            x0 == 1,
            x1 == 4746712836098,
    ;
    lemma_power_round(a, n, e0, x0, 1, a, x1);
    let e1: nat = 2 * e0 + 1;
    let x2: int = 4873537632190;
    assert((x1 * x1 * 1) % n == x2) by (nonlinear_arith)
        requires
            n == 5156902474397,
            x1 == 4746712836098,
            x2 == 4873537632190,
    ;
    lemma_power_round(a, n, e1, x1, 0, 1, x2);
    let e2: nat = 2 * e1 + 0;
    let x3: int = 3644367028578;
    assert((x2 * x2 * a) % n == x3) by (nonlinear_arith)
        requires
            n == 5156902474397,
            a == 4746712836098,
            x2 == 4873537632190,
            x3 == 3644367028578,
    ;
    lemma_power_round(a, n, e2, x2, 1, a, x3);
    let e3: nat = 2 * e2 + 1;
    let x4: int = 1512708647324;
    assert((x3 * x3 * a) % n == x4) by (nonlinear_arith)
        requires
            n == 5156902474397,
            a == 4746712836098,
            x3 == 3644367028578,
            x4 == 1512708647324,
    ;
    lemma_power_round(a, n, e3, x3, 1, a, x4);
    let e4: nat = 2 * e3 + 1;
    let x5: int = 2458361394247;
    assert((x4 * x4 * 1) % n == x5) by (nonlinear_arith)
        requires
            n == 5156902474397,
            x4 == 1512708647324,
            x5 == 2458361394247,
    ;
    lemma_power_round(a, n, e4, x4, 0, 1, x5);
    let e5: nat = 2 * e4 + 0;
    let x6: int = 1372198352576;
    assert((x5 * x5 * 1) % n == x6) by (nonlinear_arith)
        requires
            n == 5156902474397,
            x5 == 2458361394247,
            x6 == 1372198352576,
    ;
    lemma_power_round(a, n, e5, x5, 0, 1, x6);
    let e6: nat = 2 * e5 + 0;
    let x7: int = 3985494425225;
    assert((x6 * x6 * a) % n == x7) by (nonlinear_arith)
        requires
            n == 5156902474397,
            a == 4746712836098,
            x6 == 1372198352576,
            x7 == 3985494425225,
    ;
    lemma_power_round(a, n, e6, x6, 1, a, x7);
    let e7: nat = 2 * e6 + 1;
    let x8: int = 3534033127334;
    assert((x7 * x7 * a) % n == x8) by (nonlinear_arith)
        requires
            n == 5156902474397,
            a == 4746712836098,
            x7 == 3985494425225,
            x8 == 3534033127334,
    ;
    lemma_power_round(a, n, e7, x7, 1, a, x8);
    let e8: nat = 2 * e7 + 1;
    let x9: int = 2097983046559;
    assert((x8 * x8 * a) % n == x9) by (nonlinear_arith)
        requires
            n == 5156902474397,
            a == 4746712836098,
            x8 == 3534033127334,
            x9 == 2097983046559,
    ;
    lemma_power_round(a, n, e8, x8, 1, a, x9);
    let e9: nat = 2 * e8 + 1;
    let x10: int = 3949638834514;
    assert((x9 * x9 * 1) % n == x10) by (nonlinear_arith)
        requires
            n == 5156902474397,
            x9 == 2097983046559,
            x10 == 3949638834514,
    ;
    lemma_power_round(a, n, e9, x9, 0, 1, x10);
    let e10: nat = 2 * e9 + 0;
    let x11: int = 2886924168213;
    assert((x10 * x10 * 1) % n == x11) by (nonlinear_arith)
        requires
            n == 5156902474397,
            x10 == 3949638834514,
            x11 == 2886924168213,
    ;
    lemma_power_round(a, n, e10, x10, 0, 1, x11);
    let e11: nat = 2 * e10 + 0;
    let x12: int = 4889216364411;
    assert((x11 * x11 * 1) % n == x12) by (nonlinear_arith)
        requires
            n == 5156902474397,
            x11 == 2886924168213,
            x12 == 4889216364411,
    ;
    lemma_power_round(a, n, e11, x11, 0, 1, x12);
    let e12: nat = 2 * e11 + 0;
    let x13: int = 1186104587753;
    assert((x12 * x12 * a) % n == x13) by (nonlinear_arith)
        requires
            n == 5156902474397,
            a == 4746712836098,
            x12 == 4889216364411,
            x13 == 1186104587753,
    ;
    lemma_power_round(a, n, e12, x12, 1, a, x13);
    let e13: nat = 2 * e12 + 1;
    let x14: int = 4863306363187;
    assert((x13 * x13 * 1) % n == x14) by (nonlinear_arith)
        requires
            n == 5156902474397,
            x13 == 1186104587753,
            x14 == 4863306363187,
    ;
    lemma_power_round(a, n, e13, x13, 0, 1, x14);
    let e14: nat = 2 * e13 + 0;
    let x15: int = 3528003011007;
    assert((x14 * x14 * a) % n == x15) by (nonlinear_arith)
        requires
            n == 5156902474397,
            a == 4746712836098,
            x14 == 4863306363187,
            x15 == 3528003011007,
    ;
    lemma_power_round(a, n, e14, x14, 1, a, x15);
    let e15: nat = 2 * e14 + 1;
    let x16: int = 569229458997;
    assert((x15 * x15 * 1) % n == x16) by (nonlinear_arith)
        requires
            n == 5156902474397,
            x15 == 3528003011007,
            x16 == 569229458997,
    ;
    lemma_power_round(a, n, e15, x15, 0, 1, x16);
    let e16: nat = 2 * e15 + 0;
    let x17: int = 4322973491138;
    assert((x16 * x16 * a) % n == x17) by (nonlinear_arith)
        requires
            n == 5156902474397,
            a == 4746712836098,
            x16 == 569229458997,
            x17 == 4322973491138,
    ;
    lemma_power_round(a, n, e16, x16, 1, a, x17);
    let e17: nat = 2 * e16 + 1;
    let x18: int = 1056634934969;
    assert((x17 * x17 * 1) % n == x18) by (nonlinear_arith)
        requires
            n == 5156902474397,
            x17 == 4322973491138,
            x18 == 1056634934969,
    ;
    lemma_power_round(a, n, e17, x17, 0, 1, x18);
    let e18: nat = 2 * e17 + 0;
    let x19: int = 2967256843868;
    assert((x18 * x18 * a) % n == x19) by (nonlinear_arith)
        requires
            n == 5156902474397,
            a == 4746712836098,
            x18 == 1056634934969,
            x19 == 2967256843868,
    ;
    lemma_power_round(a, n, e18, x18, 1, a, x19);
    let e19: nat = 2 * e18 + 1;
    let x20: int = 4214317258230;
    assert((x19 * x19 * 1) % n == x20) by (nonlinear_arith)
        requires
            n == 5156902474397,
            x19 == 2967256843868,
            x20 == 4214317258230,
    ;
    lemma_power_round(a, n, e19, x19, 0, 1, x20);
    let e20: nat = 2 * e19 + 0;
    let x21: int = 2005289838737;
    assert((x20 * x20 * a) % n == x21) by (nonlinear_arith)
        requires
            n == 5156902474397,
            a == 4746712836098,
            x20 == 4214317258230,
            x21 == 2005289838737,
    ;
    lemma_power_round(a, n, e20, x20, 1, a, x21);
    let e21: nat = 2 * e20 + 1;
    let x22: int = 2188467409472;
    assert((x21 * x21 * 1) % n == x22) by (nonlinear_arith)
        requires
            n == 5156902474397,
            x21 == 2005289838737,
            x22 == 2188467409472,
    ;
    lemma_power_round(a, n, e21, x21, 0, 1, x22);
    let e22: nat = 2 * e21 + 0;
    let x23: int = 2598843926205;
    assert((x22 * x22 * a) % n == x23) by (nonlinear_arith)
        requires
            n == 5156902474397,
            a == 4746712836098,
            x22 == 2188467409472,
            x23 == 2598843926205,
    ;
    lemma_power_round(a, n, e22, x22, 1, a, x23);
    let e23: nat = 2 * e22 + 1;
    let x24: int = 4903139152562;
    assert((x23 * x23 * 1) % n == x24) by (nonlinear_arith)
        requires
            n == 5156902474397,
            x23 == 2598843926205,
            x24 == 4903139152562,
    ;
    lemma_power_round(a, n, e23, x23, 0, 1, x24);
    let e24: nat = 2 * e23 + 0;
    let x25: int = 2379638444348;
    assert((x24 * x24 * a) % n == x25) by (nonlinear_arith)
        requires
            n == 5156902474397,
            a == 4746712836098,
            x24 == 4903139152562,
            x25 == 2379638444348,
    ;
    lemma_power_round(a, n, e24, x24, 1, a, x25);
    let e25: nat = 2 * e24 + 1;
    let x26: int = 4488210961748;
    assert((x25 * x25 * a) % n == x26) by (nonlinear_arith)
        requires
            n == 5156902474397,
            a == 4746712836098,
            x25 == 2379638444348,
            x26 == 4488210961748,
    ;
    lemma_power_round(a, n, e25, x25, 1, a, x26);
    let e26: nat = 2 * e25 + 1;
    let x27: int = 2385369468561;
    assert((x26 * x26 * a) % n == x27) by (nonlinear_arith)
        requires
            n == 5156902474397,
            a == 4746712836098,
            x26 == 4488210961748,
            x27 == 2385369468561,
    ;
    lemma_power_round(a, n, e26, x26, 1, a, x27);
    let e27: nat = 2 * e26 + 1;
    let x28: int = 2260607923718;
    assert((x27 * x27 * 1) % n == x28) by (nonlinear_arith)
        requires
            n == 5156902474397,
            x27 == 2385369468561,
            x28 == 2260607923718,
    ;
    lemma_power_round(a, n, e27, x27, 0, 1, x28);
    let e28: nat = 2 * e27 + 0;
    let x29: int = 4942587966814;
    assert((x28 * x28 * a) % n == x29) by (nonlinear_arith)
        requires
            n == 5156902474397,
            a == 4746712836098,
            x28 == 2260607923718,
            x29 == 4942587966814,
    ;
    lemma_power_round(a, n, e28, x28, 1, a, x29);
    let e29: nat = 2 * e28 + 1;
    let x30: int = 1513905999439;
    assert((x29 * x29 * a) % n == x30) by (nonlinear_arith)
        requires
            n == 5156902474397,
            a == 4746712836098,
            x29 == 4942587966814,
            x30 == 1513905999439,
    ;
    lemma_power_round(a, n, e29, x29, 1, a, x30);
    let e30: nat = 2 * e29 + 1;
    let x31: int = 3368897426571;
    assert((x30 * x30 * 1) % n == x31) by (nonlinear_arith)
        requires
            n == 5156902474397,
            x30 == 1513905999439,
            x31 == 3368897426571,
    ;
    lemma_power_round(a, n, e30, x30, 0, 1, x31);
    let e31: nat = 2 * e30 + 0;
    let x32: int = 4570632802352;
    assert((x31 * x31 * a) % n == x32) by (nonlinear_arith)
        requires
            n == 5156902474397,
            a == 4746712836098,
            x31 == 3368897426571,
            x32 == 4570632802352,
    ;
    lemma_power_round(a, n, e31, x31, 1, a, x32);
    let e32: nat = 2 * e31 + 1;
    let x33: int = 3938668016706;
    assert((x32 * x32 * 1) % n == x33) by (nonlinear_arith)
        requires
            n == 5156902474397,
            x32 == 4570632802352,
            x33 == 3938668016706,
    ;
    lemma_power_round(a, n, e32, x32, 0, 1, x33);
    let e33: nat = 2 * e32 + 0;
    let x34: int = 1;
    assert((x33 * x33 * a) % n == x34) by (nonlinear_arith)
        requires
            n == 5156902474397,
            a == 4746712836098,
            x33 == 3938668016706,
            x34 == 1,
    ;
    lemma_power_round(a, n, e33, x33, 1, a, x34);
    let e34: nat = 2 * e33 + 1;
    assert(e34 == 12048837557);
}

/// 5156902474397 is prime: with base 2, by the prime divisor 12048837557 of
/// its predecessor.
proof fn lemma_prime_5156902474397()
    ensures
        is_prime(5156902474397int),
{
    let n: int = 5156902474397;
    let a: int = 2;
    lemma_5156902474397_power_stem();
    lemma_5156902474397_power_full();
    lemma_power_of_power(a, n, 428nat, 4746712836098, 12048837557nat, 1);
    assert(pow(a, (n - 1) as nat) % n == 1);
    lemma_order_multiple_of_one(a, n);
    lemma_prime_12048837557();
    assert((n - 1) % 12048837557int == 0 && (n - 1) / 12048837557int == 428) by {
        assert(n - 1 == 428int * 12048837557int + 0) by (nonlinear_arith)
            requires
                n == 5156902474397,
        ;
        lemma_fundamental_div_mod_converse(n - 1, 12048837557, 428, 0);
    }
    assert(pow(a, ((n - 1) / 12048837557int) as nat) % n == 4746712836098);
    assert((-67615922697int) * (4746712836098int - 1) + 62237626130int * n == 1) by (nonlinear_arith)
        requires
            n == 5156902474397,
    ;
    assert(1int % 12048837557int != 0) by {
        lemma_small_mod(1, 12048837557);
    }
    lemma_order_gains_prime(a, n, 1, 12048837557, 4746712836098, (-67615922697int), 62237626130int);
    assert(1int * 12048837557int == 12048837557) by (nonlinear_arith);
    assert(12048837557int * 12048837557int > n) by (nonlinear_arith)
        requires
            n == 5156902474397,
    ;
    lemma_certified_prime(a, n, 12048837557);
}

/// Modulo 1670836401704629: the base 2 to the predecessor divided by
/// 5156902474397.
proof fn lemma_1670836401704629_power_stem()
    ensures
        pow(2int, 324nat) % 1670836401704629int == 11046204280772,
{
    let n: int = 1670836401704629;
    let a: int = 2;
    let x0: int = 1;
    let e0: nat = 0;
    lemma_pow0(a);
    lemma_small_mod(1, n as nat);
    let x1: int = 2;
    assert((x0 * x0 * a) % n == x1) by (nonlinear_arith)
        requires
            n == 1670836401704629,
            a == 2,
            x0 == 1,
            x1 == 2,
    ;
    lemma_power_round(a, n, e0, x0, 1, a, x1);
    let e1: nat = 2 * e0 + 1;
    let x2: int = 4;
    assert((x1 * x1 * 1) % n == x2) by (nonlinear_arith)
        requires
            n == 1670836401704629,
            x1 == 2,
            x2 == 4,
    ;
    lemma_power_round(a, n, e1, x1, 0, 1, x2);
    let e2: nat = 2 * e1 + 0;
    let x3: int = 32;
    assert((x2 * x2 * a) % n == x3) by (nonlinear_arith)
        requires
            n == 1670836401704629,
            a == 2,
            x2 == 4,
            x3 == 32,
    ;
    lemma_power_round(a, n, e2, x2, 1, a, x3);
    let e3: nat = 2 * e2 + 1;
    let x4: int = 1024;
    assert((x3 * x3 * 1) % n == x4) by (nonlinear_arith)
        requires
            n == 1670836401704629,
            x3 == 32,
            x4 == 1024,
    ;
    lemma_power_round(a, n, e3, x3, 0, 1, x4);
    let e4: nat = 2 * e3 + 0;
    let x5: int = 1048576;
    assert((x4 * x4 * 1) % n == x5) by (nonlinear_arith)
        requires
            n == 1670836401704629,
            x4 == 1024,
            x5 == 1048576,
    ;
    lemma_power_round(a, n, e4, x4, 0, 1, x5);
    let e5: nat = 2 * e4 + 0;
    let x6: int = 1099511627776;
    assert((x5 * x5 * 1) % n == x6) by (nonlinear_arith)
        requires
            n == 1670836401704629,
            x5 == 1048576,
            x6 == 1099511627776,
    ;
    lemma_power_round(a, n, e5, x5, 0, 1, x6);
    let e6: nat = 2 * e5 + 0;
    let x7: int = 1551356960661984;
    assert((x6 * x6 * a) % n == x7) by (nonlinear_arith)
        requires
            n == 1670836401704629,
            a == 2,
            x6 == 1099511627776,
            x7 == 1551356960661984,
    ;
    lemma_power_round(a, n, e6, x6, 1, a, x7);
    let e7: nat = 2 * e6 + 1;
    let x8: int = 253377396054226;
    assert((x7 * x7 * 1) % n == x8) by (nonlinear_arith)
        requires
            n == 1670836401704629,
            x7 == 1551356960661984,
            x8 == 253377396054226,
    ;
    lemma_power_round(a, n, e7, x7, 0, 1, x8);
    let e8: nat = 2 * e7 + 0;
    let x9: int = 11046204280772;
    assert((x8 * x8 * 1) % n == x9) by (nonlinear_arith)
        requires
            n == 1670836401704629,
            x8 == 253377396054226,
            x9 == 11046204280772,
    ;
    lemma_power_round(a, n, e8, x8, 0, 1, x9);
    let e9: nat = 2 * e8 + 0;
    assert(e9 == 324);
}

/// Modulo 1670836401704629: the power above to the 5156902474397, which is the
/// base to the predecessor.
proof fn lemma_1670836401704629_power_full()
    ensures
        pow(11046204280772int, 5156902474397nat) % 1670836401704629int == 1,
{
    let n: int = 1670836401704629;
    let a: int = 11046204280772;
    let x0: int = 1;
    let e0: nat = 0;
    lemma_pow0(a);
    lemma_small_mod(1, n as nat);
    let x1: int = 11046204280772;
    assert((x0 * x0 * a) % n == x1) by (nonlinear_arith)
        requires
            n == 1670836401704629,
            a == 11046204280772,
            x0 == 1,
            x1 == 11046204280772,
    ;
    lemma_power_round(a, n, e0, x0, 1, a, x1);
    let e1: nat = 2 * e0 + 1;
    let x2: int = 1662414987046364;
    assert((x1 * x1 * 1) % n == x2) by (nonlinear_arith)
        requires
            n == 1670836401704629,
            x1 == 11046204280772,
            x2 == 1662414987046364,
    ;
    lemma_power_round(a, n, e1, x1, 0, 1, x2);
    let e2: nat = 2 * e1 + 0;
    let x3: int = 243335622413464;
    assert((x2 * x2 * 1) % n == x3) by (nonlinear_arith)
        requires
            n == 1670836401704629,
            x2 == 1662414987046364,
            x3 == 243335622413464,
    ;
    lemma_power_round(a, n, e2, x2, 0, 1, x3);
    let e3: nat = 2 * e2 + 0;
    let x4: int = 938638730596843;
    assert((x3 * x3 * a) % n == x4) by (nonlinear_arith)
        requires
            n == 1670836401704629,
            a == 11046204280772,
            x3 == 243335622413464,
            x4 == 938638730596843,
    ;
    lemma_power_round(a, n, e3, x3, 1, a, x4);
    let e4: nat = 2 * e3 + 1;
    let x5: int = 824118890218688;
    assert((x4 * x4 * 1) % n == x5) by (nonlinear_arith)
        requires
            n == 1670836401704629,
            x4 == 938638730596843,
            x5 == 824118890218688,
    ;
    lemma_power_round(a, n, e4, x4, 0, 1, x5);
    let e5: nat = 2 * e4 + 0;
    let x6: int = 267262586498538;
    assert((x5 * x5 * a) % n == x6) by (nonlinear_arith)
        requires
            n == 1670836401704629,
            a == 11046204280772,
            x5 == 824118890218688,
            x6 == 267262586498538,
    ;
    lemma_power_round(a, n, e5, x5, 1, a, x6);
    let e6: nat = 2 * e5 + 1;
    let x7: int = 49492090486633;
    assert((x6 * x6 * a) % n == x7) by (nonlinear_arith)
        requires
            n == 1670836401704629,
            a == 11046204280772,
            x6 == 267262586498538,
            x7 == 49492090486633,
    ;
    lemma_power_round(a, n, e6, x6, 1, a, x7);
    let e7: nat = 2 * e6 + 1;
    let x8: int = 307337505430343;
    assert((x7 * x7 * 1) % n == x8) by (nonlinear_arith)
        requires
            n == 1670836401704629,
            x7 == 49492090486633,
            x8 == 307337505430343,
    ;
    lemma_power_round(a, n, e7, x7, 0, 1, x8);
    let e8: nat = 2 * e7 + 0;
    let x9: int = 142460584602657;
    assert((x8 * x8 * 1) % n == x9) by (nonlinear_arith)
        requires
            n == 1670836401704629,
            x8 == 307337505430343,
            x9 == 142460584602657,
    ;
    lemma_power_round(a, n, e8, x8, 0, 1, x9);
    let e9: nat = 2 * e8 + 0;
    let x10: int = 1084549957119634;
    assert((x9 * x9 * 1) % n == x10) by (nonlinear_arith)
        requires
            n == 1670836401704629,
            x9 == 142460584602657,
            x10 == 1084549957119634,
    ;
    lemma_power_round(a, n, e9, x9, 0, 1, x10);
    let e10: nat = 2 * e9 + 0;
    let x11: int = 1080461158659793;
    assert((x10 * x10 * 1) % n == x11) by (nonlinear_arith)
        requires
            n == 1670836401704629,
            x10 == 1084549957119634,
            x11 == 1080461158659793,
    ;
    lemma_power_round(a, n, e10, x10, 0, 1, x11);
    let e11: nat = 2 * e10 + 0;
    let x12: int = 772960424580221;
    assert((x11 * x11 * a) % n == x12) by (nonlinear_arith)
        requires
            n == 1670836401704629,
            a == 11046204280772,
            x11 == 1080461158659793,
            x12 == 772960424580221,
    ;
    lemma_power_round(a, n, e11, x11, 1, a, x12);
    let e12: nat = 2 * e11 + 1;
    let x13: int = 811442543936487;
    assert((x12 * x12 * 1) % n == x13) by (nonlinear_arith)
        requires
            n == 1670836401704629,
            x12 == 772960424580221,
            x13 == 811442543936487,
    ;
    lemma_power_round(a, n, e12, x12, 0, 1, x13);
    let e13: nat = 2 * e12 + 0;
    let x14: int = 1514683984251661;
    assert((x13 * x13 * a) % n == x14) by (nonlinear_arith)
        requires
            n == 1670836401704629,
            a == 11046204280772,
            x13 == 811442543936487,
            x14 == 1514683984251661,
    ;
    lemma_power_round(a, n, e13, x13, 1, a, x14);
    let e14: nat = 2 * e13 + 1;
    let x15: int = 1113683759450937;
    assert((x14 * x14 * 1) % n == x15) by (nonlinear_arith)
        requires
            n == 1670836401704629,
            x14 == 1514683984251661,
            x15 == 1113683759450937,
    ;
    lemma_power_round(a, n, e14, x14, 0, 1, x15);
    let e15: nat = 2 * e14 + 0;
    let x16: int = 1494067479693012;
    assert((x15 * x15 * a) % n == x16) by (nonlinear_arith)
        requires
            n == 1670836401704629,
            a == 11046204280772,
            x15 == 1113683759450937,
            x16 == 1494067479693012,
    ;
    lemma_power_round(a, n, e15, x15, 1, a, x16);
    let e16: nat = 2 * e15 + 1;
    let x17: int = 1470387515290701;
    assert((x16 * x16 * a) % n == x17) by (nonlinear_arith)
        requires
            n == 1670836401704629,
            a == 11046204280772,
            x16 == 1494067479693012,
            x17 == 1470387515290701,
    ;
    lemma_power_round(a, n, e16, x16, 1, a, x17);
    let e17: nat = 2 * e16 + 1;
    let x18: int = 674188219219632;
    assert((x17 * x17 * a) % n == x18) by (nonlinear_arith)
        requires
            n == 1670836401704629,
            a == 11046204280772,
            x17 == 1470387515290701,
            x18 == 674188219219632,
    ;
    lemma_power_round(a, n, e17, x17, 1, a, x18);
    let e18: nat = 2 * e17 + 1;
    let x19: int = 1364249210607750;
    assert((x18 * x18 * a) % n == x19) by (nonlinear_arith)
        requires
            n == 1670836401704629,
            a == 11046204280772,
            x18 == 674188219219632,
            x19 == 1364249210607750,
    ;
    lemma_power_round(a, n, e18, x18, 1, a, x19);
    let e19: nat = 2 * e18 + 1;
    let x20: int = 1330217670466045;
    assert((x19 * x19 * 1) % n == x20) by (nonlinear_arith)
        requires
            n == 1670836401704629,
            x19 == 1364249210607750,
            x20 == 1330217670466045,
    ;
    lemma_power_round(a, n, e19, x19, 0, 1, x20);
    let e20: nat = 2 * e19 + 0;
    let x21: int = 185921603602951;
    assert((x20 * x20 * a) % n == x21) by (nonlinear_arith)
        requires
            n == 1670836401704629,
            a == 11046204280772,
            x20 == 1330217670466045,
            x21 == 185921603602951,
    ;
    lemma_power_round(a, n, e20, x20, 1, a, x21);
    let e21: nat = 2 * e20 + 1;
    let x22: int = 1245520574938995;
    assert((x21 * x21 * 1) % n == x22) by (nonlinear_arith)
        requires
            n == 1670836401704629,
            x21 == 185921603602951,
            x22 == 1245520574938995,
    ;
    lemma_power_round(a, n, e21, x21, 0, 1, x22);
    let e22: nat = 2 * e21 + 0;
    let x23: int = 31384141629922;
    assert((x22 * x22 * a) % n == x23) by (nonlinear_arith)
        requires
            n == 1670836401704629,
            a == 11046204280772,
            x22 == 1245520574938995,
            x23 == 31384141629922,
    ;
    lemma_power_round(a, n, e22, x22, 1, a, x23);
    let e23: nat = 2 * e22 + 1;
    let x24: int = 532800708973965;
    assert((x23 * x23 * 1) % n == x24) by (nonlinear_arith)
        requires
            n == 1670836401704629,
            x23 == 31384141629922,
            x24 == 532800708973965,
    ;
    lemma_power_round(a, n, e23, x23, 0, 1, x24);
    let e24: nat = 2 * e23 + 0;
    let x25: int = 338760206885147;
    assert((x24 * x24 * a) % n == x25) by (nonlinear_arith)
        requires
            n == 1670836401704629,
            a == 11046204280772,
            x24 == 532800708973965,
            x25 == 338760206885147,
    ;
    lemma_power_round(a, n, e24, x24, 1, a, x25);
    let e25: nat = 2 * e24 + 1;
    let x26: int = 1321478185456450;
    assert((x25 * x25 * a) % n == x26) by (nonlinear_arith)
        requires
            n == 1670836401704629,
            a == 11046204280772,
            x25 == 338760206885147,
            x26 == 1321478185456450,
    ;
    lemma_power_round(a, n, e25, x25, 1, a, x26);
    let e26: nat = 2 * e25 + 1;
    let x27: int = 566863234295377;
    assert((x26 * x26 * a) % n == x27) by (nonlinear_arith)
        requires
            n == 1670836401704629,
            a == 11046204280772,
            x26 == 1321478185456450,
            x27 == 566863234295377,
    ;
    lemma_power_round(a, n, e26, x26, 1, a, x27);
    let e27: nat = 2 * e26 + 1;
    let x28: int = 860630985012453;
    assert((x27 * x27 * 1) % n == x28) by (nonlinear_arith)
        requires
            n == 1670836401704629,
            x27 == 566863234295377,
            x28 == 860630985012453,
    ;
    lemma_power_round(a, n, e27, x27, 0, 1, x28);
    let e28: nat = 2 * e27 + 0;
    let x29: int = 1651831741258945;
    assert((x28 * x28 * 1) % n == x29) by (nonlinear_arith)
        requires
            n == 1670836401704629,
            x28 == 860630985012453,
            x29 == 1651831741258945,
    ;
    lemma_power_round(a, n, e28, x28, 0, 1, x29);
    let e29: nat = 2 * e28 + 0;
    let x30: int = 1613023119241294;
    assert((x29 * x29 * 1) % n == x30) by (nonlinear_arith)
        requires
            n == 1670836401704629,
            x29 == 1651831741258945,
            x30 == 1613023119241294,
    ;
    lemma_power_round(a, n, e29, x29, 0, 1, x30);
    let e30: nat = 2 * e29 + 0;
    let x31: int = 498053521471380;
    assert((x30 * x30 * a) % n == x31) by (nonlinear_arith)
        requires
            n == 1670836401704629,
            a == 11046204280772,
            x30 == 1613023119241294,
            x31 == 498053521471380,
    ;
    lemma_power_round(a, n, e30, x30, 1, a, x31);
    let e31: nat = 2 * e30 + 1;
    let x32: int = 826988066168908;
    assert((x31 * x31 * 1) % n == x32) by (nonlinear_arith)
        requires
            n == 1670836401704629,
            x31 == 498053521471380,
            x32 == 826988066168908,
    ;
    lemma_power_round(a, n, e31, x31, 0, 1, x32);
    let e32: nat = 2 * e31 + 0;
    let x33: int = 865056267209583;
    assert((x32 * x32 * 1) % n == x33) by (nonlinear_arith)
        requires
            n == 1670836401704629,
            x32 == 826988066168908,
            x33 == 865056267209583,
    ;
    lemma_power_round(a, n, e32, x32, 0, 1, x33);
    let e33: nat = 2 * e32 + 0;
    let x34: int = 287668427336427;
    assert((x33 * x33 * a) % n == x34) by (nonlinear_arith)
        requires
            n == 1670836401704629,
            a == 11046204280772,
            x33 == 865056267209583,
            x34 == 287668427336427,
    ;
    lemma_power_round(a, n, e33, x33, 1, a, x34);
    let e34: nat = 2 * e33 + 1;
    let x35: int = 337174974857465;
    assert((x34 * x34 * 1) % n == x35) by (nonlinear_arith)
        requires
            n == 1670836401704629,
            x34 == 287668427336427,
            x35 == 337174974857465,
    ;
    lemma_power_round(a, n, e34, x34, 0, 1, x35);
    let e35: nat = 2 * e34 + 0;
    let x36: int = 1463454570500538;
    assert((x35 * x35 * a) % n == x36) by (nonlinear_arith)
        requires
            n == 1670836401704629,
            a == 11046204280772,
            x35 == 337174974857465,
            x36 == 1463454570500538,
    ;
    lemma_power_round(a, n, e35, x35, 1, a, x36);
    let e36: nat = 2 * e35 + 1;
    let x37: int = 1504549373680653;
    assert((x36 * x36 * 1) % n == x37) by (nonlinear_arith)
        requires
            n == 1670836401704629,
            x36 == 1463454570500538,
            x37 == 1504549373680653,
    ;
    lemma_power_round(a, n, e36, x36, 0, 1, x37);
    let e37: nat = 2 * e36 + 0;
    let x38: int = 1666035062387111;
    assert((x37 * x37 * 1) % n == x38) by (nonlinear_arith)
        requires
            n == 1670836401704629,
            x37 == 1504549373680653,
            x38 == 1666035062387111,
    ;
    lemma_power_round(a, n, e37, x37, 0, 1, x38);
    let e38: nat = 2 * e37 + 0;
    let x39: int = 585835722703625;
    assert((x38 * x38 * a) % n == x39) by (nonlinear_arith)
        requires
            n == 1670836401704629,
            a == 11046204280772,
            x38 == 1666035062387111,
            x39 == 585835722703625,
    ;
    lemma_power_round(a, n, e38, x38, 1, a, x39);
    let e39: nat = 2 * e38 + 1;
    let x40: int = 951131594771470;
    assert((x39 * x39 * a) % n == x40) by (nonlinear_arith)
        requires
            n == 1670836401704629,
            a == 11046204280772,
            x39 == 585835722703625,
            x40 == 951131594771470,
    ;
    lemma_power_round(a, n, e39, x39, 1, a, x40);
    let e40: nat = 2 * e39 + 1;
    let x41: int = 1670143628958792;
    assert((x40 * x40 * a) % n == x41) by (nonlinear_arith)
        requires
            n == 1670836401704629,
            a == 11046204280772,
            x40 == 951131594771470,
            x41 == 1670143628958792,
    ;
    lemma_power_round(a, n, e40, x40, 1, a, x41);
    let e41: nat = 2 * e40 + 1;
    let x42: int = 122502676378192;
    assert((x41 * x41 * 1) % n == x42) by (nonlinear_arith)
        requires
            n == 1670836401704629,
            x41 == 1670143628958792,
            x42 == 122502676378192,
    ;
    lemma_power_round(a, n, e41, x41, 0, 1, x42);
    let e42: nat = 2 * e41 + 0;
    let x43: int = 1;
    assert((x42 * x42 * a) % n == x43) by (nonlinear_arith)
        requires
            n == 1670836401704629,
            a == 11046204280772,
            x42 == 122502676378192,
            x43 == 1,
    ;
    lemma_power_round(a, n, e42, x42, 1, a, x43);
    let e43: nat = 2 * e42 + 1;
    assert(e43 == 5156902474397);
}

/// 1670836401704629 is prime: with base 2, by the prime divisor 5156902474397
/// of its predecessor.
proof fn lemma_prime_1670836401704629()
    ensures
        is_prime(1670836401704629int),
{
    let n: int = 1670836401704629;
    let a: int = 2;
    lemma_1670836401704629_power_stem();
    lemma_1670836401704629_power_full();
    lemma_power_of_power(a, n, 324nat, 11046204280772, 5156902474397nat, 1);
    assert(pow(a, (n - 1) as nat) % n == 1);
    lemma_order_multiple_of_one(a, n);
    lemma_prime_5156902474397();
    assert((n - 1) % 5156902474397int == 0 && (n - 1) / 5156902474397int == 324) by {
        assert(n - 1 == 324int * 5156902474397int + 0) by (nonlinear_arith)
            requires
                n == 1670836401704629,
        ;
        lemma_fundamental_div_mod_converse(n - 1, 5156902474397, 324, 0);
    }
    assert(pow(a, ((n - 1) / 5156902474397int) as nat) % n == 11046204280772);
    assert(735766788910399int * (11046204280772int - 1) + (-4864288475532int) * n == 1) by (nonlinear_arith)
        requires
            n == 1670836401704629,
    ;
    assert(1int % 5156902474397int != 0) by {
        lemma_small_mod(1, 5156902474397);
    }
    lemma_order_gains_prime(a, n, 1, 5156902474397, 11046204280772, 735766788910399int, (-4864288475532int));
    assert(1int * 5156902474397int == 5156902474397) by (nonlinear_arith);
    assert(5156902474397int * 5156902474397int > n) by (nonlinear_arith)
        requires
            n == 1670836401704629,
    ;
    lemma_certified_prime(a, n, 5156902474397);
}

/// Modulo the modulus: the base 2 to the predecessor divided by
/// 13818364434197438864469338081 and by 1670836401704629.
proof fn lemma_modulus_power_stem()
    ensures
        pow(2int, 948026174865265269726259848413184nat) % wide(2, 18882428718392752222464057452572750885, 48364400416034343698204186575808495617) == wide(0, 40672172402868486714522659830653318973, 23918408910809300406102239489012348584),
{
    let n: int = wide(2, 18882428718392752222464057452572750885, 48364400416034343698204186575808495617);
    let a: int = 2;
    let x0: int = 1;
    let e0: nat = 0;
    lemma_pow0(a);
    lemma_small_mod(1, n as nat);
    let x1: int = 2;
    assert((x0 * x0 * a) % n == x1) by (nonlinear_arith)
        requires
            n == wide(2, 18882428718392752222464057452572750885, 48364400416034343698204186575808495617),
            a == 2,
            x0 == 1,
            x1 == 2,
    ;
    lemma_power_round(a, n, e0, x0, 1, a, x1);
    let e1: nat = 2 * e0 + 1;
    let x2: int = 4;
    assert((x1 * x1 * 1) % n == x2) by (nonlinear_arith)
        requires
            n == wide(2, 18882428718392752222464057452572750885, 48364400416034343698204186575808495617),
            x1 == 2,
            x2 == 4,
    ;
    lemma_power_round(a, n, e1, x1, 0, 1, x2);
    let e2: nat = 2 * e1 + 0;
    let x3: int = 32;
    assert((x2 * x2 * a) % n == x3) by (nonlinear_arith)
        requires
            n == wide(2, 18882428718392752222464057452572750885, 48364400416034343698204186575808495617),
            a == 2,
            x2 == 4,
            x3 == 32,
    ;
    lemma_power_round(a, n, e2, x2, 1, a, x3);
    let e3: nat = 2 * e2 + 1;
    let x4: int = 2048;
    assert((x3 * x3 * a) % n == x4) by (nonlinear_arith)
        requires
            n == wide(2, 18882428718392752222464057452572750885, 48364400416034343698204186575808495617),
            a == 2,
            x3 == 32,
            x4 == 2048,
    ;
    lemma_power_round(a, n, e3, x3, 1, a, x4);
    let e4: nat = 2 * e3 + 1;
    let x5: int = 8388608;
    assert((x4 * x4 * a) % n == x5) by (nonlinear_arith)
        requires
            n == wide(2, 18882428718392752222464057452572750885, 48364400416034343698204186575808495617),
            a == 2,
            x4 == 2048,
            x5 == 8388608,
    ;
    lemma_power_round(a, n, e4, x4, 1, a, x5);
    let e5: nat = 2 * e4 + 1;
    let x6: int = 70368744177664;
    assert((x5 * x5 * 1) % n == x6) by (nonlinear_arith)
        requires
            n == wide(2, 18882428718392752222464057452572750885, 48364400416034343698204186575808495617),
            x5 == 8388608,
            x6 == 70368744177664,
    ;
    lemma_power_round(a, n, e5, x5, 0, 1, x6);
    let e6: nat = 2 * e5 + 0;
    let x7: int = 9903520314283042199192993792;
    assert((x6 * x6 * a) % n == x7) by (nonlinear_arith)
        requires
            n == wide(2, 18882428718392752222464057452572750885, 48364400416034343698204186575808495617),
            a == 2,
            x6 == 70368744177664,
            x7 == 9903520314283042199192993792,
    ;
    lemma_power_round(a, n, e6, x6, 1, a, x7);
    let e7: nat = 2 * e6 + 1;
    let x8: int = wide(0, 980797146154168869, 34934209737619787751599303819750539264);
    assert((x7 * x7 * 1) % n == x8) by (nonlinear_arith)
        requires
            n == wide(2, 18882428718392752222464057452572750885, 48364400416034343698204186575808495617),
            x7 == 9903520314283042199192993792,
            x8 == wide(0, 980797146154168869, 34934209737619787751599303819750539264),
    ;
    lemma_power_round(a, n, e7, x7, 0, 1, x8);
    let e8: nat = 2 * e7 + 0;
    let x9: int = wide(0, 34956980430621804242934242769428644786, 3631478588312888568185564161182265760);
    assert((x8 * x8 * a) % n == x9) by (nonlinear_arith)
        requires
            n == wide(2, 18882428718392752222464057452572750885, 48364400416034343698204186575808495617),
            a == 2,
            x8 == wide(0, 980797146154168869, 34934209737619787751599303819750539264),
            x9 == wide(0, 34956980430621804242934242769428644786, 3631478588312888568185564161182265760),
    ;
    lemma_power_round(a, n, e8, x8, 1, a, x9);
    let e9: nat = 2 * e8 + 1;
    let x10: int = wide(0, 6833424109714541297894211611024648451, 5246981569358911197049191567214980518);
    assert((x9 * x9 * a) % n == x10) by (nonlinear_arith)
        requires
            n == wide(2, 18882428718392752222464057452572750885, 48364400416034343698204186575808495617),
            a == 2,
            x9 == wide(0, 34956980430621804242934242769428644786, 3631478588312888568185564161182265760),
            x10 == wide(0, 6833424109714541297894211611024648451, 5246981569358911197049191567214980518),
    ;
    lemma_power_round(a, n, e9, x9, 1, a, x10);
    let e10: nat = 2 * e9 + 1;
    let x11: int = wide(0, 41782527366333618829388494686735867531, 65686868234685027908798901145311052483);
    assert((x10 * x10 * a) % n == x11) by (nonlinear_arith)
        requires
            n == wide(2, 18882428718392752222464057452572750885, 48364400416034343698204186575808495617),
            a == 2,
            x10 == wide(0, 6833424109714541297894211611024648451, 5246981569358911197049191567214980518),
            x11 == wide(0, 41782527366333618829388494686735867531, 65686868234685027908798901145311052483),
    ;
    lemma_power_round(a, n, e10, x10, 1, a, x11);
    let e11: nat = 2 * e10 + 1;
    let x12: int = wide(0, 61284423940841882469091002264930969890, 92498916230794309779919028327380626102);
    assert((x11 * x11 * a) % n == x12) by (nonlinear_arith)
        requires
            n == wide(2, 18882428718392752222464057452572750885, 48364400416034343698204186575808495617),
            a == 2,
            x11 == wide(0, 41782527366333618829388494686735867531, 65686868234685027908798901145311052483),
            x12 == wide(0, 61284423940841882469091002264930969890, 92498916230794309779919028327380626102),
    ;
    lemma_power_round(a, n, e11, x11, 1, a, x12);
    let e12: nat = 2 * e11 + 1;
    let x13: int = wide(0, 42870380174813595472363695606540019953, 72778663276240691087960217930265461865);
    assert((x12 * x12 * 1) % n == x13) by (nonlinear_arith)
        requires
            n == wide(2, 18882428718392752222464057452572750885, 48364400416034343698204186575808495617),
            x12 == wide(0, 61284423940841882469091002264930969890, 92498916230794309779919028327380626102),
            x13 == wide(0, 42870380174813595472363695606540019953, 72778663276240691087960217930265461865),
    ;
    lemma_power_round(a, n, e12, x12, 0, 1, x13);
    let e13: nat = 2 * e12 + 0;
    let x14: int = wide(1, 99450445368278747302789537099847778365, 65870148438674734439854367975384274895);
    assert((x13 * x13 * a) % n == x14) by (nonlinear_arith)
        requires
            n == wide(2, 18882428718392752222464057452572750885, 48364400416034343698204186575808495617),
            a == 2,
            x13 == wide(0, 42870380174813595472363695606540019953, 72778663276240691087960217930265461865),
            x14 == wide(1, 99450445368278747302789537099847778365, 65870148438674734439854367975384274895),
    ;
    lemma_power_round(a, n, e13, x13, 1, a, x14);
    let e14: nat = 2 * e13 + 1;
    let x15: int = wide(0, 21847007424168465226327192384363604617, 55162885661464090886489740078869727874);
    assert((x14 * x14 * a) % n == x15) by (nonlinear_arith)
        requires
            n == wide(2, 18882428718392752222464057452572750885, 48364400416034343698204186575808495617),
            a == 2,
            x14 == wide(1, 99450445368278747302789537099847778365, 65870148438674734439854367975384274895),
            x15 == wide(0, 21847007424168465226327192384363604617, 55162885661464090886489740078869727874),
    ;
    lemma_power_round(a, n, e14, x14, 1, a, x15);
    let e15: nat = 2 * e14 + 1;
    let x16: int = wide(0, 76430615622453038344952763363759765212, 39212221038662742386636091263831788984);
    assert((x15 * x15 * a) % n == x16) by (nonlinear_arith)
        requires
            n == wide(2, 18882428718392752222464057452572750885, 48364400416034343698204186575808495617),
            a == 2,
            x15 == wide(0, 21847007424168465226327192384363604617, 55162885661464090886489740078869727874),
            x16 == wide(0, 76430615622453038344952763363759765212, 39212221038662742386636091263831788984),
    ;
    lemma_power_round(a, n, e15, x15, 1, a, x16);
    let e16: nat = 2 * e15 + 1;
    let x17: int = wide(0, 34389448096048418318524367363383547696, 56164677760082546304675724933690967247);
    assert((x16 * x16 * 1) % n == x17) by (nonlinear_arith)
        requires
            n == wide(2, 18882428718392752222464057452572750885, 48364400416034343698204186575808495617),
            x16 == wide(0, 76430615622453038344952763363759765212, 39212221038662742386636091263831788984),
            x17 == wide(0, 34389448096048418318524367363383547696, 56164677760082546304675724933690967247),
    ;
    lemma_power_round(a, n, e16, x16, 0, 1, x17);
    let e17: nat = 2 * e16 + 0;
    let x18: int = wide(0, 76592096432415121224841227525575072341, 76540586377996843157824907879398290786);
    assert((x17 * x17 * 1) % n == x18) by (nonlinear_arith)
        requires
            n == wide(2, 18882428718392752222464057452572750885, 48364400416034343698204186575808495617),
            x17 == wide(0, 34389448096048418318524367363383547696, 56164677760082546304675724933690967247),
            x18 == wide(0, 76592096432415121224841227525575072341, 76540586377996843157824907879398290786),
    ;
    lemma_power_round(a, n, e17, x17, 0, 1, x18);
    let e18: nat = 2 * e17 + 0;
    let x19: int = wide(1, 87632530478677969948163944580791699786, 49596714827568093915113845287634272053);
    assert((x18 * x18 * 1) % n == x19) by (nonlinear_arith)
        requires
            n == wide(2, 18882428718392752222464057452572750885, 48364400416034343698204186575808495617),
            x18 == wide(0, 76592096432415121224841227525575072341, 76540586377996843157824907879398290786),
            x19 == wide(1, 87632530478677969948163944580791699786, 49596714827568093915113845287634272053),
    ;
    lemma_power_round(a, n, e18, x18, 0, 1, x19);
    let e19: nat = 2 * e18 + 0;
    let x20: int = wide(0, 79498169047288948832413137970415587199, 25313413050338621190488762467193648727);
    assert((x19 * x19 * a) % n == x20) by (nonlinear_arith)
        requires
            n == wide(2, 18882428718392752222464057452572750885, 48364400416034343698204186575808495617),
            a == 2,
            x19 == wide(1, 87632530478677969948163944580791699786, 49596714827568093915113845287634272053),
            x20 == wide(0, 79498169047288948832413137970415587199, 25313413050338621190488762467193648727),
    ;
    lemma_power_round(a, n, e19, x19, 1, a, x20);
    let e20: nat = 2 * e19 + 1;
    let x21: int = wide(0, 90414132982384140676342916271930319986, 28889990551041150706317476559677122190);
    assert((x20 * x20 * 1) % n == x21) by (nonlinear_arith)
        requires
            n == wide(2, 18882428718392752222464057452572750885, 48364400416034343698204186575808495617),
            x20 == wide(0, 79498169047288948832413137970415587199, 25313413050338621190488762467193648727),
            x21 == wide(0, 90414132982384140676342916271930319986, 28889990551041150706317476559677122190),
    ;
    lemma_power_round(a, n, e20, x20, 0, 1, x21);
    let e21: nat = 2 * e20 + 0;
    let x22: int = wide(1, 94933747810355315099467593679534200750, 77720681377220355569585979969883532877);
    assert((x21 * x21 * a) % n == x22) by (nonlinear_arith)
        requires
            n == wide(2, 18882428718392752222464057452572750885, 48364400416034343698204186575808495617),
            a == 2,
            x21 == wide(0, 90414132982384140676342916271930319986, 28889990551041150706317476559677122190),
            x22 == wide(1, 94933747810355315099467593679534200750, 77720681377220355569585979969883532877),
    ;
    lemma_power_round(a, n, e21, x21, 1, a, x22);
    let e22: nat = 2 * e21 + 1;
    let x23: int = wide(1, 73387781812547862068023518177701017771, 51100354557366796471939232055235755495);
    assert((x22 * x22 * a) % n == x23) by (nonlinear_arith)
        requires
            n == wide(2, 18882428718392752222464057452572750885, 48364400416034343698204186575808495617),
            a == 2,
            x22 == wide(1, 94933747810355315099467593679534200750, 77720681377220355569585979969883532877),
            x23 == wide(1, 73387781812547862068023518177701017771, 51100354557366796471939232055235755495),
    ;
    lemma_power_round(a, n, e22, x22, 1, a, x23);
    let e23: nat = 2 * e22 + 1;
    let x24: int = wide(0, 55484640126290417477265720716803923110, 3330784785643055223681250209281582042);
    assert((x23 * x23 * a) % n == x24) by (nonlinear_arith)
        requires
            n == wide(2, 18882428718392752222464057452572750885, 48364400416034343698204186575808495617),
            a == 2,
            x23 == wide(1, 73387781812547862068023518177701017771, 51100354557366796471939232055235755495),
            x24 == wide(0, 55484640126290417477265720716803923110, 3330784785643055223681250209281582042),
    ;
    lemma_power_round(a, n, e23, x23, 1, a, x24);
    let e24: nat = 2 * e23 + 1;
    let x25: int = wide(0, 15716416576186851746113896367147476735, 27098316290199013117156410078904412802);
    assert((x24 * x24 * 1) % n == x25) by (nonlinear_arith)
        requires
            n == wide(2, 18882428718392752222464057452572750885, 48364400416034343698204186575808495617),
            x24 == wide(0, 55484640126290417477265720716803923110, 3330784785643055223681250209281582042),
            x25 == wide(0, 15716416576186851746113896367147476735, 27098316290199013117156410078904412802),
    ;
    lemma_power_round(a, n, e24, x24, 0, 1, x25);
    let e25: nat = 2 * e24 + 0;
    let x26: int = wide(2, 5556667031546216624066060005027788817, 15961068649092935860302326390045167500);
    assert((x25 * x25 * 1) % n == x26) by (nonlinear_arith)
        requires
            n == wide(2, 18882428718392752222464057452572750885, 48364400416034343698204186575808495617),
            x25 == wide(0, 15716416576186851746113896367147476735, 27098316290199013117156410078904412802),
            x26 == wide(2, 5556667031546216624066060005027788817, 15961068649092935860302326390045167500),
    ;
    lemma_power_round(a, n, e25, x25, 0, 1, x26);
    let e26: nat = 2 * e25 + 0;
    let x27: int = wide(0, 75124367762558436341768023628456984905, 3658994623506199581386877870445541846);
    assert((x26 * x26 * a) % n == x27) by (nonlinear_arith)
        requires
            n == wide(2, 18882428718392752222464057452572750885, 48364400416034343698204186575808495617),
            a == 2,
            x26 == wide(2, 5556667031546216624066060005027788817, 15961068649092935860302326390045167500),
            x27 == wide(0, 75124367762558436341768023628456984905, 3658994623506199581386877870445541846),
    ;
    lemma_power_round(a, n, e26, x26, 1, a, x27);
    let e27: nat = 2 * e26 + 1;
    let x28: int = wide(1, 17689903735025815385840470520805028663, 35057946401807821350748120492836012155);
    assert((x27 * x27 * 1) % n == x28) by (nonlinear_arith)
        requires
            n == wide(2, 18882428718392752222464057452572750885, 48364400416034343698204186575808495617),
            x27 == wide(0, 75124367762558436341768023628456984905, 3658994623506199581386877870445541846),
            x28 == wide(1, 17689903735025815385840470520805028663, 35057946401807821350748120492836012155),
    ;
    lemma_power_round(a, n, e27, x27, 0, 1, x28);
    let e28: nat = 2 * e27 + 0;
    let x29: int = wide(0, 24027312834489225046967993407727697881, 13962573421583141453725518288147813354);
    assert((x28 * x28 * 1) % n == x29) by (nonlinear_arith)
        requires
            n == wide(2, 18882428718392752222464057452572750885, 48364400416034343698204186575808495617),
            x28 == wide(1, 17689903735025815385840470520805028663, 35057946401807821350748120492836012155),
            x29 == wide(0, 24027312834489225046967993407727697881, 13962573421583141453725518288147813354),
    ;
    lemma_power_round(a, n, e28, x28, 0, 1, x29);
    let e29: nat = 2 * e28 + 0;
    let x30: int = wide(1, 61155221745363899113393616395736588438, 16537878090415721063258294031486998371);
    assert((x29 * x29 * 1) % n == x30) by (nonlinear_arith)
        requires
            n == wide(2, 18882428718392752222464057452572750885, 48364400416034343698204186575808495617),
            x29 == wide(0, 24027312834489225046967993407727697881, 13962573421583141453725518288147813354),
            x30 == wide(1, 61155221745363899113393616395736588438, 16537878090415721063258294031486998371),
    ;
    lemma_power_round(a, n, e29, x29, 0, 1, x30);
    let e30: nat = 2 * e29 + 0;
    let x31: int = wide(1, 85479105078022914860362148422919240653, 63954793844548164695358659459211699151);
    assert((x30 * x30 * 1) % n == x31) by (nonlinear_arith)
        requires
            n == wide(2, 18882428718392752222464057452572750885, 48364400416034343698204186575808495617),
            x30 == wide(1, 61155221745363899113393616395736588438, 16537878090415721063258294031486998371),
            x31 == wide(1, 85479105078022914860362148422919240653, 63954793844548164695358659459211699151),
    ;
    lemma_power_round(a, n, e30, x30, 0, 1, x31);
    let e31: nat = 2 * e30 + 0;
    let x32: int = wide(0, 2373019125259650442881984857238430067, 7600638750601599556766158988129731438);
    assert((x31 * x31 * 1) % n == x32) by (nonlinear_arith)
        requires
            n == wide(2, 18882428718392752222464057452572750885, 48364400416034343698204186575808495617),
            x31 == wide(1, 85479105078022914860362148422919240653, 63954793844548164695358659459211699151),
            x32 == wide(0, 2373019125259650442881984857238430067, 7600638750601599556766158988129731438),
    ;
    lemma_power_round(a, n, e31, x31, 0, 1, x32);
    let e32: nat = 2 * e31 + 0;
    let x33: int = wide(0, 75110129022980680916437300088943528115, 43012315810426360337578562144315195833);
    assert((x32 * x32 * 1) % n == x33) by (nonlinear_arith)
        requires
            n == wide(2, 18882428718392752222464057452572750885, 48364400416034343698204186575808495617),
            x32 == wide(0, 2373019125259650442881984857238430067, 7600638750601599556766158988129731438),
            x33 == wide(0, 75110129022980680916437300088943528115, 43012315810426360337578562144315195833),
    ;
    lemma_power_round(a, n, e32, x32, 0, 1, x33);
    let e33: nat = 2 * e32 + 0;
    let x34: int = wide(1, 46014599637915679250855852390014091441, 25276168500395333304014495767789645402);
    assert((x33 * x33 * 1) % n == x34) by (nonlinear_arith)
        requires
            n == wide(2, 18882428718392752222464057452572750885, 48364400416034343698204186575808495617),
            x33 == wide(0, 75110129022980680916437300088943528115, 43012315810426360337578562144315195833),
            x34 == wide(1, 46014599637915679250855852390014091441, 25276168500395333304014495767789645402),
    ;
    lemma_power_round(a, n, e33, x33, 0, 1, x34);
    let e34: nat = 2 * e33 + 0;
    let x35: int = wide(1, 45424405757841123081466982413685794516, 72999820990563443641854589780047316834);
    assert((x34 * x34 * a) % n == x35) by (nonlinear_arith)
        requires
            n == wide(2, 18882428718392752222464057452572750885, 48364400416034343698204186575808495617),
            a == 2,
            x34 == wide(1, 46014599637915679250855852390014091441, 25276168500395333304014495767789645402),
            x35 == wide(1, 45424405757841123081466982413685794516, 72999820990563443641854589780047316834),
    ;
    lemma_power_round(a, n, e34, x34, 1, a, x35);
    let e35: nat = 2 * e34 + 1;
    let x36: int = wide(1, 88303158933383090553847460069094537084, 3419219060320622636976353996598938572);
    assert((x35 * x35 * 1) % n == x36) by (nonlinear_arith)
        requires
            n == wide(2, 18882428718392752222464057452572750885, 48364400416034343698204186575808495617),
            x35 == wide(1, 45424405757841123081466982413685794516, 72999820990563443641854589780047316834),
            x36 == wide(1, 88303158933383090553847460069094537084, 3419219060320622636976353996598938572),
    ;
    lemma_power_round(a, n, e35, x35, 0, 1, x36);
    let e36: nat = 2 * e35 + 0;
    let x37: int = wide(0, 49964613356522992362246815104784412950, 97364882978995918573512141954281577837);
    assert((x36 * x36 * a) % n == x37) by (nonlinear_arith)
        requires
            n == wide(2, 18882428718392752222464057452572750885, 48364400416034343698204186575808495617),
            a == 2,
            x36 == wide(1, 88303158933383090553847460069094537084, 3419219060320622636976353996598938572),
            x37 == wide(0, 49964613356522992362246815104784412950, 97364882978995918573512141954281577837),
    ;
    lemma_power_round(a, n, e36, x36, 1, a, x37);
    let e37: nat = 2 * e36 + 1;
    let x38: int = wide(0, 6158633751587910464792952673294110457, 26487295432201979146755512006040680428);
    assert((x37 * x37 * 1) % n == x38) by (nonlinear_arith)
        requires
            n == wide(2, 18882428718392752222464057452572750885, 48364400416034343698204186575808495617),
            x37 == wide(0, 49964613356522992362246815104784412950, 97364882978995918573512141954281577837),
            x38 == wide(0, 6158633751587910464792952673294110457, 26487295432201979146755512006040680428),
    ;
    lemma_power_round(a, n, e37, x37, 0, 1, x38);
    let e38: nat = 2 * e37 + 0;
    let x39: int = wide(2, 14285344279679827544423644474630165266, 91516067250994908912576884287569333112);
    assert((x38 * x38 * a) % n == x39) by (nonlinear_arith)
        requires
            n == wide(2, 18882428718392752222464057452572750885, 48364400416034343698204186575808495617),
            a == 2,
            x38 == wide(0, 6158633751587910464792952673294110457, 26487295432201979146755512006040680428),
            x39 == wide(2, 14285344279679827544423644474630165266, 91516067250994908912576884287569333112),
    ;
    lemma_power_round(a, n, e38, x38, 1, a, x39);
    let e39: nat = 2 * e38 + 1;
    let x40: int = wide(0, 28818467768703784462527396774448546752, 96576879709586516852528277723308776573);
    assert((x39 * x39 * 1) % n == x40) by (nonlinear_arith)
        requires
            n == wide(2, 18882428718392752222464057452572750885, 48364400416034343698204186575808495617),
            x39 == wide(2, 14285344279679827544423644474630165266, 91516067250994908912576884287569333112),
            x40 == wide(0, 28818467768703784462527396774448546752, 96576879709586516852528277723308776573),
    ;
    lemma_power_round(a, n, e39, x39, 0, 1, x40);
    let e40: nat = 2 * e39 + 0;
    let x41: int = wide(0, 9756741860499224050382812658664466269, 16370419405741959048858648406246019622);
    assert((x40 * x40 * 1) % n == x41) by (nonlinear_arith)
        requires
            n == wide(2, 18882428718392752222464057452572750885, 48364400416034343698204186575808495617),
            x40 == wide(0, 28818467768703784462527396774448546752, 96576879709586516852528277723308776573),
            x41 == wide(0, 9756741860499224050382812658664466269, 16370419405741959048858648406246019622),
    ;
    lemma_power_round(a, n, e40, x40, 0, 1, x41);
    let e41: nat = 2 * e40 + 0;
    let x42: int = wide(1, 7761307149366731218471529430349325515, 48514383908132918775987195292463804921);
    assert((x41 * x41 * a) % n == x42) by (nonlinear_arith)
        requires
            n == wide(2, 18882428718392752222464057452572750885, 48364400416034343698204186575808495617),
            a == 2,
            x41 == wide(0, 9756741860499224050382812658664466269, 16370419405741959048858648406246019622),
            x42 == wide(1, 7761307149366731218471529430349325515, 48514383908132918775987195292463804921),
    ;
    lemma_power_round(a, n, e41, x41, 1, a, x42);
    let e42: nat = 2 * e41 + 1;
    let x43: int = wide(0, 35010606229393252217235505892568168746, 91959298924858620295972010261768278436);
    assert((x42 * x42 * 1) % n == x43) by (nonlinear_arith)
        requires
            n == wide(2, 18882428718392752222464057452572750885, 48364400416034343698204186575808495617),
            x42 == wide(1, 7761307149366731218471529430349325515, 48514383908132918775987195292463804921),
            x43 == wide(0, 35010606229393252217235505892568168746, 91959298924858620295972010261768278436),
    ;
    lemma_power_round(a, n, e42, x42, 0, 1, x43);
    let e43: nat = 2 * e42 + 0;
    let x44: int = wide(1, 34484243181560894662395410677631037998, 85243270638594103324139200620026940023);
    assert((x43 * x43 * a) % n == x44) by (nonlinear_arith)
        requires
            n == wide(2, 18882428718392752222464057452572750885, 48364400416034343698204186575808495617),
            a == 2,
            x43 == wide(0, 35010606229393252217235505892568168746, 91959298924858620295972010261768278436),
            x44 == wide(1, 34484243181560894662395410677631037998, 85243270638594103324139200620026940023),
    ;
    lemma_power_round(a, n, e43, x43, 1, a, x44);
    let e44: nat = 2 * e43 + 1;
    let x45: int = wide(1, 47054535195053079953306091532903096588, 76798535266815133745559462215113381226);
    assert((x44 * x44 * a) % n == x45) by (nonlinear_arith)
        requires
            n == wide(2, 18882428718392752222464057452572750885, 48364400416034343698204186575808495617),
            a == 2,
            x44 == wide(1, 34484243181560894662395410677631037998, 85243270638594103324139200620026940023),
            x45 == wide(1, 47054535195053079953306091532903096588, 76798535266815133745559462215113381226),
    ;
    lemma_power_round(a, n, e44, x44, 1, a, x45);
    let e45: nat = 2 * e44 + 1;
    let x46: int = wide(0, 38311659780402044880673199061454120817, 8929870816627290265247926304057320850);
    assert((x45 * x45 * 1) % n == x46) by (nonlinear_arith)
        requires
            n == wide(2, 18882428718392752222464057452572750885, 48364400416034343698204186575808495617),
            x45 == wide(1, 47054535195053079953306091532903096588, 76798535266815133745559462215113381226),
            x46 == wide(0, 38311659780402044880673199061454120817, 8929870816627290265247926304057320850),
    ;
    lemma_power_round(a, n, e45, x45, 0, 1, x46);
    let e46: nat = 2 * e45 + 0;
    let x47: int = wide(1, 90121898814818318387444376413257944931, 14943573920637569288050273298419408395);
    assert((x46 * x46 * 1) % n == x47) by (nonlinear_arith)
        requires
            n == wide(2, 18882428718392752222464057452572750885, 48364400416034343698204186575808495617),
            x46 == wide(0, 38311659780402044880673199061454120817, 8929870816627290265247926304057320850),
            x47 == wide(1, 90121898814818318387444376413257944931, 14943573920637569288050273298419408395),
    ;
    lemma_power_round(a, n, e46, x46, 0, 1, x47);
    let e47: nat = 2 * e46 + 0;
    let x48: int = wide(0, 68330873077974918161671251964353154472, 38093280456905846939843903850147497448);
    assert((x47 * x47 * 1) % n == x48) by (nonlinear_arith)
        requires
            n == wide(2, 18882428718392752222464057452572750885, 48364400416034343698204186575808495617),
            x47 == wide(1, 90121898814818318387444376413257944931, 14943573920637569288050273298419408395),
            x48 == wide(0, 68330873077974918161671251964353154472, 38093280456905846939843903850147497448),
    ;
    lemma_power_round(a, n, e47, x47, 0, 1, x48);
    let e48: nat = 2 * e47 + 0;
    let x49: int = wide(0, 78560470348661979472069149118413539814, 99642249067212891172556289181342892557);
    assert((x48 * x48 * a) % n == x49) by (nonlinear_arith)
        requires
            n == wide(2, 18882428718392752222464057452572750885, 48364400416034343698204186575808495617),
            a == 2,
            x48 == wide(0, 68330873077974918161671251964353154472, 38093280456905846939843903850147497448),
            x49 == wide(0, 78560470348661979472069149118413539814, 99642249067212891172556289181342892557),
    ;
    lemma_power_round(a, n, e48, x48, 1, a, x49);
    let e49: nat = 2 * e48 + 1;
    let x50: int = wide(0, 62731290522058399705451647804664812524, 13500430122694314768516248080968574080);
    assert((x49 * x49 * 1) % n == x50) by (nonlinear_arith)
        requires
            n == wide(2, 18882428718392752222464057452572750885, 48364400416034343698204186575808495617),
            x49 == wide(0, 78560470348661979472069149118413539814, 99642249067212891172556289181342892557),
            x50 == wide(0, 62731290522058399705451647804664812524, 13500430122694314768516248080968574080),
    ;
    lemma_power_round(a, n, e49, x49, 0, 1, x50);
    let e50: nat = 2 * e49 + 0;
    let x51: int = wide(0, 26001970161473666023435173456970968827, 13888283375997171376274741851459875905);
    assert((x50 * x50 * a) % n == x51) by (nonlinear_arith)
        requires
            n == wide(2, 18882428718392752222464057452572750885, 48364400416034343698204186575808495617),
            a == 2,
            x50 == wide(0, 62731290522058399705451647804664812524, 13500430122694314768516248080968574080),
            x51 == wide(0, 26001970161473666023435173456970968827, 13888283375997171376274741851459875905),
    ;
    lemma_power_round(a, n, e50, x50, 1, a, x51);
    let e51: nat = 2 * e50 + 1;
    let x52: int = wide(1, 83343414698907412749370137697441104108, 20127855328678913321315621749944966985);
    assert((x51 * x51 * 1) % n == x52) by (nonlinear_arith)
        requires
            n == wide(2, 18882428718392752222464057452572750885, 48364400416034343698204186575808495617),
            x51 == wide(0, 26001970161473666023435173456970968827, 13888283375997171376274741851459875905),
            x52 == wide(1, 83343414698907412749370137697441104108, 20127855328678913321315621749944966985),
    ;
    lemma_power_round(a, n, e51, x51, 0, 1, x52);
    let e52: nat = 2 * e51 + 0;
    let x53: int = wide(0, 14664260098081299117086652476668321990, 37017371604559362830568111492647947263);
    assert((x52 * x52 * a) % n == x53) by (nonlinear_arith)
        requires
            n == wide(2, 18882428718392752222464057452572750885, 48364400416034343698204186575808495617),
            a == 2,
            x52 == wide(1, 83343414698907412749370137697441104108, 20127855328678913321315621749944966985),
            x53 == wide(0, 14664260098081299117086652476668321990, 37017371604559362830568111492647947263),
    ;
    lemma_power_round(a, n, e52, x52, 1, a, x53);
    let e53: nat = 2 * e52 + 1;
    let x54: int = wide(0, 31219460032126590930680808193256308015, 94182645828112676265997023472460346825);
    assert((x53 * x53 * 1) % n == x54) by (nonlinear_arith)
        requires
            n == wide(2, 18882428718392752222464057452572750885, 48364400416034343698204186575808495617),
            x53 == wide(0, 14664260098081299117086652476668321990, 37017371604559362830568111492647947263),
            x54 == wide(0, 31219460032126590930680808193256308015, 94182645828112676265997023472460346825),
    ;
    lemma_power_round(a, n, e53, x53, 0, 1, x54);
    let e54: nat = 2 * e53 + 0;
    let x55: int = wide(0, 56047136402968071011026358880671543646, 94882474364537871947138324806210174271);
    assert((x54 * x54 * a) % n == x55) by (nonlinear_arith)
        requires
            n == wide(2, 18882428718392752222464057452572750885, 48364400416034343698204186575808495617),
            a == 2,
            x54 == wide(0, 31219460032126590930680808193256308015, 94182645828112676265997023472460346825),
            x55 == wide(0, 56047136402968071011026358880671543646, 94882474364537871947138324806210174271),
    ;
    lemma_power_round(a, n, e54, x54, 1, a, x55);
    let e55: nat = 2 * e54 + 1;
    let x56: int = wide(1, 66805391973152922386691323937356017793, 40948210924412072708912534003079304216);
    assert((x55 * x55 * 1) % n == x56) by (nonlinear_arith)
        requires
            n == wide(2, 18882428718392752222464057452572750885, 48364400416034343698204186575808495617),
            x55 == wide(0, 56047136402968071011026358880671543646, 94882474364537871947138324806210174271),
            x56 == wide(1, 66805391973152922386691323937356017793, 40948210924412072708912534003079304216),
    ;
    lemma_power_round(a, n, e55, x55, 0, 1, x56);
    let e56: nat = 2 * e55 + 0;
    let x57: int = wide(0, 55314359102738544606044852029539574503, 6215016024043477396683524246571191879);
    assert((x56 * x56 * 1) % n == x57) by (nonlinear_arith)
        requires
            n == wide(2, 18882428718392752222464057452572750885, 48364400416034343698204186575808495617),
            x56 == wide(1, 66805391973152922386691323937356017793, 40948210924412072708912534003079304216),
            x57 == wide(0, 55314359102738544606044852029539574503, 6215016024043477396683524246571191879),
    ;
    lemma_power_round(a, n, e56, x56, 0, 1, x57);
    let e57: nat = 2 * e56 + 0;
    let x58: int = wide(1, 1975654993608442942214630763833613425, 50683510436045892384485447267239098222);
    assert((x57 * x57 * 1) % n == x58) by (nonlinear_arith)
        requires
            n == wide(2, 18882428718392752222464057452572750885, 48364400416034343698204186575808495617),
            x57 == wide(0, 55314359102738544606044852029539574503, 6215016024043477396683524246571191879),
            x58 == wide(1, 1975654993608442942214630763833613425, 50683510436045892384485447267239098222),
    ;
    lemma_power_round(a, n, e57, x57, 0, 1, x58);
    let e58: nat = 2 * e57 + 0;
    let x59: int = wide(1, 66750450977883346441776882666338215035, 54173174201890538456543140773360876753);
    assert((x58 * x58 * a) % n == x59) by (nonlinear_arith)
        requires
            n == wide(2, 18882428718392752222464057452572750885, 48364400416034343698204186575808495617),
            a == 2,
            x58 == wide(1, 1975654993608442942214630763833613425, 50683510436045892384485447267239098222),
            x59 == wide(1, 66750450977883346441776882666338215035, 54173174201890538456543140773360876753),
    ;
    lemma_power_round(a, n, e58, x58, 1, a, x59);
    let e59: nat = 2 * e58 + 1;
    let x60: int = wide(0, 96158584086834051981971516806711299557, 89313064786180126066582650909477306971);
    assert((x59 * x59 * a) % n == x60) by (nonlinear_arith)
        requires
            n == wide(2, 18882428718392752222464057452572750885, 48364400416034343698204186575808495617),
            a == 2,
            x59 == wide(1, 66750450977883346441776882666338215035, 54173174201890538456543140773360876753),
            x60 == wide(0, 96158584086834051981971516806711299557, 89313064786180126066582650909477306971),
    ;
    lemma_power_round(a, n, e59, x59, 1, a, x60);
    let e60: nat = 2 * e59 + 1;
    let x61: int = wide(2, 14384897736009411413708411634145537865, 39371531388977385856700623171511103604);
    assert((x60 * x60 * 1) % n == x61) by (nonlinear_arith)
        requires
            n == wide(2, 18882428718392752222464057452572750885, 48364400416034343698204186575808495617),
            x60 == wide(0, 96158584086834051981971516806711299557, 89313064786180126066582650909477306971),
            x61 == wide(2, 14384897736009411413708411634145537865, 39371531388977385856700623171511103604),
    ;
    lemma_power_round(a, n, e60, x60, 0, 1, x61);
    let e61: nat = 2 * e60 + 0;
    let x62: int = wide(1, 10058318956822926168746232411270819790, 34209184058250271500995095251917767923);
    assert((x61 * x61 * 1) % n == x62) by (nonlinear_arith)
        requires
            n == wide(2, 18882428718392752222464057452572750885, 48364400416034343698204186575808495617),
            x61 == wide(2, 14384897736009411413708411634145537865, 39371531388977385856700623171511103604),
            x62 == wide(1, 10058318956822926168746232411270819790, 34209184058250271500995095251917767923),
    ;
    lemma_power_round(a, n, e61, x61, 0, 1, x62);
    let e62: nat = 2 * e61 + 0;
    let x63: int = wide(0, 96219109035993289955200811528679855257, 11372213690704271988672328849389906498);
    assert((x62 * x62 * a) % n == x63) by (nonlinear_arith)
        requires
            n == wide(2, 18882428718392752222464057452572750885, 48364400416034343698204186575808495617),
            a == 2,
            x62 == wide(1, 10058318956822926168746232411270819790, 34209184058250271500995095251917767923),
            x63 == wide(0, 96219109035993289955200811528679855257, 11372213690704271988672328849389906498),
    ;
    lemma_power_round(a, n, e62, x62, 1, a, x63);
    let e63: nat = 2 * e62 + 1;
    let x64: int = wide(2, 9581316835180742033411841866261454263, 44209056491932222329891275714389900927);
    assert((x63 * x63 * a) % n == x64) by (nonlinear_arith)
        requires
            n == wide(2, 18882428718392752222464057452572750885, 48364400416034343698204186575808495617),
            a == 2,
            x63 == wide(0, 96219109035993289955200811528679855257, 11372213690704271988672328849389906498),
            x64 == wide(2, 9581316835180742033411841866261454263, 44209056491932222329891275714389900927),
    ;
    lemma_power_round(a, n, e63, x63, 1, a, x64);
    let e64: nat = 2 * e63 + 1;
    let x65: int = wide(0, 92608081637492516214772778801610789647, 8696031668442596838052708421179863549);
    assert((x64 * x64 * a) % n == x65) by (nonlinear_arith)
        requires
            n == wide(2, 18882428718392752222464057452572750885, 48364400416034343698204186575808495617),
            a == 2,
            x64 == wide(2, 9581316835180742033411841866261454263, 44209056491932222329891275714389900927),
            x65 == wide(0, 92608081637492516214772778801610789647, 8696031668442596838052708421179863549),
    ;
    lemma_power_round(a, n, e64, x64, 1, a, x65);
    let e65: nat = 2 * e64 + 1;
    let x66: int = wide(1, 34175841756306855116827885803606054849, 88539702517985764054206291413765466035);
    assert((x65 * x65 * 1) % n == x66) by (nonlinear_arith)
        requires
            n == wide(2, 18882428718392752222464057452572750885, 48364400416034343698204186575808495617),
            x65 == wide(0, 92608081637492516214772778801610789647, 8696031668442596838052708421179863549),
            x66 == wide(1, 34175841756306855116827885803606054849, 88539702517985764054206291413765466035),
    ;
    lemma_power_round(a, n, e65, x65, 0, 1, x66);
    let e66: nat = 2 * e65 + 0;
    let x67: int = wide(0, 27370731355614277537490818210201883485, 34957603465324010054493628783734283297);
    assert((x66 * x66 * 1) % n == x67) by (nonlinear_arith)
        requires
            n == wide(2, 18882428718392752222464057452572750885, 48364400416034343698204186575808495617),
            x66 == wide(1, 34175841756306855116827885803606054849, 88539702517985764054206291413765466035),
            x67 == wide(0, 27370731355614277537490818210201883485, 34957603465324010054493628783734283297),
    ;
    lemma_power_round(a, n, e66, x66, 0, 1, x67);
    let e67: nat = 2 * e66 + 0;
    let x68: int = wide(0, 96675320897744940090616194326356062277, 42254320759412545224038700569997092489);
    assert((x67 * x67 * 1) % n == x68) by (nonlinear_arith)
        requires
            n == wide(2, 18882428718392752222464057452572750885, 48364400416034343698204186575808495617),
            x67 == wide(0, 27370731355614277537490818210201883485, 34957603465324010054493628783734283297),
            x68 == wide(0, 96675320897744940090616194326356062277, 42254320759412545224038700569997092489),
    ;
    lemma_power_round(a, n, e67, x67, 0, 1, x68);
    let e68: nat = 2 * e67 + 0;
    let x69: int = wide(0, 13572534737773296984937029316517748230, 85236120351887775026770730762596160718);
    assert((x68 * x68 * a) % n == x69) by (nonlinear_arith)
        requires
            n == wide(2, 18882428718392752222464057452572750885, 48364400416034343698204186575808495617),
            a == 2,
            x68 == wide(0, 96675320897744940090616194326356062277, 42254320759412545224038700569997092489),
            x69 == wide(0, 13572534737773296984937029316517748230, 85236120351887775026770730762596160718),
    ;
    lemma_power_round(a, n, e68, x68, 1, a, x69);
    let e69: nat = 2 * e68 + 1;
    let x70: int = wide(0, 49987553201822842046890670658471501056, 74725960292378345315704547477701871666);
    assert((x69 * x69 * a) % n == x70) by (nonlinear_arith)
        requires
            n == wide(2, 18882428718392752222464057452572750885, 48364400416034343698204186575808495617),
            a == 2,
            x69 == wide(0, 13572534737773296984937029316517748230, 85236120351887775026770730762596160718),
            x70 == wide(0, 49987553201822842046890670658471501056, 74725960292378345315704547477701871666),
    ;
    lemma_power_round(a, n, e69, x69, 1, a, x70);
    let e70: nat = 2 * e69 + 1;
    let x71: int = wide(0, 90708465364387725054910040347522525447, 52740686062823770317167409276154117442);
    assert((x70 * x70 * 1) % n == x71) by (nonlinear_arith)
        requires
            n == wide(2, 18882428718392752222464057452572750885, 48364400416034343698204186575808495617),
            x70 == wide(0, 49987553201822842046890670658471501056, 74725960292378345315704547477701871666),
            x71 == wide(0, 90708465364387725054910040347522525447, 52740686062823770317167409276154117442),
    ;
    lemma_power_round(a, n, e70, x70, 0, 1, x71);
    let e71: nat = 2 * e70 + 0;
    let x72: int = wide(0, 6533030072417315127965868211637615257, 98825065657732063651183085957381037173);
    assert((x71 * x71 * a) % n == x72) by (nonlinear_arith)
        requires
            n == wide(2, 18882428718392752222464057452572750885, 48364400416034343698204186575808495617),
            a == 2,
            x71 == wide(0, 90708465364387725054910040347522525447, 52740686062823770317167409276154117442),
            x72 == wide(0, 6533030072417315127965868211637615257, 98825065657732063651183085957381037173),
    ;
    lemma_power_round(a, n, e71, x71, 1, a, x72);
    let e72: nat = 2 * e71 + 1;
    let x73: int = wide(1, 2013883102416050235879697407729692093, 27549779200181896757880614794769090139);
    assert((x72 * x72 * 1) % n == x73) by (nonlinear_arith)
        requires
            n == wide(2, 18882428718392752222464057452572750885, 48364400416034343698204186575808495617),
            x72 == wide(0, 6533030072417315127965868211637615257, 98825065657732063651183085957381037173),
            x73 == wide(1, 2013883102416050235879697407729692093, 27549779200181896757880614794769090139),
    ;
    lemma_power_round(a, n, e72, x72, 0, 1, x73);
    let e73: nat = 2 * e72 + 0;
    let x74: int = wide(1, 57452670015999698657800523828462355573, 76723581615501627813198049607326788057);
    assert((x73 * x73 * a) % n == x74) by (nonlinear_arith)
        requires
            n == wide(2, 18882428718392752222464057452572750885, 48364400416034343698204186575808495617),
            a == 2,
            x73 == wide(1, 2013883102416050235879697407729692093, 27549779200181896757880614794769090139),
            x74 == wide(1, 57452670015999698657800523828462355573, 76723581615501627813198049607326788057),
    ;
    lemma_power_round(a, n, e73, x73, 1, a, x74);
    let e74: nat = 2 * e73 + 1;
    let x75: int = wide(1, 51928098585602229221367993245607812757, 94736479214981642689923634134943281996);
    assert((x74 * x74 * 1) % n == x75) by (nonlinear_arith)
        requires
            n == wide(2, 18882428718392752222464057452572750885, 48364400416034343698204186575808495617),
            x74 == wide(1, 57452670015999698657800523828462355573, 76723581615501627813198049607326788057),
            x75 == wide(1, 51928098585602229221367993245607812757, 94736479214981642689923634134943281996),
    ;
    lemma_power_round(a, n, e74, x74, 0, 1, x75);
    let e75: nat = 2 * e74 + 0;
    let x76: int = wide(2, 16832348980890009032370438690309064396, 42099879054012436225660003973813222615);
    assert((x75 * x75 * 1) % n == x76) by (nonlinear_arith)
        requires
            n == wide(2, 18882428718392752222464057452572750885, 48364400416034343698204186575808495617),
            x75 == wide(1, 51928098585602229221367993245607812757, 94736479214981642689923634134943281996),
            x76 == wide(2, 16832348980890009032370438690309064396, 42099879054012436225660003973813222615),
    ;
    lemma_power_round(a, n, e75, x75, 0, 1, x76);
    let e76: nat = 2 * e75 + 0;
    let x77: int = wide(0, 42420790702430851438088590395408452761, 63467389411898828449605027646555005537);
    assert((x76 * x76 * 1) % n == x77) by (nonlinear_arith)
        requires
            n == wide(2, 18882428718392752222464057452572750885, 48364400416034343698204186575808495617),
            x76 == wide(2, 16832348980890009032370438690309064396, 42099879054012436225660003973813222615),
            x77 == wide(0, 42420790702430851438088590395408452761, 63467389411898828449605027646555005537),
    ;
    lemma_power_round(a, n, e76, x76, 0, 1, x77);
    let e77: nat = 2 * e76 + 0;
    let x78: int = wide(1, 72427174548219349557894516897233504742, 15049300956985455238483018179966587196);
    assert((x77 * x77 * 1) % n == x78) by (nonlinear_arith)
        requires
            n == wide(2, 18882428718392752222464057452572750885, 48364400416034343698204186575808495617),
            x77 == wide(0, 42420790702430851438088590395408452761, 63467389411898828449605027646555005537),
            x78 == wide(1, 72427174548219349557894516897233504742, 15049300956985455238483018179966587196),
    ;
    lemma_power_round(a, n, e77, x77, 0, 1, x78);
    let e78: nat = 2 * e77 + 0;
    let x79: int = wide(0, 85056905454199502342568668959086663020, 8161474991687386772575559995860058170);
    assert((x78 * x78 * 1) % n == x79) by (nonlinear_arith)
        requires
            n == wide(2, 18882428718392752222464057452572750885, 48364400416034343698204186575808495617),
            x78 == wide(1, 72427174548219349557894516897233504742, 15049300956985455238483018179966587196),
            x79 == wide(0, 85056905454199502342568668959086663020, 8161474991687386772575559995860058170),
    ;
    lemma_power_round(a, n, e78, x78, 0, 1, x79);
    let e79: nat = 2 * e78 + 0;
    let x80: int = wide(1, 59821749733432446049191648142717458247, 43303672742305589233964279099940213021);
    assert((x79 * x79 * 1) % n == x80) by (nonlinear_arith)
        requires
            n == wide(2, 18882428718392752222464057452572750885, 48364400416034343698204186575808495617),
            x79 == wide(0, 85056905454199502342568668959086663020, 8161474991687386772575559995860058170),
            x80 == wide(1, 59821749733432446049191648142717458247, 43303672742305589233964279099940213021),
    ;
    lemma_power_round(a, n, e79, x79, 0, 1, x80);
    let e80: nat = 2 * e79 + 0;
    let x81: int = wide(0, 81302094900008351309117997831106701460, 31158794342866311038594388506323595370);
    assert((x80 * x80 * a) % n == x81) by (nonlinear_arith)
        requires
            n == wide(2, 18882428718392752222464057452572750885, 48364400416034343698204186575808495617),
            a == 2,
            x80 == wide(1, 59821749733432446049191648142717458247, 43303672742305589233964279099940213021),
            x81 == wide(0, 81302094900008351309117997831106701460, 31158794342866311038594388506323595370),
    ;
    lemma_power_round(a, n, e80, x80, 1, a, x81);
    let e81: nat = 2 * e80 + 1;
    let x82: int = wide(1, 19458682223168048803927452208107505885, 13885904109248741549072835227521884524);
    assert((x81 * x81 * a) % n == x82) by (nonlinear_arith)
        requires
            n == wide(2, 18882428718392752222464057452572750885, 48364400416034343698204186575808495617),
            a == 2,
            x81 == wide(0, 81302094900008351309117997831106701460, 31158794342866311038594388506323595370),
            x82 == wide(1, 19458682223168048803927452208107505885, 13885904109248741549072835227521884524),
    ;
    lemma_power_round(a, n, e81, x81, 1, a, x82);
    let e82: nat = 2 * e81 + 1;
    let x83: int = wide(1, 82492867582318888282326333493837629432, 78274086387328341783668769586213507722);
    assert((x82 * x82 * 1) % n == x83) by (nonlinear_arith)
        requires
            n == wide(2, 18882428718392752222464057452572750885, 48364400416034343698204186575808495617),
            x82 == wide(1, 19458682223168048803927452208107505885, 13885904109248741549072835227521884524),
            x83 == wide(1, 82492867582318888282326333493837629432, 78274086387328341783668769586213507722),
    ;
    lemma_power_round(a, n, e82, x82, 0, 1, x83);
    let e83: nat = 2 * e82 + 0;
    let x84: int = wide(0, 32483379017501632902263001408716152349, 90176503775455595544337043403165044849);
    assert((x83 * x83 * 1) % n == x84) by (nonlinear_arith)
        requires
            n == wide(2, 18882428718392752222464057452572750885, 48364400416034343698204186575808495617),
            x83 == wide(1, 82492867582318888282326333493837629432, 78274086387328341783668769586213507722),
            x84 == wide(0, 32483379017501632902263001408716152349, 90176503775455595544337043403165044849),
    ;
    lemma_power_round(a, n, e83, x83, 0, 1, x84);
    let e84: nat = 2 * e83 + 0;
    let x85: int = wide(0, 843404269603475873312286404695353794, 32493425561268398289583357508349416281);
    assert((x84 * x84 * 1) % n == x85) by (nonlinear_arith)
        requires
            n == wide(2, 18882428718392752222464057452572750885, 48364400416034343698204186575808495617),
            x84 == wide(0, 32483379017501632902263001408716152349, 90176503775455595544337043403165044849),
            x85 == wide(0, 843404269603475873312286404695353794, 32493425561268398289583357508349416281),
    ;
    lemma_power_round(a, n, e84, x84, 0, 1, x85);
    let e85: nat = 2 * e84 + 0;
    let x86: int = wide(0, 59139745287313957040555906818579567240, 9853598974884908819574694993566820917);
    assert((x85 * x85 * 1) % n == x86) by (nonlinear_arith)
        requires
            n == wide(2, 18882428718392752222464057452572750885, 48364400416034343698204186575808495617),
            x85 == wide(0, 843404269603475873312286404695353794, 32493425561268398289583357508349416281),
            x86 == wide(0, 59139745287313957040555906818579567240, 9853598974884908819574694993566820917),
    ;
    lemma_power_round(a, n, e85, x85, 0, 1, x86);
    let e86: nat = 2 * e85 + 0;
    let x87: int = wide(1, 30031920625364226601728533589703933308, 43023541204102854951771168255628612827);
    assert((x86 * x86 * 1) % n == x87) by (nonlinear_arith)
        requires
            n == wide(2, 18882428718392752222464057452572750885, 48364400416034343698204186575808495617),
            x86 == wide(0, 59139745287313957040555906818579567240, 9853598974884908819574694993566820917),
            x87 == wide(1, 30031920625364226601728533589703933308, 43023541204102854951771168255628612827),
    ;
    lemma_power_round(a, n, e86, x86, 0, 1, x87);
    let e87: nat = 2 * e86 + 0;
    let x88: int = wide(1, 8396536783526082885740771557941399319, 85331812076842920454576538625137236287);
    assert((x87 * x87 * 1) % n == x88) by (nonlinear_arith)
        requires
            n == wide(2, 18882428718392752222464057452572750885, 48364400416034343698204186575808495617),
            x87 == wide(1, 30031920625364226601728533589703933308, 43023541204102854951771168255628612827),
            x88 == wide(1, 8396536783526082885740771557941399319, 85331812076842920454576538625137236287),
    ;
    lemma_power_round(a, n, e87, x87, 0, 1, x88);
    let e88: nat = 2 * e87 + 0;
    let x89: int = wide(1, 43376874315413499004940881261485768273, 30124827659086315983624379639746844548);
    assert((x88 * x88 * 1) % n == x89) by (nonlinear_arith)
        requires
            n == wide(2, 18882428718392752222464057452572750885, 48364400416034343698204186575808495617),
            x88 == wide(1, 8396536783526082885740771557941399319, 85331812076842920454576538625137236287),
            x89 == wide(1, 43376874315413499004940881261485768273, 30124827659086315983624379639746844548),
    ;
    lemma_power_round(a, n, e88, x88, 0, 1, x89);
    let e89: nat = 2 * e88 + 0;
    let x90: int = wide(1, 61110084590287964913572570692476219926, 53499540979973157550853407109493280547);
    assert((x89 * x89 * 1) % n == x90) by (nonlinear_arith)
        requires
            n == wide(2, 18882428718392752222464057452572750885, 48364400416034343698204186575808495617),
            x89 == wide(1, 43376874315413499004940881261485768273, 30124827659086315983624379639746844548),
            x90 == wide(1, 61110084590287964913572570692476219926, 53499540979973157550853407109493280547),
    ;
    lemma_power_round(a, n, e89, x89, 0, 1, x90);
    let e90: nat = 2 * e89 + 0;
    let x91: int = wide(0, 85032563546714862881585022251983930772, 29691433040010644616391275503237275164);
    assert((x90 * x90 * 1) % n == x91) by (nonlinear_arith)
        requires
            n == wide(2, 18882428718392752222464057452572750885, 48364400416034343698204186575808495617),
            x90 == wide(1, 61110084590287964913572570692476219926, 53499540979973157550853407109493280547),
            x91 == wide(0, 85032563546714862881585022251983930772, 29691433040010644616391275503237275164),
    ;
    lemma_power_round(a, n, e90, x90, 0, 1, x91);
    let e91: nat = 2 * e90 + 0;
    let x92: int = wide(1, 5130021222154370205653158714812844876, 10256077402723252469598904339673518651);
    assert((x91 * x91 * 1) % n == x92) by (nonlinear_arith)
        requires
            n == wide(2, 18882428718392752222464057452572750885, 48364400416034343698204186575808495617),
            x91 == wide(0, 85032563546714862881585022251983930772, 29691433040010644616391275503237275164),
            x92 == wide(1, 5130021222154370205653158714812844876, 10256077402723252469598904339673518651),
    ;
    lemma_power_round(a, n, e91, x91, 0, 1, x92);
    let e92: nat = 2 * e91 + 0;
    let x93: int = wide(2, 1760124810997051626641085725797003580, 62203357888934560480268125411938152368);
    assert((x92 * x92 * 1) % n == x93) by (nonlinear_arith)
        requires
            n == wide(2, 18882428718392752222464057452572750885, 48364400416034343698204186575808495617),
            x92 == wide(1, 5130021222154370205653158714812844876, 10256077402723252469598904339673518651),
            x93 == wide(2, 1760124810997051626641085725797003580, 62203357888934560480268125411938152368),
    ;
    lemma_power_round(a, n, e92, x92, 0, 1, x93);
    let e93: nat = 2 * e92 + 0;
    let x94: int = wide(1, 39993097237048966550939097204666238978, 87431451786101092779649805378195241726);
    assert((x93 * x93 * 1) % n == x94) by (nonlinear_arith)
        requires
            n == wide(2, 18882428718392752222464057452572750885, 48364400416034343698204186575808495617),
            x93 == wide(2, 1760124810997051626641085725797003580, 62203357888934560480268125411938152368),
            x94 == wide(1, 39993097237048966550939097204666238978, 87431451786101092779649805378195241726),
    ;
    lemma_power_round(a, n, e93, x93, 0, 1, x94);
    let e94: nat = 2 * e93 + 0;
    let x95: int = wide(1, 11357389119884989494906349051474701397, 90419925587037658370573189436193316164);
    assert((x94 * x94 * 1) % n == x95) by (nonlinear_arith)
        requires
            n == wide(2, 18882428718392752222464057452572750885, 48364400416034343698204186575808495617),
            x94 == wide(1, 39993097237048966550939097204666238978, 87431451786101092779649805378195241726),
            x95 == wide(1, 11357389119884989494906349051474701397, 90419925587037658370573189436193316164),
    ;
    lemma_power_round(a, n, e94, x94, 0, 1, x95);
    let e95: nat = 2 * e94 + 0;
    let x96: int = wide(1, 56902433911034658238616208644167691, 89617702240363279543358135518111101018);
    assert((x95 * x95 * 1) % n == x96) by (nonlinear_arith)
        requires
            n == wide(2, 18882428718392752222464057452572750885, 48364400416034343698204186575808495617),
            x95 == wide(1, 11357389119884989494906349051474701397, 90419925587037658370573189436193316164),
            x96 == wide(1, 56902433911034658238616208644167691, 89617702240363279543358135518111101018),
    ;
    lemma_power_round(a, n, e95, x95, 0, 1, x96);
    let e96: nat = 2 * e95 + 0;
    let x97: int = wide(0, 3317647455993847770400122758169098409, 90653227752567488156647690213465239935);
    assert((x96 * x96 * 1) % n == x97) by (nonlinear_arith)
        requires
            n == wide(2, 18882428718392752222464057452572750885, 48364400416034343698204186575808495617),
            x96 == wide(1, 56902433911034658238616208644167691, 89617702240363279543358135518111101018),
            x97 == wide(0, 3317647455993847770400122758169098409, 90653227752567488156647690213465239935),
    ;
    lemma_power_round(a, n, e96, x96, 0, 1, x97);
    let e97: nat = 2 * e96 + 0;
    let x98: int = wide(1, 33980497745762651217762260316965072442, 31951467966789327619461861234582477336);
    assert((x97 * x97 * 1) % n == x98) by (nonlinear_arith)
        requires
            n == wide(2, 18882428718392752222464057452572750885, 48364400416034343698204186575808495617),
            x97 == wide(0, 3317647455993847770400122758169098409, 90653227752567488156647690213465239935),
            x98 == wide(1, 33980497745762651217762260316965072442, 31951467966789327619461861234582477336),
    ;
    lemma_power_round(a, n, e97, x97, 0, 1, x98);
    let e98: nat = 2 * e97 + 0;
    let x99: int = wide(1, 92065122753818233512117438780373531618, 41939005408348134056828614133676433630);
    assert((x98 * x98 * 1) % n == x99) by (nonlinear_arith)
        requires
            n == wide(2, 18882428718392752222464057452572750885, 48364400416034343698204186575808495617),
            x98 == wide(1, 33980497745762651217762260316965072442, 31951467966789327619461861234582477336),
            x99 == wide(1, 92065122753818233512117438780373531618, 41939005408348134056828614133676433630),
    ;
    lemma_power_round(a, n, e98, x98, 0, 1, x99);
    let e99: nat = 2 * e98 + 0;
    let x100: int = wide(1, 24719462236225969036522242006559518099, 60424341965718686258418838648530619466);
    assert((x99 * x99 * 1) % n == x100) by (nonlinear_arith)
        requires
            n == wide(2, 18882428718392752222464057452572750885, 48364400416034343698204186575808495617),
            x99 == wide(1, 92065122753818233512117438780373531618, 41939005408348134056828614133676433630),
            x100 == wide(1, 24719462236225969036522242006559518099, 60424341965718686258418838648530619466),
    ;
    lemma_power_round(a, n, e99, x99, 0, 1, x100);
    let e100: nat = 2 * e99 + 0;
    let x101: int = wide(1, 9786773610248128050471057796563430148, 73961213011512324751885668323619176068);
    assert((x100 * x100 * 1) % n == x101) by (nonlinear_arith)
        requires
            n == wide(2, 18882428718392752222464057452572750885, 48364400416034343698204186575808495617),
            x100 == wide(1, 24719462236225969036522242006559518099, 60424341965718686258418838648530619466),
            x101 == wide(1, 9786773610248128050471057796563430148, 73961213011512324751885668323619176068),
    ;
    lemma_power_round(a, n, e100, x100, 0, 1, x101);
    let e101: nat = 2 * e100 + 0;
    let x102: int = wide(0, 34487052183174081614492046345189253929, 94915746829930127077269264410066469874);
    assert((x101 * x101 * 1) % n == x102) by (nonlinear_arith)
        requires
            n == wide(2, 18882428718392752222464057452572750885, 48364400416034343698204186575808495617),
            x101 == wide(1, 9786773610248128050471057796563430148, 73961213011512324751885668323619176068),
            x102 == wide(0, 34487052183174081614492046345189253929, 94915746829930127077269264410066469874),
    ;
    lemma_power_round(a, n, e101, x101, 0, 1, x102);
    let e102: nat = 2 * e101 + 0;
    let x103: int = wide(0, 27032843418743088809664996556510416304, 14472167790620982767336586753775729364);
    assert((x102 * x102 * 1) % n == x103) by (nonlinear_arith)
        requires
            n == wide(2, 18882428718392752222464057452572750885, 48364400416034343698204186575808495617),
            x102 == wide(0, 34487052183174081614492046345189253929, 94915746829930127077269264410066469874),
            x103 == wide(0, 27032843418743088809664996556510416304, 14472167790620982767336586753775729364),
    ;
    lemma_power_round(a, n, e102, x102, 0, 1, x103);
    let e103: nat = 2 * e102 + 0;
    let x104: int = wide(0, 60643499476848754151096682761319948542, 41967342142240807603972595444590220725);
    assert((x103 * x103 * 1) % n == x104) by (nonlinear_arith)
        requires
            n == wide(2, 18882428718392752222464057452572750885, 48364400416034343698204186575808495617),
            x103 == wide(0, 27032843418743088809664996556510416304, 14472167790620982767336586753775729364),
            x104 == wide(0, 60643499476848754151096682761319948542, 41967342142240807603972595444590220725),
    ;
    lemma_power_round(a, n, e103, x103, 0, 1, x104);
    let e104: nat = 2 * e103 + 0;
    let x105: int = wide(1, 9213177959545143001968389130305402740, 7574537953393019742822437199370873228);
    assert((x104 * x104 * 1) % n == x105) by (nonlinear_arith)
        requires
            n == wide(2, 18882428718392752222464057452572750885, 48364400416034343698204186575808495617),
            x104 == wide(0, 60643499476848754151096682761319948542, 41967342142240807603972595444590220725),
            x105 == wide(1, 9213177959545143001968389130305402740, 7574537953393019742822437199370873228),
    ;
    lemma_power_round(a, n, e104, x104, 0, 1, x105);
    let e105: nat = 2 * e104 + 0;
    let x106: int = wide(0, 67591050878296230303943338926473202511, 63831514879915362135960632262716527630);
    assert((x105 * x105 * 1) % n == x106) by (nonlinear_arith)
        requires
            n == wide(2, 18882428718392752222464057452572750885, 48364400416034343698204186575808495617),
            x105 == wide(1, 9213177959545143001968389130305402740, 7574537953393019742822437199370873228),
            x106 == wide(0, 67591050878296230303943338926473202511, 63831514879915362135960632262716527630),
    ;
    lemma_power_round(a, n, e105, x105, 0, 1, x106);
    let e106: nat = 2 * e105 + 0;
    let x107: int = wide(1, 42809356553525231592745657885540862261, 4130832730524002838009447259458104640);
    assert((x106 * x106 * 1) % n == x107) by (nonlinear_arith)
        requires
            n == wide(2, 18882428718392752222464057452572750885, 48364400416034343698204186575808495617),
            x106 == wide(0, 67591050878296230303943338926473202511, 63831514879915362135960632262716527630),
            x107 == wide(1, 42809356553525231592745657885540862261, 4130832730524002838009447259458104640),
    ;
    lemma_power_round(a, n, e106, x106, 0, 1, x107);
    let e107: nat = 2 * e106 + 0;
    let x108: int = wide(0, 89030786992553373284993610194254910723, 82086563893157380695674794362281202370);
    assert((x107 * x107 * 1) % n == x108) by (nonlinear_arith)
        requires
            n == wide(2, 18882428718392752222464057452572750885, 48364400416034343698204186575808495617),
            x107 == wide(1, 42809356553525231592745657885540862261, 4130832730524002838009447259458104640),
            x108 == wide(0, 89030786992553373284993610194254910723, 82086563893157380695674794362281202370),
    ;
    lemma_power_round(a, n, e107, x107, 0, 1, x108);
    let e108: nat = 2 * e107 + 0;
    let x109: int = wide(1, 7391941696189167204216813671638630684, 96094056825369984700770039998726680593);
    assert((x108 * x108 * 1) % n == x109) by (nonlinear_arith)
        requires
            n == wide(2, 18882428718392752222464057452572750885, 48364400416034343698204186575808495617),
            x108 == wide(0, 89030786992553373284993610194254910723, 82086563893157380695674794362281202370),
            x109 == wide(1, 7391941696189167204216813671638630684, 96094056825369984700770039998726680593),
    ;
    lemma_power_round(a, n, e108, x108, 0, 1, x109);
    let e109: nat = 2 * e108 + 0;
    let x110: int = wide(0, 40672172402868486714522659830653318973, 23918408910809300406102239489012348584);
    assert((x109 * x109 * 1) % n == x110) by (nonlinear_arith)
        requires
            n == wide(2, 18882428718392752222464057452572750885, 48364400416034343698204186575808495617),
            x109 == wide(1, 7391941696189167204216813671638630684, 96094056825369984700770039998726680593),
            x110 == wide(0, 40672172402868486714522659830653318973, 23918408910809300406102239489012348584),
    ;
    lemma_power_round(a, n, e109, x109, 0, 1, x110);
    let e110: nat = 2 * e109 + 0;
    assert(e110 == 948026174865265269726259848413184);
}

/// Modulo the modulus: the first power to the 13818364434197438864469338081,
/// which is the base to the predecessor divided by 1670836401704629.
proof fn lemma_modulus_power_without_1670836401704629()
    ensures
        pow(wide(0, 40672172402868486714522659830653318973, 23918408910809300406102239489012348584), 13818364434197438864469338081nat) % wide(2, 18882428718392752222464057452572750885, 48364400416034343698204186575808495617) == wide(1, 53792047940026677692985304527566044746, 47348591674452342013272253614090326003),
{
    let n: int = wide(2, 18882428718392752222464057452572750885, 48364400416034343698204186575808495617);
    let a: int = wide(0, 40672172402868486714522659830653318973, 23918408910809300406102239489012348584);
    let x0: int = 1;
    let e0: nat = 0;
    lemma_pow0(a);
    lemma_small_mod(1, n as nat);
    let x1: int = wide(0, 40672172402868486714522659830653318973, 23918408910809300406102239489012348584);
    assert((x0 * x0 * a) % n == x1) by (nonlinear_arith)
        requires
            n == wide(2, 18882428718392752222464057452572750885, 48364400416034343698204186575808495617),
            a == wide(0, 40672172402868486714522659830653318973, 23918408910809300406102239489012348584),
            x0 == 1,
            x1 == wide(0, 40672172402868486714522659830653318973, 23918408910809300406102239489012348584),
    ;
    lemma_power_round(a, n, e0, x0, 1, a, x1);
    let e1: nat = 2 * e0 + 1;
    let x2: int = wide(0, 63861281515523373247972745838544494613, 28952692055052099188299042347749289856);
    assert((x1 * x1 * 1) % n == x2) by (nonlinear_arith)
        requires
            n == wide(2, 18882428718392752222464057452572750885, 48364400416034343698204186575808495617),
            x1 == wide(0, 40672172402868486714522659830653318973, 23918408910809300406102239489012348584),
            x2 == wide(0, 63861281515523373247972745838544494613, 28952692055052099188299042347749289856),
    ;
    lemma_power_round(a, n, e1, x1, 0, 1, x2);
    let e2: nat = 2 * e1 + 0;
    let x3: int = wide(1, 32387493338816571067053057014609765502, 31994495162614680963707438086684607956);
    assert((x2 * x2 * a) % n == x3) by (nonlinear_arith)
        requires
            n == wide(2, 18882428718392752222464057452572750885, 48364400416034343698204186575808495617),
            a == wide(0, 40672172402868486714522659830653318973, 23918408910809300406102239489012348584),
            x2 == wide(0, 63861281515523373247972745838544494613, 28952692055052099188299042347749289856),
            x3 == wide(1, 32387493338816571067053057014609765502, 31994495162614680963707438086684607956),
    ;
    lemma_power_round(a, n, e2, x2, 1, a, x3);
    let e3: nat = 2 * e2 + 1;
    let x4: int = wide(1, 82352146675835895439518016342359520747, 35239039809855166216398886623174770170);
    assert((x3 * x3 * a) % n == x4) by (nonlinear_arith)
        requires
            n == wide(2, 18882428718392752222464057452572750885, 48364400416034343698204186575808495617),
            a == wide(0, 40672172402868486714522659830653318973, 23918408910809300406102239489012348584),
            x3 == wide(1, 32387493338816571067053057014609765502, 31994495162614680963707438086684607956),
            x4 == wide(1, 82352146675835895439518016342359520747, 35239039809855166216398886623174770170),
    ;
    lemma_power_round(a, n, e3, x3, 1, a, x4);
    let e4: nat = 2 * e3 + 1;
    let x5: int = wide(0, 12889973728738941186744294475666281589, 49100853897385711408161458452740640627);
    assert((x4 * x4 * 1) % n == x5) by (nonlinear_arith)
        requires
            n == wide(2, 18882428718392752222464057452572750885, 48364400416034343698204186575808495617),
            x4 == wide(1, 82352146675835895439518016342359520747, 35239039809855166216398886623174770170),
            x5 == wide(0, 12889973728738941186744294475666281589, 49100853897385711408161458452740640627),
    ;
    lemma_power_round(a, n, e4, x4, 0, 1, x5);
    let e5: nat = 2 * e4 + 0;
    let x6: int = wide(1, 56907798423289262251781392058954590964, 64320036664936154393060137259290834393);
    assert((x5 * x5 * 1) % n == x6) by (nonlinear_arith)
        requires
            n == wide(2, 18882428718392752222464057452572750885, 48364400416034343698204186575808495617),
            x5 == wide(0, 12889973728738941186744294475666281589, 49100853897385711408161458452740640627),
            x6 == wide(1, 56907798423289262251781392058954590964, 64320036664936154393060137259290834393),
    ;
    lemma_power_round(a, n, e5, x5, 0, 1, x6);
    let e6: nat = 2 * e5 + 0;
    let x7: int = wide(1, 31732988136437117371793020852146106972, 79240735107614677224675207364830978182);
    assert((x6 * x6 * a) % n == x7) by (nonlinear_arith)
        requires
            n == wide(2, 18882428718392752222464057452572750885, 48364400416034343698204186575808495617),
            a == wide(0, 40672172402868486714522659830653318973, 23918408910809300406102239489012348584),
            x6 == wide(1, 56907798423289262251781392058954590964, 64320036664936154393060137259290834393),
            x7 == wide(1, 31732988136437117371793020852146106972, 79240735107614677224675207364830978182),
    ;
    lemma_power_round(a, n, e6, x6, 1, a, x7);
    let e7: nat = 2 * e6 + 1;
    let x8: int = wide(0, 3222794402715499013762504504204373509, 79799894640243819907063974485294944136);
    assert((x7 * x7 * 1) % n == x8) by (nonlinear_arith)
        requires
            n == wide(2, 18882428718392752222464057452572750885, 48364400416034343698204186575808495617),
            x7 == wide(1, 31732988136437117371793020852146106972, 79240735107614677224675207364830978182),
            x8 == wide(0, 3222794402715499013762504504204373509, 79799894640243819907063974485294944136),
    ;
    lemma_power_round(a, n, e7, x7, 0, 1, x8);
    let e8: nat = 2 * e7 + 0;
    let x9: int = wide(0, 22450648243542482866793429404866929754, 93608882238035819151494060537236815295);
    assert((x8 * x8 * a) % n == x9) by (nonlinear_arith)
        requires
            n == wide(2, 18882428718392752222464057452572750885, 48364400416034343698204186575808495617),
            a == wide(0, 40672172402868486714522659830653318973, 23918408910809300406102239489012348584),
            x8 == wide(0, 3222794402715499013762504504204373509, 79799894640243819907063974485294944136),
            x9 == wide(0, 22450648243542482866793429404866929754, 93608882238035819151494060537236815295),
    ;
    lemma_power_round(a, n, e8, x8, 1, a, x9);
    let e9: nat = 2 * e8 + 1;
    let x10: int = wide(0, 83310700913482221787739893499139125969, 77031367117088757543672891609074423287);
    assert((x9 * x9 * 1) % n == x10) by (nonlinear_arith)
        requires
            n == wide(2, 18882428718392752222464057452572750885, 48364400416034343698204186575808495617),
            x9 == wide(0, 22450648243542482866793429404866929754, 93608882238035819151494060537236815295),
            x10 == wide(0, 83310700913482221787739893499139125969, 77031367117088757543672891609074423287),
    ;
    lemma_power_round(a, n, e9, x9, 0, 1, x10);
    let e10: nat = 2 * e9 + 0;
    let x11: int = wide(1, 26670467710454948021784133686791142124, 91105066976080789176656999746571351203);
    assert((x10 * x10 * 1) % n == x11) by (nonlinear_arith)
        requires
            n == wide(2, 18882428718392752222464057452572750885, 48364400416034343698204186575808495617),
            x10 == wide(0, 83310700913482221787739893499139125969, 77031367117088757543672891609074423287),
            x11 == wide(1, 26670467710454948021784133686791142124, 91105066976080789176656999746571351203),
    ;
    lemma_power_round(a, n, e10, x10, 0, 1, x11);
    let e11: nat = 2 * e10 + 0;
    let x12: int = wide(1, 58279516768669509784807050880630656472, 27592502537696711884223207658011461825);
    assert((x11 * x11 * a) % n == x12) by (nonlinear_arith)
        requires
            n == wide(2, 18882428718392752222464057452572750885, 48364400416034343698204186575808495617),
            a == wide(0, 40672172402868486714522659830653318973, 23918408910809300406102239489012348584),
            x11 == wide(1, 26670467710454948021784133686791142124, 91105066976080789176656999746571351203),
            x12 == wide(1, 58279516768669509784807050880630656472, 27592502537696711884223207658011461825),
    ;
    lemma_power_round(a, n, e11, x11, 1, a, x12);
    let e12: nat = 2 * e11 + 1;
    let x13: int = wide(0, 41293786187199452385289427551733794326, 60584193305857177386644435705518597878);
    assert((x12 * x12 * a) % n == x13) by (nonlinear_arith)
        requires
            n == wide(2, 18882428718392752222464057452572750885, 48364400416034343698204186575808495617),
            a == wide(0, 40672172402868486714522659830653318973, 23918408910809300406102239489012348584),
            x12 == wide(1, 58279516768669509784807050880630656472, 27592502537696711884223207658011461825),
            x13 == wide(0, 41293786187199452385289427551733794326, 60584193305857177386644435705518597878),
    ;
    lemma_power_round(a, n, e12, x12, 1, a, x13);
    let e13: nat = 2 * e12 + 1;
    let x14: int = wide(1, 4581045193300167228314816214034366369, 55250855373893914012587466407818324273);
    assert((x13 * x13 * 1) % n == x14) by (nonlinear_arith)
        requires
            n == wide(2, 18882428718392752222464057452572750885, 48364400416034343698204186575808495617),
            x13 == wide(0, 41293786187199452385289427551733794326, 60584193305857177386644435705518597878),
            x14 == wide(1, 4581045193300167228314816214034366369, 55250855373893914012587466407818324273),
    ;
    lemma_power_round(a, n, e13, x13, 0, 1, x14);
    let e14: nat = 2 * e13 + 0;
    let x15: int = wide(1, 17693212962407548571590153253242465514, 57538439433399936088370602366527173957);
    assert((x14 * x14 * 1) % n == x15) by (nonlinear_arith)
        requires
            n == wide(2, 18882428718392752222464057452572750885, 48364400416034343698204186575808495617),
            x14 == wide(1, 4581045193300167228314816214034366369, 55250855373893914012587466407818324273),
            x15 == wide(1, 17693212962407548571590153253242465514, 57538439433399936088370602366527173957),
    ;
    lemma_power_round(a, n, e14, x14, 0, 1, x15);
    let e15: nat = 2 * e14 + 0;
    let x16: int = wide(1, 67568646588713204500952731951808806416, 4926711322431787730799836997373410354);
    assert((x15 * x15 * a) % n == x16) by (nonlinear_arith)
        requires
            n == wide(2, 18882428718392752222464057452572750885, 48364400416034343698204186575808495617),
            a == wide(0, 40672172402868486714522659830653318973, 23918408910809300406102239489012348584),
            x15 == wide(1, 17693212962407548571590153253242465514, 57538439433399936088370602366527173957),
            x16 == wide(1, 67568646588713204500952731951808806416, 4926711322431787730799836997373410354),
    ;
    lemma_power_round(a, n, e15, x15, 1, a, x16);
    let e16: nat = 2 * e15 + 1;
    let x17: int = wide(0, 69436149951877901844612789757488706735, 50572024828415223526584612224810856355);
    assert((x16 * x16 * 1) % n == x17) by (nonlinear_arith)
        requires
            n == wide(2, 18882428718392752222464057452572750885, 48364400416034343698204186575808495617),
            x16 == wide(1, 67568646588713204500952731951808806416, 4926711322431787730799836997373410354),
            x17 == wide(0, 69436149951877901844612789757488706735, 50572024828415223526584612224810856355),
    ;
    lemma_power_round(a, n, e16, x16, 0, 1, x17);
    let e17: nat = 2 * e16 + 0;
    let x18: int = wide(0, 89910473389037013444657002197644559855, 98459812798333318036451612940826546584);
    assert((x17 * x17 * 1) % n == x18) by (nonlinear_arith)
        requires
            n == wide(2, 18882428718392752222464057452572750885, 48364400416034343698204186575808495617),
            x17 == wide(0, 69436149951877901844612789757488706735, 50572024828415223526584612224810856355),
            x18 == wide(0, 89910473389037013444657002197644559855, 98459812798333318036451612940826546584),
    ;
    lemma_power_round(a, n, e17, x17, 0, 1, x18);
    let e18: nat = 2 * e17 + 0;
    let x19: int = wide(1, 72557493397087724687028350953308429572, 91988632782577699678909486920154606123);
    assert((x18 * x18 * a) % n == x19) by (nonlinear_arith)
        requires
            n == wide(2, 18882428718392752222464057452572750885, 48364400416034343698204186575808495617),
            a == wide(0, 40672172402868486714522659830653318973, 23918408910809300406102239489012348584),
            x18 == wide(0, 89910473389037013444657002197644559855, 98459812798333318036451612940826546584),
            x19 == wide(1, 72557493397087724687028350953308429572, 91988632782577699678909486920154606123),
    ;
    lemma_power_round(a, n, e18, x18, 1, a, x19);
    let e19: nat = 2 * e18 + 1;
    let x20: int = wide(1, 28837962331840628437363583311009492345, 92082913561501216067886227392315875192);
    assert((x19 * x19 * 1) % n == x20) by (nonlinear_arith)
        requires
            n == wide(2, 18882428718392752222464057452572750885, 48364400416034343698204186575808495617),
            x19 == wide(1, 72557493397087724687028350953308429572, 91988632782577699678909486920154606123),
            x20 == wide(1, 28837962331840628437363583311009492345, 92082913561501216067886227392315875192),
    ;
    lemma_power_round(a, n, e19, x19, 0, 1, x20);
    let e20: nat = 2 * e19 + 0;
    let x21: int = wide(0, 97708502555006426120154817701190718643, 95119245686384862019573412074575455946);
    assert((x20 * x20 * 1) % n == x21) by (nonlinear_arith)
        requires
            n == wide(2, 18882428718392752222464057452572750885, 48364400416034343698204186575808495617),
            x20 == wide(1, 28837962331840628437363583311009492345, 92082913561501216067886227392315875192),
            x21 == wide(0, 97708502555006426120154817701190718643, 95119245686384862019573412074575455946),
    ;
    lemma_power_round(a, n, e20, x20, 0, 1, x21);
    let e21: nat = 2 * e20 + 0;
    let x22: int = wide(1, 20956369393473308337327650303364173949, 65874111430562556378896893108398454119);
    assert((x21 * x21 * 1) % n == x22) by (nonlinear_arith)
        requires
            n == wide(2, 18882428718392752222464057452572750885, 48364400416034343698204186575808495617),
            x21 == wide(0, 97708502555006426120154817701190718643, 95119245686384862019573412074575455946),
            x22 == wide(1, 20956369393473308337327650303364173949, 65874111430562556378896893108398454119),
    ;
    lemma_power_round(a, n, e21, x21, 0, 1, x22);
    let e22: nat = 2 * e21 + 0;
    let x23: int = wide(0, 95076055975253906865388634255567693460, 87544750265253773189062091554424285870);
    assert((x22 * x22 * 1) % n == x23) by (nonlinear_arith)
        requires
            n == wide(2, 18882428718392752222464057452572750885, 48364400416034343698204186575808495617),
            x22 == wide(1, 20956369393473308337327650303364173949, 65874111430562556378896893108398454119),
            x23 == wide(0, 95076055975253906865388634255567693460, 87544750265253773189062091554424285870),
    ;
    lemma_power_round(a, n, e22, x22, 0, 1, x23);
    let e23: nat = 2 * e22 + 0;
    let x24: int = wide(1, 79322521036648137797897612017065230104, 51593166390460567050985375098762470480);
    assert((x23 * x23 * a) % n == x24) by (nonlinear_arith)
        requires
            n == wide(2, 18882428718392752222464057452572750885, 48364400416034343698204186575808495617),
            a == wide(0, 40672172402868486714522659830653318973, 23918408910809300406102239489012348584),
            x23 == wide(0, 95076055975253906865388634255567693460, 87544750265253773189062091554424285870),
            x24 == wide(1, 79322521036648137797897612017065230104, 51593166390460567050985375098762470480),
    ;
    lemma_power_round(a, n, e23, x23, 1, a, x24);
    let e24: nat = 2 * e23 + 1;
    let x25: int = wide(1, 23098533916311694121781474505498240404, 30213212920648749297835878884690312497);
    assert((x24 * x24 * a) % n == x25) by (nonlinear_arith)
        requires
            n == wide(2, 18882428718392752222464057452572750885, 48364400416034343698204186575808495617),
            a == wide(0, 40672172402868486714522659830653318973, 23918408910809300406102239489012348584),
            x24 == wide(1, 79322521036648137797897612017065230104, 51593166390460567050985375098762470480),
            x25 == wide(1, 23098533916311694121781474505498240404, 30213212920648749297835878884690312497),
    ;
    lemma_power_round(a, n, e24, x24, 1, a, x25);
    let e25: nat = 2 * e24 + 1;
    let x26: int = wide(0, 63979094640727611203442644369364600296, 26824980159215597280672028817779616915);
    assert((x25 * x25 * a) % n == x26) by (nonlinear_arith)
        requires
            n == wide(2, 18882428718392752222464057452572750885, 48364400416034343698204186575808495617),
            a == wide(0, 40672172402868486714522659830653318973, 23918408910809300406102239489012348584),
            x25 == wide(1, 23098533916311694121781474505498240404, 30213212920648749297835878884690312497),
            x26 == wide(0, 63979094640727611203442644369364600296, 26824980159215597280672028817779616915),
    ;
    lemma_power_round(a, n, e25, x25, 1, a, x26);
    let e26: nat = 2 * e25 + 1;
    let x27: int = wide(0, 32196713129491031122935179165158924008, 45711183894622300969600016031624148330);
    assert((x26 * x26 * a) % n == x27) by (nonlinear_arith)
        requires
            n == wide(2, 18882428718392752222464057452572750885, 48364400416034343698204186575808495617),
            a == wide(0, 40672172402868486714522659830653318973, 23918408910809300406102239489012348584),
            x26 == wide(0, 63979094640727611203442644369364600296, 26824980159215597280672028817779616915),
            x27 == wide(0, 32196713129491031122935179165158924008, 45711183894622300969600016031624148330),
    ;
    lemma_power_round(a, n, e26, x26, 1, a, x27);
    let e27: nat = 2 * e26 + 1;
    let x28: int = wide(0, 69853017112443928115346898281854902424, 62090338917601161141202278988258793136);
    assert((x27 * x27 * a) % n == x28) by (nonlinear_arith)
        requires
            n == wide(2, 18882428718392752222464057452572750885, 48364400416034343698204186575808495617),
            a == wide(0, 40672172402868486714522659830653318973, 23918408910809300406102239489012348584),
            x27 == wide(0, 32196713129491031122935179165158924008, 45711183894622300969600016031624148330),
            x28 == wide(0, 69853017112443928115346898281854902424, 62090338917601161141202278988258793136),
    ;
    lemma_power_round(a, n, e27, x27, 1, a, x28);
    let e28: nat = 2 * e27 + 1;
    let x29: int = wide(1, 54773407304018466450862386354748694185, 39835280761178378124023793220802160916);
    assert((x28 * x28 * 1) % n == x29) by (nonlinear_arith)
        requires
            n == wide(2, 18882428718392752222464057452572750885, 48364400416034343698204186575808495617),
            x28 == wide(0, 69853017112443928115346898281854902424, 62090338917601161141202278988258793136),
            x29 == wide(1, 54773407304018466450862386354748694185, 39835280761178378124023793220802160916),
    ;
    lemma_power_round(a, n, e28, x28, 0, 1, x29);
    let e29: nat = 2 * e28 + 0;
    let x30: int = wide(1, 3138978629902997607029639018031770257, 74364084358126394163006552579881462819);
    assert((x29 * x29 * 1) % n == x30) by (nonlinear_arith)
        requires
            n == wide(2, 18882428718392752222464057452572750885, 48364400416034343698204186575808495617),
            x29 == wide(1, 54773407304018466450862386354748694185, 39835280761178378124023793220802160916),
            x30 == wide(1, 3138978629902997607029639018031770257, 74364084358126394163006552579881462819),
    ;
    lemma_power_round(a, n, e29, x29, 0, 1, x30);
    let e30: nat = 2 * e29 + 0;
    let x31: int = wide(1, 75890557841787591110708851715275566405, 22402248488547059058602451317034487787);
    assert((x30 * x30 * a) % n == x31) by (nonlinear_arith)
        requires
            n == wide(2, 18882428718392752222464057452572750885, 48364400416034343698204186575808495617),
            a == wide(0, 40672172402868486714522659830653318973, 23918408910809300406102239489012348584),
            x30 == wide(1, 3138978629902997607029639018031770257, 74364084358126394163006552579881462819),
            x31 == wide(1, 75890557841787591110708851715275566405, 22402248488547059058602451317034487787),
    ;
    lemma_power_round(a, n, e30, x30, 1, a, x31);
    let e31: nat = 2 * e30 + 1;
    let x32: int = wide(1, 51634916630973074267759350294434715164, 23968862012532239894848497372879771217);
    assert((x31 * x31 * a) % n == x32) by (nonlinear_arith)
        requires
            n == wide(2, 18882428718392752222464057452572750885, 48364400416034343698204186575808495617),
            a == wide(0, 40672172402868486714522659830653318973, 23918408910809300406102239489012348584),
            x31 == wide(1, 75890557841787591110708851715275566405, 22402248488547059058602451317034487787),
            x32 == wide(1, 51634916630973074267759350294434715164, 23968862012532239894848497372879771217),
    ;
    lemma_power_round(a, n, e31, x31, 1, a, x32);
    let e32: nat = 2 * e31 + 1;
    let x33: int = wide(0, 87743085059076461677189638827723355739, 91679543987945496359139924536809344630);
    assert((x32 * x32 * a) % n == x33) by (nonlinear_arith)
        requires
            n == wide(2, 18882428718392752222464057452572750885, 48364400416034343698204186575808495617),
            a == wide(0, 40672172402868486714522659830653318973, 23918408910809300406102239489012348584),
            x32 == wide(1, 51634916630973074267759350294434715164, 23968862012532239894848497372879771217),
            x33 == wide(0, 87743085059076461677189638827723355739, 91679543987945496359139924536809344630),
    ;
    lemma_power_round(a, n, e32, x32, 1, a, x33);
    let e33: nat = 2 * e32 + 1;
    let x34: int = wide(0, 43601064515144814647217134964247234007, 98790380683325742569740933810930518178);
    assert((x33 * x33 * a) % n == x34) by (nonlinear_arith)
        requires
            n == wide(2, 18882428718392752222464057452572750885, 48364400416034343698204186575808495617),
            a == wide(0, 40672172402868486714522659830653318973, 23918408910809300406102239489012348584),
            x33 == wide(0, 87743085059076461677189638827723355739, 91679543987945496359139924536809344630),
            x34 == wide(0, 43601064515144814647217134964247234007, 98790380683325742569740933810930518178),
    ;
    lemma_power_round(a, n, e33, x33, 1, a, x34);
    let e34: nat = 2 * e33 + 1;
    let x35: int = wide(1, 62759907812784376659734872566719148224, 35420161255505334169214138706511784308);
    assert((x34 * x34 * a) % n == x35) by (nonlinear_arith)
        requires
            n == wide(2, 18882428718392752222464057452572750885, 48364400416034343698204186575808495617),
            a == wide(0, 40672172402868486714522659830653318973, 23918408910809300406102239489012348584),
            x34 == wide(0, 43601064515144814647217134964247234007, 98790380683325742569740933810930518178),
            x35 == wide(1, 62759907812784376659734872566719148224, 35420161255505334169214138706511784308),
    ;
    lemma_power_round(a, n, e34, x34, 1, a, x35);
    let e35: nat = 2 * e34 + 1;
    let x36: int = wide(1, 29088433619585144099707986266835771130, 45421806131553996538402805853312669057);
    assert((x35 * x35 * a) % n == x36) by (nonlinear_arith)
        requires
            n == wide(2, 18882428718392752222464057452572750885, 48364400416034343698204186575808495617),
            a == wide(0, 40672172402868486714522659830653318973, 23918408910809300406102239489012348584),
            x35 == wide(1, 62759907812784376659734872566719148224, 35420161255505334169214138706511784308),
            x36 == wide(1, 29088433619585144099707986266835771130, 45421806131553996538402805853312669057),
    ;
    lemma_power_round(a, n, e35, x35, 1, a, x36);
    let e36: nat = 2 * e35 + 1;
    let x37: int = wide(1, 58509706918902430894822158030481811989, 26331942782704813483344156263675016861);
    assert((x36 * x36 * 1) % n == x37) by (nonlinear_arith)
        requires
            n == wide(2, 18882428718392752222464057452572750885, 48364400416034343698204186575808495617),
            x36 == wide(1, 29088433619585144099707986266835771130, 45421806131553996538402805853312669057),
            x37 == wide(1, 58509706918902430894822158030481811989, 26331942782704813483344156263675016861),
    ;
    lemma_power_round(a, n, e36, x36, 0, 1, x37);
    let e37: nat = 2 * e36 + 0;
    let x38: int = wide(0, 59427174127445193726743711516792372253, 22652170292377397675585158938566471780);
    assert((x37 * x37 * 1) % n == x38) by (nonlinear_arith)
        requires
            n == wide(2, 18882428718392752222464057452572750885, 48364400416034343698204186575808495617),
            x37 == wide(1, 58509706918902430894822158030481811989, 26331942782704813483344156263675016861),
            x38 == wide(0, 59427174127445193726743711516792372253, 22652170292377397675585158938566471780),
    ;
    lemma_power_round(a, n, e37, x37, 0, 1, x38);
    let e38: nat = 2 * e37 + 0;
    let x39: int = wide(0, 82556834656664427615796559883862886577, 52929912244757012881944873905729439666);
    assert((x38 * x38 * a) % n == x39) by (nonlinear_arith)
        requires
            n == wide(2, 18882428718392752222464057452572750885, 48364400416034343698204186575808495617),
            a == wide(0, 40672172402868486714522659830653318973, 23918408910809300406102239489012348584),
            x38 == wide(0, 59427174127445193726743711516792372253, 22652170292377397675585158938566471780),
            x39 == wide(0, 82556834656664427615796559883862886577, 52929912244757012881944873905729439666),
    ;
    lemma_power_round(a, n, e38, x38, 1, a, x39);
    let e39: nat = 2 * e38 + 1;
    let x40: int = wide(0, 89332943984252473142101476616292349555, 45203082959819655240752488267388538944);
    assert((x39 * x39 * a) % n == x40) by (nonlinear_arith)
        requires
            n == wide(2, 18882428718392752222464057452572750885, 48364400416034343698204186575808495617),
            a == wide(0, 40672172402868486714522659830653318973, 23918408910809300406102239489012348584),
            x39 == wide(0, 82556834656664427615796559883862886577, 52929912244757012881944873905729439666),
            x40 == wide(0, 89332943984252473142101476616292349555, 45203082959819655240752488267388538944),
    ;
    lemma_power_round(a, n, e39, x39, 1, a, x40);
    let e40: nat = 2 * e39 + 1;
    let x41: int = wide(2, 5895602749803792140845475391090984940, 65169183095438179620761793679251393232);
    assert((x40 * x40 * 1) % n == x41) by (nonlinear_arith)
        requires
            n == wide(2, 18882428718392752222464057452572750885, 48364400416034343698204186575808495617),
            x40 == wide(0, 89332943984252473142101476616292349555, 45203082959819655240752488267388538944),
            x41 == wide(2, 5895602749803792140845475391090984940, 65169183095438179620761793679251393232),
    ;
    lemma_power_round(a, n, e40, x40, 0, 1, x41);
    let e41: nat = 2 * e40 + 0;
    let x42: int = wide(0, 84182339306171653574315036767488886332, 18726706654762616692112999670484591013);
    assert((x41 * x41 * a) % n == x42) by (nonlinear_arith)
        requires
            n == wide(2, 18882428718392752222464057452572750885, 48364400416034343698204186575808495617),
            a == wide(0, 40672172402868486714522659830653318973, 23918408910809300406102239489012348584),
            x41 == wide(2, 5895602749803792140845475391090984940, 65169183095438179620761793679251393232),
            x42 == wide(0, 84182339306171653574315036767488886332, 18726706654762616692112999670484591013),
    ;
    lemma_power_round(a, n, e41, x41, 1, a, x42);
    let e42: nat = 2 * e41 + 1;
    let x43: int = wide(0, 45667026063353556846176819752466171552, 69938832967097132898735221559711173008);
    assert((x42 * x42 * 1) % n == x43) by (nonlinear_arith)
        requires
            n == wide(2, 18882428718392752222464057452572750885, 48364400416034343698204186575808495617),
            x42 == wide(0, 84182339306171653574315036767488886332, 18726706654762616692112999670484591013),
            x43 == wide(0, 45667026063353556846176819752466171552, 69938832967097132898735221559711173008),
    ;
    lemma_power_round(a, n, e42, x42, 0, 1, x43);
    let e43: nat = 2 * e42 + 0;
    let x44: int = wide(0, 96325721013240370717251500391927842195, 90497799446190285410544024774523080908);
    assert((x43 * x43 * a) % n == x44) by (nonlinear_arith)
        requires
            n == wide(2, 18882428718392752222464057452572750885, 48364400416034343698204186575808495617),
            a == wide(0, 40672172402868486714522659830653318973, 23918408910809300406102239489012348584),
            x43 == wide(0, 45667026063353556846176819752466171552, 69938832967097132898735221559711173008),
            x44 == wide(0, 96325721013240370717251500391927842195, 90497799446190285410544024774523080908),
    ;
    lemma_power_round(a, n, e43, x43, 1, a, x44);
    let e44: nat = 2 * e43 + 1;
    let x45: int = wide(1, 70355663442594453879617088678870042966, 84509652717054829010794272049281788674);
    assert((x44 * x44 * a) % n == x45) by (nonlinear_arith)
        requires
            n == wide(2, 18882428718392752222464057452572750885, 48364400416034343698204186575808495617),
            a == wide(0, 40672172402868486714522659830653318973, 23918408910809300406102239489012348584),
            x44 == wide(0, 96325721013240370717251500391927842195, 90497799446190285410544024774523080908),
            x45 == wide(1, 70355663442594453879617088678870042966, 84509652717054829010794272049281788674),
    ;
    lemma_power_round(a, n, e44, x44, 1, a, x45);
    let e45: nat = 2 * e44 + 1;
    let x46: int = wide(0, 94335218110914225819172635207023657159, 11069060317711582080456248494772571446);
    assert((x45 * x45 * a) % n == x46) by (nonlinear_arith)
        requires
            n == wide(2, 18882428718392752222464057452572750885, 48364400416034343698204186575808495617),
            a == wide(0, 40672172402868486714522659830653318973, 23918408910809300406102239489012348584),
            x45 == wide(1, 70355663442594453879617088678870042966, 84509652717054829010794272049281788674),
            x46 == wide(0, 94335218110914225819172635207023657159, 11069060317711582080456248494772571446),
    ;
    lemma_power_round(a, n, e45, x45, 1, a, x46);
    let e46: nat = 2 * e45 + 1;
    let x47: int = wide(1, 32877466911448696257550734937299309705, 17240241830886362964485388273762127681);
    assert((x46 * x46 * a) % n == x47) by (nonlinear_arith)
        requires
            n == wide(2, 18882428718392752222464057452572750885, 48364400416034343698204186575808495617),
            a == wide(0, 40672172402868486714522659830653318973, 23918408910809300406102239489012348584),
            x46 == wide(0, 94335218110914225819172635207023657159, 11069060317711582080456248494772571446),
            x47 == wide(1, 32877466911448696257550734937299309705, 17240241830886362964485388273762127681),
    ;
    lemma_power_round(a, n, e46, x46, 1, a, x47);
    let e47: nat = 2 * e46 + 1;
    let x48: int = wide(0, 47508302272258100079065184133436636433, 18915987128822730455329789502939495942);
    assert((x47 * x47 * 1) % n == x48) by (nonlinear_arith)
        requires
            n == wide(2, 18882428718392752222464057452572750885, 48364400416034343698204186575808495617),
            x47 == wide(1, 32877466911448696257550734937299309705, 17240241830886362964485388273762127681),
            x48 == wide(0, 47508302272258100079065184133436636433, 18915987128822730455329789502939495942),
    ;
    lemma_power_round(a, n, e47, x47, 0, 1, x48);
    let e48: nat = 2 * e47 + 0;
    let x49: int = wide(1, 30350124085244706880488909707799708655, 74813919356132780678283705956544177429);
    assert((x48 * x48 * 1) % n == x49) by (nonlinear_arith)
        requires
            n == wide(2, 18882428718392752222464057452572750885, 48364400416034343698204186575808495617),
            x48 == wide(0, 47508302272258100079065184133436636433, 18915987128822730455329789502939495942),
            x49 == wide(1, 30350124085244706880488909707799708655, 74813919356132780678283705956544177429),
    ;
    lemma_power_round(a, n, e48, x48, 0, 1, x49);
    let e49: nat = 2 * e48 + 0;
    let x50: int = wide(1, 58220935766586668814277830069312722255, 64788928357168789168489701542569875099);
    assert((x49 * x49 * a) % n == x50) by (nonlinear_arith)
        requires
            n == wide(2, 18882428718392752222464057452572750885, 48364400416034343698204186575808495617),
            a == wide(0, 40672172402868486714522659830653318973, 23918408910809300406102239489012348584),
            x49 == wide(1, 30350124085244706880488909707799708655, 74813919356132780678283705956544177429),
            x50 == wide(1, 58220935766586668814277830069312722255, 64788928357168789168489701542569875099),
    ;
    lemma_power_round(a, n, e49, x49, 1, a, x50);
    let e50: nat = 2 * e49 + 1;
    let x51: int = wide(0, 37195992987072209355195813066663052681, 6104332808068259719769041556434773545);
    assert((x50 * x50 * 1) % n == x51) by (nonlinear_arith)
        requires
            n == wide(2, 18882428718392752222464057452572750885, 48364400416034343698204186575808495617),
            x50 == wide(1, 58220935766586668814277830069312722255, 64788928357168789168489701542569875099),
            x51 == wide(0, 37195992987072209355195813066663052681, 6104332808068259719769041556434773545),
    ;
    lemma_power_round(a, n, e50, x50, 0, 1, x51);
    let e51: nat = 2 * e50 + 0;
    let x52: int = wide(1, 64887722921085954951969165617290990742, 82002522665119535106490879714874084163);
    assert((x51 * x51 * a) % n == x52) by (nonlinear_arith)
        requires
            n == wide(2, 18882428718392752222464057452572750885, 48364400416034343698204186575808495617),
            a == wide(0, 40672172402868486714522659830653318973, 23918408910809300406102239489012348584),
            x51 == wide(0, 37195992987072209355195813066663052681, 6104332808068259719769041556434773545),
            x52 == wide(1, 64887722921085954951969165617290990742, 82002522665119535106490879714874084163),
    ;
    lemma_power_round(a, n, e51, x51, 1, a, x52);
    let e52: nat = 2 * e51 + 1;
    let x53: int = wide(1, 36038270579773262228250395627861940276, 68125986724652168226315764695294052828);
    assert((x52 * x52 * 1) % n == x53) by (nonlinear_arith)
        requires
            n == wide(2, 18882428718392752222464057452572750885, 48364400416034343698204186575808495617),
            x52 == wide(1, 64887722921085954951969165617290990742, 82002522665119535106490879714874084163),
            x53 == wide(1, 36038270579773262228250395627861940276, 68125986724652168226315764695294052828),
    ;
    lemma_power_round(a, n, e52, x52, 0, 1, x53);
    let e53: nat = 2 * e52 + 0;
    let x54: int = wide(0, 13158410315310981734552885904749156874, 35097755906924751602998016417667498287);
    assert((x53 * x53 * a) % n == x54) by (nonlinear_arith)
        requires
            n == wide(2, 18882428718392752222464057452572750885, 48364400416034343698204186575808495617),
            a == wide(0, 40672172402868486714522659830653318973, 23918408910809300406102239489012348584),
            x53 == wide(1, 36038270579773262228250395627861940276, 68125986724652168226315764695294052828),
            x54 == wide(0, 13158410315310981734552885904749156874, 35097755906924751602998016417667498287),
    ;
    lemma_power_round(a, n, e53, x53, 1, a, x54);
    let e54: nat = 2 * e53 + 1;
    let x55: int = wide(1, 50051895001147844709629340446228314014, 21069766145204589765605152476845736280);
    assert((x54 * x54 * a) % n == x55) by (nonlinear_arith)
        requires
            n == wide(2, 18882428718392752222464057452572750885, 48364400416034343698204186575808495617),
            a == wide(0, 40672172402868486714522659830653318973, 23918408910809300406102239489012348584),
            x54 == wide(0, 13158410315310981734552885904749156874, 35097755906924751602998016417667498287),
            x55 == wide(1, 50051895001147844709629340446228314014, 21069766145204589765605152476845736280),
    ;
    lemma_power_round(a, n, e54, x54, 1, a, x55);
    let e55: nat = 2 * e54 + 1;
    let x56: int = wide(1, 92030333097753408601658648687101638673, 644892515281368802815574887290727192);
    assert((x55 * x55 * a) % n == x56) by (nonlinear_arith)
        requires
            n == wide(2, 18882428718392752222464057452572750885, 48364400416034343698204186575808495617),
            a == wide(0, 40672172402868486714522659830653318973, 23918408910809300406102239489012348584),
            x55 == wide(1, 50051895001147844709629340446228314014, 21069766145204589765605152476845736280),
            x56 == wide(1, 92030333097753408601658648687101638673, 644892515281368802815574887290727192),
    ;
    lemma_power_round(a, n, e55, x55, 1, a, x56);
    let e56: nat = 2 * e55 + 1;
    let x57: int = wide(1, 92307706934707633400472037242714390050, 45606495543459833317496287168551806242);
    assert((x56 * x56 * a) % n == x57) by (nonlinear_arith)
        requires
            n == wide(2, 18882428718392752222464057452572750885, 48364400416034343698204186575808495617),
            a == wide(0, 40672172402868486714522659830653318973, 23918408910809300406102239489012348584),
            x56 == wide(1, 92030333097753408601658648687101638673, 644892515281368802815574887290727192),
            x57 == wide(1, 92307706934707633400472037242714390050, 45606495543459833317496287168551806242),
    ;
    lemma_power_round(a, n, e56, x56, 1, a, x57);
    let e57: nat = 2 * e56 + 1;
    let x58: int = wide(0, 25531409484839308124122859818493709594, 39675767789630126167664254901483265300);
    assert((x57 * x57 * 1) % n == x58) by (nonlinear_arith)
        requires
            n == wide(2, 18882428718392752222464057452572750885, 48364400416034343698204186575808495617),
            x57 == wide(1, 92307706934707633400472037242714390050, 45606495543459833317496287168551806242),
            x58 == wide(0, 25531409484839308124122859818493709594, 39675767789630126167664254901483265300),
    ;
    lemma_power_round(a, n, e57, x57, 0, 1, x58);
    let e58: nat = 2 * e57 + 0;
    let x59: int = wide(1, 53210020911074133183870677568322171816, 35022620875600912656324139269427047772);
    assert((x58 * x58 * a) % n == x59) by (nonlinear_arith)
        requires
            n == wide(2, 18882428718392752222464057452572750885, 48364400416034343698204186575808495617),
            a == wide(0, 40672172402868486714522659830653318973, 23918408910809300406102239489012348584),
            x58 == wide(0, 25531409484839308124122859818493709594, 39675767789630126167664254901483265300),
            x59 == wide(1, 53210020911074133183870677568322171816, 35022620875600912656324139269427047772),
    ;
    lemma_power_round(a, n, e58, x58, 1, a, x59);
    let e59: nat = 2 * e58 + 1;
    let x60: int = wide(0, 37355398715928169212338750317218380896, 14317682464056078135447190026190839187);
    assert((x59 * x59 * 1) % n == x60) by (nonlinear_arith)
        requires
            n == wide(2, 18882428718392752222464057452572750885, 48364400416034343698204186575808495617),
            x59 == wide(1, 53210020911074133183870677568322171816, 35022620875600912656324139269427047772),
            x60 == wide(0, 37355398715928169212338750317218380896, 14317682464056078135447190026190839187),
    ;
    lemma_power_round(a, n, e59, x59, 0, 1, x60);
    let e60: nat = 2 * e59 + 0;
    let x61: int = wide(0, 56222346820299302220133531729876969454, 12828110536454300652095428619831202102);
    assert((x60 * x60 * 1) % n == x61) by (nonlinear_arith)
        requires
            n == wide(2, 18882428718392752222464057452572750885, 48364400416034343698204186575808495617),
            x60 == wide(0, 37355398715928169212338750317218380896, 14317682464056078135447190026190839187),
            x61 == wide(0, 56222346820299302220133531729876969454, 12828110536454300652095428619831202102),
    ;
    lemma_power_round(a, n, e60, x60, 0, 1, x61);
    let e61: nat = 2 * e60 + 0;
    let x62: int = wide(1, 88447652884379877991382132236722110851, 17726746507232125190001470484912400462);
    assert((x61 * x61 * 1) % n == x62) by (nonlinear_arith)
        requires
            n == wide(2, 18882428718392752222464057452572750885, 48364400416034343698204186575808495617),
            x61 == wide(0, 56222346820299302220133531729876969454, 12828110536454300652095428619831202102),
            x62 == wide(1, 88447652884379877991382132236722110851, 17726746507232125190001470484912400462),
    ;
    lemma_power_round(a, n, e61, x61, 0, 1, x62);
    let e62: nat = 2 * e61 + 0;
    let x63: int = wide(0, 75237188861184631298463878654579204495, 1969533277957321152108701234010709627);
    assert((x62 * x62 * 1) % n == x63) by (nonlinear_arith)
        requires
            n == wide(2, 18882428718392752222464057452572750885, 48364400416034343698204186575808495617),
            x62 == wide(1, 88447652884379877991382132236722110851, 17726746507232125190001470484912400462),
            x63 == wide(0, 75237188861184631298463878654579204495, 1969533277957321152108701234010709627),
    ;
    lemma_power_round(a, n, e62, x62, 0, 1, x63);
    let e63: nat = 2 * e62 + 0;
    let x64: int = wide(0, 84488552196333654429300769170767138337, 81771384361585343893523329149156935516);
    assert((x63 * x63 * a) % n == x64) by (nonlinear_arith)
        requires
            n == wide(2, 18882428718392752222464057452572750885, 48364400416034343698204186575808495617),
            a == wide(0, 40672172402868486714522659830653318973, 23918408910809300406102239489012348584),
            x63 == wide(0, 75237188861184631298463878654579204495, 1969533277957321152108701234010709627),
            x64 == wide(0, 84488552196333654429300769170767138337, 81771384361585343893523329149156935516),
    ;
    lemma_power_round(a, n, e63, x63, 1, a, x64);
    let e64: nat = 2 * e63 + 1;
    let x65: int = wide(0, 24854685835329044843099718780756283987, 1936183570298080274931589456331496581);
    assert((x64 * x64 * a) % n == x65) by (nonlinear_arith)
        requires
            n == wide(2, 18882428718392752222464057452572750885, 48364400416034343698204186575808495617),
            a == wide(0, 40672172402868486714522659830653318973, 23918408910809300406102239489012348584),
            x64 == wide(0, 84488552196333654429300769170767138337, 81771384361585343893523329149156935516),
            x65 == wide(0, 24854685835329044843099718780756283987, 1936183570298080274931589456331496581),
    ;
    lemma_power_round(a, n, e64, x64, 1, a, x65);
    let e65: nat = 2 * e64 + 1;
    let x66: int = wide(0, 17638328304974793344361115970009206685, 23750036536595945067692152000206613291);
    assert((x65 * x65 * a) % n == x66) by (nonlinear_arith)
        requires
            n == wide(2, 18882428718392752222464057452572750885, 48364400416034343698204186575808495617),
            a == wide(0, 40672172402868486714522659830653318973, 23918408910809300406102239489012348584),
            x65 == wide(0, 24854685835329044843099718780756283987, 1936183570298080274931589456331496581),
            x66 == wide(0, 17638328304974793344361115970009206685, 23750036536595945067692152000206613291),
    ;
    lemma_power_round(a, n, e65, x65, 1, a, x66);
    let e66: nat = 2 * e65 + 1;
    let x67: int = wide(0, 47541623720594739499494763889798841478, 53939201566546687556588625308015404386);
    assert((x66 * x66 * 1) % n == x67) by (nonlinear_arith)
        requires
            n == wide(2, 18882428718392752222464057452572750885, 48364400416034343698204186575808495617),
            x66 == wide(0, 17638328304974793344361115970009206685, 23750036536595945067692152000206613291),
            x67 == wide(0, 47541623720594739499494763889798841478, 53939201566546687556588625308015404386),
    ;
    lemma_power_round(a, n, e66, x66, 0, 1, x67);
    let e67: nat = 2 * e66 + 0;
    let x68: int = wide(2, 6955255976210497284239172527055353607, 18712876837599263275890881026111584040);
    assert((x67 * x67 * 1) % n == x68) by (nonlinear_arith)
        requires
            n == wide(2, 18882428718392752222464057452572750885, 48364400416034343698204186575808495617),
            x67 == wide(0, 47541623720594739499494763889798841478, 53939201566546687556588625308015404386),
            x68 == wide(2, 6955255976210497284239172527055353607, 18712876837599263275890881026111584040),
    ;
    lemma_power_round(a, n, e67, x67, 0, 1, x68);
    let e68: nat = 2 * e67 + 0;
    let x69: int = wide(0, 86195889543768632219418655146522554221, 33586179693120934634395982893756521661);
    assert((x68 * x68 * a) % n == x69) by (nonlinear_arith)
        requires
            n == wide(2, 18882428718392752222464057452572750885, 48364400416034343698204186575808495617),
            a == wide(0, 40672172402868486714522659830653318973, 23918408910809300406102239489012348584),
            x68 == wide(2, 6955255976210497284239172527055353607, 18712876837599263275890881026111584040),
            x69 == wide(0, 86195889543768632219418655146522554221, 33586179693120934634395982893756521661),
    ;
    lemma_power_round(a, n, e68, x68, 1, a, x69);
    let e69: nat = 2 * e68 + 1;
    let x70: int = wide(1, 6399781089945466071458822449496132836, 67110026118833070157686786853029213187);
    assert((x69 * x69 * 1) % n == x70) by (nonlinear_arith)
        requires
            n == wide(2, 18882428718392752222464057452572750885, 48364400416034343698204186575808495617),
            x69 == wide(0, 86195889543768632219418655146522554221, 33586179693120934634395982893756521661),
            x70 == wide(1, 6399781089945466071458822449496132836, 67110026118833070157686786853029213187),
    ;
    lemma_power_round(a, n, e69, x69, 0, 1, x70);
    let e70: nat = 2 * e69 + 0;
    let x71: int = wide(1, 36278645700416536801974652178596777617, 35974344822760502413668374746291405744);
    assert((x70 * x70 * a) % n == x71) by (nonlinear_arith)
        requires
            n == wide(2, 18882428718392752222464057452572750885, 48364400416034343698204186575808495617),
            a == wide(0, 40672172402868486714522659830653318973, 23918408910809300406102239489012348584),
            x70 == wide(1, 6399781089945466071458822449496132836, 67110026118833070157686786853029213187),
            x71 == wide(1, 36278645700416536801974652178596777617, 35974344822760502413668374746291405744),
    ;
    lemma_power_round(a, n, e70, x70, 1, a, x71);
    let e71: nat = 2 * e70 + 1;
    let x72: int = wide(0, 14785848946892120600681353894391256104, 77393433539067448973187960356152469803);
    assert((x71 * x71 * 1) % n == x72) by (nonlinear_arith)
        requires
            n == wide(2, 18882428718392752222464057452572750885, 48364400416034343698204186575808495617),
            x71 == wide(1, 36278645700416536801974652178596777617, 35974344822760502413668374746291405744),
            x72 == wide(0, 14785848946892120600681353894391256104, 77393433539067448973187960356152469803),
    ;
    lemma_power_round(a, n, e71, x71, 0, 1, x72);
    let e72: nat = 2 * e71 + 0;
    let x73: int = wide(1, 25153502101045632939789800423405801530, 99941256207686398934436282461959491345);
    assert((x72 * x72 * 1) % n == x73) by (nonlinear_arith)
        requires
            n == wide(2, 18882428718392752222464057452572750885, 48364400416034343698204186575808495617),
            x72 == wide(0, 14785848946892120600681353894391256104, 77393433539067448973187960356152469803),
            x73 == wide(1, 25153502101045632939789800423405801530, 99941256207686398934436282461959491345),
    ;
    lemma_power_round(a, n, e72, x72, 0, 1, x73);
    let e73: nat = 2 * e72 + 0;
    let x74: int = wide(0, 65196678572487216208834040896291904535, 55380526572180117778616129766941648535);
    assert((x73 * x73 * a) % n == x74) by (nonlinear_arith)
        requires
            n == wide(2, 18882428718392752222464057452572750885, 48364400416034343698204186575808495617),
            a == wide(0, 40672172402868486714522659830653318973, 23918408910809300406102239489012348584),
            x73 == wide(1, 25153502101045632939789800423405801530, 99941256207686398934436282461959491345),
            x74 == wide(0, 65196678572487216208834040896291904535, 55380526572180117778616129766941648535),
    ;
    lemma_power_round(a, n, e73, x73, 1, a, x74);
    let e74: nat = 2 * e73 + 1;
    let x75: int = wide(1, 68234383101954574583358402152156569247, 25445978201061907958243556984777076296);
    assert((x74 * x74 * 1) % n == x75) by (nonlinear_arith)
        requires
            n == wide(2, 18882428718392752222464057452572750885, 48364400416034343698204186575808495617),
            x74 == wide(0, 65196678572487216208834040896291904535, 55380526572180117778616129766941648535),
            x75 == wide(1, 68234383101954574583358402152156569247, 25445978201061907958243556984777076296),
    ;
    lemma_power_round(a, n, e74, x74, 0, 1, x75);
    let e75: nat = 2 * e74 + 0;
    let x76: int = wide(0, 48860560331064860369892418191986746864, 30448265622916628618894665609786197276);
    assert((x75 * x75 * a) % n == x76) by (nonlinear_arith)
        requires
            n == wide(2, 18882428718392752222464057452572750885, 48364400416034343698204186575808495617),
            a == wide(0, 40672172402868486714522659830653318973, 23918408910809300406102239489012348584),
            x75 == wide(1, 68234383101954574583358402152156569247, 25445978201061907958243556984777076296),
            x76 == wide(0, 48860560331064860369892418191986746864, 30448265622916628618894665609786197276),
    ;
    lemma_power_round(a, n, e75, x75, 1, a, x76);
    let e76: nat = 2 * e75 + 1;
    let x77: int = wide(1, 8222084004663221925930648834540536865, 31874372810959438678408134393112980376);
    assert((x76 * x76 * 1) % n == x77) by (nonlinear_arith)
        requires
            n == wide(2, 18882428718392752222464057452572750885, 48364400416034343698204186575808495617),
            x76 == wide(0, 48860560331064860369892418191986746864, 30448265622916628618894665609786197276),
            x77 == wide(1, 8222084004663221925930648834540536865, 31874372810959438678408134393112980376),
    ;
    lemma_power_round(a, n, e76, x76, 0, 1, x77);
    let e77: nat = 2 * e76 + 0;
    let x78: int = wide(0, 62408331334481053382075812459490044845, 52400747577623356912084461759335556916);
    assert((x77 * x77 * a) % n == x78) by (nonlinear_arith)
        requires
            n == wide(2, 18882428718392752222464057452572750885, 48364400416034343698204186575808495617),
            a == wide(0, 40672172402868486714522659830653318973, 23918408910809300406102239489012348584),
            x77 == wide(1, 8222084004663221925930648834540536865, 31874372810959438678408134393112980376),
            x78 == wide(0, 62408331334481053382075812459490044845, 52400747577623356912084461759335556916),
    ;
    lemma_power_round(a, n, e77, x77, 1, a, x78);
    let e78: nat = 2 * e77 + 1;
    let x79: int = wide(0, 9915436664363735246616972835206638947, 297870464559561035400420715937077869);
    assert((x78 * x78 * 1) % n == x79) by (nonlinear_arith)
        requires
            n == wide(2, 18882428718392752222464057452572750885, 48364400416034343698204186575808495617),
            x78 == wide(0, 62408331334481053382075812459490044845, 52400747577623356912084461759335556916),
            x79 == wide(0, 9915436664363735246616972835206638947, 297870464559561035400420715937077869),
    ;
    lemma_power_round(a, n, e78, x78, 0, 1, x79);
    let e79: nat = 2 * e78 + 0;
    let x80: int = wide(1, 37528115890346561401983742211635094990, 5731150836489101685730465413837061152);
    assert((x79 * x79 * 1) % n == x80) by (nonlinear_arith)
        requires
            n == wide(2, 18882428718392752222464057452572750885, 48364400416034343698204186575808495617),
            x79 == wide(0, 9915436664363735246616972835206638947, 297870464559561035400420715937077869),
            x80 == wide(1, 37528115890346561401983742211635094990, 5731150836489101685730465413837061152),
    ;
    lemma_power_round(a, n, e79, x79, 0, 1, x80);
    let e80: nat = 2 * e79 + 0;
    let x81: int = wide(0, 3525589012676523801869966446741769340, 81529659241928266274750804435919316555);
    assert((x80 * x80 * a) % n == x81) by (nonlinear_arith)
        requires
            n == wide(2, 18882428718392752222464057452572750885, 48364400416034343698204186575808495617),
            a == wide(0, 40672172402868486714522659830653318973, 23918408910809300406102239489012348584),
            x80 == wide(1, 37528115890346561401983742211635094990, 5731150836489101685730465413837061152),
            x81 == wide(0, 3525589012676523801869966446741769340, 81529659241928266274750804435919316555),
    ;
    lemma_power_round(a, n, e80, x80, 1, a, x81);
    let e81: nat = 2 * e80 + 1;
    let x82: int = wide(0, 99752879186028609115800105531365008361, 49672040675543073036316873641214829324);
    assert((x81 * x81 * 1) % n == x82) by (nonlinear_arith)
        requires
            n == wide(2, 18882428718392752222464057452572750885, 48364400416034343698204186575808495617),
            x81 == wide(0, 3525589012676523801869966446741769340, 81529659241928266274750804435919316555),
            x82 == wide(0, 99752879186028609115800105531365008361, 49672040675543073036316873641214829324),
    ;
    lemma_power_round(a, n, e81, x81, 0, 1, x82);
    let e82: nat = 2 * e81 + 0;
    let x83: int = wide(1, 96398174821566841475170073695480892181, 35951793141269477014961025414798861115);
    assert((x82 * x82 * 1) % n == x83) by (nonlinear_arith)
        requires
            n == wide(2, 18882428718392752222464057452572750885, 48364400416034343698204186575808495617),
            x82 == wide(0, 99752879186028609115800105531365008361, 49672040675543073036316873641214829324),
            x83 == wide(1, 96398174821566841475170073695480892181, 35951793141269477014961025414798861115),
    ;
    lemma_power_round(a, n, e82, x82, 0, 1, x83);
    let e83: nat = 2 * e82 + 0;
    let x84: int = wide(1, 71396379038300956346974554244427973233, 63989037643635193072045733059952354744);
    assert((x83 * x83 * a) % n == x84) by (nonlinear_arith)
        requires
            n == wide(2, 18882428718392752222464057452572750885, 48364400416034343698204186575808495617),
            a == wide(0, 40672172402868486714522659830653318973, 23918408910809300406102239489012348584),
            x83 == wide(1, 96398174821566841475170073695480892181, 35951793141269477014961025414798861115),
            x84 == wide(1, 71396379038300956346974554244427973233, 63989037643635193072045733059952354744),
    ;
    lemma_power_round(a, n, e83, x83, 1, a, x84);
    let e84: nat = 2 * e83 + 1;
    let x85: int = wide(0, 9142176162376134392804756377349215886, 67706267016512353212528249498655370278);
    assert((x84 * x84 * a) % n == x85) by (nonlinear_arith)
        requires
            n == wide(2, 18882428718392752222464057452572750885, 48364400416034343698204186575808495617),
            a == wide(0, 40672172402868486714522659830653318973, 23918408910809300406102239489012348584),
            x84 == wide(1, 71396379038300956346974554244427973233, 63989037643635193072045733059952354744),
            x85 == wide(0, 9142176162376134392804756377349215886, 67706267016512353212528249498655370278),
    ;
    lemma_power_round(a, n, e84, x84, 1, a, x85);
    let e85: nat = 2 * e84 + 1;
    let x86: int = wide(0, 57349332315414507502674067383147367043, 8586995611790329229868807038284262457);
    assert((x85 * x85 * a) % n == x86) by (nonlinear_arith)
        requires
            n == wide(2, 18882428718392752222464057452572750885, 48364400416034343698204186575808495617),
            a == wide(0, 40672172402868486714522659830653318973, 23918408910809300406102239489012348584),
            x85 == wide(0, 9142176162376134392804756377349215886, 67706267016512353212528249498655370278),
            x86 == wide(0, 57349332315414507502674067383147367043, 8586995611790329229868807038284262457),
    ;
    lemma_power_round(a, n, e85, x85, 1, a, x86);
    let e86: nat = 2 * e85 + 1;
    let x87: int = wide(0, 16253360391939049593470944470003724370, 51439332362963296612616483220024776204);
    assert((x86 * x86 * a) % n == x87) by (nonlinear_arith)
        requires
            n == wide(2, 18882428718392752222464057452572750885, 48364400416034343698204186575808495617),
            a == wide(0, 40672172402868486714522659830653318973, 23918408910809300406102239489012348584),
            x86 == wide(0, 57349332315414507502674067383147367043, 8586995611790329229868807038284262457),
            x87 == wide(0, 16253360391939049593470944470003724370, 51439332362963296612616483220024776204),
    ;
    lemma_power_round(a, n, e86, x86, 1, a, x87);
    let e87: nat = 2 * e86 + 1;
    let x88: int = wide(1, 52630954761773394728935727124416588300, 53824967875597941275658689623180726528);
    assert((x87 * x87 * a) % n == x88) by (nonlinear_arith)
        requires
            n == wide(2, 18882428718392752222464057452572750885, 48364400416034343698204186575808495617),
            a == wide(0, 40672172402868486714522659830653318973, 23918408910809300406102239489012348584),
            x87 == wide(0, 16253360391939049593470944470003724370, 51439332362963296612616483220024776204),
            x88 == wide(1, 52630954761773394728935727124416588300, 53824967875597941275658689623180726528),
    ;
    lemma_power_round(a, n, e87, x87, 1, a, x88);
    let e88: nat = 2 * e87 + 1;
    let x89: int = wide(0, 75426591604108162381807333724512762737, 40009883376419805240252310437459932401);
    assert((x88 * x88 * a) % n == x89) by (nonlinear_arith)
        requires
            n == wide(2, 18882428718392752222464057452572750885, 48364400416034343698204186575808495617),
            a == wide(0, 40672172402868486714522659830653318973, 23918408910809300406102239489012348584),
            x88 == wide(1, 52630954761773394728935727124416588300, 53824967875597941275658689623180726528),
            x89 == wide(0, 75426591604108162381807333724512762737, 40009883376419805240252310437459932401),
    ;
    lemma_power_round(a, n, e88, x88, 1, a, x89);
    let e89: nat = 2 * e88 + 1;
    let x90: int = wide(1, 8437907272562624707493711540077310332, 65095714211366053529959999110654158998);
    assert((x89 * x89 * 1) % n == x90) by (nonlinear_arith)
        requires
            n == wide(2, 18882428718392752222464057452572750885, 48364400416034343698204186575808495617),
            x89 == wide(0, 75426591604108162381807333724512762737, 40009883376419805240252310437459932401),
            x90 == wide(1, 8437907272562624707493711540077310332, 65095714211366053529959999110654158998),
    ;
    lemma_power_round(a, n, e89, x89, 0, 1, x90);
    let e90: nat = 2 * e89 + 0;
    let x91: int = wide(1, 6321134309715578688066970345409955374, 36250121514722732420480920928142450155);
    assert((x90 * x90 * 1) % n == x91) by (nonlinear_arith)
        requires
            n == wide(2, 18882428718392752222464057452572750885, 48364400416034343698204186575808495617),
            x90 == wide(1, 8437907272562624707493711540077310332, 65095714211366053529959999110654158998),
            x91 == wide(1, 6321134309715578688066970345409955374, 36250121514722732420480920928142450155),
    ;
    lemma_power_round(a, n, e90, x90, 0, 1, x91);
    let e91: nat = 2 * e90 + 0;
    let x92: int = wide(0, 37194985497934417482565276558102022491, 97363423147539062687900885823491432443);
    assert((x91 * x91 * 1) % n == x92) by (nonlinear_arith)
        requires
            n == wide(2, 18882428718392752222464057452572750885, 48364400416034343698204186575808495617),
            x91 == wide(1, 6321134309715578688066970345409955374, 36250121514722732420480920928142450155),
            x92 == wide(0, 37194985497934417482565276558102022491, 97363423147539062687900885823491432443),
    ;
    lemma_power_round(a, n, e91, x91, 0, 1, x92);
    let e92: nat = 2 * e91 + 0;
    let x93: int = wide(1, 6007668864188512352724893420444045846, 34817502004706251536578012124037294019);
    assert((x92 * x92 * 1) % n == x93) by (nonlinear_arith)
        requires
            n == wide(2, 18882428718392752222464057452572750885, 48364400416034343698204186575808495617),
            x92 == wide(0, 37194985497934417482565276558102022491, 97363423147539062687900885823491432443),
            x93 == wide(1, 6007668864188512352724893420444045846, 34817502004706251536578012124037294019),
    ;
    lemma_power_round(a, n, e92, x92, 0, 1, x93);
    let e93: nat = 2 * e92 + 0;
    let x94: int = wide(1, 53792047940026677692985304527566044746, 47348591674452342013272253614090326003);
    assert((x93 * x93 * a) % n == x94) by (nonlinear_arith)
        requires
            n == wide(2, 18882428718392752222464057452572750885, 48364400416034343698204186575808495617),
            a == wide(0, 40672172402868486714522659830653318973, 23918408910809300406102239489012348584),
            x93 == wide(1, 6007668864188512352724893420444045846, 34817502004706251536578012124037294019),
            x94 == wide(1, 53792047940026677692985304527566044746, 47348591674452342013272253614090326003),
    ;
    lemma_power_round(a, n, e93, x93, 1, a, x94);
    let e94: nat = 2 * e93 + 1;
    assert(e94 == 13818364434197438864469338081);
}

/// Modulo the modulus: the first power to the 1670836401704629, which is the
/// base to the predecessor divided by 13818364434197438864469338081.
proof fn lemma_modulus_power_without_13818364434197438864469338081()
    ensures
        pow(wide(0, 40672172402868486714522659830653318973, 23918408910809300406102239489012348584), 1670836401704629nat) % wide(2, 18882428718392752222464057452572750885, 48364400416034343698204186575808495617) == wide(1, 88105369602677382816233191385640981565, 38132287104634306360290224932305588168),
{
    let n: int = wide(2, 18882428718392752222464057452572750885, 48364400416034343698204186575808495617);
    let a: int = wide(0, 40672172402868486714522659830653318973, 23918408910809300406102239489012348584);
    let x0: int = 1;
    let e0: nat = 0;
    lemma_pow0(a);
    lemma_small_mod(1, n as nat);
    let x1: int = wide(0, 40672172402868486714522659830653318973, 23918408910809300406102239489012348584);
    assert((x0 * x0 * a) % n == x1) by (nonlinear_arith)
        requires
            n == wide(2, 18882428718392752222464057452572750885, 48364400416034343698204186575808495617),
            a == wide(0, 40672172402868486714522659830653318973, 23918408910809300406102239489012348584),
            x0 == 1,
            x1 == wide(0, 40672172402868486714522659830653318973, 23918408910809300406102239489012348584),
    ;
    lemma_power_round(a, n, e0, x0, 1, a, x1);
    let e1: nat = 2 * e0 + 1;
    let x2: int = wide(0, 63861281515523373247972745838544494613, 28952692055052099188299042347749289856);
    assert((x1 * x1 * 1) % n == x2) by (nonlinear_arith)
        requires
            n == wide(2, 18882428718392752222464057452572750885, 48364400416034343698204186575808495617),
            x1 == wide(0, 40672172402868486714522659830653318973, 23918408910809300406102239489012348584),
            x2 == wide(0, 63861281515523373247972745838544494613, 28952692055052099188299042347749289856),
    ;
    lemma_power_round(a, n, e1, x1, 0, 1, x2);
    let e2: nat = 2 * e1 + 0;
    let x3: int = wide(1, 32387493338816571067053057014609765502, 31994495162614680963707438086684607956);
    assert((x2 * x2 * a) % n == x3) by (nonlinear_arith)
        requires
            n == wide(2, 18882428718392752222464057452572750885, 48364400416034343698204186575808495617),
            a == wide(0, 40672172402868486714522659830653318973, 23918408910809300406102239489012348584),
            x2 == wide(0, 63861281515523373247972745838544494613, 28952692055052099188299042347749289856),
            x3 == wide(1, 32387493338816571067053057014609765502, 31994495162614680963707438086684607956),
    ;
    lemma_power_round(a, n, e2, x2, 1, a, x3);
    let e3: nat = 2 * e2 + 1;
    let x4: int = wide(1, 82352146675835895439518016342359520747, 35239039809855166216398886623174770170);
    assert((x3 * x3 * a) % n == x4) by (nonlinear_arith)
        requires
            n == wide(2, 18882428718392752222464057452572750885, 48364400416034343698204186575808495617),
            a == wide(0, 40672172402868486714522659830653318973, 23918408910809300406102239489012348584),
            x3 == wide(1, 32387493338816571067053057014609765502, 31994495162614680963707438086684607956),
            x4 == wide(1, 82352146675835895439518016342359520747, 35239039809855166216398886623174770170),
    ;
    lemma_power_round(a, n, e3, x3, 1, a, x4);
    let e4: nat = 2 * e3 + 1;
    let x5: int = wide(0, 57211312955578467811043671133525191924, 69116605711557781285702042069833871793);
    assert((x4 * x4 * a) % n == x5) by (nonlinear_arith)
        requires
            n == wide(2, 18882428718392752222464057452572750885, 48364400416034343698204186575808495617),
            a == wide(0, 40672172402868486714522659830653318973, 23918408910809300406102239489012348584),
            x4 == wide(1, 82352146675835895439518016342359520747, 35239039809855166216398886623174770170),
            x5 == wide(0, 57211312955578467811043671133525191924, 69116605711557781285702042069833871793),
    ;
    lemma_power_round(a, n, e4, x4, 1, a, x5);
    let e5: nat = 2 * e4 + 1;
    let x6: int = wide(1, 28102636474940636248996430055931050446, 48157316317501937529150065277159817662);
    assert((x5 * x5 * a) % n == x6) by (nonlinear_arith)
        requires
            n == wide(2, 18882428718392752222464057452572750885, 48364400416034343698204186575808495617),
            a == wide(0, 40672172402868486714522659830653318973, 23918408910809300406102239489012348584),
            x5 == wide(0, 57211312955578467811043671133525191924, 69116605711557781285702042069833871793),
            x6 == wide(1, 28102636474940636248996430055931050446, 48157316317501937529150065277159817662),
    ;
    lemma_power_round(a, n, e5, x5, 1, a, x6);
    let e6: nat = 2 * e5 + 1;
    let x7: int = wide(1, 55216100327941112768049073841168597804, 22607459397412237403815305009698800648);
    assert((x6 * x6 * 1) % n == x7) by (nonlinear_arith)
        requires
            n == wide(2, 18882428718392752222464057452572750885, 48364400416034343698204186575808495617),
            x6 == wide(1, 28102636474940636248996430055931050446, 48157316317501937529150065277159817662),
            x7 == wide(1, 55216100327941112768049073841168597804, 22607459397412237403815305009698800648),
    ;
    lemma_power_round(a, n, e6, x6, 0, 1, x7);
    let e7: nat = 2 * e6 + 0;
    let x8: int = wide(2, 2499463999217922897290884243227914311, 50985492773860345737646188678972519942);
    assert((x7 * x7 * a) % n == x8) by (nonlinear_arith)
        requires
            n == wide(2, 18882428718392752222464057452572750885, 48364400416034343698204186575808495617),
            a == wide(0, 40672172402868486714522659830653318973, 23918408910809300406102239489012348584),
            x7 == wide(1, 55216100327941112768049073841168597804, 22607459397412237403815305009698800648),
            x8 == wide(2, 2499463999217922897290884243227914311, 50985492773860345737646188678972519942),
    ;
    lemma_power_round(a, n, e7, x7, 1, a, x8);
    let e8: nat = 2 * e7 + 1;
    let x9: int = wide(0, 23250336203932591977269072081397817131, 37842775629757278593502222859102667422);
    assert((x8 * x8 * a) % n == x9) by (nonlinear_arith)
        requires
            n == wide(2, 18882428718392752222464057452572750885, 48364400416034343698204186575808495617),
            a == wide(0, 40672172402868486714522659830653318973, 23918408910809300406102239489012348584),
            x8 == wide(2, 2499463999217922897290884243227914311, 50985492773860345737646188678972519942),
            x9 == wide(0, 23250336203932591977269072081397817131, 37842775629757278593502222859102667422),
    ;
    lemma_power_round(a, n, e8, x8, 1, a, x9);
    let e9: nat = 2 * e8 + 1;
    let x10: int = wide(0, 20521194786454019826696556044811296880, 26327006196986550614253311576832213479);
    assert((x9 * x9 * a) % n == x10) by (nonlinear_arith)
        requires
            n == wide(2, 18882428718392752222464057452572750885, 48364400416034343698204186575808495617),
            a == wide(0, 40672172402868486714522659830653318973, 23918408910809300406102239489012348584),
            x9 == wide(0, 23250336203932591977269072081397817131, 37842775629757278593502222859102667422),
            x10 == wide(0, 20521194786454019826696556044811296880, 26327006196986550614253311576832213479),
    ;
    lemma_power_round(a, n, e9, x9, 1, a, x10);
    let e10: nat = 2 * e9 + 1;
    let x11: int = wide(0, 53055237913433388883400568545124430018, 11805487901587631041101707290939404956);
    assert((x10 * x10 * a) % n == x11) by (nonlinear_arith)
        requires
            n == wide(2, 18882428718392752222464057452572750885, 48364400416034343698204186575808495617),
            a == wide(0, 40672172402868486714522659830653318973, 23918408910809300406102239489012348584),
            x10 == wide(0, 20521194786454019826696556044811296880, 26327006196986550614253311576832213479),
            x11 == wide(0, 53055237913433388883400568545124430018, 11805487901587631041101707290939404956),
    ;
    lemma_power_round(a, n, e10, x10, 1, a, x11);
    let e11: nat = 2 * e10 + 1;
    let x12: int = wide(0, 77352452958313132130365495895173404461, 69467307398702275906908461849736090975);
    assert((x11 * x11 * a) % n == x12) by (nonlinear_arith)
        requires
            n == wide(2, 18882428718392752222464057452572750885, 48364400416034343698204186575808495617),
            a == wide(0, 40672172402868486714522659830653318973, 23918408910809300406102239489012348584),
            x11 == wide(0, 53055237913433388883400568545124430018, 11805487901587631041101707290939404956),
            x12 == wide(0, 77352452958313132130365495895173404461, 69467307398702275906908461849736090975),
    ;
    lemma_power_round(a, n, e11, x11, 1, a, x12);
    let e12: nat = 2 * e11 + 1;
    let x13: int = wide(1, 37359016509016368595248249718599103671, 21242378529385750786171991516679521694);
    assert((x12 * x12 * 1) % n == x13) by (nonlinear_arith)
        requires
            n == wide(2, 18882428718392752222464057452572750885, 48364400416034343698204186575808495617),
            x12 == wide(0, 77352452958313132130365495895173404461, 69467307398702275906908461849736090975),
            x13 == wide(1, 37359016509016368595248249718599103671, 21242378529385750786171991516679521694),
    ;
    lemma_power_round(a, n, e12, x12, 0, 1, x13);
    let e13: nat = 2 * e12 + 0;
    let x14: int = wide(1, 45912992635838690589377888395316014235, 86197208846154139957573506839701511840);
    assert((x13 * x13 * 1) % n == x14) by (nonlinear_arith)
        requires
            n == wide(2, 18882428718392752222464057452572750885, 48364400416034343698204186575808495617),
            x13 == wide(1, 37359016509016368595248249718599103671, 21242378529385750786171991516679521694),
            x14 == wide(1, 45912992635838690589377888395316014235, 86197208846154139957573506839701511840),
    ;
    lemma_power_round(a, n, e13, x13, 0, 1, x14);
    let e14: nat = 2 * e13 + 0;
    let x15: int = wide(0, 95184418768534818617363513593529912755, 27267624348828572263517916303564912401);
    assert((x14 * x14 * a) % n == x15) by (nonlinear_arith)
        requires
            n == wide(2, 18882428718392752222464057452572750885, 48364400416034343698204186575808495617),
            a == wide(0, 40672172402868486714522659830653318973, 23918408910809300406102239489012348584),
            x14 == wide(1, 45912992635838690589377888395316014235, 86197208846154139957573506839701511840),
            x15 == wide(0, 95184418768534818617363513593529912755, 27267624348828572263517916303564912401),
    ;
    lemma_power_round(a, n, e14, x14, 1, a, x15);
    let e15: nat = 2 * e14 + 1;
    let x16: int = wide(0, 93258417532982889813272439651671966781, 52097785136296273988568482195482840064);
    assert((x15 * x15 * a) % n == x16) by (nonlinear_arith)
        requires
            n == wide(2, 18882428718392752222464057452572750885, 48364400416034343698204186575808495617),
            a == wide(0, 40672172402868486714522659830653318973, 23918408910809300406102239489012348584),
            x15 == wide(0, 95184418768534818617363513593529912755, 27267624348828572263517916303564912401),
            x16 == wide(0, 93258417532982889813272439651671966781, 52097785136296273988568482195482840064),
    ;
    lemma_power_round(a, n, e15, x15, 1, a, x16);
    let e16: nat = 2 * e15 + 1;
    let x17: int = wide(0, 67075065843162079719526932283929503145, 84709399326875711445791268897704110998);
    assert((x16 * x16 * a) % n == x17) by (nonlinear_arith)
        requires
            n == wide(2, 18882428718392752222464057452572750885, 48364400416034343698204186575808495617),
            a == wide(0, 40672172402868486714522659830653318973, 23918408910809300406102239489012348584),
            x16 == wide(0, 93258417532982889813272439651671966781, 52097785136296273988568482195482840064),
            x17 == wide(0, 67075065843162079719526932283929503145, 84709399326875711445791268897704110998),
    ;
    lemma_power_round(a, n, e16, x16, 1, a, x17);
    let e17: nat = 2 * e16 + 1;
    let x18: int = wide(0, 34958236159519557090763750456912829191, 96805517726921210770951285651493961704);
    assert((x17 * x17 * 1) % n == x18) by (nonlinear_arith)
        requires
            n == wide(2, 18882428718392752222464057452572750885, 48364400416034343698204186575808495617),
            x17 == wide(0, 67075065843162079719526932283929503145, 84709399326875711445791268897704110998),
            x18 == wide(0, 34958236159519557090763750456912829191, 96805517726921210770951285651493961704),
    ;
    lemma_power_round(a, n, e17, x17, 0, 1, x18);
    let e18: nat = 2 * e17 + 0;
    let x19: int = wide(1, 78750550905060252403563701264922273127, 93770017793380228434757736587311268860);
    assert((x18 * x18 * a) % n == x19) by (nonlinear_arith)
        requires
            n == wide(2, 18882428718392752222464057452572750885, 48364400416034343698204186575808495617),
            a == wide(0, 40672172402868486714522659830653318973, 23918408910809300406102239489012348584),
            x18 == wide(0, 34958236159519557090763750456912829191, 96805517726921210770951285651493961704),
            x19 == wide(1, 78750550905060252403563701264922273127, 93770017793380228434757736587311268860),
    ;
    lemma_power_round(a, n, e18, x18, 1, a, x19);
    let e19: nat = 2 * e18 + 1;
    let x20: int = wide(1, 17014865338295886873741141211755439270, 91329153289072077623892470291851896593);
    assert((x19 * x19 * a) % n == x20) by (nonlinear_arith)
        requires
            n == wide(2, 18882428718392752222464057452572750885, 48364400416034343698204186575808495617),
            a == wide(0, 40672172402868486714522659830653318973, 23918408910809300406102239489012348584),
            x19 == wide(1, 78750550905060252403563701264922273127, 93770017793380228434757736587311268860),
            x20 == wide(1, 17014865338295886873741141211755439270, 91329153289072077623892470291851896593),
    ;
    lemma_power_round(a, n, e19, x19, 1, a, x20);
    let e20: nat = 2 * e19 + 1;
    let x21: int = wide(0, 76068807308087350894494700569621046167, 61148653896049807680072281808978620232);
    assert((x20 * x20 * a) % n == x21) by (nonlinear_arith)
        requires
            n == wide(2, 18882428718392752222464057452572750885, 48364400416034343698204186575808495617),
            a == wide(0, 40672172402868486714522659830653318973, 23918408910809300406102239489012348584),
            x20 == wide(1, 17014865338295886873741141211755439270, 91329153289072077623892470291851896593),
            x21 == wide(0, 76068807308087350894494700569621046167, 61148653896049807680072281808978620232),
    ;
    lemma_power_round(a, n, e20, x20, 1, a, x21);
    let e21: nat = 2 * e20 + 1;
    let x22: int = wide(0, 76945213715167380821690584189969343466, 72614130827311342067208072937893629701);
    assert((x21 * x21 * a) % n == x22) by (nonlinear_arith)
        requires
            n == wide(2, 18882428718392752222464057452572750885, 48364400416034343698204186575808495617),
            a == wide(0, 40672172402868486714522659830653318973, 23918408910809300406102239489012348584),
            x21 == wide(0, 76068807308087350894494700569621046167, 61148653896049807680072281808978620232),
            x22 == wide(0, 76945213715167380821690584189969343466, 72614130827311342067208072937893629701),
    ;
    lemma_power_round(a, n, e21, x21, 1, a, x22);
    let e22: nat = 2 * e21 + 1;
    let x23: int = wide(0, 86793392868623637615041635917840199766, 29085217846334212063598421905203773607);
    assert((x22 * x22 * 1) % n == x23) by (nonlinear_arith)
        requires
            n == wide(2, 18882428718392752222464057452572750885, 48364400416034343698204186575808495617),
            x22 == wide(0, 76945213715167380821690584189969343466, 72614130827311342067208072937893629701),
            x23 == wide(0, 86793392868623637615041635917840199766, 29085217846334212063598421905203773607),
    ;
    lemma_power_round(a, n, e22, x22, 0, 1, x23);
    let e23: nat = 2 * e22 + 0;
    let x24: int = wide(0, 4032072176718216019915850142647093384, 48349712570319674836587866291851246368);
    assert((x23 * x23 * a) % n == x24) by (nonlinear_arith)
        requires
            n == wide(2, 18882428718392752222464057452572750885, 48364400416034343698204186575808495617),
            a == wide(0, 40672172402868486714522659830653318973, 23918408910809300406102239489012348584),
            x23 == wide(0, 86793392868623637615041635917840199766, 29085217846334212063598421905203773607),
            x24 == wide(0, 4032072176718216019915850142647093384, 48349712570319674836587866291851246368),
    ;
    lemma_power_round(a, n, e23, x23, 1, a, x24);
    let e24: nat = 2 * e23 + 1;
    let x25: int = wide(2, 444277355844413101619810309405854786, 83319332165119004897426775409179126663);
    assert((x24 * x24 * 1) % n == x25) by (nonlinear_arith)
        requires
            n == wide(2, 18882428718392752222464057452572750885, 48364400416034343698204186575808495617),
            x24 == wide(0, 4032072176718216019915850142647093384, 48349712570319674836587866291851246368),
            x25 == wide(2, 444277355844413101619810309405854786, 83319332165119004897426775409179126663),
    ;
    lemma_power_round(a, n, e24, x24, 0, 1, x25);
    let e25: nat = 2 * e24 + 0;
    let x26: int = wide(0, 82326480746313202546929524165223149715, 5800744418523364714398676793187570305);
    assert((x25 * x25 * a) % n == x26) by (nonlinear_arith)
        requires
            n == wide(2, 18882428718392752222464057452572750885, 48364400416034343698204186575808495617),
            a == wide(0, 40672172402868486714522659830653318973, 23918408910809300406102239489012348584),
            x25 == wide(2, 444277355844413101619810309405854786, 83319332165119004897426775409179126663),
            x26 == wide(0, 82326480746313202546929524165223149715, 5800744418523364714398676793187570305),
    ;
    lemma_power_round(a, n, e25, x25, 1, a, x26);
    let e26: nat = 2 * e25 + 1;
    let x27: int = wide(0, 86299764153223101119132365495133233229, 89871275047921905490991820742268879913);
    assert((x26 * x26 * 1) % n == x27) by (nonlinear_arith)
        requires
            n == wide(2, 18882428718392752222464057452572750885, 48364400416034343698204186575808495617),
            x26 == wide(0, 82326480746313202546929524165223149715, 5800744418523364714398676793187570305),
            x27 == wide(0, 86299764153223101119132365495133233229, 89871275047921905490991820742268879913),
    ;
    lemma_power_round(a, n, e26, x26, 0, 1, x27);
    let e27: nat = 2 * e26 + 0;
    let x28: int = wide(1, 79803660410835438590302012351062642897, 27395210669349329180701586110605329295);
    assert((x27 * x27 * 1) % n == x28) by (nonlinear_arith)
        requires
            n == wide(2, 18882428718392752222464057452572750885, 48364400416034343698204186575808495617),
            x27 == wide(0, 86299764153223101119132365495133233229, 89871275047921905490991820742268879913),
            x28 == wide(1, 79803660410835438590302012351062642897, 27395210669349329180701586110605329295),
    ;
    lemma_power_round(a, n, e27, x27, 0, 1, x28);
    let e28: nat = 2 * e27 + 0;
    let x29: int = wide(1, 10078295471995636443513458857598904397, 53192393307999906038004399823998109294);
    assert((x28 * x28 * 1) % n == x29) by (nonlinear_arith)
        requires
            n == wide(2, 18882428718392752222464057452572750885, 48364400416034343698204186575808495617),
            x28 == wide(1, 79803660410835438590302012351062642897, 27395210669349329180701586110605329295),
            x29 == wide(1, 10078295471995636443513458857598904397, 53192393307999906038004399823998109294),
    ;
    lemma_power_round(a, n, e28, x28, 0, 1, x29);
    let e29: nat = 2 * e28 + 0;
    let x30: int = wide(1, 12847528152869723144260668908385727850, 18453659598163493074748069494488677795);
    assert((x29 * x29 * a) % n == x30) by (nonlinear_arith)
        requires
            n == wide(2, 18882428718392752222464057452572750885, 48364400416034343698204186575808495617),
            a == wide(0, 40672172402868486714522659830653318973, 23918408910809300406102239489012348584),
            x29 == wide(1, 10078295471995636443513458857598904397, 53192393307999906038004399823998109294),
            x30 == wide(1, 12847528152869723144260668908385727850, 18453659598163493074748069494488677795),
    ;
    lemma_power_round(a, n, e29, x29, 1, a, x30);
    let e30: nat = 2 * e29 + 1;
    let x31: int = wide(1, 37687565058593993111835603269608252502, 7199533332247115294768620812113250806);
    assert((x30 * x30 * a) % n == x31) by (nonlinear_arith)
        requires
            n == wide(2, 18882428718392752222464057452572750885, 48364400416034343698204186575808495617),
            a == wide(0, 40672172402868486714522659830653318973, 23918408910809300406102239489012348584),
            x30 == wide(1, 12847528152869723144260668908385727850, 18453659598163493074748069494488677795),
            x31 == wide(1, 37687565058593993111835603269608252502, 7199533332247115294768620812113250806),
    ;
    lemma_power_round(a, n, e30, x30, 1, a, x31);
    let e31: nat = 2 * e30 + 1;
    let x32: int = wide(0, 81255474124938353026555442922777895168, 96418318486148577548235680118494358722);
    assert((x31 * x31 * 1) % n == x32) by (nonlinear_arith)
        requires
            n == wide(2, 18882428718392752222464057452572750885, 48364400416034343698204186575808495617),
            x31 == wide(1, 37687565058593993111835603269608252502, 7199533332247115294768620812113250806),
            x32 == wide(0, 81255474124938353026555442922777895168, 96418318486148577548235680118494358722),
    ;
    lemma_power_round(a, n, e31, x31, 0, 1, x32);
    let e32: nat = 2 * e31 + 0;
    let x33: int = wide(1, 52108079593924806725185274117707251206, 69757686839245514064083362806434615262);
    assert((x32 * x32 * 1) % n == x33) by (nonlinear_arith)
        requires
            n == wide(2, 18882428718392752222464057452572750885, 48364400416034343698204186575808495617),
            x32 == wide(0, 81255474124938353026555442922777895168, 96418318486148577548235680118494358722),
            x33 == wide(1, 52108079593924806725185274117707251206, 69757686839245514064083362806434615262),
    ;
    lemma_power_round(a, n, e32, x32, 0, 1, x33);
    let e33: nat = 2 * e32 + 0;
    let x34: int = wide(1, 48250745328634504866680290900564924096, 43860963120200518293230527073365407714);
    assert((x33 * x33 * a) % n == x34) by (nonlinear_arith)
        requires
            n == wide(2, 18882428718392752222464057452572750885, 48364400416034343698204186575808495617),
            a == wide(0, 40672172402868486714522659830653318973, 23918408910809300406102239489012348584),
            x33 == wide(1, 52108079593924806725185274117707251206, 69757686839245514064083362806434615262),
            x34 == wide(1, 48250745328634504866680290900564924096, 43860963120200518293230527073365407714),
    ;
    lemma_power_round(a, n, e33, x33, 1, a, x34);
    let e34: nat = 2 * e33 + 1;
    let x35: int = wide(1, 14204821908168221512685686021466730942, 8033372034080010015365028613068075075);
    assert((x34 * x34 * a) % n == x35) by (nonlinear_arith)
        requires
            n == wide(2, 18882428718392752222464057452572750885, 48364400416034343698204186575808495617),
            a == wide(0, 40672172402868486714522659830653318973, 23918408910809300406102239489012348584),
            x34 == wide(1, 48250745328634504866680290900564924096, 43860963120200518293230527073365407714),
            x35 == wide(1, 14204821908168221512685686021466730942, 8033372034080010015365028613068075075),
    ;
    lemma_power_round(a, n, e34, x34, 1, a, x35);
    let e35: nat = 2 * e34 + 1;
    let x36: int = wide(1, 84968817700475012946295874419665106461, 80871093725103134111316461724589140683);
    assert((x35 * x35 * a) % n == x36) by (nonlinear_arith)
        requires
            n == wide(2, 18882428718392752222464057452572750885, 48364400416034343698204186575808495617),
            a == wide(0, 40672172402868486714522659830653318973, 23918408910809300406102239489012348584),
            x35 == wide(1, 14204821908168221512685686021466730942, 8033372034080010015365028613068075075),
            x36 == wide(1, 84968817700475012946295874419665106461, 80871093725103134111316461724589140683),
    ;
    lemma_power_round(a, n, e35, x35, 1, a, x36);
    let e36: nat = 2 * e35 + 1;
    let x37: int = wide(0, 22370190937515286186390425438258484125, 79754333004986349879865178964098782587);
    assert((x36 * x36 * 1) % n == x37) by (nonlinear_arith)
        requires
            n == wide(2, 18882428718392752222464057452572750885, 48364400416034343698204186575808495617),
            x36 == wide(1, 84968817700475012946295874419665106461, 80871093725103134111316461724589140683),
            x37 == wide(0, 22370190937515286186390425438258484125, 79754333004986349879865178964098782587),
    ;
    lemma_power_round(a, n, e36, x36, 0, 1, x37);
    let e37: nat = 2 * e36 + 0;
    let x38: int = wide(0, 28392465513410453198223357348864851100, 12180583085267305826728535661394171274);
    assert((x37 * x37 * 1) % n == x38) by (nonlinear_arith)
        requires
            n == wide(2, 18882428718392752222464057452572750885, 48364400416034343698204186575808495617),
            x37 == wide(0, 22370190937515286186390425438258484125, 79754333004986349879865178964098782587),
            x38 == wide(0, 28392465513410453198223357348864851100, 12180583085267305826728535661394171274),
    ;
    lemma_power_round(a, n, e37, x37, 0, 1, x38);
    let e38: nat = 2 * e37 + 0;
    let x39: int = wide(0, 14646318714772217006692420189384317967, 34818078948907931300166732432337750916);
    assert((x38 * x38 * 1) % n == x39) by (nonlinear_arith)
        requires
            n == wide(2, 18882428718392752222464057452572750885, 48364400416034343698204186575808495617),
            x38 == wide(0, 28392465513410453198223357348864851100, 12180583085267305826728535661394171274),
            x39 == wide(0, 14646318714772217006692420189384317967, 34818078948907931300166732432337750916),
    ;
    lemma_power_round(a, n, e38, x38, 0, 1, x39);
    let e39: nat = 2 * e38 + 0;
    let x40: int = wide(1, 89208482205349549055951192567385822986, 5953670928872428456745297996714078343);
    assert((x39 * x39 * a) % n == x40) by (nonlinear_arith)
        requires
            n == wide(2, 18882428718392752222464057452572750885, 48364400416034343698204186575808495617),
            a == wide(0, 40672172402868486714522659830653318973, 23918408910809300406102239489012348584),
            x39 == wide(0, 14646318714772217006692420189384317967, 34818078948907931300166732432337750916),
            x40 == wide(1, 89208482205349549055951192567385822986, 5953670928872428456745297996714078343),
    ;
    lemma_power_round(a, n, e39, x39, 1, a, x40);
    let e40: nat = 2 * e39 + 1;
    let x41: int = wide(2, 17565478539275536240726121326367758151, 83179770725354197889403544432143667480);
    assert((x40 * x40 * a) % n == x41) by (nonlinear_arith)
        requires
            n == wide(2, 18882428718392752222464057452572750885, 48364400416034343698204186575808495617),
            a == wide(0, 40672172402868486714522659830653318973, 23918408910809300406102239489012348584),
            x40 == wide(1, 89208482205349549055951192567385822986, 5953670928872428456745297996714078343),
            x41 == wide(2, 17565478539275536240726121326367758151, 83179770725354197889403544432143667480),
    ;
    lemma_power_round(a, n, e40, x40, 1, a, x41);
    let e41: nat = 2 * e40 + 1;
    let x42: int = wide(0, 24368123653051354245197614963066398120, 67470956283251179144515159907233415200);
    assert((x41 * x41 * a) % n == x42) by (nonlinear_arith)
        requires
            n == wide(2, 18882428718392752222464057452572750885, 48364400416034343698204186575808495617),
            a == wide(0, 40672172402868486714522659830653318973, 23918408910809300406102239489012348584),
            x41 == wide(2, 17565478539275536240726121326367758151, 83179770725354197889403544432143667480),
            x42 == wide(0, 24368123653051354245197614963066398120, 67470956283251179144515159907233415200),
    ;
    lemma_power_round(a, n, e41, x41, 1, a, x42);
    let e42: nat = 2 * e41 + 1;
    let x43: int = wide(1, 73924451597047348362187380355173395786, 44351879633222452304609351608971145196);
    assert((x42 * x42 * 1) % n == x43) by (nonlinear_arith)
        requires
            n == wide(2, 18882428718392752222464057452572750885, 48364400416034343698204186575808495617),
            x42 == wide(0, 24368123653051354245197614963066398120, 67470956283251179144515159907233415200),
            x43 == wide(1, 73924451597047348362187380355173395786, 44351879633222452304609351608971145196),
    ;
    lemma_power_round(a, n, e42, x42, 0, 1, x43);
    let e43: nat = 2 * e42 + 0;
    let x44: int = wide(1, 68095205416550596987174964673171381933, 9130170423808132850043317267846989585);
    assert((x43 * x43 * a) % n == x44) by (nonlinear_arith)
        requires
            n == wide(2, 18882428718392752222464057452572750885, 48364400416034343698204186575808495617),
            a == wide(0, 40672172402868486714522659830653318973, 23918408910809300406102239489012348584),
            x43 == wide(1, 73924451597047348362187380355173395786, 44351879633222452304609351608971145196),
            x44 == wide(1, 68095205416550596987174964673171381933, 9130170423808132850043317267846989585),
    ;
    lemma_power_round(a, n, e43, x43, 1, a, x44);
    let e44: nat = 2 * e43 + 1;
    let x45: int = wide(1, 86393834035265938582394523697861342103, 25304972954169196132663352242470919596);
    assert((x44 * x44 * 1) % n == x45) by (nonlinear_arith)
        requires
            n == wide(2, 18882428718392752222464057452572750885, 48364400416034343698204186575808495617),
            x44 == wide(1, 68095205416550596987174964673171381933, 9130170423808132850043317267846989585),
            x45 == wide(1, 86393834035265938582394523697861342103, 25304972954169196132663352242470919596),
    ;
    lemma_power_round(a, n, e44, x44, 0, 1, x45);
    let e45: nat = 2 * e44 + 0;
    let x46: int = wide(0, 66070925690048073276343315353607061183, 46002349871874807749907684968254020795);
    assert((x45 * x45 * a) % n == x46) by (nonlinear_arith)
        requires
            n == wide(2, 18882428718392752222464057452572750885, 48364400416034343698204186575808495617),
            a == wide(0, 40672172402868486714522659830653318973, 23918408910809300406102239489012348584),
            x45 == wide(1, 86393834035265938582394523697861342103, 25304972954169196132663352242470919596),
            x46 == wide(0, 66070925690048073276343315353607061183, 46002349871874807749907684968254020795),
    ;
    lemma_power_round(a, n, e45, x45, 1, a, x46);
    let e46: nat = 2 * e45 + 1;
    let x47: int = wide(0, 40354953480161541727296348206346890621, 13386583787331187457720384514718685134);
    assert((x46 * x46 * a) % n == x47) by (nonlinear_arith)
        requires
            n == wide(2, 18882428718392752222464057452572750885, 48364400416034343698204186575808495617),
            a == wide(0, 40672172402868486714522659830653318973, 23918408910809300406102239489012348584),
            x46 == wide(0, 66070925690048073276343315353607061183, 46002349871874807749907684968254020795),
            x47 == wide(0, 40354953480161541727296348206346890621, 13386583787331187457720384514718685134),
    ;
    lemma_power_round(a, n, e46, x46, 1, a, x47);
    let e47: nat = 2 * e46 + 1;
    let x48: int = wide(1, 49544752195149600912691612375180342075, 84947452958956300721962104565458578924);
    assert((x47 * x47 * 1) % n == x48) by (nonlinear_arith)
        requires
            n == wide(2, 18882428718392752222464057452572750885, 48364400416034343698204186575808495617),
            x47 == wide(0, 40354953480161541727296348206346890621, 13386583787331187457720384514718685134),
            x48 == wide(1, 49544752195149600912691612375180342075, 84947452958956300721962104565458578924),
    ;
    lemma_power_round(a, n, e47, x47, 0, 1, x48);
    let e48: nat = 2 * e47 + 0;
    let x49: int = wide(1, 51656917691860978065343713764264571773, 78415567585007363103853162798591647034);
    assert((x48 * x48 * a) % n == x49) by (nonlinear_arith)
        requires
            n == wide(2, 18882428718392752222464057452572750885, 48364400416034343698204186575808495617),
            a == wide(0, 40672172402868486714522659830653318973, 23918408910809300406102239489012348584),
            x48 == wide(1, 49544752195149600912691612375180342075, 84947452958956300721962104565458578924),
            x49 == wide(1, 51656917691860978065343713764264571773, 78415567585007363103853162798591647034),
    ;
    lemma_power_round(a, n, e48, x48, 1, a, x49);
    let e49: nat = 2 * e48 + 1;
    let x50: int = wide(0, 82357078379213827046277319199543603252, 50346368193738132666408310195823247149);
    assert((x49 * x49 * 1) % n == x50) by (nonlinear_arith)
        requires
            n == wide(2, 18882428718392752222464057452572750885, 48364400416034343698204186575808495617),
            x49 == wide(1, 51656917691860978065343713764264571773, 78415567585007363103853162798591647034),
            x50 == wide(0, 82357078379213827046277319199543603252, 50346368193738132666408310195823247149),
    ;
    lemma_power_round(a, n, e49, x49, 0, 1, x50);
    let e50: nat = 2 * e49 + 0;
    let x51: int = wide(1, 88105369602677382816233191385640981565, 38132287104634306360290224932305588168);
    assert((x50 * x50 * a) % n == x51) by (nonlinear_arith)
        requires
            n == wide(2, 18882428718392752222464057452572750885, 48364400416034343698204186575808495617),
            a == wide(0, 40672172402868486714522659830653318973, 23918408910809300406102239489012348584),
            x50 == wide(0, 82357078379213827046277319199543603252, 50346368193738132666408310195823247149),
            x51 == wide(1, 88105369602677382816233191385640981565, 38132287104634306360290224932305588168),
    ;
    lemma_power_round(a, n, e50, x50, 1, a, x51);
    let e51: nat = 2 * e50 + 1;
    assert(e51 == 1670836401704629);
}

/// Modulo the modulus: the power above to the 13818364434197438864469338081,
/// which is the base to the predecessor.
proof fn lemma_modulus_power_full()
    ensures
        pow(wide(1, 88105369602677382816233191385640981565, 38132287104634306360290224932305588168), 13818364434197438864469338081nat) % wide(2, 18882428718392752222464057452572750885, 48364400416034343698204186575808495617) == 1,
{
    let n: int = wide(2, 18882428718392752222464057452572750885, 48364400416034343698204186575808495617);
    let a: int = wide(1, 88105369602677382816233191385640981565, 38132287104634306360290224932305588168);
    let x0: int = 1;
    let e0: nat = 0;
    lemma_pow0(a);
    lemma_small_mod(1, n as nat);
    let x1: int = wide(1, 88105369602677382816233191385640981565, 38132287104634306360290224932305588168);
    assert((x0 * x0 * a) % n == x1) by (nonlinear_arith)
        requires
            n == wide(2, 18882428718392752222464057452572750885, 48364400416034343698204186575808495617),
            a == wide(1, 88105369602677382816233191385640981565, 38132287104634306360290224932305588168),
            x0 == 1,
            x1 == wide(1, 88105369602677382816233191385640981565, 38132287104634306360290224932305588168),
    ;
    lemma_power_round(a, n, e0, x0, 1, a, x1);
    let e1: nat = 2 * e0 + 1;
    let x2: int = wide(0, 90856595815052688741328371329580251326, 43965648321324883040022263071236657138);
    assert((x1 * x1 * 1) % n == x2) by (nonlinear_arith)
        requires
            n == wide(2, 18882428718392752222464057452572750885, 48364400416034343698204186575808495617),
            x1 == wide(1, 88105369602677382816233191385640981565, 38132287104634306360290224932305588168),
            x2 == wide(0, 90856595815052688741328371329580251326, 43965648321324883040022263071236657138),
    ;
    lemma_power_round(a, n, e1, x1, 0, 1, x2);
    let e2: nat = 2 * e1 + 0;
    let x3: int = wide(0, 44662800927145511601793498335559716368, 73726671584238519253083836756174798464);
    assert((x2 * x2 * a) % n == x3) by (nonlinear_arith)
        requires
            n == wide(2, 18882428718392752222464057452572750885, 48364400416034343698204186575808495617),
            a == wide(1, 88105369602677382816233191385640981565, 38132287104634306360290224932305588168),
            x2 == wide(0, 90856595815052688741328371329580251326, 43965648321324883040022263071236657138),
            x3 == wide(0, 44662800927145511601793498335559716368, 73726671584238519253083836756174798464),
    ;
    lemma_power_round(a, n, e2, x2, 1, a, x3);
    let e3: nat = 2 * e2 + 1;
    let x4: int = wide(0, 72883007205310347515992051289893043600, 84109032148697596779139568504645333596);
    assert((x3 * x3 * a) % n == x4) by (nonlinear_arith)
        requires
            n == wide(2, 18882428718392752222464057452572750885, 48364400416034343698204186575808495617),
            a == wide(1, 88105369602677382816233191385640981565, 38132287104634306360290224932305588168),
            x3 == wide(0, 44662800927145511601793498335559716368, 73726671584238519253083836756174798464),
            x4 == wide(0, 72883007205310347515992051289893043600, 84109032148697596779139568504645333596),
    ;
    lemma_power_round(a, n, e3, x3, 1, a, x4);
    let e4: nat = 2 * e3 + 1;
    let x5: int = wide(1, 63103773567673322696222688901910164553, 440121513193467241937482505740628603);
    assert((x4 * x4 * 1) % n == x5) by (nonlinear_arith)
        requires
            n == wide(2, 18882428718392752222464057452572750885, 48364400416034343698204186575808495617),
            x4 == wide(0, 72883007205310347515992051289893043600, 84109032148697596779139568504645333596),
            x5 == wide(1, 63103773567673322696222688901910164553, 440121513193467241937482505740628603),
    ;
    lemma_power_round(a, n, e4, x4, 0, 1, x5);
    let e5: nat = 2 * e4 + 0;
    let x6: int = wide(1, 85902813457715898297052084614467231164, 58331097009764652595938196069863742739);
    assert((x5 * x5 * 1) % n == x6) by (nonlinear_arith)
        requires
            n == wide(2, 18882428718392752222464057452572750885, 48364400416034343698204186575808495617),
            x5 == wide(1, 63103773567673322696222688901910164553, 440121513193467241937482505740628603),
            x6 == wide(1, 85902813457715898297052084614467231164, 58331097009764652595938196069863742739),
    ;
    lemma_power_round(a, n, e5, x5, 0, 1, x6);
    let e6: nat = 2 * e5 + 0;
    let x7: int = wide(0, 35703284022630395339620787936148571791, 90899238207845654091689123093633975209);
    assert((x6 * x6 * a) % n == x7) by (nonlinear_arith)
        requires
            n == wide(2, 18882428718392752222464057452572750885, 48364400416034343698204186575808495617),
            a == wide(1, 88105369602677382816233191385640981565, 38132287104634306360290224932305588168),
            x6 == wide(1, 85902813457715898297052084614467231164, 58331097009764652595938196069863742739),
            x7 == wide(0, 35703284022630395339620787936148571791, 90899238207845654091689123093633975209),
    ;
    lemma_power_round(a, n, e6, x6, 1, a, x7);
    let e7: nat = 2 * e6 + 1;
    let x8: int = wide(2, 18295229748660903399150798627689973211, 67101142097465178168028730712625951784);
    assert((x7 * x7 * 1) % n == x8) by (nonlinear_arith)
        requires
            n == wide(2, 18882428718392752222464057452572750885, 48364400416034343698204186575808495617),
            x7 == wide(0, 35703284022630395339620787936148571791, 90899238207845654091689123093633975209),
            x8 == wide(2, 18295229748660903399150798627689973211, 67101142097465178168028730712625951784),
    ;
    lemma_power_round(a, n, e7, x7, 0, 1, x8);
    let e8: nat = 2 * e7 + 0;
    let x9: int = wide(0, 89750241998306315804038173447900283045, 86817291245569138346096813489152012375);
    assert((x8 * x8 * a) % n == x9) by (nonlinear_arith)
        requires
            n == wide(2, 18882428718392752222464057452572750885, 48364400416034343698204186575808495617),
            a == wide(1, 88105369602677382816233191385640981565, 38132287104634306360290224932305588168),
            x8 == wide(2, 18295229748660903399150798627689973211, 67101142097465178168028730712625951784),
            x9 == wide(0, 89750241998306315804038173447900283045, 86817291245569138346096813489152012375),
    ;
    lemma_power_round(a, n, e8, x8, 1, a, x9);
    let e9: nat = 2 * e8 + 1;
    let x10: int = wide(1, 24776353259716180523541910630380580341, 14302262450087294479249184382785493277);
    assert((x9 * x9 * 1) % n == x10) by (nonlinear_arith)
        requires
            n == wide(2, 18882428718392752222464057452572750885, 48364400416034343698204186575808495617),
            x9 == wide(0, 89750241998306315804038173447900283045, 86817291245569138346096813489152012375),
            x10 == wide(1, 24776353259716180523541910630380580341, 14302262450087294479249184382785493277),
    ;
    lemma_power_round(a, n, e9, x9, 0, 1, x10);
    let e10: nat = 2 * e9 + 0;
    let x11: int = wide(1, 84476154902929183986419299241364325638, 8024318567103194638030164631623810256);
    assert((x10 * x10 * 1) % n == x11) by (nonlinear_arith)
        requires
            n == wide(2, 18882428718392752222464057452572750885, 48364400416034343698204186575808495617),
            x10 == wide(1, 24776353259716180523541910630380580341, 14302262450087294479249184382785493277),
            x11 == wide(1, 84476154902929183986419299241364325638, 8024318567103194638030164631623810256),
    ;
    lemma_power_round(a, n, e10, x10, 0, 1, x11);
    let e11: nat = 2 * e10 + 0;
    let x12: int = wide(1, 81047964060651731905813311510140282902, 9456347151045762255637259888157688897);
    assert((x11 * x11 * a) % n == x12) by (nonlinear_arith)
        requires
            n == wide(2, 18882428718392752222464057452572750885, 48364400416034343698204186575808495617),
            a == wide(1, 88105369602677382816233191385640981565, 38132287104634306360290224932305588168),
            x11 == wide(1, 84476154902929183986419299241364325638, 8024318567103194638030164631623810256),
            x12 == wide(1, 81047964060651731905813311510140282902, 9456347151045762255637259888157688897),
    ;
    lemma_power_round(a, n, e11, x11, 1, a, x12);
    let e12: nat = 2 * e11 + 1;
    let x13: int = wide(2, 16666848039437527027754750120014224769, 2168933601203773733752216641393273098);
    assert((x12 * x12 * a) % n == x13) by (nonlinear_arith)
        requires
            n == wide(2, 18882428718392752222464057452572750885, 48364400416034343698204186575808495617),
            a == wide(1, 88105369602677382816233191385640981565, 38132287104634306360290224932305588168),
            x12 == wide(1, 81047964060651731905813311510140282902, 9456347151045762255637259888157688897),
            x13 == wide(2, 16666848039437527027754750120014224769, 2168933601203773733752216641393273098),
    ;
    lemma_power_round(a, n, e12, x12, 1, a, x13);
    let e13: nat = 2 * e12 + 1;
    let x14: int = wide(1, 23250387063890382463817615607105196804, 48258137532050165000737203053309415406);
    assert((x13 * x13 * 1) % n == x14) by (nonlinear_arith)
        requires
            n == wide(2, 18882428718392752222464057452572750885, 48364400416034343698204186575808495617),
            x13 == wide(2, 16666848039437527027754750120014224769, 2168933601203773733752216641393273098),
            x14 == wide(1, 23250387063890382463817615607105196804, 48258137532050165000737203053309415406),
    ;
    lemma_power_round(a, n, e13, x13, 0, 1, x14);
    let e14: nat = 2 * e13 + 0;
    let x15: int = wide(1, 34432532194867787434465130327162185178, 21584510808286422351206975950466483883);
    assert((x14 * x14 * 1) % n == x15) by (nonlinear_arith)
        requires
            n == wide(2, 18882428718392752222464057452572750885, 48364400416034343698204186575808495617),
            x14 == wide(1, 23250387063890382463817615607105196804, 48258137532050165000737203053309415406),
            x15 == wide(1, 34432532194867787434465130327162185178, 21584510808286422351206975950466483883),
    ;
    lemma_power_round(a, n, e14, x14, 0, 1, x15);
    let e15: nat = 2 * e14 + 0;
    let x16: int = wide(1, 89216309436405144515829306101012924639, 30579998447765112770252449495126884321);
    assert((x15 * x15 * a) % n == x16) by (nonlinear_arith)
        requires
            n == wide(2, 18882428718392752222464057452572750885, 48364400416034343698204186575808495617),
            a == wide(1, 88105369602677382816233191385640981565, 38132287104634306360290224932305588168),
            x15 == wide(1, 34432532194867787434465130327162185178, 21584510808286422351206975950466483883),
            x16 == wide(1, 89216309436405144515829306101012924639, 30579998447765112770252449495126884321),
    ;
    lemma_power_round(a, n, e15, x15, 1, a, x16);
    let e16: nat = 2 * e15 + 1;
    let x17: int = wide(1, 60456632296302799716966152337751995177, 83775118985254723521461749669979446855);
    assert((x16 * x16 * 1) % n == x17) by (nonlinear_arith)
        requires
            n == wide(2, 18882428718392752222464057452572750885, 48364400416034343698204186575808495617),
            x16 == wide(1, 89216309436405144515829306101012924639, 30579998447765112770252449495126884321),
            x17 == wide(1, 60456632296302799716966152337751995177, 83775118985254723521461749669979446855),
    ;
    lemma_power_round(a, n, e16, x16, 0, 1, x17);
    let e17: nat = 2 * e16 + 0;
    let x18: int = wide(0, 25470264070885527636191326924305824439, 71622840468111866157668238232522507159);
    assert((x17 * x17 * 1) % n == x18) by (nonlinear_arith)
        requires
            n == wide(2, 18882428718392752222464057452572750885, 48364400416034343698204186575808495617),
            x17 == wide(1, 60456632296302799716966152337751995177, 83775118985254723521461749669979446855),
            x18 == wide(0, 25470264070885527636191326924305824439, 71622840468111866157668238232522507159),
    ;
    lemma_power_round(a, n, e17, x17, 0, 1, x18);
    let e18: nat = 2 * e17 + 0;
    let x19: int = wide(1, 37430626941327550152847372871637467862, 10844211481797444674124733201070225471);
    assert((x18 * x18 * a) % n == x19) by (nonlinear_arith)
        requires
            n == wide(2, 18882428718392752222464057452572750885, 48364400416034343698204186575808495617),
            a == wide(1, 88105369602677382816233191385640981565, 38132287104634306360290224932305588168),
            x18 == wide(0, 25470264070885527636191326924305824439, 71622840468111866157668238232522507159),
            x19 == wide(1, 37430626941327550152847372871637467862, 10844211481797444674124733201070225471),
    ;
    lemma_power_round(a, n, e18, x18, 1, a, x19);
    let e19: nat = 2 * e18 + 1;
    let x20: int = wide(0, 92440985310508431154315589228320116404, 95424303933370476466228638133601123068);
    assert((x19 * x19 * 1) % n == x20) by (nonlinear_arith)
        requires
            n == wide(2, 18882428718392752222464057452572750885, 48364400416034343698204186575808495617),
            x19 == wide(1, 37430626941327550152847372871637467862, 10844211481797444674124733201070225471),
            x20 == wide(0, 92440985310508431154315589228320116404, 95424303933370476466228638133601123068),
    ;
    lemma_power_round(a, n, e19, x19, 0, 1, x20);
    let e20: nat = 2 * e19 + 0;
    let x21: int = wide(1, 33000552295288093414105421508789210479, 48950419169675759511858840419127563423);
    assert((x20 * x20 * 1) % n == x21) by (nonlinear_arith)
        requires
            n == wide(2, 18882428718392752222464057452572750885, 48364400416034343698204186575808495617),
            x20 == wide(0, 92440985310508431154315589228320116404, 95424303933370476466228638133601123068),
            x21 == wide(1, 33000552295288093414105421508789210479, 48950419169675759511858840419127563423),
    ;
    lemma_power_round(a, n, e20, x20, 0, 1, x21);
    let e21: nat = 2 * e20 + 0;
    let x22: int = wide(1, 59661987565272072590641017248245752787, 82181261157583397480959684222876843270);
    assert((x21 * x21 * 1) % n == x22) by (nonlinear_arith)
        requires
            n == wide(2, 18882428718392752222464057452572750885, 48364400416034343698204186575808495617),
            x21 == wide(1, 33000552295288093414105421508789210479, 48950419169675759511858840419127563423),
            x22 == wide(1, 59661987565272072590641017248245752787, 82181261157583397480959684222876843270),
    ;
    lemma_power_round(a, n, e21, x21, 0, 1, x22);
    let e22: nat = 2 * e21 + 0;
    let x23: int = wide(1, 90856644143085186876558417845559430662, 59154078927359148592852094240134500743);
    assert((x22 * x22 * 1) % n == x23) by (nonlinear_arith)
        requires
            n == wide(2, 18882428718392752222464057452572750885, 48364400416034343698204186575808495617),
            x22 == wide(1, 59661987565272072590641017248245752787, 82181261157583397480959684222876843270),
            x23 == wide(1, 90856644143085186876558417845559430662, 59154078927359148592852094240134500743),
    ;
    lemma_power_round(a, n, e22, x22, 0, 1, x23);
    let e23: nat = 2 * e22 + 0;
    let x24: int = wide(0, 18656027586921137328052148187013211929, 43896161784096184444957995389216886377);
    assert((x23 * x23 * a) % n == x24) by (nonlinear_arith)
        requires
            n == wide(2, 18882428718392752222464057452572750885, 48364400416034343698204186575808495617),
            a == wide(1, 88105369602677382816233191385640981565, 38132287104634306360290224932305588168),
            x23 == wide(1, 90856644143085186876558417845559430662, 59154078927359148592852094240134500743),
            x24 == wide(0, 18656027586921137328052148187013211929, 43896161784096184444957995389216886377),
    ;
    lemma_power_round(a, n, e23, x23, 1, a, x24);
    let e24: nat = 2 * e23 + 1;
    let x25: int = wide(1, 32299756541894192626692096428977908188, 45945731350156547878152497800875978185);
    assert((x24 * x24 * a) % n == x25) by (nonlinear_arith)
        requires
            n == wide(2, 18882428718392752222464057452572750885, 48364400416034343698204186575808495617),
            a == wide(1, 88105369602677382816233191385640981565, 38132287104634306360290224932305588168),
            x24 == wide(0, 18656027586921137328052148187013211929, 43896161784096184444957995389216886377),
            x25 == wide(1, 32299756541894192626692096428977908188, 45945731350156547878152497800875978185),
    ;
    lemma_power_round(a, n, e24, x24, 1, a, x25);
    let e25: nat = 2 * e24 + 1;
    let x26: int = wide(1, 13529744301762519882745928236868559606, 15703494006315686385524761056335374967);
    assert((x25 * x25 * a) % n == x26) by (nonlinear_arith)
        requires
            n == wide(2, 18882428718392752222464057452572750885, 48364400416034343698204186575808495617),
            a == wide(1, 88105369602677382816233191385640981565, 38132287104634306360290224932305588168),
            x25 == wide(1, 32299756541894192626692096428977908188, 45945731350156547878152497800875978185),
            x26 == wide(1, 13529744301762519882745928236868559606, 15703494006315686385524761056335374967),
    ;
    lemma_power_round(a, n, e25, x25, 1, a, x26);
    let e26: nat = 2 * e25 + 1;
    let x27: int = wide(1, 35043821923371084249547039001598660627, 347452420558012015396961260868152230);
    assert((x26 * x26 * a) % n == x27) by (nonlinear_arith)
        requires
            n == wide(2, 18882428718392752222464057452572750885, 48364400416034343698204186575808495617),
            a == wide(1, 88105369602677382816233191385640981565, 38132287104634306360290224932305588168),
            x26 == wide(1, 13529744301762519882745928236868559606, 15703494006315686385524761056335374967),
            x27 == wide(1, 35043821923371084249547039001598660627, 347452420558012015396961260868152230),
    ;
    lemma_power_round(a, n, e26, x26, 1, a, x27);
    let e27: nat = 2 * e26 + 1;
    let x28: int = wide(0, 52356116390363560515713881235904670360, 95675066045520218683930058073520986590);
    assert((x27 * x27 * a) % n == x28) by (nonlinear_arith)
        requires
            n == wide(2, 18882428718392752222464057452572750885, 48364400416034343698204186575808495617),
            a == wide(1, 88105369602677382816233191385640981565, 38132287104634306360290224932305588168),
            x27 == wide(1, 35043821923371084249547039001598660627, 347452420558012015396961260868152230),
            x28 == wide(0, 52356116390363560515713881235904670360, 95675066045520218683930058073520986590),
    ;
    lemma_power_round(a, n, e27, x27, 1, a, x28);
    let e28: nat = 2 * e27 + 1;
    let x29: int = wide(0, 5509069381591018559763582756685109271, 89310574626814122764122518665448149145);
    assert((x28 * x28 * 1) % n == x29) by (nonlinear_arith)
        requires
            n == wide(2, 18882428718392752222464057452572750885, 48364400416034343698204186575808495617),
            x28 == wide(0, 52356116390363560515713881235904670360, 95675066045520218683930058073520986590),
            x29 == wide(0, 5509069381591018559763582756685109271, 89310574626814122764122518665448149145),
    ;
    lemma_power_round(a, n, e28, x28, 0, 1, x29);
    let e29: nat = 2 * e28 + 0;
    let x30: int = wide(0, 40837472258537247544984708861131410754, 87032758838686420768356563111061876420);
    assert((x29 * x29 * 1) % n == x30) by (nonlinear_arith)
        requires
            n == wide(2, 18882428718392752222464057452572750885, 48364400416034343698204186575808495617),
            x29 == wide(0, 5509069381591018559763582756685109271, 89310574626814122764122518665448149145),
            x30 == wide(0, 40837472258537247544984708861131410754, 87032758838686420768356563111061876420),
    ;
    lemma_power_round(a, n, e29, x29, 0, 1, x30);
    let e30: nat = 2 * e29 + 0;
    let x31: int = wide(1, 56710896600291647071621269094092466536, 83633371012789152497710362060241054042);
    assert((x30 * x30 * a) % n == x31) by (nonlinear_arith)
        requires
            n == wide(2, 18882428718392752222464057452572750885, 48364400416034343698204186575808495617),
            a == wide(1, 88105369602677382816233191385640981565, 38132287104634306360290224932305588168),
            x30 == wide(0, 40837472258537247544984708861131410754, 87032758838686420768356563111061876420),
            x31 == wide(1, 56710896600291647071621269094092466536, 83633371012789152497710362060241054042),
    ;
    lemma_power_round(a, n, e30, x30, 1, a, x31);
    let e31: nat = 2 * e30 + 1;
    let x32: int = wide(0, 78057836717123772059474145791853627467, 51821306153595115022089496570147857233);
    assert((x31 * x31 * a) % n == x32) by (nonlinear_arith)
        requires
            n == wide(2, 18882428718392752222464057452572750885, 48364400416034343698204186575808495617),
            a == wide(1, 88105369602677382816233191385640981565, 38132287104634306360290224932305588168),
            x31 == wide(1, 56710896600291647071621269094092466536, 83633371012789152497710362060241054042),
            x32 == wide(0, 78057836717123772059474145791853627467, 51821306153595115022089496570147857233),
    ;
    lemma_power_round(a, n, e31, x31, 1, a, x32);
    let e32: nat = 2 * e31 + 1;
    let x33: int = wide(0, 78694514657322574464556531609220006246, 77206634823476245857754131876678353832);
    assert((x32 * x32 * a) % n == x33) by (nonlinear_arith)
        requires
            n == wide(2, 18882428718392752222464057452572750885, 48364400416034343698204186575808495617),
            a == wide(1, 88105369602677382816233191385640981565, 38132287104634306360290224932305588168),
            x32 == wide(0, 78057836717123772059474145791853627467, 51821306153595115022089496570147857233),
            x33 == wide(0, 78694514657322574464556531609220006246, 77206634823476245857754131876678353832),
    ;
    lemma_power_round(a, n, e32, x32, 1, a, x33);
    let e33: nat = 2 * e32 + 1;
    let x34: int = wide(1, 42910712670918335326229348975843754897, 79684593470876605643369722443630539261);
    assert((x33 * x33 * a) % n == x34) by (nonlinear_arith)
        requires
            n == wide(2, 18882428718392752222464057452572750885, 48364400416034343698204186575808495617),
            a == wide(1, 88105369602677382816233191385640981565, 38132287104634306360290224932305588168),
            x33 == wide(0, 78694514657322574464556531609220006246, 77206634823476245857754131876678353832),
            x34 == wide(1, 42910712670918335326229348975843754897, 79684593470876605643369722443630539261),
    ;
    lemma_power_round(a, n, e33, x33, 1, a, x34);
    let e34: nat = 2 * e33 + 1;
    let x35: int = wide(0, 52063384204819435844604667422169696525, 12666352702347847734674089527760357908);
    assert((x34 * x34 * a) % n == x35) by (nonlinear_arith)
        requires
            n == wide(2, 18882428718392752222464057452572750885, 48364400416034343698204186575808495617),
            a == wide(1, 88105369602677382816233191385640981565, 38132287104634306360290224932305588168),
            x34 == wide(1, 42910712670918335326229348975843754897, 79684593470876605643369722443630539261),
            x35 == wide(0, 52063384204819435844604667422169696525, 12666352702347847734674089527760357908),
    ;
    lemma_power_round(a, n, e34, x34, 1, a, x35);
    let e35: nat = 2 * e34 + 1;
    let x36: int = wide(1, 41607802874249930581795339253910073937, 37551198520438908212350126558230710206);
    assert((x35 * x35 * a) % n == x36) by (nonlinear_arith)
        requires
            n == wide(2, 18882428718392752222464057452572750885, 48364400416034343698204186575808495617),
            a == wide(1, 88105369602677382816233191385640981565, 38132287104634306360290224932305588168),
            x35 == wide(0, 52063384204819435844604667422169696525, 12666352702347847734674089527760357908),
            x36 == wide(1, 41607802874249930581795339253910073937, 37551198520438908212350126558230710206),
    ;
    lemma_power_round(a, n, e35, x35, 1, a, x36);
    let e36: nat = 2 * e35 + 1;
    let x37: int = wide(1, 67583239049181001241899080746459161232, 83625670993575052236993155911919099568);
    assert((x36 * x36 * 1) % n == x37) by (nonlinear_arith)
        requires
            n == wide(2, 18882428718392752222464057452572750885, 48364400416034343698204186575808495617),
            x36 == wide(1, 41607802874249930581795339253910073937, 37551198520438908212350126558230710206),
            x37 == wide(1, 67583239049181001241899080746459161232, 83625670993575052236993155911919099568),
    ;
    lemma_power_round(a, n, e36, x36, 0, 1, x37);
    let e37: nat = 2 * e36 + 0;
    let x38: int = wide(2, 18880831748647759174902069546904188912, 50255562899195060460029488001577172032);
    assert((x37 * x37 * 1) % n == x38) by (nonlinear_arith)
        requires
            n == wide(2, 18882428718392752222464057452572750885, 48364400416034343698204186575808495617),
            x37 == wide(1, 67583239049181001241899080746459161232, 83625670993575052236993155911919099568),
            x38 == wide(2, 18880831748647759174902069546904188912, 50255562899195060460029488001577172032),
    ;
    lemma_power_round(a, n, e37, x37, 0, 1, x38);
    let e38: nat = 2 * e37 + 0;
    let x39: int = wide(1, 91500818003915771745180140021708475536, 75972478260497414170618736038125142221);
    assert((x38 * x38 * a) % n == x39) by (nonlinear_arith)
        requires
            n == wide(2, 18882428718392752222464057452572750885, 48364400416034343698204186575808495617),
            a == wide(1, 88105369602677382816233191385640981565, 38132287104634306360290224932305588168),
            x38 == wide(2, 18880831748647759174902069546904188912, 50255562899195060460029488001577172032),
            x39 == wide(1, 91500818003915771745180140021708475536, 75972478260497414170618736038125142221),
    ;
    lemma_power_round(a, n, e38, x38, 1, a, x39);
    let e39: nat = 2 * e38 + 1;
    let x40: int = wide(1, 15518686421954577281866671639809363919, 58467963780365631879832845526240571883);
    assert((x39 * x39 * a) % n == x40) by (nonlinear_arith)
        requires
            n == wide(2, 18882428718392752222464057452572750885, 48364400416034343698204186575808495617),
            a == wide(1, 88105369602677382816233191385640981565, 38132287104634306360290224932305588168),
            x39 == wide(1, 91500818003915771745180140021708475536, 75972478260497414170618736038125142221),
            x40 == wide(1, 15518686421954577281866671639809363919, 58467963780365631879832845526240571883),
    ;
    lemma_power_round(a, n, e39, x39, 1, a, x40);
    let e40: nat = 2 * e39 + 1;
    let x41: int = wide(0, 50539701833293037340839709952998620212, 85121654002285241243662095329000714560);
    assert((x40 * x40 * 1) % n == x41) by (nonlinear_arith)
        requires
            n == wide(2, 18882428718392752222464057452572750885, 48364400416034343698204186575808495617),
            x40 == wide(1, 15518686421954577281866671639809363919, 58467963780365631879832845526240571883),
            x41 == wide(0, 50539701833293037340839709952998620212, 85121654002285241243662095329000714560),
    ;
    lemma_power_round(a, n, e40, x40, 0, 1, x41);
    let e41: nat = 2 * e40 + 0;
    let x42: int = wide(0, 29972218586827887515999401923572922340, 87461306149729300991070253952314231254);
    assert((x41 * x41 * a) % n == x42) by (nonlinear_arith)
        requires
            n == wide(2, 18882428718392752222464057452572750885, 48364400416034343698204186575808495617),
            a == wide(1, 88105369602677382816233191385640981565, 38132287104634306360290224932305588168),
            x41 == wide(0, 50539701833293037340839709952998620212, 85121654002285241243662095329000714560),
            x42 == wide(0, 29972218586827887515999401923572922340, 87461306149729300991070253952314231254),
    ;
    lemma_power_round(a, n, e41, x41, 1, a, x42);
    let e42: nat = 2 * e41 + 1;
    let x43: int = wide(0, 11588646745568841028630727694145136295, 76922765871300912853430616761293277995);
    assert((x42 * x42 * 1) % n == x43) by (nonlinear_arith)
        requires
            n == wide(2, 18882428718392752222464057452572750885, 48364400416034343698204186575808495617),
            x42 == wide(0, 29972218586827887515999401923572922340, 87461306149729300991070253952314231254),
            x43 == wide(0, 11588646745568841028630727694145136295, 76922765871300912853430616761293277995),
    ;
    lemma_power_round(a, n, e42, x42, 0, 1, x43);
    let e43: nat = 2 * e42 + 0;
    let x44: int = wide(1, 55663783837769612168657069455314946289, 49601736459385930311934560917077513735);
    assert((x43 * x43 * a) % n == x44) by (nonlinear_arith)
        requires
            n == wide(2, 18882428718392752222464057452572750885, 48364400416034343698204186575808495617),
            a == wide(1, 88105369602677382816233191385640981565, 38132287104634306360290224932305588168),
            x43 == wide(0, 11588646745568841028630727694145136295, 76922765871300912853430616761293277995),
            x44 == wide(1, 55663783837769612168657069455314946289, 49601736459385930311934560917077513735),
    ;
    lemma_power_round(a, n, e43, x43, 1, a, x44);
    let e44: nat = 2 * e43 + 1;
    let x45: int = wide(2, 85967458808050821508680646785209058, 10601901618159276267688578597851981575);
    assert((x44 * x44 * a) % n == x45) by (nonlinear_arith)
        requires
            n == wide(2, 18882428718392752222464057452572750885, 48364400416034343698204186575808495617),
            a == wide(1, 88105369602677382816233191385640981565, 38132287104634306360290224932305588168),
            x44 == wide(1, 55663783837769612168657069455314946289, 49601736459385930311934560917077513735),
            x45 == wide(2, 85967458808050821508680646785209058, 10601901618159276267688578597851981575),
    ;
    lemma_power_round(a, n, e44, x44, 1, a, x45);
    let e45: nat = 2 * e44 + 1;
    let x46: int = wide(1, 59035116851317710006027426847889320406, 7655047184374341105948884848526712673);
    assert((x45 * x45 * a) % n == x46) by (nonlinear_arith)
        requires
            n == wide(2, 18882428718392752222464057452572750885, 48364400416034343698204186575808495617),
            a == wide(1, 88105369602677382816233191385640981565, 38132287104634306360290224932305588168),
            x45 == wide(2, 85967458808050821508680646785209058, 10601901618159276267688578597851981575),
            x46 == wide(1, 59035116851317710006027426847889320406, 7655047184374341105948884848526712673),
    ;
    lemma_power_round(a, n, e45, x45, 1, a, x46);
    let e46: nat = 2 * e45 + 1;
    let x47: int = wide(1, 58694827166855161339914802434484790964, 84095417313353154755341481103009025334);
    assert((x46 * x46 * a) % n == x47) by (nonlinear_arith)
        requires
            n == wide(2, 18882428718392752222464057452572750885, 48364400416034343698204186575808495617),
            a == wide(1, 88105369602677382816233191385640981565, 38132287104634306360290224932305588168),
            x46 == wide(1, 59035116851317710006027426847889320406, 7655047184374341105948884848526712673),
            x47 == wide(1, 58694827166855161339914802434484790964, 84095417313353154755341481103009025334),
    ;
    lemma_power_round(a, n, e46, x46, 1, a, x47);
    let e47: nat = 2 * e46 + 1;
    let x48: int = wide(0, 5206701927131067478706226426348905340, 21981560750617004091071789459310697773);
    assert((x47 * x47 * 1) % n == x48) by (nonlinear_arith)
        requires
            n == wide(2, 18882428718392752222464057452572750885, 48364400416034343698204186575808495617),
            x47 == wide(1, 58694827166855161339914802434484790964, 84095417313353154755341481103009025334),
            x48 == wide(0, 5206701927131067478706226426348905340, 21981560750617004091071789459310697773),
    ;
    lemma_power_round(a, n, e47, x47, 0, 1, x48);
    let e48: nat = 2 * e47 + 0;
    let x49: int = wide(2, 11693356987986814668737146568722958207, 19543653841725774388801410251274613834);
    assert((x48 * x48 * 1) % n == x49) by (nonlinear_arith)
        requires
            n == wide(2, 18882428718392752222464057452572750885, 48364400416034343698204186575808495617),
            x48 == wide(0, 5206701927131067478706226426348905340, 21981560750617004091071789459310697773),
            x49 == wide(2, 11693356987986814668737146568722958207, 19543653841725774388801410251274613834),
    ;
    lemma_power_round(a, n, e48, x48, 0, 1, x49);
    let e49: nat = 2 * e48 + 0;
    let x50: int = wide(0, 81299682015986568515922087207966219448, 8002439398315183288286272752000075225);
    assert((x49 * x49 * a) % n == x50) by (nonlinear_arith)
        requires
            n == wide(2, 18882428718392752222464057452572750885, 48364400416034343698204186575808495617),
            a == wide(1, 88105369602677382816233191385640981565, 38132287104634306360290224932305588168),
            x49 == wide(2, 11693356987986814668737146568722958207, 19543653841725774388801410251274613834),
            x50 == wide(0, 81299682015986568515922087207966219448, 8002439398315183288286272752000075225),
    ;
    lemma_power_round(a, n, e49, x49, 1, a, x50);
    let e50: nat = 2 * e49 + 1;
    let x51: int = wide(2, 1829258803331603335125741273833114758, 78456085161582900911862531795173837604);
    assert((x50 * x50 * 1) % n == x51) by (nonlinear_arith)
        requires
            n == wide(2, 18882428718392752222464057452572750885, 48364400416034343698204186575808495617),
            x50 == wide(0, 81299682015986568515922087207966219448, 8002439398315183288286272752000075225),
            x51 == wide(2, 1829258803331603335125741273833114758, 78456085161582900911862531795173837604),
    ;
    lemma_power_round(a, n, e50, x50, 0, 1, x51);
    let e51: nat = 2 * e50 + 0;
    let x52: int = wide(1, 86087070354434717194793515876120939021, 44147197957025806185680077526416433516);
    assert((x51 * x51 * a) % n == x52) by (nonlinear_arith)
        requires
            n == wide(2, 18882428718392752222464057452572750885, 48364400416034343698204186575808495617),
            a == wide(1, 88105369602677382816233191385640981565, 38132287104634306360290224932305588168),
            x51 == wide(2, 1829258803331603335125741273833114758, 78456085161582900911862531795173837604),
            x52 == wide(1, 86087070354434717194793515876120939021, 44147197957025806185680077526416433516),
    ;
    lemma_power_round(a, n, e51, x51, 1, a, x52);
    let e52: nat = 2 * e51 + 1;
    let x53: int = wide(1, 10527423530961305833808479945478804821, 6796542005414620605658134912518192539);
    assert((x52 * x52 * 1) % n == x53) by (nonlinear_arith)
        requires
            n == wide(2, 18882428718392752222464057452572750885, 48364400416034343698204186575808495617),
            x52 == wide(1, 86087070354434717194793515876120939021, 44147197957025806185680077526416433516),
            x53 == wide(1, 10527423530961305833808479945478804821, 6796542005414620605658134912518192539),
    ;
    lemma_power_round(a, n, e52, x52, 0, 1, x53);
    let e53: nat = 2 * e52 + 0;
    let x54: int = wide(1, 19913982485577610765760749122379613396, 77140950692999944567175016655509006028);
    assert((x53 * x53 * a) % n == x54) by (nonlinear_arith)
        requires
            n == wide(2, 18882428718392752222464057452572750885, 48364400416034343698204186575808495617),
            a == wide(1, 88105369602677382816233191385640981565, 38132287104634306360290224932305588168),
            x53 == wide(1, 10527423530961305833808479945478804821, 6796542005414620605658134912518192539),
            x54 == wide(1, 19913982485577610765760749122379613396, 77140950692999944567175016655509006028),
    ;
    lemma_power_round(a, n, e53, x53, 1, a, x54);
    let e54: nat = 2 * e53 + 1;
    let x55: int = wide(0, 24272653279031457767419424305328402987, 58721804892354858537663928917781026571);
    assert((x54 * x54 * a) % n == x55) by (nonlinear_arith)
        requires
            n == wide(2, 18882428718392752222464057452572750885, 48364400416034343698204186575808495617),
            a == wide(1, 88105369602677382816233191385640981565, 38132287104634306360290224932305588168),
            x54 == wide(1, 19913982485577610765760749122379613396, 77140950692999944567175016655509006028),
            x55 == wide(0, 24272653279031457767419424305328402987, 58721804892354858537663928917781026571),
    ;
    lemma_power_round(a, n, e54, x54, 1, a, x55);
    let e55: nat = 2 * e54 + 1;
    let x56: int = wide(1, 86740516938545971069539440997342780612, 81140733400162433184210360638373519951);
    assert((x55 * x55 * a) % n == x56) by (nonlinear_arith)
        requires
            n == wide(2, 18882428718392752222464057452572750885, 48364400416034343698204186575808495617),
            a == wide(1, 88105369602677382816233191385640981565, 38132287104634306360290224932305588168),
            x55 == wide(0, 24272653279031457767419424305328402987, 58721804892354858537663928917781026571),
            x56 == wide(1, 86740516938545971069539440997342780612, 81140733400162433184210360638373519951),
    ;
    lemma_power_round(a, n, e55, x55, 1, a, x56);
    let e56: nat = 2 * e55 + 1;
    let x57: int = wide(1, 80690821820106728305318939945536959795, 11948101025408673123688155489840665421);
    assert((x56 * x56 * a) % n == x57) by (nonlinear_arith)
        requires
            n == wide(2, 18882428718392752222464057452572750885, 48364400416034343698204186575808495617),
            a == wide(1, 88105369602677382816233191385640981565, 38132287104634306360290224932305588168),
            x56 == wide(1, 86740516938545971069539440997342780612, 81140733400162433184210360638373519951),
            x57 == wide(1, 80690821820106728305318939945536959795, 11948101025408673123688155489840665421),
    ;
    lemma_power_round(a, n, e56, x56, 1, a, x57);
    let e57: nat = 2 * e56 + 1;
    let x58: int = wide(1, 26627604799787249404567614031867407387, 57421394625625088634522967936944012285);
    assert((x57 * x57 * 1) % n == x58) by (nonlinear_arith)
        requires
            n == wide(2, 18882428718392752222464057452572750885, 48364400416034343698204186575808495617),
            x57 == wide(1, 80690821820106728305318939945536959795, 11948101025408673123688155489840665421),
            x58 == wide(1, 26627604799787249404567614031867407387, 57421394625625088634522967936944012285),
    ;
    lemma_power_round(a, n, e57, x57, 0, 1, x58);
    let e58: nat = 2 * e57 + 0;
    let x59: int = wide(0, 53700566764001793916752057312318785383, 36019273886123820064678663166306027500);
    assert((x58 * x58 * a) % n == x59) by (nonlinear_arith)
        requires
            n == wide(2, 18882428718392752222464057452572750885, 48364400416034343698204186575808495617),
            a == wide(1, 88105369602677382816233191385640981565, 38132287104634306360290224932305588168),
            x58 == wide(1, 26627604799787249404567614031867407387, 57421394625625088634522967936944012285),
            x59 == wide(0, 53700566764001793916752057312318785383, 36019273886123820064678663166306027500),
    ;
    lemma_power_round(a, n, e58, x58, 1, a, x59);
    let e59: nat = 2 * e58 + 1;
    let x60: int = wide(1, 9469816341936142346921007823349466319, 21196237632139169335881613768693038112);
    assert((x59 * x59 * 1) % n == x60) by (nonlinear_arith)
        requires
            n == wide(2, 18882428718392752222464057452572750885, 48364400416034343698204186575808495617),
            x59 == wide(0, 53700566764001793916752057312318785383, 36019273886123820064678663166306027500),
            x60 == wide(1, 9469816341936142346921007823349466319, 21196237632139169335881613768693038112),
    ;
    lemma_power_round(a, n, e59, x59, 0, 1, x60);
    let e60: nat = 2 * e59 + 0;
    let x61: int = wide(1, 88238483281232567215032098294166318582, 59967179654229784785471819525529693234);
    assert((x60 * x60 * 1) % n == x61) by (nonlinear_arith)
        requires
            n == wide(2, 18882428718392752222464057452572750885, 48364400416034343698204186575808495617),
            x60 == wide(1, 9469816341936142346921007823349466319, 21196237632139169335881613768693038112),
            x61 == wide(1, 88238483281232567215032098294166318582, 59967179654229784785471819525529693234),
    ;
    lemma_power_round(a, n, e60, x60, 0, 1, x61);
    let e61: nat = 2 * e60 + 0;
    let x62: int = wide(1, 72244790037408899295976261646791100208, 45864689862344246795218051695496997324);
    assert((x61 * x61 * 1) % n == x62) by (nonlinear_arith)
        requires
            n == wide(2, 18882428718392752222464057452572750885, 48364400416034343698204186575808495617),
            x61 == wide(1, 88238483281232567215032098294166318582, 59967179654229784785471819525529693234),
            x62 == wide(1, 72244790037408899295976261646791100208, 45864689862344246795218051695496997324),
    ;
    lemma_power_round(a, n, e61, x61, 0, 1, x62);
    let e62: nat = 2 * e61 + 0;
    let x63: int = wide(2, 12911558652261038026291012717068347399, 45129555934787824546176190638066921733);
    assert((x62 * x62 * 1) % n == x63) by (nonlinear_arith)
        requires
            n == wide(2, 18882428718392752222464057452572750885, 48364400416034343698204186575808495617),
            x62 == wide(1, 72244790037408899295976261646791100208, 45864689862344246795218051695496997324),
            x63 == wide(2, 12911558652261038026291012717068347399, 45129555934787824546176190638066921733),
    ;
    lemma_power_round(a, n, e62, x62, 0, 1, x63);
    let e63: nat = 2 * e62 + 0;
    let x64: int = wide(0, 11591800828759251228273358833399343359, 39152625220166251884665097731990128470);
    assert((x63 * x63 * a) % n == x64) by (nonlinear_arith)
        requires
            n == wide(2, 18882428718392752222464057452572750885, 48364400416034343698204186575808495617),
            a == wide(1, 88105369602677382816233191385640981565, 38132287104634306360290224932305588168),
            x63 == wide(2, 12911558652261038026291012717068347399, 45129555934787824546176190638066921733),
            x64 == wide(0, 11591800828759251228273358833399343359, 39152625220166251884665097731990128470),
    ;
    lemma_power_round(a, n, e63, x63, 1, a, x64);
    let e64: nat = 2 * e63 + 1;
    let x65: int = wide(0, 40266518289824473654367513046447013607, 49446276463150729369181864273044619747);
    assert((x64 * x64 * a) % n == x65) by (nonlinear_arith)
        requires
            n == wide(2, 18882428718392752222464057452572750885, 48364400416034343698204186575808495617),
            a == wide(1, 88105369602677382816233191385640981565, 38132287104634306360290224932305588168),
            x64 == wide(0, 11591800828759251228273358833399343359, 39152625220166251884665097731990128470),
            x65 == wide(0, 40266518289824473654367513046447013607, 49446276463150729369181864273044619747),
    ;
    lemma_power_round(a, n, e64, x64, 1, a, x65);
    let e65: nat = 2 * e64 + 1;
    let x66: int = wide(2, 7483280987576224182917727326955512819, 14218386325608670585682747967881737090);
    assert((x65 * x65 * a) % n == x66) by (nonlinear_arith)
        requires
            n == wide(2, 18882428718392752222464057452572750885, 48364400416034343698204186575808495617),
            a == wide(1, 88105369602677382816233191385640981565, 38132287104634306360290224932305588168),
            x65 == wide(0, 40266518289824473654367513046447013607, 49446276463150729369181864273044619747),
            x66 == wide(2, 7483280987576224182917727326955512819, 14218386325608670585682747967881737090),
    ;
    lemma_power_round(a, n, e65, x65, 1, a, x66);
    let e66: nat = 2 * e65 + 1;
    let x67: int = wide(1, 5805959859660625406931233979690656113, 90141476572025263395239792627505292734);
    assert((x66 * x66 * 1) % n == x67) by (nonlinear_arith)
        requires
            n == wide(2, 18882428718392752222464057452572750885, 48364400416034343698204186575808495617),
            x66 == wide(2, 7483280987576224182917727326955512819, 14218386325608670585682747967881737090),
            x67 == wide(1, 5805959859660625406931233979690656113, 90141476572025263395239792627505292734),
    ;
    lemma_power_round(a, n, e66, x66, 0, 1, x67);
    let e67: nat = 2 * e66 + 0;
    let x68: int = wide(0, 13624164184404060864133312227864757246, 59009543357076720037856262648810310977);
    assert((x67 * x67 * 1) % n == x68) by (nonlinear_arith)
        requires
            n == wide(2, 18882428718392752222464057452572750885, 48364400416034343698204186575808495617),
            x67 == wide(1, 5805959859660625406931233979690656113, 90141476572025263395239792627505292734),
            x68 == wide(0, 13624164184404060864133312227864757246, 59009543357076720037856262648810310977),
    ;
    lemma_power_round(a, n, e67, x67, 0, 1, x68);
    let e68: nat = 2 * e67 + 0;
    let x69: int = wide(2, 17587043106807942605923068601621682318, 62909685202012605867514969115556683437);
    assert((x68 * x68 * a) % n == x69) by (nonlinear_arith)
        requires
            n == wide(2, 18882428718392752222464057452572750885, 48364400416034343698204186575808495617),
            a == wide(1, 88105369602677382816233191385640981565, 38132287104634306360290224932305588168),
            x68 == wide(0, 13624164184404060864133312227864757246, 59009543357076720037856262648810310977),
            x69 == wide(2, 17587043106807942605923068601621682318, 62909685202012605867514969115556683437),
    ;
    lemma_power_round(a, n, e68, x68, 1, a, x69);
    let e69: nat = 2 * e68 + 1;
    let x70: int = wide(0, 61291201060409142647017550882052654630, 4300204702402440068300487064967395199);
    assert((x69 * x69 * 1) % n == x70) by (nonlinear_arith)
        requires
            n == wide(2, 18882428718392752222464057452572750885, 48364400416034343698204186575808495617),
            x69 == wide(2, 17587043106807942605923068601621682318, 62909685202012605867514969115556683437),
            x70 == wide(0, 61291201060409142647017550882052654630, 4300204702402440068300487064967395199),
    ;
    lemma_power_round(a, n, e69, x69, 0, 1, x70);
    let e70: nat = 2 * e69 + 0;
    let x71: int = wide(2, 1741547108708138142654074187479161736, 25165239618664068877462700238540747422);
    assert((x70 * x70 * a) % n == x71) by (nonlinear_arith)
        requires
            n == wide(2, 18882428718392752222464057452572750885, 48364400416034343698204186575808495617),
            a == wide(1, 88105369602677382816233191385640981565, 38132287104634306360290224932305588168),
            x70 == wide(0, 61291201060409142647017550882052654630, 4300204702402440068300487064967395199),
            x71 == wide(2, 1741547108708138142654074187479161736, 25165239618664068877462700238540747422),
    ;
    lemma_power_round(a, n, e70, x70, 1, a, x71);
    let e71: nat = 2 * e70 + 1;
    let x72: int = wide(0, 7481987306818218246999671427101703791, 47745904555839701630231878411276176935);
    assert((x71 * x71 * 1) % n == x72) by (nonlinear_arith)
        requires
            n == wide(2, 18882428718392752222464057452572750885, 48364400416034343698204186575808495617),
            x71 == wide(2, 1741547108708138142654074187479161736, 25165239618664068877462700238540747422),
            x72 == wide(0, 7481987306818218246999671427101703791, 47745904555839701630231878411276176935),
    ;
    lemma_power_round(a, n, e71, x71, 0, 1, x72);
    let e72: nat = 2 * e71 + 0;
    let x73: int = wide(1, 79422027287606641966274089245236428576, 29682365796286306431541672575249730438);
    assert((x72 * x72 * 1) % n == x73) by (nonlinear_arith)
        requires
            n == wide(2, 18882428718392752222464057452572750885, 48364400416034343698204186575808495617),
            x72 == wide(0, 7481987306818218246999671427101703791, 47745904555839701630231878411276176935),
            x73 == wide(1, 79422027287606641966274089245236428576, 29682365796286306431541672575249730438),
    ;
    lemma_power_round(a, n, e72, x72, 0, 1, x73);
    let e73: nat = 2 * e72 + 0;
    let x74: int = wide(0, 59439974531177629200248474096108159713, 5710943922462566915468061023111475281);
    assert((x73 * x73 * a) % n == x74) by (nonlinear_arith)
        requires
            n == wide(2, 18882428718392752222464057452572750885, 48364400416034343698204186575808495617),
            a == wide(1, 88105369602677382816233191385640981565, 38132287104634306360290224932305588168),
            x73 == wide(1, 79422027287606641966274089245236428576, 29682365796286306431541672575249730438),
            x74 == wide(0, 59439974531177629200248474096108159713, 5710943922462566915468061023111475281),
    ;
    lemma_power_round(a, n, e73, x73, 1, a, x74);
    let e74: nat = 2 * e73 + 1;
    let x75: int = wide(1, 95871783212166293425327379461687116546, 80913606059503705496172297469891566925);
    assert((x74 * x74 * 1) % n == x75) by (nonlinear_arith)
        requires
            n == wide(2, 18882428718392752222464057452572750885, 48364400416034343698204186575808495617),
            x74 == wide(0, 59439974531177629200248474096108159713, 5710943922462566915468061023111475281),
            x75 == wide(1, 95871783212166293425327379461687116546, 80913606059503705496172297469891566925),
    ;
    lemma_power_round(a, n, e74, x74, 0, 1, x75);
    let e75: nat = 2 * e74 + 0;
    let x76: int = wide(0, 354803998370868621296378797823518744, 11581913777821865934806477562408620480);
    assert((x75 * x75 * a) % n == x76) by (nonlinear_arith)
        requires
            n == wide(2, 18882428718392752222464057452572750885, 48364400416034343698204186575808495617),
            a == wide(1, 88105369602677382816233191385640981565, 38132287104634306360290224932305588168),
            x75 == wide(1, 95871783212166293425327379461687116546, 80913606059503705496172297469891566925),
            x76 == wide(0, 354803998370868621296378797823518744, 11581913777821865934806477562408620480),
    ;
    lemma_power_round(a, n, e75, x75, 1, a, x76);
    let e76: nat = 2 * e75 + 1;
    let x77: int = wide(1, 71755098301769732984475968882863238292, 51817668743841726917036029623323181768);
    assert((x76 * x76 * 1) % n == x77) by (nonlinear_arith)
        requires
            n == wide(2, 18882428718392752222464057452572750885, 48364400416034343698204186575808495617),
            x76 == wide(0, 354803998370868621296378797823518744, 11581913777821865934806477562408620480),
            x77 == wide(1, 71755098301769732984475968882863238292, 51817668743841726917036029623323181768),
    ;
    lemma_power_round(a, n, e76, x76, 0, 1, x77);
    let e77: nat = 2 * e76 + 0;
    let x78: int = wide(1, 43375047461195737651448007911772445168, 68470958644802944561545161865381338284);
    assert((x77 * x77 * a) % n == x78) by (nonlinear_arith)
        requires
            n == wide(2, 18882428718392752222464057452572750885, 48364400416034343698204186575808495617),
            a == wide(1, 88105369602677382816233191385640981565, 38132287104634306360290224932305588168),
            x77 == wide(1, 71755098301769732984475968882863238292, 51817668743841726917036029623323181768),
            x78 == wide(1, 43375047461195737651448007911772445168, 68470958644802944561545161865381338284),
    ;
    lemma_power_round(a, n, e77, x77, 1, a, x78);
    let e78: nat = 2 * e77 + 1;
    let x79: int = wide(1, 26927643219988287068098755241967933695, 35460966763219826109912811094099689898);
    assert((x78 * x78 * 1) % n == x79) by (nonlinear_arith)
        requires
            n == wide(2, 18882428718392752222464057452572750885, 48364400416034343698204186575808495617),
            x78 == wide(1, 43375047461195737651448007911772445168, 68470958644802944561545161865381338284),
            x79 == wide(1, 26927643219988287068098755241967933695, 35460966763219826109912811094099689898),
    ;
    lemma_power_round(a, n, e78, x78, 0, 1, x79);
    let e79: nat = 2 * e78 + 0;
    let x80: int = wide(0, 97609202156802971460592531983993335219, 19235335198974561423145160153593888083);
    assert((x79 * x79 * 1) % n == x80) by (nonlinear_arith)
        requires
            n == wide(2, 18882428718392752222464057452572750885, 48364400416034343698204186575808495617),
            x79 == wide(1, 26927643219988287068098755241967933695, 35460966763219826109912811094099689898),
            x80 == wide(0, 97609202156802971460592531983993335219, 19235335198974561423145160153593888083),
    ;
    lemma_power_round(a, n, e79, x79, 0, 1, x80);
    let e80: nat = 2 * e79 + 0;
    let x81: int = wide(0, 37502519739219040282267314461452838688, 99241553610421048991270740673261240476);
    assert((x80 * x80 * a) % n == x81) by (nonlinear_arith)
        requires
            n == wide(2, 18882428718392752222464057452572750885, 48364400416034343698204186575808495617),
            a == wide(1, 88105369602677382816233191385640981565, 38132287104634306360290224932305588168),
            x80 == wide(0, 97609202156802971460592531983993335219, 19235335198974561423145160153593888083),
            x81 == wide(0, 37502519739219040282267314461452838688, 99241553610421048991270740673261240476),
    ;
    lemma_power_round(a, n, e80, x80, 1, a, x81);
    let e81: nat = 2 * e80 + 1;
    let x82: int = wide(0, 79268728135742669685197968210857983035, 75980410316129517763023745426956278320);
    assert((x81 * x81 * 1) % n == x82) by (nonlinear_arith)
        requires
            n == wide(2, 18882428718392752222464057452572750885, 48364400416034343698204186575808495617),
            x81 == wide(0, 37502519739219040282267314461452838688, 99241553610421048991270740673261240476),
            x82 == wide(0, 79268728135742669685197968210857983035, 75980410316129517763023745426956278320),
    ;
    lemma_power_round(a, n, e81, x81, 0, 1, x82);
    let e82: nat = 2 * e81 + 0;
    let x83: int = wide(1, 1816081002569767834005751368189108471, 76704356209688589930474965336429024015);
    assert((x82 * x82 * 1) % n == x83) by (nonlinear_arith)
        requires
            n == wide(2, 18882428718392752222464057452572750885, 48364400416034343698204186575808495617),
            x82 == wide(0, 79268728135742669685197968210857983035, 75980410316129517763023745426956278320),
            x83 == wide(1, 1816081002569767834005751368189108471, 76704356209688589930474965336429024015),
    ;
    lemma_power_round(a, n, e82, x82, 0, 1, x83);
    let e83: nat = 2 * e82 + 0;
    let x84: int = wide(0, 17758086591490337966382105750426768733, 49222963059477345204705082856148946641);
    assert((x83 * x83 * a) % n == x84) by (nonlinear_arith)
        requires
            n == wide(2, 18882428718392752222464057452572750885, 48364400416034343698204186575808495617),
            a == wide(1, 88105369602677382816233191385640981565, 38132287104634306360290224932305588168),
            x83 == wide(1, 1816081002569767834005751368189108471, 76704356209688589930474965336429024015),
            x84 == wide(0, 17758086591490337966382105750426768733, 49222963059477345204705082856148946641),
    ;
    lemma_power_round(a, n, e83, x83, 1, a, x84);
    let e84: nat = 2 * e83 + 1;
    let x85: int = wide(1, 42440807469854721090715448642896434022, 91784897116457025653203028876510377496);
    assert((x84 * x84 * a) % n == x85) by (nonlinear_arith)
        requires
            n == wide(2, 18882428718392752222464057452572750885, 48364400416034343698204186575808495617),
            a == wide(1, 88105369602677382816233191385640981565, 38132287104634306360290224932305588168),
            x84 == wide(0, 17758086591490337966382105750426768733, 49222963059477345204705082856148946641),
            x85 == wide(1, 42440807469854721090715448642896434022, 91784897116457025653203028876510377496),
    ;
    lemma_power_round(a, n, e84, x84, 1, a, x85);
    let e85: nat = 2 * e84 + 1;
    let x86: int = wide(1, 49749998398744563285908971898588857300, 68432349123283257802303814525268530220);
    assert((x85 * x85 * a) % n == x86) by (nonlinear_arith)
        requires
            n == wide(2, 18882428718392752222464057452572750885, 48364400416034343698204186575808495617),
            a == wide(1, 88105369602677382816233191385640981565, 38132287104634306360290224932305588168),
            x85 == wide(1, 42440807469854721090715448642896434022, 91784897116457025653203028876510377496),
            x86 == wide(1, 49749998398744563285908971898588857300, 68432349123283257802303814525268530220),
    ;
    lemma_power_round(a, n, e85, x85, 1, a, x86);
    let e86: nat = 2 * e85 + 1;
    let x87: int = wide(1, 77314972032729049828631143712714706043, 91014981785313892648549683893663779570);
    assert((x86 * x86 * a) % n == x87) by (nonlinear_arith)
        requires
            n == wide(2, 18882428718392752222464057452572750885, 48364400416034343698204186575808495617),
            a == wide(1, 88105369602677382816233191385640981565, 38132287104634306360290224932305588168),
            x86 == wide(1, 49749998398744563285908971898588857300, 68432349123283257802303814525268530220),
            x87 == wide(1, 77314972032729049828631143712714706043, 91014981785313892648549683893663779570),
    ;
    lemma_power_round(a, n, e86, x86, 1, a, x87);
    let e87: nat = 2 * e86 + 1;
    let x88: int = wide(0, 4184918761196123201995497990039468265, 89192696758148245949586195888070785974);
    assert((x87 * x87 * a) % n == x88) by (nonlinear_arith)
        requires
            n == wide(2, 18882428718392752222464057452572750885, 48364400416034343698204186575808495617),
            a == wide(1, 88105369602677382816233191385640981565, 38132287104634306360290224932305588168),
            x87 == wide(1, 77314972032729049828631143712714706043, 91014981785313892648549683893663779570),
            x88 == wide(0, 4184918761196123201995497990039468265, 89192696758148245949586195888070785974),
    ;
    lemma_power_round(a, n, e87, x87, 1, a, x88);
    let e88: nat = 2 * e87 + 1;
    let x89: int = wide(0, 90265626710303840653559948759617962518, 3161736020766309469949024793315174429);
    assert((x88 * x88 * a) % n == x89) by (nonlinear_arith)
        requires
            n == wide(2, 18882428718392752222464057452572750885, 48364400416034343698204186575808495617),
            a == wide(1, 88105369602677382816233191385640981565, 38132287104634306360290224932305588168),
            x88 == wide(0, 4184918761196123201995497990039468265, 89192696758148245949586195888070785974),
            x89 == wide(0, 90265626710303840653559948759617962518, 3161736020766309469949024793315174429),
    ;
    lemma_power_round(a, n, e88, x88, 1, a, x89);
    let e89: nat = 2 * e88 + 1;
    let x90: int = wide(0, 59049754887507058224197901925432697909, 37947462625134358776240734420189087100);
    assert((x89 * x89 * 1) % n == x90) by (nonlinear_arith)
        requires
            n == wide(2, 18882428718392752222464057452572750885, 48364400416034343698204186575808495617),
            x89 == wide(0, 90265626710303840653559948759617962518, 3161736020766309469949024793315174429),
            x90 == wide(0, 59049754887507058224197901925432697909, 37947462625134358776240734420189087100),
    ;
    lemma_power_round(a, n, e89, x89, 0, 1, x90);
    let e90: nat = 2 * e89 + 0;
    let x91: int = wide(0, 65895936023301893434843929636682127392, 16527920466298982792625681810559391984);
    assert((x90 * x90 * 1) % n == x91) by (nonlinear_arith)
        requires
            n == wide(2, 18882428718392752222464057452572750885, 48364400416034343698204186575808495617),
            x90 == wide(0, 59049754887507058224197901925432697909, 37947462625134358776240734420189087100),
            x91 == wide(0, 65895936023301893434843929636682127392, 16527920466298982792625681810559391984),
    ;
    lemma_power_round(a, n, e90, x90, 0, 1, x91);
    let e91: nat = 2 * e90 + 0;
    let x92: int = wide(0, 16964888633638419386242969009910011252, 97705731460619987529339102338474266011);
    assert((x91 * x91 * 1) % n == x92) by (nonlinear_arith)
        requires
            n == wide(2, 18882428718392752222464057452572750885, 48364400416034343698204186575808495617),
            x91 == wide(0, 65895936023301893434843929636682127392, 16527920466298982792625681810559391984),
            x92 == wide(0, 16964888633638419386242969009910011252, 97705731460619987529339102338474266011),
    ;
    lemma_power_round(a, n, e91, x91, 0, 1, x92);
    let e92: nat = 2 * e91 + 0;
    let x93: int = wide(1, 70179731995935697007191811916018160591, 83602212458927032704359373970788838793);
    assert((x92 * x92 * 1) % n == x93) by (nonlinear_arith)
        requires
            n == wide(2, 18882428718392752222464057452572750885, 48364400416034343698204186575808495617),
            x92 == wide(0, 16964888633638419386242969009910011252, 97705731460619987529339102338474266011),
            x93 == wide(1, 70179731995935697007191811916018160591, 83602212458927032704359373970788838793),
    ;
    lemma_power_round(a, n, e92, x92, 0, 1, x93);
    let e93: nat = 2 * e92 + 0;
    let x94: int = 1;
    assert((x93 * x93 * a) % n == x94) by (nonlinear_arith)
        requires
            n == wide(2, 18882428718392752222464057452572750885, 48364400416034343698204186575808495617),
            a == wide(1, 88105369602677382816233191385640981565, 38132287104634306360290224932305588168),
            x93 == wide(1, 70179731995935697007191811916018160591, 83602212458927032704359373970788838793),
            x94 == 1,
    ;
    lemma_power_round(a, n, e93, x93, 1, a, x94);
    let e94: nat = 2 * e93 + 1;
    assert(e94 == 13818364434197438864469338081);
}

/// The number that the digits of the modulus spell is prime: with base 2, by
/// the prime divisors 13818364434197438864469338081 and 1670836401704629 of
/// its predecessor.
pub proof fn lemma_modulus_digits_prime()
    ensures
        is_prime(wide(2, 18882428718392752222464057452572750885, 48364400416034343698204186575808495617)),
{
    let n: int = wide(2, 18882428718392752222464057452572750885, 48364400416034343698204186575808495617);
    let a: int = 2;
    lemma_modulus_power_stem();
    lemma_modulus_power_without_1670836401704629();
    lemma_modulus_power_without_13818364434197438864469338081();
    lemma_modulus_power_full();
    lemma_power_of_power(a, n, 948026174865265269726259848413184nat, wide(0, 40672172402868486714522659830653318973, 23918408910809300406102239489012348584), 13818364434197438864469338081nat, wide(1, 53792047940026677692985304527566044746, 47348591674452342013272253614090326003));
    lemma_power_of_power(a, n, 948026174865265269726259848413184nat, wide(0, 40672172402868486714522659830653318973, 23918408910809300406102239489012348584), 1670836401704629nat, wide(1, 88105369602677382816233191385640981565, 38132287104634306360290224932305588168));
    assert(948026174865265269726259848413184nat * 1670836401704629nat == wide(0, 15839966427, 33683218748855262055434666238317428736)) by (nonlinear_arith);
    assert(948026174865265269726259848413184nat * 13818364434197438864469338081nat == wide(0, 131001711774464235566133, 74118717413492986637444144570673659904)) by (nonlinear_arith);
    lemma_power_of_power(a, n, (wide(0, 15839966427, 33683218748855262055434666238317428736) as nat), wide(1, 88105369602677382816233191385640981565, 38132287104634306360290224932305588168), 13818364434197438864469338081nat, 1);
    assert((wide(0, 15839966427, 33683218748855262055434666238317428736) as nat) * 13818364434197438864469338081nat == wide(2, 18882428718392752222464057452572750885, 48364400416034343698204186575808495616)) by (nonlinear_arith);
    assert(pow(a, (n - 1) as nat) % n == 1);
    lemma_order_multiple_of_one(a, n);
    lemma_prime_13818364434197438864469338081();
    assert((n - 1) % 13818364434197438864469338081int == 0 && (n - 1) / 13818364434197438864469338081int == wide(0, 15839966427, 33683218748855262055434666238317428736)) by {
        assert(n - 1 == wide(0, 15839966427, 33683218748855262055434666238317428736) * 13818364434197438864469338081int + 0) by (nonlinear_arith)
            requires
                n == wide(2, 18882428718392752222464057452572750885, 48364400416034343698204186575808495617),
        ;
        lemma_fundamental_div_mod_converse(n - 1, 13818364434197438864469338081, wide(0, 15839966427, 33683218748855262055434666238317428736), 0);
    }
    assert(pow(a, ((n - 1) / 13818364434197438864469338081int) as nat) % n == wide(1, 88105369602677382816233191385640981565, 38132287104634306360290224932305588168));
    assert((-wide(0, 30574711751052883949032846369989013718, 31729837386813463435814102394990864228)) * (wide(1, 88105369602677382816233191385640981565, 38132287104634306360290224932305588168) - 1) + wide(0, 26275601418086080958462978917791267761, 59394593540311027799435321263172680381) * n == 1) by (nonlinear_arith)
        requires
            n == wide(2, 18882428718392752222464057452572750885, 48364400416034343698204186575808495617),
    ;
    assert(1int % 13818364434197438864469338081int != 0) by {
        lemma_small_mod(1, 13818364434197438864469338081);
    }
    lemma_order_gains_prime(a, n, 1, 13818364434197438864469338081, wide(1, 88105369602677382816233191385640981565, 38132287104634306360290224932305588168), (-wide(0, 30574711751052883949032846369989013718, 31729837386813463435814102394990864228)), wide(0, 26275601418086080958462978917791267761, 59394593540311027799435321263172680381));
    assert(1int * 13818364434197438864469338081int == 13818364434197438864469338081) by (nonlinear_arith);
    lemma_prime_1670836401704629();
    assert((n - 1) % 1670836401704629int == 0 && (n - 1) / 1670836401704629int == wide(0, 131001711774464235566133, 74118717413492986637444144570673659904)) by {
        assert(n - 1 == wide(0, 131001711774464235566133, 74118717413492986637444144570673659904) * 1670836401704629int + 0) by (nonlinear_arith)
            requires
                n == wide(2, 18882428718392752222464057452572750885, 48364400416034343698204186575808495617),
        ;
        lemma_fundamental_div_mod_converse(n - 1, 1670836401704629, wide(0, 131001711774464235566133, 74118717413492986637444144570673659904), 0);
    }
    assert(pow(a, ((n - 1) / 1670836401704629int) as nat) % n == wide(1, 53792047940026677692985304527566044746, 47348591674452342013272253614090326003));
    assert(wide(0, 860526015119938651957099368455111211, 56384965108811623497653747272590813794) * (wide(1, 53792047940026677692985304527566044746, 47348591674452342013272253614090326003) - 1) + (-wide(0, 604626232200817069901284363445469604, 68165908192540319468010835125287669411)) * n == 1) by (nonlinear_arith)
        requires
            n == wide(2, 18882428718392752222464057452572750885, 48364400416034343698204186575808495617),
    ;
    assert(13818364434197438864469338081int % 1670836401704629int != 0) by (nonlinear_arith);
    lemma_order_gains_prime(a, n, 13818364434197438864469338081, 1670836401704629, wide(1, 53792047940026677692985304527566044746, 47348591674452342013272253614090326003), wide(0, 860526015119938651957099368455111211, 56384965108811623497653747272590813794), (-wide(0, 604626232200817069901284363445469604, 68165908192540319468010835125287669411)));
    assert(13818364434197438864469338081int * 1670836401704629int == wide(0, 230882, 26308677670388631582763742451703676949)) by (nonlinear_arith);
    assert(wide(0, 230882, 26308677670388631582763742451703676949) * wide(0, 230882, 26308677670388631582763742451703676949) > n) by (nonlinear_arith)
        requires
            n == wide(2, 18882428718392752222464057452572750885, 48364400416034343698204186575808495617),
    ;
    lemma_certified_prime(a, n, wide(0, 230882, 26308677670388631582763742451703676949));
}

} // verus!
