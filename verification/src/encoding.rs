//! The interchange formats of an integer, as mathematics: little-endian bytes
//! and decimal text, with the facts that make each of them round-trip.

use vstd::prelude::*;
use vstd::arithmetic::power2::{lemma2_to64, lemma_pow2_pos, lemma_pow2_unfold, pow2};

verus! {

/// The number that a sequence of bytes encodes, least significant byte first.
pub open spec fn le_value(bytes: Seq<u8>) -> nat
    decreases bytes.len(),
{
    if bytes.len() == 0 {
        0
    } else {
        bytes[0] as nat + 256 * le_value(bytes.drop_first())
    }
}

/// The shortest little-endian encoding of `n`; zero is the single byte 0.
pub open spec fn le_bytes(n: nat) -> Seq<u8>
    decreases n,
{
    if n < 256 {
        seq![n as u8]
    } else {
        seq![(n % 256) as u8] + le_bytes(n / 256)
    }
}

/// The number of bits of `n`: 0 for 0, else one more than the position of
/// the highest set bit.
pub open spec fn bit_length(n: nat) -> nat
    decreases n,
{
    if n == 0 {
        0
    } else {
        1 + bit_length(n / 2)
    }
}

/// The character of a decimal digit.
pub open spec fn digit_char(d: nat) -> char
    recommends
        d < 10,
{
    if d == 0 {
        '0'
    } else if d == 1 {
        '1'
    } else if d == 2 {
        '2'
    } else if d == 3 {
        '3'
    } else if d == 4 {
        '4'
    } else if d == 5 {
        '5'
    } else if d == 6 {
        '6'
    } else if d == 7 {
        '7'
    } else if d == 8 {
        '8'
    } else {
        '9'
    }
}

/// Whether `c` is one of the ten ASCII digits.
pub open spec fn is_digit(c: char) -> bool {
    c == '0' || c == '1' || c == '2' || c == '3' || c == '4' || c == '5' || c == '6' || c == '7'
        || c == '8' || c == '9'
}

/// The value of a decimal digit; 0 for any other character.
pub open spec fn digit_value(c: char) -> nat {
    if c == '1' {
        1
    } else if c == '2' {
        2
    } else if c == '3' {
        3
    } else if c == '4' {
        4
    } else if c == '5' {
        5
    } else if c == '6' {
        6
    } else if c == '7' {
        7
    } else if c == '8' {
        8
    } else if c == '9' {
        9
    } else {
        0
    }
}

/// The decimal digits of `n`, most significant first, without leading zeros.
pub open spec fn decimal_digits(n: nat) -> Seq<char>
    decreases n,
{
    if n < 10 {
        seq![digit_char(n)]
    } else {
        decimal_digits(n / 10).push(digit_char(n % 10))
    }
}

/// The decimal text of an integer: its digits, after a `-` if it is negative.
pub open spec fn decimal(v: int) -> Seq<char> {
    if v < 0 {
        seq!['-'] + decimal_digits((-v) as nat)
    } else {
        decimal_digits(v as nat)
    }
}

/// The number that the digits in `s` spell, most significant first. A `_`
/// separates digits and counts for nothing.
pub open spec fn numeral_value(s: Seq<char>) -> nat
    decreases s.len(),
{
    if s.len() == 0 {
        0
    } else if s.last() == '_' {
        numeral_value(s.drop_last())
    } else {
        10 * numeral_value(s.drop_last()) + digit_value(s.last())
    }
}

/// Whether `s` is made of digits only.
pub open spec fn all_digits(s: Seq<char>) -> bool {
    forall|i: int| 0 <= i < s.len() ==> is_digit(#[trigger] s[i])
}

/// Whether `s` is a numeral that a reader accepts: digits and `_`
/// separators, starting with a digit.
pub open spec fn is_numeral(s: Seq<char>) -> bool {
    &&& s.len() > 0
    &&& s[0] != '_'
    &&& forall|i: int| 0 <= i < s.len() ==> is_digit(#[trigger] s[i]) || s[i] == '_'
}

/// `s` without a leading `sign`, unless a `+` follows that sign at once.
pub open spec fn skip_sign(s: Seq<char>, sign: char) -> Seq<char> {
    if s.len() > 0 && s[0] == sign && !(s.len() > 1 && s[1] == '+') {
        s.drop_first()
    } else {
        s
    }
}

/// The integer that a signed decimal literal denotes, or `None` where the
/// text is no such literal. A literal is an optional `-`, an optional `+`,
/// then a numeral.
pub open spec fn parse_decimal(s: Seq<char>) -> Option<int> {
    let body = skip_sign(skip_sign(s, '-'), '+');
    if !is_numeral(body) {
        None
    } else if s.len() > 0 && s[0] == '-' {
        Some(-(numeral_value(body) as int))
    } else {
        Some(numeral_value(body) as int)
    }
}

/// The number that a plain decimal literal denotes: digits only, and no
/// leading zero but in the literal `0` itself.
pub open spec fn plain_decimal(s: Seq<char>) -> Option<nat> {
    if s.len() > 0 && all_digits(s) && (s[0] != '0' || s.len() == 1) {
        Some(numeral_value(s))
    } else {
        None
    }
}

/// A number between two neighbouring powers of two has as many bits as the
/// exponent of the larger one.
pub proof fn lemma_bit_length_between(n: nat, k: nat)
    requires
        k >= 1,
        pow2((k - 1) as nat) <= n < pow2(k),
    ensures
        bit_length(n) == k,
    decreases k,
{
    lemma_pow2_pos((k - 1) as nat);
    if k == 1 {
        lemma2_to64();
        assert(n == 1);
        assert(bit_length(n / 2) == 0);
    } else {
        lemma_pow2_unfold(k);
        lemma_pow2_unfold((k - 1) as nat);
        lemma_bit_length_between(n / 2, (k - 1) as nat);
    }
}

/// Encoding a number as bytes and decoding the bytes gives the number back.
pub proof fn lemma_le_bytes_round_trip(n: nat)
    ensures
        le_value(le_bytes(n)) == n,
        le_bytes(n).len() >= 1,
    decreases n,
{
    if n < 256 {
        let b = seq![n as u8];
        assert(b.drop_first() =~= Seq::<u8>::empty());
        assert(le_value(b.drop_first()) == 0);
    } else {
        lemma_le_bytes_round_trip(n / 256);
        let b = le_bytes(n);
        assert(b.drop_first() =~= le_bytes(n / 256));
        assert(b[0] == (n % 256) as u8);
    }
}

/// The decimal digits of a number are digits, spell the number, and start
/// with a zero only for zero itself.
pub proof fn lemma_decimal_digits(n: nat)
    ensures
        decimal_digits(n).len() >= 1,
        all_digits(decimal_digits(n)),
        numeral_value(decimal_digits(n)) == n,
        decimal_digits(n)[0] == '0' <==> n == 0,
        n == 0 ==> decimal_digits(n).len() == 1,
    decreases n,
{
    let s = decimal_digits(n);
    if n < 10 {
        assert(s.drop_last() =~= Seq::<char>::empty());
        assert(numeral_value(s.drop_last()) == 0);
        assert(s.last() == digit_char(n));
    } else {
        lemma_decimal_digits(n / 10);
        let head = decimal_digits(n / 10);
        assert(s.drop_last() =~= head);
        assert(s.last() == digit_char(n % 10));
        assert(s[0] == head[0]);
        assert forall|i: int| 0 <= i < s.len() implies is_digit(#[trigger] s[i]) by {
            if i < head.len() {
                assert(s[i] == head[i]);
            }
        }
    }
}

/// Writing an integer in decimal and reading the text gives the integer back.
pub proof fn lemma_decimal_round_trip(v: int)
    ensures
        parse_decimal(decimal(v)) == Some(v),
{
    let s = decimal(v);
    if v < 0 {
        let digits = decimal_digits((-v) as nat);
        lemma_decimal_digits((-v) as nat);
        assert(s[0] == '-');
        assert(s[1] == digits[0]);
        assert(is_digit(digits[0]));
        assert(s.drop_first() =~= digits);
        assert(skip_sign(s, '-') == digits);
        assert(skip_sign(digits, '+') == digits);
    } else {
        lemma_decimal_digits(v as nat);
        assert(is_digit(s[0]));
        assert(skip_sign(s, '-') == s);
        assert(skip_sign(s, '+') == s);
    }
}

/// The decimal text of a natural number is a plain decimal literal of it.
pub proof fn lemma_decimal_is_plain(n: nat)
    ensures
        plain_decimal(decimal(n as int)) == Some(n),
{
    lemma_decimal_digits(n);
}

} // verus!
