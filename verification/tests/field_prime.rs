use num_bigint::BigInt;
use num_integer::Integer;
use num_traits::One;
use zokrates_field::bn128::BN128;
use zokrates_field::field::{Field, Pow};
use zokrates_field::utils::extended_euclid;

fn modulus() -> BigInt {
    BigInt::parse_bytes(
        b"21888242871839275222246405745257275088548364400416034343698204186575808495617",
        10,
    )
    .unwrap()
}

fn big(s: &str) -> BigInt {
    s.parse::<BigInt>().unwrap()
}

fn fe(s: &str) -> BN128 {
    BN128::try_from_dec_str(s).unwrap()
}

#[test]
fn positive_number() {
    assert_eq!(big("1234245612"), fe("1234245612").to_bigint());
}

#[test]
fn negative_number() {
    assert_eq!(
        modulus().checked_sub(&big("12")).unwrap(),
        fe("-12").to_bigint()
    );
}

#[test]
fn addition() {
    assert_eq!(big("65484493"), (fe("65416358") + fe("68135")).to_bigint());
    assert_eq!(big("65484493"), (fe("65416358") + &fe("68135")).to_bigint());
}

#[test]
fn addition_negative_small() {
    assert_eq!(big("3"), (fe("5") + fe("-2")).to_bigint());
    assert_eq!(big("3"), (fe("5") + &fe("-2")).to_bigint());
}

#[test]
fn addition_negative() {
    assert_eq!(big("65348223"), (fe("65416358") + fe("-68135")).to_bigint());
    assert_eq!(big("65348223"), (fe("65416358") + &fe("-68135")).to_bigint());
}

#[test]
fn subtraction() {
    assert_eq!(big("65348223"), (fe("65416358") - fe("68135")).to_bigint());
    assert_eq!(big("65348223"), (fe("65416358") - &fe("68135")).to_bigint());
}

#[test]
fn subtraction_negative() {
    assert_eq!(big("65484493"), (fe("65416358") - fe("-68135")).to_bigint());
    assert_eq!(big("65484493"), (fe("65416358") - &fe("-68135")).to_bigint());
}

#[test]
fn subtraction_overflow() {
    assert_eq!(
        big("21888242871839275222246405745257275088548364400416034343698204186575743147394"),
        (fe("68135") - fe("65416358")).to_bigint()
    );
    assert_eq!(
        big("21888242871839275222246405745257275088548364400416034343698204186575743147394"),
        (fe("68135") - &fe("65416358")).to_bigint()
    );
}

#[test]
fn multiplication() {
    assert_eq!(big("13472"), (fe("32") * fe("421")).to_bigint());
    assert_eq!(big("13472"), (fe("32") * &fe("421")).to_bigint());
}

#[test]
fn multiplication_negative() {
    assert_eq!(
        big("21888242871839275222246405745257275088548364400416034343698204186575808014369"),
        (fe("54") * fe("-8912")).to_bigint()
    );
    assert_eq!(
        big("21888242871839275222246405745257275088548364400416034343698204186575808014369"),
        (fe("54") * &fe("-8912")).to_bigint()
    );
}

#[test]
fn multiplication_two_negative() {
    assert_eq!(big("648"), (fe("-54") * fe("-12")).to_bigint());
    assert_eq!(big("648"), (fe("-54") * &fe("-12")).to_bigint());
}

#[test]
fn multiplication_overflow() {
    assert_eq!(
        big("6042471409729479866150380306128222617399890671095126975526159292198160466142"),
        (fe("21888242871839225222246405785257275088694311157297823662689037894645225727")
            * fe("218882428715392752222464057432572755886923"))
        .to_bigint()
    );
    assert_eq!(
        big("6042471409729479866150380306128222617399890671095126975526159292198160466142"),
        (fe("21888242871839225222246405785257275088694311157297823662689037894645225727")
            * &fe("218882428715392752222464057432572755886923"))
            .to_bigint()
    );
}

#[test]
fn division() {
    assert_eq!(BN128::from(4), BN128::from(48) / BN128::from(12));
    assert_eq!(BN128::from(4), BN128::from(48) / &BN128::from(12));
}

#[test]
fn division_negative() {
    let res = BN128::from(-54) / BN128::from(12);
    assert_eq!(BN128::from(-54), BN128::from(12) * res);
}

#[test]
fn division_two_negative() {
    let res = BN128::from(-12) / BN128::from(-85);
    assert_eq!(BN128::from(-12), BN128::from(-85) * res);
}

#[test]
fn pow_small() {
    assert_eq!(big("8"), (fe("2").pow(fe("3"))).to_bigint());
    assert_eq!(big("8"), (fe("2").pow(&fe("3"))).to_bigint());
}

#[test]
fn pow_usize() {
    assert_eq!(big("614787626176508399616"), (fe("54").pow(12)).to_bigint());
}

#[test]
fn pow() {
    assert_eq!(
        big("614787626176508399616"),
        (fe("54").pow(fe("12"))).to_bigint()
    );
    assert_eq!(
        big("614787626176508399616"),
        (fe("54").pow(&fe("12"))).to_bigint()
    );
}

#[test]
fn pow_negative() {
    assert_eq!(
        big("21888242871839275222246405745257275088548364400416034343686819230535502784513"),
        (fe("-54").pow(fe("11"))).to_bigint()
    );
    assert_eq!(
        big("21888242871839275222246405745257275088548364400416034343686819230535502784513"),
        (fe("-54").pow(&fe("11"))).to_bigint()
    );
}

#[test]
fn bytes_ser_deser() {
    let fp = fe("101");
    let bv = fp.into_byte_vector();
    assert_eq!(fp, BN128::from_byte_vector(bv));
}

#[test]
fn dec_string_ser_deser() {
    let fp = fe("101");
    let bv = fp.to_dec_string();
    assert_eq!(fp, BN128::try_from_dec_str(&bv).unwrap());
}

#[test]
fn compact_representation() {
    let one = BN128::from(1);
    assert_eq!("1", &one.to_compact_dec_string());
    let minus_one = BN128::from(0) - one;
    assert_eq!("(-1)", &minus_one.to_compact_dec_string());
    // (p-1)/2 -> positive notation
    let p_minus_one_over_two = (BN128::from(0) - BN128::from(1)) / BN128::from(2);
    assert_eq!(
        "10944121435919637611123202872628637544274182200208017171849102093287904247808",
        &p_minus_one_over_two.to_compact_dec_string()
    );
    // (p-1)/2 + 1 -> negative notation (p-1)/2 + 1 - p == (-p+1)/2
    let p_minus_one_over_two_plus_one =
        ((BN128::from(0) - BN128::from(1)) / BN128::from(2)) + BN128::from(1);
    assert_eq!(
        "(-10944121435919637611123202872628637544274182200208017171849102093287904247808)",
        &p_minus_one_over_two_plus_one.to_compact_dec_string()
    );
}

#[test]
fn bigint_assertions() {
    let x = BigInt::parse_bytes(b"65", 10).unwrap();
    assert_eq!(&x + &x, BigInt::parse_bytes(b"130", 10).unwrap());
    assert_eq!(big("1"), big("3").div_floor(&big("2")));
    assert_eq!(big("-2"), big("-3").div_floor(&big("2")));
}

#[test]
fn test_extended_euclid() {
    assert_eq!(
        (BigInt::from(1), BigInt::from(-9), BigInt::from(47)),
        extended_euclid(&BigInt::from(120), &BigInt::from(23))
    );
    assert_eq!(
        (BigInt::from(2), BigInt::from(2), BigInt::from(-11)),
        extended_euclid(&BigInt::from(122), &BigInt::from(22))
    );
    assert_eq!(
        (BigInt::from(2), BigInt::from(-9), BigInt::from(47)),
        extended_euclid(&BigInt::from(240), &BigInt::from(46))
    );
    let p = modulus();
    let (b, s, _) = extended_euclid(&BigInt::from(253), &p);
    assert_eq!(b, BigInt::one());
    let s_field = BN128::from_bigint(&(&s - s.div_floor(&p) * &p));
    assert_eq!(
        fe("12717674712096337777352654721552646000065650461901806515903699665717959876900"),
        s_field
    );
}
