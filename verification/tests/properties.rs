use num_bigint::BigInt;
use zokrates_field::bn128::{FieldError, BN128};
use zokrates_field::field::{Field, Pow};
use zokrates_field::proof_system::{batch_route, BatchRoute, GM17_MNT6, PGHR13_MNT4};
use zokrates_field::utils::extended_euclid;

const P: &str = "21888242871839275222246405745257275088548364400416034343698204186575808495617";

fn p() -> BigInt {
    P.parse::<BigInt>().unwrap()
}

fn fe(s: &str) -> BN128 {
    BN128::try_from_dec_str(s).unwrap()
}

fn samples() -> Vec<BN128> {
    vec![
        fe("0"),
        fe("1"),
        fe("2"),
        fe("253"),
        fe("65416358"),
        fe("-1"),
        fe("-68135"),
        fe("10944121435919637611123202872628637544274182200208017171849102093287904247808"),
        fe("10944121435919637611123202872628637544274182200208017171849102093287904247809"),
        fe("21888242871839225222246405785257275088694311157297823662689037894645225727"),
    ]
}

#[test]
fn add_then_sub_gives_back() {
    for a in samples() {
        for b in samples() {
            assert_eq!((a.clone() + b.clone()) - b, a);
        }
    }
}

#[test]
fn mul_then_div_gives_back() {
    for a in samples() {
        for b in samples() {
            if !b.is_zero() {
                assert_eq!((a.clone() * b.clone()) / b, a);
            }
        }
    }
}

#[test]
fn inverse_times_element_is_one() {
    for a in samples() {
        if !a.is_zero() {
            assert_eq!(a.clone() * a.inverse_mul(), BN128::one());
        }
    }
}

#[test]
fn inverse_of_seven() {
    assert_eq!(
        "3126891838834182174606629392179610726935480628630862049099743455225115499374",
        BN128::from(7).inverse_mul().to_dec_string()
    );
}

#[test]
fn dec_string_round_trips() {
    for a in samples() {
        assert_eq!(BN128::try_from_dec_str(&a.to_dec_string()), Ok(a));
    }
}

#[test]
fn byte_vector_round_trips() {
    for a in samples() {
        assert_eq!(BN128::from_byte_vector(a.into_byte_vector()), a);
        assert_eq!(BN128::try_from_byte_vector(a.into_byte_vector()), Ok(a));
    }
}

#[test]
fn results_stay_in_canonical_range() {
    let zero = BigInt::from(0);
    for a in samples() {
        for b in samples() {
            for r in vec![
                a.clone() + b.clone(),
                a.clone() - b.clone(),
                a.clone() * b.clone(),
                a.clone().pow(3),
            ] {
                assert!(zero <= r.to_bigint() && r.to_bigint() < p());
            }
        }
    }
}

#[test]
fn division_by_zero_is_reported() {
    assert_eq!(
        BN128::from(0).checked_inverse_mul(),
        Err(FieldError::DivisionByZero)
    );
    assert_eq!(
        BN128::from(5).checked_div(&BN128::from(0)),
        Err(FieldError::DivisionByZero)
    );
    assert_eq!(
        BN128::from(48).checked_div(&BN128::from(12)),
        Ok(BN128::from(4))
    );
    assert_eq!(
        BN128::from(12).checked_inverse_mul(),
        Ok(BN128::from(12).inverse_mul())
    );
}

#[test]
fn byte_vector_layout() {
    assert_eq!(vec![0u8], BN128::from(0).into_byte_vector());
    assert_eq!(vec![44u8, 1], BN128::from(300).into_byte_vector());
    assert_eq!(vec![101u8, 4], BN128::from(1125).into_byte_vector());
    assert_eq!(BN128::from(0), BN128::from_byte_vector(vec![]));
    assert_eq!(BN128::from(300), BN128::from_byte_vector(vec![44, 1, 0, 0]));
    let top = (BN128::from(0) - BN128::from(1)).into_byte_vector();
    assert_eq!(32, top.len());
    assert_eq!(0x30, top[31]);
    assert_eq!(0, top[0]);
}

#[test]
fn malformed_encoding_is_reported() {
    let (_, modulus_bytes) = p().to_bytes_le();
    assert_eq!(
        BN128::try_from_byte_vector(modulus_bytes),
        Err(FieldError::MalformedEncoding)
    );
    assert_eq!(
        BN128::try_from_byte_vector(vec![255; 32]),
        Err(FieldError::MalformedEncoding)
    );
    let (_, top_bytes) = (p() - BigInt::from(1)).to_bytes_le();
    assert_eq!(
        BN128::try_from_byte_vector(top_bytes),
        Ok(BN128::max_value())
    );
}

#[test]
fn decimal_literals() {
    assert_eq!(fe("+5"), BN128::from(5));
    assert_eq!(fe("-0"), BN128::from(0));
    assert_eq!(fe("1_000"), BN128::from(1000));
    assert_eq!(fe("007"), BN128::from(7));
    assert_eq!(fe(P), BN128::from(0));
    assert_eq!(
        fe("21888242871839275222246405745257275088548364400416034343698204186575808495618"),
        BN128::from(1)
    );
    for bad in vec![
        "", "-", "+", "-+5", "+-5", "--5", "++5", "_5", "-_5", "abc", "12a", "1.5", " 1", "1 ",
        "0x10", "\u{0663}",
    ] {
        assert_eq!(BN128::try_from_dec_str(bad), Err(()));
    }
}

#[test]
fn small_integers() {
    assert_eq!(BN128::from(-1).to_bigint(), p() - BigInt::from(1));
    assert_eq!(BN128::from(i32::MIN).to_bigint(), p() - BigInt::from(2147483648u32));
    assert_eq!(BN128::from(u32::MAX).to_dec_string(), "4294967295");
    assert_eq!(BN128::from(usize::MAX).to_bigint(), BigInt::from(usize::MAX));
    assert_eq!(BN128::from(17usize), BN128::from(17u32));
}

#[test]
fn bounds_and_identities() {
    assert_eq!(BN128::min_value(), BN128::from(0));
    assert_eq!(BN128::max_value().to_bigint(), p() - BigInt::from(1));
    assert_eq!(BN128::max_value() + BN128::one(), BN128::zero());
    assert_eq!(BN128::default(), BN128::zero());
    assert!(BN128::zero().is_zero());
    assert!(!BN128::one().is_zero());
    assert_eq!(254, BN128::get_required_bits());
}

#[test]
fn order_is_that_of_canonical_integers() {
    assert!(BN128::from(1) < BN128::from(2));
    assert!(BN128::from(2) > BN128::from(1));
    assert!(BN128::from(-1) > BN128::from(1));
    assert!(BN128::from(3) <= BN128::from(3));
    assert!(BN128::from(3) >= BN128::from(3));
    assert!(BN128::from(3) != BN128::from(4));
    assert_eq!(BN128::from(-1), BN128::max_value());
    assert_eq!(BN128::from(9).clone(), BN128::from(9));
}

#[test]
fn bigint_conversions() {
    assert_eq!(BN128::from_bigint(&BigInt::from(-12)).to_bigint(), p() - BigInt::from(12));
    assert_eq!(BN128::from_bigint(&(p() + BigInt::from(5))), BN128::from(5));
    assert_eq!(BN128::from_bigint(&(p() * BigInt::from(3))), BN128::from(0));
    assert_eq!(BN128::from(77).to_bigint(), BigInt::from(77));
}

#[test]
fn powers() {
    assert_eq!(BN128::from(54).pow(0), BN128::from(1));
    assert_eq!(BN128::from(0).pow(0), BN128::from(1));
    assert_eq!(BN128::from(54).pow(BN128::from(0)), BN128::from(1));
    assert_eq!(BN128::from(2).pow(10), BN128::from(1024));
    assert_eq!(BN128::from(2).pow(&BN128::from(10)), BN128::from(1024));
    assert_eq!(BN128::from(-2).pow(3), BN128::from(-8));
    assert_eq!(
        BN128::from(2).pow(254).to_dec_string(),
        "7059779437489773633646340506914701874769131765994106666166191815402473914367"
    );
}

#[test]
fn compact_decimal_is_symmetric() {
    assert_eq!("0", BN128::from(0).to_compact_dec_string());
    assert_eq!("68135", BN128::from(68135).to_compact_dec_string());
    assert_eq!("(-68135)", BN128::from(-68135).to_compact_dec_string());
    assert_eq!(
        "(-10944121435919637611123202872628637544274182200208017171849102093287904247808)",
        fe("10944121435919637611123202872628637544274182200208017171849102093287904247809")
            .to_compact_dec_string()
    );
    assert_eq!(
        "21888242871839275222246405745257275088548364400416034343698204186575808495616",
        BN128::max_value().to_dec_string()
    );
}

#[test]
fn subtraction_wraps_below_zero() {
    assert_eq!(
        (fe("68135") - fe("65416358")).to_bigint(),
        p() - BigInt::from(65416358 - 68135)
    );
    assert_eq!((fe("65416358") + fe("68135")).to_dec_string(), "65484493");
}

#[test]
fn extended_euclid_combines_to_gcd() {
    let cases: Vec<(i64, i64, i64)> = vec![
        (120, 23, 1),
        (23, 120, 1),
        (0, 5, 5),
        (5, 0, 5),
        (0, 0, 0),
        (12, 18, 6),
        (-120, 23, 1),
        (120, -23, 1),
        (-12, -18, 6),
        (7, 7, 7),
    ];
    for (a, b, g) in cases {
        let (d, s, t) = extended_euclid(&BigInt::from(a), &BigInt::from(b));
        assert_eq!(d, &s * BigInt::from(a) + &t * BigInt::from(b));
        assert!(d == BigInt::from(g) || d == BigInt::from(-g));
        if a >= 0 && b >= 0 {
            assert_eq!(d, BigInt::from(g));
        }
    }
    assert_eq!(
        extended_euclid(&BigInt::from(5), &BigInt::from(0)),
        (BigInt::from(5), BigInt::from(1), BigInt::from(0))
    );
    assert_eq!(
        extended_euclid(&BigInt::from(-12), &BigInt::from(-18)),
        (BigInt::from(-6), BigInt::from(-1), BigInt::from(1))
    );
    assert_eq!(
        extended_euclid(&BigInt::from(-120), &BigInt::from(23)),
        (BigInt::from(1), BigInt::from(9), BigInt::from(47))
    );
}

#[test]
fn batch_routes() {
    assert_eq!(batch_route("MNT4", "MNT6"), Some(BatchRoute::Mnt4ToMnt6));
    assert_eq!(batch_route("MNT6", "MNT4"), Some(BatchRoute::Mnt6ToMnt4));
    assert_eq!(batch_route("MNT4", "MNT4"), None);
    assert_eq!(batch_route("MNT6", "MNT6"), None);
    assert_eq!(batch_route("mnt4", "MNT6"), None);
    assert_eq!(batch_route("MNT4753", "MNT6753"), None);
    assert_eq!(batch_route("", ""), None);
}

#[test]
fn backends_are_made() {
    let _gm17: GM17_MNT6 = GM17_MNT6::new();
    let _pghr13: PGHR13_MNT4 = PGHR13_MNT4::new();
}
