use pairing_ce::bn256::Fr;
use pairing_ce::ff::Field as FField;
use rand::{thread_rng, Rng};
use zokrates_field::bn128::BN128;
use zokrates_field::field::Field;

#[test]
fn fr_to_field_to_fr() {
    let rng = &mut thread_rng();
    for _ in 0..1000 {
        let a: Fr = rng.gen();
        assert_eq!(BN128::from_bellman(a).into_bellman(), a);
    }
}

#[test]
fn field_to_fr_to_field() {
    // use Fr to get a random element
    let rng = &mut thread_rng();
    for _ in 0..1000 {
        let a: Fr = rng.gen();
        // now test idempotence
        let a = BN128::from_bellman(a);
        assert_eq!(BN128::from_bellman(a.clone().into_bellman()), a);
    }
}

#[test]
fn one() {
    let a = BN128::from(1);

    assert_eq!(a.into_bellman(), Fr::one());
}

#[test]
fn zero() {
    let a = BN128::from(0);

    assert_eq!(a.into_bellman(), Fr::zero());
}

#[test]
fn minus_one() {
    let mut a: Fr = Fr::one();
    a.negate();
    assert_eq!(BN128::from_bellman(a), BN128::from(-1));
}

#[test]
fn add() {
    let rng = &mut thread_rng();

    let mut a: Fr = rng.gen();
    let b: Fr = rng.gen();

    let aa = BN128::from_bellman(a);
    let bb = BN128::from_bellman(b);
    let cc = aa + bb;

    a.add_assign(&b);

    assert_eq!(BN128::from_bellman(a), cc);
}
