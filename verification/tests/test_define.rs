use miracl_core::bls12381::big::BIG;
use miracl_core::bls12381::ecp::ECP;
use miracl_core::bls12381::ecp2::ECP2;
use miracl_core::bls12381::fp12::FP12;
use miracl_core::bls12381::rom;
use ruby::define::{curve_order, modulus, BigInt, BigNum};
use ruby::group::{ate, fexp, pairing, G1, G2, Gt, G1_GENERATOR, G2_GENERATOR};

#[test]
fn test_bigint_bignum_conversion() {
    let a = BigNum::new_int(25500);
    println!("{:?} => {:?}", a, a.to_bytes());
    let a = a.to_bigint();
    let aa = BigInt::from_i64(25500);
    println!("{:?} => {:?}", a, aa);
    assert_eq!(a, aa);

    let b = BigInt::from_i64(15500);
    println!("{:?}", b);
    let b = BigNum::from_bigint(&b).unwrap();
    let bb = BigNum::new_int(15500);
    println!("{:?} => {:?}", b, bb);
    assert_eq!(b, bb);
}

#[test]
fn bignum_from_bigint_rejects_what_does_not_fit() {
    assert!(BigNum::from_bigint(&BigInt::from_i64(-1)).is_none());
    let mut big = BigInt::from_i64(1);
    let two_to_the_32 = BigInt::from_i64(1 << 32);
    for _ in 0..12 {
        big = big.times(&two_to_the_32);
    }
    // big is 2^384: one more than the largest scalar
    assert!(BigNum::from_bigint(&big).is_none());
    let largest = big.minus(&BigInt::from_i64(1));
    let n = BigNum::from_bigint(&largest).unwrap();
    assert_eq!(n.to_bytes(), [255u8; 48]);
    assert_eq!(n.to_bigint(), largest);
}

#[test]
fn curve_order_is_the_constant_of_the_curve() {
    let mut expected = [0u8; 48];
    BIG::new_ints(&rom::CURVE_ORDER).tobytes(&mut expected);
    assert_eq!(curve_order().to_bytes(), expected);
    assert_eq!(modulus(), curve_order().to_bigint());
    let hex = "73eda753299d7d483339d80809a1d80553bda402fffe5bfeffffffff00000001";
    let bytes = curve_order().to_bytes();
    let text: String = bytes[16..].iter().map(|b| format!("{:02x}", b)).collect();
    assert_eq!(text, hex);
    assert!(bytes[..16].iter().all(|b| *b == 0));
}

#[test]
fn bignum_modular_arithmetic() {
    let m = BigNum::new_int(97);
    let a = BigNum::new_int(50);
    let b = BigNum::new_int(60);
    assert_eq!(BigNum::modadd(&a, &b, &m), BigNum::new_int(13));
    assert_eq!(BigNum::modmul(&a, &b, &m), BigNum::new_int(3000 % 97));
    assert_eq!(BigNum::modneg(&a, &m), BigNum::new_int(47));
    assert_eq!(BigNum::modneg(&BigNum::new_int(0), &m), BigNum::new_int(0));
    assert_eq!(BigNum::modneg(&BigNum::new_int(97), &m), BigNum::new_int(0));
    let inv = BigNum::invmodp(&a, &m);
    assert_eq!(BigNum::modmul(&a, &inv, &m), BigNum::new_int(1));
    assert_eq!(inv, BigNum::new_int(33));
    assert_eq!(BigNum::comp(&a, &b), -1);
    assert_eq!(BigNum::comp(&b, &a), 1);
    assert_eq!(BigNum::comp(&a, &a), 0);
    assert!(BigNum::new().iszilch());
    assert!(!a.iszilch());
}

#[test]
fn bigint_arithmetic() {
    let a = BigInt::from_i64(-7);
    let b = BigInt::from_i64(3);
    assert_eq!(a.plus(&b), BigInt::from_i64(-4));
    assert_eq!(a.minus(&b), BigInt::from_i64(-10));
    assert_eq!(a.times(&b), BigInt::from_i64(-21));
    assert_eq!(a.mod_floor(&b), BigInt::from_i64(2));
    assert_eq!(BigInt::comp(&a, &b), -1);
    assert_eq!(BigInt::comp(&b, &a), 1);
    assert_eq!(BigInt::comp(&b, &b), 0);
    assert_eq!(a.copy(), a);
    assert_eq!(b.to_u64(), Some(3));
    assert_eq!(a.to_u64(), None);
    assert_eq!(BigInt::from_i64(i64::MAX).times(&BigInt::from_i64(4)).to_u64(), None);
}

#[test]
fn generators_are_those_of_the_curve() {
    let mut g1 = [0u8; 97];
    ECP::generator().tobytes(&mut g1, false);
    assert_eq!(G1::generator().to_bytes(), g1);
    assert_eq!(G1_GENERATOR, g1);
    let mut g2 = [0u8; 193];
    ECP2::generator().tobytes(&mut g2, false);
    assert_eq!(G2::generator().to_bytes(), g2);
    assert_eq!(G2_GENERATOR, g2);
}

#[test]
fn neutral_elements_are_those_of_the_curve() {
    let mut e1 = [0u8; 97];
    ECP::new().tobytes(&mut e1, false);
    assert_eq!(G1::new().to_bytes(), e1);
    let mut e2 = [0u8; 193];
    ECP2::new().tobytes(&mut e2, false);
    assert_eq!(G2::new().to_bytes(), e2);
    let mut one = FP12::new();
    one.one();
    let mut et = [0u8; 576];
    one.tobytes(&mut et);
    assert_eq!(Gt::new().to_bytes(), et);
}

#[test]
fn group_operations_follow_the_group_laws_on_examples() {
    let g = G1::generator();
    let two = BigNum::new_int(2);
    let three = BigNum::new_int(3);
    let five = BigNum::new_int(5);
    assert_ne!(g.add(&g), g);
    assert_eq!(g.add(&g), g.mul(&two));
    assert_eq!(g.mul(&two).add(&g.mul(&three)), g.mul(&five));
    assert_eq!(g.add(&g.neg()), G1::new());
    assert_eq!(g.sub(&g), G1::new());
    assert_eq!(g.add(&G1::new()), g);
    assert_eq!(g.mul(&curve_order()), G1::new());
    assert!(g.equals(&G1::generator()));
    assert!(!g.equals(&G1::new()));

    let h = G2::generator();
    assert_eq!(h.add(&h), h.mul(&two));
    assert_eq!(h.add(&G2::new()), h);
    assert_ne!(h.neg(), h);
    assert_eq!(h.add(&h.neg()), G2::new());
    assert_eq!(h.neg().neg(), h);
    assert_eq!(G2::from_bytes(h.to_bytes()), h);
    assert_eq!(G1::from_bytes(g.to_bytes()), g);
    assert_eq!(h.mul(&curve_order()), G2::new());
    assert!(h.equals(&G2::generator()));

    let e = pairing(&h, &g);
    assert_eq!(e, fexp(&ate(&h, &g)));
    assert_ne!(e, Gt::new());
    assert_eq!(e.mul(&e), e.pow(&two));
    assert_eq!(e.mul(&e.inverse()), Gt::new());
    assert_eq!(e.mul(&Gt::new()), e);
    assert_eq!(e.pow(&curve_order()), Gt::new());
    assert!(e.equals(&pairing(&h, &g)));
    assert!(!e.equals(&Gt::new()));
    assert_eq!(Gt::from_bytes(e.to_bytes()), e);
    assert_eq!(e.inverse().inverse(), e);
    // bilinearity
    assert_eq!(pairing(&h.mul(&three), &g.mul(&five)), e.pow(&BigNum::new_int(15)));
}
