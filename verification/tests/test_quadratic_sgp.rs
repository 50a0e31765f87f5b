use ruby::define::{BigInt, BigNum};
use ruby::error::FeError;
use ruby::math::matrix::{BigIntMatrix, BigNumMatrix2x2};
use ruby::quadratic_sgp::{Sgp, SgpPlain};
use ruby::traits::FunctionalEncryption;
use ruby::utils::quadratic_result;
use ruby::utils::rand_utils::{RandUtilsRAND, RandUtilsRng, Sample};
use std::time::Instant;

#[test]
fn test_sgp_1() {
    const L: usize = 2;
    let mut keys = RandUtilsRAND::new();
    let sgp = Sgp::<L>::new(&mut keys);

    let mut x: Vec<BigInt> = Vec::new();
    let mut y: Vec<BigInt> = Vec::new();
    for i in 0..2 {
        x.push(BigInt::from_i64(i));
        y.push(BigInt::from_i64(i + 1));
    }

    let a: [i64; 4] = [1; 4];
    let f = BigIntMatrix::new_ints(&a[..], 2, 2).unwrap();
    let plain_result = quadratic_result(&x, &y, &f).unwrap();
    println!("Groud truth: {:?}", plain_result);
    assert_eq!(plain_result, BigInt::from_i64(3));

    let plain = SgpPlain::<L> { x, y };
    let cipher = sgp.encrypt(&plain, &mut keys).unwrap();
    let dk = sgp.derive_fe_key(&f).unwrap();
    let result = sgp.decrypt(&cipher, &dk, &BigInt::from_i64(100)).unwrap();

    assert!(result.is_some());
    assert_eq!(result.unwrap(), plain_result);
    assert_eq!(sgp.decrypt(&cipher, &dk, &BigInt::from_i64(2)).unwrap(), Some(BigInt::from_i64(3)));
}

#[test]
fn test_sgp_2() {
    let mut rng = RandUtilsRng::new();
    let mut keys = RandUtilsRAND::new();
    const L: usize = 1;
    let bound: i64 = 100;
    let low = BigInt::from_i64(-bound);
    let high = BigInt::from_i64(bound);

    let sgp = Sgp::<L>::new(&mut keys);

    let x: Vec<BigInt> = rng.sample_range_vec(L, &low, &high);
    let y: Vec<BigInt> = rng.sample_range_vec(L, &low, &high);
    let f = BigIntMatrix::new_random(L, L, &low, &high, &mut rng);
    let plain_result = quadratic_result(&x, &y, &f).unwrap();
    println!("Groud truth: {:?}", plain_result);

    let now = Instant::now();
    let plain = SgpPlain::<L> { x, y };
    let cipher = sgp.encrypt(&plain, &mut keys).unwrap();
    let elapsed = now.elapsed();
    println!("[Quadratic Encrypt]: {:.2?}", elapsed);

    let now = Instant::now();
    let dk = sgp.derive_fe_key(&f).unwrap();
    let elapsed = now.elapsed();
    println!("[Quadratic Derive]: {:.2?}", elapsed);

    let now = Instant::now();
    let result = sgp.decrypt(&cipher, &dk, &BigInt::from_i64(bound)).unwrap();
    let elapsed = now.elapsed();
    println!("[Quadratic Decrypt]: {:.2?}", elapsed);

    assert!(result.is_some());
    assert_eq!(result.unwrap(), plain_result);
}

fn ints(v: &[i64]) -> Vec<BigInt> {
    v.iter().map(|a| BigInt::from_i64(*a)).collect()
}

#[test]
fn sgp_with_negative_numbers_and_a_larger_form() {
    const L: usize = 3;
    let mut keys = RandUtilsRAND::get_seeded_rng(&[21u8; 32]);
    let sgp = Sgp::<L>::new(&mut keys);
    let x = ints(&[-2, 3, 1]);
    let y = ints(&[4, -1, -3]);
    let f = BigIntMatrix::new_ints(&[1, -2, 0, 3, 1, -1, 0, 2, -3], 3, 3).unwrap();
    // x^T F y = sum F[i][j] x_i y_j
    // row 0: x0 = -2: 1*4 + (-2)(-1) + 0 = 6  -> -12
    // row 1: x1 = 3: 3*4 + 1*(-1) + (-1)(-3) = 14 -> 42
    // row 2: x2 = 1: 0 + 2*(-1) + (-3)(-3) = 7 -> 7
    let expected = BigInt::from_i64(37);
    assert_eq!(quadratic_result(&x, &y, &f).unwrap(), expected);
    let ct = sgp.encrypt(&SgpPlain::<L> { x, y }, &mut keys).unwrap();
    let dk = sgp.derive_fe_key(&f).unwrap();
    assert_eq!(sgp.decrypt(&ct, &dk, &BigInt::from_i64(4)).unwrap(), Some(expected));
    let g = BigIntMatrix::new_ints(&[-1, 0, 0, 0, 0, 0, 0, 0, 0], 3, 3).unwrap();
    let dk = sgp.derive_fe_key(&g).unwrap();
    assert_eq!(sgp.decrypt(&ct, &dk, &BigInt::from_i64(4)).unwrap(), Some(BigInt::from_i64(8)));
}

#[test]
fn sgp_projection_composes_with_a_projected_key() {
    const L: usize = 3;
    let mut keys = RandUtilsRAND::get_seeded_rng(&[22u8; 32]);
    let sgp = Sgp::<L>::new(&mut keys);
    let x = ints(&[2, -1, 3]);
    // P is 3 x 2, Q is 2 x 2
    let p = BigIntMatrix::new_ints(&[1, 0, 2, -1, 0, 1], 3, 2).unwrap();
    let q = BigIntMatrix::new_ints(&[1, 2, -1, 1], 2, 2).unwrap();
    // x P = (2*1 + (-1)*2 + 3*0, 2*0 + (-1)(-1) + 3*1) = (0, 4)
    // (xP) Q (xP)^T = q11 * 16 = 16
    let xp = ints(&[0, 4]);
    let expected = quadratic_result(&xp, &xp, &q).unwrap();
    assert_eq!(expected, BigInt::from_i64(16));
    let ct = sgp.encrypt(&SgpPlain::<L> { x: x.clone(), y: x }, &mut keys).unwrap();
    let projected = sgp.project(&ct, &p).unwrap();
    let dk = sgp.derive_fe_key_projected(&q, &p).unwrap();
    assert_eq!(sgp.decrypt(&projected, &dk, &BigInt::from_i64(8)).unwrap(), Some(expected));
}

#[test]
fn sgp_projection_in_many_trials() {
    const L: usize = 4;
    let mut rng = RandUtilsRng::get_seeded_rng(&[23u8; 32]);
    let mut keys = RandUtilsRAND::get_seeded_rng(&[24u8; 32]);
    let low = BigInt::from_i64(-3);
    let high = BigInt::from_i64(4);
    for _ in 0..3 {
        let sgp = Sgp::<L>::new(&mut keys);
        let x: Vec<BigInt> = rng.sample_range_vec(L, &low, &high);
        let p = BigIntMatrix::new_random(L, 2, &low, &high, &mut rng);
        let q = BigIntMatrix::new_random(2, 2, &low, &high, &mut rng);
        let row = BigIntMatrix::new_bigints(&x, 1, L).unwrap();
        let xp_m = row.matmul(&p).unwrap();
        let xp = vec![xp_m.get_element(0, 0).copy(), xp_m.get_element(0, 1).copy()];
        let expected = quadratic_result(&xp, &xp, &q).unwrap();
        let ct = sgp.encrypt(&SgpPlain::<L> { x: x.clone(), y: x }, &mut keys).unwrap();
        let projected = sgp.project(&ct, &p).unwrap();
        let dk = sgp.derive_fe_key_projected(&q, &p).unwrap();
        // |xP| <= 4 * 3 * 3 = 36, so the bound 36 covers 36^3 * 4
        assert_eq!(sgp.decrypt(&projected, &dk, &BigInt::from_i64(36)).unwrap(), Some(expected));
    }
}

#[test]
fn sgp_rejects_what_does_not_fit() {
    const L: usize = 2;
    let mut keys = RandUtilsRAND::get_seeded_rng(&[25u8; 32]);
    let sgp = Sgp::<L>::new(&mut keys);
    let short = SgpPlain::<L> { x: ints(&[1]), y: ints(&[1, 2]) };
    assert_eq!(sgp.encrypt(&short, &mut keys).err(), Some(FeError::DimensionMismatch));
    let long = SgpPlain::<L> { x: ints(&[1, 2]), y: ints(&[1, 2, 3]) };
    assert_eq!(sgp.encrypt(&long, &mut keys).err(), Some(FeError::DimensionMismatch));
    let f3 = BigIntMatrix::new_ints(&[1; 9], 3, 3).unwrap();
    assert_eq!(sgp.derive_fe_key(&f3).err(), Some(FeError::DimensionMismatch));
    let f23 = BigIntMatrix::new_ints(&[1; 6], 2, 3).unwrap();
    assert_eq!(sgp.derive_fe_key(&f23).err(), Some(FeError::DimensionMismatch));
    let ct = sgp.encrypt(&SgpPlain::<L> { x: ints(&[1, 2]), y: ints(&[3, 4]) }, &mut keys).unwrap();
    let tall = BigIntMatrix::new_ints(&[1; 6], 3, 2).unwrap();
    assert_eq!(sgp.project(&ct, &tall).err(), Some(FeError::DimensionMismatch));
    let thin = BigIntMatrix::new_ints(&[1, 1], 2, 1).unwrap();
    let f2 = BigIntMatrix::new_ints(&[1; 4], 2, 2).unwrap();
    // the form has to be square with one row for each column of the projection
    assert_eq!(sgp.derive_fe_key_projected(&f2, &thin).err(), Some(FeError::DimensionMismatch));
    assert_eq!(sgp.derive_fe_key_projected(&f23, &thin).err(), Some(FeError::DimensionMismatch));
    assert_eq!(sgp.derive_fe_key_projected(&f2, &tall).err(), Some(FeError::DimensionMismatch));
    // a projected ciphertext does not fit a key for the full length
    let projected = sgp.project(&ct, &thin).unwrap();
    let dk = sgp.derive_fe_key(&f2).unwrap();
    assert_eq!(sgp.decrypt(&projected, &dk, &BigInt::from_i64(4)), Err(FeError::DimensionMismatch));
    assert_eq!(sgp.decrypt(&ct, &dk, &BigInt::from_i64(1 << 20)), Err(FeError::BoundTooLarge));
}

#[test]
fn sgp_refuses_a_blinding_matrix_without_inverse() {
    const L: usize = 2;
    let mut keys = RandUtilsRAND::get_seeded_rng(&[26u8; 32]);
    let sgp = Sgp::<L>::new(&mut keys);
    let plain = SgpPlain::<L> { x: ints(&[1, 2]), y: ints(&[3, 4]) };
    let gamma = BigNum::new_int(99);
    let singular = BigNumMatrix2x2::new_with_data(&[
        BigNum::new_int(2),
        BigNum::new_int(4),
        BigNum::new_int(3),
        BigNum::new_int(6),
    ])
    .unwrap();
    assert_eq!(sgp.encrypt_with_randomness(&plain, &singular, &gamma).err(), Some(FeError::SingularMatrix));
    let regular = BigNumMatrix2x2::new_with_data(&[
        BigNum::new_int(2),
        BigNum::new_int(4),
        BigNum::new_int(3),
        BigNum::new_int(7),
    ])
    .unwrap();
    let ct = sgp.encrypt_with_randomness(&plain, &regular, &gamma).unwrap();
    let again = sgp.encrypt_with_randomness(&plain, &regular, &gamma).unwrap();
    assert_eq!(format!("{:?}", ct), format!("{:?}", again));
    let f = BigIntMatrix::new_ints(&[1, 0, 0, 1], 2, 2).unwrap();
    let dk = sgp.derive_fe_key(&f).unwrap();
    // 1*3 + 2*4
    assert_eq!(sgp.decrypt(&ct, &dk, &BigInt::from_i64(4)).unwrap(), Some(BigInt::from_i64(11)));
}
