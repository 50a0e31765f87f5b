use ruby::define::{BigInt, BigNum};
use ruby::error::FeError;
use ruby::simple_ip::Sip;
use ruby::traits::FunctionalEncryption;
use ruby::utils::inner_product_result;
use ruby::utils::rand_utils::{RandUtilsRAND, RandUtilsRng, Sample};
use std::time::Instant;

#[test]
fn test_sip() {
    let mut rng = RandUtilsRng::new();
    let mut keys = RandUtilsRAND::new();
    const L: usize = 20;
    let bound: i64 = 100;
    let low = BigInt::from_i64(-bound);
    let high = BigInt::from_i64(bound);

    let sip = Sip::<L>::new(&mut keys);

    let x: Vec<BigInt> = rng.sample_range_vec(L, &low, &high);
    let y: Vec<BigInt> = rng.sample_range_vec(L, &low, &high);
    let plain_result = inner_product_result(&x, &y).unwrap();
    println!("Groud truth: {:?}", plain_result);

    let now = Instant::now();
    let cipher = sip.encrypt(&x, &mut keys).unwrap();
    let elapsed = now.elapsed();
    println!("[SIP Encrypt]: {:.2?}", elapsed);

    let now = Instant::now();
    let dk = sip.derive_fe_key(&y).unwrap();
    let elapsed = now.elapsed();
    println!("[SIP Derive FE Key]: {:.2?}", elapsed);

    let now = Instant::now();
    let result = sip.decrypt(&cipher, &dk, &BigInt::from_i64(bound)).unwrap();
    let elapsed = now.elapsed();
    println!("[SIP Decrypt]: {:.2?}", elapsed);

    assert!(result.is_some());
    assert_eq!(result.unwrap(), plain_result);
}

#[test]
fn sip_recovers_the_inner_product_in_many_trials() {
    const L: usize = 10;
    let bound: i64 = 64;
    let low = BigInt::from_i64(-bound);
    let high = BigInt::from_i64(bound + 1);
    let mut rng = RandUtilsRng::get_seeded_rng(&[3u8; 32]);
    let mut keys = RandUtilsRAND::get_seeded_rng(&[4u8; 32]);
    for _ in 0..12 {
        let sip = Sip::<L>::new(&mut keys);
        let x: Vec<BigInt> = rng.sample_range_vec(L, &low, &high);
        let y: Vec<BigInt> = rng.sample_range_vec(L, &low, &high);
        let expected = inner_product_result(&x, &y).unwrap();
        let ct = sip.encrypt(&x, &mut keys).unwrap();
        let dk = sip.derive_fe_key(&y).unwrap();
        let got = sip.decrypt(&ct, &dk, &BigInt::from_i64(bound)).unwrap();
        assert_eq!(got, Some(expected));
    }
}

#[test]
fn sip_with_negative_inputs_and_the_extreme_inner_product() {
    const L: usize = 3;
    let mut keys = RandUtilsRAND::get_seeded_rng(&[9u8; 32]);
    let sip = Sip::<L>::new(&mut keys);
    let x = vec![BigInt::from_i64(-5), BigInt::from_i64(-5), BigInt::from_i64(-5)];
    let y = vec![BigInt::from_i64(5), BigInt::from_i64(5), BigInt::from_i64(5)];
    let ct = sip.encrypt(&x, &mut keys).unwrap();
    let dk = sip.derive_fe_key(&y).unwrap();
    // -75 is the extreme for the bound 5: 5 * 5 * 3
    assert_eq!(sip.decrypt(&ct, &dk, &BigInt::from_i64(5)).unwrap(), Some(BigInt::from_i64(-75)));
    // an undersized bound: the inner product is out of reach
    assert_eq!(sip.decrypt(&ct, &dk, &BigInt::from_i64(1)).unwrap(), None);
    // the inner product zero is found whatever the bound
    let zero = vec![BigInt::from_i64(0), BigInt::from_i64(0), BigInt::from_i64(0)];
    let dk0 = sip.derive_fe_key(&zero).unwrap();
    assert_eq!(sip.decrypt(&ct, &dk0, &BigInt::from_i64(1 << 40)), Ok(Some(BigInt::from_i64(0))));
    assert_eq!(sip.decrypt(&ct, &dk, &BigInt::from_i64(1 << 40)), Err(FeError::BoundTooLarge));
}

#[test]
fn sip_rejects_vectors_of_another_length() {
    const L: usize = 3;
    let mut keys = RandUtilsRAND::get_seeded_rng(&[1u8; 32]);
    let sip = Sip::<L>::new(&mut keys);
    let short = vec![BigInt::from_i64(1), BigInt::from_i64(2)];
    let long = vec![BigInt::from_i64(1); 4];
    assert_eq!(sip.encrypt(&short, &mut keys).err(), Some(FeError::DimensionMismatch));
    assert_eq!(sip.encrypt(&long, &mut keys).err(), Some(FeError::DimensionMismatch));
    assert_eq!(sip.derive_fe_key(&short).err(), Some(FeError::DimensionMismatch));
    assert_eq!(sip.derive_fe_key(&long).err(), Some(FeError::DimensionMismatch));
}

#[test]
fn sip_encryption_is_a_function_of_plaintext_and_randomness() {
    const L: usize = 2;
    let mut keys = RandUtilsRAND::get_seeded_rng(&[2u8; 32]);
    let sip = Sip::<L>::new(&mut keys);
    let x = vec![BigInt::from_i64(3), BigInt::from_i64(-4)];
    let r = BigNum::new_int(123456);
    let a = sip.encrypt_with_randomness(&x, &r).unwrap();
    let b = sip.encrypt_with_randomness(&x, &r).unwrap();
    assert_eq!(format!("{:?}", a), format!("{:?}", b));
    let c = sip.encrypt_with_randomness(&x, &BigNum::new_int(123457)).unwrap();
    assert_ne!(format!("{:?}", a), format!("{:?}", c));
    let y = vec![BigInt::from_i64(7), BigInt::from_i64(2)];
    let dk = sip.derive_fe_key(&y).unwrap();
    assert_eq!(sip.decrypt(&a, &dk, &BigInt::from_i64(7)).unwrap(), Some(BigInt::from_i64(13)));
    assert_eq!(sip.decrypt(&c, &dk, &BigInt::from_i64(7)).unwrap(), Some(BigInt::from_i64(13)));
}
