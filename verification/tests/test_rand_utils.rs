use miracl_core::bls12381::big::BIG;
use miracl_core::hash256::HASH256;
use miracl_core::rand::{RAND_impl, RAND};
use num_bigint::RandBigInt;
use rand::SeedableRng;
use ruby::define::{curve_order, BigInt, BigNum};
use ruby::math::matrix::BigNumMatrix2x2;
use ruby::utils::rand_utils::{RandUtilsRAND, RandUtilsRng, Sample};

fn digest_with_tag(state: &[u8; 32], tag: u8) -> [u8; 32] {
    let mut h = HASH256::new();
    h.process_array(state);
    h.process(tag);
    h.hash()
}

fn scalar_from(seed: &[u8; 32], q: &BigNum) -> BigNum {
    let mut rng = RAND_impl::new();
    rng.clean();
    rng.seed(32, seed);
    let x = BIG::randomnum(&BIG::frombytes(&q.to_bytes()), &mut rng);
    let mut out = [0u8; 48];
    x.tobytes(&mut out);
    BigNum::from_bytes(out)
}

fn integer_from(seed: &[u8; 32], low: i64, high: i64) -> BigInt {
    let mut rng = rand::rngs::StdRng::from_seed(*seed);
    let v = rng.gen_bigint_range(&num_bigint::BigInt::from(low), &num_bigint::BigInt::from(high));
    BigInt::from_signed_bytes_be(&v.to_signed_bytes_be())
}

#[test]
fn rand_utils_test_rand_utils_rng() {
    let mut rand_utils = RandUtilsRng::new();
    println!("next big int mod: {:?}", rand_utils.sample(&BigInt::from_i64(1000)));
    println!(
        "next big int range: {:?}",
        rand_utils.sample_range(&BigInt::from_i64(50), &BigInt::from_i64(100))
    );
    println!("next big int mod vec: {:?}", rand_utils.sample_vec(5, &BigInt::from_i64(1000)));
    println!(
        "next big int range vec: {:?}",
        rand_utils.sample_range_vec(5, &BigInt::from_i64(50), &BigInt::from_i64(100))
    );
}

#[test]
fn rand_utils_test_rand_utils_rand() {
    let mut rand_utils = RandUtilsRAND::new();
    println!("next big int mod: {:?}", rand_utils.sample(&BigNum::new_int(1000)));
    println!(
        "next big int range: {:?}",
        rand_utils.sample_range(&BigNum::new_int(50), &BigNum::new_int(100))
    );
    println!("next big int mod vec: {:?}", rand_utils.sample_vec(5, &BigNum::new_int(1000)));
    println!(
        "next big int range vec: {:?}",
        rand_utils.sample_range_vec(5, &BigNum::new_int(50), &BigNum::new_int(100))
    );
}

#[test]
fn a_range_of_one_number_gives_that_number() {
    let mut a = RandUtilsRAND::get_seeded_rng(&[0u8; 32]);
    assert_eq!(a.sample(&BigNum::new_int(1)), BigNum::new_int(0));
    assert_eq!(a.sample_range(&BigNum::new_int(41), &BigNum::new_int(42)), BigNum::new_int(41));
    assert!(a.sample_vec(0, &BigNum::new_int(5)).is_empty());
    let mut b = RandUtilsRng::get_seeded_rng(&[0u8; 32]);
    assert_eq!(b.sample(&BigInt::from_i64(1)), BigInt::from_i64(0));
    assert_eq!(b.sample_range(&BigInt::from_i64(-42), &BigInt::from_i64(-41)), BigInt::from_i64(-42));
    assert!(b.sample_range_vec(0, &BigInt::from_i64(-1), &BigInt::from_i64(1)).is_empty());
}

#[test]
fn a_draw_of_scalars_is_that_of_the_generator_started_from_the_seed_of_the_draw() {
    let state = [9u8; 32];
    let order = curve_order();
    let mut source = RandUtilsRAND::get_seeded_rng(&state);
    let first = source.sample(&order);
    assert_eq!(first, scalar_from(&digest_with_tag(&state, 1), &order));
    // the source has moved on to the digest of its state and a zero byte
    let next = digest_with_tag(&state, 0);
    let second = source.sample(&order);
    assert_eq!(second, scalar_from(&digest_with_tag(&next, 1), &order));
    assert_eq!(second, RandUtilsRAND::get_seeded_rng(&next).sample(&order));
    assert_ne!(first, second);
    // a range: the low end plus a draw for the width
    let low = BigNum::new_int(1000);
    let high = BigNum::new_int(1000000);
    let third = source.sample_range(&low, &high);
    let after = digest_with_tag(&next, 0);
    let width = BigNum::new_int(999000);
    let drawn = scalar_from(&digest_with_tag(&after, 1), &width);
    assert_eq!(third.to_bigint(), drawn.to_bigint().plus(&low.to_bigint()));
}

#[test]
fn draws_in_a_row_are_the_draws_one_by_one() {
    let state = [10u8; 32];
    let order = curve_order();
    let mut one = RandUtilsRAND::get_seeded_rng(&state);
    let mut row = RandUtilsRAND::get_seeded_rng(&state);
    let v = row.sample_vec(3, &order);
    for k in 0..3 {
        assert_eq!(v[k], one.sample(&order));
    }
    // both sources are in the same state now
    assert_eq!(row.sample(&order), one.sample(&order));
    let low = BigNum::new_int(5);
    let w = row.sample_range_vec(2, &low, &order);
    for k in 0..2 {
        assert_eq!(w[k], one.sample_range(&low, &order));
    }
    let mut m1 = RandUtilsRAND::get_seeded_rng(&state);
    let mut m2 = RandUtilsRAND::get_seeded_rng(&state);
    let m = BigNumMatrix2x2::new_random(&order, &mut m1);
    for i in 0..2 {
        for j in 0..2 {
            assert_eq!(*m.get_element(i, j), m2.sample(&order));
        }
    }
    assert_eq!(m1.sample(&order), m2.sample(&order));
}

#[test]
fn a_draw_of_integers_is_that_of_the_generator_started_from_the_seed_of_the_draw() {
    let state = [11u8; 32];
    let mut source = RandUtilsRng::get_seeded_rng(&state);
    let top = BigInt::from_i64(1 << 40);
    let first = source.sample(&top);
    assert_eq!(first, integer_from(&digest_with_tag(&state, 1), 0, 1 << 40));
    let next = digest_with_tag(&state, 0);
    let second = source.sample_range(&BigInt::from_i64(-(1 << 40)), &top);
    assert_eq!(second, integer_from(&digest_with_tag(&next, 1), -(1 << 40), 1 << 40));
    let mut one = RandUtilsRng::get_seeded_rng(&state);
    let mut row = RandUtilsRng::get_seeded_rng(&state);
    let v = row.sample_vec(3, &top);
    for k in 0..3 {
        assert_eq!(v[k], one.sample(&top));
    }
    let w = row.sample_range_vec(3, &BigInt::from_i64(-7), &top);
    for k in 0..3 {
        assert_eq!(w[k], one.sample_range(&BigInt::from_i64(-7), &top));
    }
}

#[test]
fn sources_from_entropy_differ() {
    let order = curve_order();
    let mut a = RandUtilsRAND::new();
    let mut b = RandUtilsRAND::new();
    assert_ne!(a.sample(&order), b.sample(&order));
    let top = BigInt::from_i64(i64::MAX);
    let mut c = RandUtilsRng::new();
    let mut d = RandUtilsRng::new();
    assert_ne!(c.sample_vec(4, &top), d.sample_vec(4, &top));
}
