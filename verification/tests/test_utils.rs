use ruby::define::{curve_order, BigInt, BigNum};
use ruby::error::FeError;
use ruby::group::{pairing, Gt, G1, G2};
use ruby::utils::dlog::MAX_BOUND;
use ruby::utils::rand_utils::{RandUtilsRAND, RandUtilsRng, Sample};
use ruby::utils::{baby_step_giant_step, baby_step_giant_step_g1, hash_to_g1, hash_to_g2, reduce};

#[test]
fn test_baby_step_giant_step() {
    let g1 = G1::generator();
    let g2 = G2::generator();

    let g = pairing(&g2, &g1);

    let bound = BigNum::new_int(10024);
    let x = BigNum::new_int(1335);

    let h = g.pow(&x);
    let result = baby_step_giant_step(&h, &g, &bound).unwrap();
    assert!(result.is_some());

    let x = x.to_bigint();
    assert_eq!(result.unwrap(), x);
}

#[test]
fn test_baby_step_giant_step_g1() {
    let g1 = G1::generator();

    let bound = BigNum::new_int(1 << 13);
    let y = -2149;
    // the scalar that stands for y: y plus the group order
    let x = BigNum::modneg(&BigNum::new_int(2149), &curve_order());

    let h = g1.mul(&x);
    let result = baby_step_giant_step_g1(&h, &g1, &bound).unwrap();
    assert!(result.is_some());

    let y = BigInt::from_i64(y);
    assert_eq!(result.unwrap(), y);
}

#[test]
fn test_utils_test_rand_utils_rng() {
    let mut rand_utils = RandUtilsRng::new();
    let thousand = BigInt::from_i64(1000);
    let low = BigInt::from_i64(50);
    let high = BigInt::from_i64(100);
    let a = rand_utils.sample(&thousand);
    println!("next big int mod: {:?}", a);
    assert!(BigInt::comp(&a, &BigInt::from_i64(0)) >= 0 && BigInt::comp(&a, &thousand) < 0);
    let b = rand_utils.sample_range(&low, &high);
    println!("next big int range: {:?}", b);
    assert!(BigInt::comp(&b, &low) >= 0 && BigInt::comp(&b, &high) < 0);
    let v = rand_utils.sample_vec(5, &thousand);
    println!("next big int mod vec: {:?}", v);
    assert_eq!(v.len(), 5);
    assert!(v.iter().all(|a| BigInt::comp(a, &BigInt::from_i64(0)) >= 0 && BigInt::comp(a, &thousand) < 0));
    let w = rand_utils.sample_range_vec(5, &low, &high);
    println!("next big int range vec: {:?}", w);
    assert_eq!(w.len(), 5);
    assert!(w.iter().all(|b| BigInt::comp(b, &low) >= 0 && BigInt::comp(b, &high) < 0));
}

#[test]
fn test_utils_test_rand_utils_rand() {
    let mut rand_utils = RandUtilsRAND::new();
    let thousand = BigNum::new_int(1000);
    let low = BigNum::new_int(50);
    let high = BigNum::new_int(100);
    let a = rand_utils.sample(&thousand);
    println!("next big int mod: {:?}", a);
    assert!(BigNum::comp(&a, &thousand) < 0);
    let b = rand_utils.sample_range(&low, &high);
    println!("next big int range: {:?}", b);
    assert!(BigNum::comp(&b, &low) >= 0 && BigNum::comp(&b, &high) < 0);
    let v = rand_utils.sample_vec(5, &thousand);
    println!("next big int mod vec: {:?}", v);
    assert_eq!(v.len(), 5);
    assert!(v.iter().all(|a| BigNum::comp(a, &thousand) < 0));
    let w = rand_utils.sample_range_vec(5, &low, &high);
    println!("next big int range vec: {:?}", w);
    assert_eq!(w.len(), 5);
    assert!(w.iter().all(|b| BigNum::comp(b, &low) >= 0 && BigNum::comp(b, &high) < 0));
}

#[test]
fn seeded_sources_repeat_themselves() {
    let seed = [7u8; 32];
    let order = curve_order();
    let mut a = RandUtilsRAND::get_seeded_rng(&seed);
    let mut b = RandUtilsRAND::get_seeded_rng(&seed);
    let va = a.sample_vec(4, &order);
    let vb = b.sample_vec(4, &order);
    assert_eq!(va, vb);
    assert_ne!(va[0], va[1]);
    let mut c = RandUtilsRAND::get_seeded_rng(&[8u8; 32]);
    assert_ne!(c.sample_vec(4, &order), va);

    let top = BigInt::from_i64(1 << 40);
    let mut a = RandUtilsRng::get_seeded_rng(&seed);
    let mut b = RandUtilsRng::get_seeded_rng(&seed);
    let va = a.sample_vec(4, &top);
    assert_eq!(va, b.sample_vec(4, &top));
    assert_ne!(va[0], va[1]);
}

#[test]
fn reduce_gives_the_canonical_representative() {
    let m = BigInt::from_i64(7);
    assert_eq!(reduce(&BigInt::from_i64(9), &m), BigInt::from_i64(2));
    assert_eq!(reduce(&BigInt::from_i64(-9), &m), BigInt::from_i64(5));
    assert_eq!(reduce(&BigInt::from_i64(-14), &m), BigInt::from_i64(0));
    assert_eq!(reduce(&BigInt::from_i64(0), &m), BigInt::from_i64(0));
    assert_eq!(reduce(&BigInt::from_i64(6), &m), BigInt::from_i64(6));
}

#[test]
fn hashing_to_the_groups_separates_labels() {
    let a = hash_to_g1("0 label");
    let b = hash_to_g1("1 label");
    assert_eq!(a, hash_to_g1("0 label"));
    assert_ne!(a, b);
    assert_ne!(a, G1::new());
    // the hashed point lies in the group of prime order
    assert_eq!(a.mul(&curve_order()), G1::new());
    let c = hash_to_g2("0 label");
    assert_eq!(c, hash_to_g2("0 label"));
    assert_ne!(c, hash_to_g2("1 label"));
    assert_eq!(c.mul(&curve_order()), G2::new());
}

#[test]
fn search_returns_zero_for_the_neutral_element_whatever_the_bound() {
    let g = G1::generator();
    let zero = BigInt::from_i64(0);
    assert_eq!(baby_step_giant_step_g1(&G1::new(), &g, &BigNum::new_int(100)), Ok(Some(zero.copy())));
    // above the ceiling: still zero, no table is built
    assert_eq!(baby_step_giant_step_g1(&G1::new(), &g, &curve_order()), Ok(Some(zero.copy())));
    let gt = pairing(&G2::generator(), &g);
    assert_eq!(baby_step_giant_step(&Gt::new(), &gt, &curve_order()), Ok(Some(zero)));
}

#[test]
fn search_rejects_a_bound_above_the_ceiling() {
    let g = G1::generator();
    let h = g.mul(&BigNum::new_int(5));
    let above = BigNum::from_u64(MAX_BOUND + 1);
    assert_eq!(baby_step_giant_step_g1(&h, &g, &above), Err(FeError::BoundTooLarge));
    assert_eq!(baby_step_giant_step_g1(&h, &g, &curve_order()), Err(FeError::BoundTooLarge));
}

#[test]
fn search_finds_every_exponent_within_the_bound() {
    let g = G1::generator();
    let bound = BigNum::new_int(16);
    let order = curve_order();
    for e in -16i64..=16 {
        let k = if e >= 0 {
            BigNum::new_int(e as isize)
        } else {
            BigNum::modneg(&BigNum::new_int((-e) as isize), &order)
        };
        let h = g.mul(&k);
        assert_eq!(baby_step_giant_step_g1(&h, &g, &bound), Ok(Some(BigInt::from_i64(e))));
    }
}

#[test]
fn search_covers_the_square_of_its_steps_and_no_more() {
    // bound 16: five steps, so the exponents of a size up to 24 are in reach
    let g = G1::generator();
    let bound = BigNum::new_int(16);
    let order = curve_order();
    assert_eq!(baby_step_giant_step_g1(&g.mul(&BigNum::new_int(17)), &g, &bound), Ok(Some(BigInt::from_i64(17))));
    assert_eq!(baby_step_giant_step_g1(&g.mul(&BigNum::new_int(24)), &g, &bound), Ok(Some(BigInt::from_i64(24))));
    assert_eq!(baby_step_giant_step_g1(&g.mul(&BigNum::new_int(25)), &g, &bound), Ok(None));
    assert_eq!(baby_step_giant_step_g1(&g.mul(&BigNum::new_int(1000)), &g, &bound), Ok(None));
    let minus_25 = BigNum::modneg(&BigNum::new_int(25), &order);
    assert_eq!(baby_step_giant_step_g1(&g.mul(&minus_25), &g, &bound), Ok(None));
    let minus_24 = BigNum::modneg(&BigNum::new_int(24), &order);
    assert_eq!(baby_step_giant_step_g1(&g.mul(&minus_24), &g, &bound), Ok(Some(BigInt::from_i64(-24))));
}

#[test]
fn search_in_the_target_group_finds_negative_exponents() {
    let g = pairing(&G2::generator(), &G1::generator());
    let bound = BigNum::new_int(400);
    let k = BigNum::modneg(&BigNum::new_int(399), &curve_order());
    assert_eq!(baby_step_giant_step(&g.pow(&k), &g, &bound), Ok(Some(BigInt::from_i64(-399))));
    assert_eq!(baby_step_giant_step(&g.pow(&BigNum::new_int(400)), &g, &bound), Ok(Some(BigInt::from_i64(400))));
    assert_eq!(baby_step_giant_step(&g.pow(&BigNum::new_int(3)), &g, &BigNum::new_int(0)), Ok(None));
    assert_eq!(baby_step_giant_step(&g, &g, &BigNum::new_int(1)), Ok(Some(BigInt::from_i64(1))));
}
