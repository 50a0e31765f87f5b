use ruby::define::{curve_order, BigInt, BigNum, G1};
use ruby::dmcfe_ip::Dmcfe;
use ruby::error::FeError;
use ruby::math::matrix::{BigIntMatrix, BigNumMatrix2x2};
use ruby::quadratic_sgp::{Sgp, SgpPlain};
use ruby::simple_ip::Sip;
use ruby::traits::FunctionalEncryption;
use ruby::utils::rand_utils::{RandUtilsRAND, RandUtilsRng, Sample};

fn ints(a: &[i64]) -> Vec<BigInt> {
    a.iter().map(|v| BigInt::from_i64(*v)).collect()
}

#[test]
fn a_matrix_of_integers_holds_the_draws_row_by_row() {
    let seed = [21u8; 32];
    let low = BigInt::from_i64(-1000);
    let high = BigInt::from_i64(1000);
    let mut a = RandUtilsRng::get_seeded_rng(&seed);
    let mut b = RandUtilsRng::get_seeded_rng(&seed);
    let m = BigIntMatrix::new_random(2, 3, &low, &high, &mut a);
    let draws = b.sample_range_vec(6, &low, &high);
    assert_eq!(m.data, draws);
    assert_eq!(m.get_element(1, 0), &draws[3]);
    assert_eq!(a.sample(&high), b.sample(&high));
}

#[test]
fn the_secret_scalars_of_the_inner_product_scheme_are_the_first_draws() {
    const L: usize = 3;
    let seed = [22u8; 32];
    let order = curve_order();
    let mut a = RandUtilsRAND::get_seeded_rng(&seed);
    let mut b = RandUtilsRAND::get_seeded_rng(&seed);
    let (msk, mpk) = Sip::<L>::generate_sec_key(&mut a);
    let draws = b.sample_vec(L, &order);
    assert_eq!(msk.s(), &draws);
    for i in 0..L {
        assert_eq!(mpk.v()[i], G1::generator().mul(&draws[i]));
    }
    assert_eq!(a.sample(&order), b.sample(&order));

    let mut c = RandUtilsRAND::get_seeded_rng(&seed);
    let sip = Sip::<L>::new(&mut c);
    assert_eq!(sip.msk().s(), &draws);
}

#[test]
fn encryption_of_the_inner_product_scheme_takes_one_draw() {
    const L: usize = 2;
    let order = curve_order();
    let mut keys = RandUtilsRAND::get_seeded_rng(&[23u8; 32]);
    let sip = Sip::<L>::new(&mut keys);
    let seed = [24u8; 32];
    let mut a = RandUtilsRAND::get_seeded_rng(&seed);
    let mut b = RandUtilsRAND::get_seeded_rng(&seed);
    let x = ints(&[3, -4]);
    let ct = sip.encrypt(&x, &mut a).unwrap();
    let r = b.sample(&order);
    let by_hand = sip.encrypt_with_randomness(&x, &r).unwrap();
    assert_eq!(ct.c0(), by_hand.c0());
    assert_eq!(ct.c(), by_hand.c());
    assert_eq!(a.sample(&order), b.sample(&order));

    let short = ints(&[3]);
    let mut c = RandUtilsRAND::get_seeded_rng(&seed);
    assert_eq!(sip.encrypt(&short, &mut c).unwrap_err(), FeError::DimensionMismatch);
    let mut d = RandUtilsRAND::get_seeded_rng(&seed);
    let _ = d.sample(&order);
    assert_eq!(c.sample(&order), d.sample(&order));
}

#[test]
fn a_client_takes_three_draws() {
    const L: usize = 2;
    let seed = [25u8; 32];
    let order = curve_order();
    let mut a = RandUtilsRAND::get_seeded_rng(&seed);
    let mut b = RandUtilsRAND::get_seeded_rng(&seed);
    let client = Dmcfe::<L>::new_single(4, &mut a);
    let secret = b.sample(&order);
    let blinding = b.sample_vec(2, &order);
    assert_eq!(client.index(), 4);
    assert_eq!(client.client_pub_key(), G1::generator().mul(&secret));
    assert_eq!(client.blinding_scalars(), &blinding);
    assert_eq!(a.sample(&order), b.sample(&order));

    let mut c = RandUtilsRAND::get_seeded_rng(&seed);
    let single = Dmcfe::<L>::new(&mut c);
    assert_eq!(single.index(), 0);
    assert_eq!(single.client_pub_key(), client.client_pub_key());
    assert_eq!(single.blinding_scalars(), &blinding);

    let mut d = RandUtilsRAND::get_seeded_rng(&seed);
    let mut e = RandUtilsRAND::get_seeded_rng(&seed);
    let _ = single.encrypt(&ints(&[1, 2]), &mut d).unwrap();
    assert_eq!(d.sample(&order), e.sample(&order));
}

#[test]
fn the_secret_vectors_of_the_quadratic_scheme_are_the_first_draws() {
    const L: usize = 2;
    let seed = [26u8; 32];
    let order = curve_order();
    let mut a = RandUtilsRAND::get_seeded_rng(&seed);
    let mut b = RandUtilsRAND::get_seeded_rng(&seed);
    let (msk, _pk) = Sgp::<L>::generate_sec_key(&mut a);
    let s = b.sample_vec(L, &order);
    let t = b.sample_vec(L, &order);
    assert_eq!(msk.s(), &s);
    assert_eq!(msk.t(), &t);
    assert_eq!(a.sample(&order), b.sample(&order));

    let mut c = RandUtilsRAND::get_seeded_rng(&seed);
    let sgp = Sgp::<L>::new(&mut c);
    assert_eq!(sgp.msk().s(), &s);
    assert_eq!(sgp.msk().t(), &t);
}

#[test]
fn encryption_of_the_quadratic_scheme_takes_a_scalar_and_then_a_matrix() {
    const L: usize = 2;
    let order = curve_order();
    let mut keys = RandUtilsRAND::get_seeded_rng(&[27u8; 32]);
    let sgp = Sgp::<L>::new(&mut keys);
    let seed = [28u8; 32];
    let mut a = RandUtilsRAND::get_seeded_rng(&seed);
    let mut b = RandUtilsRAND::get_seeded_rng(&seed);
    let plain = SgpPlain::<L> { x: ints(&[1, 2]), y: ints(&[3, -4]) };
    let ct = sgp.encrypt(&plain, &mut a).unwrap();
    let gamma = b.sample(&order);
    let w = BigNumMatrix2x2::new_random(&order, &mut b);
    assert_ne!(w.determinant(&order), BigNum::new_int(0));
    let by_hand = sgp.encrypt_with_randomness(&plain, &w, &gamma).unwrap();
    assert_eq!(ct.g1_mul_gamma(), by_hand.g1_mul_gamma());
    assert_eq!(ct.a(), by_hand.a());
    assert_eq!(ct.b(), by_hand.b());
    assert_eq!(a.sample(&order), b.sample(&order));

    let short = SgpPlain::<L> { x: ints(&[1]), y: ints(&[3, -4]) };
    let mut c = RandUtilsRAND::get_seeded_rng(&seed);
    let mut d = RandUtilsRAND::get_seeded_rng(&seed);
    assert_eq!(sgp.encrypt(&short, &mut c).unwrap_err(), FeError::DimensionMismatch);
    assert_eq!(c.sample(&order), d.sample(&order));
}
