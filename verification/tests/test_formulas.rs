use ruby::define::{curve_order, modulus, BigInt, BigNum};
use ruby::dmcfe_ip::Dmcfe;
use ruby::group::{G1, G2};
use ruby::math::matrix::{BigIntMatrix, BigNumMatrix2x2};
use ruby::quadratic_sgp::{Sgp, SgpPlain};
use ruby::simple_ip::Sip;
use ruby::traits::FunctionalEncryption;
use ruby::utils::rand_utils::RandUtilsRAND;
use ruby::utils::{hash_to_g1, hash_to_g2, quadratic_result, reduce, to_scalar};

fn ints(v: &[i64]) -> Vec<BigInt> {
    v.iter().map(|a| BigInt::from_i64(*a)).collect()
}

fn as_integers(v: &[BigNum]) -> Vec<BigInt> {
    v.iter().map(|a| a.to_bigint()).collect()
}

#[test]
fn sip_keys_ciphertext_and_key_follow_their_formulas() {
    const L: usize = 3;
    let order = curve_order();
    let g = G1::generator();
    let mut keys = RandUtilsRAND::get_seeded_rng(&[51u8; 32]);
    let sip = Sip::<L>::new(&mut keys);
    let s = sip.msk().s();
    let v = sip.mpk().v();
    assert_eq!((s.len(), v.len()), (L, L));
    for i in 0..L {
        assert_eq!(BigNum::comp(&s[i], &order), -1);
        assert_eq!(v[i], g.mul(&s[i]));
    }
    let x = ints(&[4, -7, 0]);
    let r = BigNum::new_int(987654321);
    let ct = sip.encrypt_with_randomness(&x, &r).unwrap();
    assert_eq!(ct.c0(), g.mul(&r));
    assert_eq!(ct.c().len(), L);
    for i in 0..L {
        assert_eq!(ct.c()[i], g.mul(&to_scalar(&x[i])).add(&v[i].mul(&r)));
    }
    let y = ints(&[-1, 2, 3]);
    let dk = sip.derive_fe_key(&y).unwrap();
    let mut sum = BigNum::new();
    for i in 0..L {
        assert_eq!(dk.y()[i], to_scalar(&y[i]));
        sum = BigNum::modadd(&sum, &BigNum::modmul(&to_scalar(&y[i]), &s[i], &order), &order);
    }
    assert_eq!(dk.dk(), sum);
    // the target of decryption is the generator times the inner product
    let mut target = G1::new();
    for i in 0..L {
        target = target.add(&ct.c()[i].mul(&dk.y()[i]));
    }
    target = target.sub(&ct.c0().mul(&dk.dk()));
    assert_eq!(target, g.mul(&to_scalar(&BigInt::from_i64(-18))));
}

#[test]
fn dmcfe_ciphertext_and_key_share_follow_their_formulas() {
    const L: usize = 2;
    let order = curve_order();
    let mut keys = RandUtilsRAND::get_seeded_rng(&[52u8; 32]);
    let mut clients: Vec<Dmcfe<L>> = (0..L).map(|i| Dmcfe::<L>::new_single(i, &mut keys)).collect();
    let pub_keys: Vec<G1> = clients.iter().map(|c| c.client_pub_key()).collect();
    for c in clients.iter_mut() {
        c.set_share(&pub_keys);
    }
    let c = &clients[1];
    let s = c.blinding_scalars();
    assert_eq!(s.len(), 2);
    let x = BigInt::from_i64(-9);
    let cipher = c.encrypt_single(&x, "tag");
    let expected = G1::new()
        .add(&hash_to_g1("0 tag").mul(&s[0]))
        .add(&hash_to_g1("1 tag").mul(&s[1]))
        .add(&G1::generator().mul(&to_scalar(&x)));
    assert_eq!(cipher, expected);

    let y = ints(&[255, -16]);
    let share = c.derive_fe_key_share(&y).unwrap();
    let hs0 = hash_to_g2("0  ff -10");
    let hs1 = hash_to_g2("1  ff -10");
    for p in 0..2 {
        let m0 = BigNum::from_bigint(c.share_matrix().get_element(p, 0)).unwrap();
        let m1 = BigNum::from_bigint(c.share_matrix().get_element(p, 1)).unwrap();
        let own = BigNum::modmul(&to_scalar(&y[1]), &s[p], &order);
        let expected = G2::new().add(&hs0.mul(&m0)).add(&hs1.mul(&m1)).add(&G2::generator().mul(&own));
        assert_eq!(share[p], expected);
    }
    let other = clients[0].derive_fe_key_share(&y).unwrap();
    let dk = c.key_comb(&[other.clone(), share.clone()], &y).unwrap();
    assert_eq!(dk.key().len(), 2);
    for p in 0..2 {
        assert_eq!(dk.key()[p], G2::new().add(&other[p]).add(&share[p]));
    }
    assert_eq!(dk.y().clone(), vec![to_scalar(&y[0]), to_scalar(&y[1])]);
}

#[test]
fn sgp_keys_ciphertext_and_key_follow_their_formulas() {
    const L: usize = 2;
    let order = curve_order();
    let mut keys = RandUtilsRAND::get_seeded_rng(&[53u8; 32]);
    let sgp = Sgp::<L>::new(&mut keys);
    let s = sgp.msk().s();
    let t = sgp.msk().t();
    for i in 0..L {
        assert_eq!(sgp.pk().g1s()[i], G1::generator().mul(&s[i]));
        assert_eq!(sgp.pk().g2t()[i], G2::generator().mul(&t[i]));
    }
    let x = ints(&[3, -2]);
    let y = ints(&[-5, 1]);
    let w = BigNumMatrix2x2::new_with_data(&[
        BigNum::new_int(2),
        BigNum::new_int(4),
        BigNum::new_int(3),
        BigNum::new_int(7),
    ])
    .unwrap();
    let gamma = BigNum::new_int(1234567);
    let plain = SgpPlain::<L> { x: x.clone(), y: y.clone() };
    let ct = sgp.encrypt_with_randomness(&plain, &w, &gamma).unwrap();
    assert_eq!(ct.g1_mul_gamma(), G1::generator().mul(&gamma));
    let mut wit = w.invmod(&order).unwrap();
    wit.transpose();
    assert_eq!((ct.a().len(), ct.b().len()), (2 * L, 2 * L));
    for i in 0..L {
        let xs = to_scalar(&x[i]);
        let ys = to_scalar(&y[i]);
        for k in 0..2 {
            let a = G1::generator()
                .mul(&BigNum::modmul(wit.get_element(k, 0), &xs, &order))
                .add(&sgp.pk().g1s()[i].mul(&BigNum::modmul(wit.get_element(k, 1), &gamma, &order)));
            assert_eq!(ct.a()[2 * i + k], a);
            let minus = BigNum::modneg(w.get_element(k, 1), &order);
            let b = G2::generator()
                .mul(&BigNum::modmul(w.get_element(k, 0), &ys, &order))
                .add(&sgp.pk().g2t()[i].mul(&minus));
            assert_eq!(ct.b()[2 * i + k], b);
        }
    }
    // the key: the generator times the form on the secrets
    let f = BigIntMatrix::new_ints(&[1, -2, 3, 4], 2, 2).unwrap();
    let dk = sgp.derive_fe_key(&f).unwrap();
    let form = quadratic_result(&as_integers(s), &as_integers(t), &f).unwrap();
    let scalar = BigNum::from_bigint(&reduce(&form, &modulus())).unwrap();
    assert_eq!(dk.key(), G2::generator().mul(&scalar));
    assert_eq!(*dk.f().get_element(0, 1), to_scalar(&BigInt::from_i64(-2)));
    assert_eq!((dk.f().n_rows, dk.f().n_cols), (2, 2));

    // projection: each point is the combination of the points of the coordinates
    let p = BigIntMatrix::new_ints(&[2, -1], 2, 1).unwrap();
    let projected = sgp.project(&ct, &p).unwrap();
    assert_eq!(projected.g1_mul_gamma(), ct.g1_mul_gamma());
    assert_eq!((projected.a().len(), projected.b().len()), (2, 2));
    let two = to_scalar(&BigInt::from_i64(2));
    let minus_one = to_scalar(&BigInt::from_i64(-1));
    for k in 0..2 {
        assert_eq!(projected.a()[k], G1::new().add(&ct.a()[k].mul(&two)).add(&ct.a()[2 + k].mul(&minus_one)));
        assert_eq!(projected.b()[k], G2::new().add(&ct.b()[k].mul(&two)).add(&ct.b()[2 + k].mul(&minus_one)));
    }
    // the projected key: the form on the projected secrets
    let q = BigIntMatrix::new_ints(&[-3], 1, 1).unwrap();
    let pdk = sgp.derive_fe_key_projected(&q, &p).unwrap();
    let row_s = BigIntMatrix::new_bigints(&as_integers(s), 1, 2).unwrap().matmul(&p).unwrap();
    let row_t = BigIntMatrix::new_bigints(&as_integers(t), 1, 2).unwrap().matmul(&p).unwrap();
    let sp = vec![row_s.get_element(0, 0).copy()];
    let tp = vec![row_t.get_element(0, 0).copy()];
    let form = quadratic_result(&sp, &tp, &q).unwrap();
    let scalar = BigNum::from_bigint(&reduce(&form, &modulus())).unwrap();
    assert_eq!(pdk.key(), G2::generator().mul(&scalar));
}
