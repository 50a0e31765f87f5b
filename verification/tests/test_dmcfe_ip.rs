use ruby::define::{modulus, BigInt, BigNum};
use ruby::dmcfe_ip::Dmcfe;
use ruby::error::FeError;
use ruby::group::{G1Vector, G2Vector, G1, G2};
use ruby::traits::FunctionalEncryption;
use ruby::utils::inner_product_result;
use ruby::utils::rand_utils::{RandUtilsRAND, RandUtilsRng, Sample};
use std::time::Instant;

#[test]
fn test_dmcfe_5() {
    let mut rng = RandUtilsRng::new();
    let mut keys = RandUtilsRAND::new();
    const L: usize = 5;
    let bound = BigInt::from_i64(100);
    let low = BigInt::from_i64(-100);
    let high = bound.copy();
    let mut clients: Vec<Dmcfe<L>> = Vec::with_capacity(L);
    let mut pub_keys: Vec<G1> = Vec::with_capacity(L);
    let mut ciphers: Vec<G1> = Vec::with_capacity(L);
    let mut fe_key: Vec<G2Vector> = Vec::with_capacity(L);
    let mut temp: G1;

    for i in 0..L {
        clients.push(Dmcfe::<L>::new_single(i, &mut keys));
    }

    for i in 0..L {
        temp = clients[i].client_pub_key();
        pub_keys.push(temp);
    }

    for i in 0..L {
        clients[i].set_share(&pub_keys);
    }

    let label = "dmcfe-label";
    let x: Vec<BigInt> = rng.sample_range_vec(L, &low, &high);
    let y: Vec<BigInt> = rng.sample_range_vec(L, &low, &high);
    let plain_result = inner_product_result(&x, &y).unwrap();
    println!("Groud truth: {:?}", plain_result);

    for i in 0..L {
        ciphers.push(clients[i].encrypt_single(&x[i], label));
        fe_key.push(clients[i].derive_fe_key_share(&y).unwrap());
    }
    println!("decrypt starts");
    let now = Instant::now();
    let dk = clients[0].key_comb(&fe_key, &y).unwrap();
    let xy = clients[0].decrypt_with_label(&ciphers, &dk, &bound, label).unwrap();
    let elapsed = now.elapsed();
    println!("Elapsed: {:.2?}", elapsed);

    assert!(xy.is_some());
    assert_eq!(xy.unwrap(), plain_result);
}

#[test]
fn test_dmcfe_single_client() {
    let mut rng = RandUtilsRng::new();
    let mut keys = RandUtilsRAND::new();
    const L: usize = 1;
    let bound = BigInt::from_i64(100);
    let low = BigInt::from_i64(-100);
    let high = bound.copy();

    let x: Vec<BigInt> = rng.sample_range_vec(L, &low, &high);
    let y: Vec<BigInt> = rng.sample_range_vec(L, &low, &high);
    let plain_result = inner_product_result(&x, &y).unwrap();
    println!("Groud truth: {:?}", plain_result);

    let client = Dmcfe::<L>::new(&mut keys);

    let now = Instant::now();
    let ciphers: G1Vector = client.encrypt(&x, &mut keys).unwrap();
    let elapsed = now.elapsed();
    println!("[DMCFE Encrypt]: {:.2?}", elapsed);

    let now = Instant::now();
    let dk = client.derive_fe_key(&y).unwrap();
    let elapsed = now.elapsed();
    println!("[DMCFE Derive]: {:.2?}", elapsed);

    let now = Instant::now();
    let xy = client.decrypt(&ciphers, &dk, &bound).unwrap();
    let elapsed = now.elapsed();
    println!("[DMCFE Decrypt]: {:.2?}", elapsed);

    assert!(xy.is_some());
    assert_eq!(xy.unwrap(), plain_result);
}

fn handshake<const L: usize>(keys: &mut RandUtilsRAND) -> Vec<Dmcfe<L>> {
    let mut clients: Vec<Dmcfe<L>> = Vec::new();
    for i in 0..L {
        clients.push(Dmcfe::<L>::new_single(i, keys));
    }
    let pub_keys: Vec<G1> = clients.iter().map(|c| c.client_pub_key()).collect();
    for c in clients.iter_mut() {
        c.set_share(&pub_keys);
    }
    clients
}

#[test]
fn dmcfe_pipeline_with_fixed_plaintexts() {
    const L: usize = 5;
    let mut keys = RandUtilsRAND::get_seeded_rng(&[11u8; 32]);
    let clients = handshake::<L>(&mut keys);
    let x: Vec<BigInt> = [100, -100, 7, 0, -31].iter().map(|v| BigInt::from_i64(*v)).collect();
    let y: Vec<BigInt> = [-100, -100, 9, 55, 2].iter().map(|v| BigInt::from_i64(*v)).collect();
    // -10000 + 10000 + 63 + 0 - 62
    let expected = BigInt::from_i64(1);
    assert_eq!(inner_product_result(&x, &y).unwrap(), expected);
    let label = "round 1";
    let ciphers: Vec<G1> = (0..L).map(|i| clients[i].encrypt_single(&x[i], label)).collect();
    let shares: Vec<G2Vector> = (0..L).map(|i| clients[i].derive_fe_key_share(&y).unwrap()).collect();
    let dk = clients[3].key_comb(&shares, &y).unwrap();
    let bound = BigInt::from_i64(100);
    assert_eq!(clients[3].decrypt_with_label(&ciphers, &dk, &bound, label), Ok(Some(expected)));
    // another label at decryption: the blinding does not cancel
    let other = clients[3].decrypt_with_label(&ciphers, &dk, &bound, "round 2").unwrap();
    assert_eq!(other, None);
}

#[test]
fn dmcfe_key_of_repeated_shares_does_not_decrypt() {
    // the key has to hold the share of every client: only then the share matrices cancel
    const L: usize = 2;
    let mut keys = RandUtilsRAND::get_seeded_rng(&[12u8; 32]);
    let clients = handshake::<L>(&mut keys);
    let x = vec![BigInt::from_i64(3), BigInt::from_i64(4)];
    let y = vec![BigInt::from_i64(5), BigInt::from_i64(6)];
    let label = "l";
    let ciphers: Vec<G1> = (0..L).map(|i| clients[i].encrypt_single(&x[i], label)).collect();
    let shares: Vec<G2Vector> = (0..L).map(|i| clients[i].derive_fe_key_share(&y).unwrap()).collect();
    let dk = clients[0].key_comb(&shares, &y).unwrap();
    assert_eq!(
        clients[0].decrypt_with_label(&ciphers, &dk, &BigInt::from_i64(6), label),
        Ok(Some(BigInt::from_i64(39)))
    );
    // a key made of one share repeated is no key
    let wrong = vec![shares[0].clone(), shares[0].clone()];
    let dk = clients[0].key_comb(&wrong, &y).unwrap();
    assert_eq!(clients[0].decrypt_with_label(&ciphers, &dk, &BigInt::from_i64(6), label), Ok(None));
}

#[test]
fn dmcfe_share_matrices_sum_to_zero() {
    for count in [1usize, 2, 3, 5, 8] {
        let mut keys = RandUtilsRAND::get_seeded_rng(&[13u8; 32]);
        let mut clients: Vec<Dmcfe<8>> = (0..count).map(|i| Dmcfe::<8>::new_single(i, &mut keys)).collect();
        let pub_keys: Vec<G1> = clients.iter().map(|c| c.client_pub_key()).collect();
        for c in clients.iter_mut() {
            c.set_share(&pub_keys);
        }
        let order = modulus();
        let zero = BigInt::from_i64(0);
        for a in 0..2 {
            for b in 0..2 {
                let mut sum = BigInt::from_i64(0);
                for c in clients.iter() {
                    let e = c.share_matrix().get_element(a, b);
                    assert!(BigInt::comp(e, &zero) >= 0 && BigInt::comp(e, &order) < 0);
                    sum = sum.plus(e);
                }
                assert_eq!(sum.mod_floor(&order), zero);
            }
        }
        if count > 1 {
            // the matrices themselves are not zero
            assert_ne!(clients[0].share_matrix().get_element(0, 0), &zero);
            assert_ne!(clients[0].share_matrix().get_element(0, 0), clients[1].share_matrix().get_element(0, 0));
        } else {
            assert_eq!(clients[0].share_matrix().get_element(0, 0), &zero);
        }
    }
}

#[test]
fn dmcfe_two_clients_hold_opposite_matrices() {
    const L: usize = 2;
    let mut keys = RandUtilsRAND::get_seeded_rng(&[17u8; 32]);
    let clients = handshake::<L>(&mut keys);
    let order = modulus();
    for a in 0..2 {
        for b in 0..2 {
            // the client 0 subtracts what the client 1 adds
            let m0 = clients[0].share_matrix().get_element(a, b);
            let m1 = clients[1].share_matrix().get_element(a, b);
            assert_eq!(*m0, order.minus(m1));
        }
    }
}

#[test]
fn dmcfe_handshake_changes_only_the_share_matrix() {
    const L: usize = 3;
    let mut keys = RandUtilsRAND::get_seeded_rng(&[14u8; 32]);
    let mut a = Dmcfe::<L>::new_single(1, &mut keys);
    let before = a.client_pub_key();
    let y = vec![BigInt::from_i64(1), BigInt::from_i64(2), BigInt::from_i64(3)];
    let share_before = a.derive_fe_key_share(&y).unwrap();
    let others = vec![G1::generator(), before, G1::generator().mul(&BigNum::new_int(7))];
    a.set_share(&others);
    assert_eq!(a.client_pub_key(), before);
    assert_eq!(a.index(), 1);
    let share_after = a.derive_fe_key_share(&y).unwrap();
    assert_ne!(share_before, share_after);
    // a list that holds the client alone leaves the matrix as it is
    let mut b = Dmcfe::<L>::new_single(0, &mut keys);
    let s0 = b.derive_fe_key_share(&y).unwrap();
    let own = vec![b.client_pub_key()];
    b.set_share(&own);
    assert_eq!(b.derive_fe_key_share(&y).unwrap(), s0);
    b.set_share(&[]);
    assert_eq!(b.derive_fe_key_share(&y).unwrap(), s0);
}

#[test]
fn dmcfe_rejects_what_does_not_fit() {
    const L: usize = 2;
    let mut keys = RandUtilsRAND::get_seeded_rng(&[15u8; 32]);
    let clients = handshake::<L>(&mut keys);
    let y = vec![BigInt::from_i64(5), BigInt::from_i64(6)];
    let short = vec![BigInt::from_i64(5)];
    assert_eq!(clients[0].derive_fe_key_share(&short).err(), Some(FeError::DimensionMismatch));
    assert_eq!(clients[0].encrypt_with_label(&short, "l").err(), Some(FeError::DimensionMismatch));
    assert_eq!(clients[0].encrypt(&short, &mut keys).err(), Some(FeError::DimensionMismatch));
    assert_eq!(clients[0].derive_fe_key(&short).err(), Some(FeError::DimensionMismatch));
    let far = Dmcfe::<L>::new_single(2, &mut keys);
    assert_eq!(far.derive_fe_key_share(&y).err(), Some(FeError::DimensionMismatch));
    let shares: Vec<G2Vector> = (0..L).map(|i| clients[i].derive_fe_key_share(&y).unwrap()).collect();
    assert_eq!(clients[0].key_comb(&shares[..1], &y).err(), Some(FeError::DimensionMismatch));
    assert_eq!(clients[0].key_comb(&shares, &short).err(), Some(FeError::DimensionMismatch));
    let broken = vec![shares[0].clone(), vec![G2::generator()]];
    assert_eq!(clients[0].key_comb(&broken, &y).err(), Some(FeError::DimensionMismatch));
    let dk = clients[0].key_comb(&shares, &y).unwrap();
    let one = vec![G1::generator()];
    assert_eq!(
        clients[0].decrypt_with_label(&one, &dk, &BigInt::from_i64(6), "l"),
        Err(FeError::DimensionMismatch)
    );
    let ciphers: Vec<G1> = (0..L).map(|i| clients[i].encrypt_single(&y[i], "l")).collect();
    assert_eq!(
        clients[0].decrypt_with_label(&ciphers, &dk, &BigInt::from_i64(1 << 30), "l"),
        Err(FeError::BoundTooLarge)
    );
}
