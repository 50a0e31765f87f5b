use miracl_core::bls12381::big::BIG;
use miracl_core::bls12381::ecp::ECP;
use miracl_core::bls12381::ecp2::ECP2;
use miracl_core::bls12381::pair;
use miracl_core::hash256::HASH256;
use rand::RngCore;
use rand::SeedableRng;
use ruby::define::{big_from_be_bytes, BigInt, BigNum};
use ruby::dmcfe_ip::Dmcfe;
use ruby::group::{bytes_equal, pairing, tag_bytes, G1, G2};
use ruby::math::matrix::BigIntMatrix2x2;
use ruby::utils::rand_utils::RandUtilsRAND;
use ruby::utils::{hash_bytes_to_g1, hash_bytes_to_g2, hash_to_g1, indexed_label_bytes, joined_text_bytes, to_scalar};

fn digest_of(data: &[u8]) -> [u8; 32] {
    let mut h = HASH256::new();
    h.process_array(data);
    h.hash()
}

#[test]
fn hashing_to_the_first_group_is_the_digest_mapped_to_the_curve() {
    let digest = digest_of(b"abc");
    // the digest of "abc" is the one of the standard
    assert_eq!(digest[..4], [0xba, 0x78, 0x16, 0xbf]);
    let mut expected = [0u8; 97];
    ECP::mapit(&digest).tobytes(&mut expected, false);
    assert_eq!(hash_to_g1("abc").to_bytes(), expected);
    assert_eq!(hash_bytes_to_g1(b"abc").to_bytes(), expected);
    let mut expected2 = [0u8; 193];
    ECP2::mapit(&digest).tobytes(&mut expected2, false);
    assert_eq!(hash_bytes_to_g2(b"abc").to_bytes(), expected2);
}

#[test]
fn compressed_encoding_is_that_of_the_curve_library() {
    let p = G1::generator().mul(&BigNum::new_int(77));
    let mut expected = [0u8; 49];
    ECP::generator().mul(&BIG::new_int(77)).tobytes(&mut expected, true);
    assert_eq!(p.to_compressed(), expected);
    assert_eq!(p.to_compressed()[1..], p.to_bytes()[1..49]);
    assert_ne!(p.to_compressed(), G1::generator().to_compressed());
}

#[test]
fn pairing_is_that_of_the_curve_library() {
    let a = BigNum::new_int(5);
    let p = G1::generator().mul(&a);
    let q = G2::generator().mul(&BigNum::new_int(9));
    let mut e = pair::fexp(&pair::ate(&ECP2::generator().mul(&BIG::new_int(9)), &ECP::generator().mul(&BIG::new_int(5))));
    e.reduce();
    let mut expected = [0u8; 576];
    e.tobytes(&mut expected);
    assert_eq!(pairing(&q, &p).to_bytes(), expected);
}

#[test]
fn share_matrix_expands_the_stream_of_the_generator() {
    let seed = [42u8; 32];
    let mut stream = [0u8; 128];
    rand_chacha::ChaCha20Rng::from_seed(seed).fill_bytes(&mut stream);
    let m = BigIntMatrix2x2::new_random_deterministic(&seed);
    for a in 0..2 {
        for b in 0..2 {
            let k = a * 2 + b;
            let expected = num_bigint::BigInt::from_bytes_be(num_bigint::Sign::Plus, &stream[32 * k..32 * k + 32]);
            assert_eq!(*m.get_element(a, b), BigInt::from_signed_bytes_be(&expected.to_signed_bytes_be()));
        }
    }
}

#[test]
fn integers_from_and_to_bytes() {
    assert_eq!(BigInt::from_signed_bytes_be(&[0xff]), BigInt::from_i64(-1));
    assert_eq!(BigInt::from_signed_bytes_be(&[0x00, 0xff]), BigInt::from_i64(255));
    assert_eq!(BigInt::from_signed_bytes_be(&[0xff, 0x00]), BigInt::from_i64(-256));
    assert_eq!(BigInt::from_signed_bytes_be(&[]), BigInt::from_i64(0));
    assert_eq!(BigInt::from_signed_bytes_be(&[0, 0, 0, 1]), BigInt::from_i64(1));
    assert_eq!(BigInt::from_i64(-129).to_signed_bytes_be(), vec![0xff, 0x7f]);
    assert_eq!(BigInt::from_i64(128).to_signed_bytes_be(), vec![0x00, 0x80]);
    let back = BigInt::from_signed_bytes_be(&BigInt::from_i64(-123456789).to_signed_bytes_be());
    assert_eq!(back, BigInt::from_i64(-123456789));
}

#[test]
fn scalars_from_bytes() {
    assert_eq!(big_from_be_bytes(&[]), Some(BigNum::new_int(0)));
    assert_eq!(big_from_be_bytes(&[1, 0]), Some(BigNum::new_int(256)));
    assert_eq!(big_from_be_bytes(&[0, 0, 0, 7]), Some(BigNum::new_int(7)));
    let mut long = vec![0u8; 60];
    long[59] = 9;
    assert_eq!(big_from_be_bytes(&long), Some(BigNum::new_int(9)));
    long[12] = 1;
    // the byte at the place 47 from the end: the largest place of a scalar
    assert_eq!(big_from_be_bytes(&long).map(|v| v.to_bytes()[0]), Some(1));
    long[11] = 1;
    assert_eq!(big_from_be_bytes(&long), None);
    assert_eq!(big_from_be_bytes(&[255u8; 48]).map(|v| v.to_bytes()), Some([255u8; 48]));
    assert_eq!(big_from_be_bytes(&[1u8; 49]), None);
    let mut bytes = [0u8; 48];
    bytes[47] = 3;
    bytes[46] = 1;
    assert_eq!(BigNum::from_bytes(bytes), BigNum::new_int(259));
    assert_eq!(BigNum::from_u64(u64::MAX).to_bigint().to_u64(), Some(u64::MAX));
}

#[test]
fn scalars_of_plaintexts() {
    let order = ruby::define::curve_order();
    assert_eq!(to_scalar(&BigInt::from_i64(5)), BigNum::new_int(5));
    assert_eq!(to_scalar(&BigInt::from_i64(0)), BigNum::new_int(0));
    assert_eq!(to_scalar(&BigInt::from_i64(-5)), BigNum::modneg(&BigNum::new_int(5), &order));
    assert_eq!(to_scalar(&order.to_bigint()), BigNum::new_int(0));
    assert_eq!(to_scalar(&order.to_bigint().plus(&BigInt::from_i64(3))), BigNum::new_int(3));
}

#[test]
fn labels_and_texts() {
    assert_eq!(indexed_label_bytes(0, b"dmcfe-label"), b"0 dmcfe-label".to_vec());
    assert_eq!(indexed_label_bytes(1, b""), b"1 ".to_vec());
    let y = vec![BigInt::from_i64(255), BigInt::from_i64(-16), BigInt::from_i64(0)];
    assert_eq!(joined_text_bytes(&y), b" ff -10 0".to_vec());
    assert_eq!(joined_text_bytes(&[]), Vec::<u8>::new());
}

#[test]
fn tags_and_equality_of_encodings() {
    assert_eq!(tag_bytes(&[1, 2, 3]), 0);
    assert_eq!(tag_bytes(&[1, 2, 3, 4, 5, 6, 7, 8]), 0x0102030405060708);
    assert_eq!(tag_bytes(&[9, 1, 2, 3, 4, 5, 6, 7, 8]), 0x0102030405060708);
    assert!(bytes_equal(&[1, 2, 3], &[1, 2, 3]));
    assert!(!bytes_equal(&[1, 2, 3], &[1, 2, 4]));
    assert!(!bytes_equal(&[1, 2, 3], &[1, 2]));
    assert!(bytes_equal(&[], &[]));
}

#[test]
fn key_shares_depend_on_the_whole_vector() {
    const L: usize = 2;
    let mut keys = RandUtilsRAND::get_seeded_rng(&[31u8; 32]);
    let mut clients: Vec<Dmcfe<L>> = (0..L).map(|i| Dmcfe::<L>::new_single(i, &mut keys)).collect();
    let pub_keys: Vec<G1> = clients.iter().map(|c| c.client_pub_key()).collect();
    for c in clients.iter_mut() {
        c.set_share(&pub_keys);
    }
    let y = vec![BigInt::from_i64(1), BigInt::from_i64(2)];
    let z = vec![BigInt::from_i64(1), BigInt::from_i64(3)];
    // the coordinate of the client 0 is the same, the points of the vector are not
    let a = clients[0].derive_fe_key_share(&y).unwrap();
    let b = clients[0].derive_fe_key_share(&z).unwrap();
    assert_ne!(a, b);
    assert_eq!(a, clients[0].derive_fe_key_share(&y).unwrap());
}
