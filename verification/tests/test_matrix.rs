use ruby::define::{curve_order, modulus, BigInt, BigNum};
use ruby::error::FeError;
use ruby::math::matrix::{convert, BigIntMatrix, BigIntMatrix2x2, BigNumMatrix, BigNumMatrix2x2};
use ruby::utils::rand_utils::{RandUtilsRAND, RandUtilsRng};
use ruby::utils::{inner_product_result, quadratic_result};

fn n(v: isize) -> BigNum {
    BigNum::new_int(v)
}

fn i(v: i64) -> BigInt {
    BigInt::from_i64(v)
}

#[test]
fn bignum_matrix_construction_and_access() {
    let m = n(101);
    let z = BigNumMatrix::new(2, 3, &m);
    assert_eq!((z.n_rows, z.n_cols), (2, 3));
    assert_eq!(z.data.len(), 6);
    assert!(z.data.iter().all(|e| e.iszilch()));
    let a = BigNumMatrix::new_ints(&[1, 2, 3, 4, 5, -6], 2, 3, &m).unwrap();
    assert_eq!(*a.get_element(0, 0), n(1));
    assert_eq!(*a.get_element(0, 2), n(3));
    assert_eq!(*a.get_element(1, 0), n(4));
    // a negative integer is held by its canonical representative
    assert_eq!(*a.get_element(1, 2), n(95));
    let mut b = BigNumMatrix::new_bigints(&[n(7), n(8), n(9), n(10)], 2, 2, &m).unwrap();
    assert_eq!(*b.get_element(1, 0), n(9));
    b.set_element(1, 0, &n(55));
    assert_eq!(*b.get_element(1, 0), n(55));
    assert_eq!(*b.get_element(0, 0), n(7));
    assert_eq!(*b.get_element(0, 1), n(8));
    assert_eq!(*b.get_element(1, 1), n(10));
}

#[test]
fn bignum_matrix_rejects_data_of_another_length() {
    let m = n(101);
    assert_eq!(BigNumMatrix::new_ints(&[1, 2, 3], 2, 2, &m).err(), Some(FeError::DimensionMismatch));
    assert_eq!(BigNumMatrix::new_ints(&[1, 2, 3, 4, 5], 2, 2, &m).err(), Some(FeError::DimensionMismatch));
    assert_eq!(BigNumMatrix::new_bigints(&[n(1)], 1, 2, &m).err(), Some(FeError::DimensionMismatch));
    assert_eq!(BigNumMatrix::new_ints(&[], usize::MAX, 2, &m).err(), Some(FeError::DimensionMismatch));
    assert!(BigNumMatrix::new_ints(&[], 0, 5, &m).is_ok());
    assert_eq!(BigIntMatrix::new_ints(&[1, 2, 3], 2, 2).err(), Some(FeError::DimensionMismatch));
    assert_eq!(BigIntMatrix::new_bigints(&[i(1)], 2, 2).err(), Some(FeError::DimensionMismatch));
}

#[test]
fn bignum_matrix_product_and_transpose() {
    let m = n(7);
    let a = BigNumMatrix::new_ints(&[1, 2, 3, 4, 5, 6], 2, 3, &m).unwrap();
    let b = BigNumMatrix::new_ints(&[1, 2, 3, 4, 5, 6], 3, 2, &m).unwrap();
    // over the integers: [[22, 28], [49, 64]]
    let p = a.matmul(&b).unwrap();
    assert_eq!((p.n_rows, p.n_cols), (2, 2));
    assert_eq!(*p.get_element(0, 0), n(1));
    assert_eq!(*p.get_element(0, 1), n(0));
    assert_eq!(*p.get_element(1, 0), n(0));
    assert_eq!(*p.get_element(1, 1), n(1));
    assert_eq!(a.matmul(&a).err(), Some(FeError::DimensionMismatch));
    let t = a.transpose();
    assert_eq!((t.n_rows, t.n_cols), (3, 2));
    assert_eq!(*t.get_element(0, 1), n(4));
    assert_eq!(*t.get_element(2, 0), n(3));
    assert_eq!(*t.get_element(2, 1), n(6));
    assert_eq!(t.transpose().data, a.data);
}

#[test]
fn two_by_two_determinant_and_inverse() {
    let p = n(101);
    let w = BigNumMatrix2x2::new_with_data(&[n(3), n(8), n(4), n(6)]).unwrap();
    // 18 - 32 = -14 = 87 mod 101
    assert_eq!(w.determinant(&p), n(87));
    let inv = w.invmod(&p).unwrap();
    // the product with the inverse is the identity
    let a = BigNumMatrix::new_bigints(&[n(3), n(8), n(4), n(6)], 2, 2, &p).unwrap();
    let b = BigNumMatrix::new_bigints(
        &[*inv.get_element(0, 0), *inv.get_element(0, 1), *inv.get_element(1, 0), *inv.get_element(1, 1)],
        2,
        2,
        &p,
    )
    .unwrap();
    let one = a.matmul(&b).unwrap();
    assert_eq!(one.data, vec![n(1), n(0), n(0), n(1)]);
    // 87^-1 = 36 mod 101: 87 * 36 = 3132 = 31 * 101 + 1
    assert_eq!(*inv.get_element(0, 0), n(6 * 36 % 101));
    assert_eq!(*inv.get_element(0, 1), n((101 - 8) * 36 % 101));
    assert_eq!(*inv.get_element(1, 0), n((101 - 4) * 36 % 101));
    assert_eq!(*inv.get_element(1, 1), n(3 * 36 % 101));
    let singular = BigNumMatrix2x2::new_with_data(&[n(1), n(2), n(2), n(4)]).unwrap();
    assert!(singular.determinant(&p).iszilch());
    assert_eq!(singular.invmod(&p).err(), Some(FeError::SingularMatrix));
    // zero modulo the modulus, not over the integers
    let hidden = BigNumMatrix2x2::new_with_data(&[n(101), n(5), n(7), n(202)]).unwrap();
    assert_eq!(hidden.determinant(&p), n(101 - 35));
    let zero_det = BigNumMatrix2x2::new_with_data(&[n(10), n(1), n(1), n(91)]).unwrap();
    // 910 - 1 = 909 = 9 * 101
    assert_eq!(zero_det.invmod(&p).err(), Some(FeError::SingularMatrix));
    assert_eq!(BigNumMatrix2x2::new_with_data(&[n(1), n(2), n(3)]).err(), Some(FeError::DimensionMismatch));
    let z = BigNumMatrix2x2::new();
    assert!(z.get_element(0, 0).iszilch() && z.get_element(1, 1).iszilch());
}

#[test]
fn two_by_two_transpose_and_random() {
    let mut w = BigNumMatrix2x2::new_with_data(&[n(1), n(2), n(3), n(4)]).unwrap();
    w.transpose();
    assert_eq!(*w.get_element(0, 0), n(1));
    assert_eq!(*w.get_element(0, 1), n(3));
    assert_eq!(*w.get_element(1, 0), n(2));
    assert_eq!(*w.get_element(1, 1), n(4));
    let order = curve_order();
    let mut rng = RandUtilsRAND::get_seeded_rng(&[5u8; 32]);
    let r = BigNumMatrix2x2::new_random(&order, &mut rng);
    for a in 0..2 {
        for b in 0..2 {
            assert_eq!(BigNum::comp(r.get_element(a, b), &order), -1);
        }
    }
    assert_ne!(r.get_element(0, 0), r.get_element(0, 1));
    let inv = r.invmod(&order).unwrap();
    let back = inv.invmod(&order).unwrap();
    for a in 0..2 {
        for b in 0..2 {
            assert_eq!(back.get_element(a, b), r.get_element(a, b));
        }
    }
}

#[test]
fn bigint_matrix_operations() {
    let a = BigIntMatrix::new_ints(&[1, -2, 3, 4, 5, -6], 2, 3).unwrap();
    let b = BigIntMatrix::new_ints(&[1, 2, 3, 4, 5, 6], 3, 2).unwrap();
    let p = a.matmul(&b).unwrap();
    // [[1 - 6 + 15, 2 - 8 + 18], [4 + 15 - 30, 8 + 20 - 36]]
    assert_eq!(*p.get_element(0, 0), i(10));
    assert_eq!(*p.get_element(0, 1), i(12));
    assert_eq!(*p.get_element(1, 0), i(-11));
    assert_eq!(*p.get_element(1, 1), i(-8));
    assert_eq!(a.matmul(&a).err(), Some(FeError::DimensionMismatch));
    let t = a.transpose();
    assert_eq!((t.n_rows, t.n_cols), (3, 2));
    assert_eq!(*t.get_element(1, 0), i(-2));
    assert_eq!(*t.get_element(2, 1), i(-6));
    let mut z = BigIntMatrix::new(2, 2);
    assert_eq!(*z.get_element(1, 1), i(0));
    z.set_element(0, 1, &i(-9));
    assert_eq!(*z.get_element(0, 1), i(-9));
    assert_eq!(*z.get_element(0, 0), i(0));
    assert_eq!(*z.get_element(1, 0), i(0));
    let big = BigIntMatrix::new_bigints(&[i(i64::MAX), i(2)], 1, 2).unwrap();
    let col = BigIntMatrix::new_bigints(&[i(i64::MAX), i(1)], 2, 1).unwrap();
    let sq = big.matmul(&col).unwrap();
    assert_eq!(*sq.get_element(0, 0), i(i64::MAX).times(&i(i64::MAX)).plus(&i(2)));
    let mut rng = RandUtilsRng::get_seeded_rng(&[6u8; 32]);
    let r = BigIntMatrix::new_random(3, 4, &i(-5), &i(5), &mut rng);
    assert_eq!((r.n_rows, r.n_cols), (3, 4));
    for a in 0..3 {
        for b in 0..4 {
            let e = r.get_element(a, b);
            assert!(BigInt::comp(e, &i(-5)) >= 0 && BigInt::comp(e, &i(5)) < 0);
        }
    }
}

#[test]
fn convert_reduces_every_element() {
    let a = BigIntMatrix::new_ints(&[1, -1, 0, 202], 2, 2).unwrap();
    let c = convert(&a, &i(101));
    assert_eq!((c.n_rows, c.n_cols), (2, 2));
    assert_eq!(c.modulus, n(101));
    assert_eq!(c.data, vec![n(1), n(100), n(0), n(0)]);
    let d = convert(&a, &modulus());
    assert_eq!(d.modulus, curve_order());
    assert_eq!(*d.get_element(0, 1), BigNum::modneg(&n(1), &curve_order()));
}

#[test]
fn share_matrix_arithmetic() {
    let seed = [1u8; 32];
    let m = BigIntMatrix2x2::new_random_deterministic(&seed);
    let again = BigIntMatrix2x2::new_random_deterministic(&seed);
    let other = BigIntMatrix2x2::new_random_deterministic(&[2u8; 32]);
    let top = i(1).times(&i(1 << 32)).times(&i(1 << 32)).times(&i(1 << 32)).times(&i(1 << 32)).times(&i(1 << 32)).times(&i(1 << 32)).times(&i(1 << 32)).times(&i(1 << 32));
    for a in 0..2 {
        for b in 0..2 {
            assert_eq!(m.get_element(a, b), again.get_element(a, b));
            assert_ne!(m.get_element(a, b), other.get_element(a, b));
            assert!(BigInt::comp(m.get_element(a, b), &i(0)) >= 0);
            assert!(BigInt::comp(m.get_element(a, b), &top) < 0);
        }
    }
    // the four elements are expanded independently
    assert_ne!(m.get_element(0, 0), m.get_element(0, 1));
    assert_ne!(m.get_element(0, 0), m.get_element(1, 0));
    assert_ne!(m.get_element(1, 0), m.get_element(1, 1));
    assert_ne!(m.get_element(0, 0), &i(1));

    let mut s = BigIntMatrix2x2::new();
    assert_eq!(*s.get_element(0, 0), i(0));
    s.add(&m);
    assert_eq!(s.get_element(1, 1), m.get_element(1, 1));
    s.add(&m);
    assert_eq!(*s.get_element(0, 1), m.get_element(0, 1).plus(m.get_element(0, 1)));
    s.sub(&m);
    s.sub(&m);
    s.sub(&m);
    assert_eq!(*s.get_element(1, 0), i(0).minus(m.get_element(1, 0)));
    s.modp(&i(97));
    for a in 0..2 {
        for b in 0..2 {
            let e = s.get_element(a, b);
            assert!(BigInt::comp(e, &i(0)) >= 0 && BigInt::comp(e, &i(97)) < 0);
            assert_eq!(e.plus(m.get_element(a, b)).mod_floor(&i(97)), i(0));
        }
    }
}

#[test]
fn plain_results() {
    let x = vec![i(1), i(-2), i(3)];
    let y = vec![i(4), i(5), i(-6)];
    assert_eq!(inner_product_result(&x, &y).unwrap(), i(4 - 10 - 18));
    assert_eq!(inner_product_result(&x, &y[..2]).err(), Some(FeError::DimensionMismatch));
    assert_eq!(inner_product_result(&[], &[]).unwrap(), i(0));
    let f = BigIntMatrix::new_ints(&[1, 0, 2, 0, 1, 0, -1, 0, 1], 3, 3).unwrap();
    // rows: 1*(4 - 12) = -8; -2*(5) = -10; 3*(-4 - 6) = -30
    assert_eq!(quadratic_result(&x, &y, &f).unwrap(), i(-48));
    assert_eq!(quadratic_result(&x[..2], &y, &f).err(), Some(FeError::DimensionMismatch));
    assert_eq!(quadratic_result(&x, &y[..2], &f).err(), Some(FeError::DimensionMismatch));
    let x01 = vec![i(0), i(1)];
    let y12 = vec![i(1), i(2)];
    let ones = BigIntMatrix::new_ints(&[1, 1, 1, 1], 2, 2).unwrap();
    assert_eq!(quadratic_result(&x01, &y12, &ones).unwrap(), i(3));
}
