pub mod algebra;
pub mod dlog;
pub mod rand_utils;

use crate::define::big_curve_order;
use crate::define::big_from_bigint;
use crate::define::big_to_bigint;
use crate::define::curve_order_value;
use crate::define::int_add;
use crate::define::int_comp;
use crate::define::int_from_i64;
use crate::define::int_mul;
use crate::define::int_rem;
use crate::define::int_to_hex;
use crate::define::radix16_text;
use crate::define::BigInt;
use crate::define::BigNum;
use crate::error::FeError;
use crate::group::ecp2_mapit;
use crate::group::ecp_mapit;
use crate::group::g1_mapped;
use crate::group::g2_mapped;
use crate::group::sha256;
use crate::group::sha256_value;
use crate::group::Group;
use crate::group::Gt;
use crate::group::G1;
use crate::group::G2;
use crate::math::matrix::BigIntMatrix;
use crate::utils::dlog::discrete_log;
use crate::utils::dlog::dlog_spec;
use crate::utils::dlog::step_count;
use crate::utils::dlog::value_of;
use crate::utils::dlog::MAX_BOUND;
use vstd::prelude::*;
use vstd::string::StringSliceAdditionalSpecFns;

verus! {

/// The representative of `x` modulo `m` that is at least zero and below `m`.
pub fn reduce(x: &BigInt, m: &BigInt) -> (r: BigInt)
    requires
        m@ > 0,
    ensures
        r@ == x@ % m@,
{
    let y = int_rem(x, m);
    proof {
        let xi = x@;
        let mi = m@;
        if xi < 0 {
            vstd::arithmetic::div_mod::lemma_mod_bound(-xi, mi);
            vstd::arithmetic::div_mod::lemma_mod_bound(xi, mi);
            vstd::arithmetic::div_mod::lemma_fundamental_div_mod(-xi, mi);
            if (-xi) % mi == 0 {
                // x is a multiple of m
                assert(xi == mi * (-((-xi) / mi))) by (nonlinear_arith)
                    requires
                        -xi == mi * ((-xi) / mi) + (-xi) % mi,
                        (-xi) % mi == 0,
                ;
                vstd::arithmetic::div_mod::lemma_mod_multiples_basic(-((-xi) / mi), mi);
                assert(xi == (-((-xi) / mi)) * mi) by (nonlinear_arith)
                    requires
                        xi == mi * (-((-xi) / mi)),
                ;
            } else {
                assert(xi == mi * (-((-xi) / mi) - 1) + (mi - (-xi) % mi)) by (nonlinear_arith)
                    requires
                        -xi == mi * ((-xi) / mi) + (-xi) % mi,
                ;
                vstd::arithmetic::div_mod::lemma_fundamental_div_mod_converse(
                    xi,
                    mi,
                    -((-xi) / mi) - 1,
                    mi - (-xi) % mi,
                );
            }
        }
    }
    if int_comp(&y, &int_from_i64(0)) < 0 {
        int_add(&y, m)
    } else {
        y
    }
}


/// The point of the first group that a byte string is hashed to.
pub open spec fn hashed_to_g1(data: Seq<u8>) -> Seq<u8> {
    g1_mapped(sha256_value(data))
}

/// The point of the second group that a byte string is hashed to.
pub open spec fn hashed_to_g2(data: Seq<u8>) -> Seq<u8> {
    g2_mapped(sha256_value(data))
}

/// Hashes a byte string to a point of the first group: the SHA-256 digest, mapped to the
/// curve.
pub fn hash_bytes_to_g1(data: &[u8]) -> (r: G1)
    ensures
        r@ == hashed_to_g1(data@),
{
    let digest = sha256(data);
    G1::settle(ecp_mapit(&digest))
}

/// Hashes a byte string to a point of the second group.
pub fn hash_bytes_to_g2(data: &[u8]) -> (r: G2)
    ensures
        r@ == hashed_to_g2(data@),
{
    let digest = sha256(data);
    G2::settle(ecp2_mapit(&digest))
}

/// Hashes a text to a point of the first group.
pub fn hash_to_g1(data: &str) -> (r: G1)
    ensures
        r@ == hashed_to_g1(data.spec_bytes()),
{
    hash_bytes_to_g1(data.as_bytes())
}

/// Hashes a text to a point of the second group.
pub fn hash_to_g2(data: &str) -> (r: G2)
    ensures
        r@ == hashed_to_g2(data.spec_bytes()),
{
    hash_bytes_to_g2(data.as_bytes())
}

/// Recovers the exponent of `h` to the base `g` in the target group, where its size is at
/// most about `bound`; see `discrete_log`.
pub fn baby_step_giant_step(h: &Gt, g: &Gt, bound: &BigNum) -> (r: Result<Option<BigInt>, FeError>)
    ensures
        match r {
            Ok(v) => {
                &&& h@ == Gt::unit_enc() || bound@ <= MAX_BOUND
                &&& value_of(v) == dlog_spec::<Gt>(h@, g@, step_count(bound@))
            },
            Err(e) => e == FeError::BoundTooLarge && h@ != Gt::unit_enc() && bound@ > MAX_BOUND,
        },
{
    discrete_log::<Gt>(h, g, bound)
}

/// Recovers the multiplier of `h` to the base `g` in the first group, where its size is at
/// most about `bound`; see `discrete_log`.
pub fn baby_step_giant_step_g1(h: &G1, g: &G1, bound: &BigNum) -> (r: Result<
    Option<BigInt>,
    FeError,
>)
    ensures
        match r {
            Ok(v) => {
                &&& h@ == G1::unit_enc() || bound@ <= MAX_BOUND
                &&& value_of(v) == dlog_spec::<G1>(h@, g@, step_count(bound@))
            },
            Err(e) => e == FeError::BoundTooLarge && h@ != G1::unit_enc() && bound@ > MAX_BOUND,
        },
{
    discrete_log::<G1>(h, g, bound)
}

/// The values of a sequence of integers.
pub open spec fn values(v: Seq<BigInt>) -> Seq<int> {
    Seq::new(v.len(), |i: int| v[i]@)
}

/// The sum of the products of the first `n` elements of `x` and `y`.
pub open spec fn inner_product(x: Seq<int>, y: Seq<int>, n: nat) -> int
    decreases n,
{
    if n == 0 {
        0
    } else {
        inner_product(x, y, (n - 1) as nat) + x[n - 1] * y[n - 1]
    }
}

/// The sum over the first `n` columns `j` of `f[i][j] * xi * y[j]`.
pub open spec fn quadratic_row(xi: int, y: Seq<int>, f: &BigIntMatrix, i: int, n: nat) -> int
    decreases n,
{
    if n == 0 {
        0
    } else {
        quadratic_row(xi, y, f, i, (n - 1) as nat) + f.at(i, n - 1) * xi * y[n - 1]
    }
}

/// The sum over the first `n` rows `i` and all columns `j` of `f[i][j] * x[i] * y[j]`.
pub open spec fn quadratic_form(x: Seq<int>, y: Seq<int>, f: &BigIntMatrix, n: nat) -> int
    decreases n,
{
    if n == 0 {
        0
    } else {
        quadratic_form(x, y, f, (n - 1) as nat) + quadratic_row(x[n - 1], y, f, n - 1, y.len())
    }
}

/// The inner product of `x` and `y`. It fails where they differ in length.
pub fn inner_product_result(x: &[BigInt], y: &[BigInt]) -> (r: Result<BigInt, FeError>)
    ensures
        match r {
            Ok(v) => x@.len() == y@.len() && v@ == inner_product(values(x@), values(y@), x@.len()),
            Err(e) => e == FeError::DimensionMismatch && x@.len() != y@.len(),
        },
{
    if x.len() != y.len() {
        return Err(FeError::DimensionMismatch);
    }
    let mut res = int_from_i64(0);
    let mut i: usize = 0;
    while i < x.len()
        invariant
            i <= x@.len(),
            x@.len() == y@.len(),
            res@ == inner_product(values(x@), values(y@), i as nat),
        decreases x@.len() - i,
    {
        let tmp = int_mul(&x[i], &y[i]);
        res = int_add(&res, &tmp);
        i = i + 1;
    }
    Ok(res)
}

/// The quadratic form of `f` on `x` and `y`: the sum of `f[i][j] * x[i] * y[j]`. It fails
/// where `f` has not as many rows as `x` has elements, or not as many columns as `y` has.
pub fn quadratic_result(x: &[BigInt], y: &[BigInt], f: &BigIntMatrix) -> (r: Result<
    BigInt,
    FeError,
>)
    requires
        f.wf(),
    ensures
        match r {
            Ok(v) => {
                &&& x@.len() == f.n_rows
                &&& y@.len() == f.n_cols
                &&& v@ == quadratic_form(values(x@), values(y@), f, x@.len())
            },
            Err(e) => e == FeError::DimensionMismatch && (x@.len() != f.n_rows || y@.len()
                != f.n_cols),
        },
{
    if x.len() != f.n_rows || y.len() != f.n_cols {
        return Err(FeError::DimensionMismatch);
    }
    let mut res = int_from_i64(0);
    let mut i: usize = 0;
    while i < x.len()
        invariant
            f.wf(),
            i <= x@.len(),
            x@.len() == f.n_rows,
            y@.len() == f.n_cols,
            res@ == quadratic_form(values(x@), values(y@), f, i as nat),
        decreases x@.len() - i,
    {
        let mut row = int_from_i64(0);
        let mut j: usize = 0;
        while j < y.len()
            invariant
                f.wf(),
                i < x@.len(),
                j <= y@.len(),
                x@.len() == f.n_rows,
                y@.len() == f.n_cols,
                row@ == quadratic_row(values(x@)[i as int], values(y@), f, i as int, j as nat),
            decreases y@.len() - j,
        {
            let tmp = int_mul(&int_mul(f.get_element(i, j), &x[i]), &y[j]);
            row = int_add(&row, &tmp);
            j = j + 1;
        }
        res = int_add(&res, &row);
        i = i + 1;
    }
    Ok(res)
}


/// The scalar that stands for a plaintext integer: its remainder modulo the group order.
pub fn to_scalar(x: &BigInt) -> (r: BigNum)
    ensures
        r@ == x@ % (curve_order_value() as int),
{
    let order = big_curve_order();
    let reduced = reduce(x, &big_to_bigint(&order));
    proof {
        order.lemma_bounded();
        vstd::arithmetic::div_mod::lemma_mod_bound(x@, curve_order_value() as int);
    }
    big_from_bigint(&reduced)
}

/// The scalars that stand for the integers of `x`.
pub open spec fn scalars_of(x: Seq<int>) -> Seq<nat> {
    Seq::new(x.len(), |i: int| (x[i] % (curve_order_value() as int)) as nat)
}


/// The text that separates the `k`-th hash of a label from the others: the digit of `k`, a
/// space and the label.
pub open spec fn indexed_label(k: nat, label: Seq<u8>) -> Seq<u8> {
    seq![(48 + k) as u8, 32u8] + label
}

/// Builds the text that separates the `k`-th hash of a label from the others.
pub fn indexed_label_bytes(k: u8, label: &[u8]) -> (r: Vec<u8>)
    requires
        k < 10,
    ensures
        r@ == indexed_label(k as nat, label@),
{
    let mut out: Vec<u8> = Vec::new();
    out.push(48 + k);
    out.push(32);
    let mut i: usize = 0;
    while i < label.len()
        invariant
            i <= label@.len(),
            out@ == seq![(48 + k) as u8, 32u8] + label@.take(i as int),
        decreases label@.len() - i,
    {
        out.push(label[i]);
        assert(label@.take(i as int).push(label@[i as int]) =~= label@.take(i + 1));
        assert((seq![(48 + k) as u8, 32u8] + label@.take(i as int)).push(label@[i as int])
            =~= seq![(48 + k) as u8, 32u8] + label@.take(i + 1));
        i = i + 1;
    }
    assert(label@.take(label@.len() as int) =~= label@);
    out
}

/// The text of the first `n` integers of `y`: each to the base sixteen, after a space.
pub open spec fn joined_text(y: Seq<int>, n: nat) -> Seq<u8>
    decreases n,
{
    if n == 0 {
        Seq::<u8>::empty()
    } else {
        joined_text(y, (n - 1) as nat) + seq![32u8] + radix16_text(y[n - 1])
    }
}

/// Builds the text of a vector of integers.
pub fn joined_text_bytes(y: &[BigInt]) -> (r: Vec<u8>)
    ensures
        r@ == joined_text(values(y@), y@.len()),
{
    let mut out: Vec<u8> = Vec::new();
    let mut i: usize = 0;
    while i < y.len()
        invariant
            i <= y@.len(),
            out@ == joined_text(values(y@), i as nat),
        decreases y@.len() - i,
    {
        let ghost before = out@;
        out.push(32);
        let digits = int_to_hex(&y[i]);
        let mut k: usize = 0;
        while k < digits.len()
            invariant
                k <= digits@.len(),
                out@ == before + seq![32u8] + digits@.take(k as int),
            decreases digits@.len() - k,
        {
            out.push(digits[k]);
            assert(digits@.take(k as int).push(digits@[k as int]) =~= digits@.take(k + 1));
            assert((before + seq![32u8] + digits@.take(k as int)).push(digits@[k as int])
                =~= before + seq![32u8] + digits@.take(k + 1));
            k = k + 1;
        }
        assert(digits@.take(digits@.len() as int) =~= digits@);
        i = i + 1;
    }
    out
}

} // verus!
