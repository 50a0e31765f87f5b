use crate::define::big_limit;
use crate::define::curve_order_value;
use crate::define::lemma_order_below_limit;
use crate::group::pairing_base;
use crate::group::g1_scaled;
use crate::group::g2_scaled;
use crate::group::pairing_value;
use crate::group::Gt;
use crate::group::G1;
use crate::group::G1_GENERATOR;
use crate::group::G2;
use crate::group::G2_GENERATOR;
use crate::math::matrix::lemma_inverse_times_matrix;
use crate::math::matrix::BigIntMatrix;
use crate::math::matrix::BigNumMatrix;
use crate::math::matrix::BigNumMatrix2x2;
use crate::math::sums::column_total;
use crate::math::sums::columns_total;
use crate::math::sums::flat_total;
use crate::math::sums::lemma_flat_total_all;
use crate::math::sums::lemma_flat_total_combines;
use crate::math::sums::lemma_flat_total_congruent;
use crate::math::sums::lemma_totals_agree;
use crate::math::sums::row_sum;
use crate::math::sums::rows_total;
use crate::quadratic_sgp::as_ints;
use crate::quadratic_sgp::form_column;
use crate::quadratic_sgp::key_scalar;
use crate::quadratic_sgp::projected_key_scalar;
use crate::quadratic_sgp::projected_vector;
use crate::quadratic_sgp::vector_column;
use crate::quadratic_sgp::form_exponent;
use crate::quadratic_sgp::form_row;
use crate::quadratic_sgp::is_projection;
use crate::quadratic_sgp::is_reduction_of;
use crate::quadratic_sgp::left_point;
use crate::quadratic_sgp::quadratic_bound;
use crate::quadratic_sgp::quadratic_product;
use crate::quadratic_sgp::quadratic_term;
use crate::quadratic_sgp::right_point;
use crate::quadratic_sgp::scalar_product;
use crate::quadratic_sgp::search_size;
use crate::quadratic_sgp::Sgp;
use crate::quadratic_sgp::SgpCipher;
use crate::quadratic_sgp::SgpDecKey;
use crate::simple_ip::lemma_order_is_large;
use crate::traits::FunctionalEncryption;
use crate::utils::algebra::lemma_element_generator;
use crate::utils::algebra::lemma_element_op;
use crate::utils::algebra::lemma_element_pairing;
use crate::utils::algebra::lemma_element_pow;
use crate::utils::algebra::lemma_element_same;
use crate::utils::algebra::order;
use crate::utils::algebra::pairing_groups;
use crate::utils::dlog::dlog_spec;
use crate::utils::dlog::element;
use crate::utils::dlog::lemma_search_finds;
use crate::utils::dlog::step_count;
use crate::utils::dlog::MAX_BOUND;
use crate::utils::quadratic_form;
use crate::utils::quadratic_row;
use crate::utils::scalars_of;
use crate::quadratic_sgp::projected_left;
use crate::quadratic_sgp::projected_right;
use vstd::arithmetic::div_mod::lemma_add_mod_noop;
use vstd::arithmetic::div_mod::lemma_mod_bound;
use vstd::arithmetic::div_mod::lemma_mod_twice;
use vstd::arithmetic::div_mod::lemma_mul_mod_noop;
use vstd::arithmetic::div_mod::lemma_mul_mod_noop_left;
use vstd::arithmetic::div_mod::lemma_mul_mod_noop_right;
use vstd::arithmetic::div_mod::lemma_small_mod;
use vstd::prelude::*;

verus! {

/// The element of the first group with the exponent `e`.
pub open spec fn e1(e: int) -> Seq<u8> {
    element::<G1>(G1_GENERATOR@, curve_order_value(), e)
}

/// The element of the second group with the exponent `e`.
pub open spec fn e2(e: int) -> Seq<u8> {
    element::<G2>(G2_GENERATOR@, curve_order_value(), e)
}

/// The element of the target group with the exponent `e`.
pub open spec fn et(e: int) -> Seq<u8> {
    element::<Gt>(pairing_base(), curve_order_value(), e)
}

/// What the exponent of the `k`-th point of the first group of coordinate `i` is congruent
/// to: the plaintext and the secret, blinded with column `k` of the inverse of `w`.
pub open spec fn blinded_left(
    w: &BigNumMatrix2x2,
    gamma: int,
    xv: Seq<int>,
    sv: Seq<int>,
    i: int,
    k: int,
) -> int {
    w.inverse_at(order(), 0, k) * xv[i] + w.inverse_at(order(), 1, k) * (gamma * sv[i])
}

/// What the exponent of the `k`-th point of the second group of coordinate `j` is congruent
/// to: the plaintext and the secret, blinded with row `k` of `w`.
pub open spec fn blinded_right(w: &BigNumMatrix2x2, yv: Seq<int>, tv: Seq<int>, j: int, k: int) -> int {
    w.at(k, 0) * yv[j] - w.at(k, 1) * tv[j]
}

/// The exponents `alphas` are those of a blinding of `xv` with the secrets `sv`.
pub open spec fn blinds_left(
    alphas: Seq<int>,
    w: &BigNumMatrix2x2,
    gamma: int,
    xv: Seq<int>,
    sv: Seq<int>,
    n: nat,
) -> bool {
    &&& alphas.len() == 2 * n
    &&& xv.len() == n
    &&& sv.len() == n
    &&& forall|i: int, k: int|
        0 <= i < n && 0 <= k < 2 ==> (#[trigger] alphas[2 * i + k]) % order() == blinded_left(
            w,
            gamma,
            xv,
            sv,
            i,
            k,
        ) % order()
}

/// The exponents `betas` are those of a blinding of `yv` with the secrets `tv`.
pub open spec fn blinds_right(
    betas: Seq<int>,
    w: &BigNumMatrix2x2,
    yv: Seq<int>,
    tv: Seq<int>,
    n: nat,
) -> bool {
    &&& betas.len() == 2 * n
    &&& yv.len() == n
    &&& tv.len() == n
    &&& forall|j: int, k: int|
        0 <= j < n && 0 <= k < 2 ==> (#[trigger] betas[2 * j + k]) % order() == blinded_right(
            w,
            yv,
            tv,
            j,
            k,
        ) % order()
}

/// The exponent that the pair of coordinates `i` and `j` contributes to decryption.
pub open spec fn pair_term(alphas: Seq<int>, betas: Seq<int>, m: &BigNumMatrix) -> spec_fn(
    int,
    int,
) -> int {
    |i: int, j: int|
        (alphas[2 * i] * betas[2 * j] + alphas[2 * i + 1] * betas[2 * j + 1]) * m.at(i, j)
}

/// The term of the form of `m` on the plaintexts.
pub open spec fn plain_term(xv: Seq<int>, yv: Seq<int>, m: &BigNumMatrix) -> spec_fn(
    int,
    int,
) -> int {
    |i: int, j: int| xv[i] * yv[j] * m.at(i, j)
}

/// The term of the form of `m` on the secrets.
pub open spec fn secret_term(sv: Seq<int>, tv: Seq<int>, m: &BigNumMatrix) -> spec_fn(
    int,
    int,
) -> int {
    |i: int, j: int| sv[i] * m.at(i, j) * tv[j]
}

/// The term on the plaintexts minus `gamma` times the term on the secrets.
pub open spec fn mixed_term(
    xv: Seq<int>,
    yv: Seq<int>,
    sv: Seq<int>,
    tv: Seq<int>,
    gamma: int,
    m: &BigNumMatrix,
) -> spec_fn(int, int) -> int {
    |i: int, j: int| plain_term(xv, yv, m)(i, j) - gamma * secret_term(sv, tv, m)(i, j)
}

/// A sum of four products keeps its remainder where the second factors are replaced by
/// numbers with the same remainders.
proof fn lemma_linear4(
    c0: int,
    c1: int,
    c2: int,
    c3: int,
    i0: int,
    i1: int,
    i2: int,
    i3: int,
    j0: int,
    j1: int,
    j2: int,
    j3: int,
    m: int,
)
    requires
        m > 0,
        i0 % m == j0 % m,
        i1 % m == j1 % m,
        i2 % m == j2 % m,
        i3 % m == j3 % m,
    ensures
        (c0 * i0 + c1 * i1 + c2 * i2 + c3 * i3) % m == (c0 * j0 + c1 * j1 + c2 * j2 + c3 * j3)
            % m,
{
    lemma_mul_mod_noop_right(c0, i0, m);
    lemma_mul_mod_noop_right(c0, j0, m);
    lemma_mul_mod_noop_right(c1, i1, m);
    lemma_mul_mod_noop_right(c1, j1, m);
    lemma_mul_mod_noop_right(c2, i2, m);
    lemma_mul_mod_noop_right(c2, j2, m);
    lemma_mul_mod_noop_right(c3, i3, m);
    lemma_mul_mod_noop_right(c3, j3, m);
    lemma_add_mod_noop(c0 * i0, c1 * i1, m);
    lemma_add_mod_noop(c0 * j0, c1 * j1, m);
    lemma_add_mod_noop(c0 * i0 + c1 * i1, c2 * i2, m);
    lemma_add_mod_noop(c0 * j0 + c1 * j1, c2 * j2, m);
    lemma_add_mod_noop(c0 * i0 + c1 * i1 + c2 * i2, c3 * i3, m);
    lemma_add_mod_noop(c0 * j0 + c1 * j1 + c2 * j2, c3 * j3, m);
}

proof fn lemma_monomial(a: int, b: int, c: int, d: int)
    ensures
        (a * b) * (c * d) == (a * c) * (b * d),
{
    assert((a * b) * (c * d) == (a * c) * (b * d)) by (nonlinear_arith);
}

proof fn lemma_expand(a: int, b: int, c: int, d: int, x: int, g: int, y: int, t: int)
    ensures
        (a * x + b * g) * (c * y - d * t) == (a * c) * (x * y) - (a * d) * (x * t) + (b * c) * (g
            * y) - (b * d) * (g * t),
{
    let x1 = a * x;
    let x2 = b * g;
    let y1 = c * y;
    let y2 = d * t;
    assert((x1 + x2) * (y1 - y2) == x1 * y1 - x1 * y2 + x2 * y1 - x2 * y2) by (nonlinear_arith);
    lemma_monomial(a, x, c, y);
    lemma_monomial(a, x, d, t);
    lemma_monomial(b, g, c, y);
    lemma_monomial(b, g, d, t);
}

/// The two points of a pair of coordinates unblind each other: the sum of the products of
/// their exponents is congruent to the product of the plaintexts minus `gamma` times the
/// product of the secrets.
proof fn lemma_pair_unblinds(
    w: &BigNumMatrix2x2,
    gamma: int,
    x: int,
    s: int,
    y: int,
    t: int,
    a0: int,
    a1: int,
    b0: int,
    b1: int,
)
    requires
        w.has_inverse(order()),
        a0 % order() == (w.inverse_at(order(), 0, 0) * x + w.inverse_at(order(), 1, 0) * (gamma
            * s)) % order(),
        a1 % order() == (w.inverse_at(order(), 0, 1) * x + w.inverse_at(order(), 1, 1) * (gamma
            * s)) % order(),
        b0 % order() == (w.at(0, 0) * y - w.at(0, 1) * t) % order(),
        b1 % order() == (w.at(1, 0) * y - w.at(1, 1) * t) % order(),
    ensures
        (a0 * b0 + a1 * b1) % order() == (x * y - gamma * (s * t)) % order(),
{
    let m = order();
    let v00 = w.inverse_at(m, 0, 0);
    let v01 = w.inverse_at(m, 0, 1);
    let v10 = w.inverse_at(m, 1, 0);
    let v11 = w.inverse_at(m, 1, 1);
    let w00 = w.at(0, 0) as int;
    let w01 = w.at(0, 1) as int;
    let w10 = w.at(1, 0) as int;
    let w11 = w.at(1, 1) as int;
    let gs = gamma * s;
    let lhs0 = v00 * x + v10 * gs;
    let lhs1 = v01 * x + v11 * gs;
    let rhs0 = w00 * y - w01 * t;
    let rhs1 = w10 * y - w11 * t;
    // the products of the exponents are those of what they are congruent to
    lemma_mul_mod_noop(a0, b0, m);
    lemma_mul_mod_noop(lhs0, rhs0, m);
    lemma_mul_mod_noop(a1, b1, m);
    lemma_mul_mod_noop(lhs1, rhs1, m);
    lemma_add_mod_noop(a0 * b0, a1 * b1, m);
    lemma_add_mod_noop(lhs0 * rhs0, lhs1 * rhs1, m);
    // the inverse times the matrix
    let i00 = v00 * w00 + v01 * w10;
    let i01 = v00 * w01 + v01 * w11;
    let i10 = v10 * w00 + v11 * w10;
    let i11 = v10 * w01 + v11 * w11;
    lemma_inverse_times_matrix(w, m, 0, 0);
    lemma_inverse_times_matrix(w, m, 0, 1);
    lemma_inverse_times_matrix(w, m, 1, 0);
    lemma_inverse_times_matrix(w, m, 1, 1);
    lemma_expand(v00, v10, w00, w01, x, gs, y, t);
    lemma_expand(v01, v11, w10, w11, x, gs, y, t);
    let xy = x * y;
    let xt = x * t;
    let gy = gs * y;
    let gt = gs * t;
    assert(xy * i00 == (v00 * w00) * xy + (v01 * w10) * xy) by (nonlinear_arith)
        requires
            i00 == v00 * w00 + v01 * w10,
    ;
    assert((-xt) * i01 == -((v00 * w01) * xt) - (v01 * w11) * xt) by (nonlinear_arith)
        requires
            i01 == v00 * w01 + v01 * w11,
    ;
    assert(gy * i10 == (v10 * w00) * gy + (v11 * w10) * gy) by (nonlinear_arith)
        requires
            i10 == v10 * w00 + v11 * w10,
    ;
    assert((-gt) * i11 == -((v10 * w01) * gt) - (v11 * w11) * gt) by (nonlinear_arith)
        requires
            i11 == v10 * w01 + v11 * w11,
    ;
    assert(lhs0 * rhs0 + lhs1 * rhs1 == (x * y) * i00 + (-(x * t)) * i01 + (gs * y) * i10 + (-(gs * t))
        * i11);
    lemma_linear4(x * y, -(x * t), gs * y, -(gs * t), i00, i01, i10, i11, 1, 0, 0, 1, m);
    assert((x * y) * 1 + (-(x * t)) * 0 + (gs * y) * 0 + (-(gs * t)) * 1 == x * y - gamma * (s
        * t)) by (nonlinear_arith)
        requires
            gs == gamma * s,
    ;
}

/// The row and the column of a place below the number of elements lie within the matrix.
proof fn lemma_flat_index(idx: int, rows: int, cols: int)
    requires
        0 <= idx < rows * cols,
        cols > 0,
    ensures
        0 <= idx / cols < rows,
        0 <= idx % cols < cols,
{
    lemma_mod_bound(idx, cols);
    vstd::arithmetic::div_mod::lemma_fundamental_div_mod(idx, cols);
    vstd::arithmetic::div_mod::lemma_div_pos_is_pos(idx, cols);
    if idx / cols >= rows {
        assert(cols * (idx / cols) >= cols * rows) by (nonlinear_arith)
            requires
                idx / cols >= rows,
                cols > 0,
        ;
        assert(cols * rows == rows * cols) by (nonlinear_arith);
    }
}

/// The product of decryption over the first `k` pairs of coordinates is the element whose
/// exponent is that of the start plus the contributions of the pairs.
proof fn lemma_product_exponent(
    start: int,
    alphas: Seq<int>,
    betas: Seq<int>,
    left: Seq<Seq<u8>>,
    right: Seq<Seq<u8>>,
    m: &BigNumMatrix,
    k: nat,
)
    requires
        pairing_groups(),
        m.wf(),
        k <= m.n_rows * m.n_cols,
        alphas.len() == 2 * m.n_rows,
        betas.len() == 2 * m.n_cols,
        left.len() == 2 * m.n_rows,
        right.len() == 2 * m.n_cols,
        forall|q: int| 0 <= q < left.len() ==> #[trigger] left[q] == e1(alphas[q]),
        forall|q: int| 0 <= q < right.len() ==> #[trigger] right[q] == e2(betas[q]),
        forall|i: int, j: int|
            0 <= i < m.n_rows && 0 <= j < m.n_cols ==> #[trigger] m.at(i, j) < curve_order_value(),
    ensures
        quadratic_product(et(start), left, right, m, k) == et(
            start + flat_total(pair_term(alphas, betas, m), m.n_cols as nat, k),
        ),
    decreases k,
{
    let n = curve_order_value();
    if k > 0 {
        lemma_product_exponent(start, alphas, betas, left, right, m, (k - 1) as nat);
        let cols = m.n_cols as int;
        if cols == 0 {
            assert(m.n_rows * m.n_cols == 0) by (nonlinear_arith)
                requires
                    m.n_cols == 0,
            ;
        }
        lemma_flat_index(k - 1, m.n_rows as int, cols);
        let i = (k - 1) / cols;
        let j = (k - 1) % cols;
        lemma_order_below_limit();
        let a0 = alphas[2 * i];
        let a1 = alphas[2 * i + 1];
        let b0 = betas[2 * j];
        let b1 = betas[2 * j + 1];
        assert(left[2 * i] == e1(a0));
        assert(left[2 * i + 1] == e1(a1));
        assert(right[2 * j] == e2(b0));
        assert(right[2 * j + 1] == e2(b1));
        lemma_element_pairing(b0, a0);
        lemma_element_pairing(b1, a1);
        lemma_element_op::<Gt>(pairing_base(), n, a0 * b0, a1 * b1);
        lemma_element_pow::<Gt>(pairing_base(), n, a0 * b0 + a1 * b1, m.at(i, j));
        let term = (a0 * b0 + a1 * b1) * m.at(i, j);
        assert(quadratic_term(left, right, m, i, j) == et(term));
        let before = start + flat_total(pair_term(alphas, betas, m), m.n_cols as nat, (k - 1) as nat);
        lemma_element_op::<Gt>(pairing_base(), n, before, term);
        assert(pair_term(alphas, betas, m)(i, j) == term);
    }
}

/// The scalar of a key for the form of `f` is congruent to the form on the secrets, summed
/// in row-major order.
proof fn lemma_key_exponent_total(s: Seq<nat>, f: &BigIntMatrix, t: Seq<nat>, m: &BigNumMatrix)
    requires
        is_reduction_of(m, f),
        s.len() == f.n_rows,
        t.len() == f.n_cols,
    ensures
        (form_exponent(s, f, t) as int) % order() == flat_total(
            secret_term(as_ints(s), as_ints(t), m),
            f.n_cols as nat,
            (f.n_rows * f.n_cols) as nat,
        ) % order(),
{
    let a = secret_term(as_ints(s), as_ints(t), m);
    let rows = f.n_rows as nat;
    let cols = f.n_cols as nat;
    lemma_scalar_product_total(s, f, t, m, cols);
    lemma_totals_agree(a, rows, cols);
    lemma_flat_total_all(a, rows, cols);
    lemma_mod_twice(scalar_product(form_row(s, f), t, cols) as int, order());
}

proof fn lemma_form_column_total(
    s: Seq<nat>,
    f: &BigIntMatrix,
    t: Seq<nat>,
    m: &BigNumMatrix,
    k: int,
    r: nat,
)
    requires
        is_reduction_of(m, f),
        s.len() == f.n_rows,
        t.len() == f.n_cols,
        0 <= k < f.n_cols,
        r <= f.n_rows,
    ensures
        column_total(secret_term(as_ints(s), as_ints(t), m), k, r) == form_column(s, f, k, r)
            * t[k],
    decreases r,
{
    if r > 0 {
        lemma_form_column_total(s, f, t, m, k, (r - 1) as nat);
        let i = r - 1;
        let e = m.at(i, k) as int;
        assert(m.at(i, k) == f.at(i, k) % order());
        let c = form_column(s, f, k, (r - 1) as nat) as int;
        let si = s[i] as int;
        let tk = t[k] as int;
        assert(secret_term(as_ints(s), as_ints(t), m)(i, k) == si * e * tk);
        assert((c + si * e) * tk == c * tk + si * e * tk) by (nonlinear_arith);
    } else {
        assert(0 * t[k] == 0) by (nonlinear_arith);
    }
}

proof fn lemma_scalar_product_total(
    s: Seq<nat>,
    f: &BigIntMatrix,
    t: Seq<nat>,
    m: &BigNumMatrix,
    c: nat,
)
    requires
        is_reduction_of(m, f),
        s.len() == f.n_rows,
        t.len() == f.n_cols,
        c <= f.n_cols,
    ensures
        (scalar_product(form_row(s, f), t, c) as int) % order() == columns_total(
            secret_term(as_ints(s), as_ints(t), m),
            f.n_rows as nat,
            c,
        ) % order(),
    decreases c,
{
    if c > 0 {
        lemma_scalar_product_total(s, f, t, m, (c - 1) as nat);
        let k = c - 1;
        lemma_form_column_total(s, f, t, m, k, f.n_rows as nat);
        let col = form_column(s, f, k, f.n_rows as nat) as int;
        let tk = t[k] as int;
        let before = scalar_product(form_row(s, f), t, (c - 1) as nat) as int;
        let total = columns_total(secret_term(as_ints(s), as_ints(t), m), f.n_rows as nat, (c - 1) as nat);
        assert(form_row(s, f)[k] == col % order());
        lemma_mul_mod_noop_left(col, tk, order());
        lemma_add_mod_noop(before, (col % order()) * tk, order());
        lemma_add_mod_noop(total, col * tk, order());
    }
}

/// Where the exponents of a ciphertext are those of a blinding with an invertible matrix,
/// and the exponent of the key is congruent to the form on the secrets, the element that
/// decryption computes has the form on the plaintexts as its exponent.
pub proof fn lemma_blinded_target(
    w: &BigNumMatrix2x2,
    gamma: int,
    xv: Seq<int>,
    sv: Seq<int>,
    yv: Seq<int>,
    tv: Seq<int>,
    alphas: Seq<int>,
    betas: Seq<int>,
    kappa: int,
    left: Seq<Seq<u8>>,
    right: Seq<Seq<u8>>,
    m: &BigNumMatrix,
)
    requires
        pairing_groups(),
        w.has_inverse(order()),
        m.wf(),
        blinds_left(alphas, w, gamma, xv, sv, m.n_rows as nat),
        blinds_right(betas, w, yv, tv, m.n_cols as nat),
        left.len() == 2 * m.n_rows,
        right.len() == 2 * m.n_cols,
        forall|q: int| 0 <= q < left.len() ==> #[trigger] left[q] == e1(alphas[q]),
        forall|q: int| 0 <= q < right.len() ==> #[trigger] right[q] == e2(betas[q]),
        forall|i: int, j: int|
            0 <= i < m.n_rows && 0 <= j < m.n_cols ==> #[trigger] m.at(i, j) < curve_order_value(),
        kappa % order() == flat_total(
            secret_term(sv, tv, m),
            m.n_cols as nat,
            (m.n_rows * m.n_cols) as nat,
        ) % order(),
    ensures
        quadratic_product(
            pairing_value(e2(kappa), e1(gamma)),
            left,
            right,
            m,
            (m.n_rows * m.n_cols) as nat,
        ) == et(
            flat_total(plain_term(xv, yv, m), m.n_cols as nat, (m.n_rows * m.n_cols) as nat),
        ),
{
    let n = order();
    let rows = m.n_rows as nat;
    let cols = m.n_cols as nat;
    let all = (m.n_rows * m.n_cols) as nat;
    lemma_element_pairing(kappa, gamma);
    lemma_product_exponent(gamma * kappa, alphas, betas, left, right, m, all);
    let tau = pair_term(alphas, betas, m);
    let mixed = mixed_term(xv, yv, sv, tv, gamma, m);
    let plain = plain_term(xv, yv, m);
    let secret = secret_term(sv, tv, m);
    if cols > 0 {
        assert forall|i: int, j: int| 0 <= i && 0 <= j < cols && i * cols + j < all implies #[trigger] tau(
            i,
            j,
        ) % n == mixed(i, j) % n by {
            if i >= rows {
                assert(i * cols >= rows * cols) by (nonlinear_arith)
                    requires
                        i >= rows,
                        cols > 0,
                ;
            }
            let a0 = alphas[2 * i + 0];
            let a1 = alphas[2 * i + 1];
            let b0 = betas[2 * j + 0];
            let b1 = betas[2 * j + 1];
            assert(a0 % n == blinded_left(w, gamma, xv, sv, i, 0) % n);
            assert(a1 % n == blinded_left(w, gamma, xv, sv, i, 1) % n);
            assert(b0 % n == blinded_right(w, yv, tv, j, 0) % n);
            assert(b1 % n == blinded_right(w, yv, tv, j, 1) % n);
            lemma_pair_unblinds(w, gamma, xv[i], sv[i], yv[j], tv[j], a0, a1, b0, b1);
            let e = m.at(i, j) as int;
            lemma_mul_mod_noop_left(a0 * b0 + a1 * b1, e, n);
            lemma_mul_mod_noop_left(xv[i] * yv[j] - gamma * (sv[i] * tv[j]), e, n);
            assert((xv[i] * yv[j] - gamma * (sv[i] * tv[j])) * e == xv[i] * yv[j] * e - gamma * (
            sv[i] * e * tv[j])) by (nonlinear_arith);
        }
        lemma_flat_total_congruent(tau, mixed, cols, all, n);
    } else {
        assert(m.n_rows * m.n_cols == 0) by (nonlinear_arith)
            requires
                m.n_cols == 0,
        ;
    }
    lemma_flat_total_combines(plain, secret, mixed, gamma, cols, all);
    let ft = flat_total(tau, cols, all);
    let fp = flat_total(plain, cols, all);
    let fs = flat_total(secret, cols, all);
    // gamma * kappa + ft is congruent to gamma * fs + fp - gamma * fs
    lemma_mul_mod_noop_right(gamma, kappa, n);
    lemma_mul_mod_noop_right(gamma, fs, n);
    lemma_add_mod_noop(gamma * kappa, ft, n);
    lemma_add_mod_noop(gamma * fs, fp - gamma * fs, n);
    lemma_element_same::<Gt>(pairing_base(), curve_order_value(), gamma * kappa + ft, fp);
}


/// The term of the form of `f` on the integers of `x` and `y`.
pub open spec fn form_term(x: Seq<int>, y: Seq<int>, f: &BigIntMatrix) -> spec_fn(int, int) -> int {
    |i: int, j: int| f.at(i, j) * x[i] * y[j]
}

proof fn lemma_form_row_sum(x: Seq<int>, y: Seq<int>, f: &BigIntMatrix, i: int, m: nat)
    ensures
        row_sum(form_term(x, y, f), i, m) == quadratic_row(x[i], y, f, i, m),
    decreases m,
{
    if m > 0 {
        lemma_form_row_sum(x, y, f, i, (m - 1) as nat);
    }
}

/// The form of `f` on `x` and `y` is the total of its terms.
pub proof fn lemma_form_is_total(x: Seq<int>, y: Seq<int>, f: &BigIntMatrix, r: nat)
    requires
        y.len() == f.n_cols,
    ensures
        rows_total(form_term(x, y, f), r, f.n_cols as nat) == quadratic_form(x, y, f, r),
    decreases r,
{
    if r > 0 {
        lemma_form_is_total(x, y, f, (r - 1) as nat);
        lemma_form_row_sum(x, y, f, r - 1, f.n_cols as nat);
    }
}

/// The size of a sum of `m` products of three numbers of a size of at most `bound`.
proof fn lemma_row_size(x: Seq<int>, y: Seq<int>, f: &BigIntMatrix, bound: int, i: int, m: nat)
    requires
        bound >= 0,
        -bound <= x[i] <= bound,
        forall|j: int| 0 <= j < m ==> -bound <= #[trigger] y[j] <= bound,
        forall|j: int| 0 <= j < m ==> -bound <= #[trigger] f.at(i, j) <= bound,
    ensures
        -(bound * bound * bound * m) <= row_sum(form_term(x, y, f), i, m) <= bound * bound * bound
            * m,
    decreases m,
{
    let cube = bound * bound * bound;
    if m > 0 {
        lemma_row_size(x, y, f, bound, i, (m - 1) as nat);
        let j = m - 1;
        let fv = f.at(i, j);
        let xv = x[i];
        let yv = y[j];
        let fx = fv * xv;
        assert(-(bound * bound) <= fx <= bound * bound) by (nonlinear_arith)
            requires
                fx == fv * xv,
                -bound <= fv <= bound,
                -bound <= xv <= bound,
        ;
        let sq = bound * bound;
        assert(-(sq * bound) <= fx * yv <= sq * bound) by (nonlinear_arith)
            requires
                -sq <= fx <= sq,
                -bound <= yv <= bound,
                bound >= 0,
                sq >= 0,
        ;
        assert(sq >= 0) by (nonlinear_arith)
            requires
                sq == bound * bound,
        ;
        assert(cube * m == cube * (m - 1) + cube) by (nonlinear_arith);
    } else {
        assert(cube * 0 == 0) by (nonlinear_arith);
    }
}

/// The size of the form of a matrix of `r` rows and `c` columns on numbers of a size of at
/// most `bound`, with the elements of the matrix of that size too, is at most `r * c` times
/// the cube of `bound`.
pub proof fn lemma_form_size(x: Seq<int>, y: Seq<int>, f: &BigIntMatrix, bound: int, r: nat)
    requires
        bound >= 0,
        forall|i: int| 0 <= i < r ==> -bound <= #[trigger] x[i] <= bound,
        forall|j: int| 0 <= j < f.n_cols ==> -bound <= #[trigger] y[j] <= bound,
        forall|i: int, j: int|
            0 <= i < r && 0 <= j < f.n_cols ==> -bound <= #[trigger] f.at(i, j) <= bound,
    ensures
        -(bound * bound * bound * (r * f.n_cols)) <= rows_total(
            form_term(x, y, f),
            r,
            f.n_cols as nat,
        ) <= bound * bound * bound * (r * f.n_cols),
    decreases r,
{
    let cube = bound * bound * bound;
    let c = f.n_cols as int;
    if r > 0 {
        lemma_form_size(x, y, f, bound, (r - 1) as nat);
        lemma_row_size(x, y, f, bound, r - 1, f.n_cols as nat);
        assert(cube * (r * c) == cube * ((r - 1) * c) + cube * c) by (nonlinear_arith);
    } else {
        assert(cube * (0 * c) == 0) by (nonlinear_arith);
    }
}

/// The exponent of the `k`-th point of the first group of a coordinate.
pub open spec fn left_exponent(w: &BigNumMatrix2x2, k: int, x: nat, gamma: nat, s: nat) -> int {
    (w.inverse_at(order(), 0, k) * x) % order() + s * ((w.inverse_at(order(), 1, k) * gamma)
        % order())
}

/// The exponent of the `k`-th point of the second group of a coordinate.
pub open spec fn right_exponent(w: &BigNumMatrix2x2, k: int, y: nat, t: nat) -> int {
    ((w.at(k, 0) * y) % curve_order_value()) + t * (curve_order_value() - w.at(k, 1)
        % curve_order_value())
}

proof fn lemma_left_point(w: &BigNumMatrix2x2, k: int, x: nat, gamma: nat, s: nat, public: Seq<u8>)
    requires
        pairing_groups(),
        s < curve_order_value(),
        public == g1_scaled(G1_GENERATOR@, s),
    ensures
        left_point(w, k, x, gamma, public) == e1(left_exponent(w, k, x, gamma, s)),
        left_exponent(w, k, x, gamma, s) % order() == (w.inverse_at(order(), 0, k) * x
            + w.inverse_at(order(), 1, k) * (gamma * s)) % order(),
{
    let n = curve_order_value();
    let g = G1_GENERATOR@;
    let v0 = w.inverse_at(order(), 0, k);
    let v1 = w.inverse_at(order(), 1, k);
    let c1 = (v0 * x) % order();
    let c2 = (v1 * gamma) % order();
    lemma_order_below_limit();
    lemma_mod_bound(v0 * x, order());
    lemma_mod_bound(v1 * gamma, order());
    lemma_element_generator::<G1>(g, n);
    lemma_element_pow::<G1>(g, n, 1, s);
    lemma_element_pow::<G1>(g, n, 1, c1 as nat);
    lemma_element_pow::<G1>(g, n, s as int, c2 as nat);
    lemma_element_op::<G1>(g, n, c1, s * c2);
    // the remainder
    lemma_mul_mod_noop_right(s as int, v1 * gamma, order());
    lemma_add_mod_noop(c1, s * c2, order());
    lemma_add_mod_noop(v0 * x, s * (v1 * gamma), order());
    lemma_mod_twice(v0 * x, order());
    assert(s * (v1 * gamma) == v1 * (gamma * s)) by (nonlinear_arith);
}

proof fn lemma_right_point(w: &BigNumMatrix2x2, k: int, y: nat, t: nat, public: Seq<u8>)
    requires
        pairing_groups(),
        t < curve_order_value(),
        public == g2_scaled(G2_GENERATOR@, t),
    ensures
        right_point(w, k, y, public) == e2(right_exponent(w, k, y, t)),
        right_exponent(w, k, y, t) % order() == (w.at(k, 0) * y - w.at(k, 1) * t) % order(),
{
    let n = curve_order_value();
    let g = G2_GENERATOR@;
    let w0 = w.at(k, 0) as int;
    let w1 = w.at(k, 1) as int;
    let c1 = (w0 * y) % order();
    let c2 = order() - w1 % order();
    lemma_order_below_limit();
    lemma_mod_bound(w0 * y, order());
    lemma_mod_bound(w1, order());
    lemma_element_generator::<G2>(g, n);
    lemma_element_pow::<G2>(g, n, 1, t);
    lemma_element_pow::<G2>(g, n, 1, c1 as nat);
    lemma_element_pow::<G2>(g, n, t as int, c2 as nat);
    lemma_element_op::<G2>(g, n, c1, t * c2);
    // the remainder
    crate::math::matrix::lemma_negated_product(w1, t as int, order());
    assert(t * c2 == c2 * t) by (nonlinear_arith);
    lemma_mod_twice(c2 * t, order());
    lemma_add_mod_noop(c1, t * c2, order());
    lemma_add_mod_noop(w0 * y, (-w1) * t, order());
    lemma_mod_twice(w0 * y, order());
    assert(w0 * y + (-w1) * t == w0 * y - w1 * t) by (nonlinear_arith);
}

/// The exponents of the points of the first group of a ciphertext.
pub open spec fn left_exponents(w: &BigNumMatrix2x2, xs: Seq<nat>, gamma: nat, s: Seq<nat>) -> Seq<
    int,
> {
    Seq::new(2 * xs.len(), |q: int| left_exponent(w, q % 2, xs[q / 2], gamma, s[q / 2]))
}

/// The exponents of the points of the second group of a ciphertext.
pub open spec fn right_exponents(w: &BigNumMatrix2x2, ys: Seq<nat>, t: Seq<nat>) -> Seq<int> {
    Seq::new(2 * ys.len(), |q: int| right_exponent(w, q % 2, ys[q / 2], t[q / 2]))
}

/// The points of a ciphertext are the elements with the exponents of a blinding of the
/// scalars of the plaintexts with the secrets.
proof fn lemma_cipher_exponents<const L: usize>(
    sgp: &Sgp<L>,
    x: Seq<int>,
    y: Seq<int>,
    w: &BigNumMatrix2x2,
    gamma: nat,
    ct: &SgpCipher<L>,
)
    requires
        pairing_groups(),
        sgp.wf(),
        x.len() == L,
        y.len() == L,
        gamma < big_limit(),
        sgp.is_encryption(x, y, w, gamma, ct),
    ensures
        ct.top() == e1(gamma as int),
        forall|q: int|
            0 <= q < 2 * L ==> #[trigger] ct.left()[q] == e1(
                left_exponents(w, scalars_of(x), gamma, sgp.secret().first())[q],
            ),
        forall|q: int|
            0 <= q < 2 * L ==> #[trigger] ct.right()[q] == e2(
                right_exponents(w, scalars_of(y), sgp.secret().second())[q],
            ),
        blinds_left(
            left_exponents(w, scalars_of(x), gamma, sgp.secret().first()),
            w,
            gamma as int,
            as_ints(scalars_of(x)),
            as_ints(sgp.secret().first()),
            L as nat,
        ),
        blinds_right(
            right_exponents(w, scalars_of(y), sgp.secret().second()),
            w,
            as_ints(scalars_of(y)),
            as_ints(sgp.secret().second()),
            L as nat,
        ),
{
    let n = curve_order_value();
    let s = sgp.secret().first();
    let t = sgp.secret().second();
    let xs = scalars_of(x);
    let ys = scalars_of(y);
    let alphas = left_exponents(w, xs, gamma, s);
    let betas = right_exponents(w, ys, t);
    let xv = as_ints(xs);
    let yv = as_ints(ys);
    let sv = as_ints(s);
    let tv = as_ints(t);
    let left = ct.left();
    let right = ct.right();
    lemma_element_generator::<G1>(G1_GENERATOR@, n);
    lemma_element_pow::<G1>(G1_GENERATOR@, n, 1, gamma);
    assert forall|q: int| 0 <= q < 2 * L implies #[trigger] left[q] == e1(alphas[q]) by {
        let i = q / 2;
        let k = q % 2;
        assert(q == 2 * i + k);
        assert(0 <= i < L);
        assert(left[2 * i + k] == left_point(w, k, xs[i], gamma, sgp.public().first()[i]));
        assert(s[i] < n);
        assert(sgp.public().first()[i] == g1_scaled(G1_GENERATOR@, s[i]));
        lemma_left_point(w, k, xs[i], gamma, s[i], sgp.public().first()[i]);
    }
    assert forall|q: int| 0 <= q < 2 * L implies #[trigger] right[q] == e2(betas[q]) by {
        let j = q / 2;
        let k = q % 2;
        assert(q == 2 * j + k);
        assert(0 <= j < L);
        assert(right[2 * j + k] == right_point(w, k, ys[j], sgp.public().second()[j]));
        assert(s[j] < n);
        assert(t[j] < n);
        assert(sgp.public().second()[j] == g2_scaled(G2_GENERATOR@, t[j]));
        lemma_right_point(w, k, ys[j], t[j], sgp.public().second()[j]);
    }
    assert forall|i: int, k: int| 0 <= i < L && 0 <= k < 2 implies (#[trigger] alphas[2 * i + k])
        % order() == blinded_left(w, gamma as int, xv, sv, i, k) % order() by {
        assert((2 * i + k) / 2 == i && (2 * i + k) % 2 == k);
        assert(s[i] < n);
        assert(sgp.public().first()[i] == g1_scaled(G1_GENERATOR@, s[i]));
        lemma_left_point(w, k, xs[i], gamma, s[i], sgp.public().first()[i]);
    }
    assert forall|j: int, k: int| 0 <= j < L && 0 <= k < 2 implies (#[trigger] betas[2 * j + k])
        % order() == blinded_right(w, yv, tv, j, k) % order() by {
        assert((2 * j + k) / 2 == j && (2 * j + k) % 2 == k);
        assert(s[j] < n);
        assert(t[j] < n);
        assert(sgp.public().second()[j] == g2_scaled(G2_GENERATOR@, t[j]));
        lemma_right_point(w, k, ys[j], t[j], sgp.public().second()[j]);
    }
}

/// The form of a matrix of scalars on scalars is congruent to the form of a matrix of
/// integers on integers, where the scalars are congruent to the integers.
proof fn lemma_form_congruent(
    xv: Seq<int>,
    yv: Seq<int>,
    m: &BigNumMatrix,
    x: Seq<int>,
    y: Seq<int>,
    f: &BigIntMatrix,
)
    requires
        is_reduction_of(m, f),
        xv.len() == f.n_rows,
        x.len() == f.n_rows,
        yv.len() == f.n_cols,
        y.len() == f.n_cols,
        forall|i: int| 0 <= i < f.n_rows ==> (#[trigger] xv[i]) % order() == x[i] % order(),
        forall|j: int| 0 <= j < f.n_cols ==> (#[trigger] yv[j]) % order() == y[j] % order(),
    ensures
        flat_total(plain_term(xv, yv, m), f.n_cols as nat, (f.n_rows * f.n_cols) as nat) % order()
            == quadratic_form(x, y, f, f.n_rows as nat) % order(),
{
    let plain = plain_term(xv, yv, m);
    let form = form_term(x, y, f);
    let rows = f.n_rows as nat;
    let cols = f.n_cols as nat;
    let all = (f.n_rows * f.n_cols) as nat;
    if cols > 0 {
        assert forall|i: int, j: int| 0 <= i && 0 <= j < cols && i * cols + j < all implies #[trigger] plain(
            i,
            j,
        ) % order() == form(i, j) % order() by {
            if i >= rows {
                assert(i * cols >= rows * cols) by (nonlinear_arith)
                    requires
                        i >= rows,
                        cols > 0,
                ;
            }
            let e = m.at(i, j) as int;
            assert(e == f.at(i, j) % order());
            lemma_mul_mod_noop(xv[i], yv[j], order());
            lemma_mul_mod_noop(x[i], y[j], order());
            lemma_mul_mod_noop(xv[i] * yv[j], e, order());
            lemma_mul_mod_noop(x[i] * y[j], f.at(i, j), order());
            lemma_mod_twice(f.at(i, j), order());
            assert(f.at(i, j) * x[i] * y[j] == (x[i] * y[j]) * f.at(i, j)) by (nonlinear_arith);
        }
        lemma_flat_total_congruent(plain, form, cols, all, order());
    } else {
        assert(f.n_rows * f.n_cols == 0) by (nonlinear_arith)
            requires
                f.n_cols == 0,
        ;
    }
    lemma_flat_total_all(form, rows, cols);
    lemma_form_is_total(x, y, f, rows);
}

/// The search of decryption finds the value of a form whose numbers are of a size of at
/// most `bound`.
proof fn lemma_form_is_found(
    target: Seq<u8>,
    x: Seq<int>,
    y: Seq<int>,
    f: &BigIntMatrix,
    bound: int,
)
    requires
        pairing_groups(),
        x.len() == f.n_rows,
        y.len() == f.n_cols,
        target == et(quadratic_form(x, y, f, f.n_rows as nat)),
        bound >= 0,
        forall|i: int| 0 <= i < f.n_rows ==> -bound <= #[trigger] x[i] <= bound,
        forall|j: int| 0 <= j < f.n_cols ==> -bound <= #[trigger] y[j] <= bound,
        forall|i: int, j: int|
            0 <= i < f.n_rows && 0 <= j < f.n_cols ==> -bound <= #[trigger] f.at(i, j) <= bound,
        quadratic_bound(bound, (f.n_rows * f.n_cols) as nat) <= MAX_BOUND,
    ensures
        dlog_spec::<Gt>(
            target,
            pairing_base(),
            step_count(search_size(quadratic_bound(bound, (f.n_rows * f.n_cols) as nat))),
        ) == Some(quadratic_form(x, y, f, f.n_rows as nat)),
{
    let n = curve_order_value();
    let qf = quadratic_form(x, y, f, f.n_rows as nat);
    lemma_form_size(x, y, f, bound, f.n_rows as nat);
    lemma_form_is_total(x, y, f, f.n_rows as nat);
    let cube = bound * bound * bound;
    assert(cube >= 0) by (nonlinear_arith)
        requires
            bound >= 0,
            cube == bound * bound * bound,
    ;
    assert(cube * (f.n_rows * f.n_cols) >= 0) by (nonlinear_arith)
        requires
            cube >= 0,
    ;
    let b = search_size(quadratic_bound(bound, (f.n_rows * f.n_cols) as nat));
    lemma_order_is_large(b);
    lemma_search_finds::<Gt>(pairing_base(), n, qf, b);
}

/// Where the curve library computes in cyclic groups with a bilinear pairing, decryption
/// recovers the quadratic form: for a ciphertext of `x` and `y` made with a blinding matrix
/// that has an inverse, and the key for the form of `f`, with all numbers of a size of at
/// most `bound`, the search of decryption returns the sum of `f[i][j] * x[i] * y[j]`.
pub proof fn lemma_sgp_decrypts<const L: usize>(
    sgp: &Sgp<L>,
    x: Seq<int>,
    y: Seq<int>,
    w: &BigNumMatrix2x2,
    gamma: nat,
    ct: &SgpCipher<L>,
    f: &BigIntMatrix,
    dk: &SgpDecKey,
    bound: int,
)
    requires
        pairing_groups(),
        sgp.wf(),
        x.len() == L,
        y.len() == L,
        w.has_inverse(order()),
        gamma < big_limit(),
        sgp.is_encryption(x, y, w, gamma, ct),
        f.n_rows == L,
        f.n_cols == L,
        dk.wf(),
        is_reduction_of(&dk.matrix(), f),
        dk.point() == g2_scaled(
            G2_GENERATOR@,
            key_scalar(sgp.secret().first(), f, sgp.secret().second()),
        ),
        bound >= 0,
        forall|i: int| 0 <= i < L ==> -bound <= #[trigger] x[i] <= bound,
        forall|i: int| 0 <= i < L ==> -bound <= #[trigger] y[i] <= bound,
        forall|i: int, j: int| 0 <= i < L && 0 <= j < L ==> -bound <= #[trigger] f.at(i, j) <= bound,
        quadratic_bound(bound, (L * L) as nat) <= MAX_BOUND,
    ensures
        dlog_spec::<Gt>(
            Sgp::<L>::target(ct, dk),
            pairing_base(),
            step_count(search_size(quadratic_bound(bound, (L * L) as nat))),
        ) == Some(quadratic_form(x, y, f, L as nat)),
{
    let n = curve_order_value();
    let m = dk.matrix();
    let s = sgp.secret().first();
    let t = sgp.secret().second();
    let xs = scalars_of(x);
    let ys = scalars_of(y);
    let alphas = left_exponents(w, xs, gamma, s);
    let betas = right_exponents(w, ys, t);
    let xv = as_ints(xs);
    let yv = as_ints(ys);
    lemma_order_below_limit();
    lemma_cipher_exponents(sgp, x, y, w, gamma, ct);
    // the exponent of the key
    let kappa = form_exponent(s, f, t);
    lemma_form_exponent_is_scalar(s, f, t, &m);
    lemma_mod_bound(scalar_product(form_row(s, f), t, f.n_cols as nat) as int, order());
    lemma_element_generator::<G2>(G2_GENERATOR@, n);
    lemma_element_pow::<G2>(G2_GENERATOR@, n, 1, kappa);
    lemma_key_exponent_total(s, f, t, &m);
    assert forall|i: int, j: int| 0 <= i < m.n_rows && 0 <= j < m.n_cols implies #[trigger] m.at(
        i,
        j,
    ) < n by {
        lemma_mod_bound(f.at(i, j), order());
    }
    lemma_blinded_target(
        w,
        gamma as int,
        xv,
        as_ints(s),
        yv,
        as_ints(t),
        alphas,
        betas,
        kappa as int,
        ct.left(),
        ct.right(),
        &m,
    );
    // the form on the scalars is that on the integers, modulo the group order
    assert forall|i: int| 0 <= i < L implies (#[trigger] xv[i]) % order() == x[i] % order() by {
        lemma_mod_twice(x[i], order());
    }
    assert forall|j: int| 0 <= j < L implies (#[trigger] yv[j]) % order() == y[j] % order() by {
        lemma_mod_twice(y[j], order());
    }
    lemma_form_congruent(xv, yv, &m, x, y, f);
    let qf = quadratic_form(x, y, f, L as nat);
    lemma_element_same::<Gt>(
        pairing_base(),
        n,
        flat_total(plain_term(xv, yv, &m), L as nat, (L * L) as nat),
        qf,
    );
    // and the search finds it
    lemma_form_is_found(Sgp::<L>::target(ct, dk), x, y, f, bound);
}

// ---------------------------------------------------------------------------
// Projection composes with a projected key
// ---------------------------------------------------------------------------
/// The exponent of a point of a projected ciphertext: the sum over the first `n`
/// coordinates of the exponent of the `k`-th point times the element of `p`.
spec fn projected_exponent(exps: Seq<int>, p: &BigIntMatrix, i: int, k: int, n: nat) -> int
    decreases n,
{
    if n == 0 {
        0
    } else {
        projected_exponent(exps, p, i, k, (n - 1) as nat) + exps[2 * (n - 1) + k] * ((p.at(
            n - 1,
            i,
        ) % order()) as nat)
    }
}

proof fn lemma_projected_left(
    left: Seq<Seq<u8>>,
    alphas: Seq<int>,
    p: &BigIntMatrix,
    i: int,
    k: int,
    n: nat,
)
    requires
        pairing_groups(),
        0 <= k < 2,
        2 * n <= left.len(),
        forall|q: int| 0 <= q < 2 * n ==> #[trigger] left[q] == e1(alphas[q]),
    ensures
        projected_left(left, p, i, k, n) == e1(projected_exponent(alphas, p, i, k, n)),
    decreases n,
{
    let order_n = curve_order_value();
    lemma_element_generator::<G1>(G1_GENERATOR@, order_n);
    if n > 0 {
        lemma_projected_left(left, alphas, p, i, k, (n - 1) as nat);
        let q = 2 * (n - 1) + k;
        let e = (p.at(n - 1, i) % order()) as nat;
        lemma_mod_bound(p.at(n - 1, i), order());
        lemma_order_below_limit();
        assert(left[q] == e1(alphas[q]));
        lemma_element_pow::<G1>(G1_GENERATOR@, order_n, alphas[q], e);
        lemma_element_op::<G1>(
            G1_GENERATOR@,
            order_n,
            projected_exponent(alphas, p, i, k, (n - 1) as nat),
            alphas[q] * e,
        );
    }
}

proof fn lemma_projected_right(
    right: Seq<Seq<u8>>,
    betas: Seq<int>,
    p: &BigIntMatrix,
    i: int,
    k: int,
    n: nat,
)
    requires
        pairing_groups(),
        0 <= k < 2,
        2 * n <= right.len(),
        forall|q: int| 0 <= q < 2 * n ==> #[trigger] right[q] == e2(betas[q]),
    ensures
        projected_right(right, p, i, k, n) == e2(projected_exponent(betas, p, i, k, n)),
    decreases n,
{
    let order_n = curve_order_value();
    lemma_element_generator::<G2>(G2_GENERATOR@, order_n);
    if n > 0 {
        lemma_projected_right(right, betas, p, i, k, (n - 1) as nat);
        let q = 2 * (n - 1) + k;
        let e = (p.at(n - 1, i) % order()) as nat;
        lemma_mod_bound(p.at(n - 1, i), order());
        lemma_order_below_limit();
        assert(right[q] == e2(betas[q]));
        lemma_element_pow::<G2>(G2_GENERATOR@, order_n, betas[q], e);
        lemma_element_op::<G2>(
            G2_GENERATOR@,
            order_n,
            projected_exponent(betas, p, i, k, (n - 1) as nat),
            betas[q] * e,
        );
    }
}

/// A projection of blinded exponents is a blinding of the projected scalars: the sum is
/// congruent to `c0` times the projection of `u` plus `c1` times the projection of `v`,
/// where each exponent is congruent to `c0` times its element of `u` plus `c1` times its
/// element of `v`.
proof fn lemma_projection_is_linear(
    exps: Seq<int>,
    c0: int,
    c1: int,
    u: Seq<nat>,
    v: Seq<nat>,
    p: &BigIntMatrix,
    i: int,
    k: int,
    n: nat,
)
    requires
        0 <= k < 2,
        2 * n <= exps.len(),
        n <= u.len(),
        n <= v.len(),
        forall|j: int|
            0 <= j < n ==> (#[trigger] exps[2 * j + k]) % order() == (c0 * u[j] + c1 * v[j])
                % order(),
    ensures
        projected_exponent(exps, p, i, k, n) % order() == (c0 * form_column(u, p, i, n) + c1
            * form_column(v, p, i, n)) % order(),
    decreases n,
{
    let m = order();
    if n > 0 {
        lemma_projection_is_linear(exps, c0, c1, u, v, p, i, k, (n - 1) as nat);
        let j = n - 1;
        let e = ((p.at(j, i) % order()) as nat) as int;
        let a = exps[2 * j + k];
        let b = c0 * u[j] + c1 * v[j];
        let before = projected_exponent(exps, p, i, k, (n - 1) as nat);
        let fu = form_column(u, p, i, (n - 1) as nat) as int;
        let fv = form_column(v, p, i, (n - 1) as nat) as int;
        lemma_mul_mod_noop_left(a, e, m);
        lemma_mul_mod_noop_left(b, e, m);
        lemma_add_mod_noop(before, a * e, m);
        lemma_add_mod_noop(c0 * fu + c1 * fv, b * e, m);
        let uj = u[j] as int;
        let vj = v[j] as int;
        assert(b * e == c0 * (uj * e) + c1 * (vj * e)) by (nonlinear_arith)
            requires
                b == c0 * uj + c1 * vj,
        ;
        assert(c0 * (fu + uj * e) == c0 * fu + c0 * (uj * e)) by (nonlinear_arith);
        assert(c1 * (fv + vj * e) == c1 * fv + c1 * (vj * e)) by (nonlinear_arith);
        assert(form_column(u, p, i, n) == fu + uj * e);
        assert(form_column(v, p, i, n) == fv + vj * e);
    } else {
        assert(c0 * 0 + c1 * 0 == 0) by (nonlinear_arith);
    }
}

/// The projection of scalars is congruent to the projection of the integers they stand for.
proof fn lemma_projection_congruent(u: Seq<nat>, x: Seq<int>, p: &BigIntMatrix, i: int, n: nat)
    requires
        n <= x.len(),
        n <= u.len(),
        forall|j: int| 0 <= j < n ==> (#[trigger] u[j]) as int % order() == x[j] % order(),
    ensures
        (form_column(u, p, i, n) as int) % order() == vector_column(x, p, i, n) % order(),
    decreases n,
{
    let m = order();
    if n > 0 {
        lemma_projection_congruent(u, x, p, i, (n - 1) as nat);
        let j = n - 1;
        let uj = u[j] as int;
        assert(uj % m == x[j] % m);
        lemma_mod_bound(p.at(j, i), m);
        lemma_mul_mod_noop(uj, p.at(j, i) % m, m);
        lemma_mul_mod_noop(x[j], p.at(j, i), m);
        lemma_mod_twice(p.at(j, i), m);
        lemma_add_mod_noop(
            form_column(u, p, i, (n - 1) as nat) as int,
            uj * (p.at(j, i) % m),
            m,
        );
        lemma_add_mod_noop(vector_column(x, p, i, (n - 1) as nat), x[j] * p.at(j, i), m);
    }
}

/// The scalar that key derivation computes, with its reductions on the way, is the form on
/// the secrets modulo the group order.
pub proof fn lemma_form_exponent_is_scalar(
    s: Seq<nat>,
    f: &BigIntMatrix,
    t: Seq<nat>,
    m: &BigNumMatrix,
)
    requires
        is_reduction_of(m, f),
        s.len() == f.n_rows,
        t.len() == f.n_cols,
    ensures
        form_exponent(s, f, t) == key_scalar(s, f, t),
{
    let sv = as_ints(s);
    let tv = as_ints(t);
    lemma_key_exponent_total(s, f, t, m);
    lemma_secret_total_is_form(sv, tv, m, sv, tv, f);
    lemma_mod_bound(scalar_product(form_row(s, f), t, f.n_cols as nat) as int, order());
    lemma_small_mod(form_exponent(s, f, t), curve_order_value());
    lemma_mod_bound(quadratic_form(sv, tv, f, f.n_rows as nat), order());
}

/// The form on the secrets, with the factors in the order of key derivation, is congruent
/// to the form of the matrix of integers on integers that the secrets are congruent to.
proof fn lemma_secret_total_is_form(
    sv: Seq<int>,
    tv: Seq<int>,
    m: &BigNumMatrix,
    x: Seq<int>,
    y: Seq<int>,
    f: &BigIntMatrix,
)
    requires
        is_reduction_of(m, f),
        sv.len() == f.n_rows,
        x.len() == f.n_rows,
        tv.len() == f.n_cols,
        y.len() == f.n_cols,
        forall|i: int| 0 <= i < f.n_rows ==> (#[trigger] sv[i]) % order() == x[i] % order(),
        forall|j: int| 0 <= j < f.n_cols ==> (#[trigger] tv[j]) % order() == y[j] % order(),
    ensures
        flat_total(secret_term(sv, tv, m), f.n_cols as nat, (f.n_rows * f.n_cols) as nat)
            % order() == quadratic_form(x, y, f, f.n_rows as nat) % order(),
{
    let secret = secret_term(sv, tv, m);
    let plain = plain_term(sv, tv, m);
    let cols = f.n_cols as nat;
    let all = (f.n_rows * f.n_cols) as nat;
    if cols > 0 {
        assert forall|i: int, j: int| 0 <= i && 0 <= j < cols && i * cols + j < all implies #[trigger] secret(
            i,
            j,
        ) % order() == plain(i, j) % order() by {
            let e = m.at(i, j) as int;
            assert(sv[i] * e * tv[j] == sv[i] * tv[j] * e) by (nonlinear_arith);
        }
        lemma_flat_total_congruent(secret, plain, cols, all, order());
    } else {
        assert(f.n_rows * f.n_cols == 0) by (nonlinear_arith)
            requires
                f.n_cols == 0,
        ;
    }
    lemma_form_congruent(sv, tv, m, x, y, f);
}

/// The scalar that key derivation computes after a projection is the form on the projected
/// secrets modulo the group order.
pub proof fn lemma_projected_exponent_is_scalar(
    s: Seq<nat>,
    t: Seq<nat>,
    p: &BigIntMatrix,
    q: &BigIntMatrix,
    m: &BigNumMatrix,
)
    requires
        is_reduction_of(m, q),
        s.len() == p.n_rows,
        t.len() == p.n_rows,
        q.n_rows == p.n_cols,
        q.n_cols == p.n_cols,
    ensures
        form_exponent(form_row(s, p), q, form_row(t, p)) == projected_key_scalar(s, p, q, t),
{
    let ps = form_row(s, p);
    let pt = form_row(t, p);
    let sp = projected_vector(as_ints(s), p);
    let tp = projected_vector(as_ints(t), p);
    lemma_key_exponent_total(ps, q, pt, m);
    assert forall|i: int| 0 <= i < q.n_rows implies (#[trigger] as_ints(ps)[i]) % order() == sp[i]
        % order() by {
        lemma_projection_congruent(s, as_ints(s), p, i, p.n_rows as nat);
        lemma_mod_twice(form_column(s, p, i, p.n_rows as nat) as int, order());
    }
    assert forall|j: int| 0 <= j < q.n_cols implies (#[trigger] as_ints(pt)[j]) % order() == tp[j]
        % order() by {
        lemma_projection_congruent(t, as_ints(t), p, j, p.n_rows as nat);
        lemma_mod_twice(form_column(t, p, j, p.n_rows as nat) as int, order());
    }
    lemma_secret_total_is_form(as_ints(ps), as_ints(pt), m, sp, tp, q);
    lemma_mod_bound(scalar_product(form_row(ps, q), pt, q.n_cols as nat) as int, order());
    lemma_small_mod(form_exponent(ps, q, pt), curve_order_value());
    lemma_mod_bound(quadratic_form(sp, tp, q, q.n_rows as nat), order());
}

/// Where the curve library computes in cyclic groups with a bilinear pairing, projection
/// composes with a projected key: for the projection by `p` of a ciphertext of `x` and `y`,
/// and the key for the form of `q` after the projection `p`, decryption returns the form of
/// `q` on the vectors `x` times `p` and `y` times `p`, where these and the elements of `q` are
/// of a size of at most `bound`.
pub proof fn lemma_projection_decrypts<const L: usize>(
    sgp: &Sgp<L>,
    x: Seq<int>,
    y: Seq<int>,
    w: &BigNumMatrix2x2,
    gamma: nat,
    ct: &SgpCipher<L>,
    p: &BigIntMatrix,
    pct: &SgpCipher<L>,
    q: &BigIntMatrix,
    dk: &SgpDecKey,
    bound: int,
)
    requires
        pairing_groups(),
        sgp.wf(),
        x.len() == L,
        y.len() == L,
        w.has_inverse(order()),
        gamma < big_limit(),
        sgp.is_encryption(x, y, w, gamma, ct),
        p.n_rows == L,
        is_projection(ct, p, pct),
        q.n_rows == p.n_cols,
        q.n_cols == p.n_cols,
        dk.wf(),
        is_reduction_of(&dk.matrix(), q),
        dk.point() == g2_scaled(
            G2_GENERATOR@,
            projected_key_scalar(sgp.secret().first(), p, q, sgp.secret().second()),
        ),
        bound >= 0,
        forall|i: int| 0 <= i < p.n_cols ==> -bound <= #[trigger] projected_vector(x, p)[i] <= bound,
        forall|i: int| 0 <= i < p.n_cols ==> -bound <= #[trigger] projected_vector(y, p)[i] <= bound,
        forall|i: int, j: int|
            0 <= i < p.n_cols && 0 <= j < p.n_cols ==> -bound <= #[trigger] q.at(i, j) <= bound,
        quadratic_bound(bound, (p.n_cols * p.n_cols) as nat) <= MAX_BOUND,
    ensures
        dlog_spec::<Gt>(
            Sgp::<L>::target(pct, dk),
            pairing_base(),
            step_count(search_size(quadratic_bound(bound, (p.n_cols * p.n_cols) as nat))),
        ) == Some(
            quadratic_form(projected_vector(x, p), projected_vector(y, p), q, p.n_cols as nat),
        ),
{
    let n = curve_order_value();
    let d = p.n_cols as nat;
    let m = dk.matrix();
    let s = sgp.secret().first();
    let t = sgp.secret().second();
    let xs = scalars_of(x);
    let ys = scalars_of(y);
    let alphas = left_exponents(w, xs, gamma, s);
    let betas = right_exponents(w, ys, t);
    lemma_order_below_limit();
    lemma_cipher_exponents(sgp, x, y, w, gamma, ct);
    // the exponents of the projected ciphertext, and what they blind
    let palphas = Seq::new(2 * d, |r: int| projected_exponent(alphas, p, r / 2, r % 2, L as nat));
    let pbetas = Seq::new(2 * d, |r: int| projected_exponent(betas, p, r / 2, r % 2, L as nat));
    let px = Seq::new(d, |i: int| form_column(xs, p, i, L as nat) as int);
    let py = Seq::new(d, |i: int| form_column(ys, p, i, L as nat) as int);
    let ps = as_ints(form_row(s, p));
    let pt = as_ints(form_row(t, p));
    assert forall|r: int| 0 <= r < pct.left().len() implies #[trigger] pct.left()[r] == e1(
        palphas[r],
    ) by {
        let i = r / 2;
        let k = r % 2;
        assert(r == 2 * i + k);
        assert(pct.left()[2 * i + k] == projected_left(ct.left(), p, i, k, L as nat));
        lemma_projected_left(ct.left(), alphas, p, i, k, L as nat);
    }
    assert forall|r: int| 0 <= r < pct.right().len() implies #[trigger] pct.right()[r] == e2(
        pbetas[r],
    ) by {
        let i = r / 2;
        let k = r % 2;
        assert(r == 2 * i + k);
        assert(pct.right()[2 * i + k] == projected_right(ct.right(), p, i, k, L as nat));
        lemma_projected_right(ct.right(), betas, p, i, k, L as nat);
    }
    let gi = gamma as int;
    assert forall|i: int, k: int| 0 <= i < d && 0 <= k < 2 implies (#[trigger] palphas[2 * i + k])
        % order() == blinded_left(w, gi, px, ps, i, k) % order() by {
        assert((2 * i + k) / 2 == i && (2 * i + k) % 2 == k);
        let c0 = w.inverse_at(order(), 0, k);
        let c1 = w.inverse_at(order(), 1, k) * gi;
        assert forall|j: int| 0 <= j < L implies (#[trigger] alphas[2 * j + k]) % order() == (c0
            * xs[j] + c1 * s[j]) % order() by {
            assert(alphas[2 * j + k] % order() == blinded_left(
                w,
                gi,
                as_ints(xs),
                as_ints(s),
                j,
                k,
            ) % order());
            assert(w.inverse_at(order(), 1, k) * (gi * s[j]) == c1 * s[j]) by (nonlinear_arith)
                requires
                    c1 == w.inverse_at(order(), 1, k) * gi,
            ;
        }
        lemma_projection_is_linear(alphas, c0, c1, xs, s, p, i, k, L as nat);
        // the projected secret is held reduced
        let fs = form_column(s, p, i, L as nat) as int;
        assert(ps[i] == fs % order());
        lemma_mul_mod_noop_right(c1, fs, order());
        lemma_add_mod_noop(c0 * px[i], c1 * fs, order());
        lemma_add_mod_noop(c0 * px[i], c1 * ps[i], order());
        assert(w.inverse_at(order(), 1, k) * (gi * ps[i]) == c1 * ps[i]) by (nonlinear_arith)
            requires
                c1 == w.inverse_at(order(), 1, k) * gi,
        ;
    }
    assert forall|j: int, k: int| 0 <= j < d && 0 <= k < 2 implies (#[trigger] pbetas[2 * j + k])
        % order() == blinded_right(w, py, pt, j, k) % order() by {
        assert((2 * j + k) / 2 == j && (2 * j + k) % 2 == k);
        let c0 = w.at(k, 0) as int;
        let c1 = -(w.at(k, 1) as int);
        assert forall|i: int| 0 <= i < L implies (#[trigger] betas[2 * i + k]) % order() == (c0
            * ys[i] + c1 * t[i]) % order() by {
            assert(betas[2 * i + k] % order() == blinded_right(
                w,
                as_ints(ys),
                as_ints(t),
                i,
                k,
            ) % order());
            assert(w.at(k, 0) * ys[i] - w.at(k, 1) * t[i] == c0 * ys[i] + c1 * t[i])
                by (nonlinear_arith)
                requires
                    c0 == w.at(k, 0),
                    c1 == -(w.at(k, 1) as int),
            ;
        }
        lemma_projection_is_linear(betas, c0, c1, ys, t, p, j, k, L as nat);
        let ft = form_column(t, p, j, L as nat) as int;
        assert(pt[j] == ft % order());
        lemma_mul_mod_noop_right(c1, ft, order());
        lemma_add_mod_noop(c0 * py[j], c1 * ft, order());
        lemma_add_mod_noop(c0 * py[j], c1 * pt[j], order());
        assert(w.at(k, 0) * py[j] - w.at(k, 1) * pt[j] == c0 * py[j] + c1 * pt[j])
            by (nonlinear_arith)
            requires
                c0 == w.at(k, 0),
                c1 == -(w.at(k, 1) as int),
        ;
    }
    // the exponent of the key
    let kappa = form_exponent(form_row(s, p), q, form_row(t, p));
    lemma_projected_exponent_is_scalar(s, t, p, q, &m);
    lemma_mod_bound(
        scalar_product(form_row(form_row(s, p), q), form_row(t, p), q.n_cols as nat) as int,
        order(),
    );
    lemma_element_generator::<G2>(G2_GENERATOR@, n);
    lemma_element_pow::<G2>(G2_GENERATOR@, n, 1, kappa);
    lemma_key_exponent_total(form_row(s, p), q, form_row(t, p), &m);
    assert forall|i: int, j: int| 0 <= i < m.n_rows && 0 <= j < m.n_cols implies #[trigger] m.at(
        i,
        j,
    ) < n by {
        lemma_mod_bound(q.at(i, j), order());
    }
    lemma_blinded_target(
        w,
        gi,
        px,
        ps,
        py,
        pt,
        palphas,
        pbetas,
        kappa as int,
        pct.left(),
        pct.right(),
        &m,
    );
    // the form on the projected scalars is that on the projected integers
    let xp = projected_vector(x, p);
    let yp = projected_vector(y, p);
    assert forall|i: int| 0 <= i < d implies (#[trigger] px[i]) % order() == xp[i] % order() by {
        assert forall|j: int| 0 <= j < L implies (#[trigger] xs[j]) as int % order() == x[j]
            % order() by {
            lemma_mod_twice(x[j], order());
        }
        lemma_projection_congruent(xs, x, p, i, L as nat);
    }
    assert forall|j: int| 0 <= j < d implies (#[trigger] py[j]) % order() == yp[j] % order() by {
        assert forall|i: int| 0 <= i < L implies (#[trigger] ys[i]) as int % order() == y[i]
            % order() by {
            lemma_mod_twice(y[i], order());
        }
        lemma_projection_congruent(ys, y, p, j, L as nat);
    }
    lemma_form_congruent(px, py, &m, xp, yp, q);
    let qf = quadratic_form(xp, yp, q, d);
    lemma_element_same::<Gt>(
        pairing_base(),
        n,
        flat_total(plain_term(px, py, &m), d, (d * d) as nat),
        qf,
    );
    // and the search finds it
    lemma_form_is_found(Sgp::<L>::target(pct, dk), xp, yp, q, bound);
}

} // verus!
