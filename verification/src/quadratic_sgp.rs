use crate::define::big_curve_order;
use crate::define::big_modmul;
use crate::define::big_modneg;
use crate::define::big_to_bigint;
use crate::define::curve_order_value;
use crate::define::int_from_u64;
use crate::define::int_mul;
use crate::define::BigInt;
use crate::define::BigNum;
use crate::error::FeError;
use crate::group::g1_identity;
use crate::group::g1_scaled;
use crate::group::g1_sum;
use crate::group::g2_identity;
use crate::group::g2_scaled;
use crate::group::g2_sum;
use crate::group::gt_identity;
use crate::group::gt_power;
use crate::group::gt_product;
use crate::group::pairing;
use crate::group::pairing_value;
use crate::group::G1Vector;
use crate::group::G2Vector;
use crate::group::Group;
use crate::group::Gt;
use crate::group::G1;
use crate::group::G1_GENERATOR;
use crate::group::G2;
use crate::group::G2_GENERATOR;
use crate::group::g1_encodings;
use crate::group::g2_encodings;
use crate::group::pairing_base;
use crate::math::matrix::convert;
use crate::quadratic_laws::lemma_form_exponent_is_scalar;
use crate::quadratic_laws::lemma_projected_exponent_is_scalar;
use crate::utils::quadratic_form;
use crate::math::matrix::flat;
use crate::math::matrix::lemma_flat_in_range;
use crate::math::matrix::BigIntMatrix;
use crate::math::matrix::BigNumMatrix;
use crate::math::matrix::BigNumMatrix2x2;
use crate::traits::FunctionalEncryption;
use crate::utils::dlog::bounded_search;
use crate::utils::dlog::dlog_spec;
use crate::utils::dlog::step_count;
use crate::utils::dlog::value_of;
use crate::utils::dlog::MAX_BOUND;
use crate::utils::rand_utils::advanced;
use crate::utils::rand_utils::draw_seed;
use crate::utils::rand_utils::lemma_advanced_adds;
use crate::utils::rand_utils::next_state;
use crate::utils::rand_utils::seeded_scalar;
use crate::utils::rand_utils::RandUtilsRAND;
use crate::utils::rand_utils::Sample;
use crate::utils::scalars_of;
use crate::utils::to_scalar;
use crate::utils::values;
use vstd::prelude::*;

verus! {

/// How often encryption draws a blinding matrix before it gives up on finding one that has
/// an inverse.
pub const BLINDING_ATTEMPTS: usize = 64;

/// The scalar below the group order of the draw number `k` from `state`.
pub open spec fn drawn_scalar(state: Seq<u8>, k: nat) -> nat {
    seeded_scalar(draw_seed(advanced(state, k)), curve_order_value())
}

/// The state from which encryption draws the blinding matrix of the attempt number
/// `attempt`, where it began in the state `start`: one draw gives the scalar of the
/// ciphertext, and four give each matrix.
pub open spec fn blinding_state(start: Seq<u8>, attempt: nat) -> Seq<u8> {
    advanced(start, 1 + 4 * attempt)
}

/// The elements of `w` are the scalars of the four draws from `state`, row by row.
pub open spec fn is_drawn(w: &BigNumMatrix2x2, state: Seq<u8>) -> bool {
    &&& w.wf()
    &&& forall|i: int, j: int|
        0 <= i < 2 && 0 <= j < 2 ==> #[trigger] w.at(i, j) == drawn_scalar(state, (i * 2 + j) as nat)
}

/// The determinant, over the integers, of the matrix whose elements are the scalars of the
/// four draws from `state`, row by row.
pub open spec fn drawn_det(state: Seq<u8>) -> int {
    drawn_scalar(state, 0) * drawn_scalar(state, 3) - drawn_scalar(state, 1) * drawn_scalar(
        state,
        2,
    )
}

/// The blinding matrix of each of the first `count` attempts has no inverse modulo the
/// group order.
pub open spec fn attempts_fail(start: Seq<u8>, count: nat) -> bool {
    forall|j: nat|
        j < count ==> drawn_det(#[trigger] blinding_state(start, j)) % (curve_order_value() as int)
            == 0
}

/// The values of a sequence of scalars.
pub open spec fn scalar_values(v: Seq<BigNum>) -> Seq<nat> {
    Seq::new(v.len(), |i: int| v[i]@)
}

/// The sum over the first `n` rows `i` of `s[i]` times the element of `f` in row `i` and
/// column `k`.
pub open spec fn column_sum(s: Seq<nat>, f: &BigNumMatrix, k: int, n: nat) -> nat
    decreases n,
{
    if n == 0 {
        0
    } else {
        column_sum(s, f, k, (n - 1) as nat) + s[n - 1] * f.at(n - 1, k)
    }
}

/// The row vector `s` times the matrix `f`, each element reduced modulo the group order.
pub open spec fn row_times(s: Seq<nat>, f: &BigNumMatrix) -> Seq<nat> {
    Seq::new(
        f.n_cols as nat,
        |k: int| column_sum(s, f, k, f.n_rows as nat) % curve_order_value(),
    )
}

/// The sum of the products of the first `n` elements of `u` and `t`.
pub open spec fn scalar_product(u: Seq<nat>, t: Seq<nat>, n: nat) -> nat
    decreases n,
{
    if n == 0 {
        0
    } else {
        scalar_product(u, t, (n - 1) as nat) + u[n - 1] * t[n - 1]
    }
}

/// The scalar of a key: the row vector `s` times the matrix `f` times the column vector
/// `t`, modulo the group order.
pub open spec fn key_exponent(s: Seq<nat>, f: &BigNumMatrix, t: Seq<nat>) -> nat {
    scalar_product(row_times(s, f), t, f.n_cols as nat) % curve_order_value()
}

/// The `k`-th of the two points of the first group that blind the scalar `x` of one
/// coordinate: with the column `k` of the inverse of the blinding matrix `w`, the generator
/// multiplied by its first element times `x`, plus the public point multiplied by its second
/// element times `gamma`.
pub open spec fn left_point(
    w: &BigNumMatrix2x2,
    k: int,
    x: nat,
    gamma: nat,
    public: Seq<u8>,
) -> Seq<u8> {
    let n = curve_order_value() as int;
    g1_sum(
        g1_scaled(G1_GENERATOR@, ((w.inverse_at(n, 0, k) * x) % n) as nat),
        g1_scaled(public, ((w.inverse_at(n, 1, k) * gamma) % n) as nat),
    )
}

/// The `k`-th of the two points of the second group that blind the scalar `y` of one
/// coordinate: with the row `k` of the blinding matrix `w`, the generator multiplied by its
/// first element times `y`, plus the public point multiplied by the negative of its second
/// element.
pub open spec fn right_point(w: &BigNumMatrix2x2, k: int, y: nat, public: Seq<u8>) -> Seq<u8> {
    let n = curve_order_value();
    g2_sum(
        g2_scaled(G2_GENERATOR@, (w.at(k, 0) * y) % n),
        g2_scaled(public, (n - w.at(k, 1) % n) as nat),
    )
}

/// The sum over the first `n` coordinates `j` of the `k`-th point of coordinate `j` of `a`,
/// multiplied by the element of `p` in row `j` and column `i` modulo the group order.
pub open spec fn projected_left(a: Seq<Seq<u8>>, p: &BigIntMatrix, i: int, k: int, n: nat) -> Seq<
    u8,
>
    decreases n,
{
    if n == 0 {
        g1_identity()
    } else {
        g1_sum(
            projected_left(a, p, i, k, (n - 1) as nat),
            g1_scaled(
                a[2 * (n - 1) + k],
                (p.at(n - 1, i) % (curve_order_value() as int)) as nat,
            ),
        )
    }
}

/// The same for the points of the second group.
pub open spec fn projected_right(b: Seq<Seq<u8>>, p: &BigIntMatrix, i: int, k: int, n: nat) -> Seq<
    u8,
>
    decreases n,
{
    if n == 0 {
        g2_identity()
    } else {
        g2_sum(
            projected_right(b, p, i, k, (n - 1) as nat),
            g2_scaled(
                b[2 * (n - 1) + k],
                (p.at(n - 1, i) % (curve_order_value() as int)) as nat,
            ),
        )
    }
}

/// What the pair of coordinates `i` and `j` contributes to decryption: the product of the
/// pairings of their first and of their second points, raised to the element of `f` in row
/// `i` and column `j`.
pub open spec fn quadratic_term(a: Seq<Seq<u8>>, b: Seq<Seq<u8>>, f: &BigNumMatrix, i: int, j: int) -> Seq<
    u8,
> {
    gt_power(
        gt_product(
            pairing_value(b[2 * j], a[2 * i]),
            pairing_value(b[2 * j + 1], a[2 * i + 1]),
        ),
        f.at(i, j),
    )
}

/// The element `start` times the contributions of the first `n` pairs of coordinates, row
/// by row.
pub open spec fn quadratic_product(
    start: Seq<u8>,
    a: Seq<Seq<u8>>,
    b: Seq<Seq<u8>>,
    f: &BigNumMatrix,
    n: nat,
) -> Seq<u8>
    decreases n,
{
    if n == 0 {
        start
    } else {
        gt_product(
            quadratic_product(start, a, b, f, (n - 1) as nat),
            quadratic_term(a, b, f, (n - 1) / (f.n_cols as int), (n - 1) % (f.n_cols as int)),
        )
    }
}

/// The bound of the search of a quadratic form of `count` terms, each a product of three
/// numbers of a size of at most `bound`.
pub open spec fn quadratic_bound(bound: int, count: nat) -> int {
    bound * bound * bound * count
}

/// Master secret key: two secret scalars for each coordinate.
#[derive(Debug)]
pub struct SgpSecKey {
    s: Vec<BigNum>,
    t: Vec<BigNum>,
}

/// Master public key: the generators multiplied by the secret scalars.
#[derive(Debug)]
pub struct SgpPubKey {
    g1s: G1Vector,
    g2t: G2Vector,
}

/// Plaintext: two vectors of `L` integers.
pub struct SgpPlain<const L: usize> {
    pub x: Vec<BigInt>,
    pub y: Vec<BigInt>,
}

/// Ciphertext: the generator multiplied by the randomness, and for each coordinate two
/// points of the first and two of the second group.
#[derive(Debug)]
pub struct SgpCipher<const L: usize> {
    g1_mul_gamma: G1,
    a: G1Vector,
    b: G2Vector,
}

/// Key that evaluates a quadratic form: a point of the second group, and the matrix of the
/// form.
#[derive(Debug)]
pub struct SgpDecKey {
    key: G2,
    f: BigNumMatrix,
}

/// Functional encryption for quadratic forms of two vectors of `L` integers.
#[derive(Debug)]
pub struct Sgp<const L: usize> {
    msk: SgpSecKey,
    pk: SgpPubKey,
}

impl SgpSecKey {
    /// The secret scalars of the first vector.
    pub closed spec fn first(&self) -> Seq<nat> {
        scalar_values(self.s@)
    }

    /// The secret scalars of the second vector.
    pub closed spec fn second(&self) -> Seq<nat> {
        scalar_values(self.t@)
    }

    /// The secret scalars of the first vector.
    pub fn s(&self) -> (r: &Vec<BigNum>)
        ensures
            scalar_values(r@) == self.first(),
    {
        &self.s
    }

    /// The secret scalars of the second vector.
    pub fn t(&self) -> (r: &Vec<BigNum>)
        ensures
            scalar_values(r@) == self.second(),
    {
        &self.t
    }
}

impl SgpPubKey {
    /// The encodings of the public points of the first group.
    pub closed spec fn first(&self) -> Seq<Seq<u8>> {
        g1_encodings(self.g1s@)
    }

    /// The encodings of the public points of the second group.
    pub closed spec fn second(&self) -> Seq<Seq<u8>> {
        g2_encodings(self.g2t@)
    }

    /// The public points of the first group.
    pub fn g1s(&self) -> (r: &G1Vector)
        ensures
            g1_encodings(r@) == self.first(),
    {
        &self.g1s
    }

    /// The public points of the second group.
    pub fn g2t(&self) -> (r: &G2Vector)
        ensures
            g2_encodings(r@) == self.second(),
    {
        &self.g2t
    }
}

/// The keys belong together: for each of the `len` coordinates two secret scalars below the
/// group order, and the generators multiplied by them.
pub open spec fn sgp_key_pair(msk: &SgpSecKey, pk: &SgpPubKey, len: nat) -> bool {
    &&& msk.first().len() == len
    &&& msk.second().len() == len
    &&& pk.first().len() == len
    &&& pk.second().len() == len
    &&& forall|i: int|
        0 <= i < len ==> {
            &&& (#[trigger] msk.first()[i]) < curve_order_value()
            &&& msk.second()[i] < curve_order_value()
            &&& pk.first()[i] == g1_scaled(G1_GENERATOR@, msk.first()[i])
            &&& pk.second()[i] == g2_scaled(G2_GENERATOR@, msk.second()[i])
        }
}

impl<const L: usize> SgpCipher<L> {
    /// The encoding of the generator multiplied by the randomness.
    pub closed spec fn top(&self) -> Seq<u8> {
        self.g1_mul_gamma@
    }

    /// The encodings of the points of the first group, two for each coordinate.
    pub closed spec fn left(&self) -> Seq<Seq<u8>> {
        g1_encodings(self.a@)
    }

    /// The encodings of the points of the second group, two for each coordinate.
    pub closed spec fn right(&self) -> Seq<Seq<u8>> {
        g2_encodings(self.b@)
    }

    /// The generator multiplied by the randomness.
    pub fn g1_mul_gamma(&self) -> (r: G1)
        ensures
            r@ == self.top(),
    {
        self.g1_mul_gamma
    }

    /// The points of the first group, two for each coordinate.
    pub fn a(&self) -> (r: &G1Vector)
        ensures
            g1_encodings(r@) == self.left(),
    {
        &self.a
    }

    /// The points of the second group, two for each coordinate.
    pub fn b(&self) -> (r: &G2Vector)
        ensures
            g2_encodings(r@) == self.right(),
    {
        &self.b
    }
}

impl SgpDecKey {
    /// The encoding of the point of the key.
    pub closed spec fn point(&self) -> Seq<u8> {
        self.key@
    }

    /// The matrix of the form, with its elements reduced modulo the group order.
    pub closed spec fn matrix(&self) -> BigNumMatrix {
        self.f
    }

    /// The matrix of the key is well formed.
    pub open spec fn wf(&self) -> bool {
        self.matrix().wf() && self.matrix().n_rows * self.matrix().n_cols <= usize::MAX
    }

    /// The point of the key.
    pub fn key(&self) -> (r: G2)
        ensures
            r@ == self.point(),
    {
        self.key
    }

    /// The matrix of the form, with its elements reduced modulo the group order.
    pub fn f(&self) -> (r: &BigNumMatrix)
        ensures
            *r == self.matrix(),
    {
        &self.f
    }
}

/// The matrix `m` holds the elements of `f`, each reduced modulo the group order.
pub open spec fn is_reduction_of(m: &BigNumMatrix, f: &BigIntMatrix) -> bool {
    &&& m.wf()
    &&& m.n_rows == f.n_rows
    &&& m.n_cols == f.n_cols
    &&& m.modulus@ == curve_order_value()
    &&& forall|i: int, j: int|
        0 <= i < f.n_rows && 0 <= j < f.n_cols ==> #[trigger] m.at(i, j) == f.at(i, j) % (
        curve_order_value() as int)
}

/// The sum over the first `n` rows `i` of `s[i]` times the element of `f` in row `i` and
/// column `k`, reduced modulo the group order.
pub open spec fn form_column(s: Seq<nat>, f: &BigIntMatrix, k: int, n: nat) -> nat
    decreases n,
{
    if n == 0 {
        0
    } else {
        form_column(s, f, k, (n - 1) as nat) + s[n - 1] * ((f.at(n - 1, k) % (
        curve_order_value() as int)) as nat)
    }
}

/// The row vector `s` times the matrix `f` with its elements reduced, each element of the
/// product reduced modulo the group order.
pub open spec fn form_row(s: Seq<nat>, f: &BigIntMatrix) -> Seq<nat> {
    Seq::new(f.n_cols as nat, |k: int| form_column(s, f, k, f.n_rows as nat) % curve_order_value())
}

/// The scalar of the key for the form of `f`: the row vector `s` times `f` times the column
/// vector `t`, modulo the group order.
pub open spec fn form_exponent(s: Seq<nat>, f: &BigIntMatrix, t: Seq<nat>) -> nat {
    scalar_product(form_row(s, f), t, f.n_cols as nat) % curve_order_value()
}

/// The numbers of a sequence as integers.
pub open spec fn as_ints(v: Seq<nat>) -> Seq<int> {
    Seq::new(v.len(), |i: int| v[i] as int)
}

/// The sum over the first `n` rows `j` of `x[j]` times the element of `p` in row `j` and
/// column `i`.
pub open spec fn vector_column(x: Seq<int>, p: &BigIntMatrix, i: int, n: nat) -> int
    decreases n,
{
    if n == 0 {
        0
    } else {
        vector_column(x, p, i, (n - 1) as nat) + x[n - 1] * p.at(n - 1, i)
    }
}

/// The row vector `x` times the matrix `p`, over the integers.
pub open spec fn projected_vector(x: Seq<int>, p: &BigIntMatrix) -> Seq<int> {
    Seq::new(p.n_cols as nat, |i: int| vector_column(x, p, i, p.n_rows as nat))
}

/// The scalar of the key for the form of `f`: the value of the form on the two secret
/// vectors, modulo the group order.
pub open spec fn key_scalar(s: Seq<nat>, f: &BigIntMatrix, t: Seq<nat>) -> nat {
    (quadratic_form(as_ints(s), as_ints(t), f, f.n_rows as nat) % (curve_order_value() as int)) as nat
}

/// The scalar of the key for the form of `q` after the projection `p`: the value of the
/// form on the two secret vectors, each multiplied by `p`, modulo the group order.
pub open spec fn projected_key_scalar(
    s: Seq<nat>,
    p: &BigIntMatrix,
    q: &BigIntMatrix,
    t: Seq<nat>,
) -> nat {
    (quadratic_form(
        projected_vector(as_ints(s), p),
        projected_vector(as_ints(t), p),
        q,
        q.n_rows as nat,
    ) % (curve_order_value() as int)) as nat
}

proof fn lemma_reduction_column(s: Seq<nat>, m: &BigNumMatrix, f: &BigIntMatrix, k: int, n: nat)
    requires
        is_reduction_of(m, f),
        n <= f.n_rows,
        0 <= k < f.n_cols,
    ensures
        column_sum(s, m, k, n) == form_column(s, f, k, n),
    decreases n,
{
    if n > 0 {
        lemma_reduction_column(s, m, f, k, (n - 1) as nat);
        assert(m.at(n - 1, k) == f.at(n - 1, k) % (curve_order_value() as int));
    }
}

proof fn lemma_reduction_row(s: Seq<nat>, m: &BigNumMatrix, f: &BigIntMatrix)
    requires
        is_reduction_of(m, f),
    ensures
        row_times(s, m) == form_row(s, f),
{
    assert forall|k: int| 0 <= k < f.n_cols implies #[trigger] row_times(s, m)[k] == form_row(
        s,
        f,
    )[k] by {
        lemma_reduction_column(s, m, f, k, f.n_rows as nat);
    }
    assert(row_times(s, m) =~= form_row(s, f));
}


proof fn lemma_row_dot(row: &BigNumMatrix, s: Seq<nat>, f: &BigNumMatrix, k: int, n: nat)
    requires
        row.n_rows == 1,
        row.n_cols == s.len(),
        row.data@.len() == s.len(),
        forall|i: int| 0 <= i < s.len() ==> (#[trigger] row.data@[i])@ == s[i],
        n <= s.len(),
    ensures
        row.dot(f, 0, k, n) == column_sum(s, f, k, n),
    decreases n,
{
    if n > 0 {
        lemma_row_dot(row, s, f, k, (n - 1) as nat);
        assert(flat(0, n - 1, row.n_cols as int) == n - 1);
    }
}

proof fn lemma_column_dot(e: &BigNumMatrix, u: Seq<nat>, col: &BigNumMatrix, t: Seq<nat>, n: nat)
    requires
        e.n_rows == 1,
        e.n_cols == u.len(),
        e.data@.len() == u.len(),
        forall|i: int| 0 <= i < u.len() ==> (#[trigger] e.data@[i])@ == u[i],
        col.n_cols == 1,
        col.n_rows == t.len(),
        col.data@.len() == t.len(),
        forall|i: int| 0 <= i < t.len() ==> (#[trigger] col.data@[i])@ == t[i],
        n <= u.len(),
        n <= t.len(),
    ensures
        e.dot(col, 0, 0, n) == scalar_product(u, t, n),
    decreases n,
{
    if n > 0 {
        lemma_column_dot(e, u, col, t, (n - 1) as nat);
        assert(flat(0, n - 1, e.n_cols as int) == n - 1);
        assert(flat(n - 1, 0, col.n_cols as int) == n - 1) by (nonlinear_arith)
            requires
                col.n_cols == 1,
        ;
    }
}

/// The row vector `s` times the matrix `f`, as a matrix of one row.
fn row_product(s: &Vec<BigNum>, f: &BigNumMatrix, order: &BigNum) -> (r: BigNumMatrix)
    requires
        f.wf(),
        s@.len() == f.n_rows,
        order@ == curve_order_value(),
    ensures
        r.wf(),
        r.n_rows == 1,
        r.n_cols == f.n_cols,
        r.modulus@ == curve_order_value(),
        r.data@.len() == f.n_cols,
        scalar_values(r.data@) == row_times(scalar_values(s@), f),
{
    proof {
        assert(1 * s@.len() == s@.len()) by (nonlinear_arith);
        assert(1 * f.n_cols == f.n_cols) by (nonlinear_arith);
    }
    let row = BigNumMatrix::new_bigints(s.as_slice(), 1, s.len(), order).unwrap();
    let r = row.matmul(f).unwrap();
    proof {
        let sv = scalar_values(s@);
        assert forall|k: int| 0 <= k < f.n_cols implies (#[trigger] r.data@[k])@ == row_times(
            sv,
            f,
        )[k] by {
            lemma_row_dot(&row, sv, f, k, f.n_rows as nat);
            assert(flat(0, k, r.n_cols as int) == k);
            assert(r.at(0, k) == row.dot(f, 0, k, row.n_cols as nat) % row.modulus@);
        }
        assert(scalar_values(r.data@) =~= row_times(sv, f));
    }
    r
}

/// The scalar of a key: the row vector `s` times `f` times the column vector `t`.
fn triple_product(s: &Vec<BigNum>, f: &BigNumMatrix, t: &Vec<BigNum>, order: &BigNum) -> (r:
    BigNum)
    requires
        f.wf(),
        s@.len() == f.n_rows,
        t@.len() == f.n_cols,
        order@ == curve_order_value(),
    ensures
        r@ == key_exponent(scalar_values(s@), f, scalar_values(t@)),
{
    let e = row_product(s, f, order);
    proof {
        assert(t@.len() * 1 == t@.len()) by (nonlinear_arith);
        assert(1 * 1 == 1) by (nonlinear_arith);
    }
    let col = BigNumMatrix::new_bigints(t.as_slice(), t.len(), 1, order).unwrap();
    let product = e.matmul(&col).unwrap();
    proof {
        lemma_column_dot(
            &e,
            scalar_values(e.data@),
            &col,
            scalar_values(t@),
            f.n_cols as nat,
        );
        assert(flat(0, 0, product.n_cols as int) == 0);
        assert(product.at(0, 0) == e.dot(&col, 0, 0, e.n_cols as nat) % e.modulus@);
        assert(1 * 1 == 1) by (nonlinear_arith);
    }
    *product.get_element(0, 0)
}

impl<const L: usize> Sgp<L> {
    /// The master secret key.
    pub closed spec fn secret(&self) -> SgpSecKey {
        self.msk
    }

    /// The master public key.
    pub closed spec fn public(&self) -> SgpPubKey {
        self.pk
    }

    /// The master secret key.
    pub fn msk(&self) -> (r: &SgpSecKey)
        ensures
            *r == self.secret(),
    {
        &self.msk
    }

    /// The master public key.
    pub fn pk(&self) -> (r: &SgpPubKey)
        ensures
            *r == self.public(),
    {
        &self.pk
    }

    /// The ciphertext of `x` and `y` with the blinding matrix `w` and the randomness
    /// `gamma`.
    pub open spec fn is_encryption(
        &self,
        x: Seq<int>,
        y: Seq<int>,
        w: &BigNumMatrix2x2,
        gamma: nat,
        ct: &SgpCipher<L>,
    ) -> bool {
        &&& ct.top() == g1_scaled(G1_GENERATOR@, gamma)
        &&& ct.left().len() == 2 * L
        &&& ct.right().len() == 2 * L
        &&& forall|i: int, k: int|
            0 <= i < L && 0 <= k < 2 ==> #[trigger] ct.left()[2 * i + k] == left_point(
                w,
                k,
                scalars_of(x)[i],
                gamma,
                self.public().first()[i],
            )
        &&& forall|i: int, k: int|
            0 <= i < L && 0 <= k < 2 ==> #[trigger] ct.right()[2 * i + k] == right_point(
                w,
                k,
                scalars_of(y)[i],
                self.public().second()[i],
            )
    }

    /// The element of the target group whose exponent decryption searches for: the pairing
    /// of the point of the key with the top of the ciphertext, times the contributions of
    /// all pairs of coordinates.
    pub open spec fn target(ct: &SgpCipher<L>, dk: &SgpDecKey) -> Seq<u8> {
        quadratic_product(
            pairing_value(dk.point(), ct.top()),
            ct.left(),
            ct.right(),
            &dk.matrix(),
            (dk.matrix().n_rows * dk.matrix().n_cols) as nat,
        )
    }

    /// The ciphertext fits the key: it has two points of each group for each row, and for
    /// each column, of the matrix of the key.
    pub open spec fn fits(ct: &SgpCipher<L>, dk: &SgpDecKey) -> bool {
        ct.left().len() == dk.matrix().n_rows * 2 && ct.right().len() == dk.matrix().n_cols * 2
    }

    /// A pair of a master secret key and its master public key, drawn from `rng`: the
    /// scalars of the first secret vector are those of the first `L` draws, the scalars of
    /// the second are those of the `L` draws after them, and `rng` moves on by twice `L`
    /// states.
    pub fn generate_sec_key(rng: &mut RandUtilsRAND) -> (r: (SgpSecKey, SgpPubKey))
        ensures
            sgp_key_pair(&r.0, &r.1, L as nat),
            forall|i: int| 0 <= i < L ==> #[trigger] r.0.first()[i] == drawn_scalar(old(rng)@, i as nat),
            forall|i: int|
                0 <= i < L ==> #[trigger] r.0.second()[i] == drawn_scalar(old(rng)@, (L + i) as nat),
            final(rng)@ == advanced(old(rng)@, (L + L) as nat),
    {
        let order = big_curve_order();
        let ghost start = rng@;
        let s = rng.sample_vec(L, &order);
        let t = rng.sample_vec(L, &order);
        proof {
            lemma_advanced_adds(start, L as nat, L as nat);
            assert forall|i: int| 0 <= i < L implies (#[trigger] t@[i])@ == drawn_scalar(
                start,
                (L + i) as nat,
            ) by {
                lemma_advanced_adds(start, L as nat, i as nat);
            }
        }
        let g1 = G1::generator();
        let g2 = G2::generator();
        let mut g1s: G1Vector = Vec::new();
        let mut g2t: G2Vector = Vec::new();
        let mut i: usize = 0;
        while i < L
            invariant
                i <= L,
                s@.len() == L,
                t@.len() == L,
                rng@ == advanced(start, (L + L) as nat),
                g1s@.len() == i,
                g2t@.len() == i,
                g1@ == G1_GENERATOR@,
                g2@ == G2_GENERATOR@,
                forall|k: int|
                    0 <= k < i ==> (#[trigger] g1s@[k])@ == g1_scaled(G1_GENERATOR@, s@[k]@),
                forall|k: int|
                    0 <= k < i ==> (#[trigger] g2t@[k])@ == g2_scaled(G2_GENERATOR@, t@[k]@),
            decreases L - i,
        {
            g1s.push(g1.mul(&s[i]));
            g2t.push(g2.mul(&t[i]));
            i = i + 1;
        }
        let msk = SgpSecKey { s, t };
        let pk = SgpPubKey { g1s, g2t };
        proof {
            assert forall|i: int| 0 <= i < L implies {
                &&& (#[trigger] msk.first()[i]) < curve_order_value()
                &&& msk.second()[i] < curve_order_value()
                &&& pk.first()[i] == g1_scaled(G1_GENERATOR@, msk.first()[i])
                &&& pk.second()[i] == g2_scaled(G2_GENERATOR@, msk.second()[i])
            } by {
                assert(RandUtilsRAND::value(&msk.s@[i]) < RandUtilsRAND::value(&order));
                assert(RandUtilsRAND::value(&msk.t@[i]) < RandUtilsRAND::value(&order));
            }
        }
        (msk, pk)
    }

    /// Encrypts `plain` with the blinding matrix `w` and the randomness `gamma`. It fails
    /// where a vector of `plain` has not `L` elements, and where `w` has no inverse modulo
    /// the group order.
    pub fn encrypt_with_randomness(
        &self,
        plain: &SgpPlain<L>,
        w: &BigNumMatrix2x2,
        gamma: &BigNum,
    ) -> (r: Result<SgpCipher<L>, FeError>)
        requires
            self.wf(),
            w.wf(),
            L * 2 <= usize::MAX,
        ensures
            match r {
                Ok(ct) => {
                    &&& plain.x@.len() == L
                    &&& plain.y@.len() == L
                    &&& w.det() % (curve_order_value() as int) != 0
                    &&& w.has_inverse(curve_order_value() as int)
                    &&& self.is_encryption(values(plain.x@), values(plain.y@), w, gamma@, &ct)
                },
                Err(e) => if plain.x@.len() != L || plain.y@.len() != L {
                    e == FeError::DimensionMismatch
                } else {
                    e == FeError::SingularMatrix && w.det() % (curve_order_value() as int) == 0
                },
            },
    {
        if plain.x.len() != L || plain.y.len() != L {
            return Err(FeError::DimensionMismatch);
        }
        let order = big_curve_order();
        let mut w_inv = match w.invmod(&order) {
            Ok(m) => m,
            Err(e) => {
                return Err(e);
            },
        };
        w_inv.transpose();
        let g1 = G1::generator();
        let g2 = G2::generator();
        let g1_mul_gamma = g1.mul(gamma);
        let mut a: G1Vector = Vec::new();
        let mut b: G2Vector = Vec::new();
        let ghost n = curve_order_value() as int;
        let ghost xs = scalars_of(values(plain.x@));
        let ghost ys = scalars_of(values(plain.y@));
        let mut i: usize = 0;
        while i < L
            invariant
                i <= L,
                L * 2 <= usize::MAX,
                plain.x@.len() == L,
                plain.y@.len() == L,
                self.wf(),
                w.wf(),
                w_inv.wf(),
                n == curve_order_value(),
                order@ == curve_order_value(),
                xs == scalars_of(values(plain.x@)),
                ys == scalars_of(values(plain.y@)),
                g1@ == G1_GENERATOR@,
                g2@ == G2_GENERATOR@,
                forall|r: int, c: int|
                    0 <= r < 2 && 0 <= c < 2 ==> #[trigger] w_inv.at(r, c) == w.inverse_at(n, c, r),
                a@.len() == 2 * i,
                b@.len() == 2 * i,
                forall|q: int, k: int|
                    0 <= q < i && 0 <= k < 2 ==> (#[trigger] a@[2 * q + k])@ == left_point(
                        w,
                        k,
                        xs[q],
                        gamma@,
                        self.public().first()[q],
                    ),
                forall|q: int, k: int|
                    0 <= q < i && 0 <= k < 2 ==> (#[trigger] b@[2 * q + k])@ == right_point(
                        w,
                        k,
                        ys[q],
                        self.public().second()[q],
                    ),
            decreases L - i,
        {
            let xi = to_scalar(&plain.x[i]);
            let yi = to_scalar(&plain.y[i]);
            let w00_mul_xi = big_modmul(w_inv.get_element(0, 0), &xi, &order);
            let w01_mul_gamma = big_modmul(w_inv.get_element(0, 1), gamma, &order);
            let w10_mul_xi = big_modmul(w_inv.get_element(1, 0), &xi, &order);
            let w11_mul_gamma = big_modmul(w_inv.get_element(1, 1), gamma, &order);
            let a0 = g1.mul(&w00_mul_xi).add(&self.pk.g1s[i].mul(&w01_mul_gamma));
            let a1 = g1.mul(&w10_mul_xi).add(&self.pk.g1s[i].mul(&w11_mul_gamma));
            let w00_mul_yi = big_modmul(w.get_element(0, 0), &yi, &order);
            let w01_neg = big_modneg(w.get_element(0, 1), &order);
            let w10_mul_yi = big_modmul(w.get_element(1, 0), &yi, &order);
            let w11_neg = big_modneg(w.get_element(1, 1), &order);
            let b0 = g2.mul(&w00_mul_yi).add(&self.pk.g2t[i].mul(&w01_neg));
            let b1 = g2.mul(&w10_mul_yi).add(&self.pk.g2t[i].mul(&w11_neg));
            proof {
                assert(w_inv.at(0, 0) == w.inverse_at(n, 0, 0));
                assert(w_inv.at(0, 1) == w.inverse_at(n, 1, 0));
                assert(w_inv.at(1, 0) == w.inverse_at(n, 0, 1));
                assert(w_inv.at(1, 1) == w.inverse_at(n, 1, 1));
                assert(a0@ == left_point(w, 0, xs[i as int], gamma@, self.public().first()[i as int]));
                assert(a1@ == left_point(w, 1, xs[i as int], gamma@, self.public().first()[i as int]));
                assert(b0@ == right_point(w, 0, ys[i as int], self.public().second()[i as int]));
                assert(b1@ == right_point(w, 1, ys[i as int], self.public().second()[i as int]));
            }
            let ghost a_before = a@;
            let ghost b_before = b@;
            a.push(a0);
            a.push(a1);
            b.push(b0);
            b.push(b1);
            proof {
                assert forall|q: int, k: int| 0 <= q < i + 1 && 0 <= k < 2 implies (#[trigger] a@[2
                    * q + k])@ == left_point(w, k, xs[q], gamma@, self.public().first()[q]) by {
                    if q < i {
                        assert(a@[2 * q + k] == a_before[2 * q + k]);
                    }
                }
                assert forall|q: int, k: int| 0 <= q < i + 1 && 0 <= k < 2 implies (#[trigger] b@[2
                    * q + k])@ == right_point(w, k, ys[q], self.public().second()[q]) by {
                    if q < i {
                        assert(b@[2 * q + k] == b_before[2 * q + k]);
                    }
                }
            }
            i = i + 1;
        }
        Ok(SgpCipher { g1_mul_gamma, a, b })
    }

    /// Derives the key for the form of `f` after the projection `p`: the secret vectors are
    /// projected by `p` before they go into the scalar of the key. It fails where `p` has
    /// not `L` rows, or `f` is not square with as many rows as `p` has columns.
    pub fn derive_fe_key_projected(&self, f: &BigIntMatrix, p: &BigIntMatrix) -> (r: Result<
        SgpDecKey,
        FeError,
    >)
        requires
            self.wf(),
            f.wf(),
            p.wf(),
        ensures
            match r {
                Ok(dk) => {
                    &&& p.n_rows == L
                    &&& f.n_rows == f.n_cols
                    &&& f.n_rows == p.n_cols
                    &&& dk.wf()
                    &&& is_reduction_of(&dk.matrix(), f)
                    &&& dk.point() == g2_scaled(
                        G2_GENERATOR@,
                        projected_key_scalar(self.secret().first(), p, f, self.secret().second()),
                    )
                },
                Err(e) => e == FeError::DimensionMismatch && (p.n_rows != L || f.n_rows
                    != f.n_cols || f.n_rows != p.n_cols),
            },
    {
        if L != p.n_rows || f.n_rows != f.n_cols || f.n_rows != p.n_cols {
            return Err(FeError::DimensionMismatch);
        }
        let order = big_curve_order();
        proof {
            order.lemma_bounded();
        }
        let m = big_to_bigint(&order);
        let new_f = convert(f, &m);
        let new_p = convert(p, &m);
        let proj_s = row_product(&self.msk.s, &new_p, &order);
        let proj_t = row_product(&self.msk.t, &new_p, &order);
        let exp = triple_product(&proj_s.data, &new_f, &proj_t.data, &order);
        let key = G2::generator().mul(&exp);
        let total: usize = new_f.data.len();
        proof {
            lemma_reduction_row(self.secret().first(), &new_p, p);
            lemma_reduction_row(self.secret().second(), &new_p, p);
            lemma_reduction_row(form_row(self.secret().first(), p), &new_f, f);
            lemma_projected_exponent_is_scalar(
                self.secret().first(),
                self.secret().second(),
                p,
                f,
                &new_f,
            );
        }
        Ok(SgpDecKey { key, f: new_f })
    }

    /// Projects a ciphertext by the matrix `p`: each point of the result is the sum of the
    /// points of the coordinates, each multiplied by its element of a column of `p`. The
    /// result has a coordinate for each column of `p`. It fails where `p` has not `L` rows,
    /// or the ciphertext has not `L` coordinates.
    pub fn project(&self, cipher: &SgpCipher<L>, p: &BigIntMatrix) -> (r: Result<
        SgpCipher<L>,
        FeError,
    >)
        requires
            p.wf(),
            p.n_cols * 2 <= usize::MAX,
        ensures
            match r {
                Ok(ct) => {
                    &&& p.n_rows == L
                    &&& cipher.left().len() == 2 * L
                    &&& cipher.right().len() == 2 * L
                    &&& is_projection(cipher, p, &ct)
                },
                Err(e) => e == FeError::DimensionMismatch && (p.n_rows != L
                    || cipher.left().len() != 2 * L || cipher.right().len() != 2 * L),
            },
    {
        if L != p.n_rows {
            return Err(FeError::DimensionMismatch);
        }
        let na: usize = cipher.a.len();
        let nb: usize = cipher.b.len();
        if na % 2 != 0 || na / 2 != L || nb % 2 != 0 || nb / 2 != L {
            return Err(FeError::DimensionMismatch);
        }
        let d: usize = p.n_cols;
        let mut new_a: G1Vector = Vec::new();
        let mut new_b: G2Vector = Vec::new();
        let ghost left = cipher.left();
        let ghost right = cipher.right();
        let mut i: usize = 0;
        while i < d
            invariant
                i <= d,
                d == p.n_cols,
                d * 2 <= usize::MAX,
                L * 2 <= usize::MAX,
                p.wf(),
                p.n_rows == L,
                left == cipher.left(),
                right == cipher.right(),
                cipher.a@.len() == 2 * L,
                cipher.b@.len() == 2 * L,
                new_a@.len() == 2 * i,
                new_b@.len() == 2 * i,
                forall|q: int, k: int|
                    0 <= q < i && 0 <= k < 2 ==> (#[trigger] new_a@[2 * q + k])@
                        == projected_left(left, p, q, k, L as nat),
                forall|q: int, k: int|
                    0 <= q < i && 0 <= k < 2 ==> (#[trigger] new_b@[2 * q + k])@
                        == projected_right(right, p, q, k, L as nat),
            decreases d - i,
        {
            let mut a0 = G1::new();
            let mut a1 = G1::new();
            let mut b0 = G2::new();
            let mut b1 = G2::new();
            let mut j: usize = 0;
            while j < L
                invariant
                    j <= L,
                    i < d,
                    d == p.n_cols,
                    L * 2 <= usize::MAX,
                    p.wf(),
                    p.n_rows == L,
                    left == cipher.left(),
                    right == cipher.right(),
                    cipher.a@.len() == 2 * L,
                    cipher.b@.len() == 2 * L,
                    a0@ == projected_left(left, p, i as int, 0, j as nat),
                    a1@ == projected_left(left, p, i as int, 1, j as nat),
                    b0@ == projected_right(right, p, i as int, 0, j as nat),
                    b1@ == projected_right(right, p, i as int, 1, j as nat),
                decreases L - j,
            {
                let e = to_scalar(p.get_element(j, i));
                a0 = a0.add(&cipher.a[j * 2].mul(&e));
                a1 = a1.add(&cipher.a[j * 2 + 1].mul(&e));
                b0 = b0.add(&cipher.b[j * 2].mul(&e));
                b1 = b1.add(&cipher.b[j * 2 + 1].mul(&e));
                j = j + 1;
            }
            let ghost a_before = new_a@;
            let ghost b_before = new_b@;
            new_a.push(a0);
            new_a.push(a1);
            new_b.push(b0);
            new_b.push(b1);
            proof {
                assert forall|q: int, k: int| 0 <= q < i + 1 && 0 <= k < 2 implies (#[trigger] new_a@[2
                    * q + k])@ == projected_left(left, p, q, k, L as nat) by {
                    if q < i {
                        assert(new_a@[2 * q + k] == a_before[2 * q + k]);
                    }
                }
                assert forall|q: int, k: int| 0 <= q < i + 1 && 0 <= k < 2 implies (#[trigger] new_b@[2
                    * q + k])@ == projected_right(right, p, q, k, L as nat) by {
                    if q < i {
                        assert(new_b@[2 * q + k] == b_before[2 * q + k]);
                    }
                }
            }
            i = i + 1;
        }
        Ok(SgpCipher { g1_mul_gamma: cipher.g1_mul_gamma, a: new_a, b: new_b })
    }

    /// The search that ends decryption, for a ciphertext that fits the key.
    pub fn decrypt_fitting(ct: &SgpCipher<L>, dk: &SgpDecKey, bound: &BigInt) -> (r: Result<
        Option<BigInt>,
        FeError,
    >)
        requires
            dk.wf(),
            Self::fits(ct, dk),
        ensures
            match r {
                Ok(v) => {
                    &&& Self::target(ct, dk) == gt_identity() || quadratic_bound(
                        bound@,
                        (dk.matrix().n_rows * dk.matrix().n_cols) as nat,
                    ) <= MAX_BOUND
                    &&& value_of(v) == dlog_spec::<Gt>(
                        Self::target(ct, dk),
                        pairing_base(),
                        step_count(
                            search_size(
                                quadratic_bound(
                                    bound@,
                                    (dk.matrix().n_rows * dk.matrix().n_cols) as nat,
                                ),
                            ),
                        ),
                    )
                },
                Err(e) => {
                    &&& e == FeError::BoundTooLarge
                    &&& Self::target(ct, dk) != gt_identity()
                    &&& quadratic_bound(
                        bound@,
                        (dk.matrix().n_rows * dk.matrix().n_cols) as nat,
                    ) > MAX_BOUND
                },
            },
    {
        let rows: usize = dk.f.n_rows;
        let cols: usize = dk.f.n_cols;
        let na: usize = ct.a.len();
        let nb: usize = ct.b.len();
        let mut out = pairing(&dk.key, &ct.g1_mul_gamma);
        let ghost start = out@;
        let ghost left = ct.left();
        let ghost right = ct.right();
        let mut i: usize = 0;
        while i < rows
            invariant
                i <= rows,
                rows == dk.f.n_rows,
                cols == dk.f.n_cols,
                dk.wf(),
                dk.matrix() == dk.f,
                left == ct.left(),
                right == ct.right(),
                ct.a@.len() == rows * 2,
                ct.b@.len() == cols * 2,
                rows * 2 <= usize::MAX,
                cols * 2 <= usize::MAX,
                out@ == quadratic_product(start, left, right, &dk.f, (i * cols) as nat),
            decreases rows - i,
        {
            let mut j: usize = 0;
            while j < cols
                invariant
                    i < rows,
                    j <= cols,
                    rows == dk.f.n_rows,
                    cols == dk.f.n_cols,
                    dk.wf(),
                    dk.matrix() == dk.f,
                    left == ct.left(),
                    right == ct.right(),
                    ct.a@.len() == rows * 2,
                    ct.b@.len() == cols * 2,
                    rows * 2 <= usize::MAX,
                    cols * 2 <= usize::MAX,
                    out@ == quadratic_product(start, left, right, &dk.f, (i * cols + j) as nat),
                decreases cols - j,
            {
                let proj0 = pairing(&ct.b[j * 2], &ct.a[i * 2]);
                let proj1 = pairing(&ct.b[j * 2 + 1], &ct.a[i * 2 + 1]);
                let term = proj0.mul(&proj1).pow(dk.f.get_element(i, j));
                proof {
                    lemma_flat_in_range(i as int, j as int, rows as int, cols as int);
                    assert(term@ == quadratic_term(left, right, &dk.f, i as int, j as int));
                    assert(i * cols + j + 1 - 1 == flat(i as int, j as int, cols as int));
                }
                out = out.mul(&term);
                j = j + 1;
            }
            proof {
                assert((i + 1) * cols == i * cols + cols) by (nonlinear_arith);
            }
            i = i + 1;
        }
        let base = pairing(&G2::generator(), &G1::generator());
        let cube = int_mul(&int_mul(bound, bound), bound);
        let count = int_mul(&int_from_u64(rows as u64), &int_from_u64(cols as u64));
        let wide = int_mul(&cube, &count);
        let zero = BigInt::from_i64(0);
        let clipped = if BigInt::comp(&wide, &zero) < 0 {
            zero
        } else {
            wide
        };
        proof {
            assert(wide@ == quadratic_bound(bound@, (rows * cols) as nat)) by (nonlinear_arith)
                requires
                    wide@ == (bound@ * bound@ * bound@) * (rows * cols),
            ;
        }
        bounded_search::<Gt>(&out, &base, &clipped)
    }
}

/// The ciphertext `pct` is the projection of `ct` by `p`.
pub open spec fn is_projection<const L: usize>(
    ct: &SgpCipher<L>,
    p: &BigIntMatrix,
    pct: &SgpCipher<L>,
) -> bool {
    &&& pct.top() == ct.top()
    &&& pct.left().len() == 2 * p.n_cols
    &&& pct.right().len() == 2 * p.n_cols
    &&& forall|i: int, k: int|
        0 <= i < p.n_cols && 0 <= k < 2 ==> #[trigger] pct.left()[2 * i + k] == projected_left(
            ct.left(),
            p,
            i,
            k,
            L as nat,
        )
    &&& forall|i: int, k: int|
        0 <= i < p.n_cols && 0 <= k < 2 ==> #[trigger] pct.right()[2 * i + k] == projected_right(
            ct.right(),
            p,
            i,
            k,
            L as nat,
        )
}

/// The bound that a search is made with: a negative bound counts as zero.
pub open spec fn search_size(bound: int) -> nat {
    if bound < 0 {
        0
    } else {
        bound as nat
    }
}

impl<const L: usize> FunctionalEncryption for Sgp<L> {
    type CipherText = SgpCipher<L>;

    type PlainData = SgpPlain<L>;

    type FEKeyData = BigIntMatrix;

    type EvaluationKey = SgpDecKey;

    open spec fn wf(&self) -> bool {
        sgp_key_pair(&self.secret(), &self.public(), L as nat)
    }

    open spec fn plain_wf(plain: &SgpPlain<L>) -> bool {
        true
    }

    open spec fn function_wf(f: &BigIntMatrix) -> bool {
        f.wf()
    }

    open spec fn cipher_wf(ct: &SgpCipher<L>) -> bool {
        true
    }

    open spec fn key_wf(dk: &SgpDecKey) -> bool {
        dk.wf()
    }

    /// A new instance, with a key pair drawn from `rng`: the scalars of the first secret
    /// vector are those of the first `L` draws, the scalars of the second are those of the
    /// `L` draws after them, and `rng` moves on by twice `L` states.
    fn new(rng: &mut RandUtilsRAND) -> (r: Sgp<L>)
        ensures
            forall|i: int|
                0 <= i < L ==> #[trigger] r.secret().first()[i] == drawn_scalar(old(rng)@, i as nat),
            forall|i: int|
                0 <= i < L ==> #[trigger] r.secret().second()[i] == drawn_scalar(
                    old(rng)@,
                    (L + i) as nat,
                ),
            final(rng)@ == advanced(old(rng)@, (L + L) as nat),
    {
        let (msk, pk) = Sgp::<L>::generate_sec_key(rng);
        Sgp { msk, pk }
    }

    /// Encrypts `plain` with a scalar and a blinding matrix drawn from `rng`: the scalar is
    /// that of the first draw, and each attempt at a matrix takes the four draws that follow.
    /// A matrix without an inverse is drawn again, at most `BLINDING_ATTEMPTS` times, and
    /// the ciphertext is made with the first that has one. It fails where a vector of
    /// `plain` has not `L` elements, or twice `L` is more than the machine can count, and
    /// then draws nothing; and where no attempt gave a matrix that has an inverse.
    fn encrypt(&self, plain: &SgpPlain<L>, rng: &mut RandUtilsRAND) -> (r: Result<
        SgpCipher<L>,
        FeError,
    >)
        ensures
            match r {
                Ok(ct) => {
                    &&& plain.x@.len() == L
                    &&& plain.y@.len() == L
                    &&& exists|w: BigNumMatrix2x2, k: nat|
                        {
                            &&& k < BLINDING_ATTEMPTS
                            &&& drawn_scalar(old(rng)@, 0) < curve_order_value()
                            &&& attempts_fail(old(rng)@, k)
                            &&& #[trigger] is_drawn(&w, blinding_state(old(rng)@, k))
                            &&& w.has_inverse(curve_order_value() as int)
                            &&& self.is_encryption(
                                values(plain.x@),
                                values(plain.y@),
                                &w,
                                drawn_scalar(old(rng)@, 0),
                                &ct,
                            )
                            &&& final(rng)@ == blinding_state(old(rng)@, k + 1)
                        }
                },
                Err(e) => if plain.x@.len() != L || plain.y@.len() != L || L * 2 > usize::MAX {
                    e == FeError::DimensionMismatch && final(rng)@ == old(rng)@
                } else {
                    &&& e == FeError::SingularMatrix
                    &&& attempts_fail(old(rng)@, BLINDING_ATTEMPTS as nat)
                    &&& final(rng)@ == blinding_state(old(rng)@, BLINDING_ATTEMPTS as nat)
                },
            },
    {
        if plain.x.len() != L || plain.y.len() != L || L > usize::MAX / 2 {
            return Err(FeError::DimensionMismatch);
        }
        let order = big_curve_order();
        let ghost start = rng@;
        let gamma = rng.sample(&order);
        proof {
            assert(advanced(start, 0) == start);
            assert(advanced(start, 1) == next_state(start));
        }
        let mut attempt: usize = 0;
        while attempt < BLINDING_ATTEMPTS
            invariant
                attempt <= BLINDING_ATTEMPTS,
                self.wf(),
                plain.x@.len() == L,
                plain.y@.len() == L,
                L * 2 <= usize::MAX,
                order@ == curve_order_value(),
                gamma@ < curve_order_value(),
                gamma@ == drawn_scalar(start, 0),
                start == old(rng)@,
                rng@ == blinding_state(start, attempt as nat),
                attempts_fail(start, attempt as nat),
            decreases BLINDING_ATTEMPTS - attempt,
        {
            let ghost state = rng@;
            let w = BigNumMatrix2x2::new_random(&order, rng);
            proof {
                lemma_advanced_adds(start, (1 + 4 * attempt) as nat, 4);
                assert(w.at(0, 0) == drawn_scalar(state, 0));
                assert(w.at(0, 1) == drawn_scalar(state, 1));
                assert(w.at(1, 0) == drawn_scalar(state, 2));
                assert(w.at(1, 1) == drawn_scalar(state, 3));
            }
            match self.encrypt_with_randomness(plain, &w, &gamma) {
                Ok(ct) => {
                    proof {
                        assert(is_drawn(&w, blinding_state(start, attempt as nat)));
                    }
                    return Ok(ct);
                },
                Err(_) => {},
            }
            proof {
                assert forall|j: nat| j < attempt + 1 implies drawn_det(
                    #[trigger] blinding_state(start, j),
                ) % (curve_order_value() as int) == 0 by {
                    if j < attempt {
                    } else {
                        assert(j == attempt);
                    }
                }
            }
            attempt = attempt + 1;
        }
        Err(FeError::SingularMatrix)
    }

    /// Derives the key for the quadratic form of `f`. It fails where `f` has not `L` rows
    /// and `L` columns.
    fn derive_fe_key(&self, f: &BigIntMatrix) -> (r: Result<SgpDecKey, FeError>)
        ensures
            match r {
                Ok(dk) => {
                    &&& f.n_rows == L
                    &&& f.n_cols == L
                    &&& dk.wf()
                    &&& is_reduction_of(&dk.matrix(), f)
                    &&& dk.point() == g2_scaled(
                        G2_GENERATOR@,
                        key_scalar(self.secret().first(), f, self.secret().second()),
                    )
                },
                Err(e) => e == FeError::DimensionMismatch && (f.n_rows != L || f.n_cols != L),
            },
    {
        if f.n_rows != L || f.n_cols != L {
            return Err(FeError::DimensionMismatch);
        }
        let order = big_curve_order();
        proof {
            order.lemma_bounded();
        }
        let new_f = convert(f, &big_to_bigint(&order));
        let exp = triple_product(&self.msk.s, &new_f, &self.msk.t, &order);
        let key = G2::generator().mul(&exp);
        let total: usize = new_f.data.len();
        proof {
            lemma_reduction_row(self.secret().first(), &new_f, f);
            lemma_form_exponent_is_scalar(
                self.secret().first(),
                f,
                self.secret().second(),
                &new_f,
            );
        }
        Ok(SgpDecKey { key, f: new_f })
    }

    /// Recovers the value of the quadratic form of `dk` on the plaintext of `ct`: the
    /// exponent of the target element to the base of the pairing of the generators is
    /// searched for with the bound `bound * bound * bound` times the number of elements of
    /// the matrix of the key. It fails where the ciphertext does not fit the key, and where
    /// the bound is above the ceiling of the search.
    fn decrypt(&self, ct: &SgpCipher<L>, dk: &SgpDecKey, bound: &BigInt) -> (r: Result<
        Option<BigInt>,
        FeError,
    >)
        ensures
            match r {
                Ok(v) => {
                    &&& Self::fits(ct, dk)
                    &&& Self::target(ct, dk) == gt_identity() || quadratic_bound(
                        bound@,
                        (dk.matrix().n_rows * dk.matrix().n_cols) as nat,
                    ) <= MAX_BOUND
                    &&& value_of(v) == dlog_spec::<Gt>(
                        Self::target(ct, dk),
                        pairing_base(),
                        step_count(
                            search_size(
                                quadratic_bound(
                                    bound@,
                                    (dk.matrix().n_rows * dk.matrix().n_cols) as nat,
                                ),
                            ),
                        ),
                    )
                },
                Err(e) => if !Self::fits(ct, dk) {
                    e == FeError::DimensionMismatch
                } else {
                    &&& e == FeError::BoundTooLarge
                    &&& Self::target(ct, dk) != gt_identity()
                    &&& quadratic_bound(
                        bound@,
                        (dk.matrix().n_rows * dk.matrix().n_cols) as nat,
                    ) > MAX_BOUND
                },
            },
    {
        let na: usize = ct.a.len();
        let nb: usize = ct.b.len();
        if na % 2 != 0 || na / 2 != dk.f.n_rows || nb % 2 != 0 || nb / 2 != dk.f.n_cols {
            return Err(FeError::DimensionMismatch);
        }
        Self::decrypt_fitting(ct, dk, bound)
    }
}

} // verus!
