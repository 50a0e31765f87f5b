use crate::define::big_curve_order;
use crate::define::big_limit;
use crate::define::lemma_order_below_limit;
use crate::define::big_modadd;
use crate::define::big_modmul;
use crate::define::big_new_int;
use crate::define::curve_order_value;
use crate::define::int_from_u64;
use crate::define::int_mul;
use crate::define::BigInt;
use crate::define::BigNum;
use crate::error::FeError;
use crate::group::g1_identity;
use crate::group::g1_negation;
use crate::group::g1_scaled;
use crate::group::g1_sum;
use crate::group::G1;
use crate::group::G1_GENERATOR;
use crate::traits::FunctionalEncryption;
use crate::utils::algebra::lemma_element_generator;
use crate::utils::algebra::lemma_element_inv;
use crate::utils::algebra::lemma_element_op;
use crate::utils::algebra::lemma_element_pow;
use crate::utils::algebra::lemma_element_same;
use crate::utils::dlog::bounded_search;
use crate::utils::dlog::element;
use crate::utils::dlog::generates;
use crate::utils::dlog::lemma_search_finds;
use crate::utils::dlog::lemma_step_count_covers;
use crate::utils::inner_product;
use crate::utils::dlog::dlog_spec;
use crate::utils::dlog::step_count;
use crate::utils::dlog::value_of;
use crate::utils::dlog::MAX_BOUND;
use crate::utils::rand_utils::advanced;
use crate::utils::rand_utils::draw_seed;
use crate::utils::rand_utils::next_state;
use crate::utils::rand_utils::seeded_scalar;
use crate::utils::rand_utils::RandUtilsRAND;
use crate::utils::rand_utils::Sample;
use crate::utils::scalars_of;
use crate::utils::to_scalar;
use crate::utils::values;
use vstd::prelude::*;

verus! {

/// The sum of the products of the first `n` elements of `y` and `s`.
pub open spec fn weighted_sum(y: Seq<nat>, s: Seq<nat>, n: nat) -> nat
    decreases n,
{
    if n == 0 {
        0
    } else {
        weighted_sum(y, s, (n - 1) as nat) + y[n - 1] * s[n - 1]
    }
}

/// The sum of the first `n` points of `c`, each multiplied by its scalar of `y`.
pub open spec fn g1_combination(c: Seq<Seq<u8>>, y: Seq<nat>, n: nat) -> Seq<u8>
    decreases n,
{
    if n == 0 {
        g1_identity()
    } else {
        g1_sum(g1_combination(c, y, (n - 1) as nat), g1_scaled(c[n - 1], y[n - 1]))
    }
}

/// The bound of the search of an inner product of `len` elements, each of a size of at most
/// `bound`.
pub open spec fn inner_product_bound(bound: int, len: nat) -> nat {
    (bound * bound * len) as nat
}

/// Master secret key: a secret scalar for each of the `L` coordinates.
#[derive(Debug)]
pub struct SipMsk<const L: usize> {
    s: Vec<BigNum>,
}

/// Master public key: the generator multiplied by each secret scalar.
#[derive(Debug)]
pub struct SipMpk<const L: usize> {
    v: Vec<G1>,
}

/// Ciphertext of a vector of `L` integers.
#[derive(Debug)]
pub struct SipCipher<const L: usize> {
    c0: G1,
    c: Vec<G1>,
}

/// Key that evaluates the inner product with a vector of `L` integers.
#[derive(Debug)]
pub struct SipDk<const L: usize> {
    y: Vec<BigNum>,
    dk: BigNum,
}

/// Inner-product functional encryption with a single authority, for vectors of `L` integers.
#[derive(Debug)]
pub struct Sip<const L: usize> {
    msk: SipMsk<L>,
    mpk: SipMpk<L>,
}

impl<const L: usize> SipMsk<L> {
    /// The secret scalars.
    pub closed spec fn scalars(&self) -> Seq<nat> {
        Seq::new(self.s@.len(), |i: int| self.s@[i]@)
    }

    /// The secret scalars.
    pub fn s(&self) -> (r: &Vec<BigNum>)
        ensures
            r@.len() == self.scalars().len(),
            forall|i: int| 0 <= i < r@.len() ==> (#[trigger] r@[i])@ == self.scalars()[i],
    {
        &self.s
    }
}

impl<const L: usize> SipMpk<L> {
    /// The encodings of the public points.
    pub closed spec fn points(&self) -> Seq<Seq<u8>> {
        Seq::new(self.v@.len(), |i: int| self.v@[i]@)
    }

    /// The public points.
    pub fn v(&self) -> (r: &Vec<G1>)
        ensures
            r@.len() == self.points().len(),
            forall|i: int| 0 <= i < r@.len() ==> (#[trigger] r@[i])@ == self.points()[i],
    {
        &self.v
    }
}

impl<const L: usize> SipCipher<L> {
    /// The encoding of the point that carries the randomness.
    pub closed spec fn head(&self) -> Seq<u8> {
        self.c0@
    }

    /// The encodings of the points that carry the coordinates.
    pub closed spec fn body(&self) -> Seq<Seq<u8>> {
        Seq::new(self.c@.len(), |i: int| self.c@[i]@)
    }

    /// The ciphertext has a point for each coordinate.
    pub open spec fn wf(&self) -> bool {
        self.body().len() == L
    }

    /// The point that carries the randomness.
    pub fn c0(&self) -> (r: G1)
        ensures
            r@ == self.head(),
    {
        self.c0
    }

    /// The points that carry the coordinates.
    pub fn c(&self) -> (r: &Vec<G1>)
        ensures
            r@.len() == self.body().len(),
            forall|i: int| 0 <= i < r@.len() ==> (#[trigger] r@[i])@ == self.body()[i],
    {
        &self.c
    }
}

impl<const L: usize> SipDk<L> {
    /// The scalars of the vector that the key is for.
    pub closed spec fn weights(&self) -> Seq<nat> {
        Seq::new(self.y@.len(), |i: int| self.y@[i]@)
    }

    /// The scalar of the key.
    pub closed spec fn scalar(&self) -> nat {
        self.dk@
    }

    /// The key has a scalar for each coordinate.
    pub open spec fn wf(&self) -> bool {
        self.weights().len() == L
    }

    /// The scalars of the vector that the key is for.
    pub fn y(&self) -> (r: &Vec<BigNum>)
        ensures
            r@.len() == self.weights().len(),
            forall|i: int| 0 <= i < r@.len() ==> (#[trigger] r@[i])@ == self.weights()[i],
    {
        &self.y
    }

    /// The scalar of the key.
    pub fn dk(&self) -> (r: BigNum)
        ensures
            r@ == self.scalar(),
    {
        self.dk
    }
}

/// The keys belong together: a secret scalar below the group order for each coordinate, and
/// the generator multiplied by it.
pub open spec fn key_pair<const L: usize>(msk: &SipMsk<L>, mpk: &SipMpk<L>) -> bool {
    &&& msk.scalars().len() == L
    &&& mpk.points().len() == L
    &&& forall|i: int|
        0 <= i < L ==> (#[trigger] msk.scalars()[i]) < curve_order_value() && mpk.points()[i]
            == g1_scaled(G1_GENERATOR@, msk.scalars()[i])
}

impl<const L: usize> Sip<L> {
    /// The secret scalars.
    pub closed spec fn secret(&self) -> Seq<nat> {
        self.msk.scalars()
    }

    /// The encodings of the public points.
    pub closed spec fn public(&self) -> Seq<Seq<u8>> {
        self.mpk.points()
    }

    /// The master secret key.
    pub fn msk(&self) -> (r: &SipMsk<L>)
        ensures
            r.scalars() == self.secret(),
    {
        &self.msk
    }

    /// The master public key.
    pub fn mpk(&self) -> (r: &SipMpk<L>)
        ensures
            r.points() == self.public(),
    {
        &self.mpk
    }

    /// The ciphertext of `x` with the randomness `r`: the generator multiplied by `r`, and
    /// for each coordinate the generator multiplied by its scalar plus the public point
    /// multiplied by `r`.
    pub open spec fn is_encryption(&self, x: Seq<int>, r: nat, ct: &SipCipher<L>) -> bool {
        &&& ct.head() == g1_scaled(G1_GENERATOR@, r)
        &&& ct.body().len() == L
        &&& forall|i: int|
            0 <= i < L ==> #[trigger] ct.body()[i] == g1_sum(
                g1_scaled(G1_GENERATOR@, scalars_of(x)[i]),
                g1_scaled(self.public()[i], r),
            )
    }

    /// The key for `y`: the scalars of `y`, and the sum of their products with the secret
    /// scalars modulo the group order.
    pub open spec fn is_key(&self, y: Seq<int>, dk: &SipDk<L>) -> bool {
        &&& dk.weights() == scalars_of(y)
        &&& dk.scalar() == weighted_sum(scalars_of(y), self.secret(), L as nat)
            % curve_order_value()
    }

    /// The point whose multiplier decryption searches for: the combination of the points
    /// of the ciphertext with the scalars of the key, minus the head of the ciphertext
    /// multiplied by the scalar of the key.
    pub open spec fn target(ct: &SipCipher<L>, dk: &SipDk<L>) -> Seq<u8> {
        g1_sum(
            g1_combination(ct.body(), dk.weights(), L as nat),
            g1_negation(g1_scaled(ct.head(), dk.scalar())),
        )
    }

    /// A pair of a master secret key and its master public key, drawn from `rng`: the secret
    /// scalars are the scalars of one draw each, in their order, and `rng` moves on by `L`
    /// states.
    pub fn generate_sec_key(rng: &mut RandUtilsRAND) -> (r: (SipMsk<L>, SipMpk<L>))
        ensures
            key_pair(&r.0, &r.1),
            forall|i: int|
                0 <= i < L ==> #[trigger] r.0.scalars()[i] == seeded_scalar(
                    draw_seed(advanced(old(rng)@, i as nat)),
                    curve_order_value(),
                ),
            final(rng)@ == advanced(old(rng)@, L as nat),
    {
        let order = big_curve_order();
        let s = rng.sample_vec(L, &order);
        let g = G1::generator();
        let mut v: Vec<G1> = Vec::new();
        let mut i: usize = 0;
        while i < L
            invariant
                i <= L,
                s@.len() == L,
                v@.len() == i,
                g@ == G1_GENERATOR@,
                forall|k: int| 0 <= k < i ==> (#[trigger] v@[k])@ == g1_scaled(G1_GENERATOR@, s@[k]@),
            decreases L - i,
        {
            v.push(g.mul(&s[i]));
            i = i + 1;
        }
        let msk = SipMsk { s };
        let mpk = SipMpk { v };
        proof {
            assert forall|i: int| 0 <= i < L implies (#[trigger] msk.scalars()[i])
                < curve_order_value() && mpk.points()[i] == g1_scaled(
                G1_GENERATOR@,
                msk.scalars()[i],
            ) by {
                assert(RandUtilsRAND::value(&msk.s@[i]) < RandUtilsRAND::value(&order));
            }
        }
        (msk, mpk)
    }

    /// Encrypts `x` with the randomness `r`. It fails where `x` has not `L` elements.
    pub fn encrypt_with_randomness(&self, x: &[BigInt], r: &BigNum) -> (res: Result<
        SipCipher<L>,
        FeError,
    >)
        requires
            self.wf(),
        ensures
            match res {
                Ok(ct) => x@.len() == L && self.is_encryption(values(x@), r@, &ct),
                Err(e) => e == FeError::DimensionMismatch && x@.len() != L,
            },
    {
        if x.len() != L {
            return Err(FeError::DimensionMismatch);
        }
        let g = G1::generator();
        let c0 = g.mul(r);
        let mut c: Vec<G1> = Vec::new();
        let mut i: usize = 0;
        while i < L
            invariant
                i <= L,
                x@.len() == L,
                self.wf(),
                c@.len() == i,
                g@ == G1_GENERATOR@,
                forall|k: int|
                    0 <= k < i ==> (#[trigger] c@[k])@ == g1_sum(
                        g1_scaled(G1_GENERATOR@, scalars_of(values(x@))[k]),
                        g1_scaled(self.public()[k], r@),
                    ),
            decreases L - i,
        {
            let xi = to_scalar(&x[i]);
            let ci = g.mul(&xi).add(&self.mpk.v[i].mul(r));
            c.push(ci);
            i = i + 1;
        }
        Ok(SipCipher { c0, c })
    }

    /// The search that ends decryption: the multiplier of `target` to the base of the
    /// generator, with the bound of an inner product of `L` elements of a size of at most
    /// `bound`.
    pub fn recover(target: &G1, bound: &BigInt) -> (r: Result<Option<BigInt>, FeError>)
        ensures
            match r {
                Ok(v) => {
                    &&& target@ == g1_identity() || inner_product_bound(bound@, L as nat)
                        <= MAX_BOUND
                    &&& value_of(v) == dlog_spec::<G1>(
                        target@,
                        G1_GENERATOR@,
                        step_count(inner_product_bound(bound@, L as nat)),
                    )
                },
                Err(e) => e == FeError::BoundTooLarge && target@ != g1_identity()
                    && inner_product_bound(bound@, L as nat) > MAX_BOUND,
            },
    {
        let square = int_mul(bound, bound);
        let wide = int_mul(&square, &int_from_u64(L as u64));
        proof {
            assert(bound@ * bound@ >= 0) by (nonlinear_arith);
            assert(bound@ * bound@ * L >= 0) by (nonlinear_arith)
                requires
                    bound@ * bound@ >= 0,
            ;
        }
        bounded_search::<G1>(target, &G1::generator(), &wide)
    }
}

impl<const L: usize> FunctionalEncryption for Sip<L> {
    type CipherText = SipCipher<L>;

    type PlainData = Vec<BigInt>;

    type FEKeyData = Vec<BigInt>;

    type EvaluationKey = SipDk<L>;

    open spec fn wf(&self) -> bool {
        &&& self.secret().len() == L
        &&& self.public().len() == L
        &&& forall|i: int|
            0 <= i < L ==> (#[trigger] self.secret()[i]) < curve_order_value() && self.public()[i]
                == g1_scaled(G1_GENERATOR@, self.secret()[i])
    }

    open spec fn plain_wf(plain: &Vec<BigInt>) -> bool {
        true
    }

    open spec fn function_wf(f: &Vec<BigInt>) -> bool {
        true
    }

    open spec fn cipher_wf(ct: &SipCipher<L>) -> bool {
        ct.wf()
    }

    open spec fn key_wf(dk: &SipDk<L>) -> bool {
        dk.wf()
    }

    /// A new instance, with a key pair drawn from `rng`: the secret scalars are the scalars
    /// of one draw each, in their order, and `rng` moves on by `L` states.
    fn new(rng: &mut RandUtilsRAND) -> (r: Sip<L>)
        ensures
            forall|i: int|
                0 <= i < L ==> #[trigger] r.secret()[i] == seeded_scalar(
                    draw_seed(advanced(old(rng)@, i as nat)),
                    curve_order_value(),
                ),
            final(rng)@ == advanced(old(rng)@, L as nat),
    {
        let (msk, mpk) = Sip::<L>::generate_sec_key(rng);
        Sip { msk, mpk }
    }

    /// Encrypts `x` with the scalar of one draw from `rng`, which moves on by one state. It
    /// fails where `x` has not `L` elements.
    fn encrypt(&self, x: &Vec<BigInt>, rng: &mut RandUtilsRAND) -> (res: Result<
        SipCipher<L>,
        FeError,
    >)
        ensures
            match res {
                Ok(ct) => x@.len() == L && self.is_encryption(
                    values(x@),
                    seeded_scalar(draw_seed(old(rng)@), curve_order_value()),
                    &ct,
                ),
                Err(e) => e == FeError::DimensionMismatch && x@.len() != L,
            },
            seeded_scalar(draw_seed(old(rng)@), curve_order_value()) < curve_order_value(),
            final(rng)@ == next_state(old(rng)@),
    {
        let order = big_curve_order();
        let r = rng.sample(&order);
        let res = self.encrypt_with_randomness(x.as_slice(), &r);
        proof {
            if res is Ok {
                assert(self.is_encryption(values(x@), r@, &res->Ok_0));
            }
        }
        res
    }

    /// Derives the key for the inner product with `y`. It fails where `y` has not `L`
    /// elements.
    fn derive_fe_key(&self, y: &Vec<BigInt>) -> (res: Result<SipDk<L>, FeError>)
        ensures
            match res {
                Ok(dk) => y@.len() == L && self.is_key(values(y@), &dk),
                Err(e) => e == FeError::DimensionMismatch && y@.len() != L,
            },
    {
        if y.len() != L {
            return Err(FeError::DimensionMismatch);
        }
        let order = big_curve_order();
        let mut new_y: Vec<BigNum> = Vec::new();
        let mut dk = big_new_int(0);
        let mut i: usize = 0;
        proof {
            vstd::arithmetic::div_mod::lemma_small_mod(0, curve_order_value());
        }
        while i < L
            invariant
                i <= L,
                y@.len() == L,
                self.wf(),
                order@ == curve_order_value(),
                new_y@.len() == i,
                forall|k: int| 0 <= k < i ==> (#[trigger] new_y@[k])@ == scalars_of(values(y@))[k],
                dk@ == weighted_sum(scalars_of(values(y@)), self.secret(), i as nat)
                    % curve_order_value(),
            decreases L - i,
        {
            let yi = to_scalar(&y[i]);
            let t = big_modmul(&yi, &self.msk.s[i], &order);
            let next = big_modadd(&dk, &t, &order);
            proof {
                let n = curve_order_value() as int;
                let before = weighted_sum(scalars_of(values(y@)), self.secret(), i as nat) as int;
                let p = (yi@ * self.msk.s@[i as int]@) as int;
                vstd::arithmetic::div_mod::lemma_add_mod_noop(before, p, n);
                assert(self.secret()[i as int] == self.msk.s@[i as int]@);
            }
            dk = next;
            new_y.push(yi);
            i = i + 1;
        }
        let key = SipDk { y: new_y, dk };
        proof {
            assert(key.weights() =~= scalars_of(values(y@)));
        }
        Ok(key)
    }

    /// Recovers the inner product of the plaintext of `ct` and the vector of `dk`: the
    /// multiplier of the target point to the base of the generator is searched for with the
    /// bound `bound * bound * L`. It fails where that is above the ceiling of the search.
    fn decrypt(&self, ct: &SipCipher<L>, dk: &SipDk<L>, bound: &BigInt) -> (r: Result<
        Option<BigInt>,
        FeError,
    >)
        ensures
            match r {
                Ok(v) => {
                    &&& Self::target(ct, dk) == g1_identity() || inner_product_bound(
                        bound@,
                        L as nat,
                    ) <= MAX_BOUND
                    &&& value_of(v) == dlog_spec::<G1>(
                        Self::target(ct, dk),
                        G1_GENERATOR@,
                        step_count(inner_product_bound(bound@, L as nat)),
                    )
                },
                Err(e) => e == FeError::BoundTooLarge && Self::target(ct, dk) != g1_identity()
                    && inner_product_bound(bound@, L as nat) > MAX_BOUND,
            },
    {
        let mut res = G1::new();
        let mut i: usize = 0;
        while i < L
            invariant
                i <= L,
                ct.wf(),
                dk.wf(),
                res@ == g1_combination(ct.body(), dk.weights(), i as nat),
            decreases L - i,
        {
            res = res.add(&ct.c[i].mul(&dk.y[i]));
            i = i + 1;
        }
        let target = res.sub(&ct.c0.mul(&dk.dk));
        Self::recover(&target, bound)
    }
}


// ---------------------------------------------------------------------------
// Decryption recovers the inner product
// ---------------------------------------------------------------------------
/// The sum over the first `n` coordinates of the exponent of the point of the ciphertext
/// times the scalar of the key.
spec fn blinded_sum(xs: Seq<nat>, s: Seq<nat>, r: nat, ys: Seq<nat>, n: nat) -> int
    decreases n,
{
    if n == 0 {
        0
    } else {
        blinded_sum(xs, s, r, ys, (n - 1) as nat) + (xs[n - 1] + s[n - 1] * r) * ys[n - 1]
    }
}

/// The sum of the products of the first `n` scalars of `xs` and `ys`.
pub open spec fn scalar_sum(xs: Seq<nat>, ys: Seq<nat>, n: nat) -> int
    decreases n,
{
    if n == 0 {
        0
    } else {
        scalar_sum(xs, ys, (n - 1) as nat) + xs[n - 1] * ys[n - 1]
    }
}

proof fn lemma_blinded_sum_splits(xs: Seq<nat>, s: Seq<nat>, r: nat, ys: Seq<nat>, n: nat)
    ensures
        blinded_sum(xs, s, r, ys, n) == scalar_sum(xs, ys, n) + r * weighted_sum(ys, s, n),
    decreases n,
{
    if n > 0 {
        lemma_blinded_sum_splits(xs, s, r, ys, (n - 1) as nat);
        let x = xs[n - 1] as int;
        let si = s[n - 1] as int;
        let y = ys[n - 1] as int;
        let w = weighted_sum(ys, s, (n - 1) as nat) as int;
        let ri = r as int;
        assert((x + si * ri) * y == x * y + ri * (y * si)) by (nonlinear_arith);
        assert(ri * (w + y * si) == ri * w + ri * (y * si)) by (nonlinear_arith);
        assert(blinded_sum(xs, s, r, ys, n) == blinded_sum(xs, s, r, ys, (n - 1) as nat) + (x + si
            * ri) * y);
        assert(scalar_sum(xs, ys, n) == scalar_sum(xs, ys, (n - 1) as nat) + x * y);
        assert(weighted_sum(ys, s, n) == w + y * si);
    } else {
        assert(r * 0 == 0) by (nonlinear_arith);
    }
}

/// Products of scalars sum to the inner product of the integers, modulo the group order.
pub proof fn lemma_scalar_sum_is_inner_product(x: Seq<int>, y: Seq<int>, n: nat)
    requires
        n <= x.len(),
        n <= y.len(),
    ensures
        scalar_sum(scalars_of(x), scalars_of(y), n) % (curve_order_value() as int)
            == inner_product(x, y, n) % (curve_order_value() as int),
    decreases n,
{
    let m = curve_order_value() as int;
    if n > 0 {
        lemma_scalar_sum_is_inner_product(x, y, (n - 1) as nat);
        let a = scalar_sum(scalars_of(x), scalars_of(y), (n - 1) as nat);
        let b = inner_product(x, y, (n - 1) as nat);
        let xi = x[n - 1];
        let yi = y[n - 1];
        vstd::arithmetic::div_mod::lemma_mod_bound(xi, m);
        vstd::arithmetic::div_mod::lemma_mod_bound(yi, m);
        vstd::arithmetic::div_mod::lemma_mul_mod_noop(xi, yi, m);
        vstd::arithmetic::div_mod::lemma_add_mod_noop(a, (xi % m) * (yi % m), m);
        vstd::arithmetic::div_mod::lemma_add_mod_noop(b, xi * yi, m);
    }
}

/// The size of an inner product of `n` coordinates, each of a size of at most `bound`, is at
/// most `n` times the square of `bound`.
pub proof fn lemma_inner_product_size(x: Seq<int>, y: Seq<int>, bound: int, n: nat)
    requires
        n <= x.len(),
        n <= y.len(),
        forall|i: int| 0 <= i < n ==> -bound <= #[trigger] x[i] <= bound,
        forall|i: int| 0 <= i < n ==> -bound <= #[trigger] y[i] <= bound,
    ensures
        -(bound * bound * n) <= inner_product(x, y, n) <= bound * bound * n,
    decreases n,
{
    if n > 0 {
        lemma_inner_product_size(x, y, bound, (n - 1) as nat);
        let xi = x[n - 1];
        let yi = y[n - 1];
        assert(-(bound * bound) <= xi * yi <= bound * bound) by (nonlinear_arith)
            requires
                -bound <= xi <= bound,
                -bound <= yi <= bound,
        ;
        assert(bound * bound * n == bound * bound * (n - 1) + bound * bound) by (nonlinear_arith);
    } else {
        assert(bound * bound * 0 == 0) by (nonlinear_arith);
    }
}

/// The group order is large beside every bound that a search accepts.
pub proof fn lemma_order_is_large(bound: nat)
    requires
        bound <= MAX_BOUND,
    ensures
        4 * step_count(bound) * step_count(bound) <= curve_order_value(),
{
    lemma_step_count_covers(bound);
    let m = step_count(bound);
    assert(4 * m * m <= 4 * 0x10_0001 * 0x10_0001) by (nonlinear_arith)
        requires
            0 <= m <= 0x10_0001,
    ;
}

proof fn lemma_combination_exponent<const L: usize>(
    sip: &Sip<L>,
    x: Seq<int>,
    r: nat,
    ct: &SipCipher<L>,
    ys: Seq<nat>,
    n: nat,
)
    requires
        generates::<G1>(G1_GENERATOR@, curve_order_value()),
        sip.wf(),
        x.len() == L,
        ys.len() == L,
        r < big_limit(),
        sip.is_encryption(x, r, ct),
        forall|i: int| 0 <= i < L ==> (#[trigger] ys[i]) < curve_order_value(),
        n <= L,
    ensures
        g1_combination(ct.body(), ys, n) == element::<G1>(
            G1_GENERATOR@,
            curve_order_value(),
            blinded_sum(scalars_of(x), sip.secret(), r, ys, n),
        ),
    decreases n,
{
    let g = G1_GENERATOR@;
    let order = curve_order_value();
    lemma_order_below_limit();
    lemma_element_generator::<G1>(g, order);
    if n > 0 {
        let i = n - 1;
        lemma_combination_exponent(sip, x, r, ct, ys, (n - 1) as nat);
        let xs = scalars_of(x)[i];
        let si = sip.secret()[i];
        vstd::arithmetic::div_mod::lemma_mod_bound(x[i], order as int);
        // the public point, and the point of the ciphertext
        lemma_element_pow::<G1>(g, order, 1, si);
        lemma_element_pow::<G1>(g, order, 1, xs);
        lemma_element_pow::<G1>(g, order, si as int, r);
        lemma_element_op::<G1>(g, order, xs as int, (si * r) as int);
        assert(sip.public()[i] == element::<G1>(g, order, si as int));
        assert(ct.body()[i] == element::<G1>(g, order, (xs + si * r) as int));
        // its multiple, and the sum
        lemma_element_pow::<G1>(g, order, (xs + si * r) as int, ys[i]);
        lemma_element_op::<G1>(
            g,
            order,
            blinded_sum(scalars_of(x), sip.secret(), r, ys, (n - 1) as nat),
            ((xs + si * r) * ys[i]) as int,
        );
    }
}

/// Where the generator of the first group generates a cyclic group of the group order,
/// decryption recovers the inner product: for a ciphertext of `x` and a key for `y`, with
/// all numbers of a size of at most `bound`, the search of decryption returns the inner
/// product of `x` and `y`.
pub proof fn lemma_sip_decrypts<const L: usize>(
    sip: &Sip<L>,
    x: Seq<int>,
    y: Seq<int>,
    r: nat,
    ct: &SipCipher<L>,
    dk: &SipDk<L>,
    bound: int,
)
    requires
        generates::<G1>(G1_GENERATOR@, curve_order_value()),
        sip.wf(),
        x.len() == L,
        y.len() == L,
        r < big_limit(),
        sip.is_encryption(x, r, ct),
        sip.is_key(y, dk),
        forall|i: int| 0 <= i < L ==> -bound <= #[trigger] x[i] <= bound,
        forall|i: int| 0 <= i < L ==> -bound <= #[trigger] y[i] <= bound,
        inner_product_bound(bound, L as nat) <= MAX_BOUND,
    ensures
        dlog_spec::<G1>(
            Sip::<L>::target(ct, dk),
            G1_GENERATOR@,
            step_count(inner_product_bound(bound, L as nat)),
        ) == Some(inner_product(x, y, L as nat)),
{
    let g = G1_GENERATOR@;
    let order = curve_order_value();
    let m = order as int;
    let xs = scalars_of(x);
    let ys = scalars_of(y);
    let s = sip.secret();
    lemma_order_below_limit();
    lemma_element_generator::<G1>(g, order);
    assert forall|i: int| 0 <= i < L implies (#[trigger] ys[i]) < order by {
        vstd::arithmetic::div_mod::lemma_mod_bound(y[i], m);
    }
    // the combination of the points of the ciphertext
    lemma_combination_exponent(sip, x, r, ct, ys, L as nat);
    let c = blinded_sum(xs, s, r, ys, L as nat);
    // the head of the ciphertext to the scalar of the key, inverted
    let w = weighted_sum(ys, s, L as nat);
    let k = dk.scalar();
    vstd::arithmetic::div_mod::lemma_mod_bound(w as int, m);
    lemma_element_pow::<G1>(g, order, 1, r);
    lemma_element_pow::<G1>(g, order, r as int, k);
    lemma_element_inv::<G1>(g, order, (r * k) as int);
    lemma_element_op::<G1>(g, order, c, -(r * k));
    assert(Sip::<L>::target(ct, dk) == element::<G1>(g, order, c - r * k));
    // its exponent is the inner product, modulo the group order
    let ip = inner_product(x, y, L as nat);
    lemma_blinded_sum_splits(xs, s, r, ys, L as nat);
    let xy = scalar_sum(xs, ys, L as nat);
    vstd::arithmetic::div_mod::lemma_fundamental_div_mod(w as int, m);
    assert(c - r * k == xy + (r * (w / order)) * m) by (nonlinear_arith)
        requires
            c == xy + r * w,
            w == m * (w / order) + k,
            m == order,
    ;
    vstd::arithmetic::div_mod::lemma_mod_multiples_vanish((r * (w / order)) as int, xy, m);
    lemma_scalar_sum_is_inner_product(x, y, L as nat);
    lemma_element_same::<G1>(g, order, c - r * k, ip);
    // and the search finds it
    lemma_inner_product_size(x, y, bound, L as nat);
    let b = inner_product_bound(bound, L as nat);
    assert(bound * bound >= 0) by (nonlinear_arith);
    assert(bound * bound * L >= 0) by (nonlinear_arith)
        requires
            bound * bound >= 0,
    ;
    lemma_order_is_large(b);
    lemma_search_finds::<G1>(g, order, ip, b);
}

} // verus!
