use crate::define::big_curve_order;
use crate::define::big_from_bigint;
use crate::define::big_modmul;
use crate::define::big_to_bigint;
use crate::define::curve_order_value;
use crate::define::int_from_u64;
use crate::define::int_mul;
use crate::define::BigInt;
use crate::define::BigNum;
use crate::error::FeError;
use crate::group::g1_compressed;
use crate::group::g1_encodings;
use crate::group::g2_encodings;
use crate::group::pairing_base;
use crate::group::g1_identity;
use crate::group::g1_scaled;
use crate::group::g1_sum;
use crate::group::g2_identity;
use crate::group::g2_scaled;
use crate::group::g2_sum;
use crate::group::gt_identity;
use crate::group::gt_inverted;
use crate::group::gt_product;
use crate::group::pairing;
use crate::group::pairing_value;
use crate::group::sha256;
use crate::group::sha256_value;
use crate::group::G1Vector;
use crate::group::G2Vector;
use crate::group::Group;
use crate::group::Gt;
use crate::group::G1;
use crate::group::G1_GENERATOR;
use crate::group::G2;
use crate::group::G2_GENERATOR;
use crate::math::matrix::expansion_of;
use crate::math::matrix::BigIntMatrix2x2;
use crate::simple_ip::g1_combination;
use crate::simple_ip::inner_product_bound;
use crate::traits::FunctionalEncryption;
use crate::define::lemma_order_below_limit;
use crate::simple_ip::lemma_inner_product_size;
use crate::simple_ip::lemma_order_is_large;
use crate::simple_ip::lemma_scalar_sum_is_inner_product;
use crate::simple_ip::scalar_sum;
use crate::utils::algebra::is_power;
use crate::utils::algebra::lemma_element_generator;
use crate::utils::algebra::lemma_element_inv;
use crate::utils::algebra::lemma_element_op;
use crate::utils::algebra::lemma_element_pairing;
use crate::utils::algebra::lemma_element_pow;
use crate::utils::algebra::lemma_element_same;
use crate::utils::algebra::lemma_power_is_element;
use crate::utils::algebra::pairing_groups;
use crate::utils::dlog::bounded_search;
use crate::utils::dlog::element;
use crate::utils::dlog::lemma_search_finds;
use crate::utils::inner_product;
use crate::utils::dlog::dlog_spec;
use crate::utils::dlog::generates;
use crate::utils::dlog::law_scale;
use crate::utils::dlog::power;
use crate::define::big_limit;
use crate::utils::dlog::step_count;
use crate::utils::dlog::value_of;
use crate::utils::dlog::MAX_BOUND;
use crate::utils::hash_bytes_to_g1;
use crate::utils::hash_bytes_to_g2;
use crate::utils::hashed_to_g1;
use crate::utils::hashed_to_g2;
use crate::utils::indexed_label;
use crate::utils::indexed_label_bytes;
use crate::utils::joined_text;
use crate::utils::joined_text_bytes;
use crate::utils::rand_utils::advanced;
use crate::utils::rand_utils::draw_seed;
use crate::utils::rand_utils::lemma_advanced_adds;
use crate::utils::rand_utils::next_state;
use crate::utils::rand_utils::seeded_scalar;
use crate::utils::rand_utils::RandUtilsRAND;
use crate::utils::rand_utils::Sample;
use crate::utils::scalars_of;
use crate::utils::to_scalar;
use crate::utils::values;
use vstd::prelude::*;
use vstd::string::StringSliceAdditionalSpecFns;

verus! {

/// The matrix that two clients share: the point of the one multiplied by the secret of the
/// other is hashed, the digest is expanded to four numbers, and each is reduced modulo the
/// group order.
pub open spec fn pair_matrix(pk: Seq<u8>, sk: nat) -> Seq<int> {
    let raw = expansion_of(sha256_value(g1_compressed(g1_scaled(pk, sk))));
    Seq::new(4, |k: int| raw[k] % (curve_order_value() as int))
}

/// The share matrix after the matrix `m` of one peer has gone into it: added for a peer
/// with a smaller index, subtracted for one with a larger, and reduced modulo the group
/// order.
pub open spec fn share_step(prev: Seq<int>, m: Seq<int>, plus: bool) -> Seq<int> {
    Seq::new(
        4,
        |k: int|
            if plus {
                (prev[k] + m[k]) % (curve_order_value() as int)
            } else {
                (prev[k] - m[k]) % (curve_order_value() as int)
            },
    )
}

/// The share matrix of the client `index` with the secret `sk` after the first `n` public
/// keys of `pks` have gone into it; its own key leaves it as it is.
pub open spec fn share_fold(start: Seq<int>, index: nat, sk: nat, pks: Seq<Seq<u8>>, n: nat) -> Seq<
    int,
>
    decreases n,
{
    if n == 0 {
        start
    } else {
        let prev = share_fold(start, index, sk, pks, (n - 1) as nat);
        if n - 1 == index {
            prev
        } else {
            share_step(prev, pair_matrix(pks[n - 1], sk), n - 1 < index)
        }
    }
}

/// The `k`-th point of the first group that belongs to a label.
pub open spec fn label_point(k: nat, label: Seq<u8>) -> Seq<u8> {
    hashed_to_g1(indexed_label(k, label))
}

/// The `k`-th point of the second group that belongs to a vector of integers.
pub open spec fn vector_point(k: nat, y: Seq<int>) -> Seq<u8> {
    hashed_to_g2(indexed_label(k, joined_text(y, y.len())))
}

/// The ciphertext of the scalar `x` of a client with the blinding scalars `s` under a
/// label: the two points of the label, each multiplied by its blinding scalar, plus the
/// generator multiplied by `x`.
pub open spec fn client_cipher(s: Seq<nat>, x: nat, label: Seq<u8>) -> Seq<u8> {
    g1_sum(
        g1_sum(
            g1_sum(g1_identity(), g1_scaled(label_point(0, label), s[0])),
            g1_scaled(label_point(1, label), s[1]),
        ),
        g1_scaled(G1_GENERATOR@, x),
    )
}

/// The `p`-th point of the key share of a client for the vector `y`: the two points of the
/// vector, each multiplied by its element of row `p` of the share matrix, plus the
/// generator multiplied by the product of the client's coordinate of `y` and its `p`-th
/// blinding scalar.
pub open spec fn share_point(share: Seq<int>, s: Seq<nat>, y: Seq<int>, index: int, p: int) -> Seq<
    u8,
> {
    g2_sum(
        g2_sum(
            g2_sum(g2_identity(), g2_scaled(vector_point(0, y), share[p * 2] as nat)),
            g2_scaled(vector_point(1, y), share[p * 2 + 1] as nat),
        ),
        g2_scaled(G2_GENERATOR@, (scalars_of(y)[index] * s[p]) % curve_order_value()),
    )
}

/// The sum of the `p`-th points of the first `n` key shares.
pub open spec fn combined_point(shares: Seq<Seq<Seq<u8>>>, p: int, n: nat) -> Seq<u8>
    decreases n,
{
    if n == 0 {
        g2_identity()
    } else {
        g2_sum(combined_point(shares, p, (n - 1) as nat), shares[n - 1][p])
    }
}

/// The `p`-th point of the key of a single client for the vector `y`: the sum over the
/// first `n` coordinates of the generator multiplied by the product of the coordinate and
/// the `p`-th blinding scalar.
pub open spec fn single_point(s: Seq<nat>, y: Seq<int>, p: int, n: nat) -> Seq<u8>
    decreases n,
{
    if n == 0 {
        g2_identity()
    } else {
        g2_sum(
            single_point(s, y, p, (n - 1) as nat),
            g2_scaled(G2_GENERATOR@, (scalars_of(y)[n - 1] * s[p]) % curve_order_value()),
        )
    }
}

/// The element of the target group whose exponent decryption searches for: the pairing of
/// the combination of the ciphertexts, divided by the pairings of the two points of the key
/// with the two points of the label.
pub open spec fn dmcfe_target(
    ciphers: Seq<Seq<u8>>,
    weights: Seq<nat>,
    key: Seq<Seq<u8>>,
    label: Seq<u8>,
) -> Seq<u8> {
    let s = pairing_value(G2_GENERATOR@, g1_combination(ciphers, weights, weights.len()));
    let t = gt_product(
        gt_product(gt_identity(), pairing_value(key[0], label_point(0, label))),
        pairing_value(key[1], label_point(1, label)),
    );
    gt_product(s, gt_inverted(t))
}

/// A client of the decentralized scheme for inner products of vectors of `L` integers.
#[derive(Debug)]
pub struct Dmcfe<const L: usize> {
    /// Index of the client.
    index: usize,
    /// Public key.
    client_pub_key: G1,
    /// Secret key.
    client_sec_key: BigNum,
    /// Secret share matrix.
    share: BigIntMatrix2x2,
    /// The two blinding scalars.
    s: Vec<BigNum>,
}

/// Key that evaluates the inner product with a vector of `L` integers.
#[derive(Debug)]
pub struct DmcfeDecKey<const L: usize> {
    key: G2Vector,
    y: Vec<BigNum>,
}

impl<const L: usize> DmcfeDecKey<L> {
    /// The encodings of the two points of the key.
    pub closed spec fn parts(&self) -> Seq<Seq<u8>> {
        g2_encodings(self.key@)
    }

    /// The scalars of the vector that the key is for.
    pub closed spec fn weights(&self) -> Seq<nat> {
        Seq::new(self.y@.len(), |i: int| self.y@[i]@)
    }

    /// The key has two points, and a scalar for each coordinate.
    pub open spec fn wf(&self) -> bool {
        self.parts().len() == 2 && self.weights().len() == L
    }

    /// The two points of the key.
    pub fn key(&self) -> (r: &G2Vector)
        ensures
            g2_encodings(r@) == self.parts(),
    {
        &self.key
    }

    /// The scalars of the vector that the key is for.
    pub fn y(&self) -> (r: &Vec<BigNum>)
        ensures
            r@.len() == self.weights().len(),
            forall|i: int| 0 <= i < r@.len() ==> (#[trigger] r@[i])@ == self.weights()[i],
    {
        &self.y
    }
}

impl<const L: usize> Dmcfe<L> {
    /// The index of the client.
    pub closed spec fn position(&self) -> nat {
        self.index as nat
    }

    /// The encoding of the public key.
    pub closed spec fn public(&self) -> Seq<u8> {
        self.client_pub_key@
    }

    /// The secret key.
    pub closed spec fn secret(&self) -> nat {
        self.client_sec_key@
    }

    /// The four elements of the share matrix.
    pub closed spec fn share_values(&self) -> Seq<int> {
        self.share@
    }

    /// The blinding scalars.
    pub closed spec fn blinding(&self) -> Seq<nat> {
        Seq::new(self.s@.len(), |i: int| self.s@[i]@)
    }

    /// The public key of the client.
    pub fn client_pub_key(&self) -> (r: G1)
        ensures
            r@ == self.public(),
    {
        self.client_pub_key
    }

    /// The share matrix of the client.
    pub fn share_matrix(&self) -> (r: &BigIntMatrix2x2)
        ensures
            r@ == self.share_values(),
    {
        &self.share
    }

    /// The two blinding scalars of the client.
    pub fn blinding_scalars(&self) -> (r: &Vec<BigNum>)
        ensures
            r@.len() == self.blinding().len(),
            forall|i: int| 0 <= i < r@.len() ==> (#[trigger] r@[i])@ == self.blinding()[i],
    {
        &self.s
    }

    /// The index of the client.
    pub fn index(&self) -> (r: usize)
        ensures
            r == self.position(),
    {
        self.index
    }

    /// A client with the index `index`, with a secret key and two blinding scalars below the
    /// group order drawn from `rng`: the secret key is the scalar of the first draw, the
    /// blinding scalars are those of the two draws after it, and `rng` moves on by three
    /// states. Its public key is the generator multiplied by the secret key, and its share
    /// matrix is zero.
    pub fn new_single(index: usize, rng: &mut RandUtilsRAND) -> (r: Self)
        ensures
            r.wf(),
            r.position() == index,
            r.secret() < curve_order_value(),
            r.secret() == seeded_scalar(draw_seed(old(rng)@), curve_order_value()),
            r.public() == g1_scaled(G1_GENERATOR@, r.secret()),
            r.share_values() == seq![0int, 0int, 0int, 0int],
            forall|k: int| 0 <= k < 2 ==> #[trigger] r.blinding()[k] < curve_order_value(),
            forall|k: int|
                0 <= k < 2 ==> #[trigger] r.blinding()[k] == seeded_scalar(
                    draw_seed(advanced(old(rng)@, (k + 1) as nat)),
                    curve_order_value(),
                ),
            final(rng)@ == advanced(old(rng)@, 3),
    {
        let order = big_curve_order();
        let ghost start = rng@;
        let client_sec_key = rng.sample(&order);
        let client_pub_key = G1::generator().mul(&client_sec_key);
        let share = BigIntMatrix2x2::new();
        let s = rng.sample_vec(2, &order);
        let r = Dmcfe { index, client_pub_key, client_sec_key, share, s };
        proof {
            assert(advanced(start, 1) == next_state(start)) by {
                assert(advanced(start, 0) == start);
            }
            lemma_advanced_adds(start, 1, 2);
            assert forall|k: int| 0 <= k < 2 implies #[trigger] r.blinding()[k] == seeded_scalar(
                draw_seed(advanced(start, (k + 1) as nat)),
                curve_order_value(),
            ) by {
                lemma_advanced_adds(start, 1, k as nat);
                assert(r.s@[k]@ == seeded_scalar(
                    draw_seed(advanced(next_state(start), k as nat)),
                    curve_order_value(),
                ));
            }
            assert forall|k: int| 0 <= k < 2 implies #[trigger] r.blinding()[k]
                < curve_order_value() by {
                assert(RandUtilsRAND::value(&r.s@[k]) < RandUtilsRAND::value(&order));
            }
        }
        r
    }

    /// Takes the public keys of all clients into the share matrix: for every other client
    /// the matrix shared with it is added where its index is smaller, and subtracted where
    /// it is larger, modulo the group order.
    pub fn set_share(&mut self, pub_keys: &[G1])
        requires
            old(self).wf(),
        ensures
            final(self).wf(),
            final(self).position() == old(self).position(),
            final(self).public() == old(self).public(),
            final(self).secret() == old(self).secret(),
            final(self).blinding() == old(self).blinding(),
            final(self).share_values() == share_fold(
                old(self).share_values(),
                old(self).position(),
                old(self).secret(),
                g1_encodings(pub_keys@),
                pub_keys@.len(),
            ),
    {
        let order = big_curve_order();
        let p = big_to_bigint(&order);
        let ghost start = self.share@;
        let ghost pks = g1_encodings(pub_keys@);
        let mut i: usize = 0;
        while i < pub_keys.len()
            invariant
                i <= pub_keys@.len(),
                p@ == curve_order_value(),
                pks == g1_encodings(pub_keys@),
                self.index == old(self).index,
                self.client_pub_key == old(self).client_pub_key,
                self.client_sec_key == old(self).client_sec_key,
                self.s == old(self).s,
                start == old(self).share@,
                self.share@.len() == 4,
                forall|k: int|
                    0 <= k < 4 ==> 0 <= #[trigger] self.share@[k] < curve_order_value(),
                self.share@ == share_fold(
                    start,
                    self.index as nat,
                    self.client_sec_key@,
                    pks,
                    i as nat,
                ),
            decreases pub_keys@.len() - i,
        {
            if i != self.index {
                let shared = pub_keys[i].mul(&self.client_sec_key);
                let t = shared.to_compressed();
                let digest = sha256(t.as_slice());
                let mut add = BigIntMatrix2x2::new_random_deterministic(&digest);
                add.modp(&p);
                let ghost m = pair_matrix(pks[i as int], self.client_sec_key@);
                let ghost prev = self.share@;
                assert(add@ =~= m);
                if i < self.index {
                    self.share.add(&add);
                } else {
                    self.share.sub(&add);
                }
                self.share.modp(&p);
                proof {
                    assert(self.share@ =~= share_step(prev, m, i < self.index));
                    assert forall|k: int| 0 <= k < 4 implies 0 <= #[trigger] self.share@[k]
                        < curve_order_value() by {
                        if i < self.index {
                            vstd::arithmetic::div_mod::lemma_mod_bound(
                                prev[k] + m[k],
                                curve_order_value() as int,
                            );
                        } else {
                            vstd::arithmetic::div_mod::lemma_mod_bound(
                                prev[k] - m[k],
                                curve_order_value() as int,
                            );
                        }
                    }
                }
            }
            i = i + 1;
        }
    }

    /// Encrypts the integer `x` of the client under `label`.
    pub fn encrypt_single(&self, x: &BigInt, label: &str) -> (r: G1)
        requires
            self.wf(),
        ensures
            r@ == client_cipher(
                self.blinding(),
                (x@ % (curve_order_value() as int)) as nat,
                label.spec_bytes(),
            ),
    {
        let xs = to_scalar(x);
        let text = label.as_bytes();
        let h0 = hash_bytes_to_g1(indexed_label_bytes(0, text).as_slice());
        let h1 = hash_bytes_to_g1(indexed_label_bytes(1, text).as_slice());
        let mut cipher = G1::new();
        cipher = cipher.add(&h0.mul(&self.s[0]));
        cipher = cipher.add(&h1.mul(&self.s[1]));
        cipher.add(&G1::generator().mul(&xs))
    }

    /// Encrypts each integer of `x` under `label`, for a single client that holds the whole
    /// vector. It fails where `x` has not `L` elements.
    pub fn encrypt_with_label(&self, x: &[BigInt], label: &str) -> (r: Result<G1Vector, FeError>)
        requires
            self.wf(),
        ensures
            match r {
                Ok(c) => {
                    &&& x@.len() == L
                    &&& c@.len() == L
                    &&& forall|i: int|
                        0 <= i < L ==> (#[trigger] c@[i])@ == client_cipher(
                            self.blinding(),
                            scalars_of(values(x@))[i],
                            label.spec_bytes(),
                        )
                },
                Err(e) => e == FeError::DimensionMismatch && x@.len() != L,
            },
    {
        if x.len() != L {
            return Err(FeError::DimensionMismatch);
        }
        let mut ciphers: G1Vector = Vec::new();
        let mut i: usize = 0;
        while i < L
            invariant
                i <= L,
                x@.len() == L,
                self.wf(),
                ciphers@.len() == i,
                forall|k: int|
                    0 <= k < i ==> (#[trigger] ciphers@[k])@ == client_cipher(
                        self.blinding(),
                        scalars_of(values(x@))[k],
                        label.spec_bytes(),
                    ),
            decreases L - i,
        {
            ciphers.push(self.encrypt_single(&x[i], label));
            i = i + 1;
        }
        Ok(ciphers)
    }

    /// Derives the share of the client of the key for the inner product with `y`. It fails
    /// where `y` has not `L` elements, or none for the index of the client.
    pub fn derive_fe_key_share(&self, y: &[BigInt]) -> (r: Result<G2Vector, FeError>)
        requires
            self.wf(),
        ensures
            match r {
                Ok(ks) => {
                    &&& y@.len() == L
                    &&& self.position() < L
                    &&& ks@.len() == 2
                    &&& forall|p: int|
                        0 <= p < 2 ==> (#[trigger] ks@[p])@ == share_point(
                            self.share_values(),
                            self.blinding(),
                            values(y@),
                            self.position() as int,
                            p,
                        )
                },
                Err(e) => e == FeError::DimensionMismatch && (y@.len() != L || self.position()
                    >= L),
            },
    {
        if y.len() != L || self.index >= L {
            return Err(FeError::DimensionMismatch);
        }
        let order = big_curve_order();
        let text = joined_text_bytes(y);
        let hs0 = hash_bytes_to_g2(indexed_label_bytes(0, text.as_slice()).as_slice());
        let hs1 = hash_bytes_to_g2(indexed_label_bytes(1, text.as_slice()).as_slice());
        let yi = to_scalar(&y[self.index]);
        let g = G2::generator();
        let mut fe_key_share: G2Vector = Vec::new();
        let mut p: usize = 0;
        while p < 2
            invariant
                p <= 2,
                self.wf(),
                y@.len() == L,
                self.index < L,
                order@ == curve_order_value(),
                g@ == G2_GENERATOR@,
                hs0@ == vector_point(0, values(y@)),
                hs1@ == vector_point(1, values(y@)),
                yi@ == scalars_of(values(y@))[self.index as int],
                fe_key_share@.len() == p,
                forall|q: int|
                    0 <= q < p ==> (#[trigger] fe_key_share@[q])@ == share_point(
                        self.share_values(),
                        self.blinding(),
                        values(y@),
                        self.position() as int,
                        q,
                    ),
            decreases 2 - p,
        {
            proof {
                order.lemma_bounded();
            }
            let row0 = big_from_bigint(self.share.get_element(p, 0));
            let row1 = big_from_bigint(self.share.get_element(p, 1));
            let mut point = G2::new();
            point = point.add(&hs0.mul(&row0));
            point = point.add(&hs1.mul(&row1));
            let temp = big_modmul(&yi, &self.s[p], &order);
            point = point.add(&g.mul(&temp));
            fe_key_share.push(point);
            p = p + 1;
        }
        Ok(fe_key_share)
    }

    /// Combines the key shares of all clients into the key for the inner product with `y`:
    /// the two sums of their points. It fails where there are not `L` shares of two points
    /// each, or `y` has not `L` elements.
    pub fn key_comb(&self, key_shares: &[G2Vector], y: &[BigInt]) -> (r: Result<
        DmcfeDecKey<L>,
        FeError,
    >)
        ensures
            match r {
                Ok(dk) => {
                    &&& shares_fit::<L>(key_shares@, y@)
                    &&& dk.wf()
                    &&& dk.weights() == scalars_of(values(y@))
                    &&& forall|p: int|
                        0 <= p < 2 ==> #[trigger] dk.parts()[p] == combined_point(
                            share_encodings(key_shares@),
                            p,
                            L as nat,
                        )
                },
                Err(e) => e == FeError::DimensionMismatch && !shares_fit::<L>(key_shares@, y@),
            },
    {
        if key_shares.len() != L || y.len() != L {
            return Err(FeError::DimensionMismatch);
        }
        let mut sum0 = G2::new();
        let mut sum1 = G2::new();
        let mut new_y: Vec<BigNum> = Vec::new();
        let ghost encs = share_encodings(key_shares@);
        let mut i: usize = 0;
        while i < L
            invariant
                i <= L,
                key_shares@.len() == L,
                y@.len() == L,
                encs == share_encodings(key_shares@),
                forall|k: int| 0 <= k < i ==> (#[trigger] key_shares@[k])@.len() == 2,
                sum0@ == combined_point(encs, 0, i as nat),
                sum1@ == combined_point(encs, 1, i as nat),
                new_y@.len() == i,
                forall|k: int| 0 <= k < i ==> (#[trigger] new_y@[k])@ == scalars_of(values(y@))[k],
            decreases L - i,
        {
            if key_shares[i].len() != 2 {
                return Err(FeError::DimensionMismatch);
            }
            sum0 = sum0.add(&key_shares[i][0]);
            sum1 = sum1.add(&key_shares[i][1]);
            new_y.push(to_scalar(&y[i]));
            i = i + 1;
        }
        let key: G2Vector = vec![sum0, sum1];
        let dk = DmcfeDecKey { key, y: new_y };
        proof {
            assert(dk.weights() =~= scalars_of(values(y@)));
        }
        Ok(dk)
    }

    /// Recovers the inner product of the plaintexts of `ciphers` and the vector of `dk`
    /// under `label`: the exponent of the target element to the base of the pairing of the
    /// generators is searched for with the bound `bound * bound * L`. It fails where there
    /// are not `L` ciphertexts, and where the bound is above the ceiling of the search.
    pub fn decrypt_with_label(
        &self,
        ciphers: &G1Vector,
        dk: &DmcfeDecKey<L>,
        bound: &BigInt,
        label: &str,
    ) -> (r: Result<Option<BigInt>, FeError>)
        requires
            dk.wf(),
        ensures
            match r {
                Ok(v) => {
                    &&& ciphers@.len() == L
                    &&& dmcfe_target(
                        g1_encodings(ciphers@),
                        dk.weights(),
                        dk.parts(),
                        label.spec_bytes(),
                    ) == gt_identity() || inner_product_bound(bound@, L as nat) <= MAX_BOUND
                    &&& value_of(v) == dlog_spec::<Gt>(
                        dmcfe_target(
                            g1_encodings(ciphers@),
                            dk.weights(),
                            dk.parts(),
                            label.spec_bytes(),
                        ),
                        pairing_base(),
                        step_count(inner_product_bound(bound@, L as nat)),
                    )
                },
                Err(e) => if ciphers@.len() != L {
                    e == FeError::DimensionMismatch
                } else {
                    &&& e == FeError::BoundTooLarge
                    &&& dmcfe_target(
                        g1_encodings(ciphers@),
                        dk.weights(),
                        dk.parts(),
                        label.spec_bytes(),
                    ) != gt_identity()
                    &&& inner_product_bound(bound@, L as nat) > MAX_BOUND
                },
            },
    {
        if ciphers.len() != L {
            return Err(FeError::DimensionMismatch);
        }
        let g1 = G1::generator();
        let g2 = G2::generator();
        let mut ciphers_sum = G1::new();
        let mut i: usize = 0;
        while i < L
            invariant
                i <= L,
                ciphers@.len() == L,
                dk.wf(),
                ciphers_sum@ == g1_combination(g1_encodings(ciphers@), dk.weights(), i as nat),
            decreases L - i,
        {
            ciphers_sum = ciphers_sum.add(&ciphers[i].mul(&dk.y[i]));
            i = i + 1;
        }
        let s = pairing(&g2, &ciphers_sum);
        let text = label.as_bytes();
        let h0 = hash_bytes_to_g1(indexed_label_bytes(0, text).as_slice());
        let h1 = hash_bytes_to_g1(indexed_label_bytes(1, text).as_slice());
        let mut t = Gt::new();
        t = t.mul(&pairing(&dk.key[0], &h0));
        t = t.mul(&pairing(&dk.key[1], &h1));
        let target = s.mul(&t.inverse());
        let base = pairing(&g2, &g1);
        let square = int_mul(bound, bound);
        let wide = int_mul(&square, &int_from_u64(L as u64));
        proof {
            assert(bound@ * bound@ >= 0) by (nonlinear_arith);
            assert(bound@ * bound@ * L >= 0) by (nonlinear_arith)
                requires
                    bound@ * bound@ >= 0,
            ;
        }
        bounded_search::<Gt>(&target, &base, &wide)
    }
}

/// The encodings of the points of a sequence of key shares.
pub open spec fn share_encodings(shares: Seq<G2Vector>) -> Seq<Seq<Seq<u8>>> {
    Seq::new(shares.len(), |i: int| g2_encodings(shares[i]@))
}

/// There are `L` key shares of two points each, and `y` has `L` elements.
pub open spec fn shares_fit<const L: usize>(shares: Seq<G2Vector>, y: Seq<BigInt>) -> bool {
    &&& shares.len() == L
    &&& y.len() == L
    &&& forall|k: int| 0 <= k < L ==> (#[trigger] shares[k])@.len() == 2
}

impl<const L: usize> FunctionalEncryption for Dmcfe<L> {
    type CipherText = G1Vector;

    type PlainData = Vec<BigInt>;

    type FEKeyData = Vec<BigInt>;

    type EvaluationKey = DmcfeDecKey<L>;

    open spec fn wf(&self) -> bool {
        &&& self.blinding().len() == 2
        &&& self.share_values().len() == 4
        &&& forall|k: int|
            0 <= k < 4 ==> 0 <= #[trigger] self.share_values()[k] < curve_order_value()
    }

    open spec fn plain_wf(plain: &Vec<BigInt>) -> bool {
        true
    }

    open spec fn function_wf(f: &Vec<BigInt>) -> bool {
        true
    }

    open spec fn cipher_wf(ct: &G1Vector) -> bool {
        ct@.len() == L
    }

    open spec fn key_wf(dk: &DmcfeDecKey<L>) -> bool {
        dk.wf()
    }

    /// A single client, with the index zero: its secret key is the scalar of the first draw
    /// from `rng`, its blinding scalars are those of the two draws after it, and `rng` moves
    /// on by three states.
    fn new(rng: &mut RandUtilsRAND) -> (r: Self)
        ensures
            r.position() == 0,
            r.secret() == seeded_scalar(draw_seed(old(rng)@), curve_order_value()),
            r.public() == g1_scaled(G1_GENERATOR@, r.secret()),
            r.share_values() == seq![0int, 0int, 0int, 0int],
            forall|k: int|
                0 <= k < 2 ==> #[trigger] r.blinding()[k] == seeded_scalar(
                    draw_seed(advanced(old(rng)@, (k + 1) as nat)),
                    curve_order_value(),
                ),
            final(rng)@ == advanced(old(rng)@, 3),
    {
        Dmcfe::<L>::new_single(0, rng)
    }

    /// Encrypts each integer of `x` under the label of the single client. It draws nothing
    /// from `rng`, which stays as it is. It fails where `x` has not `L` elements.
    fn encrypt(&self, x: &Vec<BigInt>, rng: &mut RandUtilsRAND) -> (r: Result<G1Vector, FeError>)
        ensures
            final(rng)@ == old(rng)@,
            match r {
                Ok(c) => {
                    &&& x@.len() == L
                    &&& c@.len() == L
                    &&& forall|i: int|
                        0 <= i < L ==> (#[trigger] c@[i])@ == client_cipher(
                            self.blinding(),
                            scalars_of(values(x@))[i],
                            "dmcfe-label".spec_bytes(),
                        )
                },
                Err(e) => e == FeError::DimensionMismatch && x@.len() != L,
            },
    {
        self.encrypt_with_label(x.as_slice(), "dmcfe-label")
    }

    /// Derives the key of a single client for the inner product with `y`. It fails where `y`
    /// has not `L` elements.
    fn derive_fe_key(&self, y: &Vec<BigInt>) -> (r: Result<DmcfeDecKey<L>, FeError>)
        ensures
            match r {
                Ok(dk) => {
                    &&& y@.len() == L
                    &&& dk.wf()
                    &&& dk.weights() == scalars_of(values(y@))
                    &&& forall|p: int|
                        0 <= p < 2 ==> #[trigger] dk.parts()[p] == single_point(
                            self.blinding(),
                            values(y@),
                            p,
                            L as nat,
                        )
                },
                Err(e) => e == FeError::DimensionMismatch && y@.len() != L,
            },
    {
        if y.len() != L {
            return Err(FeError::DimensionMismatch);
        }
        let order = big_curve_order();
        let g = G2::generator();
        let mut key0 = G2::new();
        let mut key1 = G2::new();
        let mut new_y: Vec<BigNum> = Vec::new();
        let mut i: usize = 0;
        while i < L
            invariant
                i <= L,
                y@.len() == L,
                self.wf(),
                order@ == curve_order_value(),
                g@ == G2_GENERATOR@,
                key0@ == single_point(self.blinding(), values(y@), 0, i as nat),
                key1@ == single_point(self.blinding(), values(y@), 1, i as nat),
                new_y@.len() == i,
                forall|k: int| 0 <= k < i ==> (#[trigger] new_y@[k])@ == scalars_of(values(y@))[k],
            decreases L - i,
        {
            let yi = to_scalar(&y[i]);
            key0 = key0.add(&g.mul(&big_modmul(&yi, &self.s[0], &order)));
            key1 = key1.add(&g.mul(&big_modmul(&yi, &self.s[1], &order)));
            new_y.push(yi);
            i = i + 1;
        }
        let key: G2Vector = vec![key0, key1];
        let dk = DmcfeDecKey { key, y: new_y };
        proof {
            assert(dk.weights() =~= scalars_of(values(y@)));
        }
        Ok(dk)
    }

    /// Recovers the inner product under the label of the single client; see
    /// `decrypt_with_label`.
    fn decrypt(&self, ciphers: &G1Vector, dk: &DmcfeDecKey<L>, bound: &BigInt) -> (r: Result<
        Option<BigInt>,
        FeError,
    >)
        ensures
            match r {
                Ok(v) => {
                    &&& dmcfe_target(
                        g1_encodings(ciphers@),
                        dk.weights(),
                        dk.parts(),
                        "dmcfe-label".spec_bytes(),
                    ) == gt_identity() || inner_product_bound(bound@, L as nat) <= MAX_BOUND
                    &&& value_of(v) == dlog_spec::<Gt>(
                        dmcfe_target(
                            g1_encodings(ciphers@),
                            dk.weights(),
                            dk.parts(),
                            "dmcfe-label".spec_bytes(),
                        ),
                        pairing_base(),
                        step_count(inner_product_bound(bound@, L as nat)),
                    )
                },
                Err(e) => {
                    &&& e == FeError::BoundTooLarge
                    &&& dmcfe_target(
                        g1_encodings(ciphers@),
                        dk.weights(),
                        dk.parts(),
                        "dmcfe-label".spec_bytes(),
                    ) != gt_identity()
                    &&& inner_product_bound(bound@, L as nat) > MAX_BOUND
                },
            },
    {
        self.decrypt_with_label(ciphers, dk, bound, "dmcfe-label")
    }
}


// ---------------------------------------------------------------------------
// The share matrices of a handshake cancel
// ---------------------------------------------------------------------------
/// The share matrix of a client before the handshake.
pub open spec fn no_share() -> Seq<int> {
    seq![0int, 0int, 0int, 0int]
}

/// Every two clients derive the same matrix from the public key of the other and their own
/// secret.
pub open spec fn handshake_agrees(sks: Seq<nat>, pks: Seq<Seq<u8>>) -> bool {
    &&& sks.len() == pks.len()
    &&& forall|i: int, j: int|
        0 <= i < sks.len() && 0 <= j < sks.len() ==> #[trigger] pair_matrix(pks[j], sks[i])
            == pair_matrix(pks[i], sks[j])
}

/// The sum of the elements at the place `k` of the share matrices of the first `c` clients
/// after the handshake.
pub open spec fn shares_total(sks: Seq<nat>, pks: Seq<Seq<u8>>, c: nat, k: int) -> int
    decreases c,
{
    if c == 0 {
        0
    } else {
        shares_total(sks, pks, (c - 1) as nat, k) + share_fold(
            no_share(),
            (c - 1) as nat,
            sks[c - 1],
            pks,
            pks.len(),
        )[k]
    }
}

/// The element at the place `k` of the share matrix of a client after the first `n` public
/// keys, without the reductions: the matrices of the peers with a smaller index added, those
/// of the peers with a larger index subtracted.
spec fn signed_row(index: nat, sk: nat, pks: Seq<Seq<u8>>, n: nat, k: int) -> int
    decreases n,
{
    if n == 0 {
        0
    } else {
        let prev = signed_row(index, sk, pks, (n - 1) as nat, k);
        if n - 1 == index {
            prev
        } else if n - 1 < index {
            prev + pair_matrix(pks[n - 1], sk)[k]
        } else {
            prev - pair_matrix(pks[n - 1], sk)[k]
        }
    }
}

/// The sum of the signed rows of the first `c` clients after the first `n` public keys.
spec fn signed_total(sks: Seq<nat>, pks: Seq<Seq<u8>>, c: nat, n: nat, k: int) -> int
    decreases c,
{
    if c == 0 {
        0
    } else {
        signed_total(sks, pks, (c - 1) as nat, n, k) + signed_row(
            (c - 1) as nat,
            sks[c - 1],
            pks,
            n,
            k,
        )
    }
}

/// The sum over the first `c` clients `i` of the matrix that `i` derives for the peer `n`.
spec fn toward(sks: Seq<nat>, pks: Seq<Seq<u8>>, c: nat, n: int, k: int) -> int
    decreases c,
{
    if c == 0 {
        0
    } else {
        toward(sks, pks, (c - 1) as nat, n, k) + pair_matrix(pks[n], sks[c - 1])[k]
    }
}

proof fn lemma_share_is_signed_row(index: nat, sk: nat, pks: Seq<Seq<u8>>, n: nat, k: int)
    requires
        0 <= k < 4,
    ensures
        share_fold(no_share(), index, sk, pks, n).len() == 4,
        share_fold(no_share(), index, sk, pks, n)[k] == signed_row(index, sk, pks, n, k) % (
        curve_order_value() as int),
    decreases n,
{
    let m = curve_order_value() as int;
    if n == 0 {
        vstd::arithmetic::div_mod::lemma_small_mod(0, curve_order_value());
    } else {
        lemma_share_is_signed_row(index, sk, pks, (n - 1) as nat, k);
        let prev = signed_row(index, sk, pks, (n - 1) as nat, k);
        let add = pair_matrix(pks[n - 1], sk)[k];
        if n - 1 == index {
        } else if n - 1 < index {
            vstd::arithmetic::div_mod::lemma_add_mod_noop(prev, add, m);
            vstd::arithmetic::div_mod::lemma_mod_twice(prev, m);
            vstd::arithmetic::div_mod::lemma_add_mod_noop(prev % m, add, m);
        } else {
            vstd::arithmetic::div_mod::lemma_sub_mod_noop(prev, add, m);
            vstd::arithmetic::div_mod::lemma_mod_twice(prev, m);
            vstd::arithmetic::div_mod::lemma_sub_mod_noop(prev % m, add, m);
        }
    }
}

proof fn lemma_shares_total_is_signed(sks: Seq<nat>, pks: Seq<Seq<u8>>, c: nat, k: int)
    requires
        0 <= k < 4,
    ensures
        shares_total(sks, pks, c, k) % (curve_order_value() as int) == signed_total(
            sks,
            pks,
            c,
            pks.len(),
            k,
        ) % (curve_order_value() as int),
    decreases c,
{
    let m = curve_order_value() as int;
    if c > 0 {
        lemma_shares_total_is_signed(sks, pks, (c - 1) as nat, k);
        lemma_share_is_signed_row((c - 1) as nat, sks[c - 1], pks, pks.len(), k);
        let a = shares_total(sks, pks, (c - 1) as nat, k);
        let b = signed_total(sks, pks, (c - 1) as nat, pks.len(), k);
        let r = signed_row((c - 1) as nat, sks[c - 1], pks, pks.len(), k);
        vstd::arithmetic::div_mod::lemma_add_mod_noop(a, r % m, m);
        vstd::arithmetic::div_mod::lemma_add_mod_noop(b, r, m);
        vstd::arithmetic::div_mod::lemma_mod_twice(r, m);
    }
}

/// One more public key takes from the signed rows of the clients before it what they derive
/// for it.
proof fn lemma_signed_total_step(sks: Seq<nat>, pks: Seq<Seq<u8>>, c: nat, n: nat, k: int)
    requires
        c <= n,
    ensures
        signed_total(sks, pks, c, n + 1, k) == signed_total(sks, pks, c, n, k) - toward(
            sks,
            pks,
            c,
            n as int,
            k,
        ),
    decreases c,
{
    if c > 0 {
        lemma_signed_total_step(sks, pks, (c - 1) as nat, n, k);
    }
}

/// The signed row of the client `n` after the first `c` public keys, for `c` up to `n`, is
/// what it derives for the clients before `c`.
proof fn lemma_signed_row_before(sks: Seq<nat>, pks: Seq<Seq<u8>>, n: nat, c: nat, k: int)
    requires
        c <= n,
        n < sks.len(),
        handshake_agrees(sks, pks),
    ensures
        signed_row(n, sks[n as int], pks, c, k) == toward(sks, pks, c, n as int, k),
    decreases c,
{
    if c > 0 {
        lemma_signed_row_before(sks, pks, n, (c - 1) as nat, k);
        assert(pair_matrix(pks[c - 1], sks[n as int]) == pair_matrix(pks[n as int], sks[c - 1]));
    }
}

proof fn lemma_signed_total_is_zero(sks: Seq<nat>, pks: Seq<Seq<u8>>, n: nat, k: int)
    requires
        n <= sks.len(),
        handshake_agrees(sks, pks),
    ensures
        signed_total(sks, pks, n, n, k) == 0,
    decreases n,
{
    if n > 0 {
        let p = (n - 1) as nat;
        lemma_signed_total_is_zero(sks, pks, p, k);
        lemma_signed_total_step(sks, pks, p, p, k);
        lemma_signed_row_before(sks, pks, p, p, k);
    }
}

/// After a handshake in which every two clients derive the same matrix, the share matrices
/// of all clients sum to zero modulo the group order, at each of their four places. This
/// holds for any number of clients.
pub proof fn lemma_shares_cancel(sks: Seq<nat>, pks: Seq<Seq<u8>>, k: int)
    requires
        handshake_agrees(sks, pks),
        0 <= k < 4,
    ensures
        shares_total(sks, pks, sks.len(), k) % (curve_order_value() as int) == 0,
{
    lemma_shares_total_is_signed(sks, pks, sks.len(), k);
    lemma_signed_total_is_zero(sks, pks, sks.len(), k);
    vstd::arithmetic::div_mod::lemma_small_mod(0, curve_order_value());
}

/// Where the generator generates a group in which the library multiplies by adding
/// exponents, clients whose public keys are the generator multiplied by their secrets derive
/// the same matrix from each other's keys.
pub proof fn lemma_handshake_agrees(sks: Seq<nat>, pks: Seq<Seq<u8>>, n: nat)
    requires
        generates::<G1>(G1_GENERATOR@, n),
        sks.len() == pks.len(),
        forall|i: int|
            0 <= i < sks.len() ==> (#[trigger] sks[i]) < big_limit() && pks[i] == g1_scaled(
                G1_GENERATOR@,
                sks[i],
            ),
    ensures
        handshake_agrees(sks, pks),
{
    let g = G1_GENERATOR@;
    assert forall|i: int, j: int| 0 <= i < sks.len() && 0 <= j < sks.len() implies #[trigger] pair_matrix(
        pks[j],
        sks[i],
    ) == pair_matrix(pks[i], sks[j]) by {
        assert(law_scale::<G1>(g, 1, sks[i]));
        assert(law_scale::<G1>(g, 1, sks[j]));
        assert(law_scale::<G1>(g, sks[j], sks[i]));
        assert(law_scale::<G1>(g, sks[i], sks[j]));
        assert(1 * sks[i] == sks[i]);
        assert(1 * sks[j] == sks[j]);
        assert(sks[j] * sks[i] == sks[i] * sks[j]) by (nonlinear_arith);
        assert(g1_scaled(pks[j], sks[i]) == power::<G1>(g, sks[j] * sks[i]));
        assert(g1_scaled(pks[i], sks[j]) == power::<G1>(g, sks[i] * sks[j]));
    }
}


// ---------------------------------------------------------------------------
// Decryption recovers the inner product of the plaintexts of all clients
// ---------------------------------------------------------------------------
/// The share matrix of the client `i` after a handshake of the clients with the secrets
/// `sks` and the public keys `pks`.
pub open spec fn share_after(sks: Seq<nat>, pks: Seq<Seq<u8>>, i: int) -> Seq<int> {
    share_fold(no_share(), i as nat, sks[i], pks, pks.len())
}

/// The exponent of the ciphertext of the client `i`.
spec fn cipher_exponent(u: Seq<nat>, blindings: Seq<Seq<nat>>, xs: Seq<nat>, i: int) -> int {
    (u[0] * blindings[i][0] + u[1] * blindings[i][1] + xs[i]) as int
}

/// The sum over the first `n` clients of the exponent of the ciphertext times the scalar of
/// the key.
spec fn ciphers_exponent(
    u: Seq<nat>,
    blindings: Seq<Seq<nat>>,
    xs: Seq<nat>,
    ys: Seq<nat>,
    n: nat,
) -> int
    decreases n,
{
    if n == 0 {
        0
    } else {
        ciphers_exponent(u, blindings, xs, ys, (n - 1) as nat) + cipher_exponent(
            u,
            blindings,
            xs,
            n - 1,
        ) * ys[n - 1]
    }
}

/// The sum over the first `n` clients of the product of the scalar of the key and the
/// `p`-th blinding scalar.
spec fn blinding_sum(blindings: Seq<Seq<nat>>, ys: Seq<nat>, p: int, n: nat) -> int
    decreases n,
{
    if n == 0 {
        0
    } else {
        blinding_sum(blindings, ys, p, (n - 1) as nat) + ys[n - 1] * blindings[n - 1][p]
    }
}

/// The same with each product reduced modulo the group order.
spec fn reduced_blinding_sum(blindings: Seq<Seq<nat>>, ys: Seq<nat>, p: int, n: nat) -> int
    decreases n,
{
    if n == 0 {
        0
    } else {
        reduced_blinding_sum(blindings, ys, p, (n - 1) as nat) + (ys[n - 1] * blindings[n
            - 1][p]) % curve_order_value()
    }
}

/// The exponent of the `p`-th point of the key share of the client `i`.
spec fn share_exponent(
    v: Seq<nat>,
    sks: Seq<nat>,
    pks: Seq<Seq<u8>>,
    blindings: Seq<Seq<nat>>,
    ys: Seq<nat>,
    i: int,
    p: int,
) -> int {
    v[0] * share_after(sks, pks, i)[p * 2] + v[1] * share_after(sks, pks, i)[p * 2 + 1] + (ys[i]
        * blindings[i][p]) % curve_order_value()
}

/// The sum of the exponents of the `p`-th points of the key shares of the first `n`
/// clients.
spec fn key_exponent_sum(
    v: Seq<nat>,
    sks: Seq<nat>,
    pks: Seq<Seq<u8>>,
    blindings: Seq<Seq<nat>>,
    ys: Seq<nat>,
    p: int,
    n: nat,
) -> int
    decreases n,
{
    if n == 0 {
        0
    } else {
        key_exponent_sum(v, sks, pks, blindings, ys, p, (n - 1) as nat) + share_exponent(
            v,
            sks,
            pks,
            blindings,
            ys,
            n - 1,
            p,
        )
    }
}

proof fn lemma_ciphers_exponent_splits(
    u: Seq<nat>,
    blindings: Seq<Seq<nat>>,
    xs: Seq<nat>,
    ys: Seq<nat>,
    n: nat,
)
    ensures
        ciphers_exponent(u, blindings, xs, ys, n) == u[0] * blinding_sum(blindings, ys, 0, n)
            + u[1] * blinding_sum(blindings, ys, 1, n) + scalar_sum(xs, ys, n),
    decreases n,
{
    if n > 0 {
        lemma_ciphers_exponent_splits(u, blindings, xs, ys, (n - 1) as nat);
        let u0 = u[0] as int;
        let u1 = u[1] as int;
        let s0 = blindings[n - 1][0] as int;
        let s1 = blindings[n - 1][1] as int;
        let x = xs[n - 1] as int;
        let y = ys[n - 1] as int;
        let b0 = blinding_sum(blindings, ys, 0, (n - 1) as nat);
        let b1 = blinding_sum(blindings, ys, 1, (n - 1) as nat);
        assert(cipher_exponent(u, blindings, xs, n - 1) == u0 * s0 + u1 * s1 + x);
        assert((u0 * s0 + u1 * s1 + x) * y == u0 * (y * s0) + u1 * (y * s1) + x * y)
            by (nonlinear_arith);
        assert(u0 * (b0 + y * s0) == u0 * b0 + u0 * (y * s0)) by (nonlinear_arith);
        assert(u1 * (b1 + y * s1) == u1 * b1 + u1 * (y * s1)) by (nonlinear_arith);
        assert(blinding_sum(blindings, ys, 0, n) == b0 + y * s0);
        assert(blinding_sum(blindings, ys, 1, n) == b1 + y * s1);
        assert(scalar_sum(xs, ys, n) == scalar_sum(xs, ys, (n - 1) as nat) + x * y);
    } else {
        assert(u[0] * 0 == 0) by (nonlinear_arith);
        assert(u[1] * 0 == 0) by (nonlinear_arith);
    }
}

proof fn lemma_key_exponent_splits(
    v: Seq<nat>,
    sks: Seq<nat>,
    pks: Seq<Seq<u8>>,
    blindings: Seq<Seq<nat>>,
    ys: Seq<nat>,
    p: int,
    n: nat,
)
    ensures
        key_exponent_sum(v, sks, pks, blindings, ys, p, n) == v[0] * shares_total(
            sks,
            pks,
            n,
            p * 2,
        ) + v[1] * shares_total(sks, pks, n, p * 2 + 1) + reduced_blinding_sum(
            blindings,
            ys,
            p,
            n,
        ),
    decreases n,
{
    if n > 0 {
        lemma_key_exponent_splits(v, sks, pks, blindings, ys, p, (n - 1) as nat);
        let v0 = v[0] as int;
        let v1 = v[1] as int;
        let t0 = shares_total(sks, pks, (n - 1) as nat, p * 2);
        let t1 = shares_total(sks, pks, (n - 1) as nat, p * 2 + 1);
        let a0 = share_after(sks, pks, n - 1)[p * 2];
        let a1 = share_after(sks, pks, n - 1)[p * 2 + 1];
        assert(shares_total(sks, pks, n, p * 2) == t0 + a0);
        assert(shares_total(sks, pks, n, p * 2 + 1) == t1 + a1);
        assert(v0 * (t0 + a0) == v0 * t0 + v0 * a0) by (nonlinear_arith);
        assert(v1 * (t1 + a1) == v1 * t1 + v1 * a1) by (nonlinear_arith);
    } else {
        assert(v[0] * 0 == 0) by (nonlinear_arith);
        assert(v[1] * 0 == 0) by (nonlinear_arith);
    }
}

proof fn lemma_reduced_blinding_sum(blindings: Seq<Seq<nat>>, ys: Seq<nat>, p: int, n: nat)
    ensures
        reduced_blinding_sum(blindings, ys, p, n) % (curve_order_value() as int) == blinding_sum(
            blindings,
            ys,
            p,
            n,
        ) % (curve_order_value() as int),
    decreases n,
{
    let m = curve_order_value() as int;
    if n > 0 {
        lemma_reduced_blinding_sum(blindings, ys, p, (n - 1) as nat);
        let a = reduced_blinding_sum(blindings, ys, p, (n - 1) as nat);
        let b = blinding_sum(blindings, ys, p, (n - 1) as nat);
        let t = (ys[n - 1] * blindings[n - 1][p]) as int;
        vstd::arithmetic::div_mod::lemma_add_mod_noop(a, t % m, m);
        vstd::arithmetic::div_mod::lemma_add_mod_noop(b, t, m);
        vstd::arithmetic::div_mod::lemma_mod_twice(t, m);
    }
}

/// A product with a multiple of `m` is a multiple of `m`, and so is a sum of multiples.
proof fn lemma_multiple(c: int, z: int, m: int)
    requires
        m > 0,
        z % m == 0,
    ensures
        (c * z) % m == 0,
{
    vstd::arithmetic::div_mod::lemma_mul_mod_noop_right(c, z, m);
    assert(c * 0 == 0) by (nonlinear_arith);
    vstd::arithmetic::div_mod::lemma_small_mod(0, m as nat);
}

proof fn lemma_sum_of_multiples(a: int, b: int, m: int)
    requires
        m > 0,
        a % m == 0,
        b % m == 0,
    ensures
        (a + b) % m == 0,
        (a - b) % m == 0,
{
    vstd::arithmetic::div_mod::lemma_add_mod_noop(a, b, m);
    vstd::arithmetic::div_mod::lemma_sub_mod_noop(a, b, m);
    vstd::arithmetic::div_mod::lemma_small_mod(0, m as nat);
}

proof fn lemma_congruent_difference(a: int, b: int, m: int)
    requires
        m > 0,
        a % m == b % m,
    ensures
        (a - b) % m == 0,
{
    vstd::arithmetic::div_mod::lemma_sub_mod_noop(a, b, m);
    vstd::arithmetic::div_mod::lemma_small_mod(0, m as nat);
}

proof fn lemma_add_multiple(a: int, z: int, m: int)
    requires
        m > 0,
        z % m == 0,
    ensures
        (a + z) % m == a % m,
        (a - z) % m == a % m,
{
    vstd::arithmetic::div_mod::lemma_add_mod_noop(a, z, m);
    vstd::arithmetic::div_mod::lemma_sub_mod_noop(a, z, m);
    vstd::arithmetic::div_mod::lemma_mod_twice(a, m);
}

proof fn lemma_share_after_in_range(sks: Seq<nat>, pks: Seq<Seq<u8>>, i: nat, n: nat, q: int)
    requires
        0 <= q < 4,
    ensures
        share_fold(no_share(), i, sks[i as int], pks, n).len() == 4,
        0 <= share_fold(no_share(), i, sks[i as int], pks, n)[q] < curve_order_value(),
    decreases n,
{
    if n > 0 {
        lemma_share_after_in_range(sks, pks, i, (n - 1) as nat, q);
        let prev = share_fold(no_share(), i, sks[i as int], pks, (n - 1) as nat);
        let m = pair_matrix(pks[n - 1], sks[i as int]);
        vstd::arithmetic::div_mod::lemma_mod_bound(prev[q] + m[q], curve_order_value() as int);
        vstd::arithmetic::div_mod::lemma_mod_bound(prev[q] - m[q], curve_order_value() as int);
    }
}

proof fn lemma_ciphers_combination(
    u: Seq<nat>,
    blindings: Seq<Seq<nat>>,
    x: Seq<int>,
    ys: Seq<nat>,
    label: Seq<u8>,
    ciphers: Seq<Seq<u8>>,
    n: nat,
)
    requires
        pairing_groups(),
        u.len() == 2,
        label_point(0, label) == power::<G1>(G1_GENERATOR@, u[0]),
        label_point(1, label) == power::<G1>(G1_GENERATOR@, u[1]),
        n <= x.len(),
        x.len() == ys.len(),
        x.len() == blindings.len(),
        x.len() == ciphers.len(),
        forall|i: int| 0 <= i < x.len() ==> (#[trigger] ys[i]) < curve_order_value(),
        forall|i: int|
            0 <= i < x.len() ==> (#[trigger] blindings[i]).len() == 2 && blindings[i][0]
                < big_limit() && blindings[i][1] < big_limit(),
        forall|i: int|
            0 <= i < x.len() ==> #[trigger] ciphers[i] == client_cipher(
                blindings[i],
                scalars_of(x)[i],
                label,
            ),
    ensures
        g1_combination(ciphers, ys, n) == element::<G1>(
            G1_GENERATOR@,
            curve_order_value(),
            ciphers_exponent(u, blindings, scalars_of(x), ys, n),
        ),
    decreases n,
{
    let g = G1_GENERATOR@;
    let order = curve_order_value();
    lemma_order_below_limit();
    lemma_element_generator::<G1>(g, order);
    if n > 0 {
        let i = n - 1;
        lemma_ciphers_combination(u, blindings, x, ys, label, ciphers, (n - 1) as nat);
        let xs = scalars_of(x)[i];
        let s0 = blindings[i][0];
        let s1 = blindings[i][1];
        vstd::arithmetic::div_mod::lemma_mod_bound(x[i], order as int);
        lemma_power_is_element::<G1>(g, order, u[0]);
        lemma_power_is_element::<G1>(g, order, u[1]);
        lemma_element_pow::<G1>(g, order, u[0] as int, s0);
        lemma_element_pow::<G1>(g, order, u[1] as int, s1);
        lemma_element_pow::<G1>(g, order, 1, xs);
        lemma_element_op::<G1>(g, order, 0, (u[0] * s0) as int);
        lemma_element_op::<G1>(g, order, (u[0] * s0) as int, (u[1] * s1) as int);
        lemma_element_op::<G1>(g, order, (u[0] * s0 + u[1] * s1) as int, xs as int);
        let e = cipher_exponent(u, blindings, scalars_of(x), i);
        assert(ciphers[i] == element::<G1>(g, order, e));
        lemma_element_pow::<G1>(g, order, e, ys[i]);
        lemma_element_op::<G1>(
            g,
            order,
            ciphers_exponent(u, blindings, scalars_of(x), ys, (n - 1) as nat),
            e * ys[i],
        );
    }
}

proof fn lemma_combined_point(
    v: Seq<nat>,
    sks: Seq<nat>,
    pks: Seq<Seq<u8>>,
    blindings: Seq<Seq<nat>>,
    y: Seq<int>,
    shares: Seq<Seq<Seq<u8>>>,
    p: int,
    n: nat,
)
    requires
        pairing_groups(),
        v.len() == 2,
        vector_point(0, y) == power::<G2>(G2_GENERATOR@, v[0]),
        vector_point(1, y) == power::<G2>(G2_GENERATOR@, v[1]),
        0 <= p < 2,
        n <= y.len(),
        y.len() == sks.len(),
        y.len() == pks.len(),
        y.len() == blindings.len(),
        y.len() == shares.len(),
        forall|i: int|
            0 <= i < y.len() ==> (#[trigger] blindings[i]).len() == 2 && blindings[i][0]
                < big_limit() && blindings[i][1] < big_limit(),
        forall|i: int|
            0 <= i < y.len() ==> (#[trigger] shares[i]).len() == 2 && shares[i][0] == share_point(
                share_after(sks, pks, i),
                blindings[i],
                y,
                i,
                0,
            ) && shares[i][1] == share_point(share_after(sks, pks, i), blindings[i], y, i, 1),
    ensures
        combined_point(shares, p, n) == element::<G2>(
            G2_GENERATOR@,
            curve_order_value(),
            key_exponent_sum(v, sks, pks, blindings, scalars_of(y), p, n),
        ),
    decreases n,
{
    let g = G2_GENERATOR@;
    let order = curve_order_value();
    lemma_order_below_limit();
    lemma_element_generator::<G2>(g, order);
    if n > 0 {
        let i = n - 1;
        lemma_combined_point(v, sks, pks, blindings, y, shares, p, (n - 1) as nat);
        let sh = share_after(sks, pks, i);
        lemma_share_after_in_range(sks, pks, i as nat, pks.len(), p * 2);
        lemma_share_after_in_range(sks, pks, i as nat, pks.len(), p * 2 + 1);
        let a0 = sh[p * 2] as nat;
        let a1 = sh[p * 2 + 1] as nat;
        let ys = scalars_of(y);
        let t = (ys[i] * blindings[i][p]) % order;
        vstd::arithmetic::div_mod::lemma_mod_bound((ys[i] * blindings[i][p]) as int, order as int);
        lemma_power_is_element::<G2>(g, order, v[0]);
        lemma_power_is_element::<G2>(g, order, v[1]);
        lemma_element_pow::<G2>(g, order, v[0] as int, a0);
        lemma_element_pow::<G2>(g, order, v[1] as int, a1);
        lemma_element_pow::<G2>(g, order, 1, t);
        lemma_element_op::<G2>(g, order, 0, (v[0] * a0) as int);
        lemma_element_op::<G2>(g, order, (v[0] * a0) as int, (v[1] * a1) as int);
        lemma_element_op::<G2>(g, order, (v[0] * a0 + v[1] * a1) as int, t as int);
        let e = share_exponent(v, sks, pks, blindings, ys, i, p);
        assert(shares[i][p] == element::<G2>(g, order, e));
        lemma_element_op::<G2>(
            g,
            order,
            key_exponent_sum(v, sks, pks, blindings, ys, p, (n - 1) as nat),
            e,
        );
    }
}

/// Where the curve library computes in cyclic groups with a bilinear pairing, and the
/// points that labels and vectors are hashed to lie in them, decryption recovers the inner
/// product after a handshake in which every two clients derive the same matrix: from the
/// ciphertexts of the clients for the integers of `x` and the combination of their key
/// shares for `y`, with all numbers of a size of at most `bound`, the search of decryption
/// returns the inner product of `x` and `y`.
pub proof fn lemma_dmcfe_decrypts(
    sks: Seq<nat>,
    pks: Seq<Seq<u8>>,
    blindings: Seq<Seq<nat>>,
    x: Seq<int>,
    y: Seq<int>,
    label: Seq<u8>,
    ciphers: Seq<Seq<u8>>,
    shares: Seq<Seq<Seq<u8>>>,
    key: Seq<Seq<u8>>,
    bound: int,
)
    requires
        pairing_groups(),
        is_power::<G1>(G1_GENERATOR@, label_point(0, label)),
        is_power::<G1>(G1_GENERATOR@, label_point(1, label)),
        is_power::<G2>(G2_GENERATOR@, vector_point(0, y)),
        is_power::<G2>(G2_GENERATOR@, vector_point(1, y)),
        handshake_agrees(sks, pks),
        x.len() == y.len(),
        x.len() == sks.len(),
        x.len() == blindings.len(),
        x.len() == ciphers.len(),
        x.len() == shares.len(),
        forall|i: int|
            0 <= i < x.len() ==> (#[trigger] blindings[i]).len() == 2 && blindings[i][0]
                < big_limit() && blindings[i][1] < big_limit(),
        forall|i: int|
            0 <= i < x.len() ==> #[trigger] ciphers[i] == client_cipher(
                blindings[i],
                scalars_of(x)[i],
                label,
            ),
        forall|i: int|
            0 <= i < x.len() ==> (#[trigger] shares[i]).len() == 2 && shares[i][0] == share_point(
                share_after(sks, pks, i),
                blindings[i],
                y,
                i,
                0,
            ) && shares[i][1] == share_point(share_after(sks, pks, i), blindings[i], y, i, 1),
        key.len() == 2,
        key[0] == combined_point(shares, 0, x.len()),
        key[1] == combined_point(shares, 1, x.len()),
        forall|i: int| 0 <= i < x.len() ==> -bound <= #[trigger] x[i] <= bound,
        forall|i: int| 0 <= i < x.len() ==> -bound <= #[trigger] y[i] <= bound,
        inner_product_bound(bound, x.len()) <= MAX_BOUND,
    ensures
        dlog_spec::<Gt>(
            dmcfe_target(ciphers, scalars_of(y), key, label),
            pairing_base(),
            step_count(inner_product_bound(bound, x.len())),
        ) == Some(inner_product(x, y, x.len())),
{
    let n = x.len();
    let g1 = G1_GENERATOR@;
    let g2 = G2_GENERATOR@;
    let gt = pairing_base();
    let order = curve_order_value();
    let m = order as int;
    let xs = scalars_of(x);
    let ys = scalars_of(y);
    lemma_order_below_limit();
    let u0 = choose|u: nat| label_point(0, label) == #[trigger] power::<G1>(g1, u);
    let u1 = choose|u: nat| label_point(1, label) == #[trigger] power::<G1>(g1, u);
    let v0 = choose|v: nat| vector_point(0, y) == #[trigger] power::<G2>(g2, v);
    let v1 = choose|v: nat| vector_point(1, y) == #[trigger] power::<G2>(g2, v);
    let u = seq![u0, u1];
    let v = seq![v0, v1];
    assert forall|i: int| 0 <= i < n implies (#[trigger] ys[i]) < order by {
        vstd::arithmetic::div_mod::lemma_mod_bound(y[i], m);
    }
    // the pairing of the generator with the combination of the ciphertexts
    lemma_ciphers_combination(u, blindings, x, ys, label, ciphers, n);
    let a = ciphers_exponent(u, blindings, xs, ys, n);
    lemma_element_generator::<G2>(g2, order);
    lemma_element_pairing(1, a);
    let s = element::<Gt>(gt, order, a * 1);
    // the pairings of the points of the key with the points of the label
    lemma_combined_point(v, sks, pks, blindings, y, shares, 0, n);
    lemma_combined_point(v, sks, pks, blindings, y, shares, 1, n);
    let k0 = key_exponent_sum(v, sks, pks, blindings, ys, 0, n);
    let k1 = key_exponent_sum(v, sks, pks, blindings, ys, 1, n);
    lemma_power_is_element::<G1>(g1, order, u0);
    lemma_power_is_element::<G1>(g1, order, u1);
    lemma_element_pairing(k0, u0 as int);
    lemma_element_pairing(k1, u1 as int);
    lemma_element_generator::<Gt>(gt, order);
    lemma_element_op::<Gt>(gt, order, 0, u0 * k0);
    lemma_element_op::<Gt>(gt, order, u0 * k0, u1 * k1);
    lemma_element_inv::<Gt>(gt, order, u0 * k0 + u1 * k1);
    lemma_element_op::<Gt>(gt, order, a * 1, -(u0 * k0 + u1 * k1));
    let e = a * 1 - (u0 * k0 + u1 * k1);
    assert(dmcfe_target(ciphers, ys, key, label) == element::<Gt>(gt, order, e));
    // the exponent is the inner product, modulo the group order
    lemma_ciphers_exponent_splits(u, blindings, xs, ys, n);
    lemma_key_exponent_splits(v, sks, pks, blindings, ys, 0, n);
    lemma_key_exponent_splits(v, sks, pks, blindings, ys, 1, n);
    lemma_reduced_blinding_sum(blindings, ys, 0, n);
    lemma_reduced_blinding_sum(blindings, ys, 1, n);
    lemma_shares_cancel(sks, pks, 0);
    lemma_shares_cancel(sks, pks, 1);
    lemma_shares_cancel(sks, pks, 2);
    lemma_shares_cancel(sks, pks, 3);
    let xy = scalar_sum(xs, ys, n);
    let b0 = blinding_sum(blindings, ys, 0, n);
    let b1 = blinding_sum(blindings, ys, 1, n);
    let r0 = reduced_blinding_sum(blindings, ys, 0, n);
    let r1 = reduced_blinding_sum(blindings, ys, 1, n);
    let t0 = shares_total(sks, pks, n, 0);
    let t1 = shares_total(sks, pks, n, 1);
    let t2 = shares_total(sks, pks, n, 2);
    let t3 = shares_total(sks, pks, n, 3);
    // what is left of the blinding scalars
    lemma_congruent_difference(b0, r0, m);
    lemma_congruent_difference(b1, r1, m);
    lemma_multiple(u0 as int, b0 - r0, m);
    lemma_multiple(u1 as int, b1 - r1, m);
    // what is left of the share matrices
    lemma_multiple(v0 as int, t0, m);
    lemma_multiple(v1 as int, t1, m);
    lemma_multiple(v0 as int, t2, m);
    lemma_multiple(v1 as int, t3, m);
    lemma_sum_of_multiples(v0 * t0, v1 * t1, m);
    lemma_sum_of_multiples(v0 * t2, v1 * t3, m);
    lemma_multiple(u0 as int, v0 * t0 + v1 * t1, m);
    lemma_multiple(u1 as int, v0 * t2 + v1 * t3, m);
    let z0 = u0 * (b0 - r0);
    let z1 = u1 * (b1 - r1);
    let z2 = u0 * (v0 * t0 + v1 * t1);
    let z3 = u1 * (v0 * t2 + v1 * t3);
    assert(e == xy + z0 + z1 - z2 - z3) by (nonlinear_arith)
        requires
            e == a * 1 - (u0 * k0 + u1 * k1),
            a == u0 * b0 + u1 * b1 + xy,
            k0 == v0 * t0 + v1 * t1 + r0,
            k1 == v0 * t2 + v1 * t3 + r1,
            z0 == u0 * (b0 - r0),
            z1 == u1 * (b1 - r1),
            z2 == u0 * (v0 * t0 + v1 * t1),
            z3 == u1 * (v0 * t2 + v1 * t3),
    ;
    lemma_add_multiple(xy, z0, m);
    lemma_add_multiple(xy + z0, z1, m);
    lemma_add_multiple(xy + z0 + z1, z2, m);
    lemma_add_multiple(xy + z0 + z1 - z2, z3, m);
    let ip = inner_product(x, y, n);
    lemma_scalar_sum_is_inner_product(x, y, n);
    lemma_element_same::<Gt>(gt, order, e, ip);
    // and the search finds it
    lemma_inner_product_size(x, y, bound, n);
    let b = inner_product_bound(bound, n);
    assert(bound * bound >= 0) by (nonlinear_arith);
    assert(bound * bound * n >= 0) by (nonlinear_arith)
        requires
            bound * bound >= 0,
    ;
    lemma_order_is_large(b);
    lemma_search_finds::<Gt>(gt, order, ip, b);
}

} // verus!
