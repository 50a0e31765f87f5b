use crate::define::big_minus;
use crate::define::big_plus;
use crate::define::BigInt;
use crate::define::BigNum;
use crate::group::sha256;
use crate::group::sha256_value;
use miracl_core::rand::RAND;
use num_bigint::RandBigInt;
use rand::RngCore;
use rand::SeedableRng;
use vstd::prelude::*;

verus! {

/// A source of random numbers of type `T`.
pub trait Sample<T> {
    /// The integer that a number stands for.
    spec fn value(x: &T) -> int;

    /// A number that is at least zero and below `modulus`.
    fn sample(&mut self, modulus: &T) -> (r: T)
        requires
            Self::value(modulus) > 0,
        ensures
            0 <= Self::value(&r) < Self::value(modulus),
    ;

    /// A number that is at least `low` and below `high`.
    fn sample_range(&mut self, low: &T, high: &T) -> (r: T)
        requires
            Self::value(low) < Self::value(high),
        ensures
            Self::value(low) <= Self::value(&r) < Self::value(high),
    ;

    /// `len` numbers, each at least zero and below `modulus`.
    fn sample_vec(&mut self, len: usize, modulus: &T) -> (r: Vec<T>)
        requires
            Self::value(modulus) > 0,
        ensures
            r@.len() == len,
            forall|i: int|
                0 <= i < len ==> 0 <= #[trigger] Self::value(&r@[i]) < Self::value(modulus),
    ;

    /// `len` numbers, each at least `low` and below `high`.
    fn sample_range_vec(&mut self, len: usize, low: &T, high: &T) -> (r: Vec<T>)
        requires
            Self::value(low) < Self::value(high),
        ensures
            r@.len() == len,
            forall|i: int|
                0 <= i < len ==> Self::value(low) <= #[trigger] Self::value(&r@[i]) < Self::value(
                    high,
                ),
    ;
}

/// The scalar that the generator of the curve library, started from `seed`, gives first for
/// the modulus `q`.
pub uninterp spec fn seeded_scalar(seed: Seq<u8>, q: nat) -> nat;

/// The integer that the standard generator, started from `seed`, gives first for the range
/// from `low` to `high`.
pub uninterp spec fn seeded_integer(seed: Seq<u8>, low: int, high: int) -> int;

/// The state of a source after a draw: the digest of the state before it and a zero byte.
pub open spec fn next_state(state: Seq<u8>) -> Seq<u8> {
    sha256_value(state.push(0u8))
}

/// The seed that a source in the state `state` starts the generator of a draw from: the
/// digest of the state and a one byte.
pub open spec fn draw_seed(state: Seq<u8>) -> Seq<u8> {
    sha256_value(state.push(1u8))
}

/// The state of a source after `n` draws from the state `state`.
pub open spec fn advanced(state: Seq<u8>, n: nat) -> Seq<u8>
    decreases n,
{
    if n == 0 {
        state
    } else {
        next_state(advanced(state, (n - 1) as nat))
    }
}

/// Draws after draws add up: the state after `a` and then `b` draws is the state after
/// `a + b` draws.
pub proof fn lemma_advanced_adds(state: Seq<u8>, a: nat, b: nat)
    ensures
        advanced(advanced(state, a), b) == advanced(state, a + b),
    decreases b,
{
    if b > 0 {
        lemma_advanced_adds(state, a, (b - 1) as nat);
    }
}

/// `ThreadRng::fill_bytes`: thirty-two bytes from the entropy of the system. Nothing is
/// known of them.
#[verifier::external_body]
fn entropy_seed() -> (r: [u8; 32]) {
    let mut seed = [0u8; 32];
    rand::thread_rng().fill_bytes(&mut seed);
    seed
}

/// `StdRng::from_entropy` and `fill_bytes`: thirty-two bytes of a generator started from the
/// entropy of the system. Nothing is known of them.
#[verifier::external_body]
fn std_rng_entropy() -> (r: [u8; 32]) {
    let mut seed = [0u8; 32];
    rand::rngs::StdRng::from_entropy().fill_bytes(&mut seed);
    seed
}

/// `RAND_impl::new`, `clean` and `seed`, then `BIG::randomnum`: the scalar below `q` that the
/// generator of the curve library gives first when it is started from `seed`.
#[verifier::external_body]
fn big_randomnum(q: &BigNum, seed: &[u8; 32]) -> (r: BigNum)
    requires
        q@ > 0,
    ensures
        r@ == seeded_scalar(seed@, q@),
        r@ < q@,
{
    let mut rng = miracl_core::rand::RAND_impl::new();
    rng.clean();
    rng.seed(seed.len(), seed);
    let x = miracl_core::bls12381::big::BIG::randomnum(&miracl_core::bls12381::big::BIG::frombytes(&q.bytes), &mut rng);
    let mut out = [0u8; 48];
    x.tobytes(&mut out);
    BigNum { bytes: out }
}

/// `StdRng::from_seed`, then `RandBigInt::gen_bigint_range`: the integer that is at least
/// `low` and below `high` that the standard generator gives first when it is started from
/// `seed`. It panics where `low` is not below `high`.
#[verifier::external_body]
fn int_random_range(seed: &[u8; 32], low: &BigInt, high: &BigInt) -> (r: BigInt)
    requires
        low@ < high@,
    ensures
        r@ == seeded_integer(seed@, low@, high@),
        low@ <= r@ < high@,
{
    let l = num_bigint::BigInt::from_signed_bytes_be(&low.bytes);
    let h = num_bigint::BigInt::from_signed_bytes_be(&high.bytes);
    let mut rng = rand::rngs::StdRng::from_seed(*seed);
    BigInt { bytes: rng.gen_bigint_range(&l, &h).to_signed_bytes_be() }
}

/// The bytes of `state` followed by `tag`.
fn tagged(state: &[u8; 32], tag: u8) -> (r: Vec<u8>)
    ensures
        r@ == state@.push(tag),
{
    let mut out: Vec<u8> = Vec::new();
    let mut i: usize = 0;
    while i < 32
        invariant
            i <= 32,
            out@ == state@.take(i as int),
        decreases 32 - i,
    {
        out.push(state[i]);
        assert(state@.take(i as int).push(state@[i as int]) =~= state@.take(i + 1));
        i = i + 1;
    }
    assert(state@.take(32) =~= state@);
    out.push(tag);
    out
}

/// The seed of the draw that a source in the state `state` makes next.
fn seed_of_draw(state: &[u8; 32]) -> (r: [u8; 32])
    ensures
        r@ == draw_seed(state@),
{
    sha256(tagged(state, 1).as_slice())
}

/// The state that follows `state`.
fn state_after(state: &[u8; 32]) -> (r: [u8; 32])
    ensures
        r@ == next_state(state@),
{
    sha256(tagged(state, 0).as_slice())
}

/// A source of random scalars, built on the generator of the curve library. The source is
/// plain data: a state of thirty-two bytes. Each draw starts the generator from a digest of
/// the state and replaces the state by another digest of it, so that the numbers of a source
/// are a function of the state it was started in.
pub struct RandUtilsRAND {
    state: [u8; 32],
}

impl View for RandUtilsRAND {
    type V = Seq<u8>;

    /// The state of the source.
    closed spec fn view(&self) -> Seq<u8> {
        self.state@
    }
}

impl RandUtilsRAND {
    /// A source started from the entropy of the system.
    pub fn new() -> (r: Self) {
        RandUtilsRAND { state: entropy_seed() }
    }

    /// A source started from `seed`: the same seed gives the same numbers.
    pub fn get_seeded_rng(seed: &[u8; 32]) -> (r: Self)
        ensures
            r@ == seed@,
    {
        RandUtilsRAND { state: *seed }
    }
}

impl Sample<BigNum> for RandUtilsRAND {
    open spec fn value(x: &BigNum) -> int {
        x@ as int
    }

    /// The scalar that the generator gives for `modulus` from the seed of this draw; the
    /// source moves on to its next state.
    fn sample(&mut self, modulus: &BigNum) -> (r: BigNum)
        ensures
            r@ == seeded_scalar(draw_seed(old(self)@), modulus@),
            final(self)@ == next_state(old(self)@),
    {
        let seed = seed_of_draw(&self.state);
        self.state = state_after(&self.state);
        big_randomnum(modulus, &seed)
    }

    /// `low` plus the scalar that the generator gives for the width of the range from the
    /// seed of this draw; the source moves on to its next state.
    fn sample_range(&mut self, low: &BigNum, high: &BigNum) -> (r: BigNum)
        ensures
            r@ == low@ + seeded_scalar(draw_seed(old(self)@), (high@ - low@) as nat),
            final(self)@ == next_state(old(self)@),
    {
        let width = big_minus(high, low);
        let seed = seed_of_draw(&self.state);
        self.state = state_after(&self.state);
        let s = big_randomnum(&width, &seed);
        proof {
            high.lemma_bounded();
        }
        big_plus(&s, low)
    }

    /// The scalars of `len` draws, one after the other; the source moves on by `len` states.
    fn sample_vec(&mut self, len: usize, modulus: &BigNum) -> (r: Vec<BigNum>)
        ensures
            forall|i: int|
                0 <= i < len ==> (#[trigger] r@[i])@ == seeded_scalar(
                    draw_seed(advanced(old(self)@, i as nat)),
                    modulus@,
                ),
            final(self)@ == advanced(old(self)@, len as nat),
    {
        let mut v: Vec<BigNum> = Vec::new();
        let mut i: usize = 0;
        assert(Self::value(modulus) == modulus@);
        while i < len
            invariant
                i <= len,
                v@.len() == i,
                modulus@ > 0,
                self@ == advanced(old(self)@, i as nat),
                forall|k: int| 0 <= k < i ==> (#[trigger] v@[k])@ < modulus@,
                forall|k: int|
                    0 <= k < i ==> (#[trigger] v@[k])@ == seeded_scalar(
                        draw_seed(advanced(old(self)@, k as nat)),
                        modulus@,
                    ),
            decreases len - i,
        {
            let seed = seed_of_draw(&self.state);
            self.state = state_after(&self.state);
            let s = big_randomnum(modulus, &seed);
            v.push(s);
            i = i + 1;
        }
        assert forall|k: int| 0 <= k < len implies 0 <= #[trigger] Self::value(&v@[k])
            < Self::value(modulus) by {
            assert(v@[k]@ < modulus@);
        }
        v
    }

    /// `low` plus the scalars of `len` draws for the width of the range, one after the
    /// other; the source moves on by `len` states.
    fn sample_range_vec(&mut self, len: usize, low: &BigNum, high: &BigNum) -> (r: Vec<BigNum>)
        ensures
            forall|i: int|
                0 <= i < len ==> (#[trigger] r@[i])@ == low@ + seeded_scalar(
                    draw_seed(advanced(old(self)@, i as nat)),
                    (high@ - low@) as nat,
                ),
            final(self)@ == advanced(old(self)@, len as nat),
    {
        assert(Self::value(low) == low@ && Self::value(high) == high@);
        let width = big_minus(high, low);
        let mut v: Vec<BigNum> = Vec::new();
        let mut i: usize = 0;
        while i < len
            invariant
                i <= len,
                v@.len() == i,
                low@ < high@,
                width@ == high@ - low@,
                self@ == advanced(old(self)@, i as nat),
                forall|k: int| 0 <= k < i ==> low@ <= (#[trigger] v@[k])@ < high@,
                forall|k: int|
                    0 <= k < i ==> (#[trigger] v@[k])@ == low@ + seeded_scalar(
                        draw_seed(advanced(old(self)@, k as nat)),
                        (high@ - low@) as nat,
                    ),
            decreases len - i,
        {
            let seed = seed_of_draw(&self.state);
            self.state = state_after(&self.state);
            let s = big_randomnum(&width, &seed);
            proof {
                high.lemma_bounded();
            }
            v.push(big_plus(&s, low));
            i = i + 1;
        }
        assert forall|k: int| 0 <= k < len implies Self::value(low) <= #[trigger] Self::value(
            &v@[k],
        ) < Self::value(high) by {
            assert(low@ <= v@[k]@ < high@);
        }
        v
    }
}

/// A source of random integers of any size, built on the standard generator. Like
/// `RandUtilsRAND` it is plain data: a state of thirty-two bytes, from which each draw
/// starts the generator anew.
pub struct RandUtilsRng {
    state: [u8; 32],
}

impl View for RandUtilsRng {
    type V = Seq<u8>;

    /// The state of the source.
    closed spec fn view(&self) -> Seq<u8> {
        self.state@
    }
}

impl RandUtilsRng {
    /// A source started from the entropy of the system.
    pub fn new() -> (r: Self) {
        RandUtilsRng { state: std_rng_entropy() }
    }

    /// A source started from `seed`: the same seed gives the same numbers.
    pub fn get_seeded_rng(seed: &[u8; 32]) -> (r: Self)
        ensures
            r@ == seed@,
    {
        RandUtilsRng { state: *seed }
    }
}

impl Sample<BigInt> for RandUtilsRng {
    open spec fn value(x: &BigInt) -> int {
        x@
    }

    /// The integer that the generator gives for the range from zero to `modulus` from the
    /// seed of this draw; the source moves on to its next state.
    fn sample(&mut self, modulus: &BigInt) -> (r: BigInt)
        ensures
            r@ == seeded_integer(draw_seed(old(self)@), 0, modulus@),
            final(self)@ == next_state(old(self)@),
    {
        let zero = BigInt::from_i64(0);
        let seed = seed_of_draw(&self.state);
        self.state = state_after(&self.state);
        int_random_range(&seed, &zero, modulus)
    }

    /// The integer that the generator gives for the range from `low` to `high` from the seed
    /// of this draw; the source moves on to its next state.
    fn sample_range(&mut self, low: &BigInt, high: &BigInt) -> (r: BigInt)
        ensures
            r@ == seeded_integer(draw_seed(old(self)@), low@, high@),
            final(self)@ == next_state(old(self)@),
    {
        let seed = seed_of_draw(&self.state);
        self.state = state_after(&self.state);
        int_random_range(&seed, low, high)
    }

    /// The integers of `len` draws, one after the other; the source moves on by `len`
    /// states.
    fn sample_vec(&mut self, len: usize, modulus: &BigInt) -> (r: Vec<BigInt>)
        ensures
            forall|i: int|
                0 <= i < len ==> (#[trigger] r@[i])@ == seeded_integer(
                    draw_seed(advanced(old(self)@, i as nat)),
                    0,
                    modulus@,
                ),
            final(self)@ == advanced(old(self)@, len as nat),
    {
        assert(Self::value(modulus) == modulus@);
        let zero = BigInt::from_i64(0);
        let mut v: Vec<BigInt> = Vec::new();
        let mut i: usize = 0;
        while i < len
            invariant
                i <= len,
                v@.len() == i,
                zero@ == 0,
                modulus@ > 0,
                self@ == advanced(old(self)@, i as nat),
                forall|k: int| 0 <= k < i ==> 0 <= (#[trigger] v@[k])@ < modulus@,
                forall|k: int|
                    0 <= k < i ==> (#[trigger] v@[k])@ == seeded_integer(
                        draw_seed(advanced(old(self)@, k as nat)),
                        0,
                        modulus@,
                    ),
            decreases len - i,
        {
            let seed = seed_of_draw(&self.state);
            self.state = state_after(&self.state);
            let s = int_random_range(&seed, &zero, modulus);
            v.push(s);
            i = i + 1;
        }
        assert forall|k: int| 0 <= k < len implies 0 <= #[trigger] Self::value(&v@[k])
            < Self::value(modulus) by {
            assert(0 <= v@[k]@ < modulus@);
        }
        v
    }

    /// The integers of `len` draws for the range from `low` to `high`, one after the other;
    /// the source moves on by `len` states.
    fn sample_range_vec(&mut self, len: usize, low: &BigInt, high: &BigInt) -> (r: Vec<BigInt>)
        ensures
            forall|i: int|
                0 <= i < len ==> (#[trigger] r@[i])@ == seeded_integer(
                    draw_seed(advanced(old(self)@, i as nat)),
                    low@,
                    high@,
                ),
            final(self)@ == advanced(old(self)@, len as nat),
    {
        assert(Self::value(low) == low@ && Self::value(high) == high@);
        let mut v: Vec<BigInt> = Vec::new();
        let mut i: usize = 0;
        while i < len
            invariant
                i <= len,
                v@.len() == i,
                low@ < high@,
                self@ == advanced(old(self)@, i as nat),
                forall|k: int| 0 <= k < i ==> low@ <= (#[trigger] v@[k])@ < high@,
                forall|k: int|
                    0 <= k < i ==> (#[trigger] v@[k])@ == seeded_integer(
                        draw_seed(advanced(old(self)@, k as nat)),
                        low@,
                        high@,
                    ),
            decreases len - i,
        {
            let seed = seed_of_draw(&self.state);
            self.state = state_after(&self.state);
            let s = int_random_range(&seed, low, high);
            v.push(s);
            i = i + 1;
        }
        assert forall|k: int| 0 <= k < len implies Self::value(low) <= #[trigger] Self::value(
            &v@[k],
        ) < Self::value(high) by {
            assert(low@ <= v@[k]@ < high@);
        }
        v
    }
}

} // verus!
