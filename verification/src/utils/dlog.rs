use crate::define::big_limit;
use crate::define::big_to_bigint;
use crate::define::int_comp;
use crate::define::int_from_i64;
use crate::define::int_mul;
use crate::define::int_sqrt;
use crate::define::int_to_u64;
use crate::define::BigInt;
use crate::define::BigNum;
use crate::error::FeError;
use crate::group::tag_of;
use crate::group::Group;
use std::collections::HashMap;
use vstd::arithmetic::div_mod::lemma_add_mod_noop;
use vstd::arithmetic::div_mod::lemma_mod_add_multiples_vanish;
use vstd::arithmetic::div_mod::lemma_mod_multiples_vanish;
use vstd::arithmetic::div_mod::lemma_mod_twice;
use vstd::arithmetic::div_mod::lemma_small_mod;
use vstd::arithmetic::power::pow;
use vstd::prelude::*;

verus! {

/// The largest bound that a search accepts. The table of a search holds about the square
/// root of the bound in elements.
pub const MAX_BOUND: u64 = 0x100_0000_0000;

/// `r` is the least number whose square is at least `b`.
pub open spec fn is_ceil_sqrt(b: nat, r: nat) -> bool {
    r * r >= b && (r == 0 || (r - 1) * (r - 1) < b)
}

/// The least number whose square is at least `b`.
pub open spec fn ceil_sqrt(b: nat) -> nat {
    choose|r: nat| is_ceil_sqrt(b, r)
}

/// The number of baby steps, and of giant steps, of a search with the bound `b`.
pub open spec fn step_count(b: nat) -> nat {
    ceil_sqrt(b) + 1
}

/// The element `g` composed `n` times with itself.
pub open spec fn power<G: Group>(g: Seq<u8>, n: nat) -> Seq<u8>
    decreases n,
{
    if n == 0 {
        G::unit_enc()
    } else {
        G::op_enc(power::<G>(g, (n - 1) as nat), g)
    }
}

/// The least `i` below `m` for which `g` composed `i` times is `x`, if there is one.
pub open spec fn baby_index<G: Group>(g: Seq<u8>, m: nat, x: Seq<u8>) -> Option<nat>
    decreases m,
{
    if m == 0 {
        None
    } else {
        match baby_index::<G>(g, (m - 1) as nat, x) {
            Some(i) => Some(i),
            None => if power::<G>(g, (m - 1) as nat) == x {
                Some((m - 1) as nat)
            } else {
                None
            },
        }
    }
}

/// What the giant steps from the `j`-th on find: at each step `x` and then `xn` is looked up
/// among the baby steps; a hit for `x` gives the exponent, a hit for `xn` its negative; after
/// a miss both are composed with `z`.
pub open spec fn search_from<G: Group>(
    g: Seq<u8>,
    x: Seq<u8>,
    xn: Seq<u8>,
    z: Seq<u8>,
    m: nat,
    j: nat,
) -> Option<int>
    decreases m - j,
{
    if j >= m {
        None
    } else {
        match baby_index::<G>(g, m, x) {
            Some(i) => Some((i + j * m) as int),
            None => match baby_index::<G>(g, m, xn) {
                Some(i) => Some(-(i + j * m)),
                None => search_from::<G>(g, G::op_enc(x, z), G::op_enc(xn, z), z, m, j + 1),
            },
        }
    }
}

/// What a search with `m` steps returns for the target `h` and the generator `g`.
pub open spec fn dlog_spec<G: Group>(h: Seq<u8>, g: Seq<u8>, m: nat) -> Option<int> {
    if h == G::unit_enc() {
        Some(0)
    } else {
        search_from::<G>(g, h, G::inv_enc(h), G::pow_enc(G::inv_enc(g), m), m, 0)
    }
}

/// The value of an optional integer.
pub open spec fn value_of(r: Option<BigInt>) -> Option<int> {
    match r {
        Some(v) => Some(v@),
        None => None,
    }
}

pub proof fn lemma_ceil_sqrt_unique(b: nat, r1: nat, r2: nat)
    requires
        is_ceil_sqrt(b, r1),
        is_ceil_sqrt(b, r2),
    ensures
        r1 == r2,
{
    if r1 < r2 {
        assert(r1 * r1 <= (r2 - 1) * (r2 - 1)) by (nonlinear_arith)
            requires
                0 <= r1 <= r2 - 1,
        ;
    } else if r2 < r1 {
        assert(r2 * r2 <= (r1 - 1) * (r1 - 1)) by (nonlinear_arith)
            requires
                0 <= r2 <= r1 - 1,
        ;
    }
}

/// `baby_index` gives `i` exactly where `i` is the first place of `x` among the first `m`
/// powers.
pub proof fn lemma_baby_index_first<G: Group>(g: Seq<u8>, m: nat, x: Seq<u8>, i: nat)
    requires
        i < m,
        power::<G>(g, i) == x,
        forall|k: nat| k < i ==> power::<G>(g, k) != x,
    ensures
        baby_index::<G>(g, m, x) == Some(i),
    decreases m,
{
    if m - 1 > i {
        lemma_baby_index_first::<G>(g, (m - 1) as nat, x, i);
    } else {
        lemma_baby_index_absent::<G>(g, i, x);
    }
}

/// `baby_index` gives nothing where `x` is not among the first `m` powers.
pub proof fn lemma_baby_index_absent<G: Group>(g: Seq<u8>, m: nat, x: Seq<u8>)
    requires
        forall|k: nat| k < m ==> power::<G>(g, k) != x,
    ensures
        baby_index::<G>(g, m, x) == None::<nat>,
    decreases m,
{
    if m > 0 {
        lemma_baby_index_absent::<G>(g, (m - 1) as nat, x);
    }
}

/// The number of steps for `bound`, or `None` where `bound` is above the ceiling.
pub fn steps_for(bound: &BigNum) -> (r: Option<u64>)
    ensures
        match r {
            Some(m) => bound@ <= MAX_BOUND && m == step_count(bound@) && 1 <= m <= 0x10_0001,
            None => bound@ > MAX_BOUND,
        },
{
    let b = big_to_bigint(bound);
    if int_comp(&b, &int_from_i64(0x100_0000_0000)) > 0 {
        return None;
    }
    let root = int_sqrt(&b);
    proof {
        assert(root@ <= 0x10_0000) by (nonlinear_arith)
            requires
                root@ >= 0,
                root@ * root@ <= 0x100_0000_0000,
        ;
    }
    let s: u64 = match int_to_u64(&root) {
        Some(s) => s,
        None => {
            return None;
        },
    };
    let exact = int_comp(&int_mul(&root, &root), &b) == 0;
    let c: u64 = if exact {
        s
    } else {
        s + 1
    };
    proof {
        let bn = bound@;
        let cn = c as nat;
        let rt = root@;
        assert(rt == s);
        if exact {
            assert(rt * rt == bn);
            if rt > 0 {
                assert((rt - 1) * (rt - 1) < rt * rt) by (nonlinear_arith)
                    requires
                        rt >= 1,
                ;
            }
            assert(cn * cn >= bn);
        } else {
            assert(rt * rt < bn);
            assert(rt < 0x10_0000) by (nonlinear_arith)
                requires
                    rt >= 0,
                    rt * rt < 0x100_0000_0000,
            ;
            assert(cn == rt + 1);
            assert((cn - 1) * (cn - 1) == rt * rt);
            assert(cn * cn == (rt + 1) * (rt + 1));
        }
        assert(is_ceil_sqrt(bn, cn));
        lemma_ceil_sqrt_unique(bn, cn, ceil_sqrt(bn));
    }
    Some(c + 1)
}

/// Every index in `bucket` is a place in `encs` of an encoding with the tag `k`.
pub open spec fn bucket_ok(encs: Seq<Seq<u8>>, k: u64, bucket: Seq<usize>) -> bool {
    forall|p: int|
        0 <= p < bucket.len() ==> (#[trigger] bucket[p]) < encs.len() && tag_of(
            encs[bucket[p] as int],
        ) == k
}

/// The place `i` is in the bucket of the tag of its encoding.
pub open spec fn listed(encs: Seq<Seq<u8>>, index: Map<u64, Vec<usize>>, i: int) -> bool {
    index.contains_key(tag_of(encs[i])) && index[tag_of(encs[i])]@.contains(i as usize)
}

/// The baby steps of a search: the elements in the order in which they were added, and for
/// each tag the places of the elements that have it.
pub struct BabySteps<G: Group> {
    elems: Vec<G>,
    index: HashMap<u64, Vec<usize>>,
}

impl<G: Group> BabySteps<G> {
    /// The encodings of the elements, in the order in which they were added.
    pub closed spec fn encs(&self) -> Seq<Seq<u8>> {
        Seq::new(self.elems@.len(), |i: int| self.elems@[i].enc())
    }

    /// Every bucket holds places of elements with its tag, and every place is in its bucket.
    pub closed spec fn wf(&self) -> bool {
        &&& forall|k: u64| #[trigger]
            self.index@.contains_key(k) ==> bucket_ok(self.encs(), k, self.index@[k]@)
        &&& forall|i: int| 0 <= i < self.encs().len() ==> #[trigger] listed(self.encs(), self.index@, i)
    }

    /// No baby steps.
    pub fn new() -> (r: Self)
        ensures
            r.wf(),
            r.encs() == Seq::<Seq<u8>>::empty(),
    {
        let r = BabySteps { elems: Vec::new(), index: HashMap::new() };
        assert(r.encs() =~= Seq::<Seq<u8>>::empty());
        r
    }

    /// Adds `x` after the baby steps that are there.
    pub fn push(&mut self, x: G)
        requires
            old(self).wf(),
            old(self).encs().len() < usize::MAX,
        ensures
            final(self).wf(),
            final(self).encs() == old(self).encs().push(x.enc()),
    {
        let k = x.tag();
        let i: usize = self.elems.len();
        let ghost encs0 = self.encs();
        let ghost index0 = self.index@;
        let mut bucket: Vec<usize> = match self.index.remove(&k) {
            Some(b) => b,
            None => Vec::new(),
        };
        let ghost bucket0 = bucket@;
        bucket.push(i);
        let ghost bucket1 = bucket@;
        self.index.insert(k, bucket);
        self.elems.push(x);
        proof {
            let encs1 = self.encs();
            assert(encs1 =~= encs0.push(x.enc()));
            assert(index0.contains_key(k) ==> bucket0 == index0[k]@);
            assert(!index0.contains_key(k) ==> bucket0 == Seq::<usize>::empty());
            assert(bucket_ok(encs0, k, bucket0));
            assert(self.index@ =~= index0.remove(k).insert(k, bucket));
            assert forall|kk: u64| #[trigger] self.index@.contains_key(kk) implies bucket_ok(
                encs1,
                kk,
                self.index@[kk]@,
            ) by {
                if kk == k {
                    assert forall|p: int| 0 <= p < bucket1.len() implies (#[trigger] bucket1[p])
                        < encs1.len() && tag_of(encs1[bucket1[p] as int]) == k by {
                        if p < bucket0.len() {
                            assert(bucket1[p] == bucket0[p]);
                        }
                    }
                } else {
                    assert(index0.contains_key(kk));
                    assert(bucket_ok(encs0, kk, index0[kk]@));
                }
            }
            assert forall|q: int| 0 <= q < encs1.len() implies #[trigger] listed(
                encs1,
                self.index@,
                q,
            ) by {
                if q < encs0.len() {
                    assert(listed(encs0, index0, q));
                    if tag_of(encs0[q]) == k {
                        let p = choose|p: int| 0 <= p < bucket0.len() && bucket0[p] == q as usize;
                        assert(bucket1[p] == q as usize);
                    }
                } else {
                    assert(bucket1[bucket1.len() - 1] == i);
                }
            }
        }
    }

    /// The first place of `x` among the baby steps, if it is there.
    pub fn find(&self, x: &G) -> (r: Option<usize>)
        requires
            self.wf(),
        ensures
            match r {
                Some(i) => {
                    &&& i < self.encs().len()
                    &&& self.encs()[i as int] == x.enc()
                    &&& forall|k: int| 0 <= k < i ==> self.encs()[k] != x.enc()
                },
                None => forall|k: int| 0 <= k < self.encs().len() ==> self.encs()[k] != x.enc(),
            },
    {
        let k = x.tag();
        let ghost encs = self.encs();
        let count: usize = self.elems.len();
        match self.index.get(&k) {
            None => {
                proof {
                    assert forall|q: int| 0 <= q < encs.len() implies encs[q] != x.enc() by {
                        assert(listed(encs, self.index@, q));
                    }
                }
                None
            },
            Some(bucket) => {
                assert(self.index@.contains_key(k));
                assert(bucket_ok(encs, k, bucket@));
                let mut best: Option<usize> = None;
                let mut p: usize = 0;
                while p < bucket.len()
                    invariant
                        p <= bucket@.len(),
                        encs == self.encs(),
                        encs.len() == self.elems@.len(),
                        encs.len() == count,
                        bucket_ok(encs, k, bucket@),
                        match best {
                            Some(v) => v < encs.len() && encs[v as int] == x.enc(),
                            None => true,
                        },
                        forall|q: int|
                            0 <= q < p && encs[(#[trigger] bucket@[q]) as int] == x.enc() ==> best
                                is Some && best->0 <= bucket@[q],
                    decreases bucket@.len() - p,
                {
                    let i: usize = bucket[p];
                    assert(bucket@[p as int] < encs.len());
                    if self.elems[i].same(x) {
                        let better = match best {
                            Some(v) => i < v,
                            None => true,
                        };
                        if better {
                            best = Some(i);
                        }
                    }
                    p = p + 1;
                }
                proof {
                    assert forall|q: int| 0 <= q < encs.len() && encs[q] == x.enc() implies best
                        is Some && best->0 <= q by {
                        assert(listed(encs, self.index@, q));
                        let pos = choose|pos: int|
                            0 <= pos < bucket@.len() && bucket@[pos] == q as usize;
                        assert(encs[bucket@[pos] as int] == x.enc());
                    }
                }
                best
            },
        }
    }
}

/// Searches for the exponent `e` with `g` composed `e` times equal to `h`, by baby steps
/// and giant steps. With `m` the number of steps for `bound`, the first giant step `j` below
/// `m` is taken at which `h` composed with `j` copies of the inverse of `g` to the `m`, or
/// the inverse of `h` so composed, is among the first `m` powers of `g`, at the place `i`;
/// the result is `i + j * m`, or its negative for the inverse. A target that is the neutral
/// element gives zero at once, before any table is built.
pub fn discrete_log<G: Group>(h: &G, g: &G, bound: &BigNum) -> (r: Result<Option<BigInt>, FeError>)
    ensures
        match r {
            Ok(v) => {
                &&& h.enc() == G::unit_enc() || bound@ <= MAX_BOUND
                &&& value_of(v) == dlog_spec::<G>(h.enc(), g.enc(), step_count(bound@))
            },
            Err(e) => e == FeError::BoundTooLarge && h.enc() != G::unit_enc() && bound@
                > MAX_BOUND,
        },
{
    let unit = G::unit();
    if unit.same(h) {
        return Ok(Some(int_from_i64(0)));
    }
    let m: u64 = match steps_for(bound) {
        Some(m) => m,
        None => {
            return Err(FeError::BoundTooLarge);
        },
    };
    let ghost gs = g.enc();
    let ghost mn = m as nat;
    let mut table: BabySteps<G> = BabySteps::new();
    let mut x: G = unit;
    let mut i: u64 = 0;
    while i < m
        invariant
            i <= m,
            m <= 0x10_0001,
            gs == g.enc(),
            table.wf(),
            table.encs().len() == i,
            forall|k: int| 0 <= k < i ==> #[trigger] table.encs()[k] == power::<G>(gs, k as nat),
            x.enc() == power::<G>(gs, i as nat),
        decreases m - i,
    {
        table.push(x);
        x = x.op(g);
        i = i + 1;
    }
    let m_big = BigNum::from_u64(m);
    let z: G = g.inv().pow(&m_big);
    let mut x: G = *h;
    let mut xn: G = h.inv();
    let ghost zs = z.enc();
    let ghost total = dlog_spec::<G>(h.enc(), gs, mn);
    let mut j: u64 = 0;
    while j < m
        invariant
            j <= m,
            mn == m,
            m <= 0x10_0001,
            gs == g.enc(),
            zs == z.enc(),
            table.wf(),
            table.encs().len() == m,
            forall|k: int| 0 <= k < m ==> #[trigger] table.encs()[k] == power::<G>(gs, k as nat),
            bound@ <= MAX_BOUND,
            mn == step_count(bound@),
            total == dlog_spec::<G>(h.enc(), gs, mn),
            total == search_from::<G>(gs, x.enc(), xn.enc(), zs, mn, j as nat),
        decreases m - j,
    {
        match table.find(&x) {
            Some(i) => {
                proof {
                    assert forall|k: nat| k < i implies power::<G>(gs, k) != x.enc() by {
                        assert(table.encs()[k as int] == power::<G>(gs, k));
                    }
                    assert(table.encs()[i as int] == power::<G>(gs, i as nat));
                    lemma_baby_index_first::<G>(gs, mn, x.enc(), i as nat);
                }
                assert(j * m <= 0x10_0001 * 0x10_0001) by (nonlinear_arith)
                    requires
                        j <= 0x10_0001,
                        m <= 0x10_0001,
                ;
                let v: u64 = i as u64 + j * m;
                let found = int_from_i64(v as i64);
                proof {
                    assert(baby_index::<G>(gs, mn, x.enc()) == Some(i as nat));
                    assert(found@ == (i as nat + (j as nat) * mn) as int);
                    assert(total == Some((i as nat + (j as nat) * mn) as int));
                }
                return Ok(Some(found));
            },
            None => {
                proof {
                    assert forall|k: nat| k < mn implies power::<G>(gs, k) != x.enc() by {
                        assert(table.encs()[k as int] == power::<G>(gs, k));
                    }
                    lemma_baby_index_absent::<G>(gs, mn, x.enc());
                }
            },
        }
        match table.find(&xn) {
            Some(i) => {
                proof {
                    assert forall|k: nat| k < i implies power::<G>(gs, k) != xn.enc() by {
                        assert(table.encs()[k as int] == power::<G>(gs, k));
                    }
                    assert(table.encs()[i as int] == power::<G>(gs, i as nat));
                    lemma_baby_index_first::<G>(gs, mn, xn.enc(), i as nat);
                }
                assert(j * m <= 0x10_0001 * 0x10_0001) by (nonlinear_arith)
                    requires
                        j <= 0x10_0001,
                        m <= 0x10_0001,
                ;
                let v: u64 = i as u64 + j * m;
                let found = int_from_i64(-(v as i64));
                proof {
                    assert(baby_index::<G>(gs, mn, x.enc()) == None::<nat>);
                    assert(baby_index::<G>(gs, mn, xn.enc()) == Some(i as nat));
                    assert(found@ == -((i as nat + (j as nat) * mn) as int));
                    assert(total == Some(-((i as nat + (j as nat) * mn) as int)));
                }
                return Ok(Some(found));
            },
            None => {
                proof {
                    assert forall|k: nat| k < mn implies power::<G>(gs, k) != xn.enc() by {
                        assert(table.encs()[k as int] == power::<G>(gs, k));
                    }
                    lemma_baby_index_absent::<G>(gs, mn, xn.enc());
                }
            },
        }
        x = x.op(&z);
        xn = xn.op(&z);
        j = j + 1;
    }
    Ok(None)
}


/// The bound of a search as a scalar: `value` itself where it is within the ceiling, else
/// a scalar above the ceiling.
pub fn search_bound(value: &BigInt) -> (r: BigNum)
    requires
        value@ >= 0,
    ensures
        value@ <= MAX_BOUND ==> r@ == value@,
        value@ > MAX_BOUND ==> r@ > MAX_BOUND,
{
    match int_to_u64(value) {
        Some(v) => {
            if v <= 0x100_0000_0000 {
                BigNum::from_u64(v)
            } else {
                BigNum::from_u64(0x100_0000_0001)
            }
        },
        None => BigNum::from_u64(0x100_0000_0001),
    }
}

/// The search for the exponent of `target` to the base `base`, with a bound that is an
/// integer of any size. It fails where the bound is above the ceiling, unless the target is
/// the neutral element.
pub fn bounded_search<G: Group>(target: &G, base: &G, wide: &BigInt) -> (r: Result<
    Option<BigInt>,
    FeError,
>)
    requires
        wide@ >= 0,
    ensures
        match r {
            Ok(v) => {
                &&& target.enc() == G::unit_enc() || wide@ <= MAX_BOUND
                &&& value_of(v) == dlog_spec::<G>(target.enc(), base.enc(), step_count(wide@ as nat))
            },
            Err(e) => e == FeError::BoundTooLarge && target.enc() != G::unit_enc() && wide@
                > MAX_BOUND,
        },
{
    let b = search_bound(wide);
    discrete_log::<G>(target, base, &b)
}

// ---------------------------------------------------------------------------
// What the search finds in a cyclic group
// ---------------------------------------------------------------------------
/// Composing the `a`-th and the `b`-th power of `g` gives the power with the sum of the
/// exponents.
pub open spec fn law_compose<G: Group>(g: Seq<u8>, a: nat, b: nat) -> bool {
    G::op_enc(power::<G>(g, a), power::<G>(g, b)) == power::<G>(g, a + b)
}

/// Two powers of `g` have the same encoding exactly where their exponents agree modulo `n`.
pub open spec fn law_same<G: Group>(g: Seq<u8>, n: nat, a: nat, b: nat) -> bool {
    (power::<G>(g, a) == power::<G>(g, b)) <==> (a % n == b % n)
}

/// The inverse of the `a`-th power of `g` is the power that completes it to `n`.
pub open spec fn law_inverse<G: Group>(g: Seq<u8>, n: nat, a: nat) -> bool {
    G::inv_enc(power::<G>(g, a)) == power::<G>(g, (n - a % n) as nat)
}

/// Raising the `a`-th power of `g` to a scalar `k`, as the library does it, gives the power
/// with the product of the exponents.
pub open spec fn law_scale<G: Group>(g: Seq<u8>, a: nat, k: nat) -> bool {
    k < big_limit() ==> G::pow_enc(power::<G>(g, a), k) == power::<G>(g, a * k)
}

/// `g` generates a cyclic group of `n` elements: its powers are composed, inverted and
/// raised to scalars by adding, negating and multiplying exponents, and the encoding of a
/// power is canonical.
pub open spec fn generates<G: Group>(g: Seq<u8>, n: nat) -> bool {
    &&& n > 0
    &&& power::<G>(g, 1) == g
    &&& forall|a: nat, b: nat| #[trigger] law_compose::<G>(g, a, b)
    &&& forall|a: nat, b: nat| #[trigger] law_same::<G>(g, n, a, b)
    &&& forall|a: nat| #[trigger] law_inverse::<G>(g, n, a)
    &&& forall|a: nat, k: nat| #[trigger] law_scale::<G>(g, a, k)
}

/// The element `g` to the `e`, for an exponent of either sign, in a group of `n` elements.
pub open spec fn element<G: Group>(g: Seq<u8>, n: nat, e: int) -> Seq<u8> {
    power::<G>(g, (e % (n as int)) as nat)
}

/// Every number has a least number whose square reaches it.
pub proof fn lemma_ceil_sqrt_exists(b: nat)
    ensures
        is_ceil_sqrt(b, ceil_sqrt(b)),
    decreases b,
{
    if b == 0 {
        assert(is_ceil_sqrt(0, 0));
    } else {
        lemma_ceil_sqrt_exists((b - 1) as nat);
        let r = ceil_sqrt((b - 1) as nat);
        if r * r >= b {
            assert(is_ceil_sqrt(b, r));
        } else {
            assert((r + 1) * (r + 1) == r * r + 2 * r + 1) by (nonlinear_arith);
            assert((r + 1 - 1) * (r + 1 - 1) == r * r) by (nonlinear_arith);
            assert(is_ceil_sqrt(b, r + 1));
        }
    }
}

/// The square of the number of steps is above the bound.
pub proof fn lemma_step_count_covers(b: nat)
    ensures
        step_count(b) >= 1,
        b < step_count(b) * step_count(b),
        b <= MAX_BOUND ==> step_count(b) <= 0x10_0001,
{
    lemma_ceil_sqrt_exists(b);
    let r = ceil_sqrt(b);
    assert((r + 1) * (r + 1) == r * r + 2 * r + 1) by (nonlinear_arith);
    if b <= MAX_BOUND && r > 0x10_0000 {
        assert((r - 1) * (r - 1) >= 0x10_0000 * 0x10_0000) by (nonlinear_arith)
            requires
                r - 1 >= 0x10_0000,
        ;
    }
}

proof fn lemma_limit_is_large()
    ensures
        big_limit() > 0x10_0001,
{
    vstd::arithmetic::power::lemma_pow_increases(256, 3, 48);
    assert(pow(256, 3) == 256 * 256 * 256) by {
        reveal_with_fuel(pow, 4);
    }
}

/// In a group that `g` generates, no power of `g` with an exponent whose remainder is `r`,
/// with `r` at least `m`, is among the first `m` powers.
proof fn lemma_power_absent<G: Group>(g: Seq<u8>, n: nat, m: nat, a: nat, r: int)
    requires
        generates::<G>(g, n),
        m <= n,
        a % n == r,
        r >= m,
    ensures
        baby_index::<G>(g, m, power::<G>(g, a)) == None::<nat>,
{
    assert forall|k: nat| k < m implies power::<G>(g, k) != power::<G>(g, a) by {
        assert(law_same::<G>(g, n, k, a));
        lemma_small_mod(k, n);
    }
    lemma_baby_index_absent::<G>(g, m, power::<G>(g, a));
}

/// In a group that `g` generates, a power of `g` with an exponent whose remainder is `r`,
/// with `r` below `m`, is first met among the first `m` powers at the place `r`.
proof fn lemma_power_present<G: Group>(g: Seq<u8>, n: nat, m: nat, a: nat, r: int)
    requires
        generates::<G>(g, n),
        m <= n,
        a % n == r,
        0 <= r < m,
    ensures
        baby_index::<G>(g, m, power::<G>(g, a)) == Some(r as nat),
{
    let x = power::<G>(g, a);
    assert forall|k: nat| k < r implies power::<G>(g, k) != x by {
        assert(law_same::<G>(g, n, k, a));
        lemma_small_mod(k, n);
    }
    assert(law_same::<G>(g, n, r as nat, a));
    lemma_small_mod(r as nat, n);
    lemma_baby_index_first::<G>(g, m, x, r as nat);
}

/// The size of an integer.
pub open spec fn size_of(e: int) -> nat {
    if e >= 0 {
        e as nat
    } else {
        (-e) as nat
    }
}

/// The giant steps from the `j`-th on, for a target with the exponent `e`: the branch on
/// which the size of the exponent decreases meets the table when what is left of it is
/// below `m`; the other branch never does.
proof fn lemma_walk<G: Group>(g: Seq<u8>, n: nat, m: nat, a: nat, b: nat, c: nat, j: nat, e: int)
    requires
        generates::<G>(g, n),
        m >= 1,
        4 * m * m <= n,
        0 < size_of(e) < m * m,
        j * m <= size_of(e),
        (a as int) % (n as int) == (e - j * m) % (n as int),
        (b as int) % (n as int) == (-e - j * m) % (n as int),
        (c as int) % (n as int) == (-(m as int)) % (n as int),
    ensures
        search_from::<G>(g, power::<G>(g, a), power::<G>(g, b), power::<G>(g, c), m, j) == Some(e),
    decreases size_of(e) - j * m,
{
    let ni = n as int;
    let mi = m as int;
    let size = size_of(e);
    assert(m <= m * m) by (nonlinear_arith)
        requires
            m >= 1,
    ;
    assert(j < m) by (nonlinear_arith)
        requires
            j * m <= size,
            size < m * m,
            m >= 1,
    ;
    let mm = m * m;
    assert(4 * m * m == 4 * mm) by (nonlinear_arith)
        requires
            mm == m * m,
    ;
    // the remainder on the branch that comes down to the table, and on the other
    let down = size - j * m;
    let up = ni - size - j * m;
    lemma_small_mod(down as nat, n);
    lemma_mod_add_multiples_vanish(-(size as int) - j * m, ni);
    lemma_small_mod(up as nat, n);
    let (fall, rise) = if e > 0 {
        (a, b)
    } else {
        (b, a)
    };
    assert((fall as int) % ni == down);
    assert((rise as int) % ni == up);
    lemma_power_absent::<G>(g, n, m, rise, up);
    if down < m {
        lemma_power_present::<G>(g, n, m, fall, down);
    } else {
        lemma_power_absent::<G>(g, n, m, fall, down);
        lemma_step::<G>(g, n, m, a, b, c, j, e);
        assert((j + 1) * m == j * m + m) by (nonlinear_arith);
        lemma_walk::<G>(g, n, m, a + c, b + c, c, j + 1, e);
    }
}

/// One giant step adds the exponent of the step to both branches.
proof fn lemma_step<G: Group>(g: Seq<u8>, n: nat, m: nat, a: nat, b: nat, c: nat, j: nat, e: int)
    requires
        generates::<G>(g, n),
        (a as int) % (n as int) == (e - j * m) % (n as int),
        (b as int) % (n as int) == (-e - j * m) % (n as int),
        (c as int) % (n as int) == (-(m as int)) % (n as int),
    ensures
        G::op_enc(power::<G>(g, a), power::<G>(g, c)) == power::<G>(g, a + c),
        G::op_enc(power::<G>(g, b), power::<G>(g, c)) == power::<G>(g, b + c),
        ((a + c) as int) % (n as int) == (e - (j + 1) * m) % (n as int),
        ((b + c) as int) % (n as int) == (-e - (j + 1) * m) % (n as int),
{
    let ni = n as int;
    let mi = m as int;
    assert(law_compose::<G>(g, a, c));
    assert(law_compose::<G>(g, b, c));
    assert((j + 1) * m == j * m + m) by (nonlinear_arith);
    lemma_add_mod_noop(a as int, c as int, ni);
    lemma_add_mod_noop(b as int, c as int, ni);
    lemma_add_mod_noop(e - j * m, -mi, ni);
    lemma_add_mod_noop(-e - j * m, -mi, ni);
    assert(e - j * m + (-mi) == e - (j + 1) * m);
    assert(-e - j * m + (-mi) == -e - (j + 1) * m);
}

/// The giant steps from the `j`-th on, for a target whose exponent is out of reach: no
/// branch meets the table.
proof fn lemma_walk_misses<G: Group>(
    g: Seq<u8>,
    n: nat,
    m: nat,
    a: nat,
    b: nat,
    c: nat,
    j: nat,
    e: int,
)
    requires
        generates::<G>(g, n),
        m >= 1,
        m * m <= size_of(e),
        size_of(e) + m * m <= n,
        j <= m,
        (a as int) % (n as int) == (e - j * m) % (n as int),
        (b as int) % (n as int) == (-e - j * m) % (n as int),
        (c as int) % (n as int) == (-(m as int)) % (n as int),
    ensures
        search_from::<G>(g, power::<G>(g, a), power::<G>(g, b), power::<G>(g, c), m, j)
            == None::<int>,
    decreases m - j,
{
    if j < m {
        let ni = n as int;
        let mi = m as int;
        let size = size_of(e);
        assert(m <= m * m) by (nonlinear_arith)
            requires
                m >= 1,
        ;
        assert(j * m + m <= m * m) by (nonlinear_arith)
            requires
                j + 1 <= m,
                m >= 1,
        ;
        let down = size - j * m;
        let up = ni - size - j * m;
        lemma_small_mod(down as nat, n);
        lemma_mod_add_multiples_vanish(-(size as int) - j * m, ni);
        lemma_small_mod(up as nat, n);
        let (fall, rise) = if e > 0 {
            (a, b)
        } else {
            (b, a)
        };
        assert((fall as int) % ni == down);
        assert((rise as int) % ni == up);
        lemma_power_absent::<G>(g, n, m, rise, up);
        lemma_power_absent::<G>(g, n, m, fall, down);
        lemma_step::<G>(g, n, m, a, b, c, j, e);
        lemma_walk_misses::<G>(g, n, m, a + c, b + c, c, j + 1, e);
    }
}

/// Where the search starts for the target `g` to the `e`: the exponents of the target, of
/// its inverse and of the giant step.
proof fn lemma_start<G: Group>(g: Seq<u8>, n: nat, m: nat, e: int) -> (r: (nat, nat, nat))
    requires
        generates::<G>(g, n),
        n >= 2,
        m < big_limit(),
        e % (n as int) != 0,
    ensures
        element::<G>(g, n, e) == power::<G>(g, r.0),
        element::<G>(g, n, e) != G::unit_enc(),
        G::inv_enc(element::<G>(g, n, e)) == power::<G>(g, r.1),
        G::pow_enc(G::inv_enc(g), m) == power::<G>(g, r.2),
        (r.0 as int) % (n as int) == e % (n as int),
        (r.1 as int) % (n as int) == (-e) % (n as int),
        (r.2 as int) % (n as int) == (-(m as int)) % (n as int),
{
    let ni = n as int;
    let a = (e % ni) as nat;
    lemma_mod_twice(e, ni);
    // the target is not the neutral element
    assert(law_same::<G>(g, n, a, 0));
    lemma_small_mod(0, n);
    // the inverse of the target
    assert(law_inverse::<G>(g, n, a));
    let b = (n - a % n) as nat;
    lemma_small_mod(a, n);
    lemma_mod_add_multiples_vanish(-(a as int), ni);
    vstd::arithmetic::div_mod::lemma_sub_mod_noop(0, e, ni);
    // the giant step
    assert(law_inverse::<G>(g, n, 1));
    lemma_small_mod(1, n);
    let c1 = (n - 1) as nat;
    assert(law_scale::<G>(g, c1, m));
    let c = c1 * m;
    assert(c == ni * m + (-(m as int))) by (nonlinear_arith)
        requires
            c == (ni - 1) * m,
    ;
    lemma_mod_multiples_vanish(m as int, -(m as int), ni);
    assert((ni * m + (-(m as int))) % ni == (-(m as int)) % ni) by {
        assert(ni * m == m * ni) by (nonlinear_arith);
    }
    (a, b, c)
}

/// An integer whose size is above zero and below `n` leaves a remainder modulo `n`.
proof fn lemma_not_a_multiple(e: int, n: nat)
    requires
        0 < size_of(e) < n,
    ensures
        e % (n as int) != 0,
{
    if e > 0 {
        lemma_small_mod(e as nat, n);
    } else {
        lemma_mod_add_multiples_vanish(e, n as int);
        lemma_small_mod((n + e) as nat, n);
    }
}

/// In a group of `n` elements that `g` generates, the search with the bound `bound` finds
/// every exponent `e` whose size is at most `bound`: for the target `g` to the `e` it
/// returns `e`. The group has to be large beside the bound: at least four times the square
/// of the number of steps.
pub proof fn lemma_search_finds<G: Group>(g: Seq<u8>, n: nat, e: int, bound: nat)
    requires
        generates::<G>(g, n),
        bound <= MAX_BOUND,
        size_of(e) <= bound,
        4 * step_count(bound) * step_count(bound) <= n,
    ensures
        dlog_spec::<G>(element::<G>(g, n, e), g, step_count(bound)) == Some(e),
{
    let m = step_count(bound);
    lemma_step_count_covers(bound);
    lemma_limit_is_large();
    assert(m <= m * m) by (nonlinear_arith)
        requires
            m >= 1,
    ;
    let mm = m * m;
    assert(4 * m * m == 4 * mm) by (nonlinear_arith)
        requires
            mm == m * m,
    ;
    if e == 0 {
        lemma_small_mod(0, n);
    } else {
        lemma_not_a_multiple(e, n);
        let (a, b, c) = lemma_start::<G>(g, n, m, e);
        lemma_walk::<G>(g, n, m, a, b, c, 0, e);
    }
}

/// In a group of `n` elements that `g` generates, the search with the bound `bound` finds
/// nothing for a target `g` to the `e` whose exponent is out of reach: its size is at least
/// the square of the number of steps, and so far below `n` that its negative is out of
/// reach as well.
pub proof fn lemma_search_misses<G: Group>(g: Seq<u8>, n: nat, e: int, bound: nat)
    requires
        generates::<G>(g, n),
        bound <= MAX_BOUND,
        step_count(bound) * step_count(bound) <= size_of(e),
        size_of(e) + step_count(bound) * step_count(bound) <= n,
    ensures
        dlog_spec::<G>(element::<G>(g, n, e), g, step_count(bound)) == None::<int>,
{
    let m = step_count(bound);
    lemma_step_count_covers(bound);
    lemma_limit_is_large();
    assert(m <= m * m) by (nonlinear_arith)
        requires
            m >= 1,
    ;
    lemma_not_a_multiple(e, n);
    let (a, b, c) = lemma_start::<G>(g, n, m, e);
    lemma_walk_misses::<G>(g, n, m, a, b, c, 0, e);
}

/// What `baby_index` gives is a place of `x` among the first `m` powers.
pub proof fn lemma_baby_index_is_place<G: Group>(g: Seq<u8>, m: nat, x: Seq<u8>)
    ensures
        match baby_index::<G>(g, m, x) {
            Some(i) => i < m && power::<G>(g, i) == x,
            None => true,
        },
    decreases m,
{
    if m > 0 {
        lemma_baby_index_is_place::<G>(g, (m - 1) as nat, x);
    }
}

/// Whatever the giant steps from the `j`-th on return is an exponent of the target.
proof fn lemma_walk_sound<G: Group>(g: Seq<u8>, n: nat, m: nat, a: nat, b: nat, c: nat, j: nat, e: int)
    requires
        generates::<G>(g, n),
        j <= m,
        (a as int) % (n as int) == (e - j * m) % (n as int),
        (b as int) % (n as int) == (-e - j * m) % (n as int),
        (c as int) % (n as int) == (-(m as int)) % (n as int),
    ensures
        match search_from::<G>(g, power::<G>(g, a), power::<G>(g, b), power::<G>(g, c), m, j) {
            Some(v) => v % (n as int) == e % (n as int),
            None => true,
        },
    decreases m - j,
{
    let ni = n as int;
    if j < m {
        let x = power::<G>(g, a);
        let xn = power::<G>(g, b);
        lemma_baby_index_is_place::<G>(g, m, x);
        lemma_baby_index_is_place::<G>(g, m, xn);
        match baby_index::<G>(g, m, x) {
            Some(i) => {
                // i is congruent to e - j * m
                assert(law_same::<G>(g, n, i, a));
                lemma_add_mod_noop(i as int, (j * m) as int, ni);
                lemma_add_mod_noop(e - j * m, (j * m) as int, ni);
            },
            None => {
                match baby_index::<G>(g, m, xn) {
                    Some(i) => {
                        // i is congruent to -e - j * m
                        assert(law_same::<G>(g, n, i, b));
                        lemma_add_mod_noop(i as int, (j * m) as int, ni);
                        lemma_add_mod_noop(-e - j * m, (j * m) as int, ni);
                        vstd::arithmetic::div_mod::lemma_sub_mod_noop(0, (i + j * m) as int, ni);
                        vstd::arithmetic::div_mod::lemma_sub_mod_noop(0, -e, ni);
                    },
                    None => {
                        lemma_step::<G>(g, n, m, a, b, c, j, e);
                        lemma_walk_sound::<G>(g, n, m, a + c, b + c, c, j + 1, e);
                    },
                }
            },
        }
    }
}

/// In a group of `n` elements that `g` generates, the search gives no wrong answer: whatever
/// it returns for the target `g` to the `e` is congruent to `e` modulo `n`, and so an
/// exponent of the target.
pub proof fn lemma_search_sound<G: Group>(g: Seq<u8>, n: nat, e: int, bound: nat)
    requires
        generates::<G>(g, n),
        n >= 2,
        bound <= MAX_BOUND,
    ensures
        match dlog_spec::<G>(element::<G>(g, n, e), g, step_count(bound)) {
            Some(v) => v % (n as int) == e % (n as int),
            None => true,
        },
{
    let m = step_count(bound);
    let ni = n as int;
    lemma_step_count_covers(bound);
    lemma_limit_is_large();
    if element::<G>(g, n, e) == G::unit_enc() {
        assert(law_same::<G>(g, n, (e % ni) as nat, 0));
        lemma_mod_twice(e, ni);
        lemma_small_mod(0, n);
    } else {
        if e % ni == 0 {
            lemma_small_mod(0, n);
        }
        let (a, b, c) = lemma_start::<G>(g, n, m, e);
        lemma_walk_sound::<G>(g, n, m, a, b, c, 0, e);
    }
}

} // verus!
