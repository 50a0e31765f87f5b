use crate::define::big_limit;
use crate::define::curve_order_value;
use crate::group::pairing_value;
use crate::group::Group;
use crate::group::Gt;
use crate::group::G1;
use crate::group::G1_GENERATOR;
use crate::group::G2;
use crate::group::G2_GENERATOR;
use crate::utils::dlog::element;
use crate::utils::dlog::generates;
use crate::utils::dlog::law_compose;
use crate::utils::dlog::law_inverse;
use crate::utils::dlog::law_same;
use crate::utils::dlog::law_scale;
use crate::utils::dlog::power;
use vstd::arithmetic::div_mod::lemma_add_mod_noop;
use vstd::arithmetic::div_mod::lemma_mod_add_multiples_vanish;
use vstd::arithmetic::div_mod::lemma_mod_bound;
use vstd::arithmetic::div_mod::lemma_mod_twice;
use vstd::arithmetic::div_mod::lemma_mul_mod_noop_left;
use vstd::arithmetic::div_mod::lemma_small_mod;
use vstd::arithmetic::div_mod::lemma_sub_mod_noop;
use vstd::prelude::*;

verus! {

/// The group order as an integer.
pub open spec fn order() -> int {
    curve_order_value() as int
}

/// The pairing of the `b`-th power of the generator of the second group with the `a`-th
/// power of the generator of the first is the power of the pairing of the generators with
/// the product of the exponents.
pub open spec fn law_pairing(a: nat, b: nat) -> bool {
    pairing_value(power::<G2>(G2_GENERATOR@, b), power::<G1>(G1_GENERATOR@, a)) == power::<Gt>(
        pairing_value(G2_GENERATOR@, G1_GENERATOR@),
        a * b,
    )
}

/// What the schemes need of the curve library to be correct: its three groups are cyclic of
/// the group order, generated by their generators, and the pairing is bilinear.
pub open spec fn pairing_groups() -> bool {
    &&& generates::<G1>(G1_GENERATOR@, curve_order_value())
    &&& generates::<G2>(G2_GENERATOR@, curve_order_value())
    &&& generates::<Gt>(pairing_value(G2_GENERATOR@, G1_GENERATOR@), curve_order_value())
    &&& forall|a: nat, b: nat| #[trigger] law_pairing(a, b)
}

/// `x` is a power of `g`.
pub open spec fn is_power<G: Group>(g: Seq<u8>, x: Seq<u8>) -> bool {
    exists|u: nat| x == #[trigger] power::<G>(g, u)
}

/// A power with a natural exponent is the element with that exponent.
pub proof fn lemma_power_is_element<G: Group>(g: Seq<u8>, n: nat, a: nat)
    requires
        generates::<G>(g, n),
    ensures
        power::<G>(g, a) == element::<G>(g, n, a as int),
{
    assert(law_same::<G>(g, n, a, a % n));
    lemma_mod_twice(a as int, n as int);
}

/// The generator is the element with the exponent one, the neutral element that with the
/// exponent zero.
pub proof fn lemma_element_generator<G: Group>(g: Seq<u8>, n: nat)
    requires
        generates::<G>(g, n),
    ensures
        g == element::<G>(g, n, 1),
        G::unit_enc() == element::<G>(g, n, 0),
{
    lemma_power_is_element::<G>(g, n, 1);
    lemma_power_is_element::<G>(g, n, 0);
}

/// Exponents that agree modulo the order give the same element.
pub proof fn lemma_element_same<G: Group>(g: Seq<u8>, n: nat, e1: int, e2: int)
    requires
        n > 0,
        e1 % (n as int) == e2 % (n as int),
    ensures
        element::<G>(g, n, e1) == element::<G>(g, n, e2),
{
}

/// Composing elements adds their exponents.
pub proof fn lemma_element_op<G: Group>(g: Seq<u8>, n: nat, e1: int, e2: int)
    requires
        generates::<G>(g, n),
    ensures
        G::op_enc(element::<G>(g, n, e1), element::<G>(g, n, e2)) == element::<G>(g, n, e1 + e2),
{
    let ni = n as int;
    let a = (e1 % ni) as nat;
    let b = (e2 % ni) as nat;
    lemma_mod_bound(e1, ni);
    lemma_mod_bound(e2, ni);
    assert(law_compose::<G>(g, a, b));
    lemma_power_is_element::<G>(g, n, a + b);
    lemma_add_mod_noop(e1, e2, ni);
}

/// Raising an element to a scalar multiplies its exponent.
pub proof fn lemma_element_pow<G: Group>(g: Seq<u8>, n: nat, e: int, k: nat)
    requires
        generates::<G>(g, n),
        k < big_limit(),
    ensures
        G::pow_enc(element::<G>(g, n, e), k) == element::<G>(g, n, e * k),
{
    let ni = n as int;
    let a = (e % ni) as nat;
    lemma_mod_bound(e, ni);
    assert(law_scale::<G>(g, a, k));
    lemma_power_is_element::<G>(g, n, a * k);
    lemma_mul_mod_noop_left(e, k as int, ni);
}

/// Inverting an element negates its exponent.
pub proof fn lemma_element_inv<G: Group>(g: Seq<u8>, n: nat, e: int)
    requires
        generates::<G>(g, n),
    ensures
        G::inv_enc(element::<G>(g, n, e)) == element::<G>(g, n, -e),
{
    let ni = n as int;
    let a = (e % ni) as nat;
    lemma_mod_bound(e, ni);
    assert(law_inverse::<G>(g, n, a));
    lemma_small_mod(a, n);
    let b = (n - a % n) as nat;
    lemma_power_is_element::<G>(g, n, b);
    lemma_mod_add_multiples_vanish(-(a as int), ni);
    lemma_sub_mod_noop(0, e, ni);
}

/// The pairing of two elements is the element with the product of their exponents.
pub proof fn lemma_element_pairing(e2: int, e1: int)
    requires
        pairing_groups(),
    ensures
        pairing_value(
            element::<G2>(G2_GENERATOR@, curve_order_value(), e2),
            element::<G1>(G1_GENERATOR@, curve_order_value(), e1),
        ) == element::<Gt>(
            pairing_value(G2_GENERATOR@, G1_GENERATOR@),
            curve_order_value(),
            e1 * e2,
        ),
{
    let n = curve_order_value();
    let ni = n as int;
    let a = (e1 % ni) as nat;
    let b = (e2 % ni) as nat;
    lemma_mod_bound(e1, ni);
    lemma_mod_bound(e2, ni);
    assert(law_pairing(a, b));
    lemma_power_is_element::<Gt>(pairing_value(G2_GENERATOR@, G1_GENERATOR@), n, a * b);
    vstd::arithmetic::div_mod::lemma_mul_mod_noop(e1, e2, ni);
}

} // verus!
