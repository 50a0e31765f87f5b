use crate::define::BigNum;
use miracl_core::bls12381::big::BIG;
use miracl_core::bls12381::ecp::ECP;
use miracl_core::bls12381::ecp2::ECP2;
use miracl_core::bls12381::fp12::FP12;
use miracl_core::bls12381::pair;
use miracl_core::hash256::HASH256;
use vstd::prelude::*;

verus! {

/// Length of the encoding of a point of the first group: a marker byte and two coordinates.
pub const G1_BYTES: usize = 97;

/// Length of the encoding of a point of the second group: a marker byte and two coordinates,
/// each of two field elements.
pub const G2_BYTES: usize = 193;

/// Length of the encoding of an element of the target group: twelve field elements.
pub const GT_BYTES: usize = 576;

/// The encoding of the generator of the first group.
pub const G1_GENERATOR: [u8; 97] = [
    0x04, 0x17, 0xf1, 0xd3, 0xa7, 0x31, 0x97, 0xd7, 0x94, 0x26, 0x95, 0x63, 0x8c, 0x4f, 0xa9, 0xac,
    0x0f, 0xc3, 0x68, 0x8c, 0x4f, 0x97, 0x74, 0xb9, 0x05, 0xa1, 0x4e, 0x3a, 0x3f, 0x17, 0x1b, 0xac,
    0x58, 0x6c, 0x55, 0xe8, 0x3f, 0xf9, 0x7a, 0x1a, 0xef, 0xfb, 0x3a, 0xf0, 0x0a, 0xdb, 0x22, 0xc6,
    0xbb, 0x08, 0xb3, 0xf4, 0x81, 0xe3, 0xaa, 0xa0, 0xf1, 0xa0, 0x9e, 0x30, 0xed, 0x74, 0x1d, 0x8a,
    0xe4, 0xfc, 0xf5, 0xe0, 0x95, 0xd5, 0xd0, 0x0a, 0xf6, 0x00, 0xdb, 0x18, 0xcb, 0x2c, 0x04, 0xb3,
    0xed, 0xd0, 0x3c, 0xc7, 0x44, 0xa2, 0x88, 0x8a, 0xe4, 0x0c, 0xaa, 0x23, 0x29, 0x46, 0xc5, 0xe7,
    0xe1,
];

/// The encoding of the generator of the second group.
pub const G2_GENERATOR: [u8; 193] = [
    0x04, 0x13, 0xe0, 0x2b, 0x60, 0x52, 0x71, 0x9f, 0x60, 0x7d, 0xac, 0xd3, 0xa0, 0x88, 0x27, 0x4f,
    0x65, 0x59, 0x6b, 0xd0, 0xd0, 0x99, 0x20, 0xb6, 0x1a, 0xb5, 0xda, 0x61, 0xbb, 0xdc, 0x7f, 0x50,
    0x49, 0x33, 0x4c, 0xf1, 0x12, 0x13, 0x94, 0x5d, 0x57, 0xe5, 0xac, 0x7d, 0x05, 0x5d, 0x04, 0x2b,
    0x7e, 0x02, 0x4a, 0xa2, 0xb2, 0xf0, 0x8f, 0x0a, 0x91, 0x26, 0x08, 0x05, 0x27, 0x2d, 0xc5, 0x10,
    0x51, 0xc6, 0xe4, 0x7a, 0xd4, 0xfa, 0x40, 0x3b, 0x02, 0xb4, 0x51, 0x0b, 0x64, 0x7a, 0xe3, 0xd1,
    0x77, 0x0b, 0xac, 0x03, 0x26, 0xa8, 0x05, 0xbb, 0xef, 0xd4, 0x80, 0x56, 0xc8, 0xc1, 0x21, 0xbd,
    0xb8, 0x06, 0x06, 0xc4, 0xa0, 0x2e, 0xa7, 0x34, 0xcc, 0x32, 0xac, 0xd2, 0xb0, 0x2b, 0xc2, 0x8b,
    0x99, 0xcb, 0x3e, 0x28, 0x7e, 0x85, 0xa7, 0x63, 0xaf, 0x26, 0x74, 0x92, 0xab, 0x57, 0x2e, 0x99,
    0xab, 0x3f, 0x37, 0x0d, 0x27, 0x5c, 0xec, 0x1d, 0xa1, 0xaa, 0xa9, 0x07, 0x5f, 0xf0, 0x5f, 0x79,
    0xbe, 0x0c, 0xe5, 0xd5, 0x27, 0x72, 0x7d, 0x6e, 0x11, 0x8c, 0xc9, 0xcd, 0xc6, 0xda, 0x2e, 0x35,
    0x1a, 0xad, 0xfd, 0x9b, 0xaa, 0x8c, 0xbd, 0xd3, 0xa7, 0x6d, 0x42, 0x9a, 0x69, 0x51, 0x60, 0xd1,
    0x2c, 0x92, 0x3a, 0xc9, 0xcc, 0x3b, 0xac, 0xa2, 0x89, 0xe1, 0x93, 0x54, 0x86, 0x08, 0xb8, 0x28,
    0x01,
];

/// A point of the first group, held as its canonical uncompressed encoding.
#[derive(Clone, Copy, Debug, PartialEq, Eq)]
pub struct G1 {
    pub(crate) bytes: [u8; 97],
}

/// A point of the second group, held as its canonical uncompressed encoding.
#[derive(Clone, Copy, Debug, PartialEq, Eq)]
pub struct G2 {
    pub(crate) bytes: [u8; 193],
}

/// An element of the target group of the pairing, held as its canonical encoding.
#[derive(Clone, Copy, Debug, PartialEq, Eq)]
pub struct Gt {
    pub(crate) bytes: [u8; 576],
}

pub type G1Vector = Vec<G1>;

pub type G2Vector = Vec<G2>;

impl View for G1 {
    type V = Seq<u8>;

    closed spec fn view(&self) -> Seq<u8> {
        self.bytes@
    }
}

impl View for G2 {
    type V = Seq<u8>;

    closed spec fn view(&self) -> Seq<u8> {
        self.bytes@
    }
}

impl View for Gt {
    type V = Seq<u8>;

    closed spec fn view(&self) -> Seq<u8> {
        self.bytes@
    }
}

// ---------------------------------------------------------------------------
// Names for what the curve library computes
// ---------------------------------------------------------------------------
/// What the curve library gives for the sum of two points of the first group: whether it is
/// the point at infinity, and the bytes it writes for it.
pub uninterp spec fn ecp_sum(a: Seq<u8>, b: Seq<u8>) -> (bool, Seq<u8>);

/// What the curve library gives for the negative of a point of the first group.
pub uninterp spec fn ecp_negation(a: Seq<u8>) -> (bool, Seq<u8>);

/// What the curve library gives for `k` times a point of the first group.
pub uninterp spec fn ecp_scaled(a: Seq<u8>, k: nat) -> (bool, Seq<u8>);

/// What the curve library gives for the point of the first group that a digest is mapped to.
pub uninterp spec fn ecp_mapped(digest: Seq<u8>) -> (bool, Seq<u8>);

/// The compressed encoding of a point of the first group: a marker for the sign of the second
/// coordinate, and the first coordinate.
pub uninterp spec fn g1_compressed(a: Seq<u8>) -> Seq<u8>;

/// What the curve library gives for the sum of two points of the second group.
pub uninterp spec fn ecp2_sum(a: Seq<u8>, b: Seq<u8>) -> (bool, Seq<u8>);

/// What the curve library gives for the negative of a point of the second group.
pub uninterp spec fn ecp2_negation(a: Seq<u8>) -> (bool, Seq<u8>);

/// What the curve library gives for `k` times a point of the second group.
pub uninterp spec fn ecp2_scaled(a: Seq<u8>, k: nat) -> (bool, Seq<u8>);

/// What the curve library gives for the point of the second group that a digest is mapped
/// to.
pub uninterp spec fn ecp2_mapped(digest: Seq<u8>) -> (bool, Seq<u8>);

/// The encoding of the product of two elements of the target group.
pub uninterp spec fn gt_product(a: Seq<u8>, b: Seq<u8>) -> Seq<u8>;

/// The encoding of the inverse of an element of the target group.
pub uninterp spec fn gt_inverted(a: Seq<u8>) -> Seq<u8>;

/// The encoding of the `k`-th power of an element of the target group.
pub uninterp spec fn gt_power(a: Seq<u8>, k: nat) -> Seq<u8>;

/// The encoding of the value of the Miller loop on a point of the second and one of the
/// first group.
pub uninterp spec fn ate_value(q: Seq<u8>, p: Seq<u8>) -> Seq<u8>;

/// The encoding of the final exponentiation of a value of the Miller loop.
pub uninterp spec fn fexp_value(m: Seq<u8>) -> Seq<u8>;

/// The SHA-256 digest of a byte string.
pub uninterp spec fn sha256_value(data: Seq<u8>) -> Seq<u8>;

/// The encoding of the neutral element of the first group: the marker, a zero and a one.
pub open spec fn g1_identity() -> Seq<u8> {
    Seq::new(97, |i: int| if i == 0 { 4u8 } else if i == 96 { 1u8 } else { 0u8 })
}

/// The encoding of the neutral element of the second group: the marker, a zero and a one.
pub open spec fn g2_identity() -> Seq<u8> {
    Seq::new(193, |i: int| if i == 0 { 4u8 } else if i == 192 { 1u8 } else { 0u8 })
}

/// The encoding of the neutral element of the target group: the field element one.
pub open spec fn gt_identity() -> Seq<u8> {
    Seq::new(576, |i: int| if i == 575 { 1u8 } else { 0u8 })
}

/// The canonical encoding of a point of the first group: the library writes no fixed bytes
/// for the point at infinity, so it gets the encoding of the neutral element.
pub open spec fn g1_canonical(raw: (bool, Seq<u8>)) -> Seq<u8> {
    if raw.0 {
        g1_identity()
    } else {
        raw.1
    }
}

/// The canonical encoding of a point of the second group.
pub open spec fn g2_canonical(raw: (bool, Seq<u8>)) -> Seq<u8> {
    if raw.0 {
        g2_identity()
    } else {
        raw.1
    }
}

/// The encoding of the sum of two points of the first group.
pub open spec fn g1_sum(a: Seq<u8>, b: Seq<u8>) -> Seq<u8> {
    g1_canonical(ecp_sum(a, b))
}

/// The encoding of the negative of a point of the first group.
pub open spec fn g1_negation(a: Seq<u8>) -> Seq<u8> {
    g1_canonical(ecp_negation(a))
}

/// The encoding of `k` times a point of the first group.
pub open spec fn g1_scaled(a: Seq<u8>, k: nat) -> Seq<u8> {
    g1_canonical(ecp_scaled(a, k))
}

/// The encoding of the point of the first group that a digest is mapped to.
pub open spec fn g1_mapped(digest: Seq<u8>) -> Seq<u8> {
    g1_canonical(ecp_mapped(digest))
}

/// The encoding of the sum of two points of the second group.
pub open spec fn g2_sum(a: Seq<u8>, b: Seq<u8>) -> Seq<u8> {
    g2_canonical(ecp2_sum(a, b))
}

/// The encoding of the negative of a point of the second group.
pub open spec fn g2_negation(a: Seq<u8>) -> Seq<u8> {
    g2_canonical(ecp2_negation(a))
}

/// The encoding of `k` times a point of the second group.
pub open spec fn g2_scaled(a: Seq<u8>, k: nat) -> Seq<u8> {
    g2_canonical(ecp2_scaled(a, k))
}

/// The encoding of the point of the second group that a digest is mapped to.
pub open spec fn g2_mapped(digest: Seq<u8>) -> Seq<u8> {
    g2_canonical(ecp2_mapped(digest))
}

/// The pairing of a point of the second group with one of the first: the Miller loop
/// followed by the final exponentiation.
pub open spec fn pairing_value(q: Seq<u8>, p: Seq<u8>) -> Seq<u8> {
    fexp_value(ate_value(q, p))
}

// ---------------------------------------------------------------------------
// Calls into the curve library
// ---------------------------------------------------------------------------
/// `ECP::add`, `is_infinity` and `tobytes`: the sum of two points, as the curve library
/// computes it from their encodings.
#[verifier::external_body]
pub(crate) fn ecp_add(a: &G1, b: &G1) -> (r: (bool, [u8; 97]))
    ensures
        r.0 == ecp_sum(a@, b@).0,
        r.1@ == ecp_sum(a@, b@).1,
{
    let mut p = ECP::frombytes(&a.bytes);
    p.add(&ECP::frombytes(&b.bytes));
    let mut out = [0u8; 97];
    p.tobytes(&mut out, false);
    (p.is_infinity(), out)
}

/// `ECP::neg`, `is_infinity` and `tobytes`: the negative of a point.
#[verifier::external_body]
pub(crate) fn ecp_neg(a: &G1) -> (r: (bool, [u8; 97]))
    ensures
        r.0 == ecp_negation(a@).0,
        r.1@ == ecp_negation(a@).1,
{
    let mut p = ECP::frombytes(&a.bytes);
    p.neg();
    let mut out = [0u8; 97];
    p.tobytes(&mut out, false);
    (p.is_infinity(), out)
}

/// `ECP::mul`, `is_infinity` and `tobytes`: a point multiplied by a scalar.
#[verifier::external_body]
pub(crate) fn ecp_mul(a: &G1, k: &BigNum) -> (r: (bool, [u8; 97]))
    ensures
        r.0 == ecp_scaled(a@, k@).0,
        r.1@ == ecp_scaled(a@, k@).1,
{
    let p = ECP::frombytes(&a.bytes).mul(&BIG::frombytes(&k.bytes));
    let mut out = [0u8; 97];
    p.tobytes(&mut out, false);
    (p.is_infinity(), out)
}

/// `ECP::mapit`, `is_infinity` and `tobytes`: the point of the first group that a digest is
/// mapped to.
#[verifier::external_body]
pub(crate) fn ecp_mapit(digest: &[u8; 32]) -> (r: (bool, [u8; 97]))
    ensures
        r.0 == ecp_mapped(digest@).0,
        r.1@ == ecp_mapped(digest@).1,
{
    let p = ECP::mapit(digest);
    let mut out = [0u8; 97];
    p.tobytes(&mut out, false);
    (p.is_infinity(), out)
}

/// `ECP::tobytes` with compression: the compressed encoding of a point.
#[verifier::external_body]
pub(crate) fn ecp_compress(a: &G1) -> (r: [u8; 49])
    ensures
        r@ == g1_compressed(a@),
{
    let mut out = [0u8; 49];
    ECP::frombytes(&a.bytes).tobytes(&mut out, true);
    out
}

/// `ECP2::add`, `is_infinity` and `tobytes`: the sum of two points of the second group.
#[verifier::external_body]
pub(crate) fn ecp2_add(a: &G2, b: &G2) -> (r: (bool, [u8; 193]))
    ensures
        r.0 == ecp2_sum(a@, b@).0,
        r.1@ == ecp2_sum(a@, b@).1,
{
    let mut p = ECP2::frombytes(&a.bytes);
    p.add(&ECP2::frombytes(&b.bytes));
    let mut out = [0u8; 193];
    p.tobytes(&mut out, false);
    (p.is_infinity(), out)
}

/// `ECP2::neg`, `is_infinity` and `tobytes`: the negative of a point of the second group.
#[verifier::external_body]
pub(crate) fn ecp2_neg(a: &G2) -> (r: (bool, [u8; 193]))
    ensures
        r.0 == ecp2_negation(a@).0,
        r.1@ == ecp2_negation(a@).1,
{
    let mut p = ECP2::frombytes(&a.bytes);
    p.neg();
    let mut out = [0u8; 193];
    p.tobytes(&mut out, false);
    (p.is_infinity(), out)
}

/// `ECP2::mul`, `is_infinity` and `tobytes`: a point of the second group multiplied by a
/// scalar.
#[verifier::external_body]
pub(crate) fn ecp2_mul(a: &G2, k: &BigNum) -> (r: (bool, [u8; 193]))
    ensures
        r.0 == ecp2_scaled(a@, k@).0,
        r.1@ == ecp2_scaled(a@, k@).1,
{
    let p = ECP2::frombytes(&a.bytes).mul(&BIG::frombytes(&k.bytes));
    let mut out = [0u8; 193];
    p.tobytes(&mut out, false);
    (p.is_infinity(), out)
}

/// `ECP2::mapit`, `is_infinity` and `tobytes`: the point of the second group that a digest
/// is mapped to.
#[verifier::external_body]
pub(crate) fn ecp2_mapit(digest: &[u8; 32]) -> (r: (bool, [u8; 193]))
    ensures
        r.0 == ecp2_mapped(digest@).0,
        r.1@ == ecp2_mapped(digest@).1,
{
    let p = ECP2::mapit(digest);
    let mut out = [0u8; 193];
    p.tobytes(&mut out, false);
    (p.is_infinity(), out)
}

/// `FP12::mul`, `reduce` and `tobytes`: the product of two elements of the target group.
#[verifier::external_body]
pub(crate) fn fp12_mul(a: &Gt, b: &Gt) -> (r: Gt)
    ensures
        r@ == gt_product(a@, b@),
{
    let mut p = FP12::frombytes(&a.bytes);
    p.mul(&FP12::frombytes(&b.bytes));
    p.reduce();
    let mut out = [0u8; 576];
    p.tobytes(&mut out);
    Gt { bytes: out }
}

/// `FP12::inverse`, `reduce` and `tobytes`: the inverse of an element of the target group.
#[verifier::external_body]
pub(crate) fn fp12_inverse(a: &Gt) -> (r: Gt)
    ensures
        r@ == gt_inverted(a@),
{
    let mut p = FP12::frombytes(&a.bytes);
    p.inverse();
    p.reduce();
    let mut out = [0u8; 576];
    p.tobytes(&mut out);
    Gt { bytes: out }
}

/// `FP12::pow`, `reduce` and `tobytes`: an element of the target group raised to a scalar.
#[verifier::external_body]
pub(crate) fn fp12_pow(a: &Gt, k: &BigNum) -> (r: Gt)
    ensures
        r@ == gt_power(a@, k@),
{
    let mut p = FP12::frombytes(&a.bytes).pow(&BIG::frombytes(&k.bytes));
    p.reduce();
    let mut out = [0u8; 576];
    p.tobytes(&mut out);
    Gt { bytes: out }
}

/// `pair::ate`, `FP12::reduce` and `tobytes`: the Miller loop of the pairing.
#[verifier::external_body]
pub(crate) fn pair_ate(q: &G2, p: &G1) -> (r: Gt)
    ensures
        r@ == ate_value(q@, p@),
{
    let mut v = pair::ate(&ECP2::frombytes(&q.bytes), &ECP::frombytes(&p.bytes));
    v.reduce();
    let mut out = [0u8; 576];
    v.tobytes(&mut out);
    Gt { bytes: out }
}

/// `pair::fexp`, `FP12::reduce` and `tobytes`: the final exponentiation of the pairing.
#[verifier::external_body]
pub(crate) fn pair_fexp(m: &Gt) -> (r: Gt)
    ensures
        r@ == fexp_value(m@),
{
    let mut v = pair::fexp(&FP12::frombytes(&m.bytes));
    v.reduce();
    let mut out = [0u8; 576];
    v.tobytes(&mut out);
    Gt { bytes: out }
}

/// `HASH256::process_array` and `HASH256::hash`: the SHA-256 digest of a byte string.
#[verifier::external_body]
pub(crate) fn sha256(data: &[u8]) -> (r: [u8; 32])
    ensures
        r@ == sha256_value(data@),
{
    let mut h = HASH256::new();
    h.process_array(data);
    h.hash()
}

// ---------------------------------------------------------------------------
// Encodings
// ---------------------------------------------------------------------------
/// The number that stands for an encoding in the table of a search: its last eight bytes.
pub open spec fn tag_of(s: Seq<u8>) -> u64 {
    if s.len() < 8 {
        0
    } else {
        let n = s.len() as int;
        (s[n - 1] as u64) | ((s[n - 2] as u64) << 8) | ((s[n - 3] as u64) << 16) | ((s[n - 4] as u64)
            << 24) | ((s[n - 5] as u64) << 32) | ((s[n - 6] as u64) << 40) | ((s[n - 7] as u64)
            << 48) | ((s[n - 8] as u64) << 56)
    }
}

/// Computes the tag of an encoding.
pub fn tag_bytes(a: &[u8]) -> (r: u64)
    ensures
        r == tag_of(a@),
{
    let n: usize = a.len();
    if n < 8 {
        0
    } else {
        (a[n - 1] as u64) | ((a[n - 2] as u64) << 8) | ((a[n - 3] as u64) << 16) | ((a[n - 4] as u64)
            << 24) | ((a[n - 5] as u64) << 32) | ((a[n - 6] as u64) << 40) | ((a[n - 7] as u64)
            << 48) | ((a[n - 8] as u64) << 56)
    }
}

/// Whether two byte strings are the same.
pub fn bytes_equal(a: &[u8], b: &[u8]) -> (r: bool)
    ensures
        r == (a@ == b@),
{
    if a.len() != b.len() {
        return false;
    }
    let mut i: usize = 0;
    while i < a.len()
        invariant
            a.len() == b.len(),
            i <= a.len(),
            forall|k: int| 0 <= k < i ==> a@[k] == b@[k],
        decreases a.len() - i,
    {
        if a[i] != b[i] {
            return false;
        }
        i = i + 1;
    }
    assert(a@ =~= b@);
    true
}

/// What the search for a discrete logarithm needs of a group: its elements have canonical
/// encodings, and the operations are functions of those encodings.
pub trait Group: Sized + Copy {
    /// The canonical encoding of an element.
    spec fn enc(&self) -> Seq<u8>;

    /// The encoding of the neutral element.
    spec fn unit_enc() -> Seq<u8>;

    /// The encoding of the composition of two elements.
    spec fn op_enc(a: Seq<u8>, b: Seq<u8>) -> Seq<u8>;

    /// The encoding of the inverse of an element.
    spec fn inv_enc(a: Seq<u8>) -> Seq<u8>;

    /// The encoding of an element composed `k` times with itself, as the library computes it.
    spec fn pow_enc(a: Seq<u8>, k: nat) -> Seq<u8>;

    fn unit() -> (r: Self)
        ensures
            r.enc() == Self::unit_enc(),
    ;

    fn op(&self, other: &Self) -> (r: Self)
        ensures
            r.enc() == Self::op_enc(self.enc(), other.enc()),
    ;

    fn inv(&self) -> (r: Self)
        ensures
            r.enc() == Self::inv_enc(self.enc()),
    ;

    fn pow(&self, k: &BigNum) -> (r: Self)
        ensures
            r.enc() == Self::pow_enc(self.enc(), k@),
    ;

    fn same(&self, other: &Self) -> (r: bool)
        ensures
            r == (self.enc() == other.enc()),
    ;

    fn tag(&self) -> (r: u64)
        ensures
            r == tag_of(self.enc()),
    ;
}

impl G1 {
    /// The point that the curve library gave: the neutral element where it said so, else the
    /// point with the bytes it wrote.
    pub(crate) fn settle(raw: (bool, [u8; 97])) -> (r: G1)
        ensures
            r@ == g1_canonical((raw.0, raw.1@)),
    {
        if raw.0 {
            G1::new()
        } else {
            G1 { bytes: raw.1 }
        }
    }

    /// The neutral element.
    pub fn new() -> (r: G1)
        ensures
            r@ == g1_identity(),
    {
        let mut bytes = [0u8; 97];
        let ghost zeros = bytes@;
        assert(zeros == vstd::array::spec_array_fill_for_copy_type::<u8, 97>(0u8)@);
        assert(forall|i: int| 0 <= i < 97 ==> zeros[i] == 0u8);
        bytes[0] = 4;
        let ghost marked = bytes@;
        assert(marked == zeros.update(0, 4u8));
        bytes[96] = 1;
        assert(bytes@ == marked.update(96, 1u8));
        assert(bytes@ =~= g1_identity());
        G1 { bytes }
    }

    /// The generator.
    pub fn generator() -> (r: G1)
        ensures
            r@ == G1_GENERATOR@,
    {
        G1 { bytes: G1_GENERATOR }
    }

    /// The point with the given encoding.
    pub fn from_bytes(bytes: [u8; 97]) -> (r: G1)
        ensures
            r@ == bytes@,
    {
        G1 { bytes }
    }

    /// The encoding of the point.
    pub fn to_bytes(&self) -> (r: [u8; 97])
        ensures
            r@ == self@,
    {
        self.bytes
    }

    /// The sum of two points.
    pub fn add(&self, other: &G1) -> (r: G1)
        ensures
            r@ == g1_sum(self@, other@),
    {
        G1::settle(ecp_add(self, other))
    }

    /// The negative of the point.
    pub fn neg(&self) -> (r: G1)
        ensures
            r@ == g1_negation(self@),
    {
        G1::settle(ecp_neg(self))
    }

    /// The difference of two points: the first plus the negative of the second.
    pub fn sub(&self, other: &G1) -> (r: G1)
        ensures
            r@ == g1_sum(self@, g1_negation(other@)),
    {
        let minus = G1::settle(ecp_neg(other));
        G1::settle(ecp_add(self, &minus))
    }

    /// The point multiplied by a scalar.
    pub fn mul(&self, k: &BigNum) -> (r: G1)
        ensures
            r@ == g1_scaled(self@, k@),
    {
        G1::settle(ecp_mul(self, k))
    }

    /// The compressed encoding of the point.
    pub fn to_compressed(&self) -> (r: [u8; 49])
        ensures
            r@ == g1_compressed(self@),
    {
        ecp_compress(self)
    }

    /// Whether two points are the same.
    pub fn equals(&self, other: &G1) -> (r: bool)
        ensures
            r == (self@ == other@),
    {
        bytes_equal(self.bytes.as_slice(), other.bytes.as_slice())
    }
}

impl G2 {
    /// The point that the curve library gave: the neutral element where it said so, else the
    /// point with the bytes it wrote.
    pub(crate) fn settle(raw: (bool, [u8; 193])) -> (r: G2)
        ensures
            r@ == g2_canonical((raw.0, raw.1@)),
    {
        if raw.0 {
            G2::new()
        } else {
            G2 { bytes: raw.1 }
        }
    }

    /// The neutral element.
    pub fn new() -> (r: G2)
        ensures
            r@ == g2_identity(),
    {
        let mut bytes = [0u8; 193];
        let ghost zeros = bytes@;
        assert(zeros == vstd::array::spec_array_fill_for_copy_type::<u8, 193>(0u8)@);
        assert(forall|i: int| 0 <= i < 193 ==> zeros[i] == 0u8);
        bytes[0] = 4;
        let ghost marked = bytes@;
        assert(marked == zeros.update(0, 4u8));
        bytes[192] = 1;
        assert(bytes@ == marked.update(192, 1u8));
        assert(bytes@ =~= g2_identity());
        G2 { bytes }
    }

    /// The generator.
    pub fn generator() -> (r: G2)
        ensures
            r@ == G2_GENERATOR@,
    {
        G2 { bytes: G2_GENERATOR }
    }

    /// The point with the given encoding.
    pub fn from_bytes(bytes: [u8; 193]) -> (r: G2)
        ensures
            r@ == bytes@,
    {
        G2 { bytes }
    }

    /// The encoding of the point.
    pub fn to_bytes(&self) -> (r: [u8; 193])
        ensures
            r@ == self@,
    {
        self.bytes
    }

    /// The sum of two points.
    pub fn add(&self, other: &G2) -> (r: G2)
        ensures
            r@ == g2_sum(self@, other@),
    {
        G2::settle(ecp2_add(self, other))
    }

    /// The negative of the point.
    pub fn neg(&self) -> (r: G2)
        ensures
            r@ == g2_negation(self@),
    {
        G2::settle(ecp2_neg(self))
    }

    /// The point multiplied by a scalar.
    pub fn mul(&self, k: &BigNum) -> (r: G2)
        ensures
            r@ == g2_scaled(self@, k@),
    {
        G2::settle(ecp2_mul(self, k))
    }

    /// Whether two points are the same.
    pub fn equals(&self, other: &G2) -> (r: bool)
        ensures
            r == (self@ == other@),
    {
        bytes_equal(self.bytes.as_slice(), other.bytes.as_slice())
    }
}

impl Gt {
    /// The neutral element.
    pub fn new() -> (r: Gt)
        ensures
            r@ == gt_identity(),
    {
        let mut bytes = [0u8; 576];
        let ghost zeros = bytes@;
        assert(zeros == vstd::array::spec_array_fill_for_copy_type::<u8, 576>(0u8)@);
        assert(forall|i: int| 0 <= i < 576 ==> zeros[i] == 0u8);
        bytes[575] = 1;
        assert(bytes@ == zeros.update(575, 1u8));
        assert(bytes@ =~= gt_identity());
        Gt { bytes }
    }

    /// The element with the given encoding.
    pub fn from_bytes(bytes: [u8; 576]) -> (r: Gt)
        ensures
            r@ == bytes@,
    {
        Gt { bytes }
    }

    /// The encoding of the element.
    pub fn to_bytes(&self) -> (r: [u8; 576])
        ensures
            r@ == self@,
    {
        self.bytes
    }

    /// The product of two elements.
    pub fn mul(&self, other: &Gt) -> (r: Gt)
        ensures
            r@ == gt_product(self@, other@),
    {
        fp12_mul(self, other)
    }

    /// The inverse of the element.
    pub fn inverse(&self) -> (r: Gt)
        ensures
            r@ == gt_inverted(self@),
    {
        fp12_inverse(self)
    }

    /// The element raised to a scalar.
    pub fn pow(&self, k: &BigNum) -> (r: Gt)
        ensures
            r@ == gt_power(self@, k@),
    {
        fp12_pow(self, k)
    }

    /// Whether two elements are the same.
    pub fn equals(&self, other: &Gt) -> (r: bool)
        ensures
            r == (self@ == other@),
    {
        bytes_equal(self.bytes.as_slice(), other.bytes.as_slice())
    }
}

/// The Miller loop of the pairing.
pub fn ate(q: &G2, p: &G1) -> (r: Gt)
    ensures
        r@ == ate_value(q@, p@),
{
    pair_ate(q, p)
}

/// The final exponentiation of the pairing.
pub fn fexp(m: &Gt) -> (r: Gt)
    ensures
        r@ == fexp_value(m@),
{
    pair_fexp(m)
}

/// The pairing of a point of the second group with one of the first.
pub fn pairing(q: &G2, p: &G1) -> (r: Gt)
    ensures
        r@ == pairing_value(q@, p@),
{
    pair_fexp(&pair_ate(q, p))
}

impl Group for G1 {
    open spec fn enc(&self) -> Seq<u8> {
        self@
    }

    open spec fn unit_enc() -> Seq<u8> {
        g1_identity()
    }

    open spec fn op_enc(a: Seq<u8>, b: Seq<u8>) -> Seq<u8> {
        g1_sum(a, b)
    }

    open spec fn inv_enc(a: Seq<u8>) -> Seq<u8> {
        g1_negation(a)
    }

    open spec fn pow_enc(a: Seq<u8>, k: nat) -> Seq<u8> {
        g1_scaled(a, k)
    }

    fn unit() -> (r: Self) {
        G1::new()
    }

    fn op(&self, other: &Self) -> (r: Self) {
        G1::settle(ecp_add(self, other))
    }

    fn inv(&self) -> (r: Self) {
        G1::settle(ecp_neg(self))
    }

    fn pow(&self, k: &BigNum) -> (r: Self) {
        G1::settle(ecp_mul(self, k))
    }

    fn same(&self, other: &Self) -> (r: bool) {
        self.equals(other)
    }

    fn tag(&self) -> (r: u64) {
        tag_bytes(self.bytes.as_slice())
    }
}

impl Group for G2 {
    open spec fn enc(&self) -> Seq<u8> {
        self@
    }

    open spec fn unit_enc() -> Seq<u8> {
        g2_identity()
    }

    open spec fn op_enc(a: Seq<u8>, b: Seq<u8>) -> Seq<u8> {
        g2_sum(a, b)
    }

    open spec fn inv_enc(a: Seq<u8>) -> Seq<u8> {
        g2_negation(a)
    }

    open spec fn pow_enc(a: Seq<u8>, k: nat) -> Seq<u8> {
        g2_scaled(a, k)
    }

    fn unit() -> (r: Self) {
        G2::new()
    }

    fn op(&self, other: &Self) -> (r: Self) {
        self.add(other)
    }

    fn inv(&self) -> (r: Self) {
        self.neg()
    }

    fn pow(&self, k: &BigNum) -> (r: Self) {
        self.mul(k)
    }

    fn same(&self, other: &Self) -> (r: bool) {
        self.equals(other)
    }

    fn tag(&self) -> (r: u64) {
        tag_bytes(self.bytes.as_slice())
    }
}

impl Group for Gt {
    open spec fn enc(&self) -> Seq<u8> {
        self@
    }

    open spec fn unit_enc() -> Seq<u8> {
        gt_identity()
    }

    open spec fn op_enc(a: Seq<u8>, b: Seq<u8>) -> Seq<u8> {
        gt_product(a, b)
    }

    open spec fn inv_enc(a: Seq<u8>) -> Seq<u8> {
        gt_inverted(a)
    }

    open spec fn pow_enc(a: Seq<u8>, k: nat) -> Seq<u8> {
        gt_power(a, k)
    }

    fn unit() -> (r: Self) {
        Gt::new()
    }

    fn op(&self, other: &Self) -> (r: Self) {
        fp12_mul(self, other)
    }

    fn inv(&self) -> (r: Self) {
        fp12_inverse(self)
    }

    fn pow(&self, k: &BigNum) -> (r: Self) {
        fp12_pow(self, k)
    }

    fn same(&self, other: &Self) -> (r: bool) {
        self.equals(other)
    }

    fn tag(&self) -> (r: u64) {
        tag_bytes(self.bytes.as_slice())
    }
}

/// The encodings of a vector of points of the first group.
pub open spec fn g1_encodings(v: Seq<G1>) -> Seq<Seq<u8>> {
    Seq::new(v.len(), |i: int| v[i]@)
}

/// The encodings of a vector of points of the second group.
pub open spec fn g2_encodings(v: Seq<G2>) -> Seq<Seq<u8>> {
    Seq::new(v.len(), |i: int| v[i]@)
}

/// The base of the search of decryption: the pairing of the two generators.
pub open spec fn pairing_base() -> Seq<u8> {
    pairing_value(G2_GENERATOR@, G1_GENERATOR@)
}

} // verus!
