pub use crate::group::G1Vector;
pub use crate::group::G2Vector;
pub use crate::group::Gt;
pub use crate::group::G1;
pub use crate::group::G2;
use miracl_core::bls12381::big::BIG;
use miracl_core::bls12381::rom;
use num_integer::Integer;
use num_integer::Roots;
use num_traits::ToPrimitive;
use vstd::arithmetic::power::pow;
use vstd::prelude::*;

verus! {

/// Number of bytes in the fixed-width encoding of a scalar.
pub const MB: usize = 48;

/// The number that a byte sequence denotes when read most significant byte first.
pub open spec fn be_value(s: Seq<u8>) -> nat
    decreases s.len(),
{
    if s.len() == 0 {
        0
    } else {
        be_value(s.drop_last()) * 256 + s.last() as nat
    }
}

/// The integer that a byte sequence denotes in two's complement, most significant byte first.
pub open spec fn signed_be_value(s: Seq<u8>) -> int {
    if s.len() > 0 && s[0] >= 128 {
        be_value(s) - pow(256, s.len())
    } else {
        be_value(s) as int
    }
}

/// One more than the largest value a `BigNum` can hold.
pub open spec fn big_limit() -> nat {
    pow(256, 48) as nat
}

/// `n` has no divisor other than one and itself.
pub open spec fn is_prime(n: nat) -> bool {
    n >= 2 && forall|d: nat| 2 <= d < n ==> #[trigger] (n % d) != 0
}

/// The order of the three pairing groups of the curve BLS12-381.
pub open spec fn curve_order_value() -> nat {
    0x73eda753299d7d483339d80809a1d80553bda402fffe5bfeffffffff00000001nat
}

/// Remainder of a division that rounds towards zero, for a positive divisor.
pub open spec fn truncated_rem(x: int, m: int) -> int {
    if x >= 0 {
        x % m
    } else {
        -((-x) % m)
    }
}

/// A non-negative integer below `2^384`, held as 48 big-endian bytes.
#[derive(Clone, Copy, Debug, PartialEq, Eq)]
pub struct BigNum {
    pub(crate) bytes: [u8; 48],
}

impl View for BigNum {
    type V = nat;

    closed spec fn view(&self) -> nat {
        be_value(self.bytes@)
    }
}

/// An integer of any size and sign, held as big-endian two's complement bytes.
#[derive(Clone, Debug, PartialEq, Eq)]
pub struct BigInt {
    pub(crate) bytes: Vec<u8>,
}

impl View for BigInt {
    type V = int;

    closed spec fn view(&self) -> int {
        signed_be_value(self.bytes@)
    }
}

pub proof fn lemma_be_value_bound(s: Seq<u8>)
    ensures
        be_value(s) < pow(256, s.len()),
    decreases s.len(),
{
    if s.len() == 0 {
        vstd::arithmetic::power::lemma_pow0(256);
    } else {
        lemma_be_value_bound(s.drop_last());
        vstd::arithmetic::power::lemma_pow_positive(256, (s.len() - 1) as nat);
        assert(pow(256, s.len()) == 256 * pow(256, (s.len() - 1) as nat)) by {
            reveal(pow);
        }
    }
}

// ---------------------------------------------------------------------------
// Fixed-width scalars
// ---------------------------------------------------------------------------
/// `BIG::new_int`: the scalar with the value of a machine integer.
#[verifier::external_body]
pub(crate) fn big_new_int(x: isize) -> (r: BigNum)
    requires
        x >= 0,
    ensures
        r@ == x,
{
    let mut out = [0u8; 48];
    BIG::new_int(x).tobytes(&mut out);
    BigNum { bytes: out }
}

/// `rom::CURVE_ORDER`: the group order of BLS12-381, which is a prime number.
#[verifier::external_body]
pub(crate) fn big_curve_order() -> (r: BigNum)
    ensures
        r@ == curve_order_value(),
        is_prime(r@),
{
    let mut out = [0u8; 48];
    BIG::new_ints(&rom::CURVE_ORDER).tobytes(&mut out);
    BigNum { bytes: out }
}

/// `BIG::modmul`: the product of `a` and `b`, reduced modulo `m`.
#[verifier::external_body]
pub(crate) fn big_modmul(a: &BigNum, b: &BigNum, m: &BigNum) -> (r: BigNum)
    requires
        m@ > 0,
    ensures
        r@ == (a@ * b@) % m@,
{
    let p = BIG::modmul(&BIG::frombytes(&a.bytes), &BIG::frombytes(&b.bytes), &BIG::frombytes(&m.bytes));
    let mut out = [0u8; 48];
    p.tobytes(&mut out);
    BigNum { bytes: out }
}

/// `BIG::modadd`: the sum of `a` and `b`, reduced modulo `m`.
#[verifier::external_body]
pub(crate) fn big_modadd(a: &BigNum, b: &BigNum, m: &BigNum) -> (r: BigNum)
    requires
        m@ > 0,
    ensures
        r@ == (a@ + b@) % m@,
{
    let p = BIG::modadd(&BIG::frombytes(&a.bytes), &BIG::frombytes(&b.bytes), &BIG::frombytes(&m.bytes));
    let mut out = [0u8; 48];
    p.tobytes(&mut out);
    BigNum { bytes: out }
}

/// `BIG::modneg`: `m` minus the remainder of `a` modulo `m`; this is `m` itself, not zero,
/// where `m` divides `a`.
#[verifier::external_body]
pub(crate) fn big_modneg(a: &BigNum, m: &BigNum) -> (r: BigNum)
    requires
        m@ > 0,
    ensures
        r@ == m@ - a@ % m@,
{
    let p = BIG::modneg(&BIG::frombytes(&a.bytes), &BIG::frombytes(&m.bytes));
    let mut out = [0u8; 48];
    p.tobytes(&mut out);
    BigNum { bytes: out }
}

/// `BIG::invmodp`: the inverse of `a` modulo the prime `p`. The binary algorithm behind it
/// ends only where `a` and `p` are coprime, hence the two conditions.
#[verifier::external_body]
pub(crate) fn big_invmodp(a: &BigNum, p: &BigNum) -> (r: BigNum)
    requires
        is_prime(p@),
        a@ % p@ != 0,
    ensures
        r@ < p@,
        (a@ * r@) % p@ == 1,
{
    let mut x = BIG::frombytes(&a.bytes);
    x.invmodp(&BIG::frombytes(&p.bytes));
    let mut out = [0u8; 48];
    x.tobytes(&mut out);
    BigNum { bytes: out }
}

/// `BIG::comp`: -1, 0 or 1 as `a` is below, equal to or above `b`.
#[verifier::external_body]
pub(crate) fn big_comp(a: &BigNum, b: &BigNum) -> (r: isize)
    ensures
        a@ < b@ ==> r == -1,
        a@ == b@ ==> r == 0,
        a@ > b@ ==> r == 1,
{
    BIG::comp(&BIG::frombytes(&a.bytes), &BIG::frombytes(&b.bytes))
}

/// `BIG::plus`: the sum of `a` and `b`, where it fits.
#[verifier::external_body]
pub(crate) fn big_plus(a: &BigNum, b: &BigNum) -> (r: BigNum)
    requires
        a@ + b@ < big_limit(),
    ensures
        r@ == a@ + b@,
{
    let mut out = [0u8; 48];
    BIG::frombytes(&a.bytes).plus(&BIG::frombytes(&b.bytes)).tobytes(&mut out);
    BigNum { bytes: out }
}

/// `BIG::minus`: the difference of `a` and `b`, where it is not negative.
#[verifier::external_body]
pub(crate) fn big_minus(a: &BigNum, b: &BigNum) -> (r: BigNum)
    requires
        a@ >= b@,
    ensures
        r@ == a@ - b@,
{
    let mut out = [0u8; 48];
    BIG::frombytes(&a.bytes).minus(&BIG::frombytes(&b.bytes)).tobytes(&mut out);
    BigNum { bytes: out }
}

/// `BigInt::from_bytes_be`: the non-negative integer that the bytes denote, most significant
/// first.
#[verifier::external_body]
pub(crate) fn int_from_bytes_be(bytes: &[u8]) -> (r: BigInt)
    ensures
        r@ == be_value(bytes@),
{
    BigInt { bytes: num_bigint::BigInt::from_bytes_be(num_bigint::Sign::Plus, bytes).to_signed_bytes_be() }
}

/// `BigInt::to_bytes_be`: the bytes of the size of the integer, most significant first.
#[verifier::external_body]
pub(crate) fn int_magnitude_bytes(x: &BigInt) -> (r: Vec<u8>)
    ensures
        be_value(r@) == if x@ >= 0 {
            x@
        } else {
            -x@
        },
{
    num_bigint::BigInt::from_signed_bytes_be(&x.bytes).to_bytes_be().1
}

/// The same number as an integer of any size.
pub(crate) fn big_to_bigint(a: &BigNum) -> (r: BigInt)
    ensures
        r@ == a@,
{
    int_from_bytes_be(a.bytes.as_slice())
}

/// Bytes that are zero in front of a byte string do not change the number it denotes.
pub proof fn lemma_be_value_leading_zeros(z: Seq<u8>, r: Seq<u8>)
    requires
        forall|i: int| 0 <= i < z.len() ==> z[i] == 0,
    ensures
        be_value(z + r) == be_value(r),
    decreases r.len(),
{
    if r.len() == 0 {
        assert(z + r =~= z);
        lemma_be_value_zeros(z);
    } else {
        assert((z + r).drop_last() =~= z + r.drop_last());
        lemma_be_value_leading_zeros(z, r.drop_last());
    }
}

/// All bytes zero denote zero.
pub proof fn lemma_be_value_zeros(s: Seq<u8>)
    requires
        forall|i: int| 0 <= i < s.len() ==> s[i] == 0,
    ensures
        be_value(s) == 0,
    decreases s.len(),
{
    if s.len() > 0 {
        lemma_be_value_zeros(s.drop_last());
    }
}

/// A byte string that does not start with zero denotes a number with as many digits.
pub proof fn lemma_be_value_large(s: Seq<u8>)
    requires
        s.len() > 0,
        s[0] != 0,
    ensures
        be_value(s) >= pow(256, (s.len() - 1) as nat),
    decreases s.len(),
{
    if s.len() == 1 {
        vstd::arithmetic::power::lemma_pow0(256);
        assert(s.drop_last().len() == 0);
        assert(be_value(s.drop_last()) == 0);
        assert(s.last() == s[0]);
        assert(be_value(s) == s[0]);
    } else {
        lemma_be_value_large(s.drop_last());
        assert(pow(256, (s.len() - 1) as nat) == 256 * pow(256, (s.len() - 2) as nat)) by {
            reveal(pow);
        }
    }
}

/// The scalar that the bytes denote, most significant first, or `None` where the number is
/// too large for a scalar.
pub fn big_from_be_bytes(digits: &[u8]) -> (r: Option<BigNum>)
    ensures
        match r {
            Some(v) => v@ == be_value(digits@),
            None => be_value(digits@) >= big_limit(),
        },
{
    let n: usize = digits.len();
    let mut start: usize = 0;
    while start < n && digits[start] == 0
        invariant
            start <= n,
            n == digits@.len(),
            forall|i: int| 0 <= i < start ==> digits@[i] == 0,
        decreases n - start,
    {
        start = start + 1;
    }
    let len: usize = n - start;
    let ghost rest = digits@.subrange(start as int, n as int);
    proof {
        assert(digits@ =~= digits@.subrange(0, start as int) + rest);
        lemma_be_value_leading_zeros(digits@.subrange(0, start as int), rest);
    }
    if len > 48 {
        proof {
            assert(rest[0] == digits@[start as int]);
            lemma_be_value_large(rest);
            vstd::arithmetic::power::lemma_pow_increases(256, 48, (len - 1) as nat);
            vstd::arithmetic::power::lemma_pow_positive(256, 48);
            assert(be_value(digits@) >= pow(256, 48));
        }
        return None;
    }
    let mut out = [0u8; 48];
    let ghost zeros = out@;
    assert(zeros == vstd::array::spec_array_fill_for_copy_type::<u8, 48>(0u8)@);
    assert(forall|i: int| 0 <= i < 48 ==> zeros[i] == 0u8);
    let offset: usize = 48 - len;
    let mut k: usize = 0;
    while k < len
        invariant
            k <= len,
            len <= 48,
            offset == 48 - len,
            start + len == n,
            n == digits@.len(),
            forall|q: int| 0 <= q < offset ==> out@[q] == 0,
            forall|q: int|
                offset <= q < offset + k ==> #[trigger] out@[q] == digits@[start + q - offset],
        decreases len - k,
    {
        out[offset + k] = digits[start + k];
        k = k + 1;
    }
    proof {
        let front = out@.subrange(0, offset as int);
        assert(out@ =~= front + rest);
        lemma_be_value_leading_zeros(front, rest);
    }
    Some(BigNum { bytes: out })
}

/// The same number as a fixed-width scalar.
pub(crate) fn big_from_bigint(x: &BigInt) -> (r: BigNum)
    requires
        0 <= x@ < big_limit(),
    ensures
        r@ == x@,
{
    let digits = int_magnitude_bytes(x);
    big_from_be_bytes(digits.as_slice()).unwrap()
}

impl BigNum {
    /// Every scalar is below the limit of its encoding.
    pub proof fn lemma_bounded(&self)
        ensures
            self@ < big_limit(),
    {
        lemma_be_value_bound(self.bytes@);
    }

    /// The scalar zero.
    pub fn new() -> (r: BigNum)
        ensures
            r@ == 0,
    {
        big_new_int(0)
    }

    /// The scalar with the value of `x`.
    pub fn from_u64(x: u64) -> (r: BigNum)
        ensures
            r@ == x,
    {
        proof {
            lemma_limit_above_u64();
        }
        big_from_bigint(&int_from_u64(x))
    }

    /// The scalar with the value of `x`.
    pub fn new_int(x: isize) -> (r: BigNum)
        requires
            x >= 0,
        ensures
            r@ == x,
    {
        big_new_int(x)
    }

    /// The scalar that 48 bytes denote, most significant first.
    pub fn from_bytes(bytes: [u8; 48]) -> (r: BigNum)
        ensures
            r@ == be_value(bytes@),
    {
        BigNum { bytes }
    }

    /// The 48 bytes of the scalar, most significant first.
    pub fn to_bytes(&self) -> (r: [u8; 48])
        ensures
            be_value(r@) == self@,
    {
        self.bytes
    }

    /// Whether the scalar is zero.
    pub fn iszilch(&self) -> (r: bool)
        ensures
            r == (self@ == 0),
    {
        big_comp(self, &big_new_int(0)) == 0
    }

    /// -1, 0 or 1 as `a` is below, equal to or above `b`.
    pub fn comp(a: &BigNum, b: &BigNum) -> (r: isize)
        ensures
            a@ < b@ ==> r == -1,
            a@ == b@ ==> r == 0,
            a@ > b@ ==> r == 1,
    {
        big_comp(a, b)
    }

    /// The product of `a` and `b` modulo `m`.
    pub fn modmul(a: &BigNum, b: &BigNum, m: &BigNum) -> (r: BigNum)
        requires
            m@ > 0,
        ensures
            r@ == (a@ * b@) % m@,
    {
        big_modmul(a, b, m)
    }

    /// The sum of `a` and `b` modulo `m`.
    pub fn modadd(a: &BigNum, b: &BigNum, m: &BigNum) -> (r: BigNum)
        requires
            m@ > 0,
        ensures
            r@ == (a@ + b@) % m@,
    {
        big_modadd(a, b, m)
    }

    /// The canonical representative of `-a` modulo `m`.
    pub fn modneg(a: &BigNum, m: &BigNum) -> (r: BigNum)
        requires
            m@ > 0,
        ensures
            r@ == (-(a@ as int)) % (m@ as int),
            r@ < m@,
    {
        let raw = big_modneg(a, m);
        let r = big_modadd(&raw, &big_new_int(0), m);
        proof {
            let ai = a@ as int;
            let mi = m@ as int;
            vstd::arithmetic::div_mod::lemma_mod_bound(ai, mi);
            vstd::arithmetic::div_mod::lemma_mod_bound(-ai, mi);
            vstd::arithmetic::div_mod::lemma_mod_bound(mi - ai % mi, mi);
            // m - a % m is congruent to -a
            vstd::arithmetic::div_mod::lemma_fundamental_div_mod(ai, mi);
            assert((mi - ai % mi) == -ai + mi * (1 + ai / mi)) by (nonlinear_arith)
                requires
                    ai == mi * (ai / mi) + ai % mi,
            ;
            vstd::arithmetic::div_mod::lemma_mod_multiples_vanish(1 + ai / mi, -ai, mi);
        }
        r
    }

    /// The inverse of `a` modulo the prime `p`.
    pub fn invmodp(a: &BigNum, p: &BigNum) -> (r: BigNum)
        requires
            is_prime(p@),
            a@ % p@ != 0,
        ensures
            r@ < p@,
            (a@ * r@) % p@ == 1,
    {
        big_invmodp(a, p)
    }

    /// The same number as an integer of any size.
    pub fn to_bigint(&self) -> (r: BigInt)
        ensures
            r@ == self@,
    {
        big_to_bigint(self)
    }

    /// The scalar with the value of `x`, or `None` where `x` is negative or too large.
    pub fn from_bigint(x: &BigInt) -> (r: Option<BigNum>)
        ensures
            match r {
                Some(v) => v@ == x@,
                None => x@ < 0 || x@ >= big_limit(),
            },
    {
        if int_lt(x, &int_from_i64(0)) {
            return None;
        }
        let digits = int_magnitude_bytes(x);
        big_from_be_bytes(digits.as_slice())
    }
}

/// Every `u64` is below the limit of a scalar.
pub proof fn lemma_limit_above_u64()
    ensures
        big_limit() > u64::MAX,
{
    vstd::arithmetic::power::lemma_pow_increases(256, 8, 48);
    assert(pow(256, 8) == 256 * 256 * 256 * 256 * 256 * 256 * 256 * 256) by {
        reveal_with_fuel(pow, 9);
    }
}

/// The group order is below the limit of a scalar.
pub proof fn lemma_order_below_limit()
    ensures
        curve_order_value() < big_limit(),
{
    assert(pow(256, 8) == 0x1_0000_0000_0000_0000) by {
        reveal_with_fuel(pow, 9);
    }
    vstd::arithmetic::power::lemma_pow_adds(256, 8, 8);
    vstd::arithmetic::power::lemma_pow_adds(256, 16, 16);
    vstd::arithmetic::power::lemma_pow_increases(256, 32, 48);
    let pow8 = pow(256, 8);
    let pow16 = pow(256, 16);
    let pow32 = pow(256, 32);
    assert(pow16 == 0x1_0000_0000_0000_0000_0000_0000_0000_0000) by (nonlinear_arith)
        requires
            pow16 == pow8 * pow8,
            pow8 == 0x1_0000_0000_0000_0000,
    ;
    assert(pow32 == 0x1_0000_0000_0000_0000_0000_0000_0000_0000_0000_0000_0000_0000_0000_0000_0000_0000)
        by (nonlinear_arith)
        requires
            pow32 == pow16 * pow16,
            pow16 == 0x1_0000_0000_0000_0000_0000_0000_0000_0000,
    ;
}

/// The order of the groups, as a scalar.
pub fn curve_order() -> (r: BigNum)
    ensures
        r@ == curve_order_value(),
        is_prime(r@),
{
    big_curve_order()
}

/// The modulus by which plaintext integers are reduced; it equals the group order.
pub fn modulus() -> (r: BigInt)
    ensures
        r@ == curve_order_value(),
{
    big_to_bigint(&big_curve_order())
}

// ---------------------------------------------------------------------------
// Integers of any size
// ---------------------------------------------------------------------------
/// `BigInt::from` for `i64`: the integer with the value of `x`.
#[verifier::external_body]
pub(crate) fn int_from_i64(x: i64) -> (r: BigInt)
    ensures
        r@ == x,
{
    BigInt { bytes: num_bigint::BigInt::from(x).to_signed_bytes_be() }
}

/// `BigInt::from_signed_bytes_be` and `to_signed_bytes_be`: the integer that the bytes denote
/// in two's complement, most significant byte first, in its shortest encoding.
#[verifier::external_body]
pub(crate) fn int_from_signed_bytes(bytes: &[u8]) -> (r: BigInt)
    ensures
        r@ == signed_be_value(bytes@),
{
    BigInt { bytes: num_bigint::BigInt::from_signed_bytes_be(bytes).to_signed_bytes_be() }
}

/// `BigInt::from` for `u64`: the integer with the value of `x`.
#[verifier::external_body]
pub(crate) fn int_from_u64(x: u64) -> (r: BigInt)
    ensures
        r@ == x,
{
    BigInt { bytes: num_bigint::BigInt::from(x).to_signed_bytes_be() }
}

/// The digits of an integer to the base sixteen, as the big-integer library writes them: in
/// lower case, most significant first, after a minus sign where the integer is negative.
pub uninterp spec fn radix16_text(x: int) -> Seq<u8>;

/// `BigInt::to_str_radix` with the radix sixteen: the text of the integer, as bytes.
#[verifier::external_body]
pub(crate) fn int_to_hex(x: &BigInt) -> (r: Vec<u8>)
    ensures
        r@ == radix16_text(x@),
{
    num_bigint::BigInt::from_signed_bytes_be(&x.bytes).to_str_radix(16).into_bytes()
}

/// `ToPrimitive::to_u64` of `BigInt`: the value as a `u64`, or `None` where it does not fit.
#[verifier::external_body]
pub(crate) fn int_to_u64(x: &BigInt) -> (r: Option<u64>)
    ensures
        match r {
            Some(v) => v == x@,
            None => x@ < 0 || x@ > u64::MAX,
        },
{
    num_bigint::BigInt::from_signed_bytes_be(&x.bytes).to_u64()
}

/// `Add` of `BigInt`: the sum.
#[verifier::external_body]
pub(crate) fn int_add(a: &BigInt, b: &BigInt) -> (r: BigInt)
    ensures
        r@ == a@ + b@,
{
    let s = num_bigint::BigInt::from_signed_bytes_be(&a.bytes) + num_bigint::BigInt::from_signed_bytes_be(&b.bytes);
    BigInt { bytes: s.to_signed_bytes_be() }
}

/// `Sub` of `BigInt`: the difference.
#[verifier::external_body]
pub(crate) fn int_sub(a: &BigInt, b: &BigInt) -> (r: BigInt)
    ensures
        r@ == a@ - b@,
{
    let s = num_bigint::BigInt::from_signed_bytes_be(&a.bytes) - num_bigint::BigInt::from_signed_bytes_be(&b.bytes);
    BigInt { bytes: s.to_signed_bytes_be() }
}

/// `Mul` of `BigInt`: the product.
#[verifier::external_body]
pub(crate) fn int_mul(a: &BigInt, b: &BigInt) -> (r: BigInt)
    ensures
        r@ == a@ * b@,
{
    let s = num_bigint::BigInt::from_signed_bytes_be(&a.bytes) * num_bigint::BigInt::from_signed_bytes_be(&b.bytes);
    BigInt { bytes: s.to_signed_bytes_be() }
}

/// `Rem` of `BigInt`: the remainder of the division that rounds towards zero; it has the
/// sign of `a`.
#[verifier::external_body]
pub(crate) fn int_rem(a: &BigInt, m: &BigInt) -> (r: BigInt)
    requires
        m@ > 0,
    ensures
        r@ == truncated_rem(a@, m@),
{
    let s = num_bigint::BigInt::from_signed_bytes_be(&a.bytes) % num_bigint::BigInt::from_signed_bytes_be(&m.bytes);
    BigInt { bytes: s.to_signed_bytes_be() }
}

/// `Integer::mod_floor` of `BigInt`: the remainder of the division that rounds down, which
/// for a positive modulus lies between zero and the modulus.
#[verifier::external_body]
pub(crate) fn int_mod_floor(a: &BigInt, m: &BigInt) -> (r: BigInt)
    requires
        m@ > 0,
    ensures
        r@ == a@ % m@,
{
    let s = num_bigint::BigInt::from_signed_bytes_be(&a.bytes).mod_floor(&num_bigint::BigInt::from_signed_bytes_be(&m.bytes));
    BigInt { bytes: s.to_signed_bytes_be() }
}

/// `Roots::sqrt` of `BigInt`: the square root, rounded down. It panics on a negative number.
#[verifier::external_body]
pub(crate) fn int_sqrt(a: &BigInt) -> (r: BigInt)
    requires
        a@ >= 0,
    ensures
        r@ >= 0,
        r@ * r@ <= a@,
        a@ < (r@ + 1) * (r@ + 1),
{
    BigInt { bytes: Roots::sqrt(&num_bigint::BigInt::from_signed_bytes_be(&a.bytes)).to_signed_bytes_be() }
}

/// `PartialOrd::lt` of `BigInt`: whether `a` is below `b`.
#[verifier::external_body]
pub(crate) fn int_lt(a: &BigInt, b: &BigInt) -> (r: bool)
    ensures
        r == (a@ < b@),
{
    num_bigint::BigInt::from_signed_bytes_be(&a.bytes) < num_bigint::BigInt::from_signed_bytes_be(&b.bytes)
}

/// -1, 0 or 1 as `a` is below, equal to or above `b`.
pub(crate) fn int_comp(a: &BigInt, b: &BigInt) -> (r: i8)
    ensures
        a@ < b@ ==> r == -1,
        a@ == b@ ==> r == 0,
        a@ > b@ ==> r == 1,
{
    if int_lt(a, b) {
        -1
    } else if int_lt(b, a) {
        1
    } else {
        0
    }
}

impl BigInt {
    /// The integer with the value of `x`.
    pub fn from_i64(x: i64) -> (r: BigInt)
        ensures
            r@ == x,
    {
        int_from_i64(x)
    }

    /// The integer that `bytes` denote in two's complement, most significant byte first.
    pub fn from_signed_bytes_be(bytes: &[u8]) -> (r: BigInt)
        ensures
            r@ == signed_be_value(bytes@),
    {
        int_from_signed_bytes(bytes)
    }

    /// The bytes of the integer in two's complement, most significant first.
    pub fn to_signed_bytes_be(&self) -> (r: Vec<u8>)
        ensures
            signed_be_value(r@) == self@,
    {
        let bytes = self.bytes.clone();
        assert(bytes@ =~= self.bytes@);
        bytes
    }

    /// The value as a `u64`, or `None` where it is negative or too large.
    pub fn to_u64(&self) -> (r: Option<u64>)
        ensures
            match r {
                Some(v) => v == self@,
                None => self@ < 0 || self@ > u64::MAX,
            },
    {
        int_to_u64(self)
    }

    /// A copy with the same value.
    pub fn copy(&self) -> (r: BigInt)
        ensures
            r@ == self@,
    {
        let bytes = self.bytes.clone();
        assert(bytes@ =~= self.bytes@);
        BigInt { bytes }
    }

    /// The sum of `self` and `other`.
    pub fn plus(&self, other: &BigInt) -> (r: BigInt)
        ensures
            r@ == self@ + other@,
    {
        int_add(self, other)
    }

    /// The difference of `self` and `other`.
    pub fn minus(&self, other: &BigInt) -> (r: BigInt)
        ensures
            r@ == self@ - other@,
    {
        int_sub(self, other)
    }

    /// The product of `self` and `other`.
    pub fn times(&self, other: &BigInt) -> (r: BigInt)
        ensures
            r@ == self@ * other@,
    {
        int_mul(self, other)
    }

    /// The remainder of `self` modulo a positive `m`, between zero and `m`.
    pub fn mod_floor(&self, m: &BigInt) -> (r: BigInt)
        requires
            m@ > 0,
        ensures
            r@ == self@ % m@,
    {
        int_mod_floor(self, m)
    }

    /// -1, 0 or 1 as `a` is below, equal to or above `b`.
    pub fn comp(a: &BigInt, b: &BigInt) -> (r: i8)
        ensures
            a@ < b@ ==> r == -1,
            a@ == b@ ==> r == 0,
            a@ > b@ ==> r == 1,
    {
        int_comp(a, b)
    }
}

} // verus!
