use crate::define::big_from_bigint;
use crate::define::int_from_bytes_be;
use crate::define::big_invmodp;
use crate::define::big_limit;
use crate::define::big_modneg;
use crate::define::be_value;
use crate::define::int_add;
use crate::define::int_mul;
use crate::define::int_sub;
use crate::define::BigInt;
use crate::utils::rand_utils::advanced;
use crate::utils::rand_utils::draw_seed;
use crate::utils::rand_utils::seeded_integer;
use crate::utils::rand_utils::seeded_scalar;
use crate::utils::rand_utils::RandUtilsRAND;
use crate::utils::rand_utils::RandUtilsRng;
use crate::utils::rand_utils::Sample;
use crate::utils::reduce;
use rand::RngCore;
use rand::SeedableRng;
use crate::define::big_modadd;
use crate::define::big_modmul;
use crate::define::big_new_int;
use crate::define::big_to_bigint;
use crate::define::int_from_i64;
use crate::define::int_mod_floor;
use crate::define::is_prime;
use crate::define::BigNum;
use crate::error::FeError;
use vstd::arithmetic::div_mod::lemma_add_mod_noop;
use vstd::arithmetic::div_mod::lemma_mod_bound;
use vstd::arithmetic::div_mod::lemma_mod_twice;
use vstd::arithmetic::div_mod::lemma_small_mod;
use vstd::prelude::*;

verus! {

/// Position of the element in row `i` and column `j` of a row-major store with `n_cols`
/// columns.
pub open spec fn flat(i: int, j: int, n_cols: int) -> int {
    i * n_cols + j
}

pub proof fn lemma_flat_in_range(i: int, j: int, n_rows: int, n_cols: int)
    requires
        0 <= i < n_rows,
        0 <= j < n_cols,
    ensures
        0 <= i * n_cols <= flat(i, j, n_cols) < n_rows * n_cols,
        flat(i, j, n_cols) / n_cols == i,
        flat(i, j, n_cols) % n_cols == j,
{
    assert(0 <= i * n_cols) by (nonlinear_arith)
        requires
            0 <= i,
            0 < n_cols,
    ;
    assert(i * n_cols + n_cols <= n_rows * n_cols) by (nonlinear_arith)
        requires
            i + 1 <= n_rows,
            0 < n_cols,
    ;
    vstd::arithmetic::div_mod::lemma_fundamental_div_mod_converse(i * n_cols + j, n_cols, i, j);
}

/// A matrix of scalars that are multiplied and added modulo `modulus`, stored row by row.
#[derive(Debug)]
pub struct BigNumMatrix {
    pub data: Vec<BigNum>,
    pub n_rows: usize,
    pub n_cols: usize,
    pub modulus: BigNum,
}

impl BigNumMatrix {
    /// The store holds one scalar for each position, and the modulus is not zero.
    pub open spec fn wf(&self) -> bool {
        &&& self.data@.len() == self.n_rows * self.n_cols
        &&& self.modulus@ > 0
    }

    /// The element in row `i` and column `j`.
    pub open spec fn at(&self, i: int, j: int) -> nat {
        self.data@[flat(i, j, self.n_cols as int)]@
    }

    /// The sum of the first `n` products of row `i` of `self` with column `k` of `other`.
    pub open spec fn dot(&self, other: &BigNumMatrix, i: int, k: int, n: nat) -> nat
        decreases n,
    {
        if n == 0 {
            0
        } else {
            self.dot(other, i, k, (n - 1) as nat) + self.at(i, n - 1) * other.at(n - 1, k)
        }
    }

    /// The zero matrix with `n_rows` rows and `n_cols` columns.
    pub fn new(n_rows: usize, n_cols: usize, modulus: &BigNum) -> (r: Self)
        requires
            n_rows * n_cols <= usize::MAX,
            modulus@ > 0,
        ensures
            r.wf(),
            r.n_rows == n_rows,
            r.n_cols == n_cols,
            r.modulus@ == modulus@,
            forall|i: int, j: int| 0 <= i < n_rows && 0 <= j < n_cols ==> r.at(i, j) == 0,
    {
        let len: usize = n_rows * n_cols;
        let zero = big_new_int(0);
        let data: Vec<BigNum> = vec![zero; len];
        let r = BigNumMatrix { data, n_rows, n_cols, modulus: *modulus };
        proof {
            assert forall|i: int, j: int| 0 <= i < n_rows && 0 <= j < n_cols implies r.at(i, j)
                == 0 by {
                lemma_flat_in_range(i, j, n_rows as int, n_cols as int);
            }
        }
        r
    }

    /// The matrix with the given machine integers, row by row, each reduced modulo `modulus`.
    /// It fails where `a` does not hold one integer for each position.
    pub fn new_ints(a: &[i64], n_rows: usize, n_cols: usize, modulus: &BigNum) -> (r: Result<
        Self,
        FeError,
    >)
        requires
            modulus@ > 0,
        ensures
            match r {
                Ok(m) => {
                    &&& a@.len() == n_rows * n_cols
                    &&& m.wf()
                    &&& m.n_rows == n_rows
                    &&& m.n_cols == n_cols
                    &&& m.modulus@ == modulus@
                    &&& forall|k: int|
                        0 <= k < a@.len() ==> (#[trigger] m.data@[k])@ == a@[k] as int
                            % modulus@ as int
                },
                Err(e) => e == FeError::DimensionMismatch && a@.len() != n_rows * n_cols,
            },
    {
        let given: usize = a.len();
        let len: usize = match n_rows.checked_mul(n_cols) {
            Some(len) => len,
            None => {
                return Err(FeError::DimensionMismatch);
            },
        };
        if len != given {
            return Err(FeError::DimensionMismatch);
        }
        let m_int = big_to_bigint(modulus);
        let mut data: Vec<BigNum> = Vec::new();
        let mut k: usize = 0;
        while k < len
            invariant
                k <= len,
                len == a@.len(),
                data@.len() == k,
                m_int@ == modulus@,
                modulus@ > 0,
                forall|q: int|
                    0 <= q < k ==> (#[trigger] data@[q])@ == a@[q] as int % modulus@ as int,
            decreases len - k,
        {
            let reduced = int_mod_floor(&int_from_i64(a[k]), &m_int);
            proof {
                lemma_mod_bound(a@[k as int] as int, modulus@ as int);
                modulus.lemma_bounded();
            }
            data.push(big_from_bigint(&reduced));
            k = k + 1;
        }
        Ok(BigNumMatrix { data, n_rows, n_cols, modulus: *modulus })
    }

    /// The matrix with the given scalars, row by row. It fails where `a` does not hold one
    /// scalar for each position.
    pub fn new_bigints(a: &[BigNum], n_rows: usize, n_cols: usize, modulus: &BigNum) -> (r:
        Result<Self, FeError>)
        requires
            modulus@ > 0,
        ensures
            match r {
                Ok(m) => {
                    &&& a@.len() == n_rows * n_cols
                    &&& m.wf()
                    &&& m.n_rows == n_rows
                    &&& m.n_cols == n_cols
                    &&& m.modulus@ == modulus@
                    &&& m.data@ == a@
                },
                Err(e) => e == FeError::DimensionMismatch && a@.len() != n_rows * n_cols,
            },
    {
        let given: usize = a.len();
        let len: usize = match n_rows.checked_mul(n_cols) {
            Some(len) => len,
            None => {
                return Err(FeError::DimensionMismatch);
            },
        };
        if len != given {
            return Err(FeError::DimensionMismatch);
        }
        let mut data: Vec<BigNum> = Vec::new();
        let mut k: usize = 0;
        while k < len
            invariant
                k <= len,
                len == a@.len(),
                data@ == a@.take(k as int),
            decreases len - k,
        {
            data.push(a[k]);
            assert(a@.take(k as int).push(a@[k as int]) =~= a@.take(k + 1));
            k = k + 1;
        }
        assert(a@.take(len as int) =~= a@);
        Ok(BigNumMatrix { data, n_rows, n_cols, modulus: *modulus })
    }

    /// The element in row `i` and column `j`.
    pub fn get_element(&self, i: usize, j: usize) -> (r: &BigNum)
        requires
            self.wf(),
            i < self.n_rows,
            j < self.n_cols,
        ensures
            r@ == self.at(i as int, j as int),
    {
        let total: usize = self.data.len();
        proof {
            lemma_flat_in_range(i as int, j as int, self.n_rows as int, self.n_cols as int);
        }
        &self.data[i * self.n_cols + j]
    }

    /// Puts `e` in row `i` and column `j`.
    pub fn set_element(&mut self, i: usize, j: usize, e: &BigNum)
        requires
            old(self).wf(),
            i < old(self).n_rows,
            j < old(self).n_cols,
        ensures
            final(self).wf(),
            final(self).n_rows == old(self).n_rows,
            final(self).n_cols == old(self).n_cols,
            final(self).modulus == old(self).modulus,
            final(self).data@ == old(self).data@.update(
                flat(i as int, j as int, old(self).n_cols as int),
                *e,
            ),
            final(self).at(i as int, j as int) == e@,
    {
        let total: usize = self.data.len();
        proof {
            lemma_flat_in_range(i as int, j as int, self.n_rows as int, self.n_cols as int);
        }
        let idx: usize = i * self.n_cols + j;
        self.data[idx] = *e;
    }

    /// The product of `self` and `other`, each element reduced modulo the modulus of `self`.
    /// It fails where `self` has not as many columns as `other` has rows.
    pub fn matmul(&self, other: &BigNumMatrix) -> (r: Result<BigNumMatrix, FeError>)
        requires
            self.wf(),
            other.wf(),
            self.n_rows * other.n_cols <= usize::MAX,
        ensures
            match r {
                Ok(m) => {
                    &&& self.n_cols == other.n_rows
                    &&& m.wf()
                    &&& m.n_rows == self.n_rows
                    &&& m.n_cols == other.n_cols
                    &&& m.modulus@ == self.modulus@
                    &&& forall|i: int, k: int|
                        0 <= i < self.n_rows && 0 <= k < other.n_cols ==> #[trigger] m.at(i, k)
                            == self.dot(other, i, k, self.n_cols as nat) % self.modulus@
                },
                Err(e) => e == FeError::DimensionMismatch && self.n_cols != other.n_rows,
            },
    {
        if self.n_cols != other.n_rows {
            return Err(FeError::DimensionMismatch);
        }
        let rows: usize = self.n_rows;
        let inner: usize = self.n_cols;
        let cols: usize = other.n_cols;
        let mut data: Vec<BigNum> = Vec::new();
        let mut i: usize = 0;
        while i < rows
            invariant
                self.wf(),
                other.wf(),
                rows == self.n_rows,
                inner == self.n_cols,
                inner == other.n_rows,
                cols == other.n_cols,
                rows * cols <= usize::MAX,
                i <= rows,
                data@.len() == i * cols,
                forall|a: int, b: int|
                    0 <= a < i && 0 <= b < cols ==> (#[trigger] data@[flat(a, b, cols as int)])@
                        == self.dot(other, a, b, inner as nat) % self.modulus@,
            decreases rows - i,
        {
            let mut k: usize = 0;
            while k < cols
                invariant
                    self.wf(),
                    other.wf(),
                    rows == self.n_rows,
                    inner == self.n_cols,
                    inner == other.n_rows,
                    cols == other.n_cols,
                    rows * cols <= usize::MAX,
                    i < rows,
                    k <= cols,
                    data@.len() == i * cols + k,
                    forall|a: int, b: int|
                        0 <= a < i && 0 <= b < cols ==> (#[trigger] data@[flat(a, b, cols as int)])@
                            == self.dot(other, a, b, inner as nat) % self.modulus@,
                    forall|b: int|
                        0 <= b < k ==> (#[trigger] data@[flat(i as int, b, cols as int)])@
                            == self.dot(other, i as int, b, inner as nat) % self.modulus@,
                decreases cols - k,
            {
                let mut acc = big_new_int(0);
                let mut j: usize = 0;
                proof {
                    lemma_small_mod(0, self.modulus@);
                }
                while j < inner
                    invariant
                        self.wf(),
                        other.wf(),
                        inner == self.n_cols,
                        inner == other.n_rows,
                        cols == other.n_cols,
                        i < self.n_rows,
                        k < cols,
                        j <= inner,
                        acc@ == self.dot(other, i as int, k as int, j as nat) % self.modulus@,
                    decreases inner - j,
                {
                    let x = self.get_element(i, j);
                    let y = other.get_element(j, k);
                    let t = big_modmul(x, y, &self.modulus);
                    let next = big_modadd(&acc, &t, &self.modulus);
                    proof {
                        let s = self.dot(other, i as int, k as int, j as nat) as int;
                        let p = (x@ * y@) as int;
                        let m = self.modulus@ as int;
                        lemma_add_mod_noop(s, p, m);
                        assert(self.dot(other, i as int, k as int, (j + 1) as nat) == s + p);
                    }
                    acc = next;
                    j = j + 1;
                }
                proof {
                    let ghost before = data@;
                    assert forall|a: int, b: int| 0 <= a < i && 0 <= b < cols implies flat(
                        a,
                        b,
                        cols as int,
                    ) < i * cols by {
                        lemma_flat_in_range(a, b, i as int, cols as int);
                    }
                    assert(i * cols + cols <= rows * cols) by (nonlinear_arith)
                        requires
                            i + 1 <= rows,
                            0 <= cols,
                    ;
                }
                data.push(acc);
                k = k + 1;
            }
            proof {
                assert((i + 1) * cols == i * cols + cols) by (nonlinear_arith);
            }
            i = i + 1;
        }
        Ok(BigNumMatrix { data, n_rows: rows, n_cols: cols, modulus: self.modulus })
    }

    /// The transpose: the element in row `j` and column `i` of the result is the element in
    /// row `i` and column `j` of `self`.
    pub fn transpose(&self) -> (r: Self)
        requires
            self.wf(),
        ensures
            r.wf(),
            r.n_rows == self.n_cols,
            r.n_cols == self.n_rows,
            r.modulus@ == self.modulus@,
            forall|i: int, j: int|
                0 <= i < self.n_rows && 0 <= j < self.n_cols ==> #[trigger] r.at(j, i) == self.at(
                    i,
                    j,
                ),
    {
        let rows: usize = self.n_rows;
        let cols: usize = self.n_cols;
        let mut data: Vec<BigNum> = Vec::new();
        let mut j: usize = 0;
        proof {
            assert(cols * rows == rows * cols) by (nonlinear_arith);
        }
        while j < cols
            invariant
                self.wf(),
                rows == self.n_rows,
                cols == self.n_cols,
                j <= cols,
                data@.len() == j * rows,
                forall|a: int, b: int|
                    0 <= a < j && 0 <= b < rows ==> (#[trigger] data@[flat(a, b, rows as int)])@
                        == self.at(b, a),
            decreases cols - j,
        {
            let mut i: usize = 0;
            while i < rows
                invariant
                    self.wf(),
                    rows == self.n_rows,
                    cols == self.n_cols,
                    j < cols,
                    i <= rows,
                    data@.len() == j * rows + i,
                    forall|a: int, b: int|
                        0 <= a < j && 0 <= b < rows ==> (#[trigger] data@[flat(a, b, rows as int)])@
                            == self.at(b, a),
                    forall|b: int|
                        0 <= b < i ==> (#[trigger] data@[flat(j as int, b, rows as int)])@
                            == self.at(b, j as int),
                decreases rows - i,
            {
                let e = *self.get_element(i, j);
                proof {
                    assert forall|a: int, b: int| 0 <= a < j && 0 <= b < rows implies flat(
                        a,
                        b,
                        rows as int,
                    ) < j * rows by {
                        lemma_flat_in_range(a, b, j as int, rows as int);
                    }
                }
                data.push(e);
                i = i + 1;
            }
            proof {
                assert((j + 1) * rows == j * rows + rows) by (nonlinear_arith);
            }
            j = j + 1;
        }
        let r = BigNumMatrix { data, n_rows: cols, n_cols: rows, modulus: self.modulus };
        proof {
            assert(cols * rows == rows * cols) by (nonlinear_arith);
        }
        r
    }
}


/// The number below `m` whose product with `a` leaves the remainder one modulo `m`, where
/// there is one.
pub open spec fn mod_inverse(a: int, m: int) -> int {
    choose|x: int| is_mod_inverse(a, m, x)
}

/// `x` is below `m`, and its product with `a` leaves the remainder one modulo `m`.
pub open spec fn is_mod_inverse(a: int, m: int, x: int) -> bool {
    0 <= x < m && (a * x) % m == 1
}

/// Modulo `m` a number has at most one inverse below `m`.
pub proof fn lemma_mod_inverse_unique(a: int, m: int, x: int, y: int)
    requires
        m > 0,
        0 <= x < m,
        0 <= y < m,
        (a * x) % m == 1,
        (a * y) % m == 1,
    ensures
        x == y,
{
    vstd::arithmetic::div_mod::lemma_mul_mod_noop_right(x, a * y, m);
    vstd::arithmetic::div_mod::lemma_mul_mod_noop_right(y, a * x, m);
    assert(x * (a * y) == y * (a * x)) by (nonlinear_arith);
    assert(x * 1 == x && y * 1 == y);
    lemma_small_mod(x as nat, m as nat);
    lemma_small_mod(y as nat, m as nat);
}

/// A matrix of two rows and two columns of scalars, stored row by row.
#[derive(Debug)]
pub struct BigNumMatrix2x2 {
    data: Vec<BigNum>,
}

impl BigNumMatrix2x2 {
    /// The store holds four scalars.
    pub closed spec fn wf(&self) -> bool {
        self.data@.len() == 4
    }

    /// The element in row `i` and column `j`.
    pub closed spec fn at(&self, i: int, j: int) -> nat {
        self.data@[i * 2 + j]@
    }

    /// The determinant, over the integers.
    pub open spec fn det(&self) -> int {
        self.at(0, 0) * self.at(1, 1) - self.at(0, 1) * self.at(1, 0)
    }

    /// The element in row `i` and column `j` of the inverse modulo `m`: the adjugate times
    /// the inverse of the determinant.
    pub open spec fn inverse_at(&self, m: int, i: int, j: int) -> int {
        let dinv = mod_inverse(self.det() % m, m);
        if i == 0 && j == 0 {
            (self.at(1, 1) * dinv) % m
        } else if i == 0 {
            ((m - (self.at(0, 1) as int) % m) * dinv) % m
        } else if j == 0 {
            ((m - (self.at(1, 0) as int) % m) * dinv) % m
        } else {
            (self.at(0, 0) * dinv) % m
        }
    }

    /// The determinant has an inverse modulo `m`.
    pub open spec fn has_inverse(&self, m: int) -> bool {
        is_mod_inverse(self.det() % m, m, mod_inverse(self.det() % m, m))
    }

    /// The zero matrix.
    pub fn new() -> (r: Self)
        ensures
            r.wf(),
            forall|i: int, j: int| 0 <= i < 2 && 0 <= j < 2 ==> #[trigger] r.at(i, j) == 0,
    {
        let zero = big_new_int(0);
        let data: Vec<BigNum> = vec![zero, zero, zero, zero];
        BigNumMatrix2x2 { data }
    }

    /// The matrix with the given four scalars, row by row. It fails where `data` does not
    /// hold four.
    pub fn new_with_data(data: &[BigNum]) -> (r: Result<Self, FeError>)
        ensures
            match r {
                Ok(m) => {
                    &&& data@.len() == 4
                    &&& m.wf()
                    &&& forall|i: int, j: int|
                        0 <= i < 2 && 0 <= j < 2 ==> #[trigger] m.at(i, j) == data@[i * 2 + j]@
                },
                Err(e) => e == FeError::DimensionMismatch && data@.len() != 4,
            },
    {
        if data.len() != 4 {
            return Err(FeError::DimensionMismatch);
        }
        let v: Vec<BigNum> = vec![data[0], data[1], data[2], data[3]];
        Ok(BigNumMatrix2x2 { data: v })
    }

    /// A matrix of four scalars below `modulus`, drawn from `rng`: the elements are the
    /// scalars of four draws, row by row, and `rng` moves on by four states.
    pub fn new_random(modulus: &BigNum, rng: &mut RandUtilsRAND) -> (r: Self)
        requires
            modulus@ > 0,
        ensures
            r.wf(),
            forall|i: int, j: int| 0 <= i < 2 && 0 <= j < 2 ==> #[trigger] r.at(i, j) < modulus@,
            forall|i: int, j: int|
                0 <= i < 2 && 0 <= j < 2 ==> #[trigger] r.at(i, j) == seeded_scalar(
                    draw_seed(advanced(old(rng)@, (i * 2 + j) as nat)),
                    modulus@,
                ),
            final(rng)@ == advanced(old(rng)@, 4),
    {
        let data = rng.sample_vec(4, modulus);
        assert forall|i: int, j: int| 0 <= i < 2 && 0 <= j < 2 implies (#[trigger] data@[i * 2
            + j])@ < modulus@ by {
            assert(RandUtilsRAND::value(&data@[i * 2 + j]) < RandUtilsRAND::value(modulus));
        }
        BigNumMatrix2x2 { data }
    }

    /// The element in row `i` and column `j`.
    pub fn get_element(&self, i: usize, j: usize) -> (r: &BigNum)
        requires
            self.wf(),
            i < 2,
            j < 2,
        ensures
            r@ == self.at(i as int, j as int),
    {
        &self.data[i * 2 + j]
    }

    /// The determinant modulo `modulus`.
    pub fn determinant(&self, modulus: &BigNum) -> (r: BigNum)
        requires
            self.wf(),
            modulus@ > 0,
        ensures
            r@ == self.det() % (modulus@ as int),
    {
        let a = self.get_element(0, 0);
        let b = self.get_element(0, 1);
        let c = self.get_element(1, 0);
        let d = self.get_element(1, 1);
        let ad = big_modmul(a, d, modulus);
        let bc = big_modmul(b, c, modulus);
        let nbc = big_modneg(&bc, modulus);
        let r = big_modadd(&ad, &nbc, modulus);
        proof {
            let m = modulus@ as int;
            let x = (a@ * d@) as int;
            let y = (b@ * c@) as int;
            lemma_mod_twice(y, m);
            // r == (x % m + (m - y % m)) % m
            assert(r@ == (x % m + (m - y % m)) % m);
            vstd::arithmetic::div_mod::lemma_mod_add_multiples_vanish(x % m - y % m, m);
            assert(x % m + (m - y % m) == m + (x % m - y % m));
            vstd::arithmetic::div_mod::lemma_sub_mod_noop(x, y, m);
        }
        r
    }

    /// The inverse modulo the prime `modulus`. It fails where the determinant is zero
    /// modulo `modulus`.
    pub fn invmod(&self, modulus: &BigNum) -> (r: Result<Self, FeError>)
        requires
            self.wf(),
            is_prime(modulus@),
        ensures
            match r {
                Ok(inv) => {
                    &&& self.det() % (modulus@ as int) != 0
                    &&& self.has_inverse(modulus@ as int)
                    &&& inv.wf()
                    &&& forall|i: int, j: int|
                        0 <= i < 2 && 0 <= j < 2 ==> #[trigger] inv.at(i, j) == self.inverse_at(
                            modulus@ as int,
                            i,
                            j,
                        )
                },
                Err(e) => e == FeError::SingularMatrix && self.det() % (modulus@ as int) == 0,
            },
    {
        let det = self.determinant(modulus);
        if det.iszilch() {
            return Err(FeError::SingularMatrix);
        }
        proof {
            lemma_mod_bound(self.det(), modulus@ as int);
            lemma_small_mod(det@, modulus@);
        }
        let det_inv = big_invmodp(&det, modulus);
        proof {
            let m = modulus@ as int;
            let chosen = mod_inverse(self.det() % m, m);
            assert(is_mod_inverse(self.det() % m, m, det_inv@ as int));
            lemma_mod_inverse_unique(self.det() % m, m, det_inv@ as int, chosen);
        }
        let e00 = big_modmul(self.get_element(1, 1), &det_inv, modulus);
        let e01 = big_modmul(&big_modneg(self.get_element(0, 1), modulus), &det_inv, modulus);
        let e10 = big_modmul(&big_modneg(self.get_element(1, 0), modulus), &det_inv, modulus);
        let e11 = big_modmul(self.get_element(0, 0), &det_inv, modulus);
        let data: Vec<BigNum> = vec![e00, e01, e10, e11];
        Ok(BigNumMatrix2x2 { data })
    }

    /// Turns the matrix into its transpose.
    pub fn transpose(&mut self)
        requires
            old(self).wf(),
        ensures
            final(self).wf(),
            forall|i: int, j: int|
                0 <= i < 2 && 0 <= j < 2 ==> #[trigger] final(self).at(i, j) == old(self).at(j, i),
    {
        let b = self.data[1];
        let c = self.data[2];
        self.data[1] = c;
        self.data[2] = b;
    }
}

/// A matrix of integers of any size, stored row by row.
#[derive(Debug)]
pub struct BigIntMatrix {
    pub data: Vec<BigInt>,
    pub n_rows: usize,
    pub n_cols: usize,
}

impl BigIntMatrix {
    /// The store holds one integer for each position.
    pub open spec fn wf(&self) -> bool {
        self.data@.len() == self.n_rows * self.n_cols
    }

    /// The element in row `i` and column `j`.
    pub open spec fn at(&self, i: int, j: int) -> int {
        self.data@[flat(i, j, self.n_cols as int)]@
    }

    /// The sum of the first `n` products of row `i` of `self` with column `k` of `other`.
    pub open spec fn dot(&self, other: &BigIntMatrix, i: int, k: int, n: nat) -> int
        decreases n,
    {
        if n == 0 {
            0
        } else {
            self.dot(other, i, k, (n - 1) as nat) + self.at(i, n - 1) * other.at(n - 1, k)
        }
    }

    /// The zero matrix with `n_rows` rows and `n_cols` columns.
    pub fn new(n_rows: usize, n_cols: usize) -> (r: Self)
        requires
            n_rows * n_cols <= usize::MAX,
        ensures
            r.wf(),
            r.n_rows == n_rows,
            r.n_cols == n_cols,
            forall|i: int, j: int|
                0 <= i < n_rows && 0 <= j < n_cols ==> #[trigger] r.at(i, j) == 0,
    {
        let len: usize = n_rows * n_cols;
        let mut data: Vec<BigInt> = Vec::new();
        let mut k: usize = 0;
        while k < len
            invariant
                k <= len,
                data@.len() == k,
                forall|q: int| 0 <= q < k ==> (#[trigger] data@[q])@ == 0,
            decreases len - k,
        {
            data.push(int_from_i64(0));
            k = k + 1;
        }
        let r = BigIntMatrix { data, n_rows, n_cols };
        proof {
            assert forall|i: int, j: int| 0 <= i < n_rows && 0 <= j < n_cols implies #[trigger] r.at(
                i,
                j,
            ) == 0 by {
                lemma_flat_in_range(i, j, n_rows as int, n_cols as int);
            }
        }
        r
    }

    /// The matrix with the given machine integers, row by row. It fails where `a` does not
    /// hold one integer for each position.
    pub fn new_ints(a: &[i64], n_rows: usize, n_cols: usize) -> (r: Result<Self, FeError>)
        ensures
            match r {
                Ok(m) => {
                    &&& a@.len() == n_rows * n_cols
                    &&& m.wf()
                    &&& m.n_rows == n_rows
                    &&& m.n_cols == n_cols
                    &&& forall|i: int, j: int|
                        0 <= i < n_rows && 0 <= j < n_cols ==> #[trigger] m.at(i, j) == a@[flat(
                            i,
                            j,
                            n_cols as int,
                        )]
                },
                Err(e) => e == FeError::DimensionMismatch && a@.len() != n_rows * n_cols,
            },
    {
        let given: usize = a.len();
        let len: usize = match n_rows.checked_mul(n_cols) {
            Some(len) => len,
            None => {
                return Err(FeError::DimensionMismatch);
            },
        };
        if len != given {
            return Err(FeError::DimensionMismatch);
        }
        let mut data: Vec<BigInt> = Vec::new();
        let mut k: usize = 0;
        while k < len
            invariant
                k <= len,
                len == a@.len(),
                data@.len() == k,
                forall|q: int| 0 <= q < k ==> (#[trigger] data@[q])@ == a@[q],
            decreases len - k,
        {
            data.push(int_from_i64(a[k]));
            k = k + 1;
        }
        let m = BigIntMatrix { data, n_rows, n_cols };
        proof {
            assert forall|i: int, j: int| 0 <= i < n_rows && 0 <= j < n_cols implies #[trigger] m.at(
                i,
                j,
            ) == a@[flat(i, j, n_cols as int)] by {
                lemma_flat_in_range(i, j, n_rows as int, n_cols as int);
            }
        }
        Ok(m)
    }

    /// The matrix with the given integers, row by row. It fails where `a` does not hold one
    /// integer for each position.
    pub fn new_bigints(a: &[BigInt], n_rows: usize, n_cols: usize) -> (r: Result<Self, FeError>)
        ensures
            match r {
                Ok(m) => {
                    &&& a@.len() == n_rows * n_cols
                    &&& m.wf()
                    &&& m.n_rows == n_rows
                    &&& m.n_cols == n_cols
                    &&& forall|i: int, j: int|
                        0 <= i < n_rows && 0 <= j < n_cols ==> #[trigger] m.at(i, j) == a@[flat(
                            i,
                            j,
                            n_cols as int,
                        )]@
                },
                Err(e) => e == FeError::DimensionMismatch && a@.len() != n_rows * n_cols,
            },
    {
        let given: usize = a.len();
        let len: usize = match n_rows.checked_mul(n_cols) {
            Some(len) => len,
            None => {
                return Err(FeError::DimensionMismatch);
            },
        };
        if len != given {
            return Err(FeError::DimensionMismatch);
        }
        let mut data: Vec<BigInt> = Vec::new();
        let mut k: usize = 0;
        while k < len
            invariant
                k <= len,
                len == a@.len(),
                data@.len() == k,
                forall|q: int| 0 <= q < k ==> (#[trigger] data@[q])@ == a@[q]@,
            decreases len - k,
        {
            data.push(a[k].copy());
            k = k + 1;
        }
        let m = BigIntMatrix { data, n_rows, n_cols };
        proof {
            assert forall|i: int, j: int| 0 <= i < n_rows && 0 <= j < n_cols implies #[trigger] m.at(
                i,
                j,
            ) == a@[flat(i, j, n_cols as int)]@ by {
                lemma_flat_in_range(i, j, n_rows as int, n_cols as int);
            }
        }
        Ok(m)
    }

    /// The two matrices have the same shape and the same elements.
    pub open spec fn same_as(&self, other: &BigIntMatrix) -> bool {
        &&& self.n_rows == other.n_rows
        &&& self.n_cols == other.n_cols
        &&& self.data@.len() == other.data@.len()
        &&& forall|k: int| 0 <= k < self.data@.len() ==> (#[trigger] self.data@[k])@ == other.data@[k]@
    }

    /// A copy of the matrix.
    pub fn copy(&self) -> (r: Self)
        ensures
            r.same_as(self),
    {
        let total: usize = self.data.len();
        let mut data: Vec<BigInt> = Vec::new();
        let mut k: usize = 0;
        while k < total
            invariant
                k <= total,
                total == self.data@.len(),
                data@.len() == k,
                forall|q: int| 0 <= q < k ==> (#[trigger] data@[q])@ == self.data@[q]@,
            decreases total - k,
        {
            data.push(self.data[k].copy());
            k = k + 1;
        }
        BigIntMatrix { data, n_rows: self.n_rows, n_cols: self.n_cols }
    }

    /// A matrix of integers that are at least `low` and below `high`, drawn from `rng`: the
    /// elements are the integers of one draw each, row by row, and `rng` moves on by as many
    /// states.
    pub fn new_random(
        n_rows: usize,
        n_cols: usize,
        low: &BigInt,
        high: &BigInt,
        rng: &mut RandUtilsRng,
    ) -> (r: Self)
        requires
            n_rows * n_cols <= usize::MAX,
            low@ < high@,
        ensures
            r.wf(),
            r.n_rows == n_rows,
            r.n_cols == n_cols,
            forall|i: int, j: int|
                0 <= i < n_rows && 0 <= j < n_cols ==> low@ <= #[trigger] r.at(i, j) < high@,
            forall|k: int|
                0 <= k < n_rows * n_cols ==> (#[trigger] r.data@[k])@ == seeded_integer(
                    draw_seed(advanced(old(rng)@, k as nat)),
                    low@,
                    high@,
                ),
            final(rng)@ == advanced(old(rng)@, (n_rows * n_cols) as nat),
    {
        let data = rng.sample_range_vec(n_rows * n_cols, low, high);
        let r = BigIntMatrix { data, n_rows, n_cols };
        proof {
            assert forall|i: int, j: int| 0 <= i < n_rows && 0 <= j < n_cols implies low@
                <= #[trigger] r.at(i, j) < high@ by {
                lemma_flat_in_range(i, j, n_rows as int, n_cols as int);
                let q = flat(i, j, n_cols as int);
                assert(RandUtilsRng::value(low) <= RandUtilsRng::value(&data@[q])
                    < RandUtilsRng::value(high));
            }
        }
        r
    }

    /// The element in row `i` and column `j`.
    pub fn get_element(&self, i: usize, j: usize) -> (r: &BigInt)
        requires
            self.wf(),
            i < self.n_rows,
            j < self.n_cols,
        ensures
            r@ == self.at(i as int, j as int),
    {
        let total: usize = self.data.len();
        proof {
            lemma_flat_in_range(i as int, j as int, self.n_rows as int, self.n_cols as int);
        }
        &self.data[i * self.n_cols + j]
    }

    /// Puts `e` in row `i` and column `j`.
    pub fn set_element(&mut self, i: usize, j: usize, e: &BigInt)
        requires
            old(self).wf(),
            i < old(self).n_rows,
            j < old(self).n_cols,
        ensures
            final(self).wf(),
            final(self).n_rows == old(self).n_rows,
            final(self).n_cols == old(self).n_cols,
            forall|a: int, b: int|
                0 <= a < old(self).n_rows && 0 <= b < old(self).n_cols ==> #[trigger] final(self).at(
                    a,
                    b,
                ) == if a == i && b == j {
                    e@
                } else {
                    old(self).at(a, b)
                },
    {
        let total: usize = self.data.len();
        proof {
            lemma_flat_in_range(i as int, j as int, self.n_rows as int, self.n_cols as int);
        }
        let idx: usize = i * self.n_cols + j;
        let ghost before = self.data@;
        self.data[idx] = e.copy();
        proof {
            assert forall|a: int, b: int|
                0 <= a < old(self).n_rows && 0 <= b < old(self).n_cols implies #[trigger] self.at(
                a,
                b,
            ) == if a == i && b == j {
                e@
            } else {
                old(self).at(a, b)
            } by {
                lemma_flat_in_range(a, b, self.n_rows as int, self.n_cols as int);
            }
        }
    }

    /// The product of `self` and `other`. It fails where `self` has not as many columns as
    /// `other` has rows.
    pub fn matmul(&self, other: &BigIntMatrix) -> (r: Result<BigIntMatrix, FeError>)
        requires
            self.wf(),
            other.wf(),
            self.n_rows * other.n_cols <= usize::MAX,
        ensures
            match r {
                Ok(m) => {
                    &&& self.n_cols == other.n_rows
                    &&& m.wf()
                    &&& m.n_rows == self.n_rows
                    &&& m.n_cols == other.n_cols
                    &&& forall|i: int, k: int|
                        0 <= i < self.n_rows && 0 <= k < other.n_cols ==> #[trigger] m.at(i, k)
                            == self.dot(other, i, k, self.n_cols as nat)
                },
                Err(e) => e == FeError::DimensionMismatch && self.n_cols != other.n_rows,
            },
    {
        if self.n_cols != other.n_rows {
            return Err(FeError::DimensionMismatch);
        }
        let rows: usize = self.n_rows;
        let inner: usize = self.n_cols;
        let cols: usize = other.n_cols;
        let mut data: Vec<BigInt> = Vec::new();
        let mut i: usize = 0;
        while i < rows
            invariant
                self.wf(),
                other.wf(),
                rows == self.n_rows,
                inner == self.n_cols,
                inner == other.n_rows,
                cols == other.n_cols,
                rows * cols <= usize::MAX,
                i <= rows,
                data@.len() == i * cols,
                forall|a: int, b: int|
                    0 <= a < i && 0 <= b < cols ==> (#[trigger] data@[flat(a, b, cols as int)])@
                        == self.dot(other, a, b, inner as nat),
            decreases rows - i,
        {
            let mut k: usize = 0;
            while k < cols
                invariant
                    self.wf(),
                    other.wf(),
                    rows == self.n_rows,
                    inner == self.n_cols,
                    inner == other.n_rows,
                    cols == other.n_cols,
                    rows * cols <= usize::MAX,
                    i < rows,
                    k <= cols,
                    data@.len() == i * cols + k,
                    forall|a: int, b: int|
                        0 <= a < i && 0 <= b < cols ==> (#[trigger] data@[flat(a, b, cols as int)])@
                            == self.dot(other, a, b, inner as nat),
                    forall|b: int|
                        0 <= b < k ==> (#[trigger] data@[flat(i as int, b, cols as int)])@
                            == self.dot(other, i as int, b, inner as nat),
                decreases cols - k,
            {
                let mut acc = int_from_i64(0);
                let mut j: usize = 0;
                while j < inner
                    invariant
                        self.wf(),
                        other.wf(),
                        inner == self.n_cols,
                        inner == other.n_rows,
                        cols == other.n_cols,
                        i < self.n_rows,
                        k < cols,
                        j <= inner,
                        acc@ == self.dot(other, i as int, k as int, j as nat),
                    decreases inner - j,
                {
                    let t = int_mul(self.get_element(i, j), other.get_element(j, k));
                    acc = int_add(&acc, &t);
                    j = j + 1;
                }
                proof {
                    assert forall|a: int, b: int| 0 <= a < i && 0 <= b < cols implies flat(
                        a,
                        b,
                        cols as int,
                    ) < i * cols by {
                        lemma_flat_in_range(a, b, i as int, cols as int);
                    }
                    assert(i * cols + cols <= rows * cols) by (nonlinear_arith)
                        requires
                            i + 1 <= rows,
                            0 <= cols,
                    ;
                }
                data.push(acc);
                k = k + 1;
            }
            proof {
                assert((i + 1) * cols == i * cols + cols) by (nonlinear_arith);
            }
            i = i + 1;
        }
        let m = BigIntMatrix { data, n_rows: rows, n_cols: cols };
        Ok(m)
    }

    /// The transpose: the element in row `j` and column `i` of the result is the element in
    /// row `i` and column `j` of `self`.
    pub fn transpose(&self) -> (r: Self)
        requires
            self.wf(),
        ensures
            r.wf(),
            r.n_rows == self.n_cols,
            r.n_cols == self.n_rows,
            forall|i: int, j: int|
                0 <= i < self.n_rows && 0 <= j < self.n_cols ==> #[trigger] r.at(j, i) == self.at(
                    i,
                    j,
                ),
    {
        let rows: usize = self.n_rows;
        let cols: usize = self.n_cols;
        let mut data: Vec<BigInt> = Vec::new();
        let mut j: usize = 0;
        proof {
            assert(cols * rows == rows * cols) by (nonlinear_arith);
        }
        while j < cols
            invariant
                self.wf(),
                rows == self.n_rows,
                cols == self.n_cols,
                j <= cols,
                data@.len() == j * rows,
                forall|a: int, b: int|
                    0 <= a < j && 0 <= b < rows ==> (#[trigger] data@[flat(a, b, rows as int)])@
                        == self.at(b, a),
            decreases cols - j,
        {
            let mut i: usize = 0;
            while i < rows
                invariant
                    self.wf(),
                    rows == self.n_rows,
                    cols == self.n_cols,
                    j < cols,
                    i <= rows,
                    data@.len() == j * rows + i,
                    forall|a: int, b: int|
                        0 <= a < j && 0 <= b < rows ==> (#[trigger] data@[flat(a, b, rows as int)])@
                            == self.at(b, a),
                    forall|b: int|
                        0 <= b < i ==> (#[trigger] data@[flat(j as int, b, rows as int)])@
                            == self.at(b, j as int),
                decreases rows - i,
            {
                let e = self.get_element(i, j).copy();
                proof {
                    assert forall|a: int, b: int| 0 <= a < j && 0 <= b < rows implies flat(
                        a,
                        b,
                        rows as int,
                    ) < j * rows by {
                        lemma_flat_in_range(a, b, j as int, rows as int);
                    }
                }
                data.push(e);
                i = i + 1;
            }
            proof {
                assert((j + 1) * rows == j * rows + rows) by (nonlinear_arith);
            }
            j = j + 1;
        }
        let r = BigIntMatrix { data, n_rows: cols, n_cols: rows };
        proof {
            assert(cols * rows == rows * cols) by (nonlinear_arith);
        }
        r
    }
}

/// The matrix of scalars whose elements are those of `src`, each reduced modulo `modulus`.
pub fn convert(src: &BigIntMatrix, modulus: &BigInt) -> (r: BigNumMatrix)
    requires
        src.wf(),
        0 < modulus@ < big_limit(),
    ensures
        r.wf(),
        r.n_rows == src.n_rows,
        r.n_cols == src.n_cols,
        r.modulus@ == modulus@,
        forall|i: int, j: int|
            0 <= i < src.n_rows && 0 <= j < src.n_cols ==> #[trigger] r.at(i, j) == src.at(i, j)
                % modulus@,
{
    let rows: usize = src.n_rows;
    let cols: usize = src.n_cols;
    let total: usize = src.data.len();
    let mut data: Vec<BigNum> = Vec::new();
    let mut k: usize = 0;
    while k < total
        invariant
            k <= total,
            total == src.data@.len(),
            data@.len() == k,
            0 < modulus@ < big_limit(),
            forall|q: int| 0 <= q < k ==> (#[trigger] data@[q])@ == src.data@[q]@ % modulus@,
        decreases total - k,
    {
        let e = reduce(&src.data[k], modulus);
        proof {
            lemma_mod_bound(src.data@[k as int]@, modulus@);
        }
        data.push(big_from_bigint(&e));
        k = k + 1;
    }
    let r = BigNumMatrix { data, n_rows: rows, n_cols: cols, modulus: big_from_bigint(modulus) };
    proof {
        assert forall|i: int, j: int| 0 <= i < src.n_rows && 0 <= j < src.n_cols implies #[trigger] r.at(
            i,
            j,
        ) == src.at(i, j) % modulus@ by {
            lemma_flat_in_range(i, j, rows as int, cols as int);
        }
    }
    r
}

/// The sequence of bytes that the ChaCha20 generator yields first when it is started from a
/// seed.
pub uninterp spec fn chacha20_stream(seed: Seq<u8>) -> Seq<u8>;

/// `ChaCha20Rng::from_seed` and `fill_bytes`: the first 128 bytes of the generator started
/// from `seed`.
#[verifier::external_body]
fn chacha20_fill(seed: &[u8; 32]) -> (r: [u8; 128])
    ensures
        r@ == chacha20_stream(seed@),
{
    let mut out = [0u8; 128];
    rand_chacha::ChaCha20Rng::from_seed(*seed).fill_bytes(&mut out);
    out
}

/// A matrix of two rows and two columns of integers of any size, stored row by row.
#[derive(Debug)]
pub struct BigIntMatrix2x2 {
    data: Vec<BigInt>,
}

impl View for BigIntMatrix2x2 {
    type V = Seq<int>;

    /// The four elements, row by row.
    closed spec fn view(&self) -> Seq<int> {
        Seq::new(self.data@.len(), |k: int| self.data@[k]@)
    }
}

/// The four numbers, thirty-two bytes each, that a digest expands to.
pub open spec fn expansion_of(seed: Seq<u8>) -> Seq<int> {
    Seq::new(4, |k: int| be_value(chacha20_stream(seed).subrange(32 * k, 32 * k + 32)) as int)
}

impl BigIntMatrix2x2 {
    /// The zero matrix.
    pub fn new() -> (r: Self)
        ensures
            r@ == seq![0int, 0int, 0int, 0int],
    {
        let data: Vec<BigInt> = vec![
            int_from_i64(0),
            int_from_i64(0),
            int_from_i64(0),
            int_from_i64(0),
        ];
        let r = BigIntMatrix2x2 { data };
        assert(r@ =~= seq![0int, 0int, 0int, 0int]);
        r
    }

    /// The matrix that a digest expands to: each of the four elements is read from its own
    /// thirty-two bytes of the generator started from `seed`.
    pub fn new_random_deterministic(seed: &[u8; 32]) -> (r: Self)
        ensures
            r@ == expansion_of(seed@),
    {
        let stream = chacha20_fill(seed);
        let mut data: Vec<BigInt> = Vec::new();
        let mut k: usize = 0;
        while k < 4
            invariant
                k <= 4,
                data@.len() == k,
                stream@ == chacha20_stream(seed@),
                forall|q: int|
                    0 <= q < k ==> (#[trigger] data@[q])@ == be_value(
                        stream@.subrange(32 * q, 32 * q + 32),
                    ),
            decreases 4 - k,
        {
            let mut chunk: Vec<u8> = Vec::new();
            let mut b: usize = 0;
            while b < 32
                invariant
                    k < 4,
                    b <= 32,
                    chunk@ == stream@.subrange(32 * k, 32 * k + b),
                decreases 32 - b,
            {
                chunk.push(stream[32 * k + b]);
                assert(stream@.subrange(32 * k, 32 * k + b).push(stream@[32 * k + b])
                    =~= stream@.subrange(32 * k, 32 * k + b + 1));
                b = b + 1;
            }
            data.push(int_from_bytes_be(chunk.as_slice()));
            k = k + 1;
        }
        let r = BigIntMatrix2x2 { data };
        assert(r@ =~= expansion_of(seed@));
        r
    }

    /// The element in row `i` and column `j`.
    pub fn get_element(&self, i: usize, j: usize) -> (r: &BigInt)
        requires
            self@.len() == 4,
            i < 2,
            j < 2,
        ensures
            r@ == self@[i * 2 + j],
    {
        &self.data[i * 2 + j]
    }

    /// Adds `rhs` to the matrix, element by element.
    pub fn add(&mut self, rhs: &BigIntMatrix2x2)
        requires
            old(self)@.len() == 4,
            rhs@.len() == 4,
        ensures
            final(self)@.len() == 4,
            forall|k: int| 0 <= k < 4 ==> #[trigger] final(self)@[k] == old(self)@[k] + rhs@[k],
    {
        let mut k: usize = 0;
        while k < 4
            invariant
                k <= 4,
                self.data@.len() == 4,
                rhs.data@.len() == 4,
                forall|q: int| 0 <= q < k ==> (#[trigger] self.data@[q])@ == old(self).data@[q]@ + rhs.data@[q]@,
                forall|q: int| k <= q < 4 ==> (#[trigger] self.data@[q])@ == old(self).data@[q]@,
            decreases 4 - k,
        {
            let s = int_add(&self.data[k], &rhs.data[k]);
            self.data[k] = s;
            k = k + 1;
        }
    }

    /// Subtracts `rhs` from the matrix, element by element.
    pub fn sub(&mut self, rhs: &BigIntMatrix2x2)
        requires
            old(self)@.len() == 4,
            rhs@.len() == 4,
        ensures
            final(self)@.len() == 4,
            forall|k: int| 0 <= k < 4 ==> #[trigger] final(self)@[k] == old(self)@[k] - rhs@[k],
    {
        let mut k: usize = 0;
        while k < 4
            invariant
                k <= 4,
                self.data@.len() == 4,
                rhs.data@.len() == 4,
                forall|q: int| 0 <= q < k ==> (#[trigger] self.data@[q])@ == old(self).data@[q]@ - rhs.data@[q]@,
                forall|q: int| k <= q < 4 ==> (#[trigger] self.data@[q])@ == old(self).data@[q]@,
            decreases 4 - k,
        {
            let s = int_sub(&self.data[k], &rhs.data[k]);
            self.data[k] = s;
            k = k + 1;
        }
    }

    /// Replaces each element by its remainder modulo `p`, which is at least zero and below
    /// `p`.
    pub fn modp(&mut self, p: &BigInt)
        requires
            old(self)@.len() == 4,
            p@ > 0,
        ensures
            final(self)@.len() == 4,
            forall|k: int| 0 <= k < 4 ==> #[trigger] final(self)@[k] == old(self)@[k] % p@,
    {
        let mut k: usize = 0;
        while k < 4
            invariant
                k <= 4,
                p@ > 0,
                self.data@.len() == 4,
                forall|q: int| 0 <= q < k ==> (#[trigger] self.data@[q])@ == old(self).data@[q]@ % p@,
                forall|q: int| k <= q < 4 ==> (#[trigger] self.data@[q])@ == old(self).data@[q]@,
            decreases 4 - k,
        {
            let s = int_mod_floor(&self.data[k], p);
            self.data[k] = s;
            k = k + 1;
        }
    }
}


/// A sum of two products keeps its remainder where the first factors are replaced by
/// numbers with the same remainders.
pub proof fn lemma_dot_congruent(x1: int, y1: int, x2: int, y2: int, r1: int, r2: int, m: int)
    requires
        m > 0,
        r1 % m == x1 % m,
        r2 % m == x2 % m,
    ensures
        (r1 * y1 + r2 * y2) % m == (x1 * y1 + x2 * y2) % m,
{
    vstd::arithmetic::div_mod::lemma_mul_mod_noop_left(r1, y1, m);
    vstd::arithmetic::div_mod::lemma_mul_mod_noop_left(x1, y1, m);
    vstd::arithmetic::div_mod::lemma_mul_mod_noop_left(r2, y2, m);
    vstd::arithmetic::div_mod::lemma_mul_mod_noop_left(x2, y2, m);
    lemma_add_mod_noop(r1 * y1, r2 * y2, m);
    lemma_add_mod_noop(x1 * y1, x2 * y2, m);
}

/// The number that `BIG::modneg` gives for `b`, times `k`, has the remainder of `-b * k`.
pub proof fn lemma_negated_product(b: int, k: int, m: int)
    requires
        m > 0,
    ensures
        (((m - b % m) * k) % m) % m == ((-b) * k) % m,
{
    vstd::arithmetic::div_mod::lemma_mod_add_multiples_vanish(-(b % m), m);
    vstd::arithmetic::div_mod::lemma_sub_mod_noop(0, b, m);
    vstd::arithmetic::div_mod::lemma_mul_mod_noop_left(m - b % m, k, m);
    vstd::arithmetic::div_mod::lemma_mul_mod_noop_left(-b, k, m);
    lemma_mod_twice((m - b % m) * k, m);
}

/// The inverse of a matrix times the matrix is the unit matrix, modulo `m`: the element in
/// row `r` and column `c` of the product leaves the remainder one where `r` is `c`, and zero
/// elsewhere.
pub proof fn lemma_inverse_times_matrix(w: &BigNumMatrix2x2, m: int, r: int, c: int)
    requires
        m > 0,
        w.has_inverse(m),
        0 <= r < 2,
        0 <= c < 2,
    ensures
        (w.inverse_at(m, r, 0) * w.at(0, c) + w.inverse_at(m, r, 1) * w.at(1, c)) % m == (if r
            == c {
            1int
        } else {
            0int
        }) % m,
{
    let a = w.at(0, 0) as int;
    let b = w.at(0, 1) as int;
    let cc = w.at(1, 0) as int;
    let d = w.at(1, 1) as int;
    let di = mod_inverse(w.det() % m, m);
    let det = w.det();
    assert(det == a * d - b * cc);
    // the inverse of the determinant
    vstd::arithmetic::div_mod::lemma_mul_mod_noop_right(di, det, m);
    assert((di * det) % m == 1) by {
        assert((det % m) * di == di * (det % m)) by (nonlinear_arith);
    }
    lemma_small_mod(1, m as nat);
    lemma_small_mod(0, m as nat);
    lemma_negated_product(b, di, m);
    lemma_negated_product(cc, di, m);
    lemma_mod_twice(d * di, m);
    lemma_mod_twice(a * di, m);
    if r == 0 {
        let y1 = w.at(0, c) as int;
        let y2 = w.at(1, c) as int;
        lemma_dot_congruent(d * di, y1, (-b) * di, y2, w.inverse_at(m, 0, 0), w.inverse_at(m, 0, 1), m);
        if c == 0 {
            assert((d * di) * a + ((-b) * di) * cc == di * det) by (nonlinear_arith)
                requires
                    det == a * d - b * cc,
            ;
        } else {
            assert((d * di) * b + ((-b) * di) * d == 0) by (nonlinear_arith);
        }
    } else {
        let y1 = w.at(0, c) as int;
        let y2 = w.at(1, c) as int;
        lemma_dot_congruent((-cc) * di, y1, a * di, y2, w.inverse_at(m, 1, 0), w.inverse_at(m, 1, 1), m);
        if c == 0 {
            assert(((-cc) * di) * a + (a * di) * cc == 0) by (nonlinear_arith);
        } else {
            assert(((-cc) * di) * b + (a * di) * d == di * det) by (nonlinear_arith)
                requires
                    det == a * d - b * cc,
            ;
        }
    }
}

} // verus!
