use vstd::arithmetic::div_mod::lemma_add_mod_noop;
use vstd::arithmetic::div_mod::lemma_fundamental_div_mod_converse;
use vstd::prelude::*;

verus! {

/// The sum of the first `m` elements of row `i` of `a`.
pub open spec fn row_sum(a: spec_fn(int, int) -> int, i: int, m: nat) -> int
    decreases m,
{
    if m == 0 {
        0
    } else {
        row_sum(a, i, (m - 1) as nat) + a(i, m - 1)
    }
}

/// The sum of the first `r` elements of column `j` of `a`.
pub open spec fn column_total(a: spec_fn(int, int) -> int, j: int, r: nat) -> int
    decreases r,
{
    if r == 0 {
        0
    } else {
        column_total(a, j, (r - 1) as nat) + a(r - 1, j)
    }
}

/// The sum of the elements of the first `r` rows and `c` columns of `a`, row by row.
pub open spec fn rows_total(a: spec_fn(int, int) -> int, r: nat, c: nat) -> int
    decreases r,
{
    if r == 0 {
        0
    } else {
        rows_total(a, (r - 1) as nat, c) + row_sum(a, r - 1, c)
    }
}

/// The sum of the elements of the first `r` rows and `c` columns of `a`, column by column.
pub open spec fn columns_total(a: spec_fn(int, int) -> int, r: nat, c: nat) -> int
    decreases c,
{
    if c == 0 {
        0
    } else {
        columns_total(a, r, (c - 1) as nat) + column_total(a, c - 1, r)
    }
}

/// The sum of the first `k` elements of `a` in row-major order, with `c` columns.
pub open spec fn flat_total(a: spec_fn(int, int) -> int, c: nat, k: nat) -> int
    decreases k,
{
    if k == 0 {
        0
    } else {
        flat_total(a, c, (k - 1) as nat) + a((k - 1) / (c as int), (k - 1) % (c as int))
    }
}

/// One more row adds one element to each column.
pub proof fn lemma_columns_total_step(a: spec_fn(int, int) -> int, r: nat, c: nat)
    ensures
        columns_total(a, r + 1, c) == columns_total(a, r, c) + row_sum(a, r as int, c),
    decreases c,
{
    if c > 0 {
        lemma_columns_total_step(a, r, (c - 1) as nat);
    }
}

/// Row by row and column by column give the same total.
pub proof fn lemma_totals_agree(a: spec_fn(int, int) -> int, r: nat, c: nat)
    ensures
        rows_total(a, r, c) == columns_total(a, r, c),
    decreases r,
{
    if r > 0 {
        lemma_totals_agree(a, (r - 1) as nat, c);
        lemma_columns_total_step(a, (r - 1) as nat, c);
    } else {
        lemma_columns_total_empty(a, c);
    }
}

pub proof fn lemma_columns_total_empty(a: spec_fn(int, int) -> int, c: nat)
    ensures
        columns_total(a, 0, c) == 0,
    decreases c,
{
    if c > 0 {
        lemma_columns_total_empty(a, (c - 1) as nat);
    }
}

/// The first `i` rows and the first `j` elements of the next, in row-major order.
pub proof fn lemma_flat_total_prefix(a: spec_fn(int, int) -> int, c: nat, i: nat, j: nat)
    requires
        j <= c,
    ensures
        flat_total(a, c, i * c + j) == rows_total(a, i, c) + row_sum(a, i as int, j),
    decreases i, j,
{
    if j > 0 {
        lemma_flat_total_prefix(a, c, i, (j - 1) as nat);
        let k = i * c + j;
        lemma_fundamental_div_mod_converse(k - 1, c as int, i as int, j - 1);
    } else if i > 0 {
        lemma_flat_total_prefix(a, c, (i - 1) as nat, c);
        assert((i - 1) * c + c == i * c) by (nonlinear_arith);
    } else {
        assert(0 * c == 0) by (nonlinear_arith);
    }
}

/// All elements in row-major order sum to the total.
pub proof fn lemma_flat_total_all(a: spec_fn(int, int) -> int, r: nat, c: nat)
    ensures
        flat_total(a, c, r * c) == rows_total(a, r, c),
{
    lemma_flat_total_prefix(a, c, r, 0);
}

/// Totals of elements that agree modulo `m` agree modulo `m`.
pub proof fn lemma_flat_total_congruent(
    a: spec_fn(int, int) -> int,
    b: spec_fn(int, int) -> int,
    c: nat,
    k: nat,
    m: int,
)
    requires
        m > 0,
        c > 0,
        forall|i: int, j: int| 0 <= i && 0 <= j < c && i * c + j < k ==> #[trigger] a(i, j) % m == b(i, j) % m,
    ensures
        flat_total(a, c, k) % m == flat_total(b, c, k) % m,
    decreases k,
{
    if k > 0 {
        lemma_flat_total_congruent(a, b, c, (k - 1) as nat, m);
        let i = (k - 1) / (c as int);
        let j = (k - 1) % (c as int);
        vstd::arithmetic::div_mod::lemma_fundamental_div_mod(k - 1, c as int);
        vstd::arithmetic::div_mod::lemma_mod_bound(k - 1, c as int);
        vstd::arithmetic::div_mod::lemma_div_pos_is_pos(k - 1, c as int);
        assert(i * c == c * i) by (nonlinear_arith);
        assert(a(i, j) % m == b(i, j) % m);
        lemma_add_mod_noop(flat_total(a, c, (k - 1) as nat), a(i, j), m);
        lemma_add_mod_noop(flat_total(b, c, (k - 1) as nat), b(i, j), m);
    }
}

/// The total of differences is the difference of the totals, and a common factor moves out.
pub proof fn lemma_flat_total_combines(
    a: spec_fn(int, int) -> int,
    b: spec_fn(int, int) -> int,
    d: spec_fn(int, int) -> int,
    f: int,
    c: nat,
    k: nat,
)
    requires
        forall|i: int, j: int| #[trigger] d(i, j) == a(i, j) - f * b(i, j),
    ensures
        flat_total(d, c, k) == flat_total(a, c, k) - f * flat_total(b, c, k),
    decreases k,
{
    if k > 0 {
        lemma_flat_total_combines(a, b, d, f, c, (k - 1) as nat);
        let i = (k - 1) / (c as int);
        let j = (k - 1) % (c as int);
        let tb = flat_total(b, c, (k - 1) as nat);
        assert(d(i, j) == a(i, j) - f * b(i, j));
        assert(f * (tb + b(i, j)) == f * tb + f * b(i, j)) by (nonlinear_arith);
    } else {
        assert(f * 0 == 0) by (nonlinear_arith);
    }
}

} // verus!
