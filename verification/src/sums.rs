//! Finite sums and congruences: the algebra behind the laws of the
//! polynomial arithmetic.

use vstd::prelude::*;
use vstd::arithmetic::power::pow;

verus! {

/// Whether `a` and `b` leave the same remainder modulo `p`.
pub open spec fn cong(a: int, b: int, p: int) -> bool {
    a % p == b % p
}

/// Sums of congruent values are congruent.
pub proof fn lemma_cong_add(a: int, b: int, c: int, d: int, p: int)
    requires
        p > 0,
        cong(a, b, p),
        cong(c, d, p),
    ensures
        cong(a + c, b + d, p),
{
    vstd::arithmetic::div_mod::lemma_add_mod_noop(a, c, p);
    vstd::arithmetic::div_mod::lemma_add_mod_noop(b, d, p);
}

/// Products of congruent values are congruent.
pub proof fn lemma_cong_mul(a: int, b: int, c: int, d: int, p: int)
    requires
        p > 0,
        cong(a, b, p),
        cong(c, d, p),
    ensures
        cong(a * c, b * d, p),
{
    vstd::arithmetic::div_mod::lemma_mul_mod_noop_general(a, c, p);
    vstd::arithmetic::div_mod::lemma_mul_mod_noop_general(b, d, p);
}

/// A value is congruent to its remainder.
pub proof fn lemma_cong_residue(a: int, p: int)
    requires
        p > 0,
    ensures
        cong(a % p, a, p),
{
    vstd::arithmetic::div_mod::lemma_mod_twice(a, p);
}

/// Powers of congruent values are congruent.
pub proof fn lemma_cong_pow(a: int, b: int, e: nat, p: int)
    requires
        p > 0,
        cong(a, b, p),
    ensures
        cong(pow(a, e), pow(b, e), p),
    decreases e,
{
    reveal(pow);
    if e > 0 {
        lemma_cong_pow(a, b, (e - 1) as nat, p);
        lemma_cong_mul(a, b, pow(a, (e - 1) as nat), pow(b, (e - 1) as nat), p);
    }
}

/// A power of a value congruent to 1 is congruent to 1.
pub proof fn lemma_cong_pow_one(a: int, e: nat, p: int)
    requires
        p > 0,
        cong(a, 1, p),
    ensures
        cong(pow(a, e), 1, p),
{
    lemma_cong_pow(a, 1, e, p);
    vstd::arithmetic::power::lemma1_pow(e);
}

/// The sum of `f(0)`, ..., `f(n - 1)`.
pub open spec fn sum_to(f: spec_fn(int) -> int, n: nat) -> int
    decreases n,
{
    if n == 0 {
        0
    } else {
        sum_to(f, (n - 1) as nat) + f(n - 1)
    }
}

/// The sum of `t(i, 0)`, ..., `t(i, m - 1)`.
pub open spec fn sum_row(t: spec_fn(int, int) -> int, i: int, m: nat) -> int
    decreases m,
{
    if m == 0 {
        0
    } else {
        sum_row(t, i, (m - 1) as nat) + t(i, m - 1)
    }
}

/// The sum of `t(0, j)`, ..., `t(n - 1, j)`.
pub open spec fn sum_col(t: spec_fn(int, int) -> int, j: int, n: nat) -> int
    decreases n,
{
    if n == 0 {
        0
    } else {
        sum_col(t, j, (n - 1) as nat) + t(n - 1, j)
    }
}

/// The sum of the first `n` rows of `t`, each of `m` entries.
pub open spec fn sum_rows(t: spec_fn(int, int) -> int, n: nat, m: nat) -> int
    decreases n,
{
    if n == 0 {
        0
    } else {
        sum_rows(t, (n - 1) as nat, m) + sum_row(t, n - 1, m)
    }
}

/// The sum of the first `m` columns of `t`, each of `n` entries.
pub open spec fn sum_cols(t: spec_fn(int, int) -> int, n: nat, m: nat) -> int
    decreases m,
{
    if m == 0 {
        0
    } else {
        sum_cols(t, n, (m - 1) as nat) + sum_col(t, m - 1, n)
    }
}

/// Sums of termwise congruent values are congruent.
pub proof fn lemma_sum_cong(f: spec_fn(int) -> int, g: spec_fn(int) -> int, n: nat, p: int)
    requires
        p > 0,
        forall|i: int| 0 <= i < n ==> cong(#[trigger] f(i), g(i), p),
    ensures
        cong(sum_to(f, n), sum_to(g, n), p),
    decreases n,
{
    if n > 0 {
        lemma_sum_cong(f, g, (n - 1) as nat, p);
        assert(cong(f(n - 1), g(n - 1), p));
        lemma_cong_add(sum_to(f, (n - 1) as nat), sum_to(g, (n - 1) as nat), f(n - 1), g(n - 1), p);
    }
}

/// A factor common to all terms can be taken out of a sum.
pub proof fn lemma_sum_scale(f: spec_fn(int) -> int, g: spec_fn(int) -> int, s: int, n: nat)
    requires
        forall|i: int| 0 <= i < n ==> #[trigger] g(i) == s * f(i),
    ensures
        sum_to(g, n) == s * sum_to(f, n),
    decreases n,
{
    if n > 0 {
        lemma_sum_scale(f, g, s, (n - 1) as nat);
        let a = sum_to(f, (n - 1) as nat);
        let b = f(n - 1);
        assert(g(n - 1) == s * b);
        assert(s * a + s * b == s * (a + b)) by (nonlinear_arith);
    } else {
        assert(s * 0 == 0) by (nonlinear_arith);
    }
}

/// A sum whose terms but one are congruent to zero is congruent to that
/// one term.
pub proof fn lemma_sum_single(f: spec_fn(int) -> int, n: nat, k: int, p: int)
    requires
        p > 0,
        forall|i: int| 0 <= i < n && i != k ==> cong(#[trigger] f(i), 0, p),
    ensures
        cong(
            sum_to(f, n),
            if 0 <= k < n {
                f(k)
            } else {
                0
            },
            p,
        ),
    decreases n,
{
    if n > 0 {
        lemma_sum_single(f, (n - 1) as nat, k, p);
        let before = sum_to(f, (n - 1) as nat);
        if k == n - 1 {
            lemma_cong_add(before, 0, f(n - 1), f(n - 1), p);
        } else {
            assert(cong(f(n - 1), 0, p));
            let target: int = if 0 <= k < n {
                f(k)
            } else {
                0
            };
            lemma_cong_add(before, target, f(n - 1), 0, p);
        }
    }
}

/// Adding a row to a table adds one entry to each column.
pub proof fn lemma_sum_cols_grow(t: spec_fn(int, int) -> int, n: nat, m: nat)
    requires
        n > 0,
    ensures
        sum_cols(t, n, m) == sum_cols(t, (n - 1) as nat, m) + sum_row(t, n - 1, m),
    decreases m,
{
    if m > 0 {
        lemma_sum_cols_grow(t, n, (m - 1) as nat);
    }
}

/// A table adds up to the same by rows and by columns.
pub proof fn lemma_sum_swap(t: spec_fn(int, int) -> int, n: nat, m: nat)
    ensures
        sum_rows(t, n, m) == sum_cols(t, n, m),
    decreases n,
{
    if n > 0 {
        lemma_sum_swap(t, (n - 1) as nat, m);
        lemma_sum_cols_grow(t, n, m);
    } else {
        lemma_sum_cols_empty(t, m);
    }
}

/// A table without rows adds up to zero.
pub proof fn lemma_sum_cols_empty(t: spec_fn(int, int) -> int, m: nat)
    ensures
        sum_cols(t, 0, m) == 0,
    decreases m,
{
    if m > 0 {
        lemma_sum_cols_empty(t, (m - 1) as nat);
    }
}

/// The sum of the rows is the sum of the sums of the rows.
pub proof fn lemma_sum_rows_as_sum(
    t: spec_fn(int, int) -> int,
    f: spec_fn(int) -> int,
    n: nat,
    m: nat,
)
    requires
        forall|i: int| 0 <= i < n ==> #[trigger] f(i) == sum_row(t, i, m),
    ensures
        sum_rows(t, n, m) == sum_to(f, n),
    decreases n,
{
    if n > 0 {
        lemma_sum_rows_as_sum(t, f, (n - 1) as nat, m);
        assert(f(n - 1) == sum_row(t, n - 1, m));
    }
}

/// The sum of the columns is the sum of the sums of the columns.
pub proof fn lemma_sum_cols_as_sum(
    t: spec_fn(int, int) -> int,
    g: spec_fn(int) -> int,
    n: nat,
    m: nat,
)
    requires
        forall|j: int| 0 <= j < m ==> #[trigger] g(j) == sum_col(t, j, n),
    ensures
        sum_cols(t, n, m) == sum_to(g, m),
    decreases m,
{
    if m > 0 {
        lemma_sum_cols_as_sum(t, g, n, (m - 1) as nat);
        assert(g(m - 1) == sum_col(t, m - 1, n));
    }
}

/// A row of a table is the sum of its entries.
pub proof fn lemma_sum_row_as_sum(t: spec_fn(int, int) -> int, f: spec_fn(int) -> int, i: int, m: nat)
    requires
        forall|j: int| 0 <= j < m ==> #[trigger] f(j) == t(i, j),
    ensures
        sum_row(t, i, m) == sum_to(f, m),
    decreases m,
{
    if m > 0 {
        lemma_sum_row_as_sum(t, f, i, (m - 1) as nat);
        assert(f(m - 1) == t(i, m - 1));
    }
}

/// A column of a table is the sum of its entries.
pub proof fn lemma_sum_col_as_sum(t: spec_fn(int, int) -> int, f: spec_fn(int) -> int, j: int, n: nat)
    requires
        forall|i: int| 0 <= i < n ==> #[trigger] f(i) == t(i, j),
    ensures
        sum_col(t, j, n) == sum_to(f, n),
    decreases n,
{
    if n > 0 {
        lemma_sum_col_as_sum(t, f, j, (n - 1) as nat);
        assert(f(n - 1) == t(n - 1, j));
    }
}

} // verus!
