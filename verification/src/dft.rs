//! Why interpolation on a subgroup is right: the polynomial that the inverse
//! transform gives takes the given values at the powers of the generator.

use vstd::prelude::*;
use vstd::arithmetic::power::pow;
use crate::field::{is_inverse, spec_inverse, spec_pow_mod};
use crate::poly::{can_interpolate, poly_value, spec_evaluate, spec_interpolate, transform_sum};
use crate::sums::{
    cong,
    lemma_cong_mul,
    lemma_cong_pow,
    lemma_cong_pow_one,
    lemma_cong_residue,
    lemma_sum_col_as_sum,
    lemma_sum_cols_as_sum,
    lemma_sum_cong,
    lemma_sum_rows_as_sum,
    lemma_sum_scale,
    lemma_sum_single,
    lemma_sum_swap,
    sum_col,
    sum_row,
    sum_to,
};

verus! {

/// The sum of the powers `w^(j * m)` for `j` below `n`.
pub open spec fn power_sum(w: u64, m: nat, n: nat) -> int
    decreases n,
{
    if n == 0 {
        0
    } else {
        power_sum(w, m, (n - 1) as nat) + pow(w as int, ((n - 1) * m) as nat)
    }
}

/// Whether `w` is a principal root of unity of order `n` modulo `p`: its
/// power `n` is 1, and for each `m` between 0 and `n` the powers
/// `w^(j * m)`, `j` below `n`, add up to zero. A generator of a subgroup of
/// order `n` of the units modulo a prime is one.
pub open spec fn is_principal_root(w: u64, n: nat, p: u64) -> bool {
    &&& cong(pow(w as int, n), 1, p as int)
    &&& forall|m: nat| 0 < m < n ==> cong(#[trigger] power_sum(w, m, n), 0, p as int)
}

/// Multiplying each term of a sum by `x` and moving it up by one place
/// gives the sum without its first term.
pub proof fn lemma_sum_shift(f: spec_fn(int) -> int, g: spec_fn(int) -> int, x: int, n: nat)
    requires
        forall|j: int| 0 <= j < n ==> #[trigger] f(j + 1) == x * g(j),
    ensures
        sum_to(f, n + 1) == f(0) + x * sum_to(g, n),
    decreases n,
{
    reveal_with_fuel(sum_to, 2);
    if n > 0 {
        lemma_sum_shift(f, g, x, (n - 1) as nat);
        let a = sum_to(g, (n - 1) as nat);
        let b = g(n - 1);
        assert(f(n - 1 + 1) == x * b);
        assert(x * a + x * b == x * (a + b)) by (nonlinear_arith);
    } else {
        assert(x * 0 == 0) by (nonlinear_arith);
    }
}

/// The value of a polynomial is the sum of its coefficients times the
/// powers of the point.
pub proof fn lemma_value_as_sum(c: Seq<u64>, x: int, f: spec_fn(int) -> int)
    requires
        forall|j: int| 0 <= j < c.len() ==> #[trigger] f(j) == c[j] * pow(x, j as nat),
    ensures
        poly_value(c, x) == sum_to(f, c.len()),
    decreases c.len(),
{
    if c.len() > 0 {
        let rest = c.skip(1);
        let g = |j: int| rest[j] * pow(x, j as nat);
        lemma_value_as_sum(rest, x, g);
        assert forall|j: int| 0 <= j < rest.len() implies #[trigger] f(j + 1) == x * g(j) by {
            reveal(pow);
            let pj = pow(x, j as nat);
            assert(pow(x, (j + 1) as nat) == x * pj);
            assert(c[j + 1] * (x * pj) == x * (c[j + 1] * pj)) by (nonlinear_arith);
        }
        lemma_sum_shift(f, g, x, rest.len());
        assert(f(0) == c[0] * pow(x, 0));
        vstd::arithmetic::power::lemma_pow0(x);
    }
}

/// The sum of `n` ones is `n`.
pub proof fn lemma_sum_of_ones(f: spec_fn(int) -> int, n: nat)
    requires
        forall|j: int| 0 <= j < n ==> #[trigger] f(j) == 1,
    ensures
        sum_to(f, n) == n,
    decreases n,
{
    if n > 0 {
        lemma_sum_of_ones(f, (n - 1) as nat);
        assert(f(n - 1) == 1);
    }
}

/// The sum of the powers `w^(j * m)` as a sum of terms.
pub proof fn lemma_power_sum_as_sum(w: u64, m: nat, n: nat, f: spec_fn(int) -> int)
    requires
        forall|j: int| 0 <= j < n ==> #[trigger] f(j) == pow(w as int, (j * m) as nat),
    ensures
        power_sum(w, m, n) == sum_to(f, n),
    decreases n,
{
    if n > 0 {
        lemma_power_sum_as_sum(w, m, (n - 1) as nat, f);
        assert(f(n - 1) == pow(w as int, ((n - 1) * m) as nat));
    }
}

/// The transform sums of values as a sum of terms.
pub proof fn lemma_transform_as_sum(ys: Seq<u64>, u: u64, j: nat, n: nat, f: spec_fn(int) -> int)
    requires
        forall|i: int| 0 <= i < n ==> #[trigger] f(i) == ys[i] * pow(u as int, (i * j) as nat),
    ensures
        transform_sum(ys, u, j, n) == sum_to(f, n),
    decreases n,
{
    if n > 0 {
        lemma_transform_as_sum(ys, u, j, (n - 1) as nat, f);
        assert(f(n - 1) == ys[n - 1] * pow(u as int, ((n - 1) * j) as nat));
    }
}

/// Where `u` inverts `w`, the power `u^a` cancels `a` of the factors of
/// `w^(a + b)`.
pub proof fn lemma_inverse_cancels(u: int, w: int, a: nat, b: nat, p: int)
    requires
        p > 0,
        cong(w * u, 1, p),
    ensures
        cong(pow(u, a) * pow(w, a + b), pow(w, b), p),
        cong(pow(u, a + b) * pow(w, a), pow(u, b), p),
{
    vstd::arithmetic::power::lemma_pow_adds(w, a, b);
    vstd::arithmetic::power::lemma_pow_adds(u, a, b);
    vstd::arithmetic::power::lemma_pow_distributes(w, u, a);
    lemma_cong_pow_one(w * u, a, p);
    let one = pow(w * u, a);
    let ua = pow(u, a);
    let wa = pow(w, a);
    let ub = pow(u, b);
    let wb = pow(w, b);
    assert(one == wa * ua);
    assert(ua * (wa * wb) == one * wb) by (nonlinear_arith)
        requires
            one == wa * ua,
    ;
    assert((ua * ub) * wa == one * ub) by (nonlinear_arith)
        requires
            one == wa * ua,
    ;
    lemma_cong_mul(one, 1, wb, wb, p);
    lemma_cong_mul(one, 1, ub, ub, p);
}

/// The kernel of the transform: for `i` and `k` below `n` the products
/// `u^(i * j) * w^(k * j)`, `j` below `n`, add up to `n` where `i` is `k`
/// and to zero elsewhere, modulo `p`.
pub proof fn lemma_kernel(w: u64, u: u64, n: nat, p: u64, i: nat, k: nat, d: spec_fn(int) -> int)
    requires
        p > 0,
        i < n,
        k < n,
        cong(w * u, 1, p as int),
        is_principal_root(w, n, p),
        forall|j: int|
            0 <= j < n ==> #[trigger] d(j) == pow(u as int, (i * j) as nat) * pow(
                w as int,
                (k * j) as nat,
            ),
    ensures
        cong(
            sum_to(d, n),
            if i == k {
                n as int
            } else {
                0
            },
            p as int,
        ),
{
    let m = p as int;
    let ww = w as int;
    let uu = u as int;
    if i == k {
        let ones = |j: int| 1int;
        assert forall|j: int| 0 <= j < n implies cong(#[trigger] d(j), ones(j), m) by {
            assert(i * j >= 0) by (nonlinear_arith)
                requires
                    i >= 0,
                    j >= 0,
            ;
            lemma_inverse_cancels(uu, ww, (i * j) as nat, 0, m);
            vstd::arithmetic::power::lemma_pow0(ww);
        }
        lemma_sum_cong(d, ones, n, m);
        lemma_sum_of_ones(ones, n);
    } else if i < k {
        let gap = (k - i) as nat;
        let f = |j: int| pow(ww, (j * gap) as nat);
        assert forall|j: int| 0 <= j < n implies cong(#[trigger] d(j), f(j), m) by {
            assert(i * j >= 0 && j * gap >= 0 && k * j == i * j + j * gap) by (nonlinear_arith)
                requires
                    i >= 0,
                    j >= 0,
                    gap == k - i,
                    gap >= 0,
            ;
            lemma_inverse_cancels(uu, ww, (i * j) as nat, (j * gap) as nat, m);
        }
        lemma_sum_cong(d, f, n, m);
        lemma_power_sum_as_sum(w, gap, n, f);
        assert(cong(power_sum(w, gap, n), 0, m));
    } else {
        let gap = (i - k) as nat;
        let back = (n - gap) as nat;
        let f = |j: int| pow(ww, (j * back) as nat);
        assert forall|j: int| 0 <= j < n implies cong(#[trigger] d(j), f(j), m) by {
            assert(k * j >= 0 && j * gap >= 0 && j * back >= 0 && i * j == k * j + j * gap && j
                * gap + j * back == n * j) by (nonlinear_arith)
                requires
                    k >= 0,
                    j >= 0,
                    gap == i - k,
                    gap >= 0,
                    back == n - gap,
                    back >= 0,
            ;
            // d(j) is congruent to u^(j * gap)
            lemma_inverse_cancels(uu, ww, (k * j) as nat, (j * gap) as nat, m);
            let ug = pow(uu, (j * gap) as nat);
            assert(cong(d(j), ug, m));
            // u^(j * gap) * w^(n * j) is congruent to w^(j * back)
            lemma_inverse_cancels(uu, ww, (j * gap) as nat, (j * back) as nat, m);
            // and w^(n * j) is congruent to 1
            vstd::arithmetic::power::lemma_pow_multiplies(ww, n, j as nat);
            lemma_cong_pow_one(pow(ww, n), j as nat, m);
            let wn = pow(ww, (n * j) as nat);
            lemma_cong_mul(ug, ug, wn, 1, m);
            assert(ug * 1 == ug);
        }
        lemma_sum_cong(d, f, n, m);
        lemma_power_sum_as_sum(w, back, n, f);
        assert(cong(power_sum(w, back, n), 0, m));
    }
}

/// Interpolation is right: where `w` is a principal root of unity of order
/// `ys.len()` modulo `p`, the polynomial that `spec_interpolate` gives for
/// the values `ys` takes the value `ys[k]` at `w^k`, modulo `p`.
pub proof fn lemma_interpolation_values(ys: Seq<u64>, p: u64, w: u64, k: nat)
    requires
        p > 0,
        k < ys.len(),
        ys.len() <= u64::MAX,
        can_interpolate(ys.len(), p, w),
        is_principal_root(w, ys.len(), p),
    ensures
        spec_evaluate(spec_interpolate(ys, p, w), spec_pow_mod(w, k as u64, p) as u64, p) == ys[k as int]
            % p,
{
    let n = ys.len();
    let m = p as int;
    let ww = w as int;
    let u = spec_inverse(w, p);
    let uu = u as int;
    let nmod = (n % (p as nat)) as u64;
    let ninv = spec_inverse(nmod, p);
    let c = spec_interpolate(ys, p, w);
    let xk = spec_pow_mod(w, k as u64, p) as u64;
    let x = xk as int;
    assert(is_inverse(w, u, p));
    assert(is_inverse(nmod, ninv, p));
    vstd::arithmetic::div_mod::lemma_mod_bound(pow(ww, k), m);
    lemma_cong_residue(pow(ww, k), m);
    assert(cong(x, pow(ww, k), m));
    vstd::arithmetic::div_mod::lemma_small_mod(1, 2);

    // the value as a sum over the coefficients
    let f = |j: int| c[j] * pow(x, j as nat);
    lemma_value_as_sum(c, x, f);

    // each coefficient is the transform sum divided by the number of values
    let h2 = |j: int| transform_sum(ys, u, j as nat, n) * pow(ww, (k * j) as nat);
    let h = |j: int| ninv * h2(j);
    assert forall|j: int| 0 <= j < n implies cong(#[trigger] f(j), h(j), m) by {
        let tj = transform_sum(ys, u, j as nat, n);
        assert(k * j >= 0) by (nonlinear_arith)
            requires
                k >= 0,
                j >= 0,
        ;
        let pw = pow(ww, (k * j) as nat);
        vstd::arithmetic::div_mod::lemma_mod_bound(ninv * (tj % m), m);
        lemma_cong_residue(ninv * (tj % m), m);
        lemma_cong_residue(tj, m);
        lemma_cong_mul(ninv as int, ninv as int, tj % m, tj, m);
        assert(cong(c[j] as int, ninv * tj, m));
        lemma_cong_pow(x, pow(ww, k), j as nat, m);
        vstd::arithmetic::power::lemma_pow_multiplies(ww, k, j as nat);
        lemma_cong_mul(c[j] as int, ninv * tj, pow(x, j as nat), pw, m);
        assert((ninv * tj) * pw == ninv * (tj * pw)) by (nonlinear_arith);
    }
    lemma_sum_cong(f, h, n, m);
    lemma_sum_scale(h2, h, ninv as int, n);

    // the transform sums as the rows of a table
    let t = |j: int, i: int| ys[i] * (pow(uu, (i * j) as nat) * pow(ww, (k * j) as nat));
    assert forall|j: int| 0 <= j < n implies #[trigger] h2(j) == sum_row(t, j, n) by {
        let pw = pow(ww, (k * j) as nat);
        let q = |i: int| ys[i] * pow(uu, (i * j) as nat);
        let r = |i: int| t(j, i);
        crate::sums::lemma_sum_row_as_sum(t, r, j, n);
        assert forall|i: int| 0 <= i < n implies #[trigger] r(i) == pw * q(i) by {
            let a = ys[i] as int;
            let b = pow(uu, (i * j) as nat);
            assert(a * (b * pw) == pw * (a * b)) by (nonlinear_arith);
        }
        lemma_sum_scale(q, r, pw, n);
        lemma_transform_as_sum(ys, u, j as nat, n, q);
        let tj = transform_sum(ys, u, j as nat, n);
        assert(tj * pw == pw * tj) by (nonlinear_arith);
    }
    lemma_sum_rows_as_sum(t, h2, n, n);
    lemma_sum_swap(t, n, n);

    // the columns of the table, by the kernel of the transform
    let g2 = |i: int| sum_col(t, i, n);
    lemma_sum_cols_as_sum(t, g2, n, n);
    let target = |i: int|
        if i == k {
            ys[i] * (n as int)
        } else {
            0int
        };
    assert forall|i: int| 0 <= i < n implies cong(#[trigger] g2(i), target(i), m) by {
        let d = |j: int| pow(uu, (i * j) as nat) * pow(ww, (k * j) as nat);
        let e = |j: int| t(j, i);
        lemma_sum_col_as_sum(t, e, i, n);
        lemma_sum_scale(d, e, ys[i] as int, n);
        lemma_kernel(w, u, n, p, i as nat, k, d);
        let delta: int = if i == k {
            n as int
        } else {
            0
        };
        lemma_cong_mul(ys[i] as int, ys[i] as int, sum_to(d, n), delta, m);
        assert(ys[i] * 0 == 0);
    }
    assert forall|i: int| 0 <= i < n && i != k implies cong(#[trigger] g2(i), 0, m) by {
        assert(cong(g2(i), target(i), m));
    }
    lemma_sum_single(g2, n, k as int, m);
    assert(cong(g2(k as int), target(k as int), m));
    let total = sum_to(g2, n);
    assert(cong(total, ys[k as int] * (n as int), m));

    // the number of values cancels against its inverse
    lemma_cong_residue(n as int, m);
    lemma_cong_mul(nmod as int, n as int, ninv as int, ninv as int, m);
    assert(cong(n * ninv, 1, m));
    lemma_cong_mul(ninv as int, ninv as int, total, ys[k as int] * (n as int), m);
    lemma_cong_mul(n * ninv, 1, ys[k as int] as int, ys[k as int] as int, m);
    assert(ninv * (ys[k as int] * (n as int)) == (n * ninv) * ys[k as int]) by (nonlinear_arith);
    assert(sum_to(h, n) == ninv * total);
}

} // verus!
