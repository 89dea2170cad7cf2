//! The interpolation formula of Lagrange: a polynomial with as many
//! coefficients as there are points is, at every point, the combination of
//! its values at the points with the basis polynomials.

use vstd::prelude::*;
use crate::field::{invertible, is_inverse, spec_inverse, spec_sub_mod};
use crate::interpolate::{
    lagrange_defined,
    lagrange_denominator,
    lagrange_factor,
    lagrange_product,
    spec_lagrange_basis,
};
use crate::poly::{
    int_poly_value,
    lemma_product_value,
    lemma_sum_value,
    lemma_zero_value,
    poly_value,
    spec_product,
};
use crate::sums::{cong, lemma_cong_add, lemma_cong_mul, lemma_cong_residue};
use crate::unique::{lemma_roots_force_zero, lemma_zero_coefficients};

verus! {

/// The coefficients of the polynomial `s * (X - a)` modulo `p`.
pub open spec fn linear_factor(a: u64, s: u64, p: u64) -> Seq<u64> {
    seq![((s * ((p - a % p) % (p as int))) % (p as int)) as u64, (s % p) as u64]
}

/// The value of `s * (X - a)` at `r`.
pub proof fn lemma_linear_value(a: u64, s: u64, p: u64, r: int)
    requires
        p > 0,
    ensures
        cong(poly_value(linear_factor(a, s, p), r), s * (r - a), p as int),
{
    reveal_with_fuel(poly_value, 3);
    let m = p as int;
    let f = linear_factor(a, s, p);
    assert(f.skip(1).skip(1).len() == 0);
    assert(f.skip(1)[0] == f[1]);
    let neg = (p - a % p) % m;
    assert(poly_value(f, r) == f[0] + r * (f[1] + r * 0));
    assert(r * 0 == 0);
    // -a is p - a % p modulo p
    vstd::arithmetic::div_mod::lemma_mod_bound(a as int, m);
    lemma_cong_residue(p - a % p, m);
    lemma_cong_residue(a as int, m);
    vstd::arithmetic::div_mod::lemma_mod_self_0(m);
    vstd::arithmetic::div_mod::lemma_sub_mod_noop(m, a as int, m);
    vstd::arithmetic::div_mod::lemma_sub_mod_noop_right(m, a as int, m);
    vstd::arithmetic::div_mod::lemma_sub_mod_noop(0, a as int, m);
    vstd::arithmetic::div_mod::lemma_small_mod(0, m as nat);
    assert(cong(neg, 0 - a, m));
    // the constant term
    vstd::arithmetic::div_mod::lemma_mod_bound(s * neg, m);
    lemma_cong_residue(s * neg, m);
    lemma_cong_mul(s as int, s as int, neg, 0 - a, m);
    assert(cong(f[0] as int, s * (0 - a), m));
    // the linear term
    vstd::arithmetic::div_mod::lemma_mod_bound(s as int, m);
    lemma_cong_residue(s as int, m);
    lemma_cong_mul(r, r, f[1] as int, s as int, m);
    lemma_cong_add(f[0] as int, s * (0 - a), r * f[1], r * s, m);
    assert(s * (0 - a) + r * s == s * (r - a)) by (nonlinear_arith);
}

/// The coefficients of the basis polynomial `i` of the first `n` points of
/// `xs`: the product of the polynomials `(X - xs[m]) / (xs[i] - xs[m])`.
pub open spec fn lagrange_poly(xs: Seq<u64>, p: u64, i: int, n: nat) -> Seq<u64>
    decreases n,
{
    if n == 0 {
        seq![(1int % (p as int)) as u64]
    } else if n - 1 == i {
        lagrange_poly(xs, p, i, (n - 1) as nat)
    } else {
        spec_product(
            lagrange_poly(xs, p, i, (n - 1) as nat),
            linear_factor(xs[n - 1], spec_inverse(lagrange_denominator(xs, p, i, n - 1), p), p),
            p,
        )
    }
}

/// The basis polynomial of one of `n` points has `n` coefficients.
pub proof fn lemma_lagrange_poly_len(xs: Seq<u64>, p: u64, i: int, n: nat)
    ensures
        lagrange_poly(xs, p, i, n).len() == (if 0 <= i < n {
            n
        } else {
            n + 1
        }),
    decreases n,
{
    if n > 0 {
        lemma_lagrange_poly_len(xs, p, i, (n - 1) as nat);
    }
}

/// The value of the basis polynomial at `r` is the product of its factors.
pub proof fn lemma_lagrange_poly_value(xs: Seq<u64>, p: u64, i: int, n: nat, r: u64)
    requires
        p > 0,
        n <= xs.len(),
    ensures
        cong(
            poly_value(lagrange_poly(xs, p, i, n), r as int),
            lagrange_product(xs, p, r, i, n),
            p as int,
        ),
    decreases n,
{
    let m = p as int;
    if n == 0 {
        reveal_with_fuel(poly_value, 2);
        let f = lagrange_poly(xs, p, i, 0);
        assert(f.skip(1).len() == 0);
        assert(poly_value(f, r as int) == f[0] + r * 0);
        vstd::arithmetic::div_mod::lemma_mod_bound(1, m);
        lemma_cong_residue(1, m);
    } else {
        let before = lagrange_poly(xs, p, i, (n - 1) as nat);
        lemma_lagrange_poly_value(xs, p, i, (n - 1) as nat, r);
        let pb = lagrange_product(xs, p, r, i, (n - 1) as nat);
        if n - 1 == i {
            assert(pb * 1 == pb);
        } else {
            let s = spec_inverse(lagrange_denominator(xs, p, i, n - 1), p);
            let lin = linear_factor(xs[n - 1], s, p);
            lemma_product_value(before, lin, r, p);
            lemma_linear_value(xs[n - 1], s, p, r as int);
            let vb = poly_value(before, r as int);
            let vl = poly_value(lin, r as int);
            // the value of the product polynomial
            lemma_cong_residue(vb, m);
            lemma_cong_residue(vl, m);
            lemma_cong_mul(vb % m, vb, vl % m, vl, m);
            lemma_cong_residue((vb % m) * (vl % m), m);
            assert(cong(poly_value(lagrange_poly(xs, p, i, n), r as int), vb * vl, m));
            // the factor of the point
            let diff = spec_sub_mod(r, xs[n - 1], p);
            lemma_cong_residue(r - xs[n - 1], m);
            lemma_cong_mul(s as int, s as int, r - xs[n - 1], diff, m);
            assert(s * diff == diff * s) by (nonlinear_arith);
            assert(lagrange_factor(xs, p, r, i, n - 1) == diff * s);
            lemma_cong_mul(vb, pb, vl, diff * s, m);
        }
    }
}

/// At its own point the basis polynomial is 1.
pub proof fn lemma_lagrange_at_own_point(xs: Seq<u64>, p: u64, i: int, n: nat)
    requires
        p > 0,
        0 <= i < xs.len(),
        n <= xs.len(),
        lagrange_defined(xs, p, i),
    ensures
        cong(lagrange_product(xs, p, xs[i], i, n), 1, p as int),
    decreases n,
{
    let m = p as int;
    if n > 0 {
        lemma_lagrange_at_own_point(xs, p, i, (n - 1) as nat);
        let pb = lagrange_product(xs, p, xs[i], i, (n - 1) as nat);
        if n - 1 == i {
            assert(pb * 1 == pb);
        } else {
            let d = lagrange_denominator(xs, p, i, n - 1);
            assert(invertible(d, p));
            let s = spec_inverse(d, p);
            assert(is_inverse(d, s, p));
            vstd::arithmetic::div_mod::lemma_mod_bound(xs[i] - xs[n - 1], m);
            assert(lagrange_factor(xs, p, xs[i], i, n - 1) == d * s);
            lemma_cong_mul(pb, 1, d * s, 1, m);
        }
    }
}

/// At another of the points the basis polynomial is 0.
pub proof fn lemma_lagrange_at_other_point(xs: Seq<u64>, p: u64, i: int, k: int, n: nat)
    requires
        p > 0,
        0 <= k < n,
        k != i,
        n <= xs.len(),
    ensures
        cong(lagrange_product(xs, p, xs[k], i, n), 0, p as int),
    decreases n,
{
    let m = p as int;
    let pb = lagrange_product(xs, p, xs[k], i, (n - 1) as nat);
    let f = lagrange_factor(xs, p, xs[k], i, n - 1);
    if n - 1 == k {
        let s = spec_inverse(lagrange_denominator(xs, p, i, k), p);
        vstd::arithmetic::div_mod::lemma_small_mod(0, m as nat);
        assert(spec_sub_mod(xs[k], xs[k], p) == 0);
        assert(0 * s == 0);
        assert(pb * 0 == 0);
    } else {
        lemma_lagrange_at_other_point(xs, p, i, k, (n - 1) as nat);
        lemma_cong_mul(pb, 0, f, f, m);
        assert(0 * f == 0);
    }
}

/// The sum of `v[i]` times the value at `r` of basis polynomial `i`, for
/// `i` below `count`.
pub open spec fn lagrange_sum(v: Seq<int>, xs: Seq<u64>, p: u64, r: u64, count: nat) -> int
    decreases count,
{
    if count == 0 {
        0
    } else {
        lagrange_sum(v, xs, p, r, (count - 1) as nat) + v[count - 1] * spec_lagrange_basis(
            xs,
            p,
            r,
            count - 1,
        )
    }
}

/// The coefficients of the combination of the first `count` basis
/// polynomials of the points `xs` with the weights `v`.
pub open spec fn lagrange_combination(v: Seq<int>, xs: Seq<u64>, p: u64, count: nat) -> Seq<int>
    decreases count,
{
    if count == 0 {
        Seq::new(xs.len(), |j: int| 0int)
    } else {
        Seq::new(
            xs.len(),
            |j: int|
                lagrange_combination(v, xs, p, (count - 1) as nat)[j] + v[count - 1] * lagrange_poly(
                    xs,
                    p,
                    count - 1,
                    xs.len(),
                )[j],
        )
    }
}

/// The value of a polynomial with each coefficient multiplied by `s`.
pub proof fn lemma_weighted_value(b: Seq<u64>, s: int, c: Seq<int>, x: int)
    requires
        c.len() == b.len(),
        forall|j: int| 0 <= j < b.len() ==> #[trigger] c[j] == s * b[j],
    ensures
        int_poly_value(c, x) == s * poly_value(b, x),
    decreases b.len(),
{
    if b.len() > 0 {
        lemma_weighted_value(b.skip(1), s, c.skip(1), x);
        let v = poly_value(b.skip(1), x);
        assert(s * b[0] + x * (s * v) == s * (b[0] + x * v)) by (nonlinear_arith);
    } else {
        assert(s * 0 == 0);
    }
}

/// The value of the combination at `r` is the combination of the values of
/// the basis polynomials.
pub proof fn lemma_combination_value(v: Seq<int>, xs: Seq<u64>, p: u64, r: u64, count: nat)
    requires
        p > 0,
        count <= xs.len(),
        count <= v.len(),
    ensures
        cong(
            int_poly_value(lagrange_combination(v, xs, p, count), r as int),
            lagrange_sum(v, xs, p, r, count),
            p as int,
        ),
    decreases count,
{
    let m = p as int;
    let n = xs.len();
    let e = lagrange_combination(v, xs, p, count);
    if count == 0 {
        lemma_zero_value(e, r as int);
    } else {
        let i = count - 1;
        let before = lagrange_combination(v, xs, p, i as nat);
        let basis = lagrange_poly(xs, p, i, n);
        lemma_lagrange_poly_len(xs, p, i, n);
        let scaled = Seq::new(n, |j: int| v[i] * basis[j]);
        lemma_combination_value(v, xs, p, r, i as nat);
        lemma_sum_value(before, scaled, e, r as int);
        lemma_weighted_value(basis, v[i], scaled, r as int);
        lemma_lagrange_poly_value(xs, p, i, n, r);
        let vb = poly_value(basis, r as int);
        let lp = lagrange_product(xs, p, r, i, n);
        lemma_cong_residue(lp, m);
        lemma_cong_mul(v[i], v[i], vb, spec_lagrange_basis(xs, p, r, i), m);
        lemma_cong_add(
            int_poly_value(before, r as int),
            lagrange_sum(v, xs, p, r, i as nat),
            v[i] * vb,
            v[i] * spec_lagrange_basis(xs, p, r, i),
            m,
        );
    }
}

/// At the point `k` the combination of the first `count` basis polynomials
/// has the weight of the point as its value, or zero where the point is not
/// among them.
pub proof fn lemma_lagrange_sum_at_point(v: Seq<int>, xs: Seq<u64>, p: u64, k: int, count: nat)
    requires
        p > 0,
        0 <= k < xs.len(),
        count <= xs.len(),
        count <= v.len(),
        forall|i: int| 0 <= i < xs.len() ==> #[trigger] lagrange_defined(xs, p, i),
    ensures
        cong(
            lagrange_sum(v, xs, p, xs[k], count),
            if k < count {
                v[k]
            } else {
                0
            },
            p as int,
        ),
    decreases count,
{
    let m = p as int;
    if count > 0 {
        let i = count - 1;
        lemma_lagrange_sum_at_point(v, xs, p, k, i as nat);
        let before = lagrange_sum(v, xs, p, xs[k], i as nat);
        let basis = spec_lagrange_basis(xs, p, xs[k], i);
        let lp = lagrange_product(xs, p, xs[k], i, xs.len());
        lemma_cong_residue(lp, m);
        if i == k {
            assert(lagrange_defined(xs, p, i));
            lemma_lagrange_at_own_point(xs, p, i, xs.len());
            lemma_cong_mul(v[i], v[i], basis, 1, m);
            lemma_cong_add(before, 0, v[i] * basis, v[i] * 1, m);
        } else {
            lemma_lagrange_at_other_point(xs, p, i, k, xs.len());
            lemma_cong_mul(v[i], v[i], basis, 0, m);
            assert(v[i] * 0 == 0);
            let target: int = if k < i {
                v[k]
            } else {
                0
            };
            lemma_cong_add(before, target, v[i] * basis, 0, m);
        }
    }
}

/// The interpolation formula: a polynomial `c` with as many coefficients as
/// there are points `xs`, the differences of which have inverses, has at
/// `r` the value that the basis polynomials give from its values `v` at the
/// points.
pub proof fn lemma_lagrange_interpolation(c: Seq<u64>, v: Seq<int>, xs: Seq<u64>, p: u64, r: u64)
    requires
        p > 0,
        c.len() == xs.len(),
        v.len() == xs.len(),
        forall|i: int| 0 <= i < xs.len() ==> #[trigger] lagrange_defined(xs, p, i),
        forall|k: int|
            0 <= k < xs.len() ==> cong(#[trigger] poly_value(c, xs[k] as int), v[k], p as int),
    ensures
        cong(poly_value(c, r as int), lagrange_sum(v, xs, p, r, xs.len()), p as int),
{
    let m = p as int;
    let n = xs.len();
    let g = lagrange_combination(v, xs, p, n);
    let d = Seq::new(n, |j: int| c[j] - g[j]);
    // the difference of the two polynomials and its values
    assert forall|x: int| #[trigger] int_poly_value(d, x) == poly_value(c, x) - int_poly_value(g, x) by {
        lemma_int_difference(c, g, d, x);
    }
    assert forall|k: int| 0 <= k < n implies cong(#[trigger] int_poly_value(d, xs[k] as int), 0, m) by {
        lemma_combination_value(v, xs, p, xs[k], n);
        lemma_lagrange_sum_at_point(v, xs, p, k, n);
        let vc = poly_value(c, xs[k] as int);
        let vg = int_poly_value(g, xs[k] as int);
        assert(cong(vc, v[k], m));
        assert(cong(vg, v[k], m));
        vstd::arithmetic::div_mod::lemma_sub_mod_noop(vc, vg, m);
    }
    assert forall|k: int, l: int| 0 <= k < n && 0 <= l < n && k != l implies invertible(
        #[trigger] lagrange_denominator(xs, p, k, l),
        p,
    ) by {
        assert(lagrange_defined(xs, p, k));
    }
    lemma_roots_force_zero(d, xs, p);
    lemma_zero_coefficients(d, r as int, p);
    lemma_combination_value(v, xs, p, r, n);
    let vc = poly_value(c, r as int);
    let vg = int_poly_value(g, r as int);
    lemma_cong_add(vc - vg, 0, vg, vg, m);
}

/// The value of the difference of a polynomial and a polynomial with
/// integer coefficients.
pub proof fn lemma_int_difference(c: Seq<u64>, g: Seq<int>, d: Seq<int>, x: int)
    requires
        c.len() == d.len(),
        g.len() == d.len(),
        forall|j: int| 0 <= j < d.len() ==> #[trigger] d[j] == c[j] - g[j],
    ensures
        int_poly_value(d, x) == poly_value(c, x) - int_poly_value(g, x),
    decreases d.len(),
{
    if d.len() > 0 {
        lemma_int_difference(c.skip(1), g.skip(1), d.skip(1), x);
        let vc = poly_value(c.skip(1), x);
        let vg = int_poly_value(g.skip(1), x);
        assert(x * (vc - vg) == x * vc - x * vg) by (nonlinear_arith);
    }
}

} // verus!
