//! A polynomial is fixed by its values: one with as many roots as it has
//! coefficients is zero, where the differences of the roots have inverses.

use vstd::prelude::*;
use crate::field::{invertible, is_inverse, spec_inverse};
use crate::interpolate::lagrange_denominator;
use crate::poly::int_poly_value;
use crate::sums::{cong, lemma_cong_add, lemma_cong_mul, lemma_cong_residue};

verus! {

/// The quotient of the polynomial `c` by `X - a`: coefficient `j` is the
/// value at `a` of the polynomial that `c` is from coefficient `j + 1` on.
pub open spec fn quotient(c: Seq<int>, a: int) -> Seq<int>
    decreases c.len(),
{
    if c.len() <= 1 {
        Seq::empty()
    } else {
        seq![int_poly_value(c.skip(1), a)] + quotient(c.skip(1), a)
    }
}

/// The quotient has one coefficient less, and coefficient `j` is the value
/// at `a` of the polynomial from coefficient `j + 1` on.
pub proof fn lemma_quotient_entries(c: Seq<int>, a: int)
    ensures
        quotient(c, a).len() == (if c.len() == 0 {
            0
        } else {
            c.len() - 1
        }),
        forall|j: int|
            0 <= j < c.len() - 1 ==> #[trigger] quotient(c, a)[j] == int_poly_value(
                c.skip(j + 1),
                a,
            ),
    decreases c.len(),
{
    if c.len() > 1 {
        let rest = c.skip(1);
        lemma_quotient_entries(rest, a);
        assert forall|j: int| 0 <= j < c.len() - 1 implies #[trigger] quotient(c, a)[j]
            == int_poly_value(c.skip(j + 1), a) by {
            if j > 0 {
                assert(quotient(c, a)[j] == quotient(rest, a)[j - 1]);
                assert(rest.skip(j) =~= c.skip(j + 1));
            }
        }
    }
}

/// Division by `X - a`: the value of `c` at `x` is its value at `a` and
/// `x - a` times the value of the quotient.
pub proof fn lemma_division(c: Seq<int>, a: int, x: int)
    ensures
        int_poly_value(c, x) == int_poly_value(c, a) + (x - a) * int_poly_value(quotient(c, a), x),
    decreases c.len(),
{
    if c.len() == 0 {
        assert((x - a) * 0 == 0) by (nonlinear_arith);
    } else if c.len() == 1 {
        reveal_with_fuel(int_poly_value, 2);
        assert(c.skip(1).len() == 0);
        assert(quotient(c, a).len() == 0);
        assert((x - a) * 0 == 0) by (nonlinear_arith);
        assert(x * 0 == 0 && a * 0 == 0) by (nonlinear_arith);
    } else {
        let rest = c.skip(1);
        lemma_division(rest, a, x);
        let q = quotient(c, a);
        assert(q.skip(1) =~= quotient(rest, a));
        let r = int_poly_value(rest, a);
        let vq = int_poly_value(quotient(rest, a), x);
        assert(int_poly_value(q, x) == r + x * vq);
        assert(x * (r + (x - a) * vq) == a * r + (x - a) * (r + x * vq)) by (nonlinear_arith);
    }
}

/// A value that an invertible value multiplies to zero is zero, modulo `p`.
pub proof fn lemma_cancel_invertible(d: u64, v: int, t: int, p: u64)
    requires
        p > 0,
        invertible(d, p),
        cong(t, d as int, p as int),
        cong(t * v, 0, p as int),
    ensures
        cong(v, 0, p as int),
{
    let m = p as int;
    let y = spec_inverse(d, p);
    assert(is_inverse(d, y, p));
    // v = 1 * v = (d * y) * v = y * (t * v) = y * 0, all modulo p
    lemma_cong_mul(t, d as int, y as int, y as int, m);
    assert(cong(t * y, 1, m));
    lemma_cong_mul(t * y, 1, v, v, m);
    lemma_cong_mul(y as int, y as int, t * v, 0, m);
    assert((t * y) * v == y * (t * v)) by (nonlinear_arith);
    assert(1 * v == v && y * 0 == 0) by (nonlinear_arith);
}

/// A polynomial with `n` coefficients and `n` roots, the differences of
/// which have inverses, has coefficients that are all zero modulo `p`.
pub proof fn lemma_roots_force_zero(c: Seq<int>, xs: Seq<u64>, p: u64)
    requires
        p > 0,
        c.len() <= xs.len(),
        forall|k: int| 0 <= k < c.len() ==> cong(#[trigger] int_poly_value(c, xs[k] as int), 0, p as int),
        forall|k: int, l: int|
            0 <= k < c.len() && 0 <= l < c.len() && k != l ==> invertible(
                #[trigger] lagrange_denominator(xs, p, k, l),
                p,
            ),
    ensures
        forall|j: int| 0 <= j < c.len() ==> cong(#[trigger] c[j], 0, p as int),
    decreases c.len(),
{
    let n = c.len();
    let m = p as int;
    if n > 0 {
        let a = xs[n - 1] as int;
        let h = quotient(c, a);
        lemma_quotient_entries(c, a);
        assert forall|k: int| 0 <= k < h.len() implies cong(
            #[trigger] int_poly_value(h, xs[k] as int),
            0,
            m,
        ) by {
            let x = xs[k] as int;
            lemma_division(c, a, x);
            let vh = int_poly_value(h, x);
            let vc = int_poly_value(c, x);
            let va = int_poly_value(c, a);
            assert(cong(vc, 0, m));
            assert(cong(va, 0, m));
            // (x - a) * vh = vc - va is zero modulo p
            vstd::arithmetic::div_mod::lemma_sub_mod_noop(vc, va, m);
            assert(cong((x - a) * vh, 0, m));
            let d = lagrange_denominator(xs, p, k, n - 1);
            assert(invertible(d, p));
            vstd::arithmetic::div_mod::lemma_mod_bound(x - a, m);
            lemma_cong_residue(x - a, m);
            lemma_cancel_invertible(d, vh, x - a, p);
        }
        assert forall|k: int, l: int|
            0 <= k < h.len() && 0 <= l < h.len() && k != l implies invertible(
            #[trigger] lagrange_denominator(xs, p, k, l),
            p,
        ) by {}
        lemma_roots_force_zero(h, xs, p);
        // the values at `a` of all the tails of `c` are zero
        assert forall|j: int| 0 <= j < n implies cong(#[trigger] c[j], 0, m) by {
            let tail = c.skip(j);
            let next = c.skip(j + 1);
            assert(tail.skip(1) =~= next);
            assert(tail[0] == c[j]);
            let vt = int_poly_value(tail, a);
            let vn = int_poly_value(next, a);
            assert(vt == c[j] + a * vn);
            assert(cong(vt, 0, m)) by {
                if j == 0 {
                    assert(tail =~= c);
                } else {
                    assert(h[j - 1] == int_poly_value(c.skip(j - 1 + 1), a));
                    assert(cong(h[j - 1], 0, m));
                }
            }
            assert(cong(vn, 0, m)) by {
                if j + 1 < n {
                    assert(h[j] == int_poly_value(c.skip(j + 1), a));
                    assert(cong(h[j], 0, m));
                } else {
                    assert(next.len() == 0);
                }
            }
            lemma_cong_mul(a, a, vn, 0, m);
            assert(a * 0 == 0);
            vstd::arithmetic::div_mod::lemma_sub_mod_noop(vt, a * vn, m);
            assert(c[j] == vt - a * vn);
        }
    }
}

/// A polynomial whose coefficients are zero modulo `p` has values that are
/// zero modulo `p`.
pub proof fn lemma_zero_coefficients(c: Seq<int>, x: int, p: u64)
    requires
        p > 0,
        forall|j: int| 0 <= j < c.len() ==> cong(#[trigger] c[j], 0, p as int),
    ensures
        cong(int_poly_value(c, x), 0, p as int),
    decreases c.len(),
{
    if c.len() > 0 {
        let m = p as int;
        assert forall|j: int| 0 <= j < c.skip(1).len() implies cong(#[trigger] c.skip(1)[j], 0, m) by {
            assert(c.skip(1)[j] == c[j + 1]);
        }
        lemma_zero_coefficients(c.skip(1), x, p);
        let v = int_poly_value(c.skip(1), x);
        lemma_cong_mul(x, x, v, 0, m);
        assert(x * 0 == 0);
        assert(cong(c[0], 0, m));
        lemma_cong_add(c[0], 0, x * v, 0, m);
    }
}

} // verus!
