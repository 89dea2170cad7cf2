//! The Lagrange basis of a set of points, evaluated at a point.

use vstd::prelude::*;
use crate::error::Error;
use crate::field::{inv_mod, invertible, mul_mod, spec_inverse, spec_sub_mod, sub_mod};

verus! {

/// The difference `xs[j] - xs[m]` modulo `p`, which the basis polynomial
/// `j` divides by.
pub open spec fn lagrange_denominator(xs: Seq<u64>, p: u64, j: int, m: int) -> u64 {
    spec_sub_mod(xs[j], xs[m], p) as u64
}

/// The factor that the point `xs[m]` adds to basis polynomial `j` at `r`:
/// `(r - xs[m]) / (xs[j] - xs[m])`, and 1 for the point `j` itself.
pub open spec fn lagrange_factor(xs: Seq<u64>, p: u64, r: u64, j: int, m: int) -> int {
    if m == j {
        1
    } else {
        spec_sub_mod(r, xs[m], p) * spec_inverse(lagrange_denominator(xs, p, j, m), p)
    }
}

/// The product of the factors of the first `n` points.
pub open spec fn lagrange_product(xs: Seq<u64>, p: u64, r: u64, j: int, n: nat) -> int
    decreases n,
{
    if n == 0 {
        1
    } else {
        lagrange_product(xs, p, r, j, (n - 1) as nat) * lagrange_factor(xs, p, r, j, n - 1)
    }
}

/// Whether basis polynomial `j` exists: each difference between `xs[j]` and
/// another point has an inverse modulo `p`.
pub open spec fn lagrange_defined(xs: Seq<u64>, p: u64, j: int) -> bool {
    forall|m: int|
        0 <= m < xs.len() && m != j ==> invertible(#[trigger] lagrange_denominator(xs, p, j, m), p)
}

/// The value at `r` of the polynomial that is 1 at `xs[j]` and 0 at the
/// other points of `xs`, modulo `p`.
pub open spec fn spec_lagrange_basis(xs: Seq<u64>, p: u64, r: u64, j: int) -> int {
    lagrange_product(xs, p, r, j, xs.len()) % (p as int)
}

/// Evaluates basis polynomial `j` of the points `xs` at `r`, modulo `p`.
///
/// Fails with `DimensionMismatch` where `xs` has no point `j`, and with
/// `NonInvertible` where a difference of points has no inverse.
pub fn eval_lagrange_basis(xs: &Vec<u64>, p: u64, r: u64, j: usize) -> (res: Result<u64, Error>)
    requires
        p > 0,
    ensures
        match res {
            Ok(v) => j < xs@.len() && lagrange_defined(xs@, p, j as int) && v
                == spec_lagrange_basis(xs@, p, r, j as int) && v < p,
            Err(e) => if j >= xs@.len() {
                e == Error::DimensionMismatch
            } else {
                !lagrange_defined(xs@, p, j as int) && e == Error::NonInvertible
            },
        },
{
    if j >= xs.len() {
        return Err(Error::DimensionMismatch);
    }
    let mut prod: u64 = 1 % p;
    let mut m: usize = 0;
    while m < xs.len()
        invariant
            p > 0,
            j < xs@.len(),
            m <= xs@.len(),
            prod == lagrange_product(xs@, p, r, j as int, m as nat) % (p as int),
            prod < p,
            forall|k: int|
                0 <= k < m && k != j ==> invertible(
                    #[trigger] lagrange_denominator(xs@, p, j as int, k),
                    p,
                ),
        decreases xs@.len() - m,
    {
        if m != j {
            let n: u64 = sub_mod(r, xs[m], p);
            let d: u64 = sub_mod(xs[j], xs[m], p);
            let inverse: u64 = match inv_mod(d, p) {
                Some(y) => y,
                None => {
                    assert(!invertible(lagrange_denominator(xs@, p, j as int, m as int), p));
                    return Err(Error::NonInvertible);
                },
            };
            let f: u64 = mul_mod(n, inverse, p);
            let next: u64 = mul_mod(prod, f, p);
            proof {
                let before = lagrange_product(xs@, p, r, j as int, m as nat);
                let factor = lagrange_factor(xs@, p, r, j as int, m as int);
                assert(factor == n * inverse);
                vstd::arithmetic::div_mod::lemma_mul_mod_noop_general(before, factor, p as int);
            }
            prod = next;
        } else {
            proof {
                let before = lagrange_product(xs@, p, r, j as int, m as nat);
                assert(before * 1 == before) by (nonlinear_arith);
            }
        }
        m += 1;
    }
    Ok(prod)
}

} // verus!
