//! Dense polynomials over a prime field: evaluation, multiplication, and
//! interpolation on a multiplicative subgroup.

use vstd::prelude::*;
use vstd::arithmetic::power::pow;
use crate::error::Error;
use crate::field::{add_mod, inv_mod, invertible, mul_mod, pow_mod, spec_inverse};
use crate::ntt::{fast_transform, is_power_of_two};

verus! {

/// The value at `x` of the polynomial with the coefficients `c`, the constant
/// term first, over the integers.
pub open spec fn poly_value(c: Seq<u64>, x: int) -> int
    decreases c.len(),
{
    if c.len() == 0 {
        0
    } else {
        c[0] + x * poly_value(c.skip(1), x)
    }
}

/// The value at `x` of the polynomial with the coefficients `c`, modulo `p`.
pub open spec fn spec_evaluate(c: Seq<u64>, x: u64, p: u64) -> int {
    poly_value(c, x as int) % (p as int)
}

/// The products `a[i] * b[k - i]` for `i` below `n`, summed.
pub open spec fn conv_sum(a: Seq<u64>, b: Seq<u64>, k: int, n: nat) -> int
    decreases n,
{
    if n == 0 {
        0
    } else {
        conv_sum(a, b, k, (n - 1) as nat) + conv_term(a, b, k, n - 1)
    }
}

/// `a[i] * b[k - i]`, or zero where `b` has no coefficient `k - i`.
pub open spec fn conv_term(a: Seq<u64>, b: Seq<u64>, k: int, i: int) -> int {
    if 0 <= k - i < b.len() {
        a[i] * b[k - i]
    } else {
        0
    }
}

/// The coefficients of the product of the polynomials `a` and `b`, each
/// reduced modulo `p`.
pub open spec fn spec_product(a: Seq<u64>, b: Seq<u64>, p: u64) -> Seq<u64> {
    if a.len() == 0 || b.len() == 0 {
        Seq::empty()
    } else {
        Seq::new(
            (a.len() + b.len() - 1) as nat,
            |k: int| (conv_sum(a, b, k, a.len()) % (p as int)) as u64,
        )
    }
}

/// The values `ys[i] * u^(i * j)` for `i` below `n`, summed.
pub open spec fn transform_sum(ys: Seq<u64>, u: u64, j: nat, n: nat) -> int
    decreases n,
{
    if n == 0 {
        0
    } else {
        transform_sum(ys, u, j, (n - 1) as nat) + ys[n - 1] * pow(u as int, ((n - 1) * j) as nat)
    }
}

/// Whether values at the powers of `w` can be interpolated modulo `p`: the
/// number of the values and `w` both have an inverse.
pub open spec fn can_interpolate(n: nat, p: u64, w: u64) -> bool {
    n == 0 || (invertible(w, p) && invertible((n % (p as nat)) as u64, p))
}

/// The coefficients, modulo `p`, of the polynomial of degree below
/// `ys.len()` whose transform at the powers of `w` is `ys`: coefficient `j`
/// is the sum of `ys[i] * w^(-i * j)`, divided by the number of values.
pub open spec fn spec_interpolate(ys: Seq<u64>, p: u64, w: u64) -> Seq<u64> {
    let u = spec_inverse(w, p);
    let n_inv = spec_inverse((ys.len() % (p as nat)) as u64, p);
    Seq::new(
        ys.len(),
        |j: int| ((n_inv * (transform_sum(ys, u, j as nat, ys.len()) % (p as int))) % (p as int)) as u64,
    )
}

/// A polynomial over the integers modulo `modulus`, as the list of its
/// coefficients, the constant term first.
#[derive(Debug)]
pub struct ModPoly {
    pub coeffs: Vec<u64>,
    pub modulus: u64,
}

impl View for ModPoly {
    type V = Seq<u64>;

    open spec fn view(&self) -> Seq<u64> {
        self.coeffs@
    }
}

impl ModPoly {
    /// The modulus is positive and every coefficient lies below it.
    pub open spec fn wf(&self) -> bool {
        &&& self.modulus > 0
        &&& forall|i: int| 0 <= i < self.coeffs@.len() ==> self.coeffs@[i] < self.modulus
    }

    /// The zero polynomial.
    pub fn new(modulus: u64) -> (f: ModPoly)
        requires
            modulus > 0,
        ensures
            f@ == Seq::<u64>::empty(),
            f.modulus == modulus,
            f.wf(),
    {
        ModPoly { coeffs: Vec::new(), modulus }
    }

    /// The number of coefficients held.
    pub fn len(&self) -> (n: usize)
        ensures
            n == self@.len(),
    {
        self.coeffs.len()
    }

    /// Coefficient `i`; zero beyond the coefficients held.
    pub fn get_coefficient(&self, i: usize) -> (c: u64)
        ensures
            c == (if i < self@.len() {
                self@[i as int]
            } else {
                0
            }),
    {
        if i < self.coeffs.len() {
            self.coeffs[i]
        } else {
            0
        }
    }

    /// The value of the polynomial at `x`.
    pub fn evaluate(&self, x: u64) -> (v: u64)
        requires
            self.modulus > 0,
        ensures
            v == spec_evaluate(self@, x, self.modulus),
            v < self.modulus,
    {
        let p: u64 = self.modulus;
        let n: usize = self.coeffs.len();
        let mut acc: u64 = 0;
        let mut i: usize = n;
        proof {
            assert(self@.skip(n as int) =~= Seq::<u64>::empty());
            vstd::arithmetic::div_mod::lemma_small_mod(0, p as nat);
        }
        while i > 0
            invariant
                p > 0,
                p == self.modulus,
                n == self.coeffs@.len(),
                i <= n,
                acc == poly_value(self@.skip(i as int), x as int) % (p as int),
                acc < p,
            decreases i,
        {
            i -= 1;
            let t: u64 = mul_mod(acc, x, p);
            let next: u64 = add_mod(self.coeffs[i], t, p);
            proof {
                let rest = self@.skip(i + 1);
                let here = self@.skip(i as int);
                assert(here.skip(1) =~= rest);
                assert(here[0] == self@[i as int]);
                let pr = poly_value(rest, x as int);
                let m = p as int;
                // t = (acc * x) % p = (x * pr) % p
                vstd::arithmetic::div_mod::lemma_mul_mod_noop_left(pr, x as int, m);
                assert(pr * x == x * pr) by (nonlinear_arith);
                assert(t == (x * pr) % m);
                // next = (c + t) % p = (c + x * pr) % p
                vstd::arithmetic::div_mod::lemma_add_mod_noop_right(self@[i as int] as int, x * pr, m);
            }
            acc = next;
        }
        proof {
            assert(self@.skip(0) =~= self@);
        }
        acc
    }

    /// The product of two polynomials over the modulus of `self`.
    pub fn times(&self, other: &ModPoly) -> (f: ModPoly)
        requires
            self.modulus > 0,
            self@.len() + other@.len() <= usize::MAX,
        ensures
            f@ == spec_product(self@, other@, self.modulus),
            f.modulus == self.modulus,
            f.wf(),
    {
        let p: u64 = self.modulus;
        let la: usize = self.coeffs.len();
        let lb: usize = other.coeffs.len();
        let mut out: Vec<u64> = Vec::new();
        if la == 0 || lb == 0 {
            return ModPoly { coeffs: out, modulus: p };
        }
        let total: usize = la + lb - 1;
        let mut k: usize = 0;
        while k < total
            invariant
                p > 0,
                p == self.modulus,
                la == self@.len(),
                lb == other@.len(),
                la > 0,
                lb > 0,
                total == la + lb - 1,
                k <= total,
                out@.len() == k,
                forall|c: int|
                    0 <= c < k ==> out@[c] == (conv_sum(self@, other@, c, la as nat) % (
                    p as int)) as u64,
                forall|c: int| 0 <= c < k ==> out@[c] < p,
            decreases total - k,
        {
            let mut acc: u64 = 0;
            let mut i: usize = 0;
            proof {
                vstd::arithmetic::div_mod::lemma_small_mod(0, p as nat);
            }
            while i < la
                invariant
                    p > 0,
                    la == self@.len(),
                    lb == other@.len(),
                    i <= la,
                    k < la + lb,
                    acc == conv_sum(self@, other@, k as int, i as nat) % (p as int),
                    acc < p,
                decreases la - i,
            {
                if k >= i && k - i < lb {
                    let t: u64 = mul_mod(self.coeffs[i], other.coeffs[k - i], p);
                    let next: u64 = add_mod(acc, t, p);
                    proof {
                        let s = conv_sum(self@, other@, k as int, i as nat);
                        let term = self@[i as int] * other@[k - i];
                        assert(conv_term(self@, other@, k as int, i as int) == term);
                        vstd::arithmetic::div_mod::lemma_add_mod_noop(s, term, p as int);
                    }
                    acc = next;
                }
                i += 1;
            }
            out.push(acc);
            k += 1;
        }
        proof {
            assert(out@ =~= spec_product(self@, other@, p));
        }
        ModPoly { coeffs: out, modulus: p }
    }

    /// The polynomial of degree below `ys.len()` that takes the value
    /// `ys[i]` at `w^i`, for `w` that generates a multiplicative subgroup of
    /// order `ys.len()` modulo the prime `modulus`. It is computed as the
    /// inverse transform of `ys`, which needs `w` and the number of values
    /// to have inverses.
    pub fn interpolate_from_mul_subgroup(ys: Vec<u64>, modulus: u64, w: u64) -> (res: Result<
        ModPoly,
        Error,
    >)
        requires
            modulus > 0,
        ensures
            match res {
                Ok(f) => can_interpolate(ys@.len(), modulus, w) && f@ == spec_interpolate(
                    ys@,
                    modulus,
                    w,
                ) && f.modulus == modulus && f.wf(),
                Err(e) => !can_interpolate(ys@.len(), modulus, w) && e == Error::NonInvertible,
            },
    {
        let p: u64 = modulus;
        let n: usize = ys.len();
        let mut out: Vec<u64> = Vec::new();
        if n == 0 {
            proof {
                assert(out@ =~= spec_interpolate(ys@, p, w));
            }
            return Ok(ModPoly { coeffs: out, modulus: p });
        }
        let u: u64 = match inv_mod(w, p) {
            Some(u) => u,
            None => {
                return Err(Error::NonInvertible);
            },
        };
        let n_inv: u64 = match inv_mod((n as u64) % p, p) {
            Some(v) => v,
            None => {
                return Err(Error::NonInvertible);
            },
        };
        if is_power_of_two(n) && pow_mod(u, n as u64, p) == 1 % p {
            // the order of the subgroup is a power of two: transform by halving
            let sums: Vec<u64> = fast_transform(&ys, u, p);
            let mut j: usize = 0;
            while j < n
                invariant
                    p > 0,
                    n == ys@.len(),
                    j <= n,
                    sums@.len() == n,
                    forall|c: int|
                        0 <= c < n ==> #[trigger] sums@[c] == transform_sum(
                            ys@,
                            u,
                            c as nat,
                            n as nat,
                        ) % (p as int),
                    out@.len() == j,
                    forall|c: int|
                        0 <= c < j ==> out@[c] == ((n_inv * (transform_sum(
                            ys@,
                            u,
                            c as nat,
                            n as nat,
                        ) % (p as int))) % (p as int)) as u64,
                    forall|c: int| 0 <= c < j ==> out@[c] < p,
                decreases n - j,
            {
                out.push(mul_mod(n_inv, sums[j], p));
                j += 1;
            }
            proof {
                assert(out@ =~= spec_interpolate(ys@, p, w));
            }
            return Ok(ModPoly { coeffs: out, modulus: p });
        }
        let mut j: usize = 0;
        while j < n
            invariant
                p > 0,
                n == ys@.len(),
                j <= n,
                u == spec_inverse(w, p),
                n_inv == spec_inverse((ys@.len() % (p as nat)) as u64, p),
                out@.len() == j,
                forall|c: int|
                    0 <= c < j ==> out@[c] == ((n_inv * (transform_sum(ys@, u, c as nat, n as nat)
                        % (p as int))) % (p as int)) as u64,
                forall|c: int| 0 <= c < j ==> out@[c] < p,
            decreases n - j,
        {
            let step: u64 = pow_mod(u, j as u64, p);
            let mut cur: u64 = 1 % p;
            let mut acc: u64 = 0;
            let mut i: usize = 0;
            proof {
                vstd::arithmetic::div_mod::lemma_small_mod(0, p as nat);
                vstd::arithmetic::power::lemma_pow0(u as int);
                assert(0 * j == 0) by (nonlinear_arith);
            }
            while i < n
                invariant
                    p > 0,
                    n == ys@.len(),
                    i <= n,
                    j < n,
                    step == pow(u as int, j as nat) % (p as int),
                    cur == pow(u as int, (i * j) as nat) % (p as int),
                    acc == transform_sum(ys@, u, j as nat, i as nat) % (p as int),
                    acc < p,
                decreases n - i,
            {
                let t: u64 = mul_mod(ys[i], cur, p);
                let next: u64 = add_mod(acc, t, p);
                let moved: u64 = mul_mod(cur, step, p);
                proof {
                    let m = p as int;
                    let pw = pow(u as int, (i * j) as nat);
                    let s = transform_sum(ys@, u, j as nat, i as nat);
                    // the new term
                    vstd::arithmetic::div_mod::lemma_mul_mod_noop_right(ys@[i as int] as int, pw, m);
                    vstd::arithmetic::div_mod::lemma_add_mod_noop(s, ys@[i as int] * pw, m);
                    // the next power
                    assert((i + 1) * j == i * j + j) by (nonlinear_arith);
                    assert(i * j >= 0) by (nonlinear_arith);
                    vstd::arithmetic::power::lemma_pow_adds(u as int, (i * j) as nat, j as nat);
                    vstd::arithmetic::div_mod::lemma_mul_mod_noop_general(
                        pw,
                        pow(u as int, j as nat),
                        m,
                    );
                }
                acc = next;
                cur = moved;
                i += 1;
            }
            out.push(mul_mod(n_inv, acc, p));
            j += 1;
        }
        proof {
            assert(out@ =~= spec_interpolate(ys@, p, w));
        }
        Ok(ModPoly { coeffs: out, modulus: p })
    }
}

/// The value at `x` of the polynomial with the integer coefficients `c`.
pub open spec fn int_poly_value(c: Seq<int>, x: int) -> int
    decreases c.len(),
{
    if c.len() == 0 {
        0
    } else {
        c[0] + x * int_poly_value(c.skip(1), x)
    }
}

/// The first `len` coefficients of the product of the polynomials `a` and
/// `b` over the integers.
pub open spec fn int_product(a: Seq<u64>, b: Seq<u64>, len: nat) -> Seq<int> {
    Seq::new(len, |k: int| conv_sum(a, b, k, a.len()))
}

/// The coefficients of `b`, each multiplied by `s`, then zeros up to `len`
/// coefficients.
pub open spec fn int_scaled(b: Seq<u64>, s: int, len: nat) -> Seq<int> {
    Seq::new(
        len,
        |k: int|
            if k < b.len() {
                s * b[k]
            } else {
                0
            },
    )
}

/// The polynomial with zero coefficients has the value zero.
pub proof fn lemma_zero_value(c: Seq<int>, x: int)
    requires
        forall|k: int| 0 <= k < c.len() ==> c[k] == 0,
    ensures
        int_poly_value(c, x) == 0,
    decreases c.len(),
{
    if c.len() > 0 {
        lemma_zero_value(c.skip(1), x);
    }
}

/// The value of a sum of polynomials is the sum of their values.
pub proof fn lemma_sum_value(c: Seq<int>, d: Seq<int>, e: Seq<int>, x: int)
    requires
        c.len() == e.len(),
        d.len() == e.len(),
        forall|k: int| 0 <= k < e.len() ==> e[k] == c[k] + d[k],
    ensures
        int_poly_value(e, x) == int_poly_value(c, x) + int_poly_value(d, x),
    decreases e.len(),
{
    if e.len() > 0 {
        lemma_sum_value(c.skip(1), d.skip(1), e.skip(1), x);
        let vc = int_poly_value(c.skip(1), x);
        let vd = int_poly_value(d.skip(1), x);
        assert(x * (vc + vd) == x * vc + x * vd) by (nonlinear_arith);
    }
}

/// The value of a polynomial multiplied by `s`, with zero coefficients
/// added, is `s` times its value.
pub proof fn lemma_scaled_value(b: Seq<u64>, s: int, len: nat, x: int)
    requires
        len >= b.len(),
    ensures
        int_poly_value(int_scaled(b, s, len), x) == s * poly_value(b, x),
    decreases len,
{
    let c = int_scaled(b, s, len);
    if b.len() == 0 {
        lemma_zero_value(c, x);
    } else {
        assert(c.skip(1) =~= int_scaled(b.skip(1), s, (len - 1) as nat));
        lemma_scaled_value(b.skip(1), s, (len - 1) as nat, x);
        let v = poly_value(b.skip(1), x);
        assert(s * b[0] + x * (s * v) == s * (b[0] + x * v)) by (nonlinear_arith);
    }
}

/// Leaving out the first coefficient of `a` moves the products by one
/// place: the sum for `k` over `a` is the term of the first coefficient and
/// the sum for `k - 1` over the rest.
pub proof fn lemma_conv_sum_shift(a: Seq<u64>, b: Seq<u64>, k: int, n: nat)
    requires
        a.len() > 0,
        n < a.len(),
    ensures
        conv_sum(a, b, k, n + 1) == conv_term(a, b, k, 0) + conv_sum(a.skip(1), b, k - 1, n),
    decreases n,
{
    reveal_with_fuel(conv_sum, 2);
    if n > 0 {
        lemma_conv_sum_shift(a, b, k, (n - 1) as nat);
        assert(conv_term(a, b, k, n as int) == conv_term(a.skip(1), b, k - 1, n - 1));
        assert(conv_sum(a, b, k, n + 1) == conv_sum(a, b, k, n) + conv_term(a, b, k, n as int));
        assert(conv_sum(a.skip(1), b, k - 1, n) == conv_sum(a.skip(1), b, k - 1, (n - 1) as nat)
            + conv_term(a.skip(1), b, k - 1, n - 1));
    }
}

/// The value of the product of two polynomials over the integers is the
/// product of their values.
pub proof fn lemma_int_product_value(a: Seq<u64>, b: Seq<u64>, len: nat, x: int)
    requires
        len + 1 >= a.len() + b.len(),
    ensures
        int_poly_value(int_product(a, b, len), x) == poly_value(a, x) * poly_value(b, x),
    decreases a.len(),
{
    let e = int_product(a, b, len);
    if a.len() == 0 {
        lemma_zero_value(e, x);
    } else if len == 0 {
        // then `b` has no coefficient
        assert(b.len() == 0);
        assert(poly_value(a, x) * 0 == 0) by (nonlinear_arith);
    } else {
        let rest = a.skip(1);
        let c = int_scaled(b, a[0] as int, len);
        let tail = int_product(rest, b, (len - 1) as nat);
        let d = seq![0int] + tail;
        assert forall|k: int| 0 <= k < len implies e[k] == c[k] + d[k] by {
            lemma_conv_sum_shift(a, b, k, (a.len() - 1) as nat);
            if k == 0 {
                // no coefficient of `b` has a negative index
                lemma_conv_sum_negative(rest, b, -1, rest.len());
            }
        }
        lemma_sum_value(c, d, e, x);
        lemma_scaled_value(b, a[0] as int, len, x);
        assert(d.skip(1) =~= tail);
        lemma_int_product_value(rest, b, (len - 1) as nat, x);
        let va = poly_value(rest, x);
        let vb = poly_value(b, x);
        assert(a[0] * vb + x * (va * vb) == (a[0] + x * va) * vb) by (nonlinear_arith);
    }
}

/// For a negative `k` the sum of products is empty.
pub proof fn lemma_conv_sum_negative(a: Seq<u64>, b: Seq<u64>, k: int, n: nat)
    requires
        k < 0,
    ensures
        conv_sum(a, b, k, n) == 0,
    decreases n,
{
    if n > 0 {
        lemma_conv_sum_negative(a, b, k, (n - 1) as nat);
    }
}

/// Coefficients that agree modulo `p` give values that agree modulo `p`.
pub proof fn lemma_value_of_residues(r: Seq<u64>, c: Seq<int>, x: int, p: u64)
    requires
        p > 0,
        r.len() == c.len(),
        forall|k: int| 0 <= k < c.len() ==> r[k] as int == c[k] % (p as int),
    ensures
        poly_value(r, x) % (p as int) == int_poly_value(c, x) % (p as int),
    decreases c.len(),
{
    if c.len() > 0 {
        let m = p as int;
        lemma_value_of_residues(r.skip(1), c.skip(1), x, p);
        let vr = poly_value(r.skip(1), x);
        let vc = int_poly_value(c.skip(1), x);
        vstd::arithmetic::div_mod::lemma_mul_mod_noop_right(x, vr, m);
        vstd::arithmetic::div_mod::lemma_mul_mod_noop_right(x, vc, m);
        vstd::arithmetic::div_mod::lemma_add_mod_noop(r[0] as int, x * vr, m);
        vstd::arithmetic::div_mod::lemma_add_mod_noop(c[0], x * vc, m);
        vstd::arithmetic::div_mod::lemma_mod_twice(c[0], m);
    }
}

/// The product of two polynomials takes at every point the product of
/// their values, modulo `p`.
pub proof fn lemma_product_value(a: Seq<u64>, b: Seq<u64>, x: u64, p: u64)
    requires
        p > 0,
    ensures
        spec_evaluate(spec_product(a, b, p), x, p) == (spec_evaluate(a, x, p) * spec_evaluate(
            b,
            x,
            p,
        )) % (p as int),
{
    let m = p as int;
    let va = poly_value(a, x as int);
    let vb = poly_value(b, x as int);
    vstd::arithmetic::div_mod::lemma_mul_mod_noop_general(va, vb, m);
    if a.len() == 0 || b.len() == 0 {
        assert(va * vb == 0) by (nonlinear_arith)
            requires
                va == 0 || vb == 0,
        ;
    } else {
        let len = (a.len() + b.len() - 1) as nat;
        let c = int_product(a, b, len);
        let r = spec_product(a, b, p);
        assert forall|k: int| 0 <= k < len implies r[k] as int == c[k] % m by {
            vstd::arithmetic::div_mod::lemma_mod_bound(c[k], m);
        }
        lemma_value_of_residues(r, c, x as int, p);
        lemma_int_product_value(a, b, len, x as int);
    }
}

} // verus!
