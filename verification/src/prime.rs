//! Prime fields: modulo a prime every residue but zero has an inverse, and
//! a generator of a subgroup is a principal root of unity with points whose
//! differences have inverses.

use vstd::prelude::*;
use vstd::arithmetic::power::pow;
use crate::circuit::spec_bit_value;
use crate::dft::{is_principal_root, power_sum};
use crate::field::{invertible, is_inverse};
use crate::flpcp::spec_subgroup;
use crate::interpolate::{lagrange_defined, lagrange_denominator};
use crate::poly::can_interpolate;
use crate::sums::{cong, lemma_cong_add, lemma_cong_mul, lemma_cong_residue};
use crate::unique::lemma_cancel_invertible;

verus! {

/// Whether `p` is a prime: greater than 1, with no divisor between 1 and
/// itself.
pub open spec fn is_prime(p: u64) -> bool {
    &&& p > 1
    &&& forall|k: int| 1 < k < p ==> #[trigger] (p as int % k) != 0
}

/// Whether `w` has the order `n` modulo `p`: its power `n` is 1, and no
/// power between 0 and `n` is.
pub open spec fn has_order(w: u64, n: nat, p: u64) -> bool {
    &&& n > 0
    &&& cong(pow(w as int, n), 1, p as int)
    &&& forall|e: nat| 0 < e < n ==> !cong(#[trigger] pow(w as int, e), 1, p as int)
}

/// Two numbers that are not both zero have a common divisor that is a
/// combination of them.
pub proof fn lemma_bezout(a: nat, b: nat) -> (r: (int, int, int))
    requires
        a + b > 0,
    ensures
        r.2 > 0,
        r.0 * a + r.1 * b == r.2,
        a as int % r.2 == 0,
        b as int % r.2 == 0,
    decreases b,
{
    if b == 0 {
        vstd::arithmetic::div_mod::lemma_mod_self_0(a as int);
        (1, 0, a as int)
    } else {
        let rem = a % b;
        let quot = a / b;
        vstd::arithmetic::div_mod::lemma_fundamental_div_mod(a as int, b as int);
        let (s, t, g) = lemma_bezout(b, rem);
        // g divides b and a % b, so it divides a
        vstd::arithmetic::div_mod::lemma_fundamental_div_mod(b as int, g);
        vstd::arithmetic::div_mod::lemma_fundamental_div_mod(rem as int, g);
        let kb = (b as int) / g;
        let kr = (rem as int) / g;
        assert(b == g * kb);
        assert(rem == g * kr);
        assert(a == g * (kb * quot + kr)) by (nonlinear_arith)
            requires
                a == b * quot + rem,
                b == g * kb,
                rem == g * kr,
        ;
        vstd::arithmetic::div_mod::lemma_mod_multiples_basic(kb * quot + kr, g);
        assert((g * (kb * quot + kr)) % g == 0) by {
            assert(g * (kb * quot + kr) == (kb * quot + kr) * g) by (nonlinear_arith);
        }
        assert(t * a + (s - quot * t) * b == g) by (nonlinear_arith)
            requires
                s * b + t * rem == g,
                a == b * quot + rem,
        ;
        (t, s - quot * t, g)
    }
}

/// Modulo a prime every value that is not a multiple of it has an inverse.
pub proof fn lemma_prime_invertible(d: u64, p: u64)
    requires
        is_prime(p),
        d % p != 0,
    ensures
        invertible(d, p),
{
    let m = p as int;
    let rd = (d % p) as nat;
    let (s, t, g) = lemma_bezout(rd, p as nat);
    // the common divisor is 1
    if g != 1 {
        vstd::arithmetic::div_mod::lemma_fundamental_div_mod(m, g);
        let k = m / g;
        assert(m == g * k);
        assert(g <= m) by (nonlinear_arith)
            requires
                m == g * k,
                m > 0,
                g > 0,
        ;
        // a divisor of the prime between 1 and it there is none, and the
        // prime itself does not divide the residue of d
        if g < m {
            assert(m % g != 0);
        } else {
            vstd::arithmetic::div_mod::lemma_small_mod(rd, p as nat);
        }
    }
    assert(g == 1);
    // s inverts d modulo p
    let y = (s % m) as u64;
    vstd::arithmetic::div_mod::lemma_mod_bound(s, m);
    lemma_cong_residue(s, m);
    lemma_cong_residue(d as int, m);
    lemma_cong_mul(d as int, rd as int, y as int, s, m);
    vstd::arithmetic::div_mod::lemma_mod_multiples_vanish(t, s * rd, m);
    assert(rd * s == s * rd) by (nonlinear_arith);
    assert(p * t + s * rd == 1) by (nonlinear_arith)
        requires
            s * rd + t * p == 1,
    ;
    assert(is_inverse(d, y, p));
}

/// A value whose power `n` is 1 has an inverse.
pub proof fn lemma_root_invertible(w: u64, n: nat, p: u64)
    requires
        p > 0,
        n > 0,
        cong(pow(w as int, n), 1, p as int),
    ensures
        invertible(w, p),
{
    let m = p as int;
    let rest = pow(w as int, (n - 1) as nat);
    let y = (rest % m) as u64;
    vstd::arithmetic::div_mod::lemma_mod_bound(rest, m);
    lemma_cong_residue(rest, m);
    lemma_cong_mul(w as int, w as int, y as int, rest, m);
    reveal(pow);
    assert(pow(w as int, n) == w * rest);
    assert(is_inverse(w, y, p));
}

/// Powers of a value of order `n` with different exponents below `n` are
/// different modulo `p`.
pub proof fn lemma_powers_differ(w: u64, n: nat, p: u64, a: nat, b: nat)
    requires
        p > 0,
        has_order(w, n, p),
        b < a < n,
    ensures
        !cong(pow(w as int, a), pow(w as int, b), p as int),
{
    let m = p as int;
    let ww = w as int;
    if cong(pow(ww, a), pow(ww, b), m) {
        let gap = (a - b) as nat;
        // w^b * (w^gap - 1) is zero, and w^b has an inverse
        vstd::arithmetic::power::lemma_pow_adds(ww, b, gap);
        let wb = pow(ww, b);
        let wg = pow(ww, gap);
        vstd::arithmetic::div_mod::lemma_sub_mod_noop(wb * wg, wb, m);
        vstd::arithmetic::div_mod::lemma_small_mod(0, m as nat);
        assert(wb * (wg - 1) == wb * wg - wb) by (nonlinear_arith);
        assert(cong(wb * (wg - 1), 0, m));
        // the power n of w^b is 1
        vstd::arithmetic::power::lemma_pow_multiplies(ww, b, n);
        vstd::arithmetic::power::lemma_pow_multiplies(ww, n, b);
        assert(b * n == n * b) by (nonlinear_arith);
        crate::sums::lemma_cong_pow_one(pow(ww, n), b, m);
        let rb = (wb % m) as u64;
        vstd::arithmetic::div_mod::lemma_mod_bound(wb, m);
        lemma_cong_residue(wb, m);
        crate::sums::lemma_cong_pow(rb as int, wb, n, m);
        lemma_root_invertible(rb, n, p);
        lemma_cancel_invertible(rb, wg - 1, wb, p);
        // so w^gap is 1, against the order of w
        lemma_cong_add(wg - 1, 0, 1, 1, m);
        assert(cong(wg, 1, m));
        assert(!cong(pow(ww, gap), 1, m));
    }
}

/// A geometric sum, multiplied by its ratio less one, is the next power
/// less one.
pub proof fn lemma_geometric_sum(w: u64, e: nat, n: nat)
    ensures
        (pow(w as int, e) - 1) * power_sum(w, e, n) == pow(w as int, n * e) - 1,
    decreases n,
{
    let ww = w as int;
    let x = pow(ww, e);
    if n == 0 {
        vstd::arithmetic::power::lemma_pow0(ww);
        assert(0 * e == 0) by (nonlinear_arith);
        assert((x - 1) * 0 == 0) by (nonlinear_arith);
    } else {
        lemma_geometric_sum(w, e, (n - 1) as nat);
        let before = power_sum(w, e, (n - 1) as nat);
        assert((n - 1) * e >= 0 && n * e == (n - 1) * e + e) by (nonlinear_arith)
            requires
                n >= 1,
                e >= 0,
        ;
        let last = pow(ww, ((n - 1) * e) as nat);
        vstd::arithmetic::power::lemma_pow_adds(ww, ((n - 1) * e) as nat, e);
        assert((x - 1) * (before + last) == ((x - 1) * before) + (last * x - last)) by (nonlinear_arith);
    }
}

/// In a prime field a value of order `n` is a principal root of unity of
/// order `n`, values at its powers can be interpolated, and the basis
/// polynomials of its powers exist.
pub proof fn lemma_prime_field_subgroup(w: u64, n: nat, p: u64)
    requires
        is_prime(p),
        has_order(w, n, p),
        n < p,
    ensures
        is_principal_root(w, n, p),
        can_interpolate(n, p, w),
        forall|i: int| 0 <= i < n ==> #[trigger] lagrange_defined(spec_subgroup(w, p, n), p, i),
{
    let m = p as int;
    let ww = w as int;
    let xs = spec_subgroup(w, p, n);
    vstd::arithmetic::div_mod::lemma_small_mod(0, m as nat);
    vstd::arithmetic::div_mod::lemma_small_mod(1, m as nat);
    // the powers add up to zero
    assert forall|e: nat| 0 < e < n implies cong(#[trigger] power_sum(w, e, n), 0, m) by {
        lemma_geometric_sum(w, e, n);
        let x = pow(ww, e);
        vstd::arithmetic::power::lemma_pow_multiplies(ww, n, e);
        crate::sums::lemma_cong_pow_one(pow(ww, n), e, m);
        vstd::arithmetic::div_mod::lemma_sub_mod_noop(pow(ww, n * e), 1, m);
        assert(cong((x - 1) * power_sum(w, e, n), 0, m));
        let d = ((x - 1) % m) as u64;
        vstd::arithmetic::div_mod::lemma_mod_bound(x - 1, m);
        lemma_cong_residue(x - 1, m);
        assert(d % p != 0) by {
            vstd::arithmetic::div_mod::lemma_mod_twice(x - 1, m);
            if (x - 1) % m == 0 {
                lemma_cong_add(x - 1, 0, 1, 1, m);
                assert(cong(x, 1, m));
            }
        }
        lemma_prime_invertible(d, p);
        lemma_cancel_invertible(d, power_sum(w, e, n), x - 1, p);
    }
    // the generator and the number of points have inverses
    lemma_root_invertible(w, n, p);
    vstd::arithmetic::div_mod::lemma_small_mod(n, p as nat);
    lemma_prime_invertible(n as u64, p);
    // the differences of the points have inverses
    assert forall|i: int| 0 <= i < n implies #[trigger] lagrange_defined(xs, p, i) by {
        assert forall|k: int| 0 <= k < xs.len() && k != i implies invertible(
            #[trigger] lagrange_denominator(xs, p, i, k),
            p,
        ) by {
            let d = lagrange_denominator(xs, p, i, k);
            let pi = pow(ww, i as nat);
            let pk = pow(ww, k as nat);
            vstd::arithmetic::div_mod::lemma_mod_bound(pi, m);
            vstd::arithmetic::div_mod::lemma_mod_bound(pk, m);
            assert(xs[i] == pi % m);
            assert(xs[k] == pk % m);
            vstd::arithmetic::div_mod::lemma_mod_bound(xs[i] - xs[k], m);
            if d % p == 0 {
                vstd::arithmetic::div_mod::lemma_mod_twice(xs[i] - xs[k], m);
                lemma_cong_add(xs[i] - xs[k], 0, xs[k] as int, xs[k] as int, m);
                lemma_cong_residue(pi, m);
                lemma_cong_residue(pk, m);
                assert(cong(pi, pk, m));
                if k < i {
                    lemma_powers_differ(w, n, p, i as nat, k as nat);
                } else {
                    lemma_powers_differ(w, n, p, k as nat, i as nat);
                }
            }
            lemma_prime_invertible(d, p);
        }
    }
}

/// Over a prime field the bit test accepts bits only: where its value on
/// `x` is zero, `x` is 0 or 1 modulo `p`.
pub proof fn lemma_bit_value_zero_only_for_bits(x: u64, p: u64)
    requires
        is_prime(p),
        spec_bit_value(x, p) == 0,
    ensures
        x % p == 0 || x % p == 1,
{
    let m = p as int;
    let less = ((x + (p - 1)) % m) as u64;
    vstd::arithmetic::div_mod::lemma_mod_bound(x + (p - 1), m);
    vstd::arithmetic::div_mod::lemma_mod_bound(x * less, m);
    vstd::arithmetic::div_mod::lemma_small_mod(0, m as nat);
    vstd::arithmetic::div_mod::lemma_small_mod(1, m as nat);
    if x % p != 0 {
        // x has an inverse, so x - 1 is zero modulo p
        lemma_prime_invertible(x, p);
        assert(cong(x * less, 0, m));
        lemma_cancel_invertible(x, less as int, x as int, p);
        lemma_cong_residue(x + (p - 1), m);
        vstd::arithmetic::div_mod::lemma_mod_add_multiples_vanish(x - 1, m);
        assert(cong(x - 1, 0, m));
        lemma_cong_add(x - 1, 0, 1, 1, m);
    }
}

} // verus!
