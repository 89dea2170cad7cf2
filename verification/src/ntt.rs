//! The fast transform: the sums that interpolation on a subgroup of order a
//! power of two needs, computed by halving.

use vstd::prelude::*;
use vstd::arithmetic::power::pow;
use crate::dft::lemma_transform_as_sum;
use crate::field::{add_mod, mul_mod};
use crate::poly::transform_sum;
use crate::sums::{
    cong,
    lemma_cong_add,
    lemma_cong_mul,
    lemma_cong_pow,
    lemma_cong_pow_one,
    lemma_cong_residue,
    lemma_sum_cong,
    lemma_sum_scale,
    sum_to,
};
use crate::utils::is_pow2;

verus! {

/// The entries of `ys` with an even index.
pub open spec fn spec_evens(ys: Seq<u64>) -> Seq<u64> {
    Seq::new(ys.len() / 2, |i: int| ys[2 * i])
}

/// The entries of `ys` with an odd index.
pub open spec fn spec_odds(ys: Seq<u64>) -> Seq<u64> {
    Seq::new(ys.len() / 2, |i: int| ys[2 * i + 1])
}

/// The terms of the transform sum for `j` whose index is even, for the
/// first `m` of them.
pub open spec fn even_sum(ys: Seq<u64>, u: u64, j: nat, m: nat) -> int
    decreases m,
{
    if m == 0 {
        0
    } else {
        even_sum(ys, u, j, (m - 1) as nat) + ys[2 * (m - 1)] * pow(u as int, (2 * (m - 1) * j) as nat)
    }
}

/// The terms of the transform sum for `j` whose index is odd, for the first
/// `m` of them.
pub open spec fn odd_sum(ys: Seq<u64>, u: u64, j: nat, m: nat) -> int
    decreases m,
{
    if m == 0 {
        0
    } else {
        odd_sum(ys, u, j, (m - 1) as nat) + ys[2 * (m - 1) + 1] * pow(
            u as int,
            ((2 * (m - 1) + 1) * j) as nat,
        )
    }
}

/// The transform sum over an even number of values is the sum of its terms
/// of even index and of its terms of odd index.
pub proof fn lemma_transform_split(ys: Seq<u64>, u: u64, j: nat, m: nat)
    ensures
        transform_sum(ys, u, j, 2 * m) == even_sum(ys, u, j, m) + odd_sum(ys, u, j, m),
    decreases m,
{
    reveal_with_fuel(transform_sum, 3);
    if m > 0 {
        lemma_transform_split(ys, u, j, (m - 1) as nat);
        assert(2 * m - 1 == 2 * (m - 1) + 1);
        assert(2 * m - 2 == 2 * (m - 1));
        assert(transform_sum(ys, u, j, 2 * m) == transform_sum(ys, u, j, (2 * m - 2) as nat) + ys[2
            * m - 2] * pow(u as int, ((2 * m - 2) * j) as nat) + ys[2 * m - 1] * pow(
            u as int,
            ((2 * m - 1) * j) as nat,
        ));
    }
}

/// The terms of even index as a sum of terms.
pub proof fn lemma_even_sum_as_sum(ys: Seq<u64>, u: u64, j: nat, m: nat, f: spec_fn(int) -> int)
    requires
        forall|i: int| 0 <= i < m ==> #[trigger] f(i) == ys[2 * i] * pow(u as int, (2 * i * j) as nat),
    ensures
        even_sum(ys, u, j, m) == sum_to(f, m),
    decreases m,
{
    if m > 0 {
        lemma_even_sum_as_sum(ys, u, j, (m - 1) as nat, f);
        assert(f(m - 1) == ys[2 * (m - 1)] * pow(u as int, (2 * (m - 1) * j) as nat));
    }
}

/// The terms of odd index as a sum of terms.
pub proof fn lemma_odd_sum_as_sum(ys: Seq<u64>, u: u64, j: nat, m: nat, f: spec_fn(int) -> int)
    requires
        forall|i: int|
            0 <= i < m ==> #[trigger] f(i) == ys[2 * i + 1] * pow(u as int, ((2 * i + 1) * j) as nat),
    ensures
        odd_sum(ys, u, j, m) == sum_to(f, m),
    decreases m,
{
    if m > 0 {
        lemma_odd_sum_as_sum(ys, u, j, (m - 1) as nat, f);
        assert(f(m - 1) == ys[2 * (m - 1) + 1] * pow(u as int, ((2 * (m - 1) + 1) * j) as nat));
    }
}

/// The power `u^(2 * i * j)` is, where `u^(2 * m)` is 1, the power
/// `(u * u)^(i * (j mod m))`.
pub proof fn lemma_halved_power(u: u64, u2: u64, p: u64, i: nat, j: nat, m: nat)
    requires
        p > 0,
        m > 0,
        cong(u2 as int, u * u, p as int),
        cong(pow(u as int, 2 * m), 1, p as int),
    ensures
        cong(pow(u as int, 2 * i * j), pow(u2 as int, i * (j % m)), p as int),
{
    let md = p as int;
    let uu = u as int;
    let jm = j % m;
    let k = j / m;
    vstd::arithmetic::div_mod::lemma_fundamental_div_mod(j as int, m as int);
    assert(k >= 0) by {
        vstd::arithmetic::div_mod::lemma_div_pos_is_pos(j as int, m as int);
    }
    // 2 * i * j = 2 * (i * jm) + (2 * m) * (i * k)
    assert(2 * i * j == 2 * (i * jm) + (2 * m) * (i * k) && i * jm >= 0 && i * k >= 0) by (nonlinear_arith)
        requires
            j == m * k + jm,
            i >= 0,
            jm >= 0,
            k >= 0,
    ;
    vstd::arithmetic::power::lemma_pow_adds(uu, (2 * (i * jm)) as nat, ((2 * m) * (i * k)) as nat);
    vstd::arithmetic::power::lemma_pow_multiplies(uu, 2 * m, (i * k) as nat);
    lemma_cong_pow_one(pow(uu, 2 * m), (i * k) as nat, md);
    let a = pow(uu, (2 * (i * jm)) as nat);
    lemma_cong_mul(a, a, pow(uu, ((2 * m) * (i * k)) as nat), 1, md);
    assert(a * 1 == a);
    // u^(2 * e) = (u * u)^e
    vstd::arithmetic::power::lemma_pow_multiplies(uu, 2, (i * jm) as nat);
    assert(pow(uu, 2) == uu * uu) by {
        reveal_with_fuel(pow, 3);
    }
    lemma_cong_pow(u2 as int, uu * uu, (i * jm) as nat, md);
}

/// Halving: where `u^(2 * m)` is 1, the transform sum over `2 * m` values
/// for `j` is the sum for `j mod m` over the values of even index and `u^j`
/// times the sum over the values of odd index, both with `u * u` in place
/// of `u`.
pub proof fn lemma_transform_halves(ys: Seq<u64>, u: u64, u2: u64, p: u64, j: nat, m: nat)
    requires
        p > 0,
        m > 0,
        ys.len() == 2 * m,
        cong(u2 as int, u * u, p as int),
        cong(pow(u as int, 2 * m), 1, p as int),
    ensures
        cong(
            transform_sum(ys, u, j, 2 * m),
            transform_sum(spec_evens(ys), u2, j % m, m) + pow(u as int, j) * transform_sum(
                spec_odds(ys),
                u2,
                j % m,
                m,
            ),
            p as int,
        ),
{
    let md = p as int;
    let uu = u as int;
    let jm = j % m;
    let ev = spec_evens(ys);
    let od = spec_odds(ys);
    lemma_transform_split(ys, u, j, m);
    // the terms of even index
    let fe = |i: int| ys[2 * i] * pow(uu, (2 * i * j) as nat);
    let ge = |i: int| ev[i] * pow(u2 as int, (i * jm) as nat);
    lemma_even_sum_as_sum(ys, u, j, m, fe);
    lemma_transform_as_sum(ev, u2, jm, m, ge);
    assert forall|i: int| 0 <= i < m implies cong(#[trigger] fe(i), ge(i), md) by {
        lemma_halved_power(u, u2, p, i as nat, j, m);
        assert(i * jm >= 0 && 2 * i * j >= 0) by (nonlinear_arith)
            requires
                i >= 0,
                jm >= 0,
                j >= 0,
        ;
        lemma_cong_mul(
            ys[2 * i] as int,
            ys[2 * i] as int,
            pow(uu, (2 * i * j) as nat),
            pow(u2 as int, (i * jm) as nat),
            md,
        );
    }
    lemma_sum_cong(fe, ge, m, md);
    // the terms of odd index
    let fo = |i: int| ys[2 * i + 1] * pow(uu, ((2 * i + 1) * j) as nat);
    let go = |i: int| od[i] * pow(u2 as int, (i * jm) as nat);
    let ho = |i: int| pow(uu, j) * go(i);
    lemma_odd_sum_as_sum(ys, u, j, m, fo);
    lemma_transform_as_sum(od, u2, jm, m, go);
    assert forall|i: int| 0 <= i < m implies cong(#[trigger] fo(i), ho(i), md) by {
        lemma_halved_power(u, u2, p, i as nat, j, m);
        assert(i * jm >= 0 && 2 * i * j >= 0 && (2 * i + 1) * j == 2 * i * j + j) by (nonlinear_arith)
            requires
                i >= 0,
                jm >= 0,
                j >= 0,
        ;
        vstd::arithmetic::power::lemma_pow_adds(uu, (2 * i * j) as nat, j);
        let a = pow(uu, (2 * i * j) as nat);
        let b = pow(u2 as int, (i * jm) as nat);
        let c = pow(uu, j);
        lemma_cong_mul(a, b, c, c, md);
        lemma_cong_mul(ys[2 * i + 1] as int, ys[2 * i + 1] as int, a * c, b * c, md);
        assert(ys[2 * i + 1] * (b * c) == c * (ys[2 * i + 1] * b)) by (nonlinear_arith);
    }
    lemma_sum_cong(fo, ho, m, md);
    lemma_sum_scale(go, ho, pow(uu, j), m);
    lemma_cong_add(
        even_sum(ys, u, j, m),
        transform_sum(ev, u2, jm, m),
        odd_sum(ys, u, j, m),
        pow(uu, j) * transform_sum(od, u2, jm, m),
        md,
    );
}

/// Whether `n` is a power of two.
pub fn is_power_of_two(n: usize) -> (b: bool)
    ensures
        b == is_pow2(n as nat),
    decreases n,
{
    if n == 1 {
        true
    } else if n > 1 && n % 2 == 0 {
        is_power_of_two(n / 2)
    } else {
        false
    }
}

/// The transform sums of the values `ys`, a power of two in number, for a
/// `u` whose power `ys.len()` is 1: entry `j` is the sum of
/// `ys[i] * u^(i * j)`, modulo `p`.
pub fn fast_transform(ys: &Vec<u64>, u: u64, p: u64) -> (out: Vec<u64>)
    requires
        p > 0,
        is_pow2(ys@.len()),
        cong(pow(u as int, ys@.len()), 1, p as int),
    ensures
        out@.len() == ys@.len(),
        forall|j: int|
            0 <= j < ys@.len() ==> #[trigger] out@[j] == transform_sum(
                ys@,
                u,
                j as nat,
                ys@.len(),
            ) % (p as int),
    decreases ys@.len(),
{
    let n: usize = ys.len();
    let mut out: Vec<u64> = Vec::new();
    if n == 1 {
        out.push(ys[0] % p);
        proof {
            reveal_with_fuel(transform_sum, 2);
            vstd::arithmetic::power::lemma_pow0(u as int);
            assert(0 * 0 == 0);
        }
        return out;
    }
    let m: usize = n / 2;
    let mut evens: Vec<u64> = Vec::new();
    let mut odds: Vec<u64> = Vec::new();
    let mut i: usize = 0;
    while i < m
        invariant
            n == ys@.len(),
            n == 2 * m,
            i <= m,
            evens@ == spec_evens(ys@).take(i as int),
            odds@ == spec_odds(ys@).take(i as int),
        decreases m - i,
    {
        evens.push(ys[2 * i]);
        odds.push(ys[2 * i + 1]);
        proof {
            assert(evens@ =~= spec_evens(ys@).take(i + 1));
            assert(odds@ =~= spec_odds(ys@).take(i + 1));
        }
        i += 1;
    }
    let u2: u64 = mul_mod(u, u, p);
    proof {
        assert(evens@ =~= spec_evens(ys@));
        assert(odds@ =~= spec_odds(ys@));
        let md = p as int;
        lemma_cong_residue(u * u, md);
        // the power m of u * u is the power n of u
        lemma_cong_pow(u2 as int, u * u, m as nat, md);
        vstd::arithmetic::power::lemma_pow_multiplies(u as int, 2, m as nat);
        assert(pow(u as int, 2) == u * u) by {
            reveal_with_fuel(pow, 3);
        }
    }
    let e = fast_transform(&evens, u2, p);
    let o = fast_transform(&odds, u2, p);
    let mut tw: u64 = 1 % p;
    let mut j: usize = 0;
    proof {
        vstd::arithmetic::power::lemma_pow0(u as int);
    }
    while j < n
        invariant
            p > 0,
            n == ys@.len(),
            n == 2 * m,
            m > 0,
            j <= n,
            e@.len() == m,
            o@.len() == m,
            cong(u2 as int, u * u, p as int),
            cong(pow(u as int, 2 * (m as nat)), 1, p as int),
            forall|k: int|
                0 <= k < m ==> #[trigger] e@[k] == transform_sum(
                    spec_evens(ys@),
                    u2,
                    k as nat,
                    m as nat,
                ) % (p as int),
            forall|k: int|
                0 <= k < m ==> #[trigger] o@[k] == transform_sum(
                    spec_odds(ys@),
                    u2,
                    k as nat,
                    m as nat,
                ) % (p as int),
            tw == pow(u as int, j as nat) % (p as int),
            out@.len() == j,
            forall|k: int|
                0 <= k < j ==> #[trigger] out@[k] == transform_sum(ys@, u, k as nat, n as nat) % (
                p as int),
        decreases n - j,
    {
        let jm: usize = j % m;
        let t: u64 = mul_mod(tw, o[jm], p);
        let v: u64 = add_mod(e[jm], t, p);
        let next: u64 = mul_mod(tw, u, p);
        proof {
            let md = p as int;
            let te = transform_sum(spec_evens(ys@), u2, jm as nat, m as nat);
            let to = transform_sum(spec_odds(ys@), u2, jm as nat, m as nat);
            let pj = pow(u as int, j as nat);
            lemma_transform_halves(ys@, u, u2, p, j as nat, m as nat);
            lemma_cong_residue(pj, md);
            lemma_cong_residue(to, md);
            lemma_cong_residue(te, md);
            lemma_cong_mul(tw as int, pj, o@[jm as int] as int, to, md);
            lemma_cong_residue(tw * o@[jm as int], md);
            lemma_cong_add(e@[jm as int] as int, te, t as int, pj * to, md);
            lemma_cong_residue(e@[jm as int] + t, md);
            vstd::arithmetic::div_mod::lemma_mod_bound(transform_sum(ys@, u, j as nat, n as nat), md);
            // the next power
            reveal(pow);
            lemma_cong_mul(tw as int, pj, u as int, u as int, md);
            lemma_cong_residue(tw * u, md);
            assert(pow(u as int, (j + 1) as nat) == u * pj);
            assert(pj * u == u * pj) by (nonlinear_arith);
            vstd::arithmetic::div_mod::lemma_mod_bound(pow(u as int, (j + 1) as nat), md);
        }
        out.push(v);
        tw = next;
        j += 1;
    }
    out
}

} // verus!
