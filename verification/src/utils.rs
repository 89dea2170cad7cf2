//! Helpers of the proof system: coefficient vectors as polynomials, and the
//! challenge that avoids a set of points.

use vstd::prelude::*;
use crate::error::Error;
use crate::poly::{poly_value, ModPoly};
use crate::rng::{draw_at, repeat, SeededRng};

verus! {

/// The number of draws after which `rejection_sample` gives up: as many as
/// the machine can count, so that its loop is known to end.
pub const MAX_REJECTIONS: usize = usize::MAX;

/// The entries of `c`, each reduced modulo `q`.
pub open spec fn spec_reduced(c: Seq<u64>, q: u64) -> Seq<u64> {
    Seq::new(c.len(), |i: int| (c[i] % q) as u64)
}

/// Entries that lie below `q` are their own residues.
pub proof fn lemma_reduced_fixed(c: Seq<u64>, q: u64)
    requires
        q > 0,
        forall|i: int| 0 <= i < c.len() ==> c[i] < q,
    ensures
        spec_reduced(c, q) == c,
{
    assert forall|i: int| 0 <= i < c.len() implies spec_reduced(c, q)[i] == c[i] by {
        vstd::arithmetic::div_mod::lemma_small_mod(c[i] as nat, q as nat);
    }
    assert(spec_reduced(c, q) =~= c);
}

/// Reducing the coefficients modulo `p` does not change the value of a
/// polynomial modulo `p`.
pub proof fn lemma_reduced_value(c: Seq<u64>, x: int, p: u64)
    requires
        p > 0,
    ensures
        poly_value(spec_reduced(c, p), x) % (p as int) == poly_value(c, x) % (p as int),
    decreases c.len(),
{
    let rc = spec_reduced(c, p);
    if c.len() > 0 {
        let m = p as int;
        assert(rc.skip(1) =~= spec_reduced(c.skip(1), p));
        lemma_reduced_value(c.skip(1), x, p);
        let a = poly_value(rc.skip(1), x);
        let b = poly_value(c.skip(1), x);
        vstd::arithmetic::div_mod::lemma_mul_mod_noop_right(x, a, m);
        vstd::arithmetic::div_mod::lemma_mul_mod_noop_right(x, b, m);
        vstd::arithmetic::div_mod::lemma_add_mod_noop(rc[0] as int, x * a, m);
        vstd::arithmetic::div_mod::lemma_add_mod_noop(c[0] as int, x * b, m);
        vstd::arithmetic::div_mod::lemma_mod_twice(c[0] as int, m);
    }
}

/// The polynomial over the integers modulo `q` whose coefficients are the
/// entries of `c`, the constant term first.
pub fn coeffs2poly(c: &Vec<u64>, q: u64) -> (f: ModPoly)
    requires
        q > 0,
    ensures
        f@ == spec_reduced(c@, q),
        f.modulus == q,
        f.wf(),
{
    let mut coeffs: Vec<u64> = Vec::new();
    let mut i: usize = 0;
    while i < c.len()
        invariant
            q > 0,
            i <= c@.len(),
            coeffs@.len() == i,
            forall|k: int| 0 <= k < i ==> coeffs@[k] == c@[k] % q,
        decreases c@.len() - i,
    {
        coeffs.push(c[i] % q);
        i += 1;
    }
    proof {
        assert(coeffs@ =~= spec_reduced(c@, q));
    }
    ModPoly { coeffs, modulus: q }
}

/// The least power of two that is not below `n`.
pub open spec fn spec_next_pow2(n: nat) -> nat
    decreases n,
{
    if n <= 1 {
        1
    } else {
        2 * spec_next_pow2((n + 1) / 2)
    }
}

/// The least power of two that is not below `n` is at least 1 and, for a
/// positive `n`, below `2 * n`.
pub proof fn lemma_next_pow2_bounds(n: nat)
    ensures
        n <= spec_next_pow2(n),
        1 <= spec_next_pow2(n),
        n >= 1 ==> spec_next_pow2(n) < 2 * n,
    decreases n,
{
    if n > 1 {
        lemma_next_pow2_bounds((n + 1) / 2);
    }
}

/// Whether `b` is a power of two.
pub open spec fn is_pow2(b: nat) -> bool
    decreases b,
{
    b == 1 || (b > 1 && b % 2 == 0 && is_pow2(b / 2))
}

/// `spec_next_pow2(n)` is a power of two, and no power of two from `n` up
/// lies below it.
pub proof fn lemma_next_pow2_least(n: nat, b: nat)
    requires
        is_pow2(b),
        n <= b,
    ensures
        is_pow2(spec_next_pow2(n)),
        spec_next_pow2(n) <= b,
    decreases n,
{
    if n > 1 {
        lemma_next_pow2_least((n + 1) / 2, b / 2);
        assert(is_pow2(2 * spec_next_pow2((n + 1) / 2)));
    }
}

/// The least power of two that is not below `n`.
pub fn next_pow2(n: usize) -> (r: usize)
    requires
        2 * n <= usize::MAX,
    ensures
        r == spec_next_pow2(n as nat),
    decreases n,
{
    if n <= 1 {
        1
    } else {
        proof {
            lemma_next_pow2_bounds(n as nat);
        }
        let half: usize = next_pow2((n + 1) / 2);
        2 * half
    }
}

/// `n` zeros.
pub open spec fn spec_zeros(n: nat) -> Seq<u64> {
    Seq::new(n, |i: int| 0u64)
}

/// A vector of `n` zeros.
pub fn zeros(n: usize) -> (v: Vec<u64>)
    ensures
        v@ == spec_zeros(n as nat),
{
    let mut v: Vec<u64> = Vec::new();
    let mut i: usize = 0;
    while i < n
        invariant
            i <= n,
            v@ == spec_zeros(i as nat),
        decreases n - i,
    {
        v.push(0);
        proof {
            assert(v@ =~= spec_zeros((i + 1) as nat));
        }
        i += 1;
    }
    v
}

/// Appends the entries of `src` to `dst`.
pub fn extend_vec(dst: &mut Vec<u64>, src: &Vec<u64>)
    ensures
        final(dst)@ == old(dst)@ + src@,
{
    let mut i: usize = 0;
    proof {
        assert(dst@ =~= old(dst)@ + src@.take(0));
    }
    while i < src.len()
        invariant
            i <= src@.len(),
            dst@ == old(dst)@ + src@.take(i as int),
        decreases src@.len() - i,
    {
        dst.push(src[i]);
        proof {
            assert(dst@ =~= old(dst)@ + src@.take(i + 1));
        }
        i += 1;
    }
    proof {
        assert(src@.take(i as int) =~= src@);
    }
}

/// A copy of `src`.
pub fn copy_vec(src: &Vec<u64>) -> (v: Vec<u64>)
    ensures
        v@ == src@,
{
    let mut v: Vec<u64> = Vec::new();
    extend_vec(&mut v, src);
    proof {
        assert(v@ =~= src@);
    }
    v
}

/// Whether `v` occurs in `s`.
pub fn contains_value(s: &Vec<u64>, v: u64) -> (b: bool)
    ensures
        b == s@.contains(v),
{
    let mut i: usize = 0;
    while i < s.len()
        invariant
            i <= s@.len(),
            forall|k: int| 0 <= k < i ==> s@[k] != v,
        decreases s@.len() - i,
    {
        if s[i] == v {
            return true;
        }
        i += 1;
    }
    false
}

/// The number, counted from `k`, of the first draw below `q` that is not in
/// `bad`, among the draws before number `limit`; `None` where all of them
/// are in `bad`.
pub open spec fn first_good(
    seed: u64,
    asked: Seq<u64>,
    q: u64,
    bad: Seq<u64>,
    k: nat,
    limit: nat,
) -> Option<nat>
    decreases limit - k,
{
    if k >= limit {
        None
    } else if !bad.contains(draw_at(seed, asked, q, k)) {
        Some(k)
    } else {
        first_good(seed, asked, q, bad, k + 1, limit)
    }
}

/// Draws values below `q` until one is not in `bad`, and returns it.
///
/// Gives up with `InvalidChallenge` only after `MAX_REJECTIONS` draws that
/// were all in `bad`, which is more draws than a run can make.
pub fn rejection_sample(q: u64, bad: &Vec<u64>, rand: &mut SeededRng) -> (res: Result<u64, Error>)
    requires
        q > 0,
    ensures
        final(rand).seed() == old(rand).seed(),
        match first_good(
            old(rand).seed(),
            old(rand).asked(),
            q,
            bad@,
            0,
            MAX_REJECTIONS as nat,
        ) {
            Some(k) => res == Ok::<u64, Error>(
                draw_at(old(rand).seed(), old(rand).asked(), q, k),
            ) && final(rand).asked() == old(rand).asked() + repeat(q, k + 1),
            None => res == Err::<u64, Error>(Error::InvalidChallenge) && final(rand).asked() == old(
                rand,
            ).asked() + repeat(q, MAX_REJECTIONS as nat),
        },
        res matches Ok(v) ==> v < q && !bad@.contains(v),
{
    let ghost seed = rand.seed();
    let ghost asked = rand.asked();
    let mut k: usize = 0;
    proof {
        assert(asked + repeat(q, 0) =~= asked);
    }
    while k < MAX_REJECTIONS
        invariant
            q > 0,
            k <= MAX_REJECTIONS,
            seed == old(rand).seed(),
            asked == old(rand).asked(),
            rand.seed() == seed,
            rand.asked() == asked + repeat(q, k as nat),
            first_good(seed, asked, q, bad@, 0, MAX_REJECTIONS as nat) == first_good(
                seed,
                asked,
                q,
                bad@,
                k as nat,
                MAX_REJECTIONS as nat,
            ),
        decreases MAX_REJECTIONS - k,
    {
        let r: u64 = rand.below(q);
        proof {
            assert((asked + repeat(q, k as nat)).push(q) =~= asked + repeat(q, (k + 1) as nat));
            assert(r == draw_at(seed, asked, q, k as nat));
        }
        if !contains_value(bad, r) {
            return Ok(r);
        }
        k += 1;
    }
    Err(Error::InvalidChallenge)
}

} // verus!
