//! Additive two-out-of-two secret sharing over a prime field.

use vstd::prelude::*;
use crate::field::{add_mod, spec_add_mod, spec_sub_mod, sub_mod};
use crate::rng::{drawn, draws, repeat, SeededRng};

verus! {

/// The share that completes `s0` to `x` modulo `q`.
pub open spec fn spec_other_share(x: u64, s0: u64, q: u64) -> int {
    spec_sub_mod(x, s0, q)
}

/// The value that two shares stand for.
pub open spec fn spec_reconstruct(share0: u64, share1: u64, q: u64) -> int {
    spec_add_mod(share0, share1, q)
}

/// The second shares of the values `xs`, given their first shares.
pub open spec fn spec_other_shares(xs: Seq<u64>, s0: Seq<u64>, q: u64) -> Seq<u64> {
    Seq::new(xs.len(), |i: int| spec_other_share(xs[i], s0[i], q) as u64)
}

/// The values that two vectors of shares stand for, entry by entry.
pub open spec fn spec_reconstruct_vec(xs: Seq<u64>, ys: Seq<u64>, q: u64) -> Seq<u64> {
    Seq::new(xs.len(), |i: int| spec_reconstruct(xs[i], ys[i], q) as u64)
}

/// Two shares of one value recombine to the value reduced modulo `q`.
pub proof fn lemma_share_round_trip(x: u64, s0: u64, q: u64)
    requires
        q > 0,
    ensures
        spec_reconstruct(s0, spec_other_share(x, s0, q) as u64, q) == x % q,
{
    let s1 = spec_other_share(x, s0, q);
    vstd::arithmetic::div_mod::lemma_add_mod_noop_right(s0 as int, x - s0, q as int);
}

/// The second share hides the value as well as the first does: for each
/// residue `t` there is one draw of the first share, and only one, for
/// which `t` is the second share of `x`. So where the first share takes
/// every residue equally often, the second does too.
pub proof fn lemma_other_share_covers(x: u64, t: u64, q: u64)
    requires
        q > 0,
        t < q,
    ensures
        spec_other_share(x, spec_other_share(x, t, q) as u64, q) == t,
        forall|s0: u64| s0 < q && spec_other_share(x, s0, q) == t ==> s0 == spec_other_share(x, t, q),
{
    let m = q as int;
    let back = spec_other_share(x, t, q);
    vstd::arithmetic::div_mod::lemma_mod_bound(x - t, m);
    // x - (x - t) = t
    vstd::arithmetic::div_mod::lemma_sub_mod_noop_right(x as int, x - t, m);
    vstd::arithmetic::div_mod::lemma_small_mod(t as nat, q as nat);
    assert(x - (x - t) == t);
    assert forall|s0: u64| s0 < q && spec_other_share(x, s0, q) == t implies s0 == back by {
        vstd::arithmetic::div_mod::lemma_sub_mod_noop_right(x as int, x - s0, m);
        vstd::arithmetic::div_mod::lemma_small_mod(s0 as nat, q as nat);
        assert(x - (x - s0) == s0);
    }
}

/// Two vectors of shares of `xs` recombine to `xs`, each entry reduced
/// modulo `q`.
pub proof fn lemma_shares_round_trip(xs: Seq<u64>, s0: Seq<u64>, q: u64)
    requires
        q > 0,
        s0.len() == xs.len(),
    ensures
        spec_reconstruct_vec(s0, spec_other_shares(xs, s0, q), q) == Seq::new(
            xs.len(),
            |i: int| (xs[i] % q) as u64,
        ),
{
    let s1 = spec_other_shares(xs, s0, q);
    let back = spec_reconstruct_vec(s0, s1, q);
    let reduced = Seq::new(xs.len(), |i: int| (xs[i] % q) as u64);
    assert forall|i: int| 0 <= i < xs.len() implies back[i] == reduced[i] by {
        lemma_share_round_trip(xs[i], s0[i], q);
    }
    assert(back =~= reduced);
}

/// Splits `x` into a share drawn from the generator and the share that
/// completes it modulo `q`.
pub fn gen_shares(x: u64, q: u64, r: &mut SeededRng) -> (s: (u64, u64))
    requires
        q > 0,
    ensures
        s.0 == drawn(old(r).seed(), old(r).asked().push(q)),
        s.0 < q,
        s.1 == spec_other_share(x, s.0, q),
        s.1 < q,
        final(r).seed() == old(r).seed(),
        final(r).asked() == old(r).asked().push(q),
{
    let x_0: u64 = r.below(q);
    let x_1: u64 = sub_mod(x, x_0, q);
    (x_0, x_1)
}

/// The value that two shares stand for: their sum modulo `q`.
pub fn reconstruct(share0: u64, share1: u64, q: u64) -> (x: u64)
    requires
        q > 0,
    ensures
        x == spec_reconstruct(share0, share1, q),
        x < q,
{
    add_mod(share0, share1, q)
}

/// Splits each entry of `xs` into two shares; the first shares are drawn
/// from the generator in the order of the entries.
pub fn gen_vec_shares(xs: &Vec<u64>, q: u64, r: &mut SeededRng) -> (s: (Vec<u64>, Vec<u64>))
    requires
        q > 0,
    ensures
        s.0@ == draws(old(r).seed(), old(r).asked(), q, xs@.len()),
        s.1@ == spec_other_shares(xs@, s.0@, q),
        forall|i: int| 0 <= i < xs@.len() ==> s.0@[i] < q && s.1@[i] < q,
        final(r).seed() == old(r).seed(),
        final(r).asked() == old(r).asked() + repeat(q, xs@.len()),
{
    let ghost seed = r.seed();
    let ghost asked = r.asked();
    let mut first: Vec<u64> = Vec::new();
    let mut second: Vec<u64> = Vec::new();
    let mut i: usize = 0;
    assert(asked + repeat(q, 0) =~= asked);
    while i < xs.len()
        invariant
            q > 0,
            i <= xs@.len(),
            r.seed() == seed,
            r.asked() == asked + repeat(q, i as nat),
            first@ == draws(seed, asked, q, i as nat),
            second@.len() == i,
            forall|k: int| 0 <= k < i ==> second@[k] == spec_other_share(xs@[k], first@[k], q),
            forall|k: int| 0 <= k < i ==> first@[k] < q && second@[k] < q,
        decreases xs@.len() - i,
    {
        let (x_0, x_1) = gen_shares(xs[i], q, r);
        first.push(x_0);
        second.push(x_1);
        proof {
            assert((asked + repeat(q, i as nat)).push(q) =~= asked + repeat(q, (i + 1) as nat));
            assert(first@ =~= draws(seed, asked, q, (i + 1) as nat));
        }
        i += 1;
    }
    assert(second@ =~= spec_other_shares(xs@, first@, q));
    (first, second)
}

/// The values that two vectors of shares stand for, entry by entry. Entries
/// that only the longer vector has are left out.
pub fn reconstruct_vec_shares(xs: &Vec<u64>, ys: &Vec<u64>, q: u64) -> (v: Vec<u64>)
    requires
        q > 0,
    ensures
        v@ == spec_reconstruct_vec(
            xs@.take(vstd::math::min(xs@.len() as int, ys@.len() as int)),
            ys@,
            q,
        ),
        forall|i: int| 0 <= i < v@.len() ==> v@[i] < q,
{
    let n: usize = if xs.len() < ys.len() { xs.len() } else { ys.len() };
    let mut v: Vec<u64> = Vec::new();
    let mut i: usize = 0;
    while i < n
        invariant
            q > 0,
            i <= n,
            n <= xs@.len(),
            n <= ys@.len(),
            v@.len() == i,
            forall|k: int| 0 <= k < i ==> v@[k] == spec_reconstruct(xs@[k], ys@[k], q),
            forall|k: int| 0 <= k < i ==> v@[k] < q,
        decreases n - i,
    {
        v.push(reconstruct(xs[i], ys[i], q));
        i += 1;
    }
    assert(v@ =~= spec_reconstruct_vec(xs@.take(n as int), ys@, q));
    v
}

} // verus!
