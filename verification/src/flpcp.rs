//! The fully-linear proof system: proofs and their shares, the prover, the
//! queries of the verifier, and the decision that two aggregators reach
//! together.

use vstd::prelude::*;
use crate::circuit::Circuit;
use crate::error::Error;
use vstd::arithmetic::power::pow;
use crate::field::{add_mod, mul_mod, pow_mod, spec_pow_mod, sub_mod};
use crate::interpolate::{eval_lagrange_basis, lagrange_defined, spec_lagrange_basis};
use crate::rng::{draws, fresh_seed, lemma_draws_window, repeat, SeededRng};
use crate::poly::{
    can_interpolate,
    poly_value,
    spec_evaluate,
    spec_interpolate,
    spec_product,
    ModPoly,
};
use crate::rng::draw_at;
use crate::utils::{
    coeffs2poly,
    first_good,
    lemma_reduced_value,
    rejection_sample,
    MAX_REJECTIONS,
    copy_vec,
    extend_vec,
    lemma_next_pow2_bounds,
    next_pow2,
    spec_next_pow2,
    spec_zeros,
    zeros,
};
use crate::ss::{
    gen_vec_shares,
    lemma_shares_round_trip,
    reconstruct_vec_shares,
    spec_other_shares,
    spec_reconstruct_vec,
};

verus! {

/// What a proof holds: the inputs `x`, the reserved vector `w`, the blinding
/// pair `z`, the coefficients `c` of the product polynomial, and the modulus.
pub struct ProofView {
    pub x: Seq<u64>,
    pub w: Seq<u64>,
    pub z: Seq<u64>,
    pub c: Seq<u64>,
    pub q: u64,
}

impl ProofView {
    /// The entries in the order in which a query meets them: `x`, `w`, `z`,
    /// `c`.
    pub open spec fn collect(self) -> Seq<u64> {
        self.x + self.w + self.z + self.c
    }

    /// The number of entries.
    pub open spec fn len(self) -> nat {
        self.x.len() + self.w.len() + self.z.len() + self.c.len()
    }

    /// The blinding values and the coefficients lie below the modulus.
    pub open spec fn made_reduced(self) -> bool {
        &&& forall|i: int| 0 <= i < self.z.len() ==> self.z[i] < self.q
        &&& forall|i: int| 0 <= i < self.c.len() ==> self.c[i] < self.q
    }

    /// The modulus is positive and every entry lies below it.
    pub open spec fn reduced(self) -> bool {
        &&& self.q > 0
        &&& forall|i: int| 0 <= i < self.x.len() ==> self.x[i] < self.q
        &&& forall|i: int| 0 <= i < self.w.len() ==> self.w[i] < self.q
        &&& forall|i: int| 0 <= i < self.z.len() ==> self.z[i] < self.q
        &&& forall|i: int| 0 <= i < self.c.len() ==> self.c[i] < self.q
    }
}

/// The share that a generator made with `seed` draws after the draws
/// `asked`, for a proof with `nx`, `nw`, `nz` and `nc` entries: the draws
/// below `q` in a row, the first `nx` of them for `x`, then `w`, `z`, `c`.
pub open spec fn spec_mask(
    seed: u64,
    asked: Seq<u64>,
    q: u64,
    nx: nat,
    nw: nat,
    nz: nat,
    nc: nat,
) -> ProofView {
    let d = draws(seed, asked, q, nx + nw + nz + nc);
    ProofView {
        x: d.subrange(0, nx as int),
        w: d.subrange(nx as int, (nx + nw) as int),
        z: d.subrange((nx + nw) as int, (nx + nw + nz) as int),
        c: d.subrange((nx + nw + nz) as int, (nx + nw + nz + nc) as int),
        q,
    }
}

/// The share that completes `mask` to `pi`, entry by entry.
pub open spec fn spec_masked(pi: ProofView, mask: ProofView) -> ProofView {
    ProofView {
        x: spec_other_shares(pi.x, mask.x, pi.q),
        w: spec_other_shares(pi.w, mask.w, pi.q),
        z: spec_other_shares(pi.z, mask.z, pi.q),
        c: spec_other_shares(pi.c, mask.c, pi.q),
        q: pi.q,
    }
}

/// The proof that the shares `a` and `b` stand for, over the modulus of `a`.
/// Entries that only one of the two has are left out.
pub open spec fn spec_rejoined(a: ProofView, b: ProofView) -> ProofView {
    ProofView {
        x: spec_reconstruct_vec(a.x.take(vstd::math::min(a.x.len() as int, b.x.len() as int)), b.x, a.q),
        w: spec_reconstruct_vec(a.w.take(vstd::math::min(a.w.len() as int, b.w.len() as int)), b.w, a.q),
        z: spec_reconstruct_vec(a.z.take(vstd::math::min(a.z.len() as int, b.z.len() as int)), b.z, a.q),
        c: spec_reconstruct_vec(a.c.take(vstd::math::min(a.c.len() as int, b.c.len() as int)), b.c, a.q),
        q: a.q,
    }
}

/// The sum of the products `a[i] * b[i]`.
pub open spec fn dot(a: Seq<u64>, b: Seq<u64>) -> int
    decreases a.len(),
{
    if a.len() == 0 || b.len() == 0 {
        0
    } else {
        dot(a.drop_last(), b.drop_last()) + a.last() * b.last()
    }
}

/// The answer of the entries `pi` to a query: the inner product with `vec`,
/// plus `scalar`, modulo `q`.
pub open spec fn spec_query(pi: Seq<u64>, vec: Seq<u64>, scalar: u64, q: u64) -> int {
    (dot(pi, vec) + scalar) % (q as int)
}

/// A proof, or one additive share of a proof.
#[derive(Debug, PartialEq)]
pub struct Proof {
    pub x: Vec<u64>,
    pub w: Vec<u64>,
    pub z: Vec<u64>,
    pub c: Vec<u64>,
    pub q: u64,
}

impl View for Proof {
    type V = ProofView;

    open spec fn view(&self) -> ProofView {
        ProofView { x: self.x@, w: self.w@, z: self.z@, c: self.c@, q: self.q }
    }
}

/// A proof share as it travels to the aggregator that gets it in full.
#[derive(Debug, PartialEq)]
pub struct Proofu64 {
    pub x: Vec<u64>,
    pub w: Vec<u64>,
    pub z: Vec<u64>,
    pub c: Vec<u64>,
    pub q: u64,
}

impl View for Proofu64 {
    type V = ProofView;

    open spec fn view(&self) -> ProofView {
        ProofView { x: self.x@, w: self.w@, z: self.z@, c: self.c@, q: self.q }
    }
}

/// A proof share as the seed that it is drawn from, with the lengths of its
/// vectors and the modulus.
#[derive(Debug, PartialEq)]
pub struct ProofSeed {
    pub seed: u64,
    pub x_len: u16,
    pub w_len: u16,
    pub z_len: u16,
    pub c_len: u16,
    pub q: u64,
}

impl ProofSeed {
    /// The share that the seed stands for.
    pub open spec fn spec_share(&self) -> ProofView {
        spec_mask(
            self.seed,
            Seq::empty(),
            self.q,
            self.x_len as nat,
            self.w_len as nat,
            self.z_len as nat,
            self.c_len as nat,
        )
    }

    /// Expands the seed into the share that it stands for: the vectors `x`,
    /// `w`, `z` and `c` are drawn in this order from a generator made with
    /// the seed.
    pub fn get_share(&self) -> (pi: Proof)
        requires
            self.q > 0,
        ensures
            pi@ == self.spec_share(),
            pi@.reduced(),
    {
        let mut rand = SeededRng::seeded(self.seed);
        let q: u64 = self.q;
        let ghost nx = self.x_len as nat;
        let ghost nw = self.w_len as nat;
        let ghost nz = self.z_len as nat;
        let ghost nc = self.c_len as nat;
        let ghost none = Seq::<u64>::empty();
        let x = rand.below_vec(q, self.x_len as usize);
        let w = rand.below_vec(q, self.w_len as usize);
        let z = rand.below_vec(q, self.z_len as usize);
        let c = rand.below_vec(q, self.c_len as usize);
        proof {
            lemma_mask_pieces(self.seed, none, q, nx, nw, nz, nc);
        }
        Proof { x, w, z, c, q }
    }
}

/// The pieces of a drawn share are the runs of draws that follow each
/// other on the generator.
pub proof fn lemma_mask_pieces(seed: u64, asked: Seq<u64>, q: u64, nx: nat, nw: nat, nz: nat, nc: nat)
    ensures
        spec_mask(seed, asked, q, nx, nw, nz, nc).x == draws(seed, asked, q, nx),
        spec_mask(seed, asked, q, nx, nw, nz, nc).w == draws(seed, asked + repeat(q, nx), q, nw),
        spec_mask(seed, asked, q, nx, nw, nz, nc).z == draws(
            seed,
            asked + repeat(q, nx) + repeat(q, nw),
            q,
            nz,
        ),
        spec_mask(seed, asked, q, nx, nw, nz, nc).c == draws(
            seed,
            asked + repeat(q, nx) + repeat(q, nw) + repeat(q, nz),
            q,
            nc,
        ),
        asked + repeat(q, nx) + repeat(q, nw) + repeat(q, nz) + repeat(q, nc) == asked + repeat(
            q,
            nx + nw + nz + nc,
        ),
{
    let total = nx + nw + nz + nc;
    assert(asked + repeat(q, 0) =~= asked);
    lemma_draws_window(seed, asked, q, 0, nx, total);
    lemma_draws_window(seed, asked, q, nx, nw, total);
    lemma_draws_window(seed, asked, q, nx + nw, nz, total);
    lemma_draws_window(seed, asked, q, nx + nw + nz, nc, total);
    assert(asked + repeat(q, nx) + repeat(q, nw) =~= asked + repeat(q, nx + nw));
    assert(asked + repeat(q, nx + nw) + repeat(q, nz) =~= asked + repeat(q, nx + nw + nz));
    assert(asked + repeat(q, nx + nw + nz) + repeat(q, nc) =~= asked + repeat(q, total));
}

/// The seed form of the share that a generator made with `seed` draws for a
/// proof `pi`.
pub open spec fn spec_seed_of(pi: ProofView, seed: u64) -> ProofSeed {
    ProofSeed {
        seed,
        x_len: pi.x.len() as u16,
        w_len: pi.w.len() as u16,
        z_len: pi.z.len() as u16,
        c_len: pi.c.len() as u16,
        q: pi.q,
    }
}

impl Proof {
    /// The number of entries of the proof.
    pub fn len(&self) -> (n: usize)
        requires
            self@.len() <= usize::MAX,
        ensures
            n == self@.len(),
    {
        self.x.len() + self.w.len() + self.z.len() + self.c.len()
    }

    /// The entries in the order `x`, `w`, `z`, `c`.
    pub fn collect(&self) -> (pi: Vec<u64>)
        ensures
            pi@ == self@.collect(),
    {
        let mut pi: Vec<u64> = copy_vec(&self.x);
        extend_vec(&mut pi, &self.w);
        extend_vec(&mut pi, &self.z);
        extend_vec(&mut pi, &self.c);
        pi
    }

    /// Splits the proof into two additive shares. The first share is drawn
    /// from the generator, vector by vector in the order `x`, `w`, `z`, `c`;
    /// the second completes it.
    pub fn share(&self, r: &mut SeededRng) -> (s: (Proof, Proof))
        requires
            self.q > 0,
        ensures
            s.0@ == spec_mask(
                old(r).seed(),
                old(r).asked(),
                self.q,
                self@.x.len(),
                self@.w.len(),
                self@.z.len(),
                self@.c.len(),
            ),
            s.1@ == spec_masked(self@, s.0@),
            s.0@.reduced(),
            s.1@.reduced(),
            final(r).seed() == old(r).seed(),
            final(r).asked() == old(r).asked() + repeat(self.q, self@.len()),
    {
        proof {
            lemma_mask_pieces(
                r.seed(),
                r.asked(),
                self.q,
                self@.x.len(),
                self@.w.len(),
                self@.z.len(),
                self@.c.len(),
            );
        }
        let (x0, x1) = gen_vec_shares(&self.x, self.q, r);
        let (w0, w1) = gen_vec_shares(&self.w, self.q, r);
        let (z0, z1) = gen_vec_shares(&self.z, self.q, r);
        let (c0, c1) = gen_vec_shares(&self.c, self.q, r);
        let pi0 = Proof { x: x0, w: w0, z: z0, c: c0, q: self.q };
        let pi1 = Proof { x: x1, w: w1, z: z1, c: c1, q: self.q };
        (pi0, pi1)
    }

    /// The proof that this share and `other` stand for, over the modulus of
    /// this share.
    pub fn reconstruct(&self, other: &Proof) -> (pi: Proof)
        requires
            self.q > 0,
        ensures
            pi@ == spec_rejoined(self@, other@),
    {
        let x = reconstruct_vec_shares(&self.x, &other.x, self.q);
        let w = reconstruct_vec_shares(&self.w, &other.w, self.q);
        let z = reconstruct_vec_shares(&self.z, &other.z, self.q);
        let c = reconstruct_vec_shares(&self.c, &other.c, self.q);
        Proof { x, w, z, c, q: self.q }
    }

    /// Splits the proof into a share that the seed `seed` stands for and the
    /// share that completes it.
    pub fn share_with_seed(&self, seed: u64) -> (res: (ProofSeed, Proofu64))
        requires
            self.q > 0,
            self@.x.len() <= u16::MAX,
            self@.w.len() <= u16::MAX,
            self@.z.len() <= u16::MAX,
            self@.c.len() <= u16::MAX,
        ensures
            res.0 == spec_seed_of(self@, seed),
            res.1@ == spec_masked(self@, res.0.spec_share()),
    {
        let mut rand = SeededRng::seeded(seed);
        let (_, x) = gen_vec_shares(&self.x, self.q, &mut rand);
        let (_, w) = gen_vec_shares(&self.w, self.q, &mut rand);
        let (_, z) = gen_vec_shares(&self.z, self.q, &mut rand);
        let (_, c) = gen_vec_shares(&self.c, self.q, &mut rand);
        let ps = ProofSeed {
            seed,
            x_len: x.len() as u16,
            w_len: w.len() as u16,
            z_len: z.len() as u16,
            c_len: c.len() as u16,
            q: self.q,
        };
        proof {
            lemma_mask_pieces(
                seed,
                Seq::<u64>::empty(),
                self.q,
                self@.x.len(),
                self@.w.len(),
                self@.z.len(),
                self@.c.len(),
            );
        }
        let pi = Proof { x, w, z, c, q: self.q };
        (ps, pi.to_u64())
    }

    /// Splits the proof into a share that a fresh seed stands for and the
    /// share that completes it. The seed comes from the operating system;
    /// whatever it is, the two shares are those of `share_with_seed` for it.
    pub fn share_seed(&self) -> (res: (ProofSeed, Proofu64))
        requires
            self.q > 0,
            self@.x.len() <= u16::MAX,
            self@.w.len() <= u16::MAX,
            self@.z.len() <= u16::MAX,
            self@.c.len() <= u16::MAX,
        ensures
            res.0 == spec_seed_of(self@, res.0.seed),
            res.1@ == spec_masked(self@, res.0.spec_share()),
    {
        let seed: u64 = fresh_seed();
        self.share_with_seed(seed)
    }

    /// The answer of the proof to `query`, modulo `q`: the inner product of
    /// the entries with the vector of the query, plus its scalar.
    ///
    /// Fails with `DimensionMismatch` where the proof and the vector of the
    /// query differ in length.
    pub fn query(&self, query: &Query, q: u64) -> (res: Result<u64, Error>)
        requires
            q > 0,
        ensures
            match res {
                Ok(v) => self@.len() == query.vec@.len() && v == spec_query(
                    self@.collect(),
                    query.vec@,
                    query.scalar,
                    q,
                ) && v < q,
                Err(e) => self@.len() != query.vec@.len() && e == Error::DimensionMismatch,
            },
    {
        let pi: Vec<u64> = self.collect();
        if pi.len() != query.vec.len() {
            return Err(Error::DimensionMismatch);
        }
        let n: usize = pi.len();
        let mut acc: u64 = 0;
        let mut i: usize = 0;
        proof {
            vstd::arithmetic::div_mod::lemma_small_mod(0, q as nat);
        }
        while i < n
            invariant
                q > 0,
                n == pi@.len(),
                n == query.vec@.len(),
                i <= n,
                acc == dot(pi@.take(i as int), query.vec@.take(i as int)) % (q as int),
                acc < q,
            decreases n - i,
        {
            let t: u64 = mul_mod(pi[i], query.vec[i], q);
            let next: u64 = add_mod(acc, t, q);
            proof {
                let a = pi@.take(i + 1);
                let b = query.vec@.take(i + 1);
                assert(a.drop_last() =~= pi@.take(i as int));
                assert(b.drop_last() =~= query.vec@.take(i as int));
                let before = dot(pi@.take(i as int), query.vec@.take(i as int));
                vstd::arithmetic::div_mod::lemma_add_mod_noop(before, pi@[i as int] * query.vec@[i as int], q as int);
            }
            acc = next;
            i += 1;
        }
        proof {
            assert(pi@.take(n as int) =~= pi@);
            assert(query.vec@.take(n as int) =~= query.vec@);
            let d = dot(pi@, query.vec@);
            vstd::arithmetic::div_mod::lemma_add_mod_noop(d, query.scalar as int, q as int);
            vstd::arithmetic::div_mod::lemma_add_mod_noop_right(
                d % (q as int),
                query.scalar as int,
                q as int,
            );
        }
        Ok(add_mod(acc, query.scalar, q))
    }

    /// The proof in the form in which it travels.
    pub fn to_u64(&self) -> (pi: Proofu64)
        ensures
            pi@ == self@,
    {
        Proofu64 {
            x: copy_vec(&self.x),
            w: copy_vec(&self.w),
            z: copy_vec(&self.z),
            c: copy_vec(&self.c),
            q: self.q,
        }
    }
}

impl Proofu64 {
    /// The proof as field values.
    pub fn to_integer(&self) -> (pi: Proof)
        ensures
            pi@ == self@,
    {
        Proof {
            x: copy_vec(&self.x),
            w: copy_vec(&self.w),
            z: copy_vec(&self.z),
            c: copy_vec(&self.c),
            q: self.q,
        }
    }
}

/// A linear query to a proof: a vector as long as the proof, and an offset.
#[derive(Debug, Clone, PartialEq)]
pub struct Query {
    pub vec: Vec<u64>,
    pub scalar: u64,
}

/// A share rejoined with the share that completes it gives the proof back,
/// each entry reduced modulo the modulus of the proof.
pub proof fn lemma_rejoin_masked(pi: ProofView, mask: ProofView)
    requires
        pi.q > 0,
        mask.q == pi.q,
        mask.x.len() == pi.x.len(),
        mask.w.len() == pi.w.len(),
        mask.z.len() == pi.z.len(),
        mask.c.len() == pi.c.len(),
    ensures
        spec_rejoined(mask, spec_masked(pi, mask)) == (ProofView {
            x: crate::utils::spec_reduced(pi.x, pi.q),
            w: crate::utils::spec_reduced(pi.w, pi.q),
            z: crate::utils::spec_reduced(pi.z, pi.q),
            c: crate::utils::spec_reduced(pi.c, pi.q),
            q: pi.q,
        }),
{
    let q = pi.q;
    let other = spec_masked(pi, mask);
    let back = spec_rejoined(mask, other);
    lemma_shares_round_trip(pi.x, mask.x, q);
    lemma_shares_round_trip(pi.w, mask.w, q);
    lemma_shares_round_trip(pi.z, mask.z, q);
    lemma_shares_round_trip(pi.c, mask.c, q);
    assert(mask.x.take(mask.x.len() as int) =~= mask.x);
    assert(mask.w.take(mask.w.len() as int) =~= mask.w);
    assert(mask.z.take(mask.z.len() as int) =~= mask.z);
    assert(mask.c.take(mask.c.len() as int) =~= mask.c);
    assert(back.x =~= crate::utils::spec_reduced(pi.x, q));
    assert(back.w =~= crate::utils::spec_reduced(pi.w, q));
    assert(back.z =~= crate::utils::spec_reduced(pi.z, q));
    assert(back.c =~= crate::utils::spec_reduced(pi.c, q));
}

/// Seed round trip: the share that a seed stands for, rejoined with the
/// share that `share_with_seed` sends beside the seed, is the proof itself.
/// This holds of every proof whose entries lie below its modulus and whose
/// vectors are short enough for the lengths in the seed form.
pub proof fn lemma_seed_round_trip(pi: ProofView, seed: u64)
    requires
        pi.reduced(),
        pi.x.len() <= u16::MAX,
        pi.w.len() <= u16::MAX,
        pi.z.len() <= u16::MAX,
        pi.c.len() <= u16::MAX,
    ensures
        spec_rejoined(
            spec_seed_of(pi, seed).spec_share(),
            spec_masked(pi, spec_seed_of(pi, seed).spec_share()),
        ) == pi,
{
    let mask = spec_seed_of(pi, seed).spec_share();
    lemma_rejoin_masked(pi, mask);
    crate::utils::lemma_reduced_fixed(pi.x, pi.q);
    crate::utils::lemma_reduced_fixed(pi.w, pi.q);
    crate::utils::lemma_reduced_fixed(pi.z, pi.q);
    crate::utils::lemma_reduced_fixed(pi.c, pi.q);
}

/// What prover and verifier agree on: the generator of the subgroup that
/// polynomials are interpolated on, and the circuit.
#[derive(Debug, Clone)]
pub struct Context {
    pub generator: u64,
    pub circuit: Circuit,
}

impl Context {
    /// The modulus is positive, and the circuit is small enough for the
    /// number of interpolation points, doubled, to fit the machine word.
    pub open spec fn wf(&self) -> bool {
        &&& self.circuit.modulus > 0
        &&& 4 * (self.circuit.spec_count_muls() + 1) <= usize::MAX
    }

    /// The number of interpolation points: the least power of two above the
    /// number of multiplication gates.
    pub open spec fn spec_points(&self) -> nat {
        spec_next_pow2(self.circuit.spec_count_muls() + 1)
    }
}

/// The values that a polynomial of the prover takes on the subgroup: the
/// blinding value, the operands of the multiplication gates, then zeros up
/// to `n` values.
pub open spec fn spec_wire_values(blind: u64, wires: Seq<u64>, n: nat) -> Seq<u64> {
    seq![blind] + wires + spec_zeros((n - wires.len() - 1) as nat)
}

/// A prover: the context, the inputs to prove valid, and the seed of its
/// randomness.
#[derive(Debug, Clone)]
pub struct Prover {
    pub ctxt: Context,
    pub inputs: Vec<u64>,
    pub seed: u64,
}

impl Prover {
    /// Whether a proof exists: the circuit reads only inputs that are there,
    /// and the generator and the number of points have inverses.
    pub open spec fn provable(&self) -> bool {
        &&& self.ctxt.circuit.in_bounds(self.inputs@.len())
        &&& can_interpolate(self.ctxt.spec_points(), self.ctxt.circuit.modulus, self.ctxt.generator)
    }

    /// The blinding pair: the first two draws of the seeded generator.
    pub open spec fn spec_blinding(&self) -> Seq<u64> {
        draws(self.seed, Seq::empty(), self.ctxt.circuit.modulus, 2)
    }

    /// The proof of the inputs: the inputs, no reserved values, the blinding
    /// pair, and the coefficients of the product of the two polynomials that
    /// interpolate the left and the right operands of the multiplication
    /// gates.
    pub open spec fn spec_proof(&self) -> ProofView {
        let q = self.ctxt.circuit.modulus;
        let w = self.ctxt.generator;
        let n = self.ctxt.spec_points();
        let z = self.spec_blinding();
        let us = spec_wire_values(z[0], self.ctxt.circuit.spec_left_wires(self.inputs@), n);
        let vs = spec_wire_values(z[1], self.ctxt.circuit.spec_right_wires(self.inputs@), n);
        ProofView {
            x: self.inputs@,
            w: Seq::empty(),
            z,
            c: spec_product(spec_interpolate(us, q, w), spec_interpolate(vs, q, w), q),
            q,
        }
    }

    /// The proof, and the generator after the draws of the blinding pair.
    fn prove(&self) -> (res: Result<(Proof, SeededRng), Error>)
        requires
            self.ctxt.wf(),
        ensures
            match res {
                Ok((pi, rand)) => self.provable() && pi@ == self.spec_proof() && pi@.c.len() + 1
                    == 2 * self.ctxt.spec_points() && pi@.made_reduced() && rand.seed()
                    == self.seed && rand.asked() == repeat(self.ctxt.circuit.modulus, 2),
                Err(e) => !self.provable() && e == (if !self.ctxt.circuit.in_bounds(
                    self.inputs@.len(),
                ) {
                    Error::DimensionMismatch
                } else {
                    Error::NonInvertible
                }),
            },
    {
        let c = &self.ctxt.circuit;
        let w: u64 = self.ctxt.generator;
        let q: u64 = c.modulus;
        if !c.fits(self.inputs.len()) {
            return Err(Error::DimensionMismatch);
        }
        let mut rand = SeededRng::seeded(self.seed);
        let (_, (mut us, mut vs)) = c.get_wire_vals(&self.inputs);
        let ghost left = c.spec_left_wires(self.inputs@);
        let ghost right = c.spec_right_wires(self.inputs@);
        proof {
            crate::circuit::lemma_wire_counts_of(c.out_gates@, q, self.inputs@);
            lemma_next_pow2_bounds(c.spec_count_muls() + 1);
        }
        let z0: u64 = rand.below(q);
        let z1: u64 = rand.below(q);
        let ghost none = Seq::<u64>::empty();
        proof {
            assert(none.push(q) =~= none + repeat(q, 1));
            assert(none.push(q).push(q) =~= none + repeat(q, 2));
            assert(none.push(q).push(q) =~= repeat(q, 2));
            assert(self.spec_blinding() =~= seq![z0, z1]);
        }
        us.insert(0, z0);
        vs.insert(0, z1);
        let n: usize = next_pow2(us.len());
        let extension: usize = n - us.len();
        let pad: Vec<u64> = zeros(extension);
        extend_vec(&mut us, &pad);
        extend_vec(&mut vs, &pad);
        proof {
            assert(us@ =~= spec_wire_values(z0, left, n as nat));
            assert(vs@ =~= spec_wire_values(z1, right, n as nat));
        }
        let f0 = match ModPoly::interpolate_from_mul_subgroup(us, q, w) {
            Ok(f) => f,
            Err(_) => {
                return Err(Error::NonInvertible);
            },
        };
        let f1 = match ModPoly::interpolate_from_mul_subgroup(vs, q, w) {
            Ok(f) => f,
            Err(_) => {
                return Err(Error::NonInvertible);
            },
        };
        let p = f0.times(&f1);
        let mut z: Vec<u64> = Vec::new();
        z.push(z0);
        z.push(z1);
        proof {
            assert(z@ =~= self.spec_blinding());
        }
        let pi = Proof { x: copy_vec(&self.inputs), w: Vec::new(), z, c: p.coeffs, q };
        Ok((pi, rand))
    }

    /// The proof that the inputs satisfy the circuit. Its blinding values
    /// and its coefficients lie below the modulus; the inputs are kept as
    /// they are.
    ///
    /// Fails with `DimensionMismatch` where the circuit reads an input that
    /// is not there, and else with `NonInvertible` where the generator or
    /// the number of interpolation points has no inverse.
    pub fn gen_proof(&self) -> (res: Result<Proof, Error>)
        requires
            self.ctxt.wf(),
        ensures
            match res {
                Ok(pi) => self.provable() && pi@ == self.spec_proof() && pi@.c.len() + 1 == 2
                    * self.ctxt.spec_points() && pi@.made_reduced(),
                Err(e) => !self.provable() && e == (if !self.ctxt.circuit.in_bounds(
                    self.inputs@.len(),
                ) {
                    Error::DimensionMismatch
                } else {
                    Error::NonInvertible
                }),
            },
    {
        match self.prove() {
            Ok((pi, _)) => Ok(pi),
            Err(e) => Err(e),
        }
    }

    /// The proof that the inputs satisfy the circuit, as two additive
    /// shares. The first share is drawn from the seeded generator after the
    /// blinding pair; the second completes it to the proof. Every entry of
    /// the two shares lies below the modulus.
    ///
    /// Fails as `gen_proof` does.
    pub fn gen_proofs(&self) -> (res: Result<(Proof, Proof), Error>)
        requires
            self.ctxt.wf(),
        ensures
            match res {
                Ok((pi0, pi1)) => {
                    let pi = self.spec_proof();
                    &&& self.provable()
                    &&& pi0@ == spec_mask(
                        self.seed,
                        repeat(pi.q, 2),
                        pi.q,
                        pi.x.len(),
                        pi.w.len(),
                        pi.z.len(),
                        pi.c.len(),
                    )
                    &&& pi1@ == spec_masked(pi, pi0@)
                    &&& pi.made_reduced()
                    &&& pi0@.reduced()
                    &&& pi1@.reduced()
                },
                Err(e) => !self.provable() && e == (if !self.ctxt.circuit.in_bounds(
                    self.inputs@.len(),
                ) {
                    Error::DimensionMismatch
                } else {
                    Error::NonInvertible
                }),
            },
    {
        match self.prove() {
            Ok((pi, rand)) => {
                let mut rand = rand;
                Ok(pi.share(&mut rand))
            },
            Err(e) => Err(e),
        }
    }
}

/// What a query holds.
pub struct QueryView {
    pub vec: Seq<u64>,
    pub scalar: u64,
}

impl View for Query {
    type V = QueryView;

    open spec fn view(&self) -> QueryView {
        QueryView { vec: self.vec@, scalar: self.scalar }
    }
}

/// What one aggregator learns from its share: the value `a` of the product
/// polynomial at the challenge, the answers `a1`, `a2` and `b` to the three
/// queries, the offsets `d1` and `d2` of the first two, and the modulus.
#[derive(Debug, Clone, Copy, PartialEq)]
pub struct QueryRes {
    pub a: u64,
    pub a1: u64,
    pub d1: u64,
    pub a2: u64,
    pub d2: u64,
    pub b: u64,
    pub q: u64,
}

/// The queries that both aggregators derive from the seed they share: the
/// challenge `r`, the interpolation points `xs`, and the queries `q0`, `q1`
/// and `q2`.
#[derive(Debug, Clone, PartialEq)]
pub struct QueryState {
    pub r: u64,
    pub xs: Vec<u64>,
    pub q0: Query,
    pub q1: Query,
    pub q2: Query,
}

/// What a query state holds.
pub struct QueryStateView {
    pub r: u64,
    pub xs: Seq<u64>,
    pub q0: QueryView,
    pub q1: QueryView,
    pub q2: QueryView,
}

impl View for QueryState {
    type V = QueryStateView;

    open spec fn view(&self) -> QueryStateView {
        QueryStateView { r: self.r, xs: self.xs@, q0: self.q0@, q1: self.q1@, q2: self.q2@ }
    }
}

/// The first `n` powers of `w` modulo `q`, from `w^0` on.
pub open spec fn spec_subgroup(w: u64, q: u64, n: nat) -> Seq<u64> {
    Seq::new(n, |i: int| spec_pow_mod(w, i as u64, q) as u64)
}

/// The values at `r` of the first `n` basis polynomials of the points `xs`.
pub open spec fn spec_basis_values(xs: Seq<u64>, q: u64, r: u64, n: nat) -> Seq<u64> {
    Seq::new(n, |i: int| spec_lagrange_basis(xs, q, r, i) as u64)
}

/// Whether the first `n` basis polynomials of the points `xs` exist.
pub open spec fn basis_defined(xs: Seq<u64>, q: u64, n: nat) -> bool {
    forall|i: int| 0 <= i < n ==> #[trigger] lagrange_defined(xs, q, i)
}

/// The vector of the query that reads the left polynomial at the challenge
/// off a proof with `nc` coefficients: the basis values 1, 2, ... for the
/// inputs, basis value 0 for the first blinding value, then zeros.
pub open spec fn spec_first_query(lag: Seq<u64>, nc: nat) -> Seq<u64> {
    Seq::new(
        lag.len() + nc + 1,
        |i: int|
            if i < lag.len() - 1 {
                lag[i + 1]
            } else if i == lag.len() - 1 {
                lag[0]
            } else {
                0
            },
    )
}

/// The vector of the query that reads the right polynomial at the challenge:
/// as the first, with basis value 0 for the second blinding value.
pub open spec fn spec_second_query(lag: Seq<u64>, nc: nat) -> Seq<u64> {
    Seq::new(
        lag.len() + nc + 1,
        |i: int|
            if i < lag.len() - 1 {
                lag[i + 1]
            } else if i == lag.len() {
                lag[0]
            } else {
                0
            },
    )
}

/// The sum of the entries of `s`.
pub open spec fn seq_sum(s: Seq<u64>) -> int
    decreases s.len(),
{
    if s.len() == 0 {
        0
    } else {
        seq_sum(s.drop_last()) + s.last()
    }
}

/// The offset of the second query: minus the sum of the basis values for
/// the inputs, modulo `q`.
pub open spec fn spec_second_offset(lag: Seq<u64>, q: u64) -> int {
    (-seq_sum(lag.skip(1))) % (q as int)
}

/// The sum, over the first `n` masks, of `w^(i * (j + 1)) * rs[j]`.
pub open spec fn mask_sum(w: u64, rs: Seq<u64>, i: nat, n: nat) -> int
    decreases n,
{
    if n == 0 {
        0
    } else {
        mask_sum(w, rs, i, (n - 1) as nat) + pow(w as int, i * n) * rs[n - 1]
    }
}

/// The vector of the query that tests the outputs of the circuit: zeros for
/// the inputs and the blinding pair, then for coefficient `i` the masks `rs`
/// weighted by powers of `w`.
pub open spec fn spec_mask_query(w: u64, q: u64, rs: Seq<u64>, nc: nat) -> Seq<u64> {
    Seq::new(
        rs.len() + 2 + nc,
        |i: int|
            if i < rs.len() + 2 {
                0
            } else {
                (mask_sum(w, rs, (i - rs.len() - 2) as nat, rs.len()) % (q as int)) as u64
            },
    )
}

/// The first `n` powers of `w` modulo `q`.
fn subgroup(w: u64, q: u64, n: usize) -> (xs: Vec<u64>)
    requires
        q > 0,
    ensures
        xs@ == spec_subgroup(w, q, n as nat),
{
    let mut xs: Vec<u64> = Vec::new();
    let mut i: usize = 0;
    while i < n
        invariant
            q > 0,
            i <= n,
            xs@ == spec_subgroup(w, q, i as nat),
        decreases n - i,
    {
        xs.push(pow_mod(w, i as u64, q));
        proof {
            assert(xs@ =~= spec_subgroup(w, q, (i + 1) as nat));
        }
        i += 1;
    }
    xs
}

/// The values at `r` of the first `n` basis polynomials of the points `xs`.
fn basis_values(xs: &Vec<u64>, q: u64, r: u64, n: usize) -> (res: Result<Vec<u64>, Error>)
    requires
        q > 0,
        n <= xs@.len(),
    ensures
        match res {
            Ok(lag) => basis_defined(xs@, q, n as nat) && lag@ == spec_basis_values(
                xs@,
                q,
                r,
                n as nat,
            ),
            Err(e) => !basis_defined(xs@, q, n as nat) && e == Error::NonInvertible,
        },
{
    let mut lag: Vec<u64> = Vec::new();
    let mut i: usize = 0;
    while i < n
        invariant
            q > 0,
            n <= xs@.len(),
            i <= n,
            basis_defined(xs@, q, i as nat),
            lag@ == spec_basis_values(xs@, q, r, i as nat),
        decreases n - i,
    {
        match eval_lagrange_basis(xs, q, r, i) {
            Ok(v) => {
                lag.push(v);
            },
            Err(_) => {
                assert(!lagrange_defined(xs@, q, i as int));
                return Err(Error::NonInvertible);
            },
        }
        proof {
            assert(lag@ =~= spec_basis_values(xs@, q, r, (i + 1) as nat));
        }
        i += 1;
    }
    Ok(lag)
}

/// The query that reads the left polynomial at the challenge.
fn first_query(lag: &Vec<u64>, nc: usize) -> (query: Query)
    requires
        lag@.len() > 0,
    ensures
        query.vec@ == spec_first_query(lag@, nc as nat),
        query.scalar == 0,
{
    let mut query: Vec<u64> = Vec::new();
    let mut i: usize = 1;
    while i < lag.len()
        invariant
            1 <= i <= lag@.len(),
            query@ == lag@.subrange(1, i as int),
        decreases lag@.len() - i,
    {
        query.push(lag[i]);
        proof {
            assert(query@ =~= lag@.subrange(1, i + 1));
        }
        i += 1;
    }
    query.push(lag[0]);
    let pad: Vec<u64> = zeros(nc);
    extend_vec(&mut query, &pad);
    query.push(0);
    proof {
        assert(query@ =~= spec_first_query(lag@, nc as nat));
    }
    Query { vec: query, scalar: 0 }
}

/// The query that reads the right polynomial at the challenge.
fn second_query(lag: &Vec<u64>, nc: usize, q: u64) -> (query: Query)
    requires
        q > 0,
        lag@.len() > 0,
    ensures
        query.vec@ == spec_second_query(lag@, nc as nat),
        query.scalar == spec_second_offset(lag@, q),
{
    let mut query: Vec<u64> = Vec::new();
    let mut sum: u64 = 0;
    let mut i: usize = 1;
    proof {
        vstd::arithmetic::div_mod::lemma_small_mod(0, q as nat);
        assert(lag@.skip(1).take(0) =~= Seq::<u64>::empty());
    }
    while i < lag.len()
        invariant
            q > 0,
            1 <= i <= lag@.len(),
            query@ == lag@.subrange(1, i as int),
            sum == seq_sum(lag@.skip(1).take(i - 1)) % (q as int),
            sum < q,
        decreases lag@.len() - i,
    {
        query.push(lag[i]);
        let next: u64 = add_mod(sum, lag[i], q);
        proof {
            assert(query@ =~= lag@.subrange(1, i + 1));
            let longer = lag@.skip(1).take(i as int);
            assert(longer.drop_last() =~= lag@.skip(1).take(i - 1));
            assert(longer.last() == lag@[i as int]);
            let before = seq_sum(lag@.skip(1).take(i - 1));
            vstd::arithmetic::div_mod::lemma_add_mod_noop(before, lag@[i as int] as int, q as int);
            vstd::arithmetic::div_mod::lemma_add_mod_noop_right(
                before % (q as int),
                lag@[i as int] as int,
                q as int,
            );
        }
        sum = next;
        i += 1;
    }
    query.push(0);
    query.push(lag[0]);
    let pad: Vec<u64> = zeros(nc);
    extend_vec(&mut query, &pad);
    let d2: u64 = sub_mod(0, sum, q);
    proof {
        assert(query@ =~= spec_second_query(lag@, nc as nat));
        let rest = lag@.skip(1);
        assert(rest.take(lag@.len() - 1) =~= rest);
        let total = seq_sum(rest);
        vstd::arithmetic::div_mod::lemma_sub_mod_noop_right(0, total, q as int);
    }
    Query { vec: query, scalar: d2 }
}

/// The query that tests the outputs of the circuit with the masks `rs`.
fn mask_query(w: u64, q: u64, rs: &Vec<u64>, nc: usize) -> (query: Query)
    requires
        q > 0,
    ensures
        query.vec@ == spec_mask_query(w, q, rs@, nc as nat),
        query.scalar == 0,
{
    let mut query: Vec<u64> = zeros(rs.len());
    query.push(0);
    query.push(0);
    let mut i: usize = 0;
    while i < nc
        invariant
            q > 0,
            i <= nc,
            query@.len() == rs@.len() + 2 + i,
            forall|k: int|
                0 <= k < query@.len() ==> #[trigger] query@[k] == (if k < rs@.len() + 2 {
                    0
                } else {
                    (mask_sum(w, rs@, (k - rs@.len() - 2) as nat, rs@.len()) % (q as int)) as u64
                }),
        decreases nc - i,
    {
        let wi: u64 = pow_mod(w, i as u64, q);
        let mut cur: u64 = wi;
        let mut sum: u64 = 0;
        let mut j: usize = 0;
        proof {
            vstd::arithmetic::div_mod::lemma_small_mod(0, q as nat);
            assert(i * 1 == i) by (nonlinear_arith);
        }
        while j < rs.len()
            invariant
                q > 0,
                j <= rs@.len(),
                wi == pow(w as int, i as nat) % (q as int),
                cur == pow(w as int, (i * (j + 1)) as nat) % (q as int),
                sum == mask_sum(w, rs@, i as nat, j as nat) % (q as int),
                sum < q,
            decreases rs@.len() - j,
        {
            let t: u64 = mul_mod(cur, rs[j], q);
            let next: u64 = add_mod(sum, t, q);
            let moved: u64 = mul_mod(cur, wi, q);
            proof {
                let m = q as int;
                let e = (i * (j + 1)) as nat;
                let pw = pow(w as int, e);
                let before = mask_sum(w, rs@, i as nat, j as nat);
                vstd::arithmetic::div_mod::lemma_mul_mod_noop_left(pw, rs@[j as int] as int, m);
                vstd::arithmetic::div_mod::lemma_add_mod_noop(before, pw * rs@[j as int], m);
                assert(i * (j + 2) == i * (j + 1) + i) by (nonlinear_arith);
                assert(i * (j + 1) >= 0) by (nonlinear_arith);
                vstd::arithmetic::power::lemma_pow_adds(w as int, e, i as nat);
                vstd::arithmetic::div_mod::lemma_mul_mod_noop_general(pw, pow(w as int, i as nat), m);
            }
            sum = next;
            cur = moved;
            j += 1;
        }
        query.push(sum);
        i += 1;
    }
    proof {
        assert(query@ =~= spec_mask_query(w, q, rs@, nc as nat));
    }
    Query { vec: query, scalar: 0 }
}

/// What the share `pi` answers to the queries `qs`.
pub open spec fn spec_queries(pi: ProofView, qs: QueryStateView) -> QueryRes {
    QueryRes {
        a: spec_evaluate(pi.c, qs.r, pi.q) as u64,
        a1: spec_query(pi.collect(), qs.q1.vec, qs.q1.scalar, pi.q) as u64,
        d1: qs.q1.scalar,
        a2: spec_query(pi.collect(), qs.q2.vec, qs.q2.scalar, pi.q) as u64,
        d2: qs.q2.scalar,
        b: spec_query(pi.collect(), qs.q0.vec, qs.q0.scalar, pi.q) as u64,
        q: pi.q,
    }
}

/// Whether each of the three queries is as long as the proof.
pub open spec fn queries_fit(pi: ProofView, qs: QueryStateView) -> bool {
    &&& pi.len() == qs.q0.vec.len()
    &&& pi.len() == qs.q1.vec.len()
    &&& pi.len() == qs.q2.vec.len()
}

/// Whether the answers of the two shares, taken together, pass: the offsets
/// that the first share counted are taken off, the two polynomial values
/// multiply to the value of the product polynomial, and the test of the
/// outputs gives zero.
pub open spec fn spec_decision(res0: QueryRes, res1: QueryRes) -> bool {
    let q = res0.q as int;
    let a = (res0.a + res1.a) % q;
    let a1 = (res0.a1 - res0.d1 + res1.a1) % q;
    let a2 = (res0.a2 - res0.d2 + res1.a2) % q;
    let b = (res0.b + res1.b) % q;
    (a1 * a2) % q == a && b == 0
}

/// A verifier of the proof system. An implementation chooses the queries;
/// how a share answers them and how two answers are judged is the same for
/// all.
pub trait Verifier {
    /// Whether the verifier can derive queries for the share `pi`.
    spec fn admits(&self, pi: &Proof) -> bool;

    /// The queries for a proof of the shape of `pi`.
    fn gen_queries(&self, pi: &Proof) -> (res: Result<QueryState, Error>)
        requires
            self.admits(pi),
    ;

    /// The answers of the share `pi` to the queries `qs`.
    ///
    /// Fails with `DimensionMismatch` where a query and the share differ in
    /// length.
    fn queries(&self, pi: &Proof, qs: &QueryState) -> (res: Result<QueryRes, Error>)
        requires
            pi.q > 0,
        ensures
            match res {
                Ok(r) => queries_fit(pi@, qs@) && r == spec_queries(pi@, qs@),
                Err(e) => !queries_fit(pi@, qs@) && e == Error::DimensionMismatch,
            },
    {
        let q: u64 = pi.q;
        let p = coeffs2poly(&pi.c, q);
        let a: u64 = p.evaluate(qs.r);
        proof {
            lemma_reduced_value(pi.c@, qs.r as int, q);
        }
        let a1: u64 = match pi.query(&qs.q1, q) {
            Ok(v) => v,
            Err(e) => {
                return Err(e);
            },
        };
        let d1: u64 = qs.q1.scalar;
        let a2: u64 = match pi.query(&qs.q2, q) {
            Ok(v) => v,
            Err(e) => {
                return Err(e);
            },
        };
        let d2: u64 = qs.q2.scalar;
        let b: u64 = match pi.query(&qs.q0, q) {
            Ok(v) => v,
            Err(e) => {
                return Err(e);
            },
        };
        Ok(QueryRes { a, a1, d1, a2, d2, b, q })
    }

    /// Whether the answers of the two shares, taken together, pass.
    ///
    /// Fails with `FieldMismatch` where the two answers name different
    /// moduli.
    fn decision(&self, res0: &QueryRes, res1: &QueryRes) -> (res: Result<bool, Error>)
        requires
            res0.q > 0,
        ensures
            match res {
                Ok(accept) => res0.q == res1.q && accept == spec_decision(*res0, *res1),
                Err(e) => res0.q != res1.q && e == Error::FieldMismatch,
            },
    {
        if res0.q != res1.q {
            return Err(Error::FieldMismatch);
        }
        let q: u64 = res0.q;
        let a: u64 = add_mod(res0.a, res1.a, q);
        let a1: u64 = add_mod(sub_mod(res0.a1, res0.d1, q), res1.a1, q);
        let a2: u64 = add_mod(sub_mod(res0.a2, res0.d2, q), res1.a2, q);
        let b: u64 = add_mod(res0.b, res1.b, q);
        let a1a2: u64 = mul_mod(a1, a2, q);
        proof {
            let m = q as int;
            vstd::arithmetic::div_mod::lemma_add_mod_noop(res0.a1 - res0.d1, res1.a1 as int, m);
            vstd::arithmetic::div_mod::lemma_add_mod_noop_right(
                (res0.a1 - res0.d1) % m,
                res1.a1 as int,
                m,
            );
            vstd::arithmetic::div_mod::lemma_add_mod_noop(res0.a2 - res0.d2, res1.a2 as int, m);
            vstd::arithmetic::div_mod::lemma_add_mod_noop_right(
                (res0.a2 - res0.d2) % m,
                res1.a2 as int,
                m,
            );
        }
        Ok(a1a2 == a && b == 0)
    }
}

/// The verifier for circuits that test each input for being a bit.
#[derive(Debug, Clone)]
pub struct BitvectorVerifier {
    pub ctxt: Context,
    pub seed: u64,
}

impl BitvectorVerifier {
    /// The interpolation points: the powers of the generator.
    pub open spec fn spec_xs(&self) -> Seq<u64> {
        spec_subgroup(self.ctxt.generator, self.ctxt.circuit.modulus, self.ctxt.spec_points())
    }

    /// The number of the draw that gives the challenge: the first draw of
    /// the seeded generator that is no interpolation point.
    pub open spec fn spec_challenge_at(&self) -> Option<nat> {
        first_good(
            self.seed,
            Seq::empty(),
            self.ctxt.circuit.modulus,
            self.spec_xs(),
            0,
            MAX_REJECTIONS as nat,
        )
    }

    /// The challenge.
    pub open spec fn spec_challenge(&self) -> u64 {
        draw_at(
            self.seed,
            Seq::empty(),
            self.ctxt.circuit.modulus,
            self.spec_challenge_at().unwrap(),
        )
    }

    /// The masks of the outputs for `nx` inputs: the draws that follow the
    /// challenge.
    pub open spec fn spec_masks(&self, nx: nat) -> Seq<u64> {
        draws(
            self.seed,
            repeat(self.ctxt.circuit.modulus, self.spec_challenge_at().unwrap() + 1),
            self.ctxt.circuit.modulus,
            nx,
        )
    }

    /// Whether queries exist for proofs with `nx` inputs: there is an
    /// interpolation point for each input beside the first, a challenge was
    /// found, and the basis polynomials of these points exist.
    pub open spec fn answerable(&self, nx: nat) -> bool {
        &&& nx < self.ctxt.spec_points()
        &&& self.spec_challenge_at() is Some
        &&& basis_defined(self.spec_xs(), self.ctxt.circuit.modulus, nx + 1)
    }

    /// The failure where no queries exist for proofs with `nx` inputs.
    pub open spec fn spec_query_error(&self, nx: nat) -> Error {
        if nx >= self.ctxt.spec_points() {
            Error::DimensionMismatch
        } else if self.spec_challenge_at() is None {
            Error::InvalidChallenge
        } else {
            Error::NonInvertible
        }
    }

    /// The queries for proofs with `nx` inputs and `nc` coefficients.
    pub open spec fn spec_query_state(&self, nx: nat, nc: nat) -> QueryStateView {
        let q = self.ctxt.circuit.modulus;
        let xs = self.spec_xs();
        let r = self.spec_challenge();
        let lag = spec_basis_values(xs, q, r, nx + 1);
        QueryStateView {
            r,
            xs,
            q0: QueryView {
                vec: spec_mask_query(self.ctxt.generator, q, self.spec_masks(nx), nc),
                scalar: 0,
            },
            q1: QueryView { vec: spec_first_query(lag, nc), scalar: 0 },
            q2: QueryView {
                vec: spec_second_query(lag, nc),
                scalar: spec_second_offset(lag, q) as u64,
            },
        }
    }
}

impl Verifier for BitvectorVerifier {
    open spec fn admits(&self, pi: &Proof) -> bool {
        self.ctxt.wf()
    }

    /// The queries for a share of a proof of the bit-vector circuit. They
    /// depend on the share only through the number of its inputs and of its
    /// coefficients.
    ///
    /// Fails with `DimensionMismatch` where the share has more inputs than
    /// the circuit has multiplication gates, else with `InvalidChallenge`
    /// where `MAX_REJECTIONS` draws in a row were interpolation points, which
    /// is more than a run can draw, else with `NonInvertible` where a basis
    /// polynomial does not exist.
    fn gen_queries(&self, pi: &Proof) -> (res: Result<QueryState, Error>)
        ensures
            match res {
                Ok(qs) => self.answerable(pi@.x.len()) && qs@ == self.spec_query_state(
                    pi@.x.len(),
                    pi@.c.len(),
                ) && !qs@.xs.contains(qs@.r) && qs@.r < self.ctxt.circuit.modulus
                    && qs@.xs.len() == self.ctxt.spec_points() && qs@.q0.vec.len() == pi@.x.len()
                    + 2 + pi@.c.len() && qs@.q1.vec.len() == pi@.x.len() + 2 + pi@.c.len()
                    && qs@.q2.vec.len() == pi@.x.len() + 2 + pi@.c.len(),
                Err(e) => !self.answerable(pi@.x.len()) && e == self.spec_query_error(
                    pi@.x.len(),
                ),
            },
    {
        let c = &self.ctxt.circuit;
        let w: u64 = self.ctxt.generator;
        let q: u64 = c.modulus;
        let mut rand = SeededRng::seeded(self.seed);
        let ghost none = Seq::<u64>::empty();

        let mu: usize = c.count_muls();
        let num_pts: usize = next_pow2(mu + 1);
        let nx: usize = pi.x.len();
        if nx >= num_pts {
            return Err(Error::DimensionMismatch);
        }
        let xs: Vec<u64> = subgroup(w, q, num_pts);
        let r: u64 = match rejection_sample(q, &xs, &mut rand) {
            Ok(r) => r,
            Err(e) => {
                return Err(Error::InvalidChallenge);
            },
        };
        let ghost k = self.spec_challenge_at().unwrap();
        proof {
            assert(none + repeat(q, k + 1) =~= repeat(q, k + 1));
        }
        let lag: Vec<u64> = match basis_values(&xs, q, r, nx + 1) {
            Ok(lag) => lag,
            Err(e) => {
                return Err(Error::NonInvertible);
            },
        };
        let q1 = first_query(&lag, pi.c.len());
        let q2 = second_query(&lag, pi.c.len(), q);
        let rs: Vec<u64> = rand.below_vec(q, nx);
        let q0 = mask_query(w, q, &rs, pi.c.len());
        Ok(QueryState { r, xs, q0, q1, q2 })
    }
}

/// Whether the entries of `a0` and `a1` add up, modulo `q`, to the entries
/// of `a`.
pub open spec fn entries_rejoin(a0: Seq<u64>, a1: Seq<u64>, a: Seq<u64>, q: u64) -> bool {
    &&& a0.len() == a.len()
    &&& a1.len() == a.len()
    &&& forall|i: int|
        0 <= i < a.len() ==> (a0[i] + a1[i]) % (q as int) == (#[trigger] a[i] as int) % (q as int)
}

/// Whether `pi0` and `pi1` are additive shares of `pi`.
pub open spec fn shares_rejoin(pi0: ProofView, pi1: ProofView, pi: ProofView) -> bool {
    &&& pi0.q == pi.q
    &&& pi1.q == pi.q
    &&& entries_rejoin(pi0.x, pi1.x, pi.x, pi.q)
    &&& entries_rejoin(pi0.w, pi1.w, pi.w, pi.q)
    &&& entries_rejoin(pi0.z, pi1.z, pi.z, pi.q)
    &&& entries_rejoin(pi0.c, pi1.c, pi.c, pi.q)
}

/// Whether one party that holds the whole proof `pi` accepts it on the
/// queries `qs`: the answers to the first two queries multiply to the value
/// of the product polynomial at the challenge, and the answer to the third
/// is zero. The offset of the third query counts twice, once for each share.
pub open spec fn spec_accepts(pi: ProofView, qs: QueryStateView) -> bool {
    let q = pi.q as int;
    let a = spec_evaluate(pi.c, qs.r, pi.q);
    let a1 = (dot(pi.collect(), qs.q1.vec) + qs.q1.scalar) % q;
    let a2 = (dot(pi.collect(), qs.q2.vec) + qs.q2.scalar) % q;
    let b = (dot(pi.collect(), qs.q0.vec) + 2 * qs.q0.scalar) % q;
    (a1 * a2) % q == a && b == 0
}

/// Entries that add up one by one still do when the sequences are joined.
pub proof fn lemma_entries_rejoin_concat(
    a0: Seq<u64>,
    a1: Seq<u64>,
    a: Seq<u64>,
    b0: Seq<u64>,
    b1: Seq<u64>,
    b: Seq<u64>,
    q: u64,
)
    requires
        entries_rejoin(a0, a1, a, q),
        entries_rejoin(b0, b1, b, q),
    ensures
        entries_rejoin(a0 + b0, a1 + b1, a + b, q),
{
    assert forall|i: int| 0 <= i < (a + b).len() implies ((a0 + b0)[i] + (a1 + b1)[i]) % (q as int)
        == (#[trigger] (a + b)[i] as int) % (q as int) by {
        if i < a.len() {
            assert((a + b)[i] == a[i]);
        } else {
            assert((a + b)[i] == b[i - a.len()]);
        }
    }
}

/// The inner product is linear in the shares: the inner products of two
/// shares with a vector add up, modulo `q`, to that of what they share.
pub proof fn lemma_dot_rejoin(a0: Seq<u64>, a1: Seq<u64>, a: Seq<u64>, v: Seq<u64>, q: u64)
    requires
        q > 0,
        entries_rejoin(a0, a1, a, q),
        v.len() == a.len(),
    ensures
        (dot(a0, v) + dot(a1, v)) % (q as int) == dot(a, v) % (q as int),
    decreases a.len(),
{
    if a.len() > 0 {
        let m = q as int;
        let k = a.len() - 1;
        assert(entries_rejoin(a0.drop_last(), a1.drop_last(), a.drop_last(), q)) by {
            assert forall|i: int| 0 <= i < a.drop_last().len() implies (a0.drop_last()[i]
                + a1.drop_last()[i]) % m == (#[trigger] a.drop_last()[i] as int) % m by {
                assert(a.drop_last()[i] == a[i]);
            }
        }
        lemma_dot_rejoin(a0.drop_last(), a1.drop_last(), a.drop_last(), v.drop_last(), q);
        let d = dot(a0.drop_last(), v.drop_last()) + dot(a1.drop_last(), v.drop_last());
        let e = dot(a.drop_last(), v.drop_last());
        let y = v[k] as int;
        assert((a0[k] + a1[k]) % m == (a[k] as int) % m);
        assert(a0[k] * y + a1[k] * y == (a0[k] + a1[k]) * y) by (nonlinear_arith);
        vstd::arithmetic::div_mod::lemma_mul_mod_noop_left(a0[k] + a1[k], y, m);
        vstd::arithmetic::div_mod::lemma_mul_mod_noop_left(a[k] as int, y, m);
        vstd::arithmetic::div_mod::lemma_add_mod_noop(d, (a0[k] + a1[k]) * y, m);
        vstd::arithmetic::div_mod::lemma_add_mod_noop(e, a[k] * y, m);
    }
}

/// The value of a polynomial is linear in the shares of its coefficients.
pub proof fn lemma_poly_value_rejoin(c0: Seq<u64>, c1: Seq<u64>, c: Seq<u64>, x: int, q: u64)
    requires
        q > 0,
        entries_rejoin(c0, c1, c, q),
    ensures
        (poly_value(c0, x) + poly_value(c1, x)) % (q as int) == poly_value(c, x) % (q as int),
    decreases c.len(),
{
    if c.len() > 0 {
        let m = q as int;
        assert(entries_rejoin(c0.skip(1), c1.skip(1), c.skip(1), q)) by {
            assert forall|i: int| 0 <= i < c.skip(1).len() implies (c0.skip(1)[i] + c1.skip(
                1,
            )[i]) % m == (#[trigger] c.skip(1)[i] as int) % m by {
                assert(c.skip(1)[i] == c[i + 1]);
            }
        }
        lemma_poly_value_rejoin(c0.skip(1), c1.skip(1), c.skip(1), x, q);
        let r0 = poly_value(c0.skip(1), x);
        let r1 = poly_value(c1.skip(1), x);
        let r = poly_value(c.skip(1), x);
        assert((c0[0] + c1[0]) % m == (c[0] as int) % m);
        assert(x * r0 + x * r1 == x * (r0 + r1)) by (nonlinear_arith);
        vstd::arithmetic::div_mod::lemma_mul_mod_noop_right(x, r0 + r1, m);
        vstd::arithmetic::div_mod::lemma_mul_mod_noop_right(x, r, m);
        vstd::arithmetic::div_mod::lemma_add_mod_noop(c0[0] + c1[0], x * (r0 + r1), m);
        vstd::arithmetic::div_mod::lemma_add_mod_noop(c[0] as int, x * r, m);
    }
}

/// `(x mod q) - s + (y mod q)` and `x - s + y` agree modulo `q`.
pub proof fn lemma_offset_cancels(x: int, s: int, y: int, q: int)
    requires
        q > 0,
    ensures
        ((x % q) - s + (y % q)) % q == (x - s + y) % q,
{
    vstd::arithmetic::div_mod::lemma_sub_mod_noop(x, s, q);
    vstd::arithmetic::div_mod::lemma_sub_mod_noop_right(x % q, s, q);
    vstd::arithmetic::div_mod::lemma_mod_twice(y, q);
    vstd::arithmetic::div_mod::lemma_add_mod_noop((x % q) - s, y % q, q);
    vstd::arithmetic::div_mod::lemma_add_mod_noop(x - s, y, q);
}

/// The two-party decision is the one-party decision on the shared proof:
/// where `pi0` and `pi1` are additive shares of `pi`, what the decision
/// makes of their answers to the queries `qs` is whether `pi` itself passes
/// on `qs`.
pub proof fn lemma_two_party_decision(
    pi0: ProofView,
    pi1: ProofView,
    pi: ProofView,
    qs: QueryStateView,
)
    requires
        pi.q > 0,
        shares_rejoin(pi0, pi1, pi),
        queries_fit(pi, qs),
    ensures
        spec_decision(spec_queries(pi0, qs), spec_queries(pi1, qs)) == spec_accepts(pi, qs),
{
    let q = pi.q;
    let m = q as int;
    let res0 = spec_queries(pi0, qs);
    let res1 = spec_queries(pi1, qs);
    lemma_entries_rejoin_concat(pi0.x, pi1.x, pi.x, pi0.w, pi1.w, pi.w, q);
    lemma_entries_rejoin_concat(pi0.x + pi0.w, pi1.x + pi1.w, pi.x + pi.w, pi0.z, pi1.z, pi.z, q);
    lemma_entries_rejoin_concat(
        pi0.x + pi0.w + pi0.z,
        pi1.x + pi1.w + pi1.z,
        pi.x + pi.w + pi.z,
        pi0.c,
        pi1.c,
        pi.c,
        q,
    );
    let e0 = pi0.collect();
    let e1 = pi1.collect();
    let e = pi.collect();
    // the value of the product polynomial
    lemma_poly_value_rejoin(pi0.c, pi1.c, pi.c, qs.r as int, q);
    let v0 = poly_value(pi0.c, qs.r as int);
    let v1 = poly_value(pi1.c, qs.r as int);
    vstd::arithmetic::div_mod::lemma_add_mod_noop(v0, v1, m);
    assert((res0.a + res1.a) % m == spec_evaluate(pi.c, qs.r, q)) by {
        vstd::arithmetic::div_mod::lemma_mod_bound(v0, m);
        vstd::arithmetic::div_mod::lemma_mod_bound(v1, m);
    }
    // the first query
    lemma_dot_rejoin(e0, e1, e, qs.q1.vec, q);
    let s1 = qs.q1.scalar as int;
    let x1 = dot(e0, qs.q1.vec) + s1;
    let y1 = dot(e1, qs.q1.vec) + s1;
    lemma_offset_cancels(x1, s1, y1, m);
    vstd::arithmetic::div_mod::lemma_add_mod_noop(
        dot(e0, qs.q1.vec) + dot(e1, qs.q1.vec),
        s1,
        m,
    );
    vstd::arithmetic::div_mod::lemma_add_mod_noop(dot(e, qs.q1.vec), s1, m);
    assert((res0.a1 - res0.d1 + res1.a1) % m == (dot(e, qs.q1.vec) + s1) % m) by {
        vstd::arithmetic::div_mod::lemma_mod_bound(x1, m);
        vstd::arithmetic::div_mod::lemma_mod_bound(y1, m);
    }
    // the second query
    lemma_dot_rejoin(e0, e1, e, qs.q2.vec, q);
    let s2 = qs.q2.scalar as int;
    let x2 = dot(e0, qs.q2.vec) + s2;
    let y2 = dot(e1, qs.q2.vec) + s2;
    lemma_offset_cancels(x2, s2, y2, m);
    vstd::arithmetic::div_mod::lemma_add_mod_noop(
        dot(e0, qs.q2.vec) + dot(e1, qs.q2.vec),
        s2,
        m,
    );
    vstd::arithmetic::div_mod::lemma_add_mod_noop(dot(e, qs.q2.vec), s2, m);
    assert((res0.a2 - res0.d2 + res1.a2) % m == (dot(e, qs.q2.vec) + s2) % m) by {
        vstd::arithmetic::div_mod::lemma_mod_bound(x2, m);
        vstd::arithmetic::div_mod::lemma_mod_bound(y2, m);
    }
    // the test of the outputs
    lemma_dot_rejoin(e0, e1, e, qs.q0.vec, q);
    let s0 = qs.q0.scalar as int;
    let x0 = dot(e0, qs.q0.vec) + s0;
    let y0 = dot(e1, qs.q0.vec) + s0;
    vstd::arithmetic::div_mod::lemma_add_mod_noop(x0, y0, m);
    vstd::arithmetic::div_mod::lemma_add_mod_noop(
        dot(e0, qs.q0.vec) + dot(e1, qs.q0.vec),
        2 * s0,
        m,
    );
    vstd::arithmetic::div_mod::lemma_add_mod_noop(dot(e, qs.q0.vec), 2 * s0, m);
    assert((res0.b + res1.b) % m == (dot(e, qs.q0.vec) + 2 * s0) % m) by {
        vstd::arithmetic::div_mod::lemma_mod_bound(x0, m);
        vstd::arithmetic::div_mod::lemma_mod_bound(y0, m);
    }
}

} // verus!
