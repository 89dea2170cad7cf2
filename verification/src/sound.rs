//! Soundness, as far as it is a matter of algebra: a proof whose
//! coefficients are not the product of the two polynomials passes few
//! challenges, and a proof that passes more is judged by its inputs alone.

use vstd::prelude::*;
use vstd::arithmetic::power::pow;
use crate::complete::{
    lemma_answers_read_polynomials,
    lemma_output_answer,
    lemma_value_at_congruent,
    spec_first_answer,
    spec_left_poly,
    spec_less_one,
    spec_right_poly,
    spec_second_answer,
    weighted_sum,
};
use crate::dft::lemma_interpolation_values;
use crate::field::{invertible, spec_pow_mod};
use crate::flpcp::{
    dot,
    spec_accepts,
    spec_mask_query,
    spec_subgroup,
    spec_wire_values,
    BitvectorVerifier,
    ProofView,
};
use crate::interpolate::lagrange_denominator;
use crate::lagrange::lemma_int_difference;
use crate::poly::{
    int_poly_value,
    int_product,
    lemma_int_product_value,
    poly_value,
    spec_evaluate,
};
use crate::prime::{has_order, is_prime, lemma_prime_field_subgroup, lemma_prime_invertible};
use crate::sums::{cong, lemma_cong_add, lemma_cong_mul, lemma_cong_residue};
use crate::unique::{lemma_roots_force_zero, lemma_zero_coefficients};

verus! {

/// Whether a whole proof passes the check of the product at the challenge
/// `r`: its answers to the first two queries multiply to the value of its
/// coefficient polynomial.
pub open spec fn passes_challenge(pi: ProofView, w: u64, n: nat, r: u64) -> bool {
    let p = pi.q as int;
    ((spec_first_answer(pi, w, n, r) % p) * (spec_second_answer(pi, w, n, r) % p)) % p
        == spec_evaluate(pi.c, r, pi.q)
}

/// A proof that the verifier accepts passes the check of the product at
/// the challenge of the verifier, and its answer to the test of the outputs
/// is zero.
pub proof fn lemma_accepted_proof_passes(verifier: BitvectorVerifier, pi: ProofView)
    requires
        pi.q > 0,
        pi.q == verifier.ctxt.circuit.modulus,
        spec_accepts(pi, verifier.spec_query_state(pi.x.len(), pi.c.len())),
    ensures
        passes_challenge(
            pi,
            verifier.ctxt.generator,
            verifier.ctxt.spec_points(),
            verifier.spec_challenge(),
        ),
        cong(
            dot(
                pi.collect(),
                spec_mask_query(
                    verifier.ctxt.generator,
                    pi.q,
                    verifier.spec_masks(pi.x.len()),
                    pi.c.len(),
                ),
            ),
            0,
            pi.q as int,
        ),
{
    let m = pi.q as int;
    let lag = crate::complete::spec_basis_at(
        pi,
        verifier.ctxt.generator,
        verifier.ctxt.spec_points(),
        verifier.spec_challenge(),
    );
    vstd::arithmetic::div_mod::lemma_mod_bound(-crate::flpcp::seq_sum(lag.skip(1)), m);
    vstd::arithmetic::div_mod::lemma_small_mod(0, m as nat);
}

/// What keeps each input from being a bit: `x * (x - 1)`, which is zero
/// modulo a prime for bits only.
pub open spec fn spec_bit_defects(x: Seq<u64>) -> Seq<int> {
    Seq::new(x.len(), |j: int| x[j] * (x[j] - 1))
}

/// A proof of any make, over a prime field with a generator of order `n`,
/// and more challenges than a wrong proof can pass: as many as the proof
/// has coefficients, different modulo the prime, each of which it passes.
pub open spec fn passes_many(pi: ProofView, w: u64, n: nat, challenges: Seq<u64>) -> bool {
    &&& is_prime(pi.q)
    &&& has_order(w, n, pi.q)
    &&& n < pi.q
    &&& pi.w.len() == 0
    &&& pi.z.len() == 2
    &&& pi.x.len() < n
    &&& pi.c.len() + 1 == 2 * n
    &&& challenges.len() == pi.c.len()
    &&& forall|k: int, l: int|
        0 <= k < l < challenges.len() ==> #[trigger] challenges[k] % pi.q
            != #[trigger] challenges[l] % pi.q
    &&& forall|k: int|
        0 <= k < challenges.len() ==> passes_challenge(pi, w, n, #[trigger] challenges[k])
}

/// A proof that passes as many different challenges as it has coefficients
/// holds the product: at every point its coefficient polynomial has the
/// product of the values of the two polynomials that interpolate its
/// blinding values and inputs.
pub proof fn lemma_many_challenges_fix_product(
    pi: ProofView,
    w: u64,
    n: nat,
    challenges: Seq<u64>,
    x: int,
)
    requires
        passes_many(pi, w, n, challenges),
    ensures
        cong(
            poly_value(pi.c, x),
            poly_value(spec_left_poly(pi, w, n), x) * poly_value(spec_right_poly(pi, w, n), x),
            pi.q as int,
        ),
{
    let p = pi.q;
    let m = p as int;
    let c = pi.c;
    let f0 = spec_left_poly(pi, w, n);
    let f1 = spec_right_poly(pi, w, n);
    let g = int_product(f0, f1, c.len());
    let d = Seq::new(c.len(), |j: int| c[j] - g[j]);
    lemma_prime_field_subgroup(w, n, p);
    assert forall|k: int| 0 <= k < d.len() implies cong(
        #[trigger] int_poly_value(d, challenges[k] as int),
        0,
        m,
    ) by {
        let r = challenges[k];
        lemma_int_difference(c, g, d, r as int);
        lemma_int_product_value(f0, f1, c.len(), r as int);
        lemma_answers_read_polynomials(pi, w, n, r);
        assert(passes_challenge(pi, w, n, r));
        let a1 = spec_first_answer(pi, w, n, r);
        let a2 = spec_second_answer(pi, w, n, r);
        let v0 = poly_value(f0, r as int);
        let v1 = poly_value(f1, r as int);
        lemma_cong_residue(a1, m);
        lemma_cong_residue(a2, m);
        lemma_cong_mul(a1 % m, v0, a2 % m, v1, m);
        lemma_cong_residue((a1 % m) * (a2 % m), m);
        let vc = poly_value(c, r as int);
        lemma_cong_residue(vc, m);
        assert(cong(vc, v0 * v1, m));
        vstd::arithmetic::div_mod::lemma_sub_mod_noop(vc, v0 * v1, m);
    }
    assert forall|k: int, l: int|
        0 <= k < d.len() && 0 <= l < d.len() && k != l implies invertible(
        #[trigger] lagrange_denominator(challenges, p, k, l),
        p,
    ) by {
        let dk = lagrange_denominator(challenges, p, k, l);
        vstd::arithmetic::div_mod::lemma_mod_bound(challenges[k] - challenges[l], m);
        if dk % p == 0 {
            vstd::arithmetic::div_mod::lemma_mod_twice(challenges[k] - challenges[l], m);
            vstd::arithmetic::div_mod::lemma_small_mod(0, m as nat);
            lemma_cong_add(
                challenges[k] - challenges[l],
                0,
                challenges[l] as int,
                challenges[l] as int,
                m,
            );
            if k < l {
                assert(challenges[k] % p != challenges[l] % p);
            } else {
                assert(challenges[l] % p != challenges[k] % p);
            }
        }
        lemma_prime_invertible(dk, p);
    }
    lemma_roots_force_zero(d, challenges, p);
    lemma_zero_coefficients(d, x, p);
    lemma_int_difference(c, g, d, x);
    lemma_int_product_value(f0, f1, c.len(), x);
    let vc = poly_value(c, x);
    let vg = int_poly_value(g, x);
    lemma_cong_add(vc - vg, 0, vg, vg, m);
}

/// The algebra of soundness: a proof that passes as many different
/// challenges as it has coefficients is judged by its inputs alone. Its
/// answer to the test of the outputs is, whatever its other entries are,
/// the sum of the masks weighed with `x * (x - 1)` for each input `x`,
/// which is zero modulo the prime for bits only.
pub proof fn lemma_soundness_core(
    pi: ProofView,
    w: u64,
    n: nat,
    challenges: Seq<u64>,
    rs: Seq<u64>,
)
    requires
        passes_many(pi, w, n, challenges),
        rs.len() == pi.x.len(),
    ensures
        cong(
            dot(pi.collect(), spec_mask_query(w, pi.q, rs, pi.c.len())),
            weighted_sum(rs, spec_bit_defects(pi.x), rs.len()),
            pi.q as int,
        ),
{
    let p = pi.q;
    let m = p as int;
    let x = pi.x;
    let l = x.len();
    let less = spec_less_one(x, p);
    let us = spec_wire_values(pi.z[0], x, n);
    let vs = spec_wire_values(pi.z[1], less, n);
    let f0 = spec_left_poly(pi, w, n);
    let f1 = spec_right_poly(pi, w, n);
    let xs = spec_subgroup(w, p, n);
    let v = spec_bit_defects(x);
    lemma_prime_field_subgroup(w, n, p);
    assert forall|j: int| 0 <= j < l implies cong(
        #[trigger] poly_value(pi.c, pow(w as int, (j + 1) as nat)),
        v[j],
        m,
    ) by {
        let at = xs[j + 1];
        assert(at == spec_pow_mod(w, (j + 1) as u64, p) as u64);
        vstd::arithmetic::div_mod::lemma_mod_bound(pow(w as int, (j + 1) as nat), m);
        lemma_cong_residue(pow(w as int, (j + 1) as nat), m);
        lemma_value_at_congruent(pi.c, pow(w as int, (j + 1) as nat), at as int, p);
        lemma_many_challenges_fix_product(pi, w, n, challenges, at as int);
        lemma_interpolation_values(us, p, w, (j + 1) as nat);
        lemma_interpolation_values(vs, p, w, (j + 1) as nat);
        assert(us[j + 1] == x[j]);
        assert(vs[j + 1] == less[j]);
        let v0 = poly_value(f0, at as int);
        let v1 = poly_value(f1, at as int);
        lemma_cong_residue(x[j] as int, m);
        lemma_cong_residue(less[j] as int, m);
        // the right operand is the input less one
        vstd::arithmetic::div_mod::lemma_mod_bound(x[j] + (p - 1), m);
        lemma_cong_residue(x[j] + (p - 1), m);
        vstd::arithmetic::div_mod::lemma_mod_add_multiples_vanish(x[j] - 1, m);
        assert(cong(v0, x[j] as int, m));
        assert(cong(v1, x[j] - 1, m));
        lemma_cong_mul(v0, x[j] as int, v1, x[j] - 1, m);
    }
    lemma_output_answer(pi, w, rs, v);
}

} // verus!
