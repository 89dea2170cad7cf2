use pa::circuit::bitvector_test;
use pa::field::{add_mod, mul_mod};
use pa::flpcp::{BitvectorVerifier, Context, Prover, Verifier};
use pa::interpolate::eval_lagrange_basis;
use pa::poly::ModPoly;

const P: u64 = 4293918721;
const W128: u64 = 2960092488;

fn pow_mod(base: u64, exp: u64, q: u64) -> u64 {
    let mut acc: u64 = 1 % q;
    for _ in 0..exp {
        acc = mul_mod(acc, base, q);
    }
    acc
}

fn decide(inputs: Vec<u64>, generator: u64, prover_seed: u64, verifier_seed: u64) -> bool {
    let ctxt = Context { generator, circuit: bitvector_test(P, inputs.len()) };
    let prover = Prover { ctxt: ctxt.clone(), inputs, seed: prover_seed };
    let check = BitvectorVerifier { ctxt, seed: verifier_seed };
    let (pi0, pi1) = prover.gen_proofs().unwrap();
    let qs = check.gen_queries(&pi0).unwrap();
    assert_eq!(check.gen_queries(&pi1), Ok(qs.clone()));
    let res0 = check.queries(&pi0, &qs).unwrap();
    let res1 = check.queries(&pi1, &qs).unwrap();
    let verdict = check.decision(&res0, &res1).unwrap();
    assert_eq!(check.decision(&res1, &res0), Ok(verdict));
    verdict
}

#[test]
fn bits_are_accepted_for_every_seed() {
    let w8 = pow_mod(W128, 16, P);
    for seed in 0..20u64 {
        for pattern in 0..32u64 {
            let inputs: Vec<u64> = (0..5).map(|i| (pattern >> i) & 1).collect();
            assert!(decide(inputs, w8, seed, 1000 + seed));
        }
    }
    assert!(decide(vec![], 1, 3, 4));
    assert!(decide(vec![1], P - 1, 3, 4));
}

#[test]
fn other_values_are_rejected() {
    let w8 = pow_mod(W128, 16, P);
    for seed in 0..20u64 {
        assert!(!decide(vec![1, 0, 2, 1, 0], w8, seed, 77 + seed));
        assert!(!decide(vec![P - 1, 0, 0, 0, 0], w8, seed, 77 + seed));
        assert!(!decide(vec![0, 0, 0, 0, 3], w8, seed, 77 + seed));
    }
    // values that are bits modulo the prime count as bits
    assert!(decide(vec![P, P + 1, 0, 1, 0], w8, 5, 6));
}

#[test]
fn evaluation_is_repeatable() {
    let c = bitvector_test(P, 4);
    let inputs = vec![0, 1, 2, P - 1];
    let first = c.eval(&inputs);
    assert_eq!(first, vec![0, 0, 2, 2]);
    for _ in 0..3 {
        assert_eq!(c.eval(&inputs), first);
        assert_eq!(c.clone().eval(&inputs), first);
        assert_eq!(c.get_wire_vals(&inputs).0, first);
    }
}

#[test]
fn lagrange_formula_gives_the_value() {
    let q = 37u64;
    let xs = vec![1u64, 31, 36, 6];
    let f = ModPoly { coeffs: vec![5, 0, 7, 30], modulus: q };
    for r in 0..q {
        let mut sum = 0;
        for i in 0..4 {
            let basis = eval_lagrange_basis(&xs, q, r, i).unwrap();
            sum = add_mod(sum, mul_mod(f.evaluate(xs[i]), basis, q), q);
        }
        assert_eq!(sum, f.evaluate(r));
    }
}

#[test]
fn interpolation_then_product_takes_the_products() {
    let q = 37u64;
    let w = 31u64;
    let us = vec![3u64, 1, 0, 1];
    let vs = vec![9u64, 0, 36, 0];
    let f0 = ModPoly::interpolate_from_mul_subgroup(us.clone(), q, w).unwrap();
    let f1 = ModPoly::interpolate_from_mul_subgroup(vs.clone(), q, w).unwrap();
    let product = f0.times(&f1);
    assert_eq!(product.len(), 7);
    for i in 0..4 {
        let at = pow_mod(w, i as u64, q);
        assert_eq!(product.evaluate(at), us[i] * vs[i] % q);
    }
}
