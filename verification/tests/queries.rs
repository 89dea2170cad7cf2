use pa::circuit::{bit_test, bitvector_test, Circuit, Gate};
use pa::error::Error;
use pa::field::{add_mod, mul_mod, sub_mod};
use pa::flpcp::{
    BitvectorVerifier, Context, Proof, ProofSeed, Prover, Query, QueryRes, QueryState, Verifier,
};
use pa::interpolate::eval_lagrange_basis;
use pa::payload::{assemble_payloads, gen_payloads, serving_pair, MAX_INPUTS};
use pa::poly::ModPoly;
use pa::rng::SeededRng;
use pa::utils::rejection_sample;

const P: u64 = 4293918721;
const W128: u64 = 2960092488;

fn pow_mod(base: u64, exp: u64, q: u64) -> u64 {
    let mut acc: u64 = 1 % q;
    for _ in 0..exp {
        acc = mul_mod(acc, base, q);
    }
    acc
}

fn bit_verifier(input_len: usize, generator: u64, seed: u64) -> BitvectorVerifier {
    BitvectorVerifier { ctxt: Context { generator, circuit: bitvector_test(P, input_len) }, seed }
}

fn shape(nx: usize, nc: usize) -> Proof {
    Proof { x: vec![0; nx], w: vec![], z: vec![0; 2], c: vec![0; nc], q: P }
}

#[test]
fn circuit_counts_and_bounds() {
    let c = bitvector_test(P, 5);
    assert_eq!(c.count_muls(), 5);
    assert_eq!(c.count_gates(), 10);
    assert_eq!(c.out_gates[3].count_muls(), 1);
    assert_eq!(c.out_gates[3].count_gates(), 2);
    assert!(c.fits(5));
    assert!(!c.fits(4));
    assert!(c.out_gates[3].fits(4));
    assert!(!c.out_gates[3].fits(3));
    assert_eq!(bit_test(P).count_muls(), 1);
    let empty = Circuit { out_gates: vec![], modulus: 7 };
    assert_eq!(empty.count_gates(), 0);
    assert_eq!(empty.eval(&vec![]), Vec::<u64>::new());
    assert!(empty.fits(0));
}

#[test]
fn gates_reduce_sums_and_products_only() {
    let x = Gate::Input { var: 0 };
    let k = Gate::Const { val: 10 };
    assert_eq!(k.eval(7, &vec![]), 10);
    assert_eq!(x.eval(7, &vec![9]), 9);
    let sum = Gate::Add { in_l: Box::new(x.clone()), in_r: Box::new(k.clone()) };
    assert_eq!(sum.eval(7, &vec![9]), 5);
    let nested = Gate::Mul {
        in_l: Box::new(Gate::Mul { in_l: Box::new(x.clone()), in_r: Box::new(k.clone()) }),
        in_r: Box::new(sum.clone()),
    };
    assert_eq!(nested.eval(7, &vec![9]), 2);
    assert_eq!(nested.get_wire_vals(7, &vec![9]), (2, (vec![9, 6], vec![10, 5])));
    assert_eq!(nested.count_gates(), 3);
    assert_eq!(nested.count_muls(), 2);
}

#[test]
fn proof_layout_and_seed_expansion() {
    let pi = Proof { x: vec![1, 2], w: vec![3], z: vec![4, 5], c: vec![6], q: 11 };
    assert_eq!(pi.len(), 6);
    assert_eq!(pi.collect(), vec![1, 2, 3, 4, 5, 6]);
    let q = Query { vec: vec![5, 6, 7, 8, 9, 10], scalar: 9 };
    assert_eq!(pi.query(&q, 11), Ok((5 + 12 + 21 + 32 + 45 + 60 + 9) % 11));
    let short = Query { vec: vec![1; 5], scalar: 0 };
    assert_eq!(pi.query(&short, 11), Err(Error::DimensionMismatch));

    let ps = ProofSeed { seed: 42, x_len: 2, w_len: 1, z_len: 2, c_len: 3, q: P };
    let share = ps.get_share();
    let mut rand = SeededRng::seeded(42);
    let drawn = rand.below_vec(P, 8);
    assert_eq!(share.collect(), drawn);
    assert_eq!((share.x.len(), share.w.len(), share.z.len(), share.c.len()), (2, 1, 2, 3));

    let whole = Proof { x: vec![1, 0], w: vec![7], z: vec![4, 5], c: vec![6, 6, 6], q: P };
    let (seed, other) = whole.share_with_seed(42);
    assert_eq!(seed, ps);
    for (i, v) in other.to_integer().collect().iter().enumerate() {
        assert_eq!(*v, sub_mod(whole.collect()[i], drawn[i], P));
    }
    assert_eq!(seed.get_share().reconstruct(&other.to_integer()), whole);
    assert_eq!(whole.to_u64().to_integer(), whole);

    let mut rand = SeededRng::seeded(42);
    let (s0, s1) = whole.share(&mut rand);
    assert_eq!(s0.collect(), drawn);
    assert_eq!(s1, other.to_integer());
    assert_eq!(s0.reconstruct(&s1), whole);
}

#[test]
fn prover_builds_the_product_polynomial() {
    let w = pow_mod(W128, 32, P);
    let prover =
        Prover { ctxt: Context { generator: w, circuit: bitvector_test(P, 3) }, inputs: vec![1, 0, 5], seed: 8 };
    let pi = prover.gen_proof().unwrap();
    let mut rand = SeededRng::seeded(8);
    let z = rand.below_vec(P, 2);
    assert_eq!(pi.x, vec![1, 0, 5]);
    assert_eq!(pi.w, Vec::<u64>::new());
    assert_eq!(pi.z, z);
    assert_eq!(pi.c.len(), 7);
    assert_eq!(pi.q, P);
    let product = ModPoly { coeffs: pi.c.clone(), modulus: P };
    let us = [z[0], 1, 0, 5];
    let vs = [z[1], 0, P - 1, 4];
    for i in 0..4 {
        let at = pow_mod(w, i as u64, P);
        assert_eq!(product.evaluate(at), mul_mod(us[i], vs[i], P));
    }
    let (pi0, pi1) = prover.gen_proofs().unwrap();
    assert_eq!(pi0.collect(), rand.below_vec(P, 12));
    assert_eq!(pi0.reconstruct(&pi1), pi);
}

#[test]
fn prover_failures() {
    let too_few = Prover {
        ctxt: Context { generator: 4293918720, circuit: bitvector_test(P, 2) },
        inputs: vec![1],
        seed: 8,
    };
    assert_eq!(too_few.gen_proof(), Err(Error::DimensionMismatch));
    assert!(matches!(too_few.gen_proofs(), Err(Error::DimensionMismatch)));
    let no_inverse = Prover {
        ctxt: Context { generator: 0, circuit: bitvector_test(P, 1) },
        inputs: vec![1],
        seed: 8,
    };
    assert_eq!(no_inverse.gen_proof(), Err(Error::NonInvertible));
    assert!(matches!(
        gen_payloads(0, &vec![0; MAX_INPUTS], P, W128),
        Err(Error::DimensionMismatch)
    ));
    assert!(matches!(gen_payloads(0, &vec![0; 3], P, 0), Err(Error::NonInvertible)));
    assert!(assemble_payloads(0, &vec![0; 3], P, W128, 1, 2, 3).is_ok());
}

#[test]
fn submissions_rejoin_to_the_proof_of_the_prover() {
    let w = pow_mod(W128, 32, P);
    let inputs = vec![1u64, 0, P - 1];
    let (full, seeded) = assemble_payloads(4, &inputs, P, w, 21, 22, 23).unwrap();
    let prover =
        Prover { ctxt: Context { generator: w, circuit: bitvector_test(P, 3) }, inputs: inputs.clone(), seed: 21 };
    let pi = prover.gen_proof().unwrap();
    assert!(pi.z.iter().all(|v| *v < P));
    assert!(pi.c.iter().all(|v| *v < P));
    let back = seeded.proofseed.get_share().reconstruct(&full.proof.to_integer());
    assert_eq!(back, pi);
    assert_eq!(back.x, inputs);
    assert_eq!((back.w.len(), back.z.len(), back.c.len(), back.q), (0, 2, 7, P));
    assert_eq!(seeded.proofseed.seed, 22);
    let (pi0, pi1) = prover.gen_proofs().unwrap();
    assert!(pi0.collect().iter().chain(pi1.collect().iter()).all(|v| *v < P));
    let (a0, a1) = gen_payloads(4, &inputs, P, w).unwrap();
    let rejoined = a1.proofseed.get_share().reconstruct(&a0.proof.to_integer());
    assert_eq!(rejoined.x, inputs);
    assert_eq!((rejoined.w.len(), rejoined.z.len(), rejoined.c.len(), rejoined.q), (0, 2, 7, P));
}

#[test]
fn queries_follow_their_formulas() {
    let w = pow_mod(W128, 32, P);
    let v = bit_verifier(3, w, 17);
    let qs = v.gen_queries(&shape(3, 7)).unwrap();
    let xs: Vec<u64> = (0..4).map(|i| pow_mod(w, i, P)).collect();
    assert_eq!(qs.xs, xs);
    let mut rand = SeededRng::seeded(17);
    let r = rejection_sample(P, &xs, &mut rand).unwrap();
    assert_eq!(qs.r, r);
    assert!(!xs.contains(&r));
    let lag: Vec<u64> = (0..4).map(|i| eval_lagrange_basis(&xs, P, r, i).unwrap()).collect();
    assert_eq!(qs.q1.vec, vec![lag[1], lag[2], lag[3], lag[0], 0, 0, 0, 0, 0, 0, 0, 0]);
    assert_eq!(qs.q1.scalar, 0);
    assert_eq!(qs.q2.vec, vec![lag[1], lag[2], lag[3], 0, lag[0], 0, 0, 0, 0, 0, 0, 0]);
    let sum = add_mod(add_mod(lag[1], lag[2], P), lag[3], P);
    assert_eq!(qs.q2.scalar, sub_mod(0, sum, P));
    let rs = rand.below_vec(P, 3);
    let mut q0 = vec![0u64; 5];
    for i in 0..7u64 {
        let mut sum = 0;
        for j in 0..3u64 {
            sum = add_mod(sum, mul_mod(pow_mod(w, i * (j + 1), P), rs[j as usize], P), P);
        }
        q0.push(sum);
    }
    assert_eq!(qs.q0.vec, q0);
    assert_eq!(qs.q0.scalar, 0);
}

#[test]
fn query_generation_failures() {
    let w = pow_mod(W128, 32, P);
    assert_eq!(bit_verifier(3, w, 17).gen_queries(&shape(4, 7)), Err(Error::DimensionMismatch));
    assert_eq!(bit_verifier(3, 1, 17).gen_queries(&shape(3, 7)), Err(Error::NonInvertible));
    let no_inputs = bit_verifier(0, 1, 17).gen_queries(&shape(0, 1)).unwrap();
    assert_eq!(no_inputs.q0.vec, vec![0, 0, 0]);
    assert_eq!(no_inputs.xs, vec![1]);
}

#[test]
fn decision_follows_its_formula() {
    let v = bit_verifier(1, 4293918720, 0);
    let res0 = QueryRes { a: 3, a1: 5, d1: 2, a2: 4, d2: 1, b: 6, q: 7 };
    let res1 = QueryRes { a: 2, a1: 1, d1: 2, a2: 0, d2: 1, b: 1, q: 7 };
    assert_eq!(v.decision(&res0, &res1), Ok(true));
    assert_eq!(v.decision(&QueryRes { a: 4, ..res0 }, &res1), Ok(false));
    assert_eq!(v.decision(&QueryRes { b: 5, ..res0 }, &res1), Ok(false));
    assert_eq!(v.decision(&QueryRes { d1: 3, ..res0 }, &res1), Ok(false));
    assert_eq!(v.decision(&res0, &QueryRes { q: 11, ..res1 }), Err(Error::FieldMismatch));
    let low = QueryRes { a: 0, a1: 0, d1: 6, a2: 0, d2: 5, b: 0, q: 7 };
    let other = QueryRes { a: 2, a1: 0, d1: 0, a2: 0, d2: 0, b: 0, q: 7 };
    assert_eq!(v.decision(&low, &other), Ok(true));
}

#[test]
fn answers_of_a_share() {
    let v = bit_verifier(1, 4293918720, 0);
    let pi = Proof { x: vec![1], w: vec![], z: vec![2, 3], c: vec![4, 5, 6], q: 7 };
    let qs = QueryState {
        r: 2,
        xs: vec![1, 6],
        q0: Query { vec: vec![0, 0, 0, 1, 1, 1], scalar: 0 },
        q1: Query { vec: vec![1, 2, 0, 0, 0, 0], scalar: 0 },
        q2: Query { vec: vec![1, 0, 2, 0, 0, 0], scalar: 6 },
    };
    let res = v.queries(&pi, &qs).unwrap();
    assert_eq!(res, QueryRes { a: (4 + 10 + 24) % 7, a1: 5, d1: 0, a2: (1 + 6 + 6) % 7, d2: 6, b: 1, q: 7 });
    let mut longer = qs.clone();
    longer.q0.vec.push(0);
    assert_eq!(v.queries(&pi, &longer), Err(Error::DimensionMismatch));
}

#[test]
fn buckets_are_served_by_pairs() {
    assert_eq!(serving_pair(0), 1);
    assert_eq!(serving_pair(999), 1);
    assert_eq!(serving_pair(1000), 0);
    assert_eq!(serving_pair(u32::MAX), 0);
}
