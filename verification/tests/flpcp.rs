use pa::circuit::bitvector_test;
use pa::flpcp::{BitvectorVerifier, Context, Prover, Verifier};
use rand::Rng;

#[test]
fn flpcp_32_bit_accept() {
    let p = 4293918721u64;
    let generator = 2960092488u64;
    let input_len = 127;
    let circuit = bitvector_test(p, input_len);
    let inputs = vec![1u64; input_len];
    let ctxt = Context { generator, circuit };
    let mut rng = rand::thread_rng();
    let prover = Prover { ctxt: ctxt.clone(), inputs, seed: rng.gen() };
    let verifier0 = BitvectorVerifier { ctxt, seed: rng.gen() };
    let verifier1 = verifier0.clone();
    let (pi0, pi1) = prover.gen_proofs().unwrap();
    let qs0 = verifier0.gen_queries(&pi0).unwrap();
    let qs1 = verifier1.gen_queries(&pi1).unwrap();
    assert_eq!(qs0, qs1);
    let res0 = verifier0.queries(&pi0, &qs0).unwrap();
    let res1 = verifier1.queries(&pi1, &qs1).unwrap();
    assert!(verifier0.decision(&res0, &res1).unwrap());
}

#[test]
fn flpcp_32_bit_reject() {
    let p = 4293918721u64;
    let generator = 2960092488u64;
    let input_len = 127;
    let circuit = bitvector_test(p, input_len);
    let inputs = vec![2u64; input_len];
    let ctxt = Context { generator, circuit };
    let mut rng = rand::thread_rng();
    let prover = Prover { ctxt: ctxt.clone(), inputs, seed: rng.gen() };
    let verifier0 = BitvectorVerifier { ctxt, seed: rng.gen() };
    let verifier1 = verifier0.clone();
    let (pi0, pi1) = prover.gen_proofs().unwrap();
    let qs0 = verifier0.gen_queries(&pi0).unwrap();
    let qs1 = verifier1.gen_queries(&pi1).unwrap();
    assert_eq!(qs0, qs1);
    let res0 = verifier0.queries(&pi0, &qs0).unwrap();
    let res1 = verifier1.queries(&pi1, &qs1).unwrap();
    assert!(!verifier0.decision(&res0, &res1).unwrap());
}

#[test]
fn flpcp_64_bit_accept() {
    let p = 18446744073709547521u64;
    let generator = 323234694403053661u64;
    let input_len = 127;
    let circuit = bitvector_test(p, input_len);
    let inputs = vec![1u64; input_len];
    let ctxt = Context { generator, circuit };
    let mut rng = rand::thread_rng();
    let prover = Prover { ctxt: ctxt.clone(), inputs, seed: rng.gen() };
    let verifier0 = BitvectorVerifier { ctxt, seed: rng.gen() };
    let verifier1 = verifier0.clone();
    let (pi0, pi1) = prover.gen_proofs().unwrap();
    let qs0 = verifier0.gen_queries(&pi0).unwrap();
    let qs1 = verifier1.gen_queries(&pi1).unwrap();
    assert_eq!(qs0, qs1);
    let res0 = verifier0.queries(&pi0, &qs0).unwrap();
    let res1 = verifier1.queries(&pi1, &qs1).unwrap();
    assert!(verifier0.decision(&res0, &res1).unwrap());
}

#[test]
fn flpcp_64_bit_reject() {
    let p = 18446744073709547521u64;
    let generator = 323234694403053661u64;
    let input_len = 127;
    let circuit = bitvector_test(p, input_len);
    let inputs = vec![2u64; input_len];
    let ctxt = Context { generator, circuit };
    let mut rng = rand::thread_rng();
    let prover = Prover { ctxt: ctxt.clone(), inputs, seed: rng.gen() };
    let verifier0 = BitvectorVerifier { ctxt, seed: rng.gen() };
    let verifier1 = verifier0.clone();
    let (pi0, pi1) = prover.gen_proofs().unwrap();
    let qs0 = verifier0.gen_queries(&pi0).unwrap();
    let qs1 = verifier1.gen_queries(&pi1).unwrap();
    assert_eq!(qs0, qs1);
    let res0 = verifier0.queries(&pi0, &qs0).unwrap();
    let res1 = verifier1.queries(&pi1, &qs1).unwrap();
    assert!(!verifier0.decision(&res0, &res1).unwrap());
}

#[test]
fn share_seed_proof() {
    let p = 4293918721u64;
    let generator = 2960092488u64;
    let input_len = 127;
    let circuit = bitvector_test(p, input_len);
    let inputs = vec![1u64; input_len];
    let ctxt = Context { generator, circuit };
    let mut rng = rand::thread_rng();
    let prover = Prover { ctxt: ctxt.clone(), inputs, seed: rng.gen() };
    let pi0 = prover.gen_proof().unwrap();
    let (ps, piu64) = pi0.share_seed();
    let pi1 = ps.get_share().reconstruct(&piu64.to_integer());
    assert_eq!(pi0, pi1);
}
