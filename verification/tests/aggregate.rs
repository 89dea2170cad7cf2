use pa::aggregate::{accumulate, AggregatorState, Request};
use pa::circuit::bitvector_test;
use pa::error::Error;
use pa::field::add_mod;
use pa::flpcp::{BitvectorVerifier, Context, Proof, QueryState, Verifier};
use pa::payload::{assemble_payloads, gen_payloads, Payload, PayloadSeed};

const P: u64 = 4293918721;
const W128: u64 = 2960092488;

fn pow_mod(base: u64, exp: u64, q: u64) -> u64 {
    let mut acc: u128 = 1;
    let mut b: u128 = base as u128 % q as u128;
    let mut e = exp;
    while e > 0 {
        if e & 1 == 1 {
            acc = acc * b % q as u128;
        }
        b = b * b % q as u128;
        e >>= 1;
    }
    acc as u64
}

fn setup(input_len: usize, seed: u64) -> (u64, AggregatorState, AggregatorState) {
    // a generator of the subgroup of order 4, for three multiplication gates
    let w = pow_mod(W128, 32, P);
    let make = || {
        let ctxt = Context { generator: w, circuit: bitvector_test(P, input_len) };
        let verifier = BitvectorVerifier { ctxt, seed };
        let shape = Proof {
            x: vec![0; input_len],
            w: vec![],
            z: vec![0; 2],
            c: vec![0; 7],
            q: P,
        };
        let qs: QueryState = verifier.gen_queries(&shape).unwrap();
        AggregatorState::new(verifier, qs, P)
    };
    (w, make(), make())
}

fn run(
    decider: &mut AggregatorState,
    other: &mut AggregatorState,
    full: &Payload,
    seed: &PayloadSeed,
) -> bool {
    decider.submit_full(full).unwrap();
    let res = other.submit_seed(seed).unwrap();
    let verdict = decider.check_proof(seed.uuid, &res).unwrap().unwrap();
    assert_eq!(other.conclude(seed.uuid, Some(verdict)), Ok(verdict));
    verdict
}

#[test]
fn accumulate_adds_modulo() {
    assert_eq!(accumulate(&vec![5, 6], &vec![3, 4], 7), vec![1, 3]);
    assert_eq!(accumulate(&vec![], &vec![9, 4], 7), vec![2, 4]);
    assert_eq!(accumulate(&vec![1], &vec![9, 4], 7), vec![2, 4]);
    assert_eq!(accumulate(&vec![u64::MAX], &vec![u64::MAX], u64::MAX - 1), vec![2]);
}

#[test]
fn end_to_end_aggregation() {
    let (w, mut decider, mut other) = setup(3, 77);
    let (a0, a1) = gen_payloads(42, &vec![1, 0, 1], P, w).unwrap();
    let (b0, b1) = gen_payloads(42, &vec![0, 1, 1], P, w).unwrap();
    assert!(run(&mut decider, &mut other, &a0, &a1));
    assert!(run(&mut decider, &mut other, &b0, &b1));
    let left = decider.bucket(42).unwrap();
    let right = other.bucket(42).unwrap();
    let sum: Vec<u64> = left.iter().zip(&right).map(|(l, r)| add_mod(*l, *r, P)).collect();
    assert_eq!(sum, vec![1, 1, 2]);
    assert_eq!(decider.bucket(41), None);
    assert_eq!(decider.request(a0.uuid), Some(Request::Accepted));
    assert_eq!(other.request(b1.uuid), Some(Request::Accepted));
}

#[test]
fn invalid_input_is_rejected_and_not_accumulated() {
    let (w, mut decider, mut other) = setup(3, 5);
    let (a0, a1) = gen_payloads(7, &vec![1, 2, 1], P, w).unwrap();
    assert!(!run(&mut decider, &mut other, &a0, &a1));
    assert_eq!(decider.bucket(7), None);
    assert_eq!(other.bucket(7), None);
    assert_eq!(decider.request(a0.uuid), Some(Request::Rejected));
    assert_eq!(other.request(a1.uuid), Some(Request::Rejected));
}

#[test]
fn repeated_request_is_dropped() {
    let (w, mut decider, mut other) = setup(3, 5);
    let (a0, a1) = assemble_payloads(1, &vec![1, 1, 0], P, w, 11, 12, 99).unwrap();
    assert_eq!(a0.uuid, 99);
    assert_eq!(a1.uuid, 99);
    assert!(run(&mut decider, &mut other, &a0, &a1));
    let before = decider.bucket(1).unwrap();
    assert_eq!(decider.submit_full(&a0), Err(Error::DuplicateUuid));
    assert_eq!(other.submit_seed(&a1), Err(Error::DuplicateUuid));
    let res = answers_of(&a0);
    assert_eq!(decider.check_proof(99, &res), Err(Error::DuplicateUuid));
    assert_eq!(other.conclude(99, Some(true)), Err(Error::DuplicateUuid));
    assert_eq!(decider.bucket(1).unwrap(), before);
}

fn answers_of(payload: &Payload) -> pa::flpcp::QueryRes {
    let ctxt = Context { generator: 1, circuit: bitvector_test(P, 3) };
    let judge = BitvectorVerifier { ctxt, seed: 0 };
    let proof = payload.proof.to_integer();
    let qs = QueryState {
        r: 2,
        xs: vec![],
        q0: pa::flpcp::Query { vec: vec![0; 12], scalar: 0 },
        q1: pa::flpcp::Query { vec: vec![0; 12], scalar: 0 },
        q2: pa::flpcp::Query { vec: vec![0; 12], scalar: 0 },
    };
    judge.queries(&proof, &qs).unwrap()
}

#[test]
fn verdict_waits_for_the_local_answers() {
    let (w, mut decider, mut other) = setup(3, 5);
    let (a0, a1) = gen_payloads(3, &vec![0, 0, 0], P, w).unwrap();
    let res = other.submit_seed(&a1).unwrap();
    assert_eq!(decider.check_proof(a1.uuid, &res), Ok(None));
    assert_eq!(decider.request(a0.uuid), None);
    decider.submit_full(&a0).unwrap();
    assert_eq!(decider.check_proof(a1.uuid, &res), Ok(Some(true)));
    assert_eq!(decider.bucket(3), Some(a0.proof.x.iter().map(|v| v % P).collect()));
}

#[test]
fn lost_answer_discards_the_share() {
    let (w, _decider, mut other) = setup(3, 5);
    let (_a0, a1) = gen_payloads(3, &vec![0, 1, 0], P, w).unwrap();
    other.submit_seed(&a1).unwrap();
    assert_eq!(other.conclude(a1.uuid, None), Err(Error::RpcFailure));
    assert_eq!(other.request(a1.uuid), Some(Request::Rejected));
    assert_eq!(other.bucket(3), None);
}

#[test]
fn foreign_modulus_and_wrong_length_are_rejected() {
    let (w, mut decider, _other) = setup(3, 5);
    let (mut a0, _a1) = assemble_payloads(1, &vec![1, 1, 0], P, w, 1, 2, 10).unwrap();
    a0.proof.q = 65537;
    assert_eq!(decider.submit_full(&a0), Err(Error::FieldMismatch));
    assert_eq!(decider.request(10), Some(Request::Rejected));
    let (mut b0, _b1) = assemble_payloads(1, &vec![1, 1, 0], P, w, 1, 2, 11).unwrap();
    b0.proof.c.push(0);
    assert_eq!(decider.submit_full(&b0), Err(Error::DimensionMismatch));
    assert_eq!(decider.request(11), Some(Request::Rejected));
    let (c0, _c1) = assemble_payloads(1, &vec![1, 1, 0], P, w, 1, 2, 12).unwrap();
    decider.submit_full(&c0).unwrap();
    let mut res = answers_of(&c0);
    res.q = 65537;
    assert_eq!(decider.check_proof(12, &res), Err(Error::FieldMismatch));
    assert_eq!(decider.request(12), Some(Request::Rejected));
}

fn shared_between_tasks<T: Send + 'static>() {}

#[test]
fn state_can_move_between_threads() {
    shared_between_tasks::<AggregatorState>();
    shared_between_tasks::<std::sync::Arc<std::sync::Mutex<AggregatorState>>>();
}
