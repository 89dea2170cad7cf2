//! What a client submits: its proof as two shares, one in full and one as a
//! seed, under a request id that binds them.

use vstd::prelude::*;
use crate::circuit::{bitvector_test, lemma_bitvector_shape};
use crate::config::Config;
use crate::hpke::{
    lemma_opens_unique,
    open_envelope,
    opens_to,
    seal_envelope,
    sealed_to,
    KEY_BYTES,
};
use crate::wire::{
    decode_inner,
    decode_payload,
    decode_payload_seed,
    enc_inner,
    enc_payload,
    enc_payload_seed,
    encode_inner,
    encode_payload,
    encode_payload_seed,
    proof_fits,
};
use crate::error::Error;
use crate::flpcp::{
    lemma_seed_round_trip,
    spec_masked,
    spec_rejoined,
    spec_seed_of,
    Context,
    ProofSeed,
    ProofView,
    Proofu64,
    Prover,
};
use crate::poly::can_interpolate;
use crate::rng::fresh_seed;
use crate::utils::{copy_vec, is_pow2, lemma_next_pow2_bounds, lemma_next_pow2_least, spec_next_pow2};
use uuid::Uuid;

verus! {

/// The number of inputs from which on the vectors of a proof are too long
/// for the lengths of the seed form.
pub const MAX_INPUTS: usize = 32768;

/// The number of buckets that one pair of followers serves.
pub const BUCKETS_PER_PAIR: u32 = 1000;

/// The pair of followers that serves the bucket `index`: the pair 0 serves
/// the buckets from `BUCKETS_PER_PAIR` on, the pair 1 the buckets below.
pub fn serving_pair(index: u32) -> (pair: usize)
    ensures
        pair == (if index >= BUCKETS_PER_PAIR {
            0usize
        } else {
            1usize
        }),
{
    if index >= BUCKETS_PER_PAIR {
        0
    } else {
        1
    }
}

/// The submission for the aggregator that gets its share in full.
#[derive(Debug, PartialEq)]
pub struct Payload {
    pub uuid: u128,
    pub index: u32,
    pub proof: Proofu64,
}

/// The submission for the aggregator that gets its share as a seed.
#[derive(Debug, PartialEq)]
pub struct PayloadSeed {
    pub uuid: u128,
    pub index: u32,
    pub proofseed: ProofSeed,
}

/// The two sealed submissions that a proxy hands on, one to each aggregator.
#[derive(Debug, PartialEq)]
pub struct InnerCiphertexts {
    pub left: Vec<u8>,
    pub right: Vec<u8>,
}

/// `Uuid::new_v4` of uuid, as the 128-bit number that the id stands for: a
/// random request id. Nothing is known of its value.
#[verifier::external_body]
fn fresh_uuid() -> u128 {
    Uuid::new_v4().as_u128()
}

/// The prover of the bit-vector circuit for `inputs`.
pub open spec fn spec_prover(inputs: Seq<u64>, prime: u64, generator: u64, seed: u64) -> ProofView {
    let c = crate::circuit::spec_bitvector_gates(prime, inputs.len());
    let z = crate::rng::draws(seed, Seq::empty(), prime, 2);
    let n = spec_next_pow2(inputs.len() + 1);
    let us = crate::flpcp::spec_wire_values(
        z[0],
        crate::circuit::left_wires_of(c, prime, inputs),
        n,
    );
    let vs = crate::flpcp::spec_wire_values(
        z[1],
        crate::circuit::right_wires_of(c, prime, inputs),
        n,
    );
    ProofView {
        x: inputs,
        w: Seq::empty(),
        z,
        c: crate::poly::spec_product(
            crate::poly::spec_interpolate(us, prime, generator),
            crate::poly::spec_interpolate(vs, prime, generator),
            prime,
        ),
        q: prime,
    }
}

/// Whether payloads exist for `n` inputs: they are few enough for the seed
/// form, and the generator and the number of interpolation points have
/// inverses modulo the prime.
pub open spec fn payloads_exist(n: nat, prime: u64, generator: u64) -> bool {
    n < MAX_INPUTS && can_interpolate(spec_next_pow2(n + 1), prime, generator)
}

/// Whether `full` and `seed` are the two shares of the proof that a prover
/// with the seed `prover_seed` gives for `inputs`: the share that the seed
/// form stands for, and the share that completes it. The blinding values
/// and the coefficients of the proof lie below the prime, so that for
/// inputs below the prime the two shares rejoin to the proof itself.
pub open spec fn shares_of_submission(
    full: ProofView,
    seed: ProofSeed,
    inputs: Seq<u64>,
    prime: u64,
    generator: u64,
    prover_seed: u64,
) -> bool {
    let pi = spec_prover(inputs, prime, generator, prover_seed);
    &&& pi.x == inputs
    &&& pi.w.len() == 0
    &&& pi.z.len() == 2
    &&& pi.c.len() + 1 == 2 * spec_next_pow2(inputs.len() + 1)
    &&& pi.q == prime
    &&& pi.made_reduced()
    &&& seed == spec_seed_of(pi, seed.seed)
    &&& full == spec_masked(pi, seed.spec_share())
    &&& (forall|i: int| 0 <= i < inputs.len() ==> inputs[i] < prime) ==> spec_rejoined(
        seed.spec_share(),
        full,
    ) == pi
}

/// The two shares of a submission rejoin to the proof of the prover: where
/// the inputs lie below the prime and are few enough for the seed form, the
/// share that the seed form stands for, rejoined with the share sent in
/// full, is the very proof that the prover gives for the inputs, with the
/// inputs, no reserved values, a blinding pair, and one coefficient less
/// than twice the number of interpolation points.
pub proof fn lemma_submission_rejoins(
    full: ProofView,
    seed: ProofSeed,
    inputs: Seq<u64>,
    prime: u64,
    generator: u64,
    prover_seed: u64,
)
    requires
        prime > 0,
        inputs.len() < MAX_INPUTS,
        forall|i: int| 0 <= i < inputs.len() ==> inputs[i] < prime,
        shares_of_submission(full, seed, inputs, prime, generator, prover_seed),
    ensures
        spec_rejoined(seed.spec_share(), full) == spec_prover(
            inputs,
            prime,
            generator,
            prover_seed,
        ),
        spec_rejoined(seed.spec_share(), full).x == inputs,
        spec_rejoined(seed.spec_share(), full).w.len() == 0,
        spec_rejoined(seed.spec_share(), full).z.len() == 2,
        spec_rejoined(seed.spec_share(), full).c.len() + 1 == 2 * spec_next_pow2(inputs.len() + 1),
        spec_rejoined(seed.spec_share(), full).q == prime,
{
    let pi = spec_prover(inputs, prime, generator, prover_seed);
    lemma_prover_shape(inputs, prime, generator, prover_seed);
    assert(pi.reduced());
    lemma_seed_round_trip(pi, seed.seed);
}

/// The proof that `spec_prover` names is the proof of `gen_proof` for a
/// prover of the circuit that tests each input for being a bit.
pub proof fn lemma_prover_is_gen_proof(prover: Prover)
    requires
        prover.ctxt.circuit.out_gates@ == crate::circuit::spec_bitvector_gates(
            prover.ctxt.circuit.modulus,
            prover.inputs@.len(),
        ),
        prover.inputs@.len() <= usize::MAX,
    ensures
        prover.spec_proof() == spec_prover(
            prover.inputs@,
            prover.ctxt.circuit.modulus,
            prover.ctxt.generator,
            prover.seed,
        ),
{
    lemma_bitvector_shape(prover.ctxt.circuit.modulus, prover.inputs@.len());
}

/// The proof of the prover for fewer than `MAX_INPUTS` inputs has one
/// coefficient less than twice the number of interpolation points, which
/// are few enough for the lengths of the seed form.
pub proof fn lemma_prover_shape(inputs: Seq<u64>, prime: u64, generator: u64, seed: u64)
    requires
        inputs.len() < MAX_INPUTS,
    ensures
        spec_prover(inputs, prime, generator, seed).c.len() + 1 == 2 * spec_next_pow2(
            inputs.len() + 1,
        ),
        spec_prover(inputs, prime, generator, seed).c.len() <= u16::MAX,
        spec_prover(inputs, prime, generator, seed).z.len() == 2,
{
    let n = spec_next_pow2(inputs.len() + 1);
    let gates = crate::circuit::spec_bitvector_gates(prime, inputs.len());
    lemma_bitvector_shape(prime, inputs.len());
    crate::circuit::lemma_wire_counts_of(gates, prime, inputs);
    lemma_next_pow2_bounds(inputs.len() + 1);
    assert(is_pow2(32768)) by {
        reveal_with_fuel(is_pow2, 17);
    }
    lemma_next_pow2_least(inputs.len() + 1, 32768);
    let z = crate::rng::draws(seed, Seq::empty(), prime, 2);
    let us = crate::flpcp::spec_wire_values(
        z[0],
        crate::circuit::left_wires_of(gates, prime, inputs),
        n,
    );
    let vs = crate::flpcp::spec_wire_values(
        z[1],
        crate::circuit::right_wires_of(gates, prime, inputs),
        n,
    );
    assert(us.len() == n);
    assert(vs.len() == n);
}

/// The two payloads of a submission of `inputs` to the bucket `index`: the
/// proof that a prover with the seed `prover_seed` gives for the bit-vector
/// circuit, split into the share that `share_seed` stands for and the share
/// that completes it, both under the request id `uuid`.
///
/// Fails with `DimensionMismatch` where there are `MAX_INPUTS` inputs or
/// more, else with `NonInvertible` where the generator or the number of
/// interpolation points has no inverse.
pub fn assemble_payloads(
    index: u32,
    inputs: &Vec<u64>,
    prime: u64,
    generator: u64,
    prover_seed: u64,
    share_seed: u64,
    uuid: u128,
) -> (res: Result<(Payload, PayloadSeed), Error>)
    requires
        prime > 0,
    ensures
        match res {
            Ok((full, seeded)) => {
                let pi = spec_prover(inputs@, prime, generator, prover_seed);
                &&& payloads_exist(inputs@.len(), prime, generator)
                &&& full.uuid == uuid
                &&& seeded.uuid == uuid
                &&& full.index == index
                &&& seeded.index == index
                &&& pi.made_reduced()
                &&& seeded.proofseed == spec_seed_of(pi, share_seed)
                &&& full.proof@ == spec_masked(pi, seeded.proofseed.spec_share())
                &&& shares_of_submission(
                    full.proof@,
                    seeded.proofseed,
                    inputs@,
                    prime,
                    generator,
                    prover_seed,
                )
            },
            Err(e) => !payloads_exist(inputs@.len(), prime, generator) && e == (if inputs@.len()
                >= MAX_INPUTS {
                Error::DimensionMismatch
            } else {
                Error::NonInvertible
            }),
        },
{
    if inputs.len() >= MAX_INPUTS {
        return Err(Error::DimensionMismatch);
    }
    let circuit = bitvector_test(prime, inputs.len());
    proof {
        lemma_bitvector_shape(prime, inputs@.len());
        lemma_next_pow2_bounds(inputs@.len() + 1);
        assert(is_pow2(32768)) by {
            reveal_with_fuel(is_pow2, 17);
        }
        lemma_next_pow2_least(inputs@.len() + 1, 32768);
    }
    let ctxt = Context { generator, circuit };
    let prover = Prover { ctxt, inputs: copy_vec(inputs), seed: prover_seed };
    let pi = match prover.gen_proof() {
        Ok(pi) => pi,
        Err(e) => {
            return Err(e);
        },
    };
    proof {
        lemma_prover_shape(inputs@, prime, generator, prover_seed);
    }
    let (proofseed, proof) = pi.share_with_seed(share_seed);
    proof {
        if forall|i: int| 0 <= i < inputs@.len() ==> inputs@[i] < prime {
            assert(pi@.reduced());
            lemma_seed_round_trip(pi@, share_seed);
        }
    }
    let payload0 = Payload { uuid, index, proof };
    let payload1 = PayloadSeed { uuid, index, proofseed };
    Ok((payload0, payload1))
}

/// The two payloads of a submission of `inputs` to the bucket `index`, with
/// fresh seeds and a fresh request id. Whatever these are, the payloads are
/// those that `assemble_payloads` gives for them.
///
/// Fails as `assemble_payloads` does.
pub fn gen_payloads(index: u32, inputs: &Vec<u64>, prime: u64, generator: u64) -> (res: Result<
    (Payload, PayloadSeed),
    Error,
>)
    requires
        prime > 0,
    ensures
        match res {
            Ok((full, seeded)) => {
                &&& payloads_exist(inputs@.len(), prime, generator)
                &&& full.uuid == seeded.uuid
                &&& full.index == index
                &&& seeded.index == index
                &&& exists|prover_seed: u64| #[trigger]
                    shares_of_submission(
                        full.proof@,
                        seeded.proofseed,
                        inputs@,
                        prime,
                        generator,
                        prover_seed,
                    )
            },
            Err(e) => !payloads_exist(inputs@.len(), prime, generator) && e == (if inputs@.len()
                >= MAX_INPUTS {
                Error::DimensionMismatch
            } else {
                Error::NonInvertible
            }),
        },
{
    let prover_seed: u64 = fresh_seed();
    let share_seed: u64 = fresh_seed();
    let uuid: u128 = fresh_uuid();
    let res = assemble_payloads(index, inputs, prime, generator, prover_seed, share_seed, uuid);
    proof {
        if res is Ok {
            let seeded = res->Ok_0.1;
            let full = res->Ok_0.0;
            assert(shares_of_submission(
                full.proof@,
                seeded.proofseed,
                inputs@,
                prime,
                generator,
                prover_seed,
            ));
        }
    }
    res
}

/// Whether `outer0` and `outer1` are the envelopes of the two encoded
/// payloads `msg0` and `msg1`: each payload is sealed to its aggregator, and
/// the encoded pair of the two sealed payloads is sealed once to each proxy.
pub open spec fn nested_envelopes(
    outer0: Seq<u8>,
    outer1: Seq<u8>,
    msg0: Seq<u8>,
    msg1: Seq<u8>,
    agg0_pubkey: Seq<u8>,
    agg1_pubkey: Seq<u8>,
    proxy0_pubkey: Seq<u8>,
    proxy1_pubkey: Seq<u8>,
) -> bool {
    exists|left: Seq<u8>, right: Seq<u8>|
        {
            &&& sealed_to(left, agg0_pubkey, msg0)
            &&& sealed_to(right, agg1_pubkey, msg1)
            &&& sealed_to(outer0, proxy0_pubkey, #[trigger] enc_inner(left, right))
            &&& sealed_to(outer1, proxy1_pubkey, enc_inner(left, right))
        }
}

/// Whether `outer0` and `outer1` are the envelopes of a submission of
/// `inputs` to the bucket `index` under the request id `uuid`, with the
/// shares `full` and `seed` of the proof of a prover with the seed
/// `prover_seed`.
pub open spec fn submission_envelopes(
    outer0: Seq<u8>,
    outer1: Seq<u8>,
    index: u32,
    inputs: Seq<u64>,
    config: &Config,
    keys: (Seq<u8>, Seq<u8>, Seq<u8>, Seq<u8>),
    uuid: u128,
    full: ProofView,
    seed: ProofSeed,
    prover_seed: u64,
) -> bool {
    &&& shares_of_submission(full, seed, inputs, config.prime, config.generator, prover_seed)
    &&& nested_envelopes(
        outer0,
        outer1,
        enc_payload(uuid, index, full),
        enc_payload_seed(uuid, index, seed),
        keys.0,
        keys.1,
        keys.2,
        keys.3,
    )
}

/// The two envelopes of the payloads `full` and `seeded`, one for each
/// proxy. Each payload is sealed to its aggregator; the pair of sealed
/// payloads is then sealed once to each proxy.
///
/// Fails with `MalformedPayload` where a key has not the length of a key or
/// an encryption reports an error.
pub fn seal_payloads(
    full: &Payload,
    seeded: &PayloadSeed,
    agg0_pubkey: &Vec<u8>,
    agg1_pubkey: &Vec<u8>,
    proxy0_pubkey: &Vec<u8>,
    proxy1_pubkey: &Vec<u8>,
) -> (res: Result<Vec<Vec<u8>>, Error>)
    ensures
        match res {
            Ok(outer) => {
                &&& outer@.len() == 2
                &&& agg0_pubkey@.len() == KEY_BYTES
                &&& agg1_pubkey@.len() == KEY_BYTES
                &&& proxy0_pubkey@.len() == KEY_BYTES
                &&& proxy1_pubkey@.len() == KEY_BYTES
                &&& nested_envelopes(
                    outer@[0]@,
                    outer@[1]@,
                    enc_payload(full.uuid, full.index, full.proof@),
                    enc_payload_seed(seeded.uuid, seeded.index, seeded.proofseed),
                    agg0_pubkey@,
                    agg1_pubkey@,
                    proxy0_pubkey@,
                    proxy1_pubkey@,
                )
            },
            Err(e) => e == Error::MalformedPayload,
        },
{
    let msg0 = encode_payload(full);
    let left = match seal_envelope(msg0.as_slice(), agg0_pubkey) {
        Ok(bytes) => bytes,
        Err(e) => {
            return Err(e);
        },
    };
    let msg1 = encode_payload_seed(seeded);
    let right = match seal_envelope(msg1.as_slice(), agg1_pubkey) {
        Ok(bytes) => bytes,
        Err(e) => {
            return Err(e);
        },
    };
    let inners = InnerCiphertexts { left, right };
    let msg = encode_inner(&inners);
    let outer0 = match seal_envelope(msg.as_slice(), proxy0_pubkey) {
        Ok(bytes) => bytes,
        Err(e) => {
            return Err(e);
        },
    };
    let outer1 = match seal_envelope(msg.as_slice(), proxy1_pubkey) {
        Ok(bytes) => bytes,
        Err(e) => {
            return Err(e);
        },
    };
    proof {
        assert(msg@ == enc_inner(inners.left@, inners.right@));
    }
    let mut outer: Vec<Vec<u8>> = Vec::new();
    outer.push(outer0);
    outer.push(outer1);
    Ok(outer)
}

/// The two envelopes of a submission of `inputs` to the bucket `index`, one
/// for each proxy, with fresh seeds and a fresh request id. Whatever these
/// are, the envelopes are those of the two payloads of `gen_payloads`: each
/// payload is sealed to its aggregator, and the pair of sealed payloads is
/// sealed once to each proxy.
///
/// Fails as `gen_payloads` does, and with `MalformedPayload` where a key
/// has not the length of a key or an encryption reports an error.
pub fn gen_nested_encryptions(
    config: &Config,
    index: u32,
    inputs: &Vec<u64>,
    agg0_pubkey: &Vec<u8>,
    agg1_pubkey: &Vec<u8>,
    proxy0_pubkey: &Vec<u8>,
    proxy1_pubkey: &Vec<u8>,
) -> (res: Result<Vec<Vec<u8>>, Error>)
    requires
        config.prime > 0,
    ensures
        match res {
            Ok(outer) => {
                &&& outer@.len() == 2
                &&& payloads_exist(inputs@.len(), config.prime, config.generator)
                &&& agg0_pubkey@.len() == KEY_BYTES
                &&& agg1_pubkey@.len() == KEY_BYTES
                &&& proxy0_pubkey@.len() == KEY_BYTES
                &&& proxy1_pubkey@.len() == KEY_BYTES
                &&& exists|uuid: u128, full: ProofView, seed: ProofSeed, prover_seed: u64| #[trigger]
                    submission_envelopes(
                        outer@[0]@,
                        outer@[1]@,
                        index,
                        inputs@,
                        config,
                        (agg0_pubkey@, agg1_pubkey@, proxy0_pubkey@, proxy1_pubkey@),
                        uuid,
                        full,
                        seed,
                        prover_seed,
                    )
            },
            Err(e) => if !payloads_exist(inputs@.len(), config.prime, config.generator) {
                e == (if inputs@.len() >= MAX_INPUTS {
                    Error::DimensionMismatch
                } else {
                    Error::NonInvertible
                })
            } else {
                e == Error::MalformedPayload
            },
        },
{
    let (payload0, payload1) = match gen_payloads(index, inputs, config.prime, config.generator) {
        Ok(pair) => pair,
        Err(e) => {
            return Err(e);
        },
    };
    let res = seal_payloads(
        &payload0,
        &payload1,
        agg0_pubkey,
        agg1_pubkey,
        proxy0_pubkey,
        proxy1_pubkey,
    );
    proof {
        if res is Ok {
            let outer = res->Ok_0;
            let prover_seed = choose|prover_seed: u64| #[trigger]
                shares_of_submission(
                    payload0.proof@,
                    payload1.proofseed,
                    inputs@,
                    config.prime,
                    config.generator,
                    prover_seed,
                );
            assert(submission_envelopes(
                outer@[0]@,
                outer@[1]@,
                index,
                inputs@,
                config,
                (agg0_pubkey@, agg1_pubkey@, proxy0_pubkey@, proxy1_pubkey@),
                payload0.uuid,
                payload0.proof@,
                payload1.proofseed,
                prover_seed,
            ));
        }
    }
    res
}

/// Opens the envelope `contents` with the private key `privkey` and decodes
/// the pair of sealed submissions in it.
///
/// Fails with `MalformedPayload` where the key opens `contents` to no such
/// pair.
pub fn decrypt_to_inners(contents: &[u8], privkey: &Vec<u8>) -> (res: Result<
    InnerCiphertexts,
    Error,
>)
    ensures
        match res {
            Ok(m) => opens_to(contents@, privkey@, enc_inner(m.left@, m.right@)),
            Err(e) => e == Error::MalformedPayload && forall|left: Seq<u8>, right: Seq<u8>|
                left.len() <= u64::MAX && right.len() <= u64::MAX ==> !opens_to(
                    contents@,
                    privkey@,
                    #[trigger] enc_inner(left, right),
                ),
        },
{
    let msg = match open_envelope(contents, privkey) {
        Ok(msg) => msg,
        Err(e) => {
            return Err(e);
        },
    };
    match decode_inner(msg.as_slice()) {
        Ok(m) => Ok(m),
        Err(e) => {
            proof {
                assert forall|left: Seq<u8>, right: Seq<u8>|
                    left.len() <= u64::MAX && right.len() <= u64::MAX implies !opens_to(
                    contents@,
                    privkey@,
                    #[trigger] enc_inner(left, right),
                ) by {
                    if opens_to(contents@, privkey@, enc_inner(left, right)) {
                        lemma_opens_unique(contents@, privkey@, msg@, enc_inner(left, right));
                    }
                }
            }
            Err(e)
        },
    }
}

/// Opens the envelope `contents` with the private key `privkey` and decodes
/// the payload in it.
///
/// Fails with `MalformedPayload` where the key opens `contents` to no
/// payload.
pub fn decrypt_to_payload(contents: &[u8], privkey: &Vec<u8>) -> (res: Result<Payload, Error>)
    ensures
        match res {
            Ok(p) => opens_to(contents@, privkey@, enc_payload(p.uuid, p.index, p.proof@)),
            Err(e) => e == Error::MalformedPayload && forall|uuid: u128, index: u32, r: ProofView|
                proof_fits(r) ==> !opens_to(
                    contents@,
                    privkey@,
                    #[trigger] enc_payload(uuid, index, r),
                ),
        },
{
    let msg = match open_envelope(contents, privkey) {
        Ok(msg) => msg,
        Err(e) => {
            return Err(e);
        },
    };
    match decode_payload(msg.as_slice()) {
        Ok(p) => Ok(p),
        Err(e) => {
            proof {
                assert forall|uuid: u128, index: u32, r: ProofView| proof_fits(r) implies !opens_to(
                    contents@,
                    privkey@,
                    #[trigger] enc_payload(uuid, index, r),
                ) by {
                    if opens_to(contents@, privkey@, enc_payload(uuid, index, r)) {
                        lemma_opens_unique(contents@, privkey@, msg@, enc_payload(uuid, index, r));
                    }
                }
            }
            Err(e)
        },
    }
}

/// Opens the envelope `contents` with the private key `privkey` and decodes
/// the seed payload in it.
///
/// Fails with `MalformedPayload` where the key opens `contents` to no seed
/// payload.
pub fn decrypt_to_payloadseed(contents: &[u8], privkey: &Vec<u8>) -> (res: Result<
    PayloadSeed,
    Error,
>)
    ensures
        match res {
            Ok(p) => opens_to(contents@, privkey@, enc_payload_seed(p.uuid, p.index, p.proofseed)),
            Err(e) => e == Error::MalformedPayload && forall|uuid: u128, index: u32, ps: ProofSeed|
                !opens_to(contents@, privkey@, #[trigger] enc_payload_seed(uuid, index, ps)),
        },
{
    let msg = match open_envelope(contents, privkey) {
        Ok(msg) => msg,
        Err(e) => {
            return Err(e);
        },
    };
    match decode_payload_seed(msg.as_slice()) {
        Ok(p) => Ok(p),
        Err(e) => {
            proof {
                assert forall|uuid: u128, index: u32, ps: ProofSeed| !opens_to(
                    contents@,
                    privkey@,
                    #[trigger] enc_payload_seed(uuid, index, ps),
                ) by {
                    if opens_to(contents@, privkey@, enc_payload_seed(uuid, index, ps)) {
                        lemma_opens_unique(
                            contents@,
                            privkey@,
                            msg@,
                            enc_payload_seed(uuid, index, ps),
                        );
                    }
                }
            }
            Err(e)
        },
    }
}

} // verus!
