//! What an aggregator keeps between submissions: the state of each request
//! and the per-bucket accumulators of accepted input shares.

use vstd::prelude::*;
use crate::error::Error;
use crate::field::add_mod;
use crate::flpcp::{
    queries_fit,
    spec_decision,
    spec_queries,
    BitvectorVerifier,
    Proof,
    ProofView,
    QueryRes,
    QueryState,
    Verifier,
};
use crate::payload::{Payload, PayloadSeed};
use crate::utils::copy_vec;
use dashmap::DashMap;

verus! {

#[verifier::external_type_specification]
#[verifier::external_body]
#[verifier::reject_recursive_types(K)]
#[verifier::reject_recursive_types(V)]
#[verifier::reject_recursive_types(S)]
pub struct ExDashMap<K, V, S>(DashMap<K, V, S>);

/// A concurrent map from bucket index to accumulator.
pub type BucketMap = DashMap<u32, Vec<u64>>;

/// The accumulators that a map holds, by bucket index.
pub uninterp spec fn buckets_held(m: BucketMap) -> Map<u32, Seq<u64>>;

/// No accumulators.
pub open spec fn no_buckets() -> Map<u32, Seq<u64>> {
    Map::empty()
}

/// `DashMap::new` of dashmap: a map that holds no accumulator.
#[verifier::external_body]
fn buckets_new() -> (m: BucketMap)
    ensures
        buckets_held(m) == no_buckets(),
{
    DashMap::new()
}

/// `DashMap::get` of dashmap: a copy of the accumulator of the bucket
/// `index`, or `None` where the map holds none for it.
#[verifier::external_body]
fn buckets_get(m: &BucketMap, index: u32) -> (res: Option<Vec<u64>>)
    ensures
        match res {
            Some(v) => buckets_held(*m).contains_key(index) && v@ == buckets_held(*m)[index],
            None => !buckets_held(*m).contains_key(index),
        },
{
    m.get(&index).map(|r| r.value().clone())
}

/// `DashMap::insert` of dashmap: the map then holds `acc` for the bucket
/// `index`, in place of what it held for it, and all else as before.
#[verifier::external_body]
fn buckets_insert(m: &mut BucketMap, index: u32, acc: Vec<u64>)
    ensures
        buckets_held(*final(m)) == buckets_held(*old(m)).insert(index, acc@),
{
    m.insert(index, acc);
}

/// The accumulator `x` with the share `y` added entry by entry modulo `q`.
/// An accumulator of another length than the share counts as all zeros.
pub open spec fn spec_accumulate(x: Seq<u64>, y: Seq<u64>, q: u64) -> Seq<u64> {
    Seq::new(
        y.len(),
        |i: int|
            (((if x.len() == y.len() {
                x[i]
            } else {
                0
            }) + y[i]) % (q as int)) as u64,
    )
}

/// Adds the share `y` to the accumulator `x`, entry by entry modulo `q`.
pub fn accumulate(x: &Vec<u64>, y: &Vec<u64>, q: u64) -> (acc: Vec<u64>)
    requires
        q > 0,
    ensures
        acc@ == spec_accumulate(x@, y@, q),
{
    let same: bool = x.len() == y.len();
    let mut acc: Vec<u64> = Vec::new();
    let mut i: usize = 0;
    while i < y.len()
        invariant
            q > 0,
            i <= y@.len(),
            same == (x@.len() == y@.len()),
            acc@.len() == i,
            forall|k: int| 0 <= k < i ==> acc@[k] == spec_accumulate(x@, y@, q)[k],
        decreases y@.len() - i,
    {
        let old: u64 = if same { x[i] } else { 0 };
        acc.push(add_mod(old, y[i], q));
        i += 1;
    }
    proof {
        assert(acc@ =~= spec_accumulate(x@, y@, q));
    }
    acc
}

/// The accumulator after the shares `shares` were added in this order,
/// starting from nothing.
pub open spec fn accumulated(shares: Seq<Seq<u64>>, q: u64) -> Seq<u64>
    decreases shares.len(),
{
    if shares.len() == 0 {
        Seq::empty()
    } else {
        spec_accumulate(accumulated(shares.drop_last(), q), shares.last(), q)
    }
}

/// The sum of the entries number `j` of the shares `shares`.
pub open spec fn column_sum(shares: Seq<Seq<u64>>, j: int) -> int
    decreases shares.len(),
{
    if shares.len() == 0 {
        0
    } else {
        column_sum(shares.drop_last(), j) + shares.last()[j]
    }
}

/// Whether each of the shares has `n` entries.
pub open spec fn all_of_len(shares: Seq<Seq<u64>>, n: nat) -> bool {
    forall|i: int| 0 <= i < shares.len() ==> (#[trigger] shares[i]).len() == n
}

/// An accumulator holds the sum of the shares added to it: each entry is
/// the sum of the entries of the shares in its place, modulo `q`.
pub proof fn lemma_accumulated_is_sum(shares: Seq<Seq<u64>>, q: u64, n: nat)
    requires
        q > 0,
        shares.len() > 0,
        all_of_len(shares, n),
    ensures
        accumulated(shares, q) == Seq::new(n, |j: int| (column_sum(shares, j) % (q as int)) as u64),
    decreases shares.len(),
{
    let last = shares.last();
    let before = shares.drop_last();
    let sums = Seq::new(n, |j: int| (column_sum(shares, j) % (q as int)) as u64);
    assert(last.len() == n);
    if before.len() == 0 {
        assert(accumulated(before, q) =~= Seq::<u64>::empty());
        assert forall|j: int| 0 <= j < n implies accumulated(shares, q)[j] == sums[j] by {
            assert(column_sum(before, j) == 0);
        }
    } else {
        assert(all_of_len(before, n)) by {
            assert forall|i: int| 0 <= i < before.len() implies (#[trigger] before[i]).len()
                == n by {
                assert(before[i] == shares[i]);
            }
        }
        lemma_accumulated_is_sum(before, q, n);
        assert forall|j: int| 0 <= j < n implies accumulated(shares, q)[j] == sums[j] by {
            let c = column_sum(before, j);
            vstd::arithmetic::div_mod::lemma_add_mod_noop(c, last[j] as int, q as int);
            vstd::arithmetic::div_mod::lemma_add_mod_noop_right(
                c % (q as int),
                last[j] as int,
                q as int,
            );
        }
    }
    assert(accumulated(shares, q) =~= sums);
}

/// Whether the shares `a` and `b` add up to `x` modulo `q`.
pub open spec fn adds_up(a: u64, b: u64, x: u64, q: u64) -> bool {
    (a + b) % (q as int) == (x as int) % (q as int)
}

/// Where the entries of the shares `s0` and `s1` add up, modulo `q`, to the
/// entries of `xs`, so do their sums.
pub proof fn lemma_column_sums_rejoin(
    s0: Seq<Seq<u64>>,
    s1: Seq<Seq<u64>>,
    xs: Seq<Seq<u64>>,
    q: u64,
    j: int,
)
    requires
        q > 0,
        s0.len() == xs.len(),
        s1.len() == xs.len(),
        forall|i: int| 0 <= i < xs.len() ==> #[trigger] adds_up(s0[i][j], s1[i][j], xs[i][j], q),
    ensures
        (column_sum(s0, j) + column_sum(s1, j)) % (q as int) == column_sum(xs, j) % (q as int),
    decreases xs.len(),
{
    if xs.len() > 0 {
        let m = q as int;
        let k = xs.len() - 1;
        assert forall|i: int| 0 <= i < xs.drop_last().len() implies #[trigger] adds_up(
            s0.drop_last()[i][j],
            s1.drop_last()[i][j],
            xs.drop_last()[i][j],
            q,
        ) by {
            assert(adds_up(s0[i][j], s1[i][j], xs[i][j], q));
        }
        lemma_column_sums_rejoin(s0.drop_last(), s1.drop_last(), xs.drop_last(), q, j);
        let a = column_sum(s0.drop_last(), j) + column_sum(s1.drop_last(), j);
        let b = column_sum(xs.drop_last(), j);
        assert(adds_up(s0[k][j], s1[k][j], xs[k][j], q));
        vstd::arithmetic::div_mod::lemma_add_mod_noop(a, s0[k][j] + s1[k][j], m);
        vstd::arithmetic::div_mod::lemma_add_mod_noop(b, xs[k][j] as int, m);
    }
}

/// Accumulator homomorphism: where each of two aggregators has added its
/// share of every accepted input to a bucket, and the two shares of an input
/// add up to the input modulo `q`, the two accumulators add up, entry by
/// entry modulo `q`, to the sum of the inputs.
pub proof fn lemma_accumulators_rejoin(
    s0: Seq<Seq<u64>>,
    s1: Seq<Seq<u64>>,
    xs: Seq<Seq<u64>>,
    q: u64,
    n: nat,
    j: int,
)
    requires
        q > 0,
        xs.len() > 0,
        s0.len() == xs.len(),
        s1.len() == xs.len(),
        all_of_len(s0, n),
        all_of_len(s1, n),
        all_of_len(xs, n),
        0 <= j < n,
        forall|i: int| 0 <= i < xs.len() ==> #[trigger] adds_up(s0[i][j], s1[i][j], xs[i][j], q),
    ensures
        (accumulated(s0, q)[j] + accumulated(s1, q)[j]) % (q as int) == column_sum(xs, j) % (
        q as int),
{
    lemma_accumulated_is_sum(s0, q, n);
    lemma_accumulated_is_sum(s1, q, n);
    lemma_column_sums_rejoin(s0, s1, xs, q, j);
    vstd::arithmetic::div_mod::lemma_add_mod_noop(column_sum(s0, j), column_sum(s1, j), q as int);
}

/// Where a request stands at an aggregator. A request that the aggregator
/// has not seen has no state.
#[derive(Debug, Clone, PartialEq)]
pub enum Request {
    /// The local answers to the queries are there; the verdict is open. The
    /// bucket and the input share wait for it.
    Queried { index: u32, x: Vec<u64>, res: QueryRes },
    /// The proof passed, and the input share was added to its bucket.
    Accepted,
    /// The proof did not pass, or the submission could not be read.
    Rejected,
}

/// What the state of a request holds.
pub enum RequestView {
    Queried { index: u32, x: Seq<u64>, res: QueryRes },
    Accepted,
    Rejected,
}

impl View for Request {
    type V = RequestView;

    open spec fn view(&self) -> RequestView {
        match self {
            Request::Queried { index, x, res } => RequestView::Queried {
                index: *index,
                x: x@,
                res: *res,
            },
            Request::Accepted => RequestView::Accepted,
            Request::Rejected => RequestView::Rejected,
        }
    }
}

/// A concurrent map from request id to the state of the request.
pub type RequestMap = DashMap<u128, Request>;

/// The states that a map holds, by request id.
pub uninterp spec fn requests_held(m: RequestMap) -> Map<u128, RequestView>;

/// No requests.
pub open spec fn no_requests() -> Map<u128, RequestView> {
    Map::empty()
}

/// `DashMap::new` of dashmap: a map that holds no request.
#[verifier::external_body]
fn requests_new() -> (m: RequestMap)
    ensures
        requests_held(m) == no_requests(),
{
    DashMap::new()
}

/// `DashMap::get` of dashmap: a copy of the state of the request `uuid`, or
/// `None` where the map holds none for it.
#[verifier::external_body]
fn requests_get(m: &RequestMap, uuid: u128) -> (res: Option<Request>)
    ensures
        match res {
            Some(r) => requests_held(*m).contains_key(uuid) && r@ == requests_held(*m)[uuid],
            None => !requests_held(*m).contains_key(uuid),
        },
{
    m.get(&uuid).map(|r| r.value().clone())
}

/// `DashMap::insert` of dashmap: the map then holds `state` for the request
/// `uuid`, in place of what it held for it, and all else as before.
#[verifier::external_body]
fn requests_insert(m: &mut RequestMap, uuid: u128, state: Request)
    ensures
        requests_held(*final(m)) == requests_held(*old(m)).insert(uuid, state@),
{
    m.insert(uuid, state);
}

/// The accumulators after the share `x` was added to the bucket `index`.
pub open spec fn spec_added(buckets: Map<u32, Seq<u64>>, index: u32, x: Seq<u64>, q: u64) -> Map<
    u32,
    Seq<u64>,
> {
    buckets.insert(
        index,
        spec_accumulate(
            if buckets.contains_key(index) {
                buckets[index]
            } else {
                Seq::empty()
            },
            x,
            q,
        ),
    )
}

/// The accepted shares after the share `x` was accepted for the bucket
/// `index`.
pub open spec fn spec_recorded(accepted: Map<u32, Seq<Seq<u64>>>, index: u32, x: Seq<u64>) -> Map<
    u32,
    Seq<Seq<u64>>,
> {
    accepted.insert(
        index,
        (if accepted.contains_key(index) {
            accepted[index]
        } else {
            Seq::empty()
        }).push(x),
    )
}

/// One aggregator: its verifier and queries, the state of every request it
/// has seen, and the accumulators of the input shares it has accepted.
pub struct AggregatorState {
    verifier: BitvectorVerifier,
    qs: QueryState,
    prime: u64,
    requests: RequestMap,
    accs: BucketMap,
    accepted: Ghost<Map<u32, Seq<Seq<u64>>>>,
}

impl AggregatorState {
    /// The state of every request seen, by request id.
    pub closed spec fn requests(&self) -> Map<u128, RequestView> {
        requests_held(self.requests)
    }

    /// The accumulators, by bucket index.
    pub closed spec fn buckets(&self) -> Map<u32, Seq<u64>> {
        buckets_held(self.accs)
    }

    /// The input shares accepted so far, by bucket index, in the order of
    /// their acceptance.
    pub closed spec fn accepted(&self) -> Map<u32, Seq<Seq<u64>>> {
        self.accepted@
    }

    /// The modulus of the field.
    pub closed spec fn modulus(&self) -> u64 {
        self.prime
    }

    /// The queries that submissions are asked.
    pub closed spec fn queries(&self) -> crate::flpcp::QueryStateView {
        self.qs@
    }

    /// The modulus is positive, the answers held for open requests are
    /// over it, and each bucket holds what the shares accepted for it
    /// accumulate to.
    pub closed spec fn wf(&self) -> bool {
        &&& self.prime > 0
        &&& forall|uuid: u128| #[trigger]
            self.requests().contains_key(uuid) ==> (self.requests()[uuid] matches RequestView::Queried {
                res,
                ..
            } ==> res.q == self.prime)
        &&& self.buckets().dom() == self.accepted().dom()
        &&& forall|index: u32| #[trigger]
            self.accepted().contains_key(index) ==> self.accepted()[index].len() > 0
                && self.buckets()[index] == accumulated(self.accepted()[index], self.prime)
    }

    /// Each bucket holds what the shares accepted for it accumulate to.
    pub proof fn lemma_buckets_accumulate(&self, index: u32)
        requires
            self.wf(),
        ensures
            self.modulus() > 0,
            self.buckets().contains_key(index) == self.accepted().contains_key(index),
            self.buckets().contains_key(index) ==> self.accepted()[index].len() > 0
                && self.buckets()[index] == accumulated(self.accepted()[index], self.modulus()),
    {
        assert(self.buckets().dom().contains(index) == self.accepted().dom().contains(index));
    }

    /// An aggregator that has seen no request and accepted no share.
    pub fn new(verifier: BitvectorVerifier, qs: QueryState, prime: u64) -> (state: AggregatorState)
        requires
            prime > 0,
        ensures
            state.wf(),
            state.modulus() == prime,
            state.queries() == qs@,
            state.requests() == no_requests(),
            state.buckets() == no_buckets(),
            state.accepted() == Map::<u32, Seq<Seq<u64>>>::empty(),
    {
        let state = AggregatorState {
            verifier,
            qs,
            prime,
            requests: requests_new(),
            accs: buckets_new(),
            accepted: Ghost(Map::empty()),
        };
        proof {
            assert(state.buckets().dom() =~= state.accepted().dom());
        }
        state
    }

    /// The state of the request `uuid`, where it was seen.
    pub fn request(&self, uuid: u128) -> (res: Option<Request>)
        ensures
            match res {
                Some(r) => self.requests().contains_key(uuid) && r@ == self.requests()[uuid],
                None => !self.requests().contains_key(uuid),
            },
    {
        requests_get(&self.requests, uuid)
    }

    /// The accumulator of the bucket `index`, where a share was accepted
    /// for it.
    pub fn bucket(&self, index: u32) -> (res: Option<Vec<u64>>)
        ensures
            match res {
                Some(v) => self.buckets().contains_key(index) && v@ == self.buckets()[index],
                None => !self.buckets().contains_key(index),
            },
    {
        buckets_get(&self.accs, index)
    }

    /// What a submission under the id `uuid` with the share `proof` leads
    /// to at an aggregator whose requests are `requests`: the answers to the
    /// queries, or the reason for which it is dropped.
    pub open spec fn spec_submit(&self, uuid: u128, proof: ProofView) -> Result<QueryRes, Error> {
        if self.requests().contains_key(uuid) {
            Err(Error::DuplicateUuid)
        } else if proof.q != self.modulus() {
            Err(Error::FieldMismatch)
        } else if !queries_fit(proof, self.queries()) {
            Err(Error::DimensionMismatch)
        } else {
            Ok(spec_queries(proof, self.queries()))
        }
    }

    /// The requests after a submission under the id `uuid` for the bucket
    /// `index` with the share `proof`: a repeated id changes nothing, a
    /// share that answers the queries is held until the verdict, and any
    /// other is rejected for good.
    pub open spec fn spec_submitted(&self, uuid: u128, index: u32, proof: ProofView) -> Map<
        u128,
        RequestView,
    > {
        match self.spec_submit(uuid, proof) {
            Ok(res) => self.requests().insert(uuid, RequestView::Queried { index, x: proof.x, res }),
            Err(Error::DuplicateUuid) => self.requests(),
            Err(_) => self.requests().insert(uuid, RequestView::Rejected),
        }
    }

    /// Takes in a share of a submission whose id is new and whose modulus
    /// is that of the aggregator.
    fn take_in(&mut self, uuid: u128, index: u32, proof: &Proof) -> (res: Result<QueryRes, Error>)
        requires
            old(self).wf(),
            !old(self).requests().contains_key(uuid),
            proof.q == old(self).modulus(),
        ensures
            final(self).wf(),
            final(self).modulus() == old(self).modulus(),
            final(self).queries() == old(self).queries(),
            final(self).buckets() == old(self).buckets(),
            final(self).accepted() == old(self).accepted(),
            res == old(self).spec_submit(uuid, proof@),
            final(self).requests() == old(self).spec_submitted(uuid, index, proof@),
    {
        match self.verifier.queries(proof, &self.qs) {
            Ok(res) => {
                let state = Request::Queried { index, x: copy_vec(&proof.x), res };
                requests_insert(&mut self.requests, uuid, state);
                Ok(res)
            },
            Err(e) => {
                requests_insert(&mut self.requests, uuid, Request::Rejected);
                Err(Error::DimensionMismatch)
            },
        }
    }

    /// Takes in the submission that carries its share in full, and answers
    /// the queries from it.
    ///
    /// Fails with `DuplicateUuid` where the request id was seen before,
    /// else with `FieldMismatch` where the share names another modulus than
    /// the aggregator, else with `DimensionMismatch` where the share is not
    /// as long as the queries.
    pub fn submit_full(&mut self, payload: &Payload) -> (res: Result<QueryRes, Error>)
        requires
            old(self).wf(),
        ensures
            final(self).wf(),
            final(self).modulus() == old(self).modulus(),
            final(self).queries() == old(self).queries(),
            final(self).buckets() == old(self).buckets(),
            final(self).accepted() == old(self).accepted(),
            res == old(self).spec_submit(payload.uuid, payload.proof@),
            final(self).requests() == old(self).spec_submitted(
                payload.uuid,
                payload.index,
                payload.proof@,
            ),
    {
        if requests_get(&self.requests, payload.uuid).is_some() {
            return Err(Error::DuplicateUuid);
        }
        if payload.proof.q != self.prime {
            requests_insert(&mut self.requests, payload.uuid, Request::Rejected);
            return Err(Error::FieldMismatch);
        }
        let proof = payload.proof.to_integer();
        self.take_in(payload.uuid, payload.index, &proof)
    }

    /// Takes in the submission that carries its share as a seed, expands
    /// the seed, and answers the queries from the share.
    ///
    /// Fails as `submit_full` does.
    pub fn submit_seed(&mut self, payload: &PayloadSeed) -> (res: Result<QueryRes, Error>)
        requires
            old(self).wf(),
        ensures
            final(self).wf(),
            final(self).modulus() == old(self).modulus(),
            final(self).queries() == old(self).queries(),
            final(self).buckets() == old(self).buckets(),
            final(self).accepted() == old(self).accepted(),
            res == old(self).spec_submit(payload.uuid, payload.proofseed.spec_share()),
            final(self).requests() == old(self).spec_submitted(
                payload.uuid,
                payload.index,
                payload.proofseed.spec_share(),
            ),
    {
        if requests_get(&self.requests, payload.uuid).is_some() {
            return Err(Error::DuplicateUuid);
        }
        if payload.proofseed.q != self.prime {
            requests_insert(&mut self.requests, payload.uuid, Request::Rejected);
            return Err(Error::FieldMismatch);
        }
        let proof = payload.proofseed.get_share();
        self.take_in(payload.uuid, payload.index, &proof)
    }

    /// The verdict on the request `uuid` at the aggregator that decides,
    /// given the answers `res` of the other aggregator: `None` while the
    /// local answers are not there, and else whether the two answers pass
    /// together. On a verdict the request is closed, and on acceptance the
    /// local input share is added to its bucket.
    ///
    /// Fails with `DuplicateUuid` where the request was closed before, and
    /// with `FieldMismatch` where the two answers name different moduli;
    /// the request is then rejected.
    pub fn check_proof(&mut self, uuid: u128, res: &QueryRes) -> (verdict: Result<
        Option<bool>,
        Error,
    >)
        requires
            old(self).wf(),
        ensures
            final(self).wf(),
            final(self).modulus() == old(self).modulus(),
            final(self).queries() == old(self).queries(),
            match old(self).spec_request(uuid) {
                None => verdict == Ok::<Option<bool>, Error>(None) && final(self).requests() == old(self).requests() && final(self).buckets() == old(self).buckets() && final(self).accepted() == old(self).accepted(),
                Some(RequestView::Queried { index, x, res: local }) => {
                    let accept = local.q == res.q && spec_decision(local, *res);
                    &&& verdict == (if local.q == res.q {
                        Ok::<Option<bool>, Error>(Some(accept))
                    } else {
                        Err::<Option<bool>, Error>(Error::FieldMismatch)
                    })
                    &&& final(self).requests() == old(self).requests().insert(
                        uuid,
                        if accept {
                            RequestView::Accepted
                        } else {
                            RequestView::Rejected
                        },
                    )
                    &&& final(self).buckets() == (if accept {
                        spec_added(old(self).buckets(), index, x, old(self).modulus())
                    } else {
                        old(self).buckets()
                    })
                    &&& final(self).accepted() == (if accept {
                        spec_recorded(old(self).accepted(), index, x)
                    } else {
                        old(self).accepted()
                    })
                },
                Some(_) => verdict == Err::<Option<bool>, Error>(Error::DuplicateUuid) && final(self).requests() == old(self).requests() && final(self).buckets() == old(self).buckets() && final(self).accepted() == old(self).accepted(),
            },
    {
        match requests_get(&self.requests, uuid) {
            None => Ok(None),
            Some(Request::Queried { index, x, res: local }) => {
                match self.verifier.decision(&local, res) {
                    Ok(accept) => {
                        self.settle(uuid, index, &x, accept);
                        Ok(Some(accept))
                    },
                    Err(e) => {
                        self.settle(uuid, index, &x, false);
                        Err(Error::FieldMismatch)
                    },
                }
            },
            Some(_) => Err(Error::DuplicateUuid),
        }
    }

    /// Closes the request `uuid` at the aggregator that does not decide,
    /// with the answer `answer` of the one that does, or `None` where no
    /// answer came. On acceptance the local input share is added to its
    /// bucket.
    ///
    /// Fails with `DuplicateUuid` where the request is not open, and with
    /// `RpcFailure` where no answer came; the request is then rejected.
    pub fn conclude(&mut self, uuid: u128, answer: Option<bool>) -> (verdict: Result<bool, Error>)
        requires
            old(self).wf(),
        ensures
            final(self).wf(),
            final(self).modulus() == old(self).modulus(),
            final(self).queries() == old(self).queries(),
            match old(self).spec_request(uuid) {
                Some(RequestView::Queried { index, x, res }) => {
                    let accept = answer == Some(true);
                    &&& verdict == (match answer {
                        Some(a) => Ok::<bool, Error>(a),
                        None => Err::<bool, Error>(Error::RpcFailure),
                    })
                    &&& final(self).requests() == old(self).requests().insert(
                        uuid,
                        if accept {
                            RequestView::Accepted
                        } else {
                            RequestView::Rejected
                        },
                    )
                    &&& final(self).buckets() == (if accept {
                        spec_added(old(self).buckets(), index, x, old(self).modulus())
                    } else {
                        old(self).buckets()
                    })
                    &&& final(self).accepted() == (if accept {
                        spec_recorded(old(self).accepted(), index, x)
                    } else {
                        old(self).accepted()
                    })
                },
                _ => verdict == Err::<bool, Error>(Error::DuplicateUuid) && final(self).requests()
                    == old(self).requests() && final(self).buckets() == old(self).buckets()
                    && final(self).accepted() == old(self).accepted(),
            },
    {
        match requests_get(&self.requests, uuid) {
            Some(Request::Queried { index, x, res }) => {
                match answer {
                    Some(accept) => {
                        self.settle(uuid, index, &x, accept);
                        Ok(accept)
                    },
                    None => {
                        self.settle(uuid, index, &x, false);
                        Err(Error::RpcFailure)
                    },
                }
            },
            _ => Err(Error::DuplicateUuid),
        }
    }

    /// The state of the request `uuid`, where it was seen.
    pub open spec fn spec_request(&self, uuid: u128) -> Option<RequestView> {
        if self.requests().contains_key(uuid) {
            Some(self.requests()[uuid])
        } else {
            None
        }
    }

    /// Closes the open request `uuid`: on acceptance its share `x` is added
    /// to the bucket `index`.
    fn settle(&mut self, uuid: u128, index: u32, x: &Vec<u64>, accept: bool)
        requires
            old(self).wf(),
        ensures
            final(self).wf(),
            final(self).modulus() == old(self).modulus(),
            final(self).queries() == old(self).queries(),
            final(self).requests() == old(self).requests().insert(
                uuid,
                if accept {
                    RequestView::Accepted
                } else {
                    RequestView::Rejected
                },
            ),
            final(self).buckets() == (if accept {
                spec_added(old(self).buckets(), index, x@, old(self).modulus())
            } else {
                old(self).buckets()
            }),
            final(self).accepted() == (if accept {
                spec_recorded(old(self).accepted(), index, x@)
            } else {
                old(self).accepted()
            }),
    {
        if accept {
            let before: Vec<u64> = match buckets_get(&self.accs, index) {
                Some(v) => v,
                None => Vec::new(),
            };
            let ghost shares = if self.accepted().contains_key(index) {
                self.accepted()[index]
            } else {
                Seq::empty()
            };
            proof {
                assert(self.buckets().dom().contains(index) == self.accepted().dom().contains(
                    index,
                ));
                assert(before@ == accumulated(shares, self.prime));
                assert(shares.push(x@).drop_last() =~= shares);
            }
            let after: Vec<u64> = accumulate(&before, x, self.prime);
            buckets_insert(&mut self.accs, index, after);
            self.accepted = Ghost(spec_recorded(self.accepted@, index, x@));
            requests_insert(&mut self.requests, uuid, Request::Accepted);
            proof {
                assert(self.buckets().dom() =~= self.accepted().dom());
            }
        } else {
            requests_insert(&mut self.requests, uuid, Request::Rejected);
        }
    }
}

} // verus!
