//! What a deployment is configured with: the field, the input length, and
//! the parties with their addresses and keys.

use vstd::prelude::*;

verus! {

/// A mix-layer proxy.
#[derive(Debug, Clone)]
pub struct Proxy {
    pub ip: String,
    pub port: String,
    pub pubkey: String,
    pub privkey: String,
    pub identity: String,
    pub password: String,
}

/// An aggregator that forwards submissions to its followers.
#[derive(Debug, Clone)]
pub struct Aggregator {
    pub seed: u64,
    pub ip: String,
    pub port1: String,
    pub port2: String,
    pub pubkey: String,
    pub privkey: String,
    pub identity: String,
    pub password: String,
}

/// A follower, which checks proofs and keeps the accumulators.
#[derive(Debug, Clone)]
pub struct Follower {
    pub seed: u64,
    pub ip: String,
    pub port1: String,
    pub port2: String,
    pub pubkey: String,
    pub privkey: String,
    pub identity: String,
    pub password: String,
}

/// The configuration that all parties share.
#[derive(Debug, Clone)]
pub struct Config {
    pub root_cert: String,
    pub queries: String,
    pub input_len: u64,
    pub prime: u64,
    pub generator: u64,
    pub proxy: Vec<Proxy>,
    pub aggregator: Vec<Aggregator>,
    pub follower: Vec<Follower>,
}

} // verus!
