//! Privacy-preserving aggregation of bit vectors: the arithmetic circuit of the
//! input predicate, additive secret sharing, the fully-linear proof system that
//! two aggregators check jointly, and the per-bucket accumulators.
//!
//! The protocol is in `circuit`, `ss`, `flpcp`, `payload` and `aggregate`, on
//! top of the arithmetic in `field`, `poly`, `ntt` and `interpolate`, the
//! seeded generator in `rng`, the byte encodings in `wire` and the envelopes in
//! `hpke`. The modules `sums`, `dft`, `unique`, `lagrange`, `prime`,
//! `complete` and `sound` hold the algebra that shows the protocol right:
//! that interpolation takes the given values, that the queries read the
//! polynomials of the prover, that inputs that are bits are always accepted,
//! and what an accepted proof says of its inputs.

pub mod aggregate;
pub mod circuit;
pub mod complete;
pub mod config;
pub mod dft;
pub mod error;
pub mod field;
pub mod flpcp;
pub mod hpke;
pub mod interpolate;
pub mod lagrange;
pub mod ntt;
pub mod payload;
pub mod poly;
pub mod prime;
pub mod rng;
pub mod sound;
pub mod ss;
pub mod sums;
pub mod unique;
pub mod utils;
pub mod wire;
