//! The failures that the protocol engine reports to its caller.

use vstd::prelude::*;

verus! {

/// Why an operation of the engine did not produce a value.
#[derive(Debug, Clone, Copy, PartialEq, Eq, Structural)]
pub enum Error {
    /// Bytes that do not decode to the expected value.
    MalformedPayload,
    /// Two values that belong together name different moduli.
    FieldMismatch,
    /// A query and a proof, or a circuit and its inputs, differ in length.
    DimensionMismatch,
    /// No challenge outside the interpolation points was found.
    InvalidChallenge,
    /// A value that had to be inverted has no inverse.
    NonInvertible,
    /// A request id that was seen before.
    DuplicateUuid,
    /// The peer aggregator did not answer.
    RpcFailure,
}

} // verus!
