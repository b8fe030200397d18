use vstd::prelude::*;

verus! {

/// Errors raised while parsing or validating the wire form of a RingCT
/// bundle or a persisted decoy record. Malformed bytes are fatal to the
/// current parse and are never retried.
#[derive(Clone, Copy, PartialEq, Eq, Debug, Structural)]
pub enum CodecError {
    /// The input ended before the field being read was complete.
    ShortRead,
    /// The leading era byte is not one of the seven known values.
    UnknownEra,
    /// An era that carries an aggregated range proof was paired with zero
    /// outputs, which no canonical layout permits.
    ZeroOutputsWithRangeProof,
    /// A proof-bearing payload was requested for a transaction with no
    /// inputs.
    NoInputs,
    /// The bulletproof-count field did not hold the mandatory value one.
    WrongBulletproofCount,
    /// A variable-length integer was not in canonical form or exceeded the
    /// 64-bit range.
    MalformedVarint,
    /// A 32-byte field that must hold a compressed curve point did not
    /// decode as one.
    InvalidPoint,
}

/// Errors raised by decoy selection. Transport failures of the external data
/// source are the caller's own error type and abort selection before these
/// checks run.
#[derive(Clone, Copy, PartialEq, Eq, Debug, Structural)]
pub enum DecoyError {
    /// The chain does not hold enough mature outputs to build the requested
    /// rings, detected before any sampling occurs.
    InsufficientDecoyCandidates,
    /// Decoys were requested at a height the data source has not yet
    /// finalized.
    HeightNotFinalized,
    /// A bounded driver gave up before the rings were filled; production
    /// drivers retry instead, since retries are privacy-neutral.
    SelectionDidNotConverge,
}

} // verus!
