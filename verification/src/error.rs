//! The exhaustive error taxonomy of the reconciliation core.

use vstd::prelude::*;

verus! {

/// Every failure the core can report, as a tagged kind rather than a string.
///
/// - `ProtocolViolation`: a malformed or oversized message, or incompatible
///   summary parameters; the session fails and the peer is penalized.
/// - `Undecodable`: a difference summary could not be decoded; the caller
///   retries with larger parameters or falls back to a full exchange.
/// - `Timeout`: a phase or item deadline elapsed.
/// - `StorageFailure`: the persistence collaborator failed; the item is kept
///   in memory and retried later.
/// - `ResourceExhausted`: a bandwidth or session-cap limit was reached; the
///   request is deferred, not failed.
#[derive(Clone, Copy, PartialEq, Eq, Structural, Debug)]
pub enum SyncError {
    ProtocolViolation,
    Undecodable,
    Timeout,
    StorageFailure,
    ResourceExhausted,
}

} // verus!
