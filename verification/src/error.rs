use vstd::prelude::*;

verus! {

/// Why a synchronization attempt was aborted.
///
/// Every failure of the engine is classified as one of these; the caller
/// decides whether to retry, and already-persisted positions and notes stay
/// valid for the next attempt.
#[derive(Clone, Copy, Debug, PartialEq, Eq, Structural)]
pub enum SyncError {
    /// The connection to the remote node, or the byte stream it serves,
    /// failed.
    Transport,
    /// A record or a remote response could not be decoded, or a request
    /// payload could not be encoded.
    Deserialization,
    /// The local cache store failed to read or write.
    Storage,
    /// A nullifier that reconciliation tried to migrate was absent from the
    /// live partition: an invariant of the cache was violated.
    NotFound,
}

} // verus!
