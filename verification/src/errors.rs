use vstd::prelude::*;

verus! {

/// Failure taxonomy of the chain store and of block construction.
#[derive(Debug, Clone, Copy, PartialEq, Eq, Structural)]
pub enum ChainError {
    /// The key-value engine reported a backend failure.
    StoreUnavailable,
    /// Stored bytes failed to decode into the expected entity, or a stored
    /// block contradicts its own digest.
    Corrupt,
    /// An expected pointer key (the tip) is absent.
    NotFound,
    /// The system clock was unavailable while stamping a new block.
    ClockError,
    /// The proof-of-work search exhausted the nonce range without finding a
    /// satisfying digest. Verified code cannot run past the end of the range,
    /// so exhaustion surfaces as an error instead.
    NonceExhausted,
    /// A coinbase transaction was requested with no recipient and no payload.
    InvalidCoinbase,
}

} // verus!
