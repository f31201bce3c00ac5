//! A single-node, hash-linked ledger: proof-of-work-sealed blocks persisted
//! in an embedded key-value store, with traversal in both directions and
//! derivation of the unspent-output set from the transaction history.

pub mod block;
pub mod clock;
pub mod chain;
pub mod codec;
pub mod digest;
pub mod errors;
pub mod kv;
pub mod transactions;
pub mod utxo;
