//! The failures that the pool and the miner report.

use vstd::prelude::*;

verus! {

/// Why an operation of the pool or of the miner failed.
#[derive(Clone, Copy, Debug, PartialEq, Eq, Structural)]
pub enum Error {
    /// The transaction's sequence number lies below its sender's on-chain
    /// sequence number.
    StaleSequence,
    /// The fee lies below the pool's minimum, or does not exceed the fee of the
    /// entry that already holds the same sender and sequence number.
    Underpriced,
    /// The sender is in the malicious set.
    SenderBanned,
    /// The pool is at its limit and the fee does not exceed that of the entry
    /// that would have to make room.
    PoolFull,
    /// No candidate block awaits a seal under the given hash.
    SealNotFound,
    /// The transaction could not be signed.
    AuthenticationFailed,
    /// The chain refused the sealed block.
    ChainImportFailed,
}

} // verus!
