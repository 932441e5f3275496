//! A versioned state store: versioned values with cached digests, a stale
//! index over superseded records, chunked snapshot proofs, and the pruning
//! machinery that reclaims superseded data behind a retention window.

pub mod hashing;
pub mod order;
pub mod state_value;
pub mod store;
pub mod chunk;
pub mod pruner;
pub mod release;
pub mod storage;

use vstd::prelude::*;

verus! {

/// Errors surfaced by the versioned state store.
#[derive(Clone, Copy, Debug, PartialEq, Eq, Structural)]
pub enum StateStoreError {
    /// The key never existed at the requested version, or was pruned past.
    NotFound,
    /// The requested version lies below the pruned frontier.
    VersionUnavailable,
    /// A write attempted to reuse an already committed version.
    DuplicateVersion,
    /// A chunk's range proof does not verify against its root hash.
    ProofVerificationFailed,
    /// The underlying engine failed to durably commit a pruning batch.
    BatchCommitFailed,
}

} // verus!
