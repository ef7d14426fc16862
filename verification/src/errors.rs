//! Error taxonomy of the ledger core.
//!
//! Every error here is a recoverable, synchronous result handed back to the
//! immediate caller; only `KeyGenerationFailure` must be treated as fatal by
//! the process that receives it.

use vstd::prelude::*;

verus! {

/// Errors returned by the ledger core.
#[derive(Clone, Copy, Debug, PartialEq, Eq, Structural)]
pub enum LedgerError {
    /// The transaction cannot be admitted: a parent is missing, an ancestor is
    /// invalid or revoked, the ancestry loops back on itself, the signature
    /// does not verify, or the id is already present in the graph.
    ValidationFailed,
    /// Quorum was not reached: `votes` acceptances were counted where
    /// `required` were needed.
    ConsensusRejected { votes: usize, required: usize },
    /// The transaction id is not present in the graph.
    NotFound,
    /// The transaction carries a contract whose handler name is not
    /// registered.
    UnsupportedContract,
    /// The built-in transfer handler rejected the transaction's amount.
    InvalidTransfer,
    /// The secure random source was unavailable. Callers must treat this as
    /// fatal and abort startup rather than continue with degraded key
    /// material.
    KeyGenerationFailure,
}

/// Errors returned by the token balance ledger.
#[derive(Clone, Copy, Debug, PartialEq, Eq, Structural)]
pub enum TokenError {
    /// The named account holds no balance entry.
    AccountNotFound,
    /// The account's balance is smaller than the requested amount.
    InsufficientBalance,
}

} // verus!
