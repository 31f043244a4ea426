//! Error types of the ledger's mutating operations.

use vstd::prelude::*;

verus! {

/// Appending a block failed.
#[derive(Debug, Clone, Copy, PartialEq, Eq)]
pub struct BlockError;

impl BlockError {
    /// The human-readable reason.
    pub fn description(&self) -> (r: &'static str)
        ensures
            r@ == "Cannot add block"@,
    {
        proof { reveal_strlit("Cannot add block"); }
        "Cannot add block"
    }
}

/// Staging a transaction failed.
#[derive(Debug, Clone, Copy, PartialEq, Eq)]
pub struct TransactionError;

impl TransactionError {
    /// The human-readable reason.
    pub fn description(&self) -> (r: &'static str)
        ensures
            r@ == "Cannot add transaction"@,
    {
        proof { reveal_strlit("Cannot add transaction"); }
        "Cannot add transaction"
    }
}

} // verus!
