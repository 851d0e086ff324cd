//! Errors of the account tree and of the action applier.

use vstd::prelude::*;

verus! {

/// Structural misuse of the tree. Financial oddities (negative amounts,
/// zero weights) are not errors; only using the wrong kind of node for an
/// operation is.
#[derive(Debug)]
pub enum AcctError {
    /// The named parent (or deposit/withdraw target) does not exist.
    ParentNotFound(Vec<u8>),
    /// The named account does not exist anywhere below the search root.
    AccountNotFound(Vec<u8>),
    /// A child cannot be added to a leaf.
    NotABranch,
    /// Withdrawals are only valid against leaves.
    InvalidWithdrawTarget,
    /// Two trees being differenced disagree on a node's kind.
    TypeMismatch,
}

impl AcctError {
    /// A short description, for display by callers outside the library.
    pub fn describe(&self) -> (r: &'static str) {
        match self {
            AcctError::ParentNotFound(_) => "could not find the named parent account",
            AcctError::AccountNotFound(_) => "could not find the named account",
            AcctError::NotABranch => "cannot add a child to a leaf account",
            AcctError::InvalidWithdrawTarget => "cannot withdraw from a branch node",
            AcctError::TypeMismatch => "tried to diff accounts of different types",
        }
    }
}

} // verus!
