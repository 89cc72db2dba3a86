//! The failure kinds a swap operation can surface.
//!
//! Every failure aborts the whole operation with no partial state change;
//! none is retried internally.

use vstd::prelude::*;

verus! {

/// Why an offer creation, settlement or transfer was rejected.
#[derive(Clone, Copy, PartialEq, Eq, Structural, Debug)]
pub enum SwapError {
    /// A transfer's source balance is less than the required amount.
    InsufficientFunds,
    /// An offer creation targets a derived address already occupied by a
    /// live record (the maker reused an id that is still outstanding).
    AddressCollision,
    /// A settlement's derived address does not resolve to a live record
    /// (already taken, or never existed).
    RecordNotFound,
    /// A supplied holding account's asset type does not match the expected
    /// asset type.
    AssetMismatch,
    /// A supplied identity does not match the record's stored maker, or a
    /// derivation completion value fails to reproduce the expected address.
    AuthorityMismatch,
}

impl SwapError {
    /// A short name for the failure, for callers that report it.
    pub fn describe(&self) -> String {
        match self {
            SwapError::InsufficientFunds => "insufficient funds".to_string(),
            SwapError::AddressCollision => "address collision".to_string(),
            SwapError::RecordNotFound => "record not found".to_string(),
            SwapError::AssetMismatch => "asset mismatch".to_string(),
            SwapError::AuthorityMismatch => "authority mismatch".to_string(),
        }
    }
}

} // verus!
