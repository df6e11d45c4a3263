//! Errors raised by the ledger service.

use crate::storage;
use vstd::prelude::*;

verus! {

/// A failure of the ledger service.
#[derive(Debug)]
pub enum Error {
    /// A storage failure, surfaced to the caller unmodified.
    Storage(storage::errors::Error),
    /// The client's account is locked; a locked account rejects every new
    /// transaction, disputes and resolves included.
    AccountLocked,
    /// Declared as part of the error surface, but the current rules never
    /// reject an amount for its sign, so nothing produces it.
    AmountCannotBeNegative,
    /// Catch-all; raised when a record that creates a transaction carries no
    /// amount.
    Unknown,
}

} // verus!
