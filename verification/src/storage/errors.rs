//! Errors raised by the sharded store.

use crate::client::Client;
use crate::transaction::TransactionType;
use vstd::prelude::*;

verus! {

/// Any failure of the store: either the engine could not be opened at all, or
/// an operation on stored data failed.
#[derive(Debug)]
pub enum Error {
    OpeningStorage(OpeningStorage),
    Data(Data),
}

/// The storage engine failed to initialize; fatal at startup.
#[derive(Debug)]
pub struct OpeningStorage {
    pub message: String,
}

/// A failure while operating on stored data.
#[derive(Debug)]
pub enum Data {
    /// The underlying engine failed; the message describes the attempted
    /// operation.
    Sled(String),
    /// A compare-and-swap write lost a race with a concurrent writer; the
    /// caller may retry.
    Conflict,
    /// The stored bytes are corrupt or of an incompatible shape.
    Serialization,
    /// No entity is stored under the given primary key.
    KeyNotFound(String),
    /// A record arrived under an existing transaction id that belongs to a
    /// different client; transactions are scoped per client.
    TransactionNotFoundForClient(Client),
    /// A record asked a stored transaction to move along an edge the
    /// transition graph does not have (old kind, requested kind).
    InvalidTransition(TransactionType, TransactionType),
    /// Folding a delta into a position left the fixed-point range of an
    /// `i64`; the stored position is left unchanged.
    AmountOverflow,
}

} // verus!
