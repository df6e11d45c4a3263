//! Transaction records and their lifecycle states.

use crate::client::Client;
use vstd::prelude::*;

verus! {

/// The kind of a transaction record. It doubles as the state of the stored
/// transaction in the transition machine: a record arriving under an existing
/// (client, id) pair asks the stored transaction to move to the record's kind.
#[derive(Debug, Clone, Copy, PartialEq, Eq, Structural)]
pub enum TransactionType {
    Deposit,
    Withdrawal,
    Dispute,
    Resolve,
    Chargeback,
}

/// The effect a transaction currently has on its client's funds.
#[derive(Debug, Clone, Copy, PartialEq, Eq, Structural)]
pub enum TransactionState {
    Available,
    Held,
    Locked,
}

/// A transaction record. `amount` is a fixed-point number of ten-thousandths
/// (see [`crate::client::AMOUNT_LIMIT`]); it is required when a transaction is
/// first created and is immutable afterwards, so records that merely move an
/// existing transaction through its transitions may omit it.
#[derive(Debug, Clone, Copy, PartialEq, Eq, Structural)]
pub struct Transaction {
    pub transaction_type: TransactionType,
    pub client: Client,
    pub transaction_id: u32,
    pub amount: Option<i64>,
}

impl Default for Transaction {
    /// A deposit by client 1 under transaction id 10, with no amount.
    fn default() -> (r: Self)
        ensures
            r == (Transaction {
                transaction_type: TransactionType::Deposit,
                client: 1,
                transaction_id: 10,
                amount: None,
            }),
    {
        Transaction {
            transaction_type: TransactionType::Deposit,
            transaction_id: 10,
            client: 1,
            amount: None,
        }
    }
}

} // verus!
