//! Ledger-wide laws, proved once and for all over the pure step function
//! `spec_add_transaction`.

use crate::account_service::errors::Error;
use crate::account_service::{
    empty_ledger, spec_add_transaction, spec_can_transition, spec_merge_transaction, Ledger,
};
use crate::client::{amount_in_range, Client, ClientPosition, AMOUNT_LIMIT};
use crate::storage::errors::{Data, Error as StorageError};
use crate::transaction::{Transaction, TransactionType};
use vstd::prelude::*;

verus! {

/// The deposit record the laws below reason about.
pub open spec fn deposit_record(client: Client, id: u32, amount: i64) -> Transaction {
    Transaction {
        transaction_type: TransactionType::Deposit,
        client,
        transaction_id: id,
        amount: Some(amount),
    }
}

/// The same record asking for another transition of the same transaction.
pub open spec fn follow_up_record(t: Transaction, tt: TransactionType) -> Transaction {
    Transaction { transaction_type: tt, ..t }
}

/// Depositing, disputing and then resolving one transaction on a fresh
/// ledger succeeds at every step and releases the disputed funds: the
/// client ends with the full amount available, nothing held, and no lock.
pub proof fn lemma_deposit_dispute_resolve(client: Client, id: u32, amount: i64)
    requires
        amount_in_range(amount as int),
    ensures
        ({
            let deposit = deposit_record(client, id, amount);
            let dispute = follow_up_record(deposit, TransactionType::Dispute);
            let resolve = follow_up_record(deposit, TransactionType::Resolve);
            let (l1, r1) = spec_add_transaction(empty_ledger(), deposit);
            let (l2, r2) = spec_add_transaction(l1, dispute);
            let (l3, r3) = spec_add_transaction(l2, resolve);
            r1 is Ok && r2 is Ok && r3 is Ok && l3.positions == map![
                client => ClientPosition { client, total: amount, available: amount, held: 0, locked: false },
            ]
        }),
{
    let deposit = deposit_record(client, id, amount);
    let dispute = follow_up_record(deposit, TransactionType::Dispute);
    let resolve = follow_up_record(deposit, TransactionType::Resolve);
    let (l1, r1) = spec_add_transaction(empty_ledger(), deposit);
    let p1 = ClientPosition { client, total: amount, available: amount, held: 0, locked: false };
    assert(l1.positions =~= map![client => p1]);
    let (l2, r2) = spec_add_transaction(l1, dispute);
    let p2 = ClientPosition { client, total: amount, available: 0, held: amount, locked: false };
    assert(l2.positions =~= map![client => p2]);
    let (l3, r3) = spec_add_transaction(l2, resolve);
    assert(l3.positions =~= map![client => p1]);
}

/// Depositing, disputing and then charging back one transaction on a fresh
/// ledger succeeds at every step, removes the funds entirely and locks the
/// account; from then on, every transaction of that client — whatever its
/// kind — is rejected with `AccountLocked`, and the ledger stays as it is.
pub proof fn lemma_deposit_dispute_chargeback(client: Client, id: u32, amount: i64)
    requires
        amount_in_range(amount as int),
    ensures
        ({
            let deposit = deposit_record(client, id, amount);
            let dispute = follow_up_record(deposit, TransactionType::Dispute);
            let chargeback = follow_up_record(deposit, TransactionType::Chargeback);
            let (l1, r1) = spec_add_transaction(empty_ledger(), deposit);
            let (l2, r2) = spec_add_transaction(l1, dispute);
            let (l3, r3) = spec_add_transaction(l2, chargeback);
            r1 is Ok && r2 is Ok && r3 is Ok && l3.positions == map![
                client => ClientPosition { client, total: 0, available: 0, held: 0, locked: true },
            ] && forall|t: Transaction|
                t.client == client ==> #[trigger] spec_add_transaction(l3, t) == (
                    l3,
                    Err::<Transaction, Error>(Error::AccountLocked),
                )
        }),
{
    let deposit = deposit_record(client, id, amount);
    let dispute = follow_up_record(deposit, TransactionType::Dispute);
    let chargeback = follow_up_record(deposit, TransactionType::Chargeback);
    let (l1, r1) = spec_add_transaction(empty_ledger(), deposit);
    let p1 = ClientPosition { client, total: amount, available: amount, held: 0, locked: false };
    assert(l1.positions =~= map![client => p1]);
    let (l2, r2) = spec_add_transaction(l1, dispute);
    let p2 = ClientPosition { client, total: amount, available: 0, held: amount, locked: false };
    assert(l2.positions =~= map![client => p2]);
    let (l3, r3) = spec_add_transaction(l2, chargeback);
    let p3 = ClientPosition { client, total: 0, available: 0, held: 0, locked: true };
    assert(l3.positions =~= map![client => p3]);
    assert forall|t: Transaction| t.client == client implies #[trigger] spec_add_transaction(
        l3,
        t,
    ) == (l3, Err::<Transaction, Error>(Error::AccountLocked)) by {
        assert(l3.positions.contains_key(t.client) && l3.positions[t.client].locked);
    }
}

/// The ledger after `n` deposits of the same amount by one client, under
/// the distinct transaction ids `1..=n`.
pub open spec fn repeated_deposits(client: Client, amount: i64, n: u32) -> Ledger
    decreases n,
{
    if n == 0 {
        empty_ledger()
    } else {
        spec_add_transaction(
            repeated_deposits(client, amount, (n - 1) as u32),
            deposit_record(client, n, amount),
        ).0
    }
}

/// `n` identical deposits under distinct ids all succeed and add up: after
/// the `i`-th of them the client's position holds exactly `i` times the
/// amount, all of it available and none held — so in particular the running
/// total after each step is the step count times the amount.
pub proof fn lemma_repeated_deposits(client: Client, amount: i64, n: u32)
    requires
        0 <= amount,
        amount as int * n as int <= AMOUNT_LIMIT as int,
        1 <= n,
    ensures
        spec_add_transaction(
            repeated_deposits(client, amount, (n - 1) as u32),
            deposit_record(client, n, amount),
        ).1 == Ok::<Transaction, Error>(deposit_record(client, n, amount)),
        repeated_deposits(client, amount, n).positions == map![
            client => ClientPosition {
                client,
                total: (amount as int * n as int) as i64,
                available: (amount as int * n as int) as i64,
                held: 0,
                locked: false,
            },
        ],
        forall|id: u32|
            repeated_deposits(client, amount, n).txs.contains_key(id) <==> 1 <= id <= n,
    decreases n,
{
    let dep = deposit_record(client, n, amount);
    let prev = repeated_deposits(client, amount, (n - 1) as u32);
    assert(amount as int <= AMOUNT_LIMIT as int) by (nonlinear_arith)
        requires
            0 <= amount,
            1 <= n,
            amount as int * n as int <= AMOUNT_LIMIT as int,
    ;
    if n == 1 {
        assert(prev == empty_ledger());
        assert(amount as int * n as int == amount as int) by (nonlinear_arith)
            requires
                n == 1,
        ;
        let p1 = ClientPosition {
            client,
            total: amount,
            available: amount,
            held: 0,
            locked: false,
        };
        assert(repeated_deposits(client, amount, 1).positions =~= map![client => p1]);
        assert forall|id: u32|
            repeated_deposits(client, amount, 1).txs.contains_key(id) <==> 1 <= id <= 1 by {
            assert(repeated_deposits(client, amount, 1).txs =~= empty_ledger().txs.insert(1, dep));
        }
    } else {
        assert(amount as int * (n - 1) as int <= amount as int * n as int) by (nonlinear_arith)
            requires
                0 <= amount,
                1 <= n,
        ;
        lemma_repeated_deposits(client, amount, (n - 1) as u32);
        let before = (amount as int * (n - 1) as int) as i64;
        let after = (amount as int * n as int) as i64;
        assert(amount as int * (n - 1) as int + amount as int == amount as int * n as int)
            by (nonlinear_arith);
        assert(0 <= amount as int * (n - 1) as int) by (nonlinear_arith)
            requires
                0 <= amount,
                1 <= n,
        ;
        assert(!prev.txs.contains_key(n));
        let pn = ClientPosition { client, total: after, available: after, held: 0, locked: false };
        assert(repeated_deposits(client, amount, n).positions =~= map![client => pn]);
        assert forall|id: u32|
            repeated_deposits(client, amount, n).txs.contains_key(id) <==> 1 <= id <= n by {
            assert(repeated_deposits(client, amount, n).txs =~= prev.txs.insert(n, dep));
        }
    }
}

/// A position balances when its total is exactly its available plus its
/// held funds, with no rounding drift: the fields are fixed-point integers.
pub open spec fn balanced(p: ClientPosition) -> bool {
    p.total as int == p.available as int + p.held as int
}

/// Every ledger step keeps every client's position balanced: whatever one
/// `add_transaction` does — create, merge, reject — each stored position
/// still satisfies `total == available + held` exactly.
pub proof fn lemma_step_keeps_positions_balanced(l: Ledger, t: Transaction)
    requires
        forall|cl: u16| #[trigger] l.positions.contains_key(cl) ==> balanced(l.positions[cl]),
        t.amount matches Some(a) ==> amount_in_range(a as int),
        forall|id: u32| #[trigger]
            l.txs.contains_key(id) ==> (l.txs[id].amount matches Some(a) ==> amount_in_range(
                a as int,
            )),
    ensures
        forall|cl: u16| #[trigger]
            spec_add_transaction(l, t).0.positions.contains_key(cl) ==> balanced(
                spec_add_transaction(l, t).0.positions[cl],
            ),
{
}

/// The whole transition graph of the transaction state machine: a stored
/// withdrawal, resolve or chargeback never accepts a further transition, a
/// deposit accepts exactly a dispute, and a dispute accepts exactly a
/// resolve or a chargeback.
pub proof fn lemma_transition_graph(old_type: TransactionType, new_type: TransactionType)
    ensures
        (old_type is Withdrawal || old_type is Resolve || old_type is Chargeback)
            ==> !spec_can_transition(old_type, new_type),
        old_type is Deposit ==> (spec_can_transition(old_type, new_type) <==> new_type is Dispute),
        old_type is Dispute ==> (spec_can_transition(old_type, new_type) <==> (
        new_type is Resolve || new_type is Chargeback)),
{
}

/// Once a dispute settles — by a resolve or a chargeback — the stored
/// transaction is terminal: without an intervening dispute, no later record
/// for the same (client, id) can merge again.
pub proof fn lemma_settled_transaction_terminal(
    old_t: Transaction,
    new_t: Transaction,
    later: Transaction,
)
    requires
        spec_merge_transaction(old_t, new_t) is Ok,
        new_t.transaction_type is Resolve || new_t.transaction_type is Chargeback,
    ensures
        spec_merge_transaction(spec_merge_transaction(old_t, new_t)->Ok_0, later) is Err,
{
}

/// A record for a transaction whose stored kind is terminal — withdrawal,
/// resolve or chargeback — is rejected with `InvalidTransition`, whatever
/// the record asks for, and the ledger stays as it is. (The submitting
/// client's account must not be locked: a locked account is rejected with
/// `AccountLocked` before the transition is even looked at.)
pub proof fn lemma_terminal_type_rejected(l: Ledger, t: Transaction)
    requires
        l.txs.contains_key(t.transaction_id),
        l.txs[t.transaction_id].client == t.client,
        l.txs[t.transaction_id].transaction_type is Withdrawal
            || l.txs[t.transaction_id].transaction_type is Resolve
            || l.txs[t.transaction_id].transaction_type is Chargeback,
        l.positions.contains_key(t.client) ==> !l.positions[t.client].locked,
    ensures
        spec_add_transaction(l, t) == (
            l,
            Err::<Transaction, Error>(
                Error::Storage(
                    StorageError::Data(
                        Data::InvalidTransition(
                            l.txs[t.transaction_id].transaction_type,
                            t.transaction_type,
                        ),
                    ),
                ),
            ),
        ),
{
}

/// A record reusing an existing transaction id from a different client is
/// rejected with `TransactionNotFoundForClient` instead of being merged
/// across clients, and the ledger stays as it is.
pub proof fn lemma_cross_client_rejected(l: Ledger, t: Transaction)
    requires
        l.txs.contains_key(t.transaction_id),
        l.txs[t.transaction_id].client != t.client,
        l.positions.contains_key(t.client) ==> !l.positions[t.client].locked,
    ensures
        spec_add_transaction(l, t) == (
            l,
            Err::<Transaction, Error>(
                Error::Storage(
                    StorageError::Data(Data::TransactionNotFoundForClient(t.client)),
                ),
            ),
        ),
{
}

} // verus!
