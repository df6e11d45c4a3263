//! The ledger service: validates transaction transitions, folds transaction
//! effects into per-client positions, and keeps both in the sharded store.
//!
//! The service's whole state lives in the store; `ledger_of` reads it back
//! abstractly as two maps — transactions by id and positions by client — and
//! `spec_add_transaction` is the pure step function every successful or
//! rejected call is proved to follow.

pub mod errors;

use crate::account_service::errors::Error;
use crate::client::{amount_in_range, Client, ClientPosition};
use crate::storage::entities::{
    lemma_pos_key_injective, lemma_pos_prefix_not_of_tx_key, lemma_pos_prefix_of_pos_key,
    lemma_pos_key_distinct, lemma_pos_roundtrip, lemma_tx_key_distinct, lemma_tx_key_injective,
    lemma_tx_pos_keys_distinct, lemma_tx_roundtrip,
    pos_bytes, pos_decode, pos_key, pos_prefix, tx_bytes, tx_decode, tx_key,
};
use crate::storage::errors::{Data, Error as StorageError};
use crate::storage::sled::{
    cou_engine_failed, cou_rejected, entity_address, list_witness, matching_keys_below,
    store_contents, store_shard_count, Sled,
};
use crate::storage::{FromStorage, MergeResolver, ToFromStorage};
use crate::transaction::{Transaction, TransactionType};
use vstd::prelude::*;

verus! {

/// Which transition edges the transaction state machine has: a deposit may
/// be disputed; a dispute may be resolved or charged back; withdrawals,
/// resolves and chargebacks are terminal.
pub open spec fn spec_can_transition(old_type: TransactionType, new_type: TransactionType) -> bool {
    match old_type {
        TransactionType::Deposit => new_type is Dispute,
        TransactionType::Withdrawal => false,
        TransactionType::Dispute => new_type is Resolve || new_type is Chargeback,
        TransactionType::Resolve => false,
        TransactionType::Chargeback => false,
    }
}

/// What merging an incoming transaction record into the stored one returns:
/// the record must belong to the stored transaction's client and ask for an
/// allowed transition; the merged transaction then keeps every stored field
/// but the type.
pub open spec fn spec_merge_transaction(old_t: Transaction, new_t: Transaction) -> Result<
    Transaction,
    Data,
> {
    if old_t.client != new_t.client {
        Err(Data::TransactionNotFoundForClient(new_t.client))
    } else if !spec_can_transition(old_t.transaction_type, new_t.transaction_type) {
        Err(Data::InvalidTransition(old_t.transaction_type, new_t.transaction_type))
    } else {
        Ok(Transaction { transaction_type: new_t.transaction_type, ..old_t })
    }
}

/// What merging a position delta into the stored position returns: the
/// monetary fields add, the lock flag is overwritten; the only failure is
/// a sum leaving the `i64` range.
pub open spec fn spec_merge_client_position(old_p: ClientPosition, new_p: ClientPosition) -> Result<
    ClientPosition,
    Data,
> {
    if i64::MIN <= old_p.total + new_p.total <= i64::MAX && i64::MIN <= old_p.available
        + new_p.available <= i64::MAX && i64::MIN <= old_p.held + new_p.held <= i64::MAX {
        Ok(
            ClientPosition {
                client: old_p.client,
                total: (old_p.total + new_p.total) as i64,
                available: (old_p.available + new_p.available) as i64,
                held: (old_p.held + new_p.held) as i64,
                locked: new_p.locked,
            },
        )
    } else {
        Err(Data::AmountOverflow)
    }
}

/// The incremental effect of one transaction on its client's position,
/// meaningful when the transaction carries an amount in range: the type
/// picks which bucket the amount lands in, held funds are taken out of
/// available funds, and the delta's total keeps `total == available + held`.
pub open spec fn spec_position_delta(t: Transaction) -> ClientPosition {
    let a = t.amount->0 as int;
    let available0: int = match t.transaction_type {
        TransactionType::Deposit => a,
        TransactionType::Withdrawal => -a,
        TransactionType::Dispute => 0,
        TransactionType::Resolve => 0,
        TransactionType::Chargeback => -a,
    };
    let held: int = match t.transaction_type {
        TransactionType::Deposit => 0,
        TransactionType::Withdrawal => 0,
        TransactionType::Dispute => a,
        TransactionType::Resolve => -a,
        TransactionType::Chargeback => -a,
    };
    let locked = t.transaction_type is Chargeback;
    let available = available0 - held;
    ClientPosition {
        client: t.client,
        total: (held + available) as i64,
        available: available as i64,
        held: held as i64,
        locked,
    }
}

/// The ledger's abstract state: the stored transactions by id and the
/// stored positions by client.
#[verifier::ext_equal]
pub struct Ledger {
    pub txs: Map<u32, Transaction>,
    pub positions: Map<u16, ClientPosition>,
}

/// The ledger with nothing stored.
pub open spec fn empty_ledger() -> Ledger {
    Ledger { txs: Map::empty(), positions: Map::empty() }
}

/// Folds the (possibly merged) transaction `nt` into its client's position:
/// a missing position is created from the delta itself; an existing one has
/// the delta added. A transaction without an amount cannot be folded.
pub open spec fn spec_apply_delta(l: Ledger, nt: Transaction) -> (Ledger, Result<(), Error>) {
    if nt.amount is None {
        (l, Err(Error::Unknown))
    } else {
        let d = spec_position_delta(nt);
        if !l.positions.contains_key(nt.client) {
            (Ledger { txs: l.txs, positions: l.positions.insert(nt.client, d) }, Ok(()))
        } else {
            match spec_merge_client_position(l.positions[nt.client], d) {
                Ok(p) => (
                    Ledger { txs: l.txs, positions: l.positions.insert(nt.client, p) },
                    Ok(()),
                ),
                Err(e) => (l, Err(Error::Storage(StorageError::Data(e)))),
            }
        }
    }
}

/// The ledger's pure step function: what one `add_transaction` call does to
/// the abstract state and what it returns, barring storage-engine failures.
pub open spec fn spec_add_transaction(l: Ledger, t: Transaction) -> (Ledger, Result<
    Transaction,
    Error,
>) {
    if l.positions.contains_key(t.client) && l.positions[t.client].locked {
        (l, Err(Error::AccountLocked))
    } else if !l.txs.contains_key(t.transaction_id) {
        let l1 = Ledger { txs: l.txs.insert(t.transaction_id, t), positions: l.positions };
        let (l2, res) = spec_apply_delta(l1, t);
        (
            l2,
            match res {
                Ok(_) => Ok(t),
                Err(e) => Err(e),
            },
        )
    } else {
        match spec_merge_transaction(l.txs[t.transaction_id], t) {
            Ok(nt) => {
                let l1 = Ledger { txs: l.txs.insert(t.transaction_id, nt), positions: l.positions };
                let (l2, res) = spec_apply_delta(l1, nt);
                (
                    l2,
                    match res {
                        Ok(_) => Ok(nt),
                        Err(e) => Err(e),
                    },
                )
            },
            Err(e) => (l, Err(Error::Storage(StorageError::Data(e)))),
        }
    }
}

/// A stored transaction payload is well formed for id `id`: it decodes, it
/// carries that id, and its amount (if any) is in range.
pub open spec fn tx_entry_wf(b: Seq<u8>, id: u32) -> bool {
    &&& tx_decode(b) is Some
    &&& tx_decode(b)->0.transaction_id == id
    &&& (tx_decode(b)->0.amount matches Some(a) ==> amount_in_range(a as int))
}

/// A stored position payload is well formed for client `cl`: it decodes, it
/// belongs to that client, and its total is exactly available plus held.
pub open spec fn pos_entry_wf(b: Seq<u8>, cl: u16) -> bool {
    &&& pos_decode(b) is Some
    &&& pos_decode(b)->0.client == cl
    &&& pos_decode(b)->0.total as int == pos_decode(b)->0.available as int + pos_decode(
        b,
    )->0.held as int
}

/// The store holds a well-formed ledger: every key is a transaction key or
/// a position key sitting in its proper shard, and every payload is well
/// formed for its key.
pub open spec fn contents_wf(c: Map<(int, Seq<char>), Seq<u8>>, count: int) -> bool {
    &&& forall|k: (int, Seq<char>)|
        #[trigger] c.contains_key(k) ==> ((exists|id: u32| k == (id as int % count, #[trigger] tx_key(id)))
            || (exists|cl: u16| k == (cl as int % count, #[trigger] pos_key(cl))))
    &&& forall|id: u32|
        c.contains_key((id as int % count, #[trigger] tx_key(id))) ==> tx_entry_wf(
            c[(id as int % count, tx_key(id))],
            id,
        )
    &&& forall|cl: u16|
        c.contains_key((cl as int % count, #[trigger] pos_key(cl))) ==> pos_entry_wf(
            c[(cl as int % count, pos_key(cl))],
            cl,
        )
}

/// The abstract ledger a well-formed store holds.
pub open spec fn ledger_of(c: Map<(int, Seq<char>), Seq<u8>>, count: int) -> Ledger {
    Ledger {
        txs: Map::new(
            |id: u32| c.contains_key((id as int % count, tx_key(id))),
            |id: u32| tx_decode(c[(id as int % count, tx_key(id))])->0,
        ),
        positions: Map::new(
            |cl: u16| c.contains_key((cl as int % count, pos_key(cl))),
            |cl: u16| pos_decode(c[(cl as int % count, pos_key(cl))])->0,
        ),
    }
}

/// Inserting a well-formed transaction payload keeps the store well formed
/// and changes exactly the `txs` entry of its id.
pub proof fn lemma_wf_insert_tx(c: Map<(int, Seq<char>), Seq<u8>>, count: int, t: Transaction)
    requires
        0 < count,
        contents_wf(c, count),
        t.amount matches Some(a) ==> amount_in_range(a as int),
    ensures
        contents_wf(c.insert((t.transaction_id as int % count, tx_key(t.transaction_id)), tx_bytes(t)), count),
        ledger_of(c.insert((t.transaction_id as int % count, tx_key(t.transaction_id)), tx_bytes(t)), count)
            == (Ledger {
            txs: ledger_of(c, count).txs.insert(t.transaction_id, t),
            positions: ledger_of(c, count).positions,
        }),
{
    let id = t.transaction_id;
    let newk = (id as int % count, tx_key(id));
    let c2 = c.insert(newk, tx_bytes(t));
    lemma_tx_roundtrip(t);
    assert forall|k: (int, Seq<char>)| #[trigger] c2.contains_key(k) implies ((exists|id2: u32|
        k == (id2 as int % count, #[trigger] tx_key(id2))) || (exists|cl: u16|
        k == (cl as int % count, #[trigger] pos_key(cl)))) by {
        if k != newk {
            assert(c.contains_key(k));
        } else {
            assert(k == (id as int % count, tx_key(id)));
        }
    }
    assert forall|id2: u32| c2.contains_key(
        (id2 as int % count, #[trigger] tx_key(id2)),
    ) implies tx_entry_wf(c2[(id2 as int % count, tx_key(id2))], id2) by {
        if (id2 as int % count, tx_key(id2)) == newk {
            assert(((id2 as int % count, tx_key(id2))).1 == newk.1);
            assert(tx_key(id2) == tx_key(id));
            lemma_tx_key_injective(id2, id);
            assert(id2 == id);
        } else {
            assert(c.contains_key((id2 as int % count, tx_key(id2))));
        }
    }
    assert forall|cl: u16| c2.contains_key(
        (cl as int % count, #[trigger] pos_key(cl)),
    ) implies pos_entry_wf(c2[(cl as int % count, pos_key(cl))], cl) by {
        lemma_tx_pos_keys_distinct(id, cl);
        assert((cl as int % count, pos_key(cl)) != newk);
        assert(c.contains_key((cl as int % count, pos_key(cl))));
    }
    let l = ledger_of(c, count);
    let l2 = ledger_of(c2, count);
    assert(l2.txs =~= l.txs.insert(id, t)) by {
        assert forall|id2: u32| true implies (l2.txs.dom().contains(id2) == l.txs.insert(
            id,
            t,
        ).dom().contains(id2) && (l2.txs.dom().contains(id2) ==> l2.txs[id2] == l.txs.insert(
            id,
            t,
        )[id2])) by {
            if id2 == id {
                assert(c2.contains_key(newk));
                assert(c2[newk] == tx_bytes(t));
            } else {
                lemma_tx_key_distinct(id2, id);
                assert((id2 as int % count, tx_key(id2)) != newk);
            }
        }
    }
    assert(l2.positions =~= l.positions) by {
        assert forall|cl: u16| true implies (l2.positions.dom().contains(cl)
            == l.positions.dom().contains(cl) && (l2.positions.dom().contains(cl)
            ==> l2.positions[cl] == l.positions[cl])) by {
            lemma_tx_pos_keys_distinct(id, cl);
            assert((cl as int % count, pos_key(cl)) != newk);
        }
    }
    assert(l2 =~~= (Ledger { txs: l.txs.insert(id, t), positions: l.positions }));
}

/// Inserting a well-formed position payload keeps the store well formed and
/// changes exactly the `positions` entry of its client.
pub proof fn lemma_wf_insert_pos(c: Map<(int, Seq<char>), Seq<u8>>, count: int, p: ClientPosition)
    requires
        0 < count,
        contents_wf(c, count),
        p.total as int == p.available as int + p.held as int,
    ensures
        contents_wf(c.insert((p.client as int % count, pos_key(p.client)), pos_bytes(p)), count),
        ledger_of(c.insert((p.client as int % count, pos_key(p.client)), pos_bytes(p)), count)
            == (Ledger {
            txs: ledger_of(c, count).txs,
            positions: ledger_of(c, count).positions.insert(p.client, p),
        }),
{
    let cl0 = p.client;
    let newk = (cl0 as int % count, pos_key(cl0));
    let c2 = c.insert(newk, pos_bytes(p));
    lemma_pos_roundtrip(p);
    assert forall|k: (int, Seq<char>)| #[trigger] c2.contains_key(k) implies ((exists|id2: u32|
        k == (id2 as int % count, #[trigger] tx_key(id2))) || (exists|cl: u16|
        k == (cl as int % count, #[trigger] pos_key(cl)))) by {
        if k != newk {
            assert(c.contains_key(k));
        } else {
            assert(k == (cl0 as int % count, pos_key(cl0)));
        }
    }
    assert forall|id2: u32| c2.contains_key(
        (id2 as int % count, #[trigger] tx_key(id2)),
    ) implies tx_entry_wf(c2[(id2 as int % count, tx_key(id2))], id2) by {
        lemma_tx_pos_keys_distinct(id2, cl0);
        assert((id2 as int % count, tx_key(id2)) != newk);
        assert(c.contains_key((id2 as int % count, tx_key(id2))));
    }
    assert forall|cl: u16| c2.contains_key(
        (cl as int % count, #[trigger] pos_key(cl)),
    ) implies pos_entry_wf(c2[(cl as int % count, pos_key(cl))], cl) by {
        if (cl as int % count, pos_key(cl)) == newk {
            assert(((cl as int % count, pos_key(cl))).1 == newk.1);
            assert(pos_key(cl) == pos_key(cl0));
            lemma_pos_key_injective(cl, cl0);
            assert(cl == cl0);
        } else {
            assert(c.contains_key((cl as int % count, pos_key(cl))));
        }
    }
    let l = ledger_of(c, count);
    let l2 = ledger_of(c2, count);
    assert(l2.positions =~= l.positions.insert(cl0, p)) by {
        assert forall|cl: u16| true implies (l2.positions.dom().contains(cl) == l.positions.insert(
            cl0,
            p,
        ).dom().contains(cl) && (l2.positions.dom().contains(cl) ==> l2.positions[cl]
            == l.positions.insert(cl0, p)[cl])) by {
            if cl == cl0 {
                assert(c2.contains_key(newk));
                assert(c2[newk] == pos_bytes(p));
            } else {
                lemma_pos_key_distinct(cl, cl0);
                assert((cl as int % count, pos_key(cl)) != newk);
            }
        }
    }
    assert(l2.txs =~= l.txs) by {
        assert forall|id2: u32| true implies (l2.txs.dom().contains(id2) == l.txs.dom().contains(
            id2,
        ) && (l2.txs.dom().contains(id2) ==> l2.txs[id2] == l.txs[id2])) by {
            lemma_tx_pos_keys_distinct(id2, cl0);
            assert((id2 as int % count, tx_key(id2)) != newk);
        }
    }
    assert(l2 =~~= (Ledger { txs: l.txs, positions: l.positions.insert(cl0, p) }));
}

/// Merge resolver for transaction entities: the transition state machine.
pub struct TransactionMerger;

impl MergeResolver<Transaction> for TransactionMerger {
    open spec fn spec_merge(old_t: Transaction, new_t: Transaction) -> Result<Transaction, Data> {
        spec_merge_transaction(old_t, new_t)
    }

    fn merge(old_t: &Transaction, new_t: &Transaction) -> (r: Result<Transaction, Data>)
        ensures
            r == Self::spec_merge(*old_t, *new_t),
    {
        ServiceImpl::merge_transaction(old_t, new_t)
    }
}

/// Merge resolver for position entities: the additive fold.
pub struct ClientPositionMerger;

impl MergeResolver<ClientPosition> for ClientPositionMerger {
    open spec fn spec_merge(old_p: ClientPosition, new_p: ClientPosition) -> Result<
        ClientPosition,
        Data,
    > {
        spec_merge_client_position(old_p, new_p)
    }

    fn merge(old_p: &ClientPosition, new_p: &ClientPosition) -> (r: Result<ClientPosition, Data>)
        ensures
            r == Self::spec_merge(*old_p, *new_p),
    {
        ServiceImpl::merge_client_position(old_p, new_p)
    }
}

/// What `get_clients_positions` hands back: `cs` enumerates every client
/// with a stored position exactly once, in an order the contract leaves
/// open, and the result holds their positions in that order.
#[verifier::opaque]
pub open spec fn positions_listing(
    m: Map<u16, ClientPosition>,
    cs: Seq<u16>,
    out: Seq<ClientPosition>,
) -> bool {
    &&& cs.no_duplicates()
    &&& cs.to_set() == m.dom()
    &&& out.len() == cs.len()
    &&& forall|i: int|
        0 <= i < cs.len() ==> m.contains_key(#[trigger] cs[i]) && out[i] == m[cs[i]]
}

/// A storage-engine failure: the one outcome the pure step function does
/// not model, because the engine may fail at any point.
pub open spec fn engine_failure<A>(r: Result<A, Error>) -> bool {
    r matches Err(Error::Storage(StorageError::Data(Data::Sled(_))))
}

/// The two transaction maps agree on every id other than `id`.
pub open spec fn txs_agree_outside(
    m0: Map<u32, Transaction>,
    m1: Map<u32, Transaction>,
    id: u32,
) -> bool {
    forall|id2: u32|
        id2 != id ==> ((#[trigger] m0.contains_key(id2)) == m1.contains_key(id2) && (
        m0.contains_key(id2) ==> m0[id2] == m1[id2]))
}

/// The two position maps agree on every client other than `cl`.
pub open spec fn positions_agree_outside(
    m0: Map<u16, ClientPosition>,
    m1: Map<u16, ClientPosition>,
    cl: u16,
) -> bool {
    forall|cl2: u16|
        cl2 != cl ==> ((#[trigger] m0.contains_key(cl2)) == m1.contains_key(cl2) && (
        m0.contains_key(cl2) ==> m0[cl2] == m1[cl2]))
}

/// The two ledgers agree everywhere but the transaction entry of `id` and
/// the position entry of `cl` — the most one call may touch, even when the
/// engine fails midway: previously committed state is never corrupted.
pub open spec fn ledgers_agree_outside(l0: Ledger, l1: Ledger, id: u32, cl: u16) -> bool {
    &&& txs_agree_outside(l0.txs, l1.txs, id)
    &&& positions_agree_outside(l0.positions, l1.positions, cl)
}

/// Every locked position of `m0` is still present and locked in `m1`.
pub open spec fn locks_survive(m0: Map<u16, ClientPosition>, m1: Map<u16, ClientPosition>) -> bool {
    forall|cl: u16|
        (#[trigger] m0.contains_key(cl)) && m0[cl].locked ==> m1.contains_key(cl) && m1[cl].locked
}

/// Mimics an atomic read-modify-write a database could run natively, like
/// adding to a column in place.
pub struct Operation {
    pub total: i64,
    pub available: i64,
    pub held: i64,
    pub locked: i64,
}

/// The ledger service over the embedded sharded store.
pub struct ServiceImpl {
    storage: Sled,
}

impl ServiceImpl {
    /// The service's store is well formed: shards exist and every stored
    /// payload is a well-formed entity under its own key.
    pub closed spec fn wf(self) -> bool {
        &&& 0 < store_shard_count(self.storage)
        &&& contents_wf(store_contents(self.storage), store_shard_count(self.storage))
    }

    /// The abstract ledger this service currently holds.
    pub closed spec fn ledger(self) -> Ledger {
        ledger_of(store_contents(self.storage), store_shard_count(self.storage))
    }

    /// Opens a service over a fresh, empty store.
    pub fn with_sled() -> (r: Result<ServiceImpl, Error>)
        ensures
            r matches Ok(s) ==> s.wf() && s.ledger() == empty_ledger(),
    {
        let storage = match Sled::new() {
            Ok(s) => s,
            Err(e) => {
                return Err(Error::Storage(e));
            },
        };
        let service = ServiceImpl { storage };
        proof {
            assert(service.ledger().txs =~= empty_ledger().txs);
            assert(service.ledger().positions =~= empty_ledger().positions);
            assert(service.ledger() =~~= empty_ledger());
        }
        Ok(service)
    }

    /// Whether a stored transaction of kind `old_type` may move to
    /// `new_type`.
    pub fn can_transition(old_t: &Transaction, new_t: &Transaction) -> (r: bool)
        ensures
            r == spec_can_transition(old_t.transaction_type, new_t.transaction_type),
    {
        match old_t.transaction_type {
            TransactionType::Deposit => matches!(new_t.transaction_type, TransactionType::Dispute),
            TransactionType::Withdrawal => false,
            TransactionType::Dispute => matches!(
                new_t.transaction_type,
                TransactionType::Resolve | TransactionType::Chargeback
            ),
            TransactionType::Resolve => false,
            TransactionType::Chargeback => false,
        }
    }

    /// Merges an incoming transaction record into the stored transaction,
    /// validating client ownership and the transition graph.
    pub fn merge_transaction(old_t: &Transaction, new_t: &Transaction) -> (r: Result<
        Transaction,
        Data,
    >)
        ensures
            r == spec_merge_transaction(*old_t, *new_t),
    {
        if old_t.client != new_t.client {
            return Err(Data::TransactionNotFoundForClient(new_t.client));
        }
        if !Self::can_transition(old_t, new_t) {
            return Err(
                Data::InvalidTransition(old_t.transaction_type, new_t.transaction_type),
            );
        }
        let old_t = *old_t;
        Ok(Transaction { transaction_type: new_t.transaction_type, ..old_t })
    }

    /// Adds an incoming position delta onto the stored position.
    pub fn merge_client_position(old_p: &ClientPosition, new_p: &ClientPosition) -> (r: Result<
        ClientPosition,
        Data,
    >)
        ensures
            r == spec_merge_client_position(*old_p, *new_p),
    {
        let total = match old_p.total.checked_add(new_p.total) {
            Some(v) => v,
            None => {
                return Err(Data::AmountOverflow);
            },
        };
        let available = match old_p.available.checked_add(new_p.available) {
            Some(v) => v,
            None => {
                return Err(Data::AmountOverflow);
            },
        };
        let held = match old_p.held.checked_add(new_p.held) {
            Some(v) => v,
            None => {
                return Err(Data::AmountOverflow);
            },
        };
        Ok(
            ClientPosition {
                client: old_p.client,
                total,
                available,
                held,
                locked: new_p.locked,
            },
        )
    }

    /// Computes the position delta of the (possibly merged) transaction and
    /// folds it into the client's stored position through the store's
    /// create-or-update, mimicking an atomic in-place addition a database
    /// could run natively.
    fn update_client_position(&mut self, transaction: &Transaction) -> (r: Result<(), Error>)
        requires
            old(self).wf(),
            transaction.amount matches Some(a) ==> amount_in_range(a as int),
        ensures
            final(self).wf(),
            !engine_failure(r) ==> (final(self).ledger(), r) == spec_apply_delta(
                old(self).ledger(),
                *transaction,
            ),
            engine_failure(r) ==> final(self).ledger().txs == old(self).ledger().txs
                && positions_agree_outside(
                old(self).ledger().positions,
                final(self).ledger().positions,
                transaction.client,
            ),
    {
        let ghost c0 = store_contents(self.storage);
        let ghost count = store_shard_count(self.storage);
        let ghost l0 = self.ledger();
        let amount = match transaction.amount {
            Some(a) => a,
            None => {
                return Err(Error::Unknown);
            },
        };
        let mut client_position = ClientPosition { client: transaction.client, ..Default::default() };
        match transaction.transaction_type {
            TransactionType::Deposit => {
                client_position.available = amount;
            },
            TransactionType::Withdrawal => {
                client_position.available = -amount;
            },
            TransactionType::Dispute => {
                client_position.held = amount;
            },
            TransactionType::Resolve => {
                client_position.held = -amount;
            },
            TransactionType::Chargeback => {
                client_position.locked = true;
                client_position.held = -amount;
                client_position.available = -amount;
            },
        }
        client_position.available = client_position.available - client_position.held;
        client_position.total = client_position.total + client_position.held
            + client_position.available;
        proof {
            assert(client_position == spec_position_delta(*transaction));
            assert(client_position.total as int == client_position.available as int
                + client_position.held as int);
        }
        let result = self.storage.create_or_update::<ClientPosition, ClientPositionMerger>(
            &client_position,
        );
        proof {
            let d = client_position;
            let cl = transaction.client;
            let k = (cl as int % count, pos_key(cl));
            assert((d.spec_partition() % count, d.spec_key()) == k);
            let c2 = store_contents(self.storage);
            match &result {
                Ok(p) => {
                    if !c0.contains_key(k) {
                        lemma_wf_insert_pos(c0, count, d);
                        assert(!l0.positions.contains_key(cl));
                    } else {
                        assert(pos_entry_wf(c0[k], cl));
                        let old_p = pos_decode(c0[k])->0;
                        assert(l0.positions[cl] == old_p);
                        assert(spec_merge_client_position(old_p, d) is Ok);
                        let merged = spec_merge_client_position(old_p, d)->Ok_0;
                        assert(merged.client == cl);
                        assert(merged.total as int == merged.available as int
                            + merged.held as int);
                        lemma_wf_insert_pos(c0, count, merged);
                    }
                },
                Err(e) => {
                    let d0 = e->Data_0;
                    if cou_rejected::<ClientPosition, ClientPositionMerger>(
                        c0,
                        c2,
                        k,
                        d,
                        Err(d0),
                    ) {
                        assert(pos_entry_wf(c0[k], cl));
                        let old_p = pos_decode(c0[k])->0;
                        assert(l0.positions[cl] == old_p);
                        assert(d0 == Data::AmountOverflow);
                    } else {
                        assert(cou_engine_failed::<ClientPosition, ClientPositionMerger>(
                            c0,
                            c2,
                            k,
                            d,
                            Err(d0),
                        ));
                        if c2 == c0.insert(k, pos_bytes(d)) {
                            lemma_wf_insert_pos(c0, count, d);
                        } else if c2 != c0 {
                            assert(pos_entry_wf(c0[k], cl));
                            let old_p = pos_decode(c0[k])->0;
                            let merged = spec_merge_client_position(old_p, d)->Ok_0;
                            assert(merged.total as int == merged.available as int
                                + merged.held as int);
                            lemma_wf_insert_pos(c0, count, merged);
                        }
                    }
                },
            }
        }
        match result {
            Ok(_) => Ok(()),
            Err(e) => Err(Error::Storage(e)),
        }
    }

    /// Records one incoming transaction: a locked account rejects it
    /// outright; otherwise the transaction entity is created or merged under
    /// its id (validating the transition graph), and the resulting delta is
    /// folded into the client's position. Apart from storage-engine
    /// failures, the call and its effect on the stored ledger follow
    /// `spec_add_transaction` exactly; the store stays well formed in every
    /// outcome.
    pub fn add_transaction(&mut self, transaction: Transaction) -> (r: Result<Transaction, Error>)
        requires
            old(self).wf(),
            transaction.amount matches Some(a) ==> amount_in_range(a as int),
        ensures
            final(self).wf(),
            !engine_failure(r) ==> (final(self).ledger(), r) == spec_add_transaction(
                old(self).ledger(),
                transaction,
            ),
            engine_failure(r) ==> ledgers_agree_outside(
                old(self).ledger(),
                final(self).ledger(),
                transaction.transaction_id,
                transaction.client,
            ),
            locks_survive(old(self).ledger().positions, final(self).ledger().positions),
    {
        let ghost c0 = store_contents(self.storage);
        let ghost count = store_shard_count(self.storage);
        let ghost l0 = self.ledger();
        let template = ClientPosition { client: transaction.client, ..Default::default() };
        let ghost pos_addr = (transaction.client as int % count, pos_key(transaction.client));
        proof {
            assert(entity_address(self.storage, template) == pos_addr);
        }
        match self.storage.get::<ClientPosition>(&template) {
            Err(StorageError::Data(Data::KeyNotFound(_))) => {
                proof {
                    assert(!l0.positions.contains_key(transaction.client));
                }
            },
            Ok(client_position) => {
                proof {
                    assert(pos_entry_wf(c0[pos_addr], transaction.client));
                    assert(l0.positions[transaction.client] == client_position);
                }
                if client_position.locked {
                    return Err(Error::AccountLocked);
                }
            },
            Err(e) => {
                proof {
                    if !(e->Data_0 is Sled) {
                        assert(pos_entry_wf(c0[pos_addr], transaction.client));
                        assert(false);
                    }
                }
                return Err(Error::Storage(e));
            },
        }
        proof {
            assert(l0.positions.contains_key(transaction.client)
                ==> !l0.positions[transaction.client].locked);
        }
        let ghost tx_addr = (transaction.transaction_id as int % count, tx_key(
            transaction.transaction_id,
        ));
        let result = self.storage.create_or_update::<Transaction, TransactionMerger>(&transaction);
        proof {
            assert((transaction.spec_partition() % count, transaction.spec_key()) == tx_addr);
            let c2 = store_contents(self.storage);
            match &result {
                Ok(t) => {
                    if !c0.contains_key(tx_addr) {
                        assert(!l0.txs.contains_key(transaction.transaction_id));
                        lemma_wf_insert_tx(c0, count, transaction);
                    } else {
                        assert(tx_entry_wf(c0[tx_addr], transaction.transaction_id));
                        let old_t = tx_decode(c0[tx_addr])->0;
                        assert(l0.txs[transaction.transaction_id] == old_t);
                        assert(spec_merge_transaction(old_t, transaction) is Ok);
                        let nt = spec_merge_transaction(old_t, transaction)->Ok_0;
                        assert(nt.transaction_id == transaction.transaction_id);
                        lemma_wf_insert_tx(c0, count, nt);
                    }
                },
                Err(e) => {
                    let d0 = e->Data_0;
                    if cou_rejected::<Transaction, TransactionMerger>(
                        c0,
                        c2,
                        tx_addr,
                        transaction,
                        Err(d0),
                    ) {
                        assert(tx_entry_wf(c0[tx_addr], transaction.transaction_id));
                        let old_t = tx_decode(c0[tx_addr])->0;
                        assert(l0.txs[transaction.transaction_id] == old_t);
                        assert(spec_merge_transaction(old_t, transaction) is Err);
                    } else {
                        assert(cou_engine_failed::<Transaction, TransactionMerger>(
                            c0,
                            c2,
                            tx_addr,
                            transaction,
                            Err(d0),
                        ));
                        if c2 == c0.insert(tx_addr, tx_bytes(transaction)) {
                            lemma_wf_insert_tx(c0, count, transaction);
                        } else if c2 != c0 {
                            let old_t = tx_decode(c0[tx_addr])->0;
                            let nt = spec_merge_transaction(old_t, transaction)->Ok_0;
                            assert(tx_entry_wf(c0[tx_addr], transaction.transaction_id));
                            lemma_wf_insert_tx(c0, count, nt);
                        }
                    }
                },
            }
        }
        let new_transaction = match result {
            Ok(t) => t,
            Err(e) => {
                return Err(Error::Storage(e));
            },
        };
        let ghost l1 = self.ledger();
        proof {
            assert(l1.positions == l0.positions);
            assert(l1.txs == l0.txs.insert(transaction.transaction_id, new_transaction));
        }
        let upd = self.update_client_position(&new_transaction);
        proof {
            let lf = self.ledger();
            if engine_failure(upd) {
                assert(txs_agree_outside(l0.txs, lf.txs, transaction.transaction_id));
                assert(positions_agree_outside(l0.positions, lf.positions, transaction.client));
            }
            assert forall|cl: u16| (#[trigger] l0.positions.contains_key(cl))
                && l0.positions[cl].locked implies lf.positions.contains_key(cl)
                && lf.positions[cl].locked by {
                assert(cl != transaction.client);
            }
        }
        match upd {
            Ok(_) => Ok(new_transaction),
            Err(e) => Err(e),
        }
    }

    /// Looks a transaction up by its (client, id) identity: transactions
    /// are scoped per client, so a transaction stored under this id but
    /// belonging to another client is reported as
    /// `TransactionNotFoundForClient`, not handed out.
    pub fn get_transaction(&self, client: Client, transaction_id: u32) -> (r: Result<
        Transaction,
        Error,
    >)
        requires
            self.wf(),
        ensures
            match r {
                Ok(t) => self.ledger().txs.contains_key(transaction_id) && t
                    == self.ledger().txs[transaction_id] && t.client == client,
                Err(e) => match e {
                    Error::Storage(StorageError::Data(Data::KeyNotFound(ks))) => !self.ledger(
                    ).txs.contains_key(transaction_id) && ks@ == tx_key(transaction_id),
                    Error::Storage(
                        StorageError::Data(Data::TransactionNotFoundForClient(c)),
                    ) => self.ledger().txs.contains_key(transaction_id) && self.ledger(
                    ).txs[transaction_id].client != client && c == client,
                    Error::Storage(StorageError::Data(Data::Sled(_))) => true,
                    _ => false,
                },
            },
    {
        let ghost c0 = store_contents(self.storage);
        let ghost count = store_shard_count(self.storage);
        let template = Transaction { client, transaction_id, ..Default::default() };
        let ghost tx_addr = (transaction_id as int % count, tx_key(transaction_id));
        proof {
            assert(entity_address(self.storage, template) == tx_addr);
        }
        match self.storage.get::<Transaction>(&template) {
            Ok(entity) => {
                proof {
                    assert(tx_entry_wf(c0[tx_addr], transaction_id));
                }
                if entity.client != client {
                    return Err(
                        Error::Storage(
                            StorageError::Data(Data::TransactionNotFoundForClient(client)),
                        ),
                    );
                }
                Ok(entity)
            },
            Err(e) => {
                proof {
                    if e->Data_0 is Serialization {
                        assert(tx_entry_wf(c0[tx_addr], transaction_id));
                        assert(false);
                    }
                }
                Err(Error::Storage(e))
            },
        }
    }

    /// Drains the store's prefix scan over all position keys. The order of
    /// the positions follows shard traversal and is unspecified; every
    /// returned position satisfies `total == available + held`.
    pub fn get_clients_positions(&self) -> (r: Result<Vec<ClientPosition>, Error>)
        requires
            self.wf(),
        ensures
            match r {
                Ok(v) => (exists|cs: Seq<u16>|
                    #[trigger] positions_listing(self.ledger().positions, cs, v@)) && (forall|
                    i: int,
                |
                    0 <= i < v@.len() ==> (#[trigger] v@[i]).total as int == v@[i].available as int
                        + v@[i].held as int),
                Err(e) => (e matches Error::Storage(StorageError::Data(d)) && (d is Sled
                    || d is Serialization)),
            },
    {
        let ghost c = store_contents(self.storage);
        let ghost count = store_shard_count(self.storage);
        let ghost l = self.ledger();
        let v = match self.storage.list::<ClientPosition>("client-position-") {
            Ok(v) => v,
            Err(e) => {
                return Err(Error::Storage(match e {
                    StorageError::Data(d) => StorageError::Data(d),
                    StorageError::OpeningStorage(o) => StorageError::OpeningStorage(o),
                }));
            },
        };
        let ghost prefix = "client-position-"@;
        proof {
            assert(prefix == pos_prefix());
            let ks = choose|ks: Seq<(int, Seq<char>)>|
                list_witness::<ClientPosition>(c, prefix, count, ks, v@);
            reveal(list_witness);
            assert(ks.no_duplicates());
            assert(ks.to_set() == matching_keys_below(c, prefix, count));
            let cs = Seq::new(
                ks.len(),
                |i: int| choose|cl: u16| ks[i] == (cl as int % count, pos_key(cl)),
            );
            assert forall|i: int| 0 <= i < cs.len() implies ks[i] == (
                (#[trigger] cs[i]) as int % count,
                pos_key(cs[i]),
            ) by {
                let k = ks[i];
                assert(ks.to_set().contains(k));
                assert(matching_keys_below(c, prefix, count).contains(k));
                assert(c.contains_key(k));
                assert(pos_prefix().is_prefix_of(k.1));
                if exists|id: u32| k == (id as int % count, tx_key(id)) {
                    let id = choose|id: u32| k == (id as int % count, tx_key(id));
                    lemma_pos_prefix_not_of_tx_key(id);
                    assert(false);
                }
                assert(exists|cl: u16| k == (cl as int % count, #[trigger] pos_key(cl)));
            }
            assert forall|i: int| 0 <= i < cs.len() implies l.positions.contains_key(
                #[trigger] cs[i],
            ) && v@[i] == l.positions[cs[i]] && pos_entry_wf(c[ks[i]], cs[i]) by {
                assert(ks.to_set().contains(ks[i]));
                assert(matching_keys_below(c, prefix, count).contains(ks[i]));
                assert(c.contains_key(ks[i]));
                assert(pos_entry_wf(c[ks[i]], cs[i]));
                assert(ClientPosition::spec_decode(c[ks[i]]) == Some(v@[i]));
            }
            assert(cs.no_duplicates()) by {
                assert forall|i: int, j: int| 0 <= i < j < cs.len() implies cs[i] != cs[j] by {
                    if cs[i] == cs[j] {
                        assert(ks[i] == ks[j]);
                    }
                }
            }
            assert(cs.to_set() =~= l.positions.dom()) by {
                assert forall|cl: u16| cs.to_set().contains(cl) implies l.positions.dom().contains(
                    cl,
                ) by {
                    let i = choose|i: int| 0 <= i < cs.len() && cs[i] == cl;
                    assert(l.positions.contains_key(cs[i]));
                }
                assert forall|cl: u16| l.positions.dom().contains(cl) implies cs.to_set().contains(
                    cl,
                ) by {
                    let k = (cl as int % count, pos_key(cl));
                    assert(c.contains_key(k));
                    lemma_pos_prefix_of_pos_key(cl);
                    assert(matching_keys_below(c, prefix, count).contains(k));
                    assert(ks.to_set().contains(k));
                    let i = choose|i: int| 0 <= i < ks.len() && ks[i] == k;
                    assert(ks[i] == (cs[i] as int % count, pos_key(cs[i])));
                    assert(pos_key(cs[i]) == pos_key(cl));
                    lemma_pos_key_injective(cs[i], cl);
                    assert(cs[i] == cl);
                    assert(cs.contains(cl));
                }
            }
            reveal(positions_listing);
            assert(positions_listing(l.positions, cs, v@));
        }
        let result: Result<Vec<ClientPosition>, Error> = Ok(v);
        proof {
            let vv = (result->Ok_0)@;
            assert(exists|cs: Seq<u16>| #[trigger] positions_listing(l.positions, cs, vv));
            reveal(positions_listing);
            let cs = choose|cs: Seq<u16>| positions_listing(l.positions, cs, vv);
            assert forall|i: int| 0 <= i < vv.len() implies (#[trigger] vv[i]).total as int
                == vv[i].available as int + vv[i].held as int by {
                assert(l.positions.contains_key(cs[i]) && vv[i] == l.positions[cs[i]]);
                let k = (cs[i] as int % count, pos_key(cs[i]));
                assert(c.contains_key(k));
                assert(pos_entry_wf(c[k], cs[i]));
            }
        }
        result
    }
}

} // verus!
