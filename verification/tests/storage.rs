//! Store and codec tests: byte payloads round-trip, keys are the documented
//! strings, and the sharded store really stores, merges and lists.

use account_ledger::account_service::{ClientPositionMerger, TransactionMerger};
use account_ledger::client::ClientPosition;
use account_ledger::storage::errors::{Data, Error as StorageError};
use account_ledger::storage::sled::Sled;
use account_ledger::storage::{FromStorage, ToFromStorage, ToStorage};
use account_ledger::transaction::{Transaction, TransactionType};

fn sample_transaction() -> Transaction {
    Transaction {
        transaction_type: TransactionType::Dispute,
        client: 513,
        transaction_id: 4_000_000_001,
        amount: Some(-123_456_789),
    }
}

#[test]
fn transaction_bytes_roundtrip() {
    let samples = [
        sample_transaction(),
        Transaction {
            transaction_type: TransactionType::Deposit,
            client: 0,
            transaction_id: 0,
            amount: None,
        },
        Transaction {
            transaction_type: TransactionType::Chargeback,
            client: u16::MAX,
            transaction_id: u32::MAX,
            amount: Some(1_000_000_000_000_000_000),
        },
        Transaction {
            transaction_type: TransactionType::Withdrawal,
            client: 7,
            transaction_id: 8,
            amount: Some(-1_000_000_000_000_000_000),
        },
    ];
    for t in samples {
        let bytes = t.to_bytes();
        assert_eq!(bytes.len(), 16);
        let back = Transaction::from_bytes(&bytes).expect("decode");
        assert_eq!(back, t);
    }
}

#[test]
fn client_position_bytes_roundtrip() {
    let p = ClientPosition {
        client: 42,
        total: -5,
        available: -12,
        held: 7,
        locked: true,
    };
    let bytes = p.to_bytes();
    assert_eq!(bytes.len(), 27);
    let back = ClientPosition::from_bytes(&bytes).expect("decode");
    assert_eq!(back, p);
}

#[test]
fn corrupt_bytes_are_rejected() {
    assert!(matches!(
        Transaction::from_bytes(&[1, 2, 3]),
        Err(Data::Serialization)
    ));
    let mut bytes = sample_transaction().to_bytes();
    bytes[0] = 9; // no such transaction kind
    assert!(matches!(
        Transaction::from_bytes(&bytes),
        Err(Data::Serialization)
    ));
    assert!(matches!(
        ClientPosition::from_bytes(&[0u8; 26]),
        Err(Data::Serialization)
    ));
}

#[test]
fn primary_keys_are_the_documented_strings() {
    let t = sample_transaction();
    assert_eq!(t.primary_key(), "transaction-4000000001");
    assert_eq!(t.partition(), 4_000_000_001usize);
    let zero = Transaction {
        transaction_id: 0,
        ..t
    };
    assert_eq!(zero.primary_key(), "transaction-0");
    let p = ClientPosition {
        client: 65535,
        total: 0,
        available: 0,
        held: 0,
        locked: false,
    };
    assert_eq!(p.primary_key(), "client-position-65535");
    assert_eq!(p.partition(), 65535usize);
}

#[test]
fn store_gets_back_what_it_stored() {
    let mut store = Sled::new().expect("open store");
    let t = sample_transaction();
    let stored = store
        .create_or_update::<Transaction, TransactionMerger>(&t)
        .expect("create");
    assert_eq!(stored, t);
    let found = store
        .get::<Transaction>(&Transaction {
            transaction_id: t.transaction_id,
            ..Transaction::default()
        })
        .expect("get");
    assert_eq!(found, t);
}

#[test]
fn store_reports_missing_keys() {
    let store = Sled::new().expect("open store");
    let result = store.get::<Transaction>(&Transaction::default());
    match result {
        Err(StorageError::Data(Data::KeyNotFound(key))) => {
            assert_eq!(key, "transaction-10");
        }
        other => panic!("expected a missing key and not {:?}", other),
    }
}

#[test]
fn store_runs_the_merge_resolver_on_existing_keys() {
    let mut store = Sled::new().expect("open store");
    let t = Transaction {
        transaction_type: TransactionType::Deposit,
        ..sample_transaction()
    };
    store
        .create_or_update::<Transaction, TransactionMerger>(&t)
        .expect("create");
    let second = Transaction {
        transaction_type: TransactionType::Dispute,
        amount: None,
        ..t
    };
    // The resolver keeps every stored field but the type.
    let merged = store
        .create_or_update::<Transaction, TransactionMerger>(&second)
        .expect("merge");
    let expected = Transaction {
        transaction_type: TransactionType::Dispute,
        ..t
    };
    assert_eq!(merged, expected);
    let found = store
        .get::<Transaction>(&Transaction {
            transaction_id: t.transaction_id,
            ..Transaction::default()
        })
        .expect("get");
    assert_eq!(found, expected);
}

#[test]
fn list_returns_every_matching_entity_once() {
    let mut store = Sled::new().expect("open store");
    let mut expected = Vec::new();
    for client in [3u16, 14, 15, 926] {
        let p = ClientPosition {
            client,
            total: client as i64,
            available: client as i64,
            held: 0,
            locked: false,
        };
        store
            .create_or_update::<ClientPosition, ClientPositionMerger>(&p)
            .expect("create");
        expected.push(p);
    }
    // An entity under another prefix must not show up.
    store
        .create_or_update::<Transaction, TransactionMerger>(&sample_transaction())
        .expect("create");
    let mut listed = store.list::<ClientPosition>("client-position-").expect("list");
    listed.sort_by_key(|p| p.client);
    assert_eq!(listed, expected);
    // A longer prefix narrows the scan down.
    let mut narrowed = store.list::<ClientPosition>("client-position-1").expect("list");
    narrowed.sort_by_key(|p| p.client);
    let narrowed_clients: Vec<u16> = narrowed.iter().map(|p| p.client).collect();
    assert_eq!(narrowed_clients, vec![14, 15]);
}
