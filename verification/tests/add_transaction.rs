//! Service-level tests: whole ledger scenarios around deposits, disputes,
//! locking, transitions and error variants.

use account_ledger::account_service::errors::Error as LedgerError;
use account_ledger::account_service::ServiceImpl;
use account_ledger::client::ClientPosition;
use account_ledger::storage::errors::{Data, Error as StorageError};
use account_ledger::transaction::{Transaction, TransactionType};

/// One whole currency unit in fixed-point ten-thousandths.
const UNIT: i64 = 10_000;

fn get_test_service() -> ServiceImpl {
    ServiceImpl::with_sled().expect("failed to create service")
}

fn get_test_transaction() -> Transaction {
    Transaction {
        transaction_type: TransactionType::Deposit,
        client: 10,
        transaction_id: 2,
        amount: Some(30 * UNIT),
    }
}

#[test]
fn add_transaction() {
    let mut service = get_test_service();
    let transaction = get_test_transaction();
    let transaction = service
        .add_transaction(transaction)
        .expect("failed to save transaction");
    let saved_transaction = service
        .get_transaction(transaction.client, transaction.transaction_id)
        .expect("failed to get saved transaction");
    assert_eq!(transaction, saved_transaction);
}

#[test]
fn client_position_incremental_deposits() {
    let mut service = get_test_service();
    let transaction = get_test_transaction();
    let total = 30 * UNIT;
    let available = 30 * UNIT;
    for i in 1..100u32 {
        service
            .add_transaction(Transaction {
                transaction_id: i,
                ..transaction.clone()
            })
            .expect("failed to save transaction");
        let positions = service
            .get_clients_positions()
            .expect("failed to get clients positions");
        assert_eq!(positions.len(), 1);
        let position = &positions[0];
        let expected = ClientPosition {
            client: 10,
            total: total * i as i64,
            available: available * i as i64,
            held: 0,
            locked: false,
        };
        assert_eq!(position, &expected);
    }
}

#[test]
fn client_position_dispute_and_solve() {
    let mut service = get_test_service();
    let transaction = get_test_transaction();

    let expected = ClientPosition {
        client: 10,
        total: 30 * UNIT,
        available: 30 * UNIT,
        held: 0,
        locked: false,
    };

    let transactions = vec![
        transaction.clone(),
        Transaction {
            transaction_type: TransactionType::Dispute,
            ..transaction.clone()
        },
        Transaction {
            transaction_type: TransactionType::Resolve,
            ..transaction.clone()
        },
    ];
    let expectations = vec![
        expected.clone(),
        ClientPosition {
            available: 0,
            held: 30 * UNIT,
            ..expected.clone()
        },
        ClientPosition {
            available: 30 * UNIT,
            held: 0,
            ..expected.clone()
        },
    ];
    for (transaction, expected) in transactions.into_iter().zip(expectations.into_iter()) {
        service
            .add_transaction(transaction)
            .expect("failed to save transaction");
        let positions = service
            .get_clients_positions()
            .expect("failed to get clients positions");
        assert_eq!(positions.len(), 1);
        let position = &positions[0];

        assert_eq!(position, &expected);
    }
}

#[test]
fn client_position_lock_account() {
    let mut service = get_test_service();
    let transaction = get_test_transaction();

    let expected = ClientPosition {
        client: 10,
        total: 30 * UNIT,
        available: 30 * UNIT,
        held: 0,
        locked: false,
    };

    let transactions = vec![
        transaction.clone(),
        Transaction {
            transaction_type: TransactionType::Dispute,
            ..transaction.clone()
        },
        Transaction {
            transaction_type: TransactionType::Chargeback,
            ..transaction.clone()
        },
    ];
    let expectations_ = vec![
        expected.clone(),
        ClientPosition {
            available: 0,
            held: 30 * UNIT,
            ..expected.clone()
        },
        ClientPosition {
            available: 0,
            held: 0,
            total: 0,
            locked: true,
            ..expected.clone()
        },
    ];
    for (i, (transaction, expected)) in transactions
        .into_iter()
        .zip(expectations_.into_iter())
        .enumerate()
    {
        service
            .add_transaction(transaction)
            .expect("failed to save transaction");
        let positions = service
            .get_clients_positions()
            .expect("failed to get clients positions");
        assert_eq!(positions.len(), 1);
        let position = &positions[0];

        assert_eq!(
            position,
            &expected,
            "transaction on position {} was not expected",
            i + 1
        );
    }
}

#[test]
fn duplicated_transaction() {
    let mut service = get_test_service();
    let transaction = get_test_transaction();
    service
        .add_transaction(transaction)
        .expect("failed to save transaction");
    let transaction = Transaction {
        client: 999,
        ..get_test_transaction()
    };
    match service.add_transaction(transaction) {
        Err(LedgerError::Storage(StorageError::Data(Data::TransactionNotFoundForClient(_)))) => {}
        other => panic!(
            "this should be a duplicated transaction and not {:?}",
            other
        ),
    };
}

#[test]
fn locked_account_rejects_everything() {
    let mut service = get_test_service();
    let deposit = get_test_transaction();
    service.add_transaction(deposit.clone()).expect("deposit");
    service
        .add_transaction(Transaction {
            transaction_type: TransactionType::Dispute,
            ..deposit.clone()
        })
        .expect("dispute");
    service
        .add_transaction(Transaction {
            transaction_type: TransactionType::Chargeback,
            ..deposit.clone()
        })
        .expect("chargeback");
    // Even a plain new deposit, and even a dispute, are rejected now.
    for tt in [TransactionType::Deposit, TransactionType::Dispute] {
        let result = service.add_transaction(Transaction {
            transaction_type: tt,
            client: 10,
            transaction_id: 77,
            amount: Some(UNIT),
        });
        assert!(matches!(result, Err(LedgerError::AccountLocked)));
    }
}

#[test]
fn invalid_transition_is_rejected() {
    let mut service = get_test_service();
    let deposit = get_test_transaction();
    service.add_transaction(deposit.clone()).expect("deposit");
    // A deposit can only move to a dispute; a withdrawal record under the
    // same id is an invalid transition.
    let result = service.add_transaction(Transaction {
        transaction_type: TransactionType::Withdrawal,
        ..deposit.clone()
    });
    match result {
        Err(LedgerError::Storage(StorageError::Data(Data::InvalidTransition(
            TransactionType::Deposit,
            TransactionType::Withdrawal,
        )))) => {}
        other => panic!("expected an invalid transition and not {:?}", other),
    }
    // Resolve without a dispute in between is rejected as well.
    let result = service.add_transaction(Transaction {
        transaction_type: TransactionType::Resolve,
        ..deposit
    });
    assert!(matches!(
        result,
        Err(LedgerError::Storage(StorageError::Data(
            Data::InvalidTransition(TransactionType::Deposit, TransactionType::Resolve)
        )))
    ));
}

#[test]
fn multiple_resolves_are_rejected() {
    let mut service = get_test_service();
    let deposit = get_test_transaction();
    service.add_transaction(deposit.clone()).expect("deposit");
    service
        .add_transaction(Transaction {
            transaction_type: TransactionType::Dispute,
            ..deposit.clone()
        })
        .expect("dispute");
    service
        .add_transaction(Transaction {
            transaction_type: TransactionType::Resolve,
            ..deposit.clone()
        })
        .expect("resolve");
    // A resolved transaction is terminal: a second resolve has no dispute
    // to settle.
    let result = service.add_transaction(Transaction {
        transaction_type: TransactionType::Resolve,
        ..deposit
    });
    assert!(matches!(
        result,
        Err(LedgerError::Storage(StorageError::Data(
            Data::InvalidTransition(TransactionType::Resolve, TransactionType::Resolve)
        )))
    ));
}

#[test]
fn missing_transaction_is_not_found() {
    let service = get_test_service();
    let result = service.get_transaction(1, 42);
    match result {
        Err(LedgerError::Storage(StorageError::Data(Data::KeyNotFound(key)))) => {
            assert_eq!(key, "transaction-42");
        }
        other => panic!("expected a missing key and not {:?}", other),
    }
}

#[test]
fn get_transaction_is_scoped_per_client() {
    let mut service = get_test_service();
    let transaction = get_test_transaction();
    service
        .add_transaction(transaction.clone())
        .expect("failed to save transaction");
    // The identity of a transaction is the (client, id) pair: another
    // client asking for the same id is told it has no such transaction.
    match service.get_transaction(999, transaction.transaction_id) {
        Err(LedgerError::Storage(StorageError::Data(Data::TransactionNotFoundForClient(c)))) => {
            assert_eq!(c, 999);
        }
        other => panic!("expected a not-found error and not {:?}", other),
    }
    // The owning client still gets it.
    let found = service
        .get_transaction(transaction.client, transaction.transaction_id)
        .expect("failed to get saved transaction");
    assert_eq!(found, transaction);
}

#[test]
fn creating_record_without_amount_is_unknown() {
    let mut service = get_test_service();
    // A dispute that references no stored transaction and carries no amount
    // cannot be folded into a position.
    let result = service.add_transaction(Transaction {
        transaction_type: TransactionType::Dispute,
        client: 3,
        transaction_id: 9,
        amount: None,
    });
    assert!(matches!(result, Err(LedgerError::Unknown)));
}

#[test]
fn dispute_record_without_amount_uses_stored_amount() {
    let mut service = get_test_service();
    let deposit = get_test_transaction();
    service.add_transaction(deposit.clone()).expect("deposit");
    // The dispute record may omit the amount: the stored deposit's amount is
    // the one held.
    let merged = service
        .add_transaction(Transaction {
            transaction_type: TransactionType::Dispute,
            amount: None,
            ..deposit
        })
        .expect("dispute");
    assert_eq!(merged.amount, Some(30 * UNIT));
    let positions = service.get_clients_positions().expect("positions");
    assert_eq!(positions.len(), 1);
    assert_eq!(positions[0].held, 30 * UNIT);
    assert_eq!(positions[0].available, 0);
}

#[test]
fn withdrawal_reduces_available_funds() {
    let mut service = get_test_service();
    let deposit = get_test_transaction();
    service.add_transaction(deposit).expect("deposit");
    service
        .add_transaction(Transaction {
            transaction_type: TransactionType::Withdrawal,
            client: 10,
            transaction_id: 3,
            amount: Some(12 * UNIT),
        })
        .expect("withdrawal");
    let positions = service.get_clients_positions().expect("positions");
    assert_eq!(positions.len(), 1);
    assert_eq!(
        positions[0],
        ClientPosition {
            client: 10,
            total: 18 * UNIT,
            available: 18 * UNIT,
            held: 0,
            locked: false,
        }
    );
}

#[test]
fn positions_balance_exactly() {
    let mut service = get_test_service();
    // A mixed history over several clients; every reported position must
    // satisfy total == available + held to the last ten-thousandth.
    let records = [
        (TransactionType::Deposit, 1u16, 1u32, Some(105 * UNIT / 10)),
        (TransactionType::Deposit, 2, 2, Some(3 * UNIT + 1)),
        (TransactionType::Withdrawal, 1, 3, Some(2 * UNIT + 7777)),
        (TransactionType::Dispute, 2, 2, None),
        (TransactionType::Deposit, 3, 4, Some(9)),
    ];
    for (tt, client, id, amount) in records {
        service
            .add_transaction(Transaction {
                transaction_type: tt,
                client,
                transaction_id: id,
                amount,
            })
            .expect("record");
    }
    let mut positions = service.get_clients_positions().expect("positions");
    assert_eq!(positions.len(), 3);
    positions.sort_by_key(|p| p.client);
    for p in &positions {
        assert_eq!(p.total, p.available + p.held);
    }
    assert_eq!(positions[0].available, 105 * UNIT / 10 - (2 * UNIT + 7777));
    assert_eq!(positions[1].held, 3 * UNIT + 1);
    assert_eq!(positions[2].total, 9);
}

#[test]
fn single_deposit_single_position() {
    let mut service = get_test_service();
    service
        .add_transaction(Transaction {
            transaction_type: TransactionType::Deposit,
            client: 10,
            transaction_id: 1,
            amount: Some(30 * UNIT),
        })
        .expect("deposit");
    let positions = service.get_clients_positions().expect("positions");
    assert_eq!(
        positions,
        vec![ClientPosition {
            client: 10,
            total: 30 * UNIT,
            available: 30 * UNIT,
            held: 0,
            locked: false,
        }]
    );
}

#[test]
fn can_transition_follows_the_graph() {
    let all = [
        TransactionType::Deposit,
        TransactionType::Withdrawal,
        TransactionType::Dispute,
        TransactionType::Resolve,
        TransactionType::Chargeback,
    ];
    for new_type in all {
        let mk = |tt| Transaction {
            transaction_type: tt,
            ..Transaction::default()
        };
        let allowed = ServiceImpl::can_transition(&mk(TransactionType::Deposit), &mk(new_type));
        assert_eq!(allowed, matches!(new_type, TransactionType::Dispute));
        let allowed = ServiceImpl::can_transition(&mk(TransactionType::Dispute), &mk(new_type));
        assert_eq!(
            allowed,
            matches!(new_type, TransactionType::Resolve | TransactionType::Chargeback)
        );
        for old_type in [
            TransactionType::Withdrawal,
            TransactionType::Resolve,
            TransactionType::Chargeback,
        ] {
            assert!(!ServiceImpl::can_transition(&mk(old_type), &mk(new_type)));
        }
    }
}

#[test]
fn position_merge_overflow_is_reported() {
    let old_p = ClientPosition {
        client: 1,
        total: i64::MAX,
        available: i64::MAX,
        held: 0,
        locked: false,
    };
    let delta = ClientPosition {
        client: 1,
        total: 1,
        available: 1,
        held: 0,
        locked: false,
    };
    match ServiceImpl::merge_client_position(&old_p, &delta) {
        Err(Data::AmountOverflow) => {}
        other => panic!("expected an overflow and not {:?}", other),
    }
}
