//! Unit tests of the search, removal, and settlement helpers, and of the
//! single-operation processor.

use txledger::engine::{
    apply_chargeback, apply_dispute, apply_resolve, find_client_by_id, find_operation_by_id,
    is_same_tx_id, process_transaction, remove_operation_by_id,
};
use txledger::types::{Client, ParserError, Transaction};

fn client(id: u16, available: u64, held: u64, locked: bool) -> Client {
    Client { id, available, held, total: available + held, locked }
}

#[test]
fn find_client_by_id_returns_first_match() {
    let clients = vec![client(3, 10, 0, false), client(7, 20, 0, false)];
    assert_eq!(find_client_by_id(&clients, 7), Some(1));
    assert_eq!(find_client_by_id(&clients, 3), Some(0));
    assert_eq!(find_client_by_id(&clients, 8), None);
    assert_eq!(find_client_by_id(&Vec::new(), 1), None);
}

#[test]
fn is_same_tx_id_matches_only_disputable_operations() {
    assert!(is_same_tx_id(&Transaction::Deposit(1, 5, 100), 5));
    assert!(is_same_tx_id(&Transaction::Withdrawal(1, 5, 100), 5));
    assert!(!is_same_tx_id(&Transaction::Deposit(1, 5, 100), 6));
    assert!(!is_same_tx_id(&Transaction::Dispute(1, 5), 5));
    assert!(!is_same_tx_id(&Transaction::Resolve(1, 5), 5));
    assert!(!is_same_tx_id(&Transaction::Chargeback(1, 5), 5));
}

#[test]
fn find_operation_by_id_returns_first_match() {
    let ops = vec![
        Transaction::Dispute(1, 4),
        Transaction::Deposit(1, 4, 100),
        Transaction::Withdrawal(2, 4, 50),
    ];
    // The dispute entry carries no transaction id of its own, so the
    // deposit is the first match.
    assert_eq!(find_operation_by_id(&ops, 4), Some(1));
    assert_eq!(find_operation_by_id(&ops, 9), None);
}

#[test]
fn remove_operation_by_id_removes_only_the_first_match() {
    let mut ops = vec![
        Transaction::Deposit(1, 4, 100),
        Transaction::Deposit(1, 5, 200),
        Transaction::Deposit(1, 4, 300),
    ];
    remove_operation_by_id(&mut ops, 4);
    assert_eq!(
        ops,
        vec![Transaction::Deposit(1, 5, 200), Transaction::Deposit(1, 4, 300)]
    );
    remove_operation_by_id(&mut ops, 9);
    assert_eq!(ops.len(), 2);
}

#[test]
fn apply_dispute_moves_deposit_funds_to_held() {
    let mut c = client(1, 500, 0, false);
    assert!(apply_dispute(&mut c, &Transaction::Deposit(1, 1, 300)));
    assert_eq!(c, client(1, 200, 300, false));
}

#[test]
fn apply_dispute_rejects_mismatch_lock_and_shortfall() {
    let mut c = client(1, 500, 0, false);
    assert!(!apply_dispute(&mut c, &Transaction::Deposit(2, 1, 300)));
    assert!(!apply_dispute(&mut c, &Transaction::Deposit(1, 1, 600)));
    assert!(!apply_dispute(&mut c, &Transaction::Resolve(1, 1)));
    assert_eq!(c, client(1, 500, 0, false));
    let mut locked = client(1, 500, 0, true);
    assert!(!apply_dispute(&mut locked, &Transaction::Deposit(1, 1, 300)));
    assert_eq!(locked, client(1, 500, 0, true));
}

#[test]
fn apply_dispute_of_withdrawal_recredits_into_held() {
    let mut c = client(1, 200, 0, false);
    assert!(apply_dispute(&mut c, &Transaction::Withdrawal(1, 2, 300)));
    assert_eq!(c, client(1, 200, 300, false));
}

#[test]
fn apply_resolve_releases_deposit_funds() {
    let mut c = client(1, 200, 300, false);
    assert!(apply_resolve(&mut c, &Transaction::Deposit(1, 1, 300)));
    assert_eq!(c, client(1, 500, 0, false));
}

#[test]
fn apply_resolve_of_withdrawal_removes_held_recredit() {
    let mut c = client(1, 200, 300, false);
    assert!(apply_resolve(&mut c, &Transaction::Withdrawal(1, 2, 300)));
    assert_eq!(c, client(1, 200, 0, false));
}

#[test]
fn apply_resolve_rejects_mismatch_and_lock() {
    let mut c = client(1, 200, 300, false);
    assert!(!apply_resolve(&mut c, &Transaction::Deposit(2, 1, 300)));
    assert!(!apply_resolve(&mut c, &Transaction::Dispute(1, 1)));
    assert_eq!(c, client(1, 200, 300, false));
    let mut locked = client(1, 200, 300, true);
    assert!(!apply_resolve(&mut locked, &Transaction::Deposit(1, 1, 300)));
    assert_eq!(locked, client(1, 200, 300, true));
}

#[test]
fn apply_chargeback_reverses_deposit_and_locks() {
    let mut c = client(1, 200, 300, false);
    assert!(apply_chargeback(&mut c, &Transaction::Deposit(1, 1, 300)));
    assert_eq!(c, client(1, 200, 0, true));
}

#[test]
fn apply_chargeback_reverses_withdrawal_and_locks() {
    let mut c = client(1, 200, 300, false);
    assert!(apply_chargeback(&mut c, &Transaction::Withdrawal(1, 2, 300)));
    assert_eq!(c, client(1, 500, 0, true));
}

#[test]
fn apply_chargeback_rejects_mismatch_and_lock() {
    let mut c = client(1, 200, 300, false);
    assert!(!apply_chargeback(&mut c, &Transaction::Withdrawal(2, 2, 300)));
    assert!(!apply_chargeback(&mut c, &Transaction::Chargeback(1, 2)));
    assert_eq!(c, client(1, 200, 300, false));
    let mut locked = client(1, 200, 300, true);
    assert!(!apply_chargeback(&mut locked, &Transaction::Withdrawal(1, 2, 300)));
    assert_eq!(locked, client(1, 200, 300, true));
}

#[test]
fn process_transaction_deposit_creates_and_journals() {
    let mut clients: Vec<Client> = Vec::new();
    let mut operations: Vec<Transaction> = Vec::new();
    let mut disputes: Vec<Transaction> = Vec::new();
    process_transaction(
        &Transaction::Deposit(1, 1, 50000),
        &mut clients,
        &mut operations,
        &mut disputes,
    );
    assert_eq!(clients, vec![client(1, 50000, 0, false)]);
    assert_eq!(operations, vec![Transaction::Deposit(1, 1, 50000)]);
    assert!(disputes.is_empty());
}

#[test]
fn process_transaction_rejected_withdrawal_is_not_journaled() {
    let mut clients = vec![client(1, 10000, 0, false)];
    let mut operations = vec![Transaction::Deposit(1, 1, 10000)];
    let mut disputes: Vec<Transaction> = Vec::new();
    process_transaction(
        &Transaction::Withdrawal(1, 2, 20000),
        &mut clients,
        &mut operations,
        &mut disputes,
    );
    assert_eq!(clients, vec![client(1, 10000, 0, false)]);
    assert_eq!(operations.len(), 1);
}

#[test]
fn process_transaction_dispute_moves_entry_to_registry() {
    let mut clients = vec![client(1, 50000, 0, false)];
    let mut operations = vec![Transaction::Deposit(1, 1, 50000)];
    let mut disputes: Vec<Transaction> = Vec::new();
    process_transaction(
        &Transaction::Dispute(1, 1),
        &mut clients,
        &mut operations,
        &mut disputes,
    );
    assert_eq!(clients, vec![client(1, 0, 50000, false)]);
    assert!(operations.is_empty());
    assert_eq!(disputes, vec![Transaction::Deposit(1, 1, 50000)]);
}

#[test]
fn process_transaction_resolve_of_undisputed_id_is_noop() {
    let mut clients = vec![client(1, 50000, 0, false)];
    let mut operations = vec![Transaction::Deposit(1, 1, 50000)];
    let mut disputes: Vec<Transaction> = Vec::new();
    process_transaction(
        &Transaction::Resolve(1, 1),
        &mut clients,
        &mut operations,
        &mut disputes,
    );
    assert_eq!(clients, vec![client(1, 50000, 0, false)]);
    assert_eq!(operations.len(), 1);
    assert!(disputes.is_empty());
}

#[test]
fn parser_error_keeps_its_message() {
    let msg = String::from("missing input file");
    let err = ParserError::new(&msg);
    assert_eq!(err.message, "missing input file");
}
