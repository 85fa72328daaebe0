//! End-to-end replay scenarios through `process_transaction_list`.
//! Amounts are fixed-point with four fractional digits, so 5.0 currency
//! units are written 50000.

use txledger::types::{Client, OperationInput};

fn rec(op_type: &str, client: u16, tx: u32, amount: Option<u64>) -> OperationInput {
    OperationInput { op_type: op_type.to_owned(), client, tx, amount }
}

fn run(records: Vec<OperationInput>) -> Vec<Client> {
    let mut clients: Vec<Client> = Vec::new();
    txledger::engine::process_transaction_list(&mut clients, records);
    clients
}

#[test]
fn scenario_two_deposits_and_a_withdrawal() {
    let clients = run(vec![
        rec("deposit", 1, 1, Some(50000)),
        rec("deposit", 2, 2, Some(30000)),
        rec("withdrawal", 1, 3, Some(15000)),
    ]);
    assert_eq!(clients.len(), 2);
    assert_eq!(
        clients[0],
        Client { id: 1, available: 35000, held: 0, total: 35000, locked: false }
    );
    assert_eq!(
        clients[1],
        Client { id: 2, available: 30000, held: 0, total: 30000, locked: false }
    );
}

#[test]
fn scenario_dispute_holds_deposit() {
    let clients = run(vec![
        rec("deposit", 1, 1, Some(50000)),
        rec("dispute", 1, 1, None),
    ]);
    assert_eq!(clients.len(), 1);
    assert_eq!(
        clients[0],
        Client { id: 1, available: 0, held: 50000, total: 50000, locked: false }
    );
}

#[test]
fn scenario_chargeback_locks_and_rejects_later_deposit() {
    let clients = run(vec![
        rec("deposit", 1, 1, Some(50000)),
        rec("dispute", 1, 1, None),
        rec("chargeback", 1, 1, None),
        rec("deposit", 1, 4, Some(100000)),
    ]);
    assert_eq!(clients.len(), 1);
    assert_eq!(
        clients[0],
        Client { id: 1, available: 0, held: 0, total: 0, locked: true }
    );
}

#[test]
fn scenario_resolve_releases_funds_and_second_resolve_is_noop() {
    let clients = run(vec![
        rec("deposit", 1, 1, Some(50000)),
        rec("dispute", 1, 1, None),
        rec("resolve", 1, 1, None),
        rec("resolve", 1, 1, None),
    ]);
    assert_eq!(clients.len(), 1);
    assert_eq!(
        clients[0],
        Client { id: 1, available: 50000, held: 0, total: 50000, locked: false }
    );
}

#[test]
fn scenario_withdrawal_from_unseen_client_creates_no_record() {
    let clients = run(vec![rec("withdrawal", 1, 1, Some(50000))]);
    assert_eq!(clients.len(), 0);
}

#[test]
fn withdrawal_with_insufficient_funds_is_rejected() {
    let clients = run(vec![
        rec("deposit", 1, 1, Some(10000)),
        rec("withdrawal", 1, 2, Some(20000)),
    ]);
    assert_eq!(
        clients[0],
        Client { id: 1, available: 10000, held: 0, total: 10000, locked: false }
    );
}

#[test]
fn deposit_without_amount_is_skipped() {
    let clients = run(vec![rec("deposit", 1, 1, None)]);
    assert_eq!(clients.len(), 0);
}

#[test]
fn withdrawal_without_amount_is_skipped() {
    let clients = run(vec![
        rec("deposit", 1, 1, Some(10000)),
        rec("withdrawal", 1, 2, None),
    ]);
    assert_eq!(
        clients[0],
        Client { id: 1, available: 10000, held: 0, total: 10000, locked: false }
    );
}

#[test]
fn unrecognized_operation_type_is_skipped() {
    let clients = run(vec![
        rec("deposit", 1, 1, Some(10000)),
        rec("transfer", 1, 2, Some(5000)),
    ]);
    assert_eq!(
        clients[0],
        Client { id: 1, available: 10000, held: 0, total: 10000, locked: false }
    );
}

#[test]
fn dispute_of_unknown_transaction_is_rejected() {
    let clients = run(vec![
        rec("deposit", 1, 1, Some(50000)),
        rec("dispute", 1, 9, None),
    ]);
    assert_eq!(
        clients[0],
        Client { id: 1, available: 50000, held: 0, total: 50000, locked: false }
    );
}

#[test]
fn dispute_by_unknown_client_leaves_journal_intact() {
    // Client 7 is unknown, so the dispute is rejected before the journal
    // lookup and transaction 1 stays disputable.
    let clients = run(vec![
        rec("deposit", 1, 1, Some(50000)),
        rec("dispute", 7, 1, None),
        rec("dispute", 1, 1, None),
    ]);
    assert_eq!(
        clients[0],
        Client { id: 1, available: 0, held: 50000, total: 50000, locked: false }
    );
}

#[test]
fn client_mismatch_dispute_retires_the_transaction() {
    // Client 2 exists, so the journal lookup runs: the dispute is rejected
    // for the client mismatch but transaction 1 is retired, and client 1's
    // own later dispute of it no longer matches anything.
    let clients = run(vec![
        rec("deposit", 1, 1, Some(50000)),
        rec("deposit", 2, 2, Some(30000)),
        rec("dispute", 2, 1, None),
        rec("dispute", 1, 1, None),
    ]);
    assert_eq!(
        clients[0],
        Client { id: 1, available: 50000, held: 0, total: 50000, locked: false }
    );
    assert_eq!(
        clients[1],
        Client { id: 2, available: 30000, held: 0, total: 30000, locked: false }
    );
}

#[test]
fn dispute_of_spent_deposit_is_rejected() {
    // The deposited funds were withdrawn, so they can no longer be frozen.
    let clients = run(vec![
        rec("deposit", 1, 1, Some(50000)),
        rec("withdrawal", 1, 2, Some(50000)),
        rec("dispute", 1, 1, None),
    ]);
    assert_eq!(
        clients[0],
        Client { id: 1, available: 0, held: 0, total: 0, locked: false }
    );
}

#[test]
fn disputed_withdrawal_recredits_into_held() {
    let clients = run(vec![
        rec("deposit", 1, 1, Some(50000)),
        rec("withdrawal", 1, 2, Some(20000)),
        rec("dispute", 1, 2, None),
    ]);
    assert_eq!(
        clients[0],
        Client { id: 1, available: 30000, held: 20000, total: 50000, locked: false }
    );
}

#[test]
fn resolved_withdrawal_dispute_lets_the_withdrawal_stand() {
    let clients = run(vec![
        rec("deposit", 1, 1, Some(50000)),
        rec("withdrawal", 1, 2, Some(20000)),
        rec("dispute", 1, 2, None),
        rec("resolve", 1, 2, None),
    ]);
    assert_eq!(
        clients[0],
        Client { id: 1, available: 30000, held: 0, total: 30000, locked: false }
    );
}

#[test]
fn charged_back_withdrawal_returns_funds_and_locks() {
    let clients = run(vec![
        rec("deposit", 1, 1, Some(50000)),
        rec("withdrawal", 1, 2, Some(20000)),
        rec("dispute", 1, 2, None),
        rec("chargeback", 1, 2, None),
    ]);
    assert_eq!(
        clients[0],
        Client { id: 1, available: 50000, held: 0, total: 50000, locked: true }
    );
}

#[test]
fn locked_account_rejects_every_operation() {
    let clients = run(vec![
        rec("deposit", 1, 1, Some(50000)),
        rec("deposit", 1, 2, Some(30000)),
        rec("dispute", 1, 2, None),
        rec("dispute", 1, 1, None),
        rec("chargeback", 1, 1, None),
        // The account is now locked; everything below must be rejected.
        rec("deposit", 1, 3, Some(10000)),
        rec("withdrawal", 1, 4, Some(10000)),
        rec("resolve", 1, 2, None),
        rec("chargeback", 1, 2, None),
    ]);
    assert_eq!(
        clients[0],
        Client { id: 1, available: 0, held: 30000, total: 30000, locked: true }
    );
}

#[test]
fn deposit_overflowing_the_balance_is_rejected() {
    let clients = run(vec![
        rec("deposit", 1, 1, Some(u64::MAX)),
        rec("deposit", 1, 2, Some(1)),
    ]);
    assert_eq!(
        clients[0],
        Client { id: 1, available: u64::MAX, held: 0, total: u64::MAX, locked: false }
    );
}

#[test]
fn output_order_follows_first_appearance() {
    let clients = run(vec![
        rec("deposit", 5, 1, Some(10000)),
        rec("deposit", 2, 2, Some(20000)),
        rec("deposit", 5, 3, Some(30000)),
        rec("deposit", 9, 4, Some(40000)),
    ]);
    assert_eq!(clients.len(), 3);
    assert_eq!(clients[0].id, 5);
    assert_eq!(clients[1].id, 2);
    assert_eq!(clients[2].id, 9);
    assert_eq!(clients[0].total, 40000);
}

#[test]
fn totals_stay_balanced_through_a_mixed_run() {
    let clients = run(vec![
        rec("deposit", 1, 1, Some(50000)),
        rec("deposit", 2, 2, Some(70000)),
        rec("withdrawal", 1, 3, Some(10000)),
        rec("dispute", 1, 1, None),
        rec("dispute", 2, 2, None),
        rec("resolve", 2, 2, None),
        rec("dispute", 1, 3, None),
        rec("chargeback", 1, 3, None),
    ]);
    for c in &clients {
        assert_eq!(c.total, c.available + c.held);
    }
}
