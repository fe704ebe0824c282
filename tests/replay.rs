use ledger_replay::account::{Account, AccountLog};
use ledger_replay::bank::{Bank, Ledger, ReplayError};
use ledger_replay::transaction::{
    units_from_decimal, DisputeState, RecordError, TransactionLog, TransactionLogCsv,
    TransactionType, MAX_UNITS,
};
use ledger_replay::transactions::{chargeback, deposit, dispute, resolve, withdrawal, TransactionError};

use TransactionType::{Chargeback, Deposit, Dispute, Resolve, Withdrawal};

fn row(type_: TransactionType, client_id: u16, tx_id: u32, amount: Option<(i128, u32)>) -> TransactionLogCsv {
    TransactionLogCsv { type_, client_id, tx_id, amount }
}

fn money(type_: TransactionType, client_id: u16, tx_id: u32, mantissa: i128, scale: u32) -> TransactionLogCsv {
    row(type_, client_id, tx_id, Some((mantissa, scale)))
}

fn refer(type_: TransactionType, client_id: u16, tx_id: u32) -> TransactionLogCsv {
    row(type_, client_id, tx_id, None)
}

fn acc(client_id: u16, available_funds: u128, held_funds: u128, locked: bool) -> AccountLog {
    AccountLog::new(client_id, available_funds, held_funds, available_funds + held_funds, locked)
}

fn run(rows: Vec<TransactionLogCsv>) -> Vec<AccountLog> {
    let ledger = Ledger::from_rows(&rows).unwrap();
    let mut bank = Bank::new(ledger);
    bank.ordered_accounts_balance().unwrap()
}

fn scenario_b() -> Vec<TransactionLogCsv> {
    vec![money(Deposit, 1, 1, 100, 1), refer(Dispute, 1, 1)]
}

#[test]
fn two_clients_with_refused_withdrawal() {
    let out = run(vec![
        money(Deposit, 1, 1, 1, 0),
        money(Deposit, 2, 2, 2, 0),
        money(Deposit, 1, 3, 2, 0),
        money(Withdrawal, 1, 4, 15, 1),
        money(Withdrawal, 2, 5, 3, 0),
    ]);
    assert_eq!(out, vec![acc(1, 15000, 0, false), acc(2, 20000, 0, false)]);
}

#[test]
fn scenario_dispute_holds_funds() {
    assert_eq!(run(scenario_b()), vec![acc(1, 0, 100000, false)]);
}

#[test]
fn scenario_resolve_releases_funds() {
    let mut rows = scenario_b();
    rows.push(refer(Resolve, 1, 1));
    assert_eq!(run(rows), vec![acc(1, 100000, 0, false)]);
}

#[test]
fn scenario_chargeback_locks() {
    let mut rows = scenario_b();
    rows.push(refer(Chargeback, 1, 1));
    assert_eq!(run(rows.clone()), vec![acc(1, 0, 0, true)]);
    rows.push(money(Deposit, 1, 2, 50, 1));
    assert_eq!(run(rows), vec![acc(1, 0, 0, true)]);
}

#[test]
fn scenario_unknown_dispute_creates_account() {
    assert_eq!(run(vec![refer(Dispute, 1, 999)]), vec![acc(1, 0, 0, false)]);
}

#[test]
fn deposit_ok() {
    let out = run(vec![money(Deposit, 1, 1, 10, 0), money(Deposit, 1, 2, 25, 1), money(Deposit, 3, 3, 1, 4)]);
    assert_eq!(out, vec![acc(1, 125000, 0, false), acc(3, 1, 0, false)]);
}

#[test]
fn withdrawal_ok() {
    let out = run(vec![money(Deposit, 2, 1, 5, 0), money(Withdrawal, 2, 2, 15, 1)]);
    assert_eq!(out, vec![acc(2, 35000, 0, false)]);
}

#[test]
fn no_funds() {
    let out = run(vec![money(Deposit, 2, 1, 1, 0), money(Withdrawal, 2, 2, 10001, 4)]);
    assert_eq!(out, vec![acc(2, 10000, 0, false)]);
}

#[test]
fn withdrawal_of_everything() {
    let out = run(vec![money(Deposit, 2, 1, 1, 0), money(Withdrawal, 2, 2, 10000, 4)]);
    assert_eq!(out, vec![acc(2, 0, 0, false)]);
}

#[test]
fn dispute_ok() {
    let out = run(vec![money(Deposit, 1, 1, 3, 0), money(Deposit, 1, 2, 2, 0), refer(Dispute, 1, 2)]);
    assert_eq!(out, vec![acc(1, 30000, 20000, false)]);
}

#[test]
fn repeated_unresolved() {
    let out = run(vec![money(Deposit, 1, 1, 3, 0), refer(Dispute, 1, 1), refer(Dispute, 1, 1)]);
    assert_eq!(out, vec![acc(1, 0, 30000, false)]);
}

#[test]
fn repeated_resolved() {
    let out = run(vec![
        money(Deposit, 1, 1, 3, 0),
        refer(Dispute, 1, 1),
        refer(Resolve, 1, 1),
        refer(Dispute, 1, 1),
    ]);
    assert_eq!(out, vec![acc(1, 0, 30000, false)]);
}

#[test]
fn repeated_charged() {
    let out = run(vec![
        money(Deposit, 1, 1, 3, 0),
        money(Deposit, 1, 2, 4, 0),
        refer(Dispute, 1, 1),
        refer(Chargeback, 1, 1),
        refer(Dispute, 1, 1),
    ]);
    assert_eq!(out, vec![acc(1, 40000, 0, true)]);
}

#[test]
fn dispute_unknown() {
    let out = run(vec![money(Deposit, 1, 1, 3, 0), refer(Dispute, 1, 7)]);
    assert_eq!(out, vec![acc(1, 30000, 0, false)]);
}

#[test]
fn dispute_invalid_cid_tx() {
    let out = run(vec![money(Deposit, 1, 1, 3, 0), money(Deposit, 2, 2, 1, 0), refer(Dispute, 2, 1)]);
    assert_eq!(out, vec![acc(1, 30000, 0, false), acc(2, 10000, 0, false)]);
}

#[test]
fn dispute_of_later_record_is_unknown() {
    let out = run(vec![refer(Dispute, 1, 1), money(Deposit, 1, 1, 3, 0)]);
    assert_eq!(out, vec![acc(1, 30000, 0, false)]);
}

#[test]
fn dispute_without_enough_funds_is_ignored() {
    let out = run(vec![money(Deposit, 1, 1, 3, 0), money(Withdrawal, 1, 2, 2, 0), refer(Dispute, 1, 1)]);
    assert_eq!(out, vec![acc(1, 10000, 0, false)]);
}

#[test]
fn dispute_of_withdrawal_holds_its_amount() {
    let out = run(vec![money(Deposit, 1, 1, 3, 0), money(Withdrawal, 1, 2, 1, 0), refer(Dispute, 1, 2)]);
    assert_eq!(out, vec![acc(1, 10000, 10000, false)]);
}

#[test]
fn dispute_allowed_on_locked_account() {
    let out = run(vec![
        money(Deposit, 1, 1, 3, 0),
        money(Deposit, 1, 2, 4, 0),
        refer(Dispute, 1, 1),
        refer(Chargeback, 1, 1),
        refer(Dispute, 1, 2),
    ]);
    assert_eq!(out, vec![acc(1, 0, 40000, true)]);
}

#[test]
fn first_matching_record_wins() {
    let out = run(vec![
        money(Deposit, 1, 1, 3, 0),
        money(Deposit, 1, 1, 5, 0),
        refer(Dispute, 1, 1),
    ]);
    assert_eq!(out, vec![acc(1, 50000, 30000, false)]);
}

#[test]
fn resolve_ok() {
    let out = run(vec![money(Deposit, 1, 1, 3, 0), refer(Dispute, 1, 1), refer(Resolve, 1, 1)]);
    assert_eq!(out, vec![acc(1, 30000, 0, false)]);
}

#[test]
fn resolve_repeated() {
    let out = run(vec![
        money(Deposit, 1, 1, 3, 0),
        refer(Dispute, 1, 1),
        refer(Resolve, 1, 1),
        refer(Resolve, 1, 1),
    ]);
    assert_eq!(out, vec![acc(1, 30000, 0, false)]);
}

#[test]
fn resolve_unknown() {
    let out = run(vec![money(Deposit, 1, 1, 3, 0), refer(Dispute, 1, 1), refer(Resolve, 1, 8)]);
    assert_eq!(out, vec![acc(1, 0, 30000, false)]);
}

#[test]
fn resolve_invalid_cid_tx() {
    let out = run(vec![
        money(Deposit, 1, 1, 3, 0),
        refer(Dispute, 1, 1),
        refer(Resolve, 2, 1),
    ]);
    assert_eq!(out, vec![acc(1, 0, 30000, false), acc(2, 0, 0, false)]);
}

#[test]
fn chargeback_ok() {
    let out = run(vec![
        money(Deposit, 1, 1, 3, 0),
        money(Deposit, 1, 2, 1, 0),
        refer(Dispute, 1, 1),
        refer(Chargeback, 1, 1),
    ]);
    assert_eq!(out, vec![acc(1, 10000, 0, true)]);
}

#[test]
fn chargeback_repeated() {
    let out = run(vec![
        money(Deposit, 1, 1, 3, 0),
        money(Deposit, 1, 2, 1, 0),
        refer(Dispute, 1, 1),
        refer(Chargeback, 1, 1),
        refer(Chargeback, 1, 1),
    ]);
    assert_eq!(out, vec![acc(1, 10000, 0, true)]);
}

#[test]
fn chargeback_unknown() {
    let out = run(vec![money(Deposit, 1, 1, 3, 0), refer(Dispute, 1, 1), refer(Chargeback, 1, 9)]);
    assert_eq!(out, vec![acc(1, 0, 30000, false)]);
}

#[test]
fn chargeback_invalid_cid_tx() {
    let out = run(vec![
        money(Deposit, 1, 1, 3, 0),
        refer(Dispute, 1, 1),
        refer(Chargeback, 3, 1),
    ]);
    assert_eq!(out, vec![acc(1, 0, 30000, false), acc(3, 0, 0, false)]);
}

#[test]
fn undisputed() {
    let out = run(vec![money(Deposit, 1, 1, 3, 0), refer(Chargeback, 1, 1)]);
    assert_eq!(out, vec![acc(1, 30000, 0, false)]);
}

#[test]
fn lock_blocks_later_deposits_and_withdrawals() {
    let out = run(vec![
        money(Deposit, 1, 1, 3, 0),
        money(Deposit, 1, 2, 2, 0),
        refer(Dispute, 1, 1),
        refer(Chargeback, 1, 1),
        money(Deposit, 1, 3, 7, 0),
        money(Withdrawal, 1, 4, 1, 0),
        money(Deposit, 2, 5, 1, 0),
    ]);
    assert_eq!(out, vec![acc(1, 20000, 0, true), acc(2, 10000, 0, false)]);
}

#[test]
fn snapshot_sorted_by_client() {
    let out = run(vec![
        money(Deposit, 9, 1, 1, 0),
        money(Deposit, 3, 2, 1, 0),
        money(Deposit, 65535, 3, 1, 0),
        money(Deposit, 0, 4, 1, 0),
        money(Deposit, 3, 5, 1, 0),
    ]);
    let clients: Vec<u16> = out.iter().map(|a| a.client_id).collect();
    assert_eq!(clients, vec![0, 3, 9, 65535]);
    assert_eq!(out[1], acc(3, 20000, 0, false));
}

#[test]
fn empty_log_has_no_accounts() {
    assert_eq!(run(vec![]), vec![]);
}

#[test]
fn snapshot_can_be_taken_twice() {
    let ledger = Ledger::from_rows(&scenario_b()).unwrap();
    let mut bank = Bank::new(ledger);
    let first = bank.ordered_accounts_balance().unwrap();
    let second = bank.ordered_accounts_balance().unwrap();
    assert_eq!(first, second);
}

#[test]
fn overflowing_deposit_stops_the_replay() {
    let rows = vec![
        row(Deposit, 1, 1, Some((MAX_UNITS as i128, 4))),
        money(Deposit, 1, 2, 1, 4),
    ];
    let mut bank = Bank::new(Ledger::from_rows(&rows).unwrap());
    assert_eq!(bank.ordered_accounts_balance(), Err(ReplayError::BalanceOverflow { index: 1 }));
}

#[test]
fn largest_balance_is_accepted() {
    let rows = vec![
        row(Deposit, 1, 1, Some(((MAX_UNITS - 1) as i128, 4))),
        money(Deposit, 1, 2, 1, 4),
    ];
    assert_eq!(run(rows), vec![acc(1, MAX_UNITS, 0, false)]);
}

#[test]
fn invariant_holds_after_every_record() {
    let rows = vec![
        money(Deposit, 1, 1, 3, 0),
        money(Deposit, 1, 2, 2, 0),
        refer(Dispute, 1, 1),
        money(Withdrawal, 1, 3, 1, 0),
        refer(Dispute, 1, 2),
        refer(Resolve, 1, 1),
        refer(Dispute, 1, 1),
        refer(Chargeback, 1, 2),
    ];
    let mut bank = Bank::new(Ledger::from_rows(&rows).unwrap());
    for i in 0..rows.len() {
        bank.execute(i).unwrap();
        assert_eq!(bank.account(1), 0);
    }
    let out = bank.ordered_accounts_balance().unwrap();
    for a in &out {
        assert_eq!(a.available_funds + a.held_funds, a.total_funds);
    }
    assert_eq!(out, vec![acc(1, 10000, 30000, false)]);
}

#[test]
fn resolve_on_undisputed_changes_nothing() {
    let mut a = Account::new(4);
    deposit(&mut a, 30000).unwrap();
    let t = TransactionLog::Deposit { client_id: 4, tx_id: 1, amount: 30000 };
    resolve(&mut a, Some(t));
    chargeback(&mut a, Some(t));
    assert_eq!(a.to_csv(), acc(4, 30000, 0, false));
    assert_eq!(a.find_dispute(1), DisputeState::Undisputed);
}

#[test]
fn account_dispute_states() {
    let mut a = Account::new(4);
    deposit(&mut a, 50000).unwrap();
    let t1 = TransactionLog::Deposit { client_id: 4, tx_id: 1, amount: 20000 };
    let t2 = TransactionLog::Deposit { client_id: 4, tx_id: 2, amount: 10000 };
    dispute(&mut a, Some(t1));
    dispute(&mut a, Some(t2));
    assert_eq!(a.find_dispute(1), DisputeState::Disputed(20000));
    assert_eq!(a.held_funds(), 30000);
    assert_eq!(a.available_funds(), 20000);
    assert_eq!(a.total_funds(), 50000);
    chargeback(&mut a, Some(t1));
    assert_eq!(a.find_dispute(1), DisputeState::Chargeback);
    assert_eq!(a.find_dispute(2), DisputeState::Disputed(10000));
    assert!(a.locked());
    assert_eq!(a.total_funds(), 30000);
    withdrawal(&mut a, 1);
    assert_eq!(a.available_funds(), 20000);
    assert_eq!(deposit(&mut a, 5), Ok(()));
    assert_eq!(a.available_funds(), 20000);
    resolve(&mut a, Some(t2));
    assert_eq!(a.to_csv(), acc(4, 30000, 0, true));
    assert_eq!(a.client_id(), 4);
}

#[test]
fn account_overflow_error() {
    let mut a = Account::new(1);
    deposit(&mut a, MAX_UNITS).unwrap();
    assert_eq!(deposit(&mut a, 1), Err(TransactionError::BalanceOverflow));
    assert_eq!(a.available_funds(), MAX_UNITS);
}

#[test]
fn account_held_bookkeeping() {
    let mut a = Account::new(1);
    a.set_available_funds(70000);
    a.add_held_funds(20000, 5);
    a.add_held_funds(10000, 6);
    assert_eq!(a.held_funds(), 30000);
    a.remove_held_funds(5);
    assert_eq!(a.held_funds(), 10000);
    a.remove_held_funds(5);
    assert_eq!(a.held_funds(), 10000);
    a.complete_dispute(5, DisputeState::Undisputed);
    assert_eq!(a.find_dispute(5), DisputeState::Undisputed);
    a.complete_dispute(5, DisputeState::Chargeback);
    assert_eq!(a.find_dispute(5), DisputeState::Chargeback);
    a.set_locked(true);
    assert!(a.locked());
}

#[test]
fn backward_lookup_scans_prefix_only() {
    let rows = vec![
        money(Deposit, 1, 1, 3, 0),
        money(Deposit, 2, 1, 4, 0),
        money(Deposit, 1, 2, 5, 0),
    ];
    let bank = Bank::new(Ledger::from_rows(&rows).unwrap());
    assert_eq!(bank.transaction(3, 2, 1), Some(TransactionLog::Deposit { client_id: 2, tx_id: 1, amount: 40000 }));
    assert_eq!(bank.transaction(1, 2, 1), None);
    assert_eq!(bank.transaction(100, 1, 2), Some(TransactionLog::Deposit { client_id: 1, tx_id: 2, amount: 50000 }));
    assert_eq!(bank.transaction(3, 1, 9), None);
}

#[test]
fn record_validation() {
    assert_eq!(
        TransactionLog::try_from_csv(money(Withdrawal, 3, 4, 15, 1)),
        Ok(TransactionLog::Withdrawal { client_id: 3, tx_id: 4, amount: 15000 })
    );
    assert_eq!(
        TransactionLog::try_from_csv(money(Resolve, 3, 4, 15, 1)),
        Ok(TransactionLog::Resolve { client_id: 3, tx_id: 4 })
    );
    assert_eq!(TransactionLog::try_from_csv(refer(Deposit, 1, 1)), Err(RecordError::MissingAmount));
    assert_eq!(TransactionLog::try_from_csv(money(Deposit, 1, 1, -1, 0)), Err(RecordError::InvalidAmount));
    assert_eq!(TransactionLog::try_from_csv(money(Deposit, 1, 1, 100001, 5)), Err(RecordError::InvalidAmount));
    assert_eq!(TransactionLog::try_from_csv(money(Deposit, 1, 1, 1, 29)), Err(RecordError::InvalidAmount));
    let t = TransactionLog::try_from_csv(money(Deposit, 7, 8, 9, 0)).unwrap();
    assert_eq!(t.transaction_type(), Deposit);
    assert_eq!(t.client_id(), 7);
    assert_eq!(t.transaction_id(), 8);
    assert_eq!(t.amount(), Some(90000));
}

#[test]
fn malformed_row_rejects_the_log() {
    let rows = vec![money(Deposit, 1, 1, 1, 0), refer(Withdrawal, 1, 2), money(Deposit, 1, 3, -5, 0)];
    assert!(matches!(Ledger::from_rows(&rows), Err(RecordError::MissingAmount)));
}

#[test]
fn decimal_to_units() {
    assert_eq!(units_from_decimal(15, 1), Some(15000));
    assert_eq!(units_from_decimal(150000, 5), Some(15000));
    assert_eq!(units_from_decimal(12345, 4), Some(12345));
    assert_eq!(units_from_decimal(12345, 5), None);
    assert_eq!(units_from_decimal(0, 28), Some(0));
    assert_eq!(units_from_decimal(-3, 0), None);
    assert_eq!(units_from_decimal(MAX_UNITS as i128, 4), Some(MAX_UNITS));
    assert_eq!(units_from_decimal(MAX_UNITS as i128, 3), None);
    assert_eq!(units_from_decimal(7, 0), Some(70000));
}
