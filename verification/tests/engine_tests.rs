use toy_payment_engine::ledger::{Ledger, LedgerError};
use toy_payment_engine::model::{
    Amount, Chargeback, Client, Deposit, Dispute, Resolve, Transaction, Tx, Withdrawal,
    AMOUNT_UNIT,
};

fn deposit(client: u16, tx: u32, amount: i128) -> Transaction {
    Transaction::Deposit(Deposit {
        client: Client(client),
        tx: Tx(tx),
        amount: Amount(amount),
    })
}

fn withdrawal(client: u16, tx: u32, amount: i128) -> Transaction {
    Transaction::Withdrawal(Withdrawal {
        client: Client(client),
        tx: Tx(tx),
        amount: Amount(amount),
    })
}

fn dispute(client: u16, tx: u32) -> Transaction {
    Transaction::Dispute(Dispute {
        client: Client(client),
        tx: Tx(tx),
    })
}

fn resolve(client: u16, tx: u32) -> Transaction {
    Transaction::Resolve(Resolve {
        client: Client(client),
        tx: Tx(tx),
    })
}

fn chargeback(client: u16, tx: u32) -> Transaction {
    Transaction::Chargeback(Chargeback {
        client: Client(client),
        tx: Tx(tx),
    })
}

fn run(txns: &[Transaction]) -> Result<Ledger, LedgerError> {
    let mut ledger = Ledger::default();
    for txn in txns {
        assert!(ledger.update_fits(txn));
        ledger.update(txn)?;
    }
    Ok(ledger)
}

fn assert_balance(ledger: &Ledger, client: u16, available: i128, held: i128, locked: bool) {
    let b = ledger.balance(Client(client)).expect("client exists");
    assert_eq!(
        (b.available, b.held, b.locked),
        (Amount(available), Amount(held), locked)
    );
}

// A mixed run: two clients, a partial withdrawal, one dispute left open.
#[test]
fn mixed_scenario() -> Result<(), LedgerError> {
    let one = AMOUNT_UNIT;
    let ledger = run(&[
        deposit(1, 1, one),
        deposit(2, 2, 2 * one),
        deposit(1, 3, 2 * one),
        withdrawal(1, 4, one + one / 2),
        dispute(2, 2),
    ])?;
    assert_balance(&ledger, 1, one + one / 2, 0, false);
    assert_balance(&ledger, 2, 0, 2 * one, false);
    Ok(())
}

// The same run continued with a chargeback on the open dispute.
#[test]
fn mixed_scenario_chargeback() -> Result<(), LedgerError> {
    let one = AMOUNT_UNIT;
    let ledger = run(&[
        deposit(1, 1, one),
        deposit(2, 2, 2 * one),
        deposit(1, 3, 2 * one),
        withdrawal(1, 4, one + one / 2),
        dispute(2, 2),
        chargeback(2, 2),
    ])?;
    assert_balance(&ledger, 1, one + one / 2, 0, false);
    assert_balance(&ledger, 2, 0, 0, true);
    Ok(())
}

// Deposits alone: every client's available funds add up to what was
// deposited.
#[test]
fn deposits_add_up() -> Result<(), LedgerError> {
    let ledger = run(&[
        deposit(1, 1, 100),
        deposit(2, 2, 250),
        deposit(1, 3, 50),
        deposit(3, 4, 7),
    ])?;
    let records = ledger.snapshots().expect("totals fit");
    let total: i128 = records.iter().map(|r| r.available.0).sum();
    assert_eq!(total, 100 + 250 + 50 + 7);
    Ok(())
}

// The withdrawal boundary is strict: taking exactly the available
// balance is rejected, taking one unit less is accepted.
#[test]
fn exact_withdrawal_rejected() -> Result<(), LedgerError> {
    let mut ledger = run(&[deposit(1, 1, 500)])?;
    assert_eq!(
        ledger.update(&withdrawal(1, 2, 500)),
        Err(LedgerError::InsufficientFunds)
    );
    assert_balance(&ledger, 1, 500, 0, false);
    ledger.update(&withdrawal(1, 3, 499))?;
    assert_balance(&ledger, 1, 1, 0, false);
    Ok(())
}

#[test]
fn withdrawal_needs_client() {
    let mut ledger = Ledger::default();
    assert_eq!(
        ledger.update(&withdrawal(1, 1, 100)),
        Err(LedgerError::ClientNotFound)
    );
}

#[test]
fn dispute_needs_deposit() -> Result<(), LedgerError> {
    let mut ledger = run(&[deposit(1, 1, 100)])?;
    assert_eq!(
        ledger.update(&dispute(1, 2)),
        Err(LedgerError::DepositNotFound)
    );
    // the key is the pair: another client's deposit does not match
    assert_eq!(
        ledger.update(&dispute(2, 1)),
        Err(LedgerError::DepositNotFound)
    );
    assert_balance(&ledger, 1, 100, 0, false);
    Ok(())
}

#[test]
fn second_dispute_rejected() -> Result<(), LedgerError> {
    let mut ledger = run(&[deposit(1, 1, 100), dispute(1, 1)])?;
    assert_eq!(
        ledger.update(&dispute(1, 1)),
        Err(LedgerError::DisputeAlreadyExists)
    );
    assert_balance(&ledger, 1, 0, 100, false);
    Ok(())
}

#[test]
fn close_needs_active_dispute() -> Result<(), LedgerError> {
    let mut ledger = run(&[deposit(1, 1, 100)])?;
    assert_eq!(
        ledger.update(&resolve(1, 1)),
        Err(LedgerError::DisputeNotFound)
    );
    assert_eq!(
        ledger.update(&chargeback(1, 1)),
        Err(LedgerError::DisputeNotFound)
    );
    assert_balance(&ledger, 1, 100, 0, false);
    Ok(())
}

// Dispute then resolve restores the state right after the deposit, and
// the deposit can be disputed a second time.
#[test]
fn dispute_resolve_round_trip() -> Result<(), LedgerError> {
    let mut ledger = run(&[deposit(1, 1, 300), dispute(1, 1), resolve(1, 1)])?;
    assert_balance(&ledger, 1, 300, 0, false);
    ledger.update(&dispute(1, 1))?;
    assert_balance(&ledger, 1, 0, 300, false);
    Ok(())
}

// A chargeback locks the account for good, but later transactions on
// the client are still applied.
#[test]
fn locked_is_sticky_not_blocking() -> Result<(), LedgerError> {
    let mut ledger = run(&[deposit(1, 1, 100), dispute(1, 1), chargeback(1, 1)])?;
    assert_balance(&ledger, 1, 0, 0, true);
    ledger.update(&deposit(1, 2, 40))?;
    assert_balance(&ledger, 1, 40, 0, true);
    ledger.update(&withdrawal(1, 3, 10))?;
    assert_balance(&ledger, 1, 30, 0, true);
    Ok(())
}

// Negative amounts are not rejected: the engine applies them as given.
#[test]
fn negative_amounts_accepted() -> Result<(), LedgerError> {
    let ledger = run(&[deposit(1, 1, -100)])?;
    assert_balance(&ledger, 1, -100, 0, false);
    Ok(())
}

// Re-using a deposit's tx id silently overwrites the recorded amount;
// a later dispute holds the newer amount.
#[test]
fn redeposit_overwrites_record() -> Result<(), LedgerError> {
    let ledger = run(&[deposit(1, 1, 500), deposit(1, 1, 300), dispute(1, 1)])?;
    assert_balance(&ledger, 1, 500, 300, false);
    Ok(())
}

#[test]
fn balance_of_unknown_client() {
    let ledger = Ledger::default();
    assert!(ledger.balance(Client(9)).is_none());
}

// Snapshot records report each client exactly once with the derived
// total.
#[test]
fn snapshots_report_all_clients() -> Result<(), LedgerError> {
    let ledger = run(&[deposit(1, 1, 100), deposit(2, 2, 200), dispute(2, 2)])?;
    let mut records = ledger.snapshots().expect("totals fit");
    records.sort_by_key(|r| r.client.0);
    assert_eq!(records.len(), 2);
    assert_eq!(records[0].client, Client(1));
    assert_eq!(records[0].available, Amount(100));
    assert_eq!(records[0].held, Amount(0));
    assert_eq!(records[0].total, Amount(100));
    assert!(!records[0].locked);
    assert_eq!(records[1].client, Client(2));
    assert_eq!(records[1].available, Amount(0));
    assert_eq!(records[1].held, Amount(200));
    assert_eq!(records[1].total, Amount(200));
    assert!(!records[1].locked);
    Ok(())
}

// The arithmetic pre-check: a deposit that would overflow the amount
// range is reported as not fitting, and anything reasonable fits.
#[test]
fn update_fits_flags_overflow() -> Result<(), LedgerError> {
    let mut ledger = Ledger::default();
    let big = deposit(1, 1, i128::MAX);
    assert!(ledger.update_fits(&big));
    ledger.update(&big)?;
    assert!(!ledger.update_fits(&deposit(1, 2, 1)));
    assert!(ledger.update_fits(&deposit(1, 3, 0)));
    Ok(())
}
