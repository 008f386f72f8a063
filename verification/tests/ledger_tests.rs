use toy_payment_engine::ledger::{Ledger, LedgerError};
use toy_payment_engine::model::{
    Amount, Chargeback, Client, Deposit, Dispute, Resolve, Transaction, Tx, Withdrawal,
    AMOUNT_UNIT,
};

fn run(txns: &[Transaction]) -> Result<Ledger, LedgerError> {
    let mut ledger = Ledger::default();
    for txn in txns {
        assert!(ledger.update_fits(txn));
        ledger.update(txn)?;
    }
    Ok(ledger)
}

#[test]
fn test_deposit() -> Result<(), LedgerError> {
    let client = Client(0);
    let ledger = run(&[Transaction::Deposit(Deposit {
        client,
        tx: Tx(0),
        amount: Amount(AMOUNT_UNIT),
    })])?;
    let b = ledger.balance(client).expect("client exists");
    assert_eq!(
        (b.available, b.held, b.locked),
        (Amount(AMOUNT_UNIT), Amount(0), false)
    );
    Ok(())
}

#[test]
fn test_withdrawal() -> Result<(), LedgerError> {
    let client = Client(0);
    let ledger = run(&[
        Transaction::Deposit(Deposit {
            client,
            tx: Tx(0),
            amount: Amount(2 * AMOUNT_UNIT),
        }),
        Transaction::Withdrawal(Withdrawal {
            client,
            tx: Tx(1),
            amount: Amount(AMOUNT_UNIT),
        }),
    ])?;
    let b = ledger.balance(client).expect("client exists");
    assert_eq!(
        (b.available, b.held, b.locked),
        (Amount(AMOUNT_UNIT), Amount(0), false)
    );
    Ok(())
}

#[test]
fn ledger_test_dispute() -> Result<(), LedgerError> {
    let client = Client(0);
    let ledger = run(&[
        Transaction::Deposit(Deposit {
            client,
            tx: Tx(0),
            amount: Amount(2 * AMOUNT_UNIT),
        }),
        Transaction::Dispute(Dispute { client, tx: Tx(0) }),
    ])?;
    let b = ledger.balance(client).expect("client exists");
    assert_eq!(
        (b.available, b.held, b.locked),
        (Amount(0), Amount(2 * AMOUNT_UNIT), false)
    );
    Ok(())
}

#[test]
fn ledger_test_resolve() -> Result<(), LedgerError> {
    let client = Client(0);
    let ledger = run(&[
        Transaction::Deposit(Deposit {
            client,
            tx: Tx(0),
            amount: Amount(2 * AMOUNT_UNIT),
        }),
        Transaction::Dispute(Dispute { client, tx: Tx(0) }),
        Transaction::Resolve(Resolve { client, tx: Tx(0) }),
    ])?;
    let b = ledger.balance(client).expect("client exists");
    assert_eq!(
        (b.available, b.held, b.locked),
        (Amount(2 * AMOUNT_UNIT), Amount(0), false)
    );
    Ok(())
}

#[test]
fn ledger_test_chargeback() -> Result<(), LedgerError> {
    let client = Client(0);
    let ledger = run(&[
        Transaction::Deposit(Deposit {
            client,
            tx: Tx(0),
            amount: Amount(2 * AMOUNT_UNIT),
        }),
        Transaction::Dispute(Dispute { client, tx: Tx(0) }),
        Transaction::Chargeback(Chargeback { client, tx: Tx(0) }),
    ])?;
    let b = ledger.balance(client).expect("client exists");
    assert_eq!((b.available, b.held, b.locked), (Amount(0), Amount(0), true));
    Ok(())
}
