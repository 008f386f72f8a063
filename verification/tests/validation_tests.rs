use toy_payment_engine::model::{
    Amount, Client, Transaction, Tx, TxRecord, TxType, ValidationError, AMOUNT_UNIT,
};

#[test]
fn test_deposit_with_amount() -> Result<(), ValidationError> {
    TxRecord {
        tx_type: TxType::Deposit,
        client: Client(0),
        tx: Tx(0),
        amount: Some(Amount(AMOUNT_UNIT)),
    }
    .into_transaction()
    .map(|_| ())
}

#[test]
fn test_deposit_without_amount() {
    assert!(TxRecord {
        tx_type: TxType::Deposit,
        client: Client(0),
        tx: Tx(0),
        amount: None,
    }
    .into_transaction()
    .is_err())
}

#[test]
fn test_withdrawal_with_amount() -> Result<(), ValidationError> {
    TxRecord {
        tx_type: TxType::Withdrawal,
        client: Client(0),
        tx: Tx(0),
        amount: Some(Amount(AMOUNT_UNIT)),
    }
    .into_transaction()
    .map(|_| ())
}

#[test]
fn test_withdrawal_without_amount() {
    assert!(TxRecord {
        tx_type: TxType::Withdrawal,
        client: Client(0),
        tx: Tx(0),
        amount: None,
    }
    .into_transaction()
    .is_err())
}

#[test]
fn lib_test_dispute() -> Result<(), ValidationError> {
    TxRecord {
        tx_type: TxType::Dispute,
        client: Client(0),
        tx: Tx(0),
        amount: None,
    }
    .into_transaction()
    .map(|_| ())
}

#[test]
fn test_dispute_with_amount() {
    assert!(TxRecord {
        tx_type: TxType::Dispute,
        client: Client(0),
        tx: Tx(0),
        amount: Some(Amount(AMOUNT_UNIT)),
    }
    .into_transaction()
    .is_err())
}

#[test]
fn lib_test_resolve() -> Result<(), ValidationError> {
    TxRecord {
        tx_type: TxType::Resolve,
        client: Client(0),
        tx: Tx(0),
        amount: None,
    }
    .into_transaction()
    .map(|_| ())
}

#[test]
fn test_resolve_with_amount() {
    assert!(TxRecord {
        tx_type: TxType::Resolve,
        client: Client(0),
        tx: Tx(0),
        amount: Some(Amount(AMOUNT_UNIT)),
    }
    .into_transaction()
    .is_err())
}

#[test]
fn lib_test_chargeback() -> Result<(), ValidationError> {
    TxRecord {
        tx_type: TxType::Chargeback,
        client: Client(0),
        tx: Tx(0),
        amount: None,
    }
    .into_transaction()
    .map(|_| ())
}

#[test]
fn test_chargeback_with_amount() {
    assert!(TxRecord {
        tx_type: TxType::Chargeback,
        client: Client(0),
        tx: Tx(0),
        amount: Some(Amount(AMOUNT_UNIT)),
    }
    .into_transaction()
    .is_err())
}

#[test]
fn validation_exact_results() {
    // A valid deposit carries its fields over unchanged.
    let r = TxRecord {
        tx_type: TxType::Deposit,
        client: Client(7),
        tx: Tx(9),
        amount: Some(Amount(3 * AMOUNT_UNIT)),
    }
    .into_transaction();
    match r {
        Ok(Transaction::Deposit(d)) => {
            assert_eq!(d.client, Client(7));
            assert_eq!(d.tx, Tx(9));
            assert_eq!(d.amount, Amount(3 * AMOUNT_UNIT));
        }
        _ => panic!("expected a deposit"),
    }

    // The two error kinds come exactly where the rules say.
    assert_eq!(
        TxRecord {
            tx_type: TxType::Withdrawal,
            client: Client(1),
            tx: Tx(2),
            amount: None,
        }
        .into_transaction()
        .err(),
        Some(ValidationError::MissingAmount)
    );
    assert_eq!(
        TxRecord {
            tx_type: TxType::Resolve,
            client: Client(1),
            tx: Tx(2),
            amount: Some(Amount(1)),
        }
        .into_transaction()
        .err(),
        Some(ValidationError::UnexpectedAmount)
    );
}
