//! The typed transaction model and the validator that builds it from a
//! raw, loosely-typed record.

use vstd::prelude::*;

verus! {

/// Account holder identifier.
#[derive(Clone, Copy, Debug, PartialEq, Eq, Structural)]
pub struct Client(pub u16);

/// Identifier of a deposit or withdrawal, referenced later by
/// dispute-related transactions.
#[derive(Clone, Copy, Debug, PartialEq, Eq, Structural)]
pub struct Tx(pub u32);

/// An exact monetary value: a signed count of ten-thousandths of a
/// currency unit (four decimal places, the precision of the record
/// stream).  Fixed-point integers keep every sum exact; binary floating
/// point is never involved.  Negative values are representable on
/// purpose: the engine does not reject negative amounts.
#[derive(Clone, Copy, Debug, PartialEq, Eq, Structural)]
pub struct Amount(pub i128);

/// Number of `Amount` units in one whole currency unit.
pub const AMOUNT_UNIT: i128 = 10_000;

/// The transaction type tag of a raw record, before validation.
#[derive(Clone, Copy, Debug, PartialEq, Eq, Structural)]
pub enum TxType {
    Deposit,
    Withdrawal,
    Dispute,
    Resolve,
    Chargeback,
}

/// A raw transaction record as handed over by the record-stream reader:
/// a type tag, the two identifiers, and an amount that may or may not be
/// present.  Validation decides whether the shape is right for the tag.
#[derive(Clone, Copy, Debug)]
pub struct TxRecord {
    pub tx_type: TxType,
    pub client: Client,
    pub tx: Tx,
    pub amount: Option<Amount>,
}

/// Structural malformation of a single raw record.
#[derive(Clone, Copy, Debug, PartialEq, Eq, Structural)]
pub enum ValidationError {
    /// A deposit or withdrawal record without an amount.
    MissingAmount,
    /// A dispute, resolve or chargeback record with an amount.
    UnexpectedAmount,
}

/// A validated transaction: one of the five variants, with an amount
/// exactly where the variant calls for one.
#[derive(Clone, Copy, Debug)]
pub enum Transaction {
    Deposit(Deposit),
    Withdrawal(Withdrawal),
    Dispute(Dispute),
    Resolve(Resolve),
    Chargeback(Chargeback),
}

/// Credits `amount` to `client`'s available funds and records the
/// deposit under `(client, tx)` for later disputes.
#[derive(Clone, Copy, Debug)]
pub struct Deposit {
    pub client: Client,
    pub tx: Tx,
    pub amount: Amount,
}

/// Debits `amount` from `client`'s available funds.
#[derive(Clone, Copy, Debug)]
pub struct Withdrawal {
    pub client: Client,
    pub tx: Tx,
    pub amount: Amount,
}

/// Opens a dispute on the deposit recorded under `(client, tx)`,
/// moving its amount from available to held.
#[derive(Clone, Copy, Debug)]
pub struct Dispute {
    pub client: Client,
    pub tx: Tx,
}

/// Closes the active dispute on `(client, tx)` in the client's favour,
/// moving the held amount back to available.
#[derive(Clone, Copy, Debug)]
pub struct Resolve {
    pub client: Client,
    pub tx: Tx,
}

/// Closes the active dispute on `(client, tx)` against the client,
/// withdrawing the held amount and locking the account.
#[derive(Clone, Copy, Debug)]
pub struct Chargeback {
    pub client: Client,
    pub tx: Tx,
}

/// What validation makes of a raw record: deposits and withdrawals must
/// carry an amount, the three dispute-lifecycle records must not.
/// No sign or magnitude check is made on the amount.
pub open spec fn spec_validate(rec: TxRecord) -> Result<Transaction, ValidationError> {
    match rec.tx_type {
        TxType::Deposit => match rec.amount {
            Some(amount) => Ok(
                Transaction::Deposit(Deposit { client: rec.client, tx: rec.tx, amount }),
            ),
            None => Err(ValidationError::MissingAmount),
        },
        TxType::Withdrawal => match rec.amount {
            Some(amount) => Ok(
                Transaction::Withdrawal(Withdrawal { client: rec.client, tx: rec.tx, amount }),
            ),
            None => Err(ValidationError::MissingAmount),
        },
        TxType::Dispute => match rec.amount {
            Some(_) => Err(ValidationError::UnexpectedAmount),
            None => Ok(Transaction::Dispute(Dispute { client: rec.client, tx: rec.tx })),
        },
        TxType::Resolve => match rec.amount {
            Some(_) => Err(ValidationError::UnexpectedAmount),
            None => Ok(Transaction::Resolve(Resolve { client: rec.client, tx: rec.tx })),
        },
        TxType::Chargeback => match rec.amount {
            Some(_) => Err(ValidationError::UnexpectedAmount),
            None => Ok(Transaction::Chargeback(Chargeback { client: rec.client, tx: rec.tx })),
        },
    }
}

impl TxRecord {
    /// Validates this raw record into a typed transaction, enforcing the
    /// per-variant amount-presence rules.
    pub fn into_transaction(self) -> (r: Result<Transaction, ValidationError>)
        ensures
            r == spec_validate(self),
    {
        match self.tx_type {
            TxType::Deposit => match self.amount {
                Some(amount) => Ok(
                    Transaction::Deposit(Deposit { client: self.client, tx: self.tx, amount }),
                ),
                None => Err(ValidationError::MissingAmount),
            },
            TxType::Withdrawal => match self.amount {
                Some(amount) => Ok(
                    Transaction::Withdrawal(
                        Withdrawal { client: self.client, tx: self.tx, amount },
                    ),
                ),
                None => Err(ValidationError::MissingAmount),
            },
            TxType::Dispute => match self.amount {
                Some(_) => Err(ValidationError::UnexpectedAmount),
                None => Ok(Transaction::Dispute(Dispute { client: self.client, tx: self.tx })),
            },
            TxType::Resolve => match self.amount {
                Some(_) => Err(ValidationError::UnexpectedAmount),
                None => Ok(Transaction::Resolve(Resolve { client: self.client, tx: self.tx })),
            },
            TxType::Chargeback => match self.amount {
                Some(_) => Err(ValidationError::UnexpectedAmount),
                None => Ok(
                    Transaction::Chargeback(Chargeback { client: self.client, tx: self.tx }),
                ),
            },
        }
    }
}

} // verus!
