//! Per-client balances and the ledger that applies validated
//! transactions to them.

use std::collections::HashMap;

use vstd::prelude::*;

use crate::model::{Amount, Chargeback, Client, Deposit, Dispute, Resolve, Transaction, Tx,
    Withdrawal};

verus! {

broadcast use vstd::std_specs::hash::group_hash_axioms;

/// Semantically invalid (but well-formed) transaction, reported to the
/// caller; the ledger is left exactly as it was.
#[derive(Clone, Copy, Debug, PartialEq, Eq, Structural)]
pub enum LedgerError {
    /// A withdrawal names a client that has never deposited.
    ClientNotFound,
    /// A withdrawal asks for at least the whole available balance
    /// (the boundary is strict: equality is rejected).
    InsufficientFunds,
    /// A dispute names a deposit that is already under dispute.
    DisputeAlreadyExists,
    /// A dispute names a `(client, tx)` with no recorded deposit.
    DepositNotFound,
    /// A resolve or chargeback names a `(client, tx)` with no active
    /// dispute.
    DisputeNotFound,
}

/// Mathematical value of a [`Balance`].
pub struct BalanceView {
    pub available: int,
    pub held: int,
    pub locked: bool,
}

/// A client's monetary state: spendable funds, funds frozen pending
/// dispute resolution, and the sticky lock set by a chargeback.
/// The derived total (available + held) is never stored.
#[derive(Clone, Copy, Debug)]
pub struct Balance {
    pub available: Amount,
    pub held: Amount,
    pub locked: bool,
}

impl View for Balance {
    type V = BalanceView;

    open spec fn view(&self) -> BalanceView {
        BalanceView {
            available: self.available.0 as int,
            held: self.held.0 as int,
            locked: self.locked,
        }
    }
}

/// The all-zero, unlocked balance a client starts from.
pub open spec fn zero_balance() -> BalanceView {
    BalanceView { available: 0, held: 0, locked: false }
}

/// Whether a mathematical value is representable in an [`Amount`].
pub open spec fn fits_amount(v: int) -> bool {
    i128::MIN <= v <= i128::MAX
}

impl Default for Balance {
    /// The zero-initialized balance created on a client's first deposit.
    fn default() -> (r: Balance)
        ensures
            r@ == zero_balance(),
    {
        Balance { available: Amount(0), held: Amount(0), locked: false }
    }
}

impl Balance {
    /// Credits the amount to the available funds.
    fn deposit(&mut self, amount: &Amount)
        requires
            fits_amount(old(self)@.available + amount.0),
        ensures
            final(self)@ == (BalanceView { available: old(self)@.available + amount.0, ..old(self)@ }),
    {
        self.available = Amount(self.available.0 + amount.0);
    }

    /// Debits the amount from the available funds if they strictly
    /// exceed it; rejects the withdrawal otherwise.
    fn withdraw(&mut self, amount: &Amount) -> (r: Result<(), LedgerError>)
        requires
            old(self)@.available > amount.0 ==> fits_amount(old(self)@.available - amount.0),
        ensures
            old(self)@.available > amount.0 ==> r == Ok::<(), LedgerError>(()) && final(self)@
                == (BalanceView { available: old(self)@.available - amount.0, ..old(self)@ }),
            old(self)@.available <= amount.0 ==> r == Err::<(), LedgerError>(
                LedgerError::InsufficientFunds,
            ) && *final(self) == *old(self),
    {
        if self.available.0 > amount.0 {
            self.available = Amount(self.available.0 - amount.0);
            Ok(())
        } else {
            Err(LedgerError::InsufficientFunds)
        }
    }

    /// Freezes the amount: moves it from available to held.
    fn dispute(&mut self, amount: &Amount)
        requires
            fits_amount(old(self)@.available - amount.0),
            fits_amount(old(self)@.held + amount.0),
        ensures
            final(self)@ == (BalanceView {
                available: old(self)@.available - amount.0,
                held: old(self)@.held + amount.0,
                locked: old(self)@.locked,
            }),
    {
        self.available = Amount(self.available.0 - amount.0);
        self.held = Amount(self.held.0 + amount.0);
    }

    /// Releases a frozen amount back to available.
    fn resolve(&mut self, amount: &Amount)
        requires
            fits_amount(old(self)@.available + amount.0),
            fits_amount(old(self)@.held - amount.0),
        ensures
            final(self)@ == (BalanceView {
                available: old(self)@.available + amount.0,
                held: old(self)@.held - amount.0,
                locked: old(self)@.locked,
            }),
    {
        self.available = Amount(self.available.0 + amount.0);
        self.held = Amount(self.held.0 - amount.0);
    }

    /// Withdraws a frozen amount for good and locks the account.
    fn chargeback(&mut self, amount: &Amount)
        requires
            fits_amount(old(self)@.held - amount.0),
        ensures
            final(self)@ == (BalanceView {
                available: old(self)@.available,
                held: old(self)@.held - amount.0,
                locked: true,
            }),
    {
        self.held = Amount(self.held.0 - amount.0);
        self.locked = true;
    }
}

/// Composite lookup key for the deposit and dispute indices: the client
/// identifier in the high 32 bits, the transaction identifier in the
/// low 32 bits.  Distinct `(client, tx)` pairs give distinct keys.
pub open spec fn key_of(client: u16, tx: u32) -> u64 {
    (client as int * 0x1_0000_0000 + tx as int) as u64
}

/// The client a composite key belongs to.
pub open spec fn client_of(k: u64) -> u16 {
    (k as int / 0x1_0000_0000) as u16
}

/// A composite key always remembers its client.
pub proof fn lemma_key_of_client(client: u16, tx: u32)
    ensures
        client_of(key_of(client, tx)) == client,
{
    vstd::arithmetic::div_mod::lemma_div_multiples_vanish_fancy(
        client as int,
        tx as int,
        0x1_0000_0000,
    );
}

/// Builds the composite key of a `(client, tx)` pair.
fn key(client: Client, tx: Tx) -> (k: u64)
    ensures
        k == key_of(client.0, tx.0),
{
    (client.0 as u64) * 0x1_0000_0000 + (tx.0 as u64)
}

/// Mathematical value of a [`Ledger`]: the per-client balances, the
/// append-only record of every deposit's amount, and the amounts of the
/// currently active disputes.  The two indices are keyed by the
/// composite `(client, tx)` key.
#[verifier::ext_equal]
pub struct LedgerView {
    pub balances: Map<u16, BalanceView>,
    pub deposits: Map<u64, int>,
    pub disputes: Map<u64, int>,
}

/// The state a ledger starts from: no clients, no deposits, no disputes.
pub open spec fn empty_ledger() -> LedgerView {
    LedgerView { balances: Map::empty(), deposits: Map::empty(), disputes: Map::empty() }
}

/// Referential integrity of a ledger state: every active dispute refers
/// to a recorded deposit, and a balance exists exactly for the clients
/// with at least one recorded deposit.
pub open spec fn view_wf(s: LedgerView) -> bool {
    &&& s.balances.dom().finite()
    &&& s.deposits.dom().finite()
    &&& s.disputes.dom().finite()
    &&& forall|k: u64| s.disputes.contains_key(k) ==> s.deposits.contains_key(k)
    &&& forall|k: u64| s.deposits.contains_key(k) ==> s.balances.contains_key(client_of(k))
    &&& forall|c: u16|
        s.balances.contains_key(c) ==> exists|k: u64|
            #[trigger] s.deposits.contains_key(k) && client_of(k) == c
}

/// A deposit credits the client's available funds (creating the balance
/// on the client's first deposit) and records the amount under the
/// composite key, silently overwriting any prior deposit with the same
/// key.  A deposit never fails.
pub open spec fn step_deposit(s: LedgerView, d: Deposit) -> LedgerView {
    let b = if s.balances.contains_key(d.client.0) {
        s.balances[d.client.0]
    } else {
        zero_balance()
    };
    LedgerView {
        balances: s.balances.insert(
            d.client.0,
            BalanceView { available: b.available + d.amount.0, ..b },
        ),
        deposits: s.deposits.insert(key_of(d.client.0, d.tx.0), d.amount.0 as int),
        ..s
    }
}

/// A withdrawal needs an existing client and strictly more available
/// funds than it asks for (withdrawing exactly the whole available
/// balance is rejected); it then debits the available funds.
pub open spec fn step_withdrawal(s: LedgerView, w: Withdrawal) -> (LedgerView, Result<
    (),
    LedgerError,
>) {
    if !s.balances.contains_key(w.client.0) {
        (s, Err(LedgerError::ClientNotFound))
    } else {
        let b = s.balances[w.client.0];
        if b.available > w.amount.0 {
            (
                LedgerView {
                    balances: s.balances.insert(
                        w.client.0,
                        BalanceView { available: b.available - w.amount.0, ..b },
                    ),
                    ..s
                },
                Ok(()),
            )
        } else {
            (s, Err(LedgerError::InsufficientFunds))
        }
    }
}

/// A dispute needs a recorded deposit under its key that is not already
/// under dispute; it then freezes the deposited amount (available to
/// held) and marks the dispute active.
pub open spec fn step_dispute(s: LedgerView, d: Dispute) -> (LedgerView, Result<(), LedgerError>) {
    let k = key_of(d.client.0, d.tx.0);
    if s.disputes.contains_key(k) {
        (s, Err(LedgerError::DisputeAlreadyExists))
    } else if !s.deposits.contains_key(k) {
        (s, Err(LedgerError::DepositNotFound))
    } else {
        let a = s.deposits[k];
        let b = s.balances[d.client.0];
        (
            LedgerView {
                balances: s.balances.insert(
                    d.client.0,
                    BalanceView { available: b.available - a, held: b.held + a, locked: b.locked },
                ),
                disputes: s.disputes.insert(k, a),
                ..s
            },
            Ok(()),
        )
    }
}

/// A resolve needs an active dispute under its key; it then returns the
/// held amount to available and deactivates the dispute.  The deposit
/// record is kept, so the same deposit may be disputed again.
pub open spec fn step_resolve(s: LedgerView, r: Resolve) -> (LedgerView, Result<(), LedgerError>) {
    let k = key_of(r.client.0, r.tx.0);
    if !s.disputes.contains_key(k) {
        (s, Err(LedgerError::DisputeNotFound))
    } else {
        let a = s.disputes[k];
        let b = s.balances[r.client.0];
        (
            LedgerView {
                balances: s.balances.insert(
                    r.client.0,
                    BalanceView { available: b.available + a, held: b.held - a, locked: b.locked },
                ),
                disputes: s.disputes.remove(k),
                ..s
            },
            Ok(()),
        )
    }
}

/// A chargeback needs an active dispute under its key; it then withdraws
/// the held amount for good, deactivates the dispute, and locks the
/// account (the lock is never reset, and no later transaction on the
/// client is blocked by it).
pub open spec fn step_chargeback(s: LedgerView, c: Chargeback) -> (LedgerView, Result<
    (),
    LedgerError,
>) {
    let k = key_of(c.client.0, c.tx.0);
    if !s.disputes.contains_key(k) {
        (s, Err(LedgerError::DisputeNotFound))
    } else {
        let a = s.disputes[k];
        let b = s.balances[c.client.0];
        (
            LedgerView {
                balances: s.balances.insert(
                    c.client.0,
                    BalanceView { available: b.available, held: b.held - a, locked: true },
                ),
                disputes: s.disputes.remove(k),
                ..s
            },
            Ok(()),
        )
    }
}

/// What one transaction makes of a ledger state: the state after the
/// attempt and the outcome.  On every error the state is returned
/// exactly as it was.
pub open spec fn ledger_step(s: LedgerView, txn: Transaction) -> (LedgerView, Result<
    (),
    LedgerError,
>) {
    match txn {
        Transaction::Deposit(d) => (step_deposit(s, d), Ok(())),
        Transaction::Withdrawal(w) => step_withdrawal(s, w),
        Transaction::Dispute(d) => step_dispute(s, d),
        Transaction::Resolve(r) => step_resolve(s, r),
        Transaction::Chargeback(c) => step_chargeback(s, c),
    }
}

/// Whether the arithmetic a transaction would perform on success stays
/// within the range of an [`Amount`].  Exceeding it is a machine limit,
/// not a ledger rule, so [`Ledger::update`] asks for this instead of
/// inventing an error the ledger does not have.
pub open spec fn step_fits(s: LedgerView, txn: Transaction) -> bool {
    match txn {
        Transaction::Deposit(d) => {
            let b = if s.balances.contains_key(d.client.0) {
                s.balances[d.client.0]
            } else {
                zero_balance()
            };
            fits_amount(b.available + d.amount.0)
        },
        Transaction::Withdrawal(w) => s.balances.contains_key(w.client.0)
            && s.balances[w.client.0].available > w.amount.0 ==> fits_amount(
            s.balances[w.client.0].available - w.amount.0,
        ),
        Transaction::Dispute(d) => {
            let k = key_of(d.client.0, d.tx.0);
            !s.disputes.contains_key(k) && s.deposits.contains_key(k) ==> {
                let a = s.deposits[k];
                let b = s.balances[d.client.0];
                fits_amount(b.available - a) && fits_amount(b.held + a)
            }
        },
        Transaction::Resolve(r) => {
            let k = key_of(r.client.0, r.tx.0);
            s.disputes.contains_key(k) ==> {
                let a = s.disputes[k];
                let b = s.balances[r.client.0];
                fits_amount(b.available + a) && fits_amount(b.held - a)
            }
        },
        Transaction::Chargeback(c) => {
            let k = key_of(c.client.0, c.tx.0);
            s.disputes.contains_key(k) ==> fits_amount(
                s.balances[c.client.0].held - s.disputes[k],
            )
        },
    }
}

/// Mathematical value of a map of balances.
pub open spec fn balances_view(m: Map<u16, Balance>) -> Map<u16, BalanceView> {
    m.map_values(|b: Balance| b@)
}

/// Mathematical value of a map of amounts.
pub open spec fn amounts_view(m: Map<u64, Amount>) -> Map<u64, int> {
    m.map_values(|a: Amount| a.0 as int)
}

proof fn lemma_balances_view_insert(m: Map<u16, Balance>, c: u16, b: Balance)
    ensures
        balances_view(m.insert(c, b)) == balances_view(m).insert(c, b@),
{
    assert(balances_view(m.insert(c, b)) =~= balances_view(m).insert(c, b@));
}

proof fn lemma_amounts_view_insert(m: Map<u64, Amount>, k: u64, a: Amount)
    ensures
        amounts_view(m.insert(k, a)) == amounts_view(m).insert(k, a.0 as int),
{
    assert(amounts_view(m.insert(k, a)) =~= amounts_view(m).insert(k, a.0 as int));
}

proof fn lemma_amounts_view_remove(m: Map<u64, Amount>, k: u64)
    ensures
        amounts_view(m.remove(k)) == amounts_view(m).remove(k),
{
    assert(amounts_view(m.remove(k)) =~= amounts_view(m).remove(k));
}

/// A per-client output record: the client, its balances, the derived
/// total, and the lock flag.
#[derive(Clone, Copy, Debug)]
pub struct LedgerRecord {
    pub client: Client,
    pub available: Amount,
    pub held: Amount,
    pub total: Amount,
    pub locked: bool,
}

/// Whether one output record reports a client of the state faithfully,
/// the derived total (available + held) included.
pub open spec fn record_matches(rec: LedgerRecord, s: LedgerView) -> bool {
    &&& s.balances.contains_key(rec.client.0)
    &&& rec.available.0 == s.balances[rec.client.0].available
    &&& rec.held.0 == s.balances[rec.client.0].held
    &&& rec.total.0 == s.balances[rec.client.0].available + s.balances[rec.client.0].held
    &&& rec.locked == s.balances[rec.client.0].locked
}

/// Whether a list of output records reports a ledger state completely:
/// every record is faithful, no client is reported twice, and every
/// client is reported.  The order of the records is left open.
pub open spec fn records_match(records: Seq<LedgerRecord>, s: LedgerView) -> bool {
    &&& forall|i: int| 0 <= i < records.len() ==> record_matches(#[trigger] records[i], s)
    &&& forall|i: int, j: int|
        0 <= i < j < records.len() ==> records[i].client.0 != records[j].client.0
    &&& forall|c: u16|
        s.balances.contains_key(c) ==> exists|i: int|
            0 <= i < records.len() && (#[trigger] records[i]).client.0 == c
}

/// The aggregate of all client balances plus the deposit and dispute
/// indices; the sole mutator of balance state.
pub struct Ledger {
    balances: HashMap<u16, Balance>,
    /// The clients that have a balance, each exactly once, in order of
    /// first deposit; kept so that the balances can be listed.
    clients: Vec<u16>,
    deposits: HashMap<u64, Amount>,
    disputes: HashMap<u64, Amount>,
}

impl View for Ledger {
    type V = LedgerView;

    closed spec fn view(&self) -> LedgerView {
        LedgerView {
            balances: balances_view(self.balances@),
            deposits: amounts_view(self.deposits@),
            disputes: amounts_view(self.disputes@),
        }
    }
}

impl Ledger {
    /// Well-formedness: the referential integrity of the ledger state,
    /// plus the client list mirroring the balance map's keys.
    /// Established by [`Ledger::default`] and preserved by every method.
    pub closed spec fn inv(&self) -> bool {
        &&& forall|k: u64| self.disputes@.contains_key(k) ==> self.deposits@.contains_key(k)
        &&& forall|k: u64| self.deposits@.contains_key(k) ==> self.balances@.contains_key(
            client_of(k),
        )
        &&& self.clients@.no_duplicates()
        &&& forall|i: int|
            0 <= i < self.clients@.len() ==> self.balances@.contains_key(
                #[trigger] self.clients@[i],
            )
        &&& forall|c: u16| self.balances@.contains_key(c) ==> self.clients@.contains(c)
    }

    /// Applies one validated transaction, mutating the ledger in place
    /// exactly as [`ledger_step`] says and returning its outcome.  On an
    /// error the ledger is left exactly as it was before the attempt.
    pub fn update(&mut self, txn: &Transaction) -> (r: Result<(), LedgerError>)
        requires
            old(self).inv(),
            step_fits(old(self)@, *txn),
        ensures
            final(self).inv(),
            final(self)@ == ledger_step(old(self)@, *txn).0,
            r == ledger_step(old(self)@, *txn).1,
    {
        match txn {
            Transaction::Deposit(d) => {
                let k = key(d.client, d.tx);
                let mut b: Balance;
                let fresh: bool;
                match self.balances.get(&d.client.0) {
                    Some(bref) => {
                        b = *bref;
                        fresh = false;
                    },
                    None => {
                        b = Balance::default();
                        fresh = true;
                    },
                }
                if fresh {
                    proof {
                        if self.clients@.contains(d.client.0) {
                            let i = choose|i: int|
                                0 <= i < self.clients@.len() && self.clients@[i] == d.client.0;
                            assert(self.balances@.contains_key(self.clients@[i]));
                        }
                    }
                    self.clients.push(d.client.0);
                    proof {
                        let cs0 = old(self).clients@;
                        let cs1 = self.clients@;
                        assert forall|i: int, j: int|
                            0 <= i < cs1.len() && 0 <= j < cs1.len() && i != j implies cs1[i]
                            != cs1[j] by {
                            if i < cs0.len() && j < cs0.len() {
                                assert(cs0[i] != cs0[j]);
                            } else if i < cs0.len() {
                                assert(cs1[j] == d.client.0);
                                assert(cs1[i] == cs0[i]);
                                if cs0[i] == d.client.0 {
                                    assert(cs0.contains(d.client.0));
                                }
                            } else {
                                assert(cs1[i] == d.client.0);
                                assert(cs1[j] == cs0[j]);
                                if cs0[j] == d.client.0 {
                                    assert(cs0.contains(d.client.0));
                                }
                            }
                        }
                    }
                }
                b.deposit(&d.amount);
                self.balances.insert(d.client.0, b);
                self.deposits.insert(k, d.amount);
                proof {
                    lemma_key_of_client(d.client.0, d.tx.0);
                    lemma_balances_view_insert(old(self).balances@, d.client.0, b);
                    lemma_amounts_view_insert(old(self).deposits@, k, *&d.amount);
                    assert(self@ =~= step_deposit(old(self)@, *d));
                    let cs1 = self.clients@;
                    assert forall|c: u16| self.balances@.contains_key(c) implies cs1.contains(
                        c,
                    ) by {
                        if fresh && c == d.client.0 {
                            assert(cs1[cs1.len() - 1] == c);
                        } else {
                            assert(old(self).balances@.contains_key(c));
                            assert(old(self).clients@.contains(c));
                            let i = choose|i: int|
                                0 <= i < old(self).clients@.len() && old(self).clients@[i] == c;
                            assert(cs1[i] == c);
                        }
                    }
                }
                Ok(())
            },
            Transaction::Withdrawal(w) => {
                match self.balances.get(&w.client.0) {
                    None => Err(LedgerError::ClientNotFound),
                    Some(bref) => {
                        let mut b = *bref;
                        match b.withdraw(&w.amount) {
                            Ok(()) => {
                                self.balances.insert(w.client.0, b);
                                proof {
                                    lemma_balances_view_insert(
                                        old(self).balances@,
                                        w.client.0,
                                        b,
                                    );
                                    assert(self@ =~= step_withdrawal(old(self)@, *w).0);
                                    let cs1 = self.clients@;
                                    assert forall|c: u16|
                                        self.balances@.contains_key(c) implies cs1.contains(
                                        c,
                                    ) by {
                                        assert(old(self).balances@.contains_key(c));
                                    }
                                }
                                Ok(())
                            },
                            Err(e) => Err(e),
                        }
                    },
                }
            },
            Transaction::Dispute(d) => {
                let k = key(d.client, d.tx);
                if self.disputes.contains_key(&k) {
                    Err(LedgerError::DisputeAlreadyExists)
                } else {
                    match self.deposits.get(&k) {
                        None => Err(LedgerError::DepositNotFound),
                        Some(aref) => {
                            let amount = *aref;
                            proof {
                                lemma_key_of_client(d.client.0, d.tx.0);
                                assert(self.balances@.contains_key(d.client.0));
                            }
                            let mut b: Balance = match self.balances.get(&d.client.0) {
                                Some(bref) => *bref,
                                None => vstd::pervasive::unreached(),
                            };
                            b.dispute(&amount);
                            self.disputes.insert(k, amount);
                            self.balances.insert(d.client.0, b);
                            proof {
                                lemma_balances_view_insert(old(self).balances@, d.client.0, b);
                                lemma_amounts_view_insert(old(self).disputes@, k, amount);
                                assert(self@ =~= step_dispute(old(self)@, *d).0);
                                let cs1 = self.clients@;
                                assert forall|c: u16|
                                    self.balances@.contains_key(c) implies cs1.contains(c) by {
                                    assert(old(self).balances@.contains_key(c));
                                }
                            }
                            Ok(())
                        },
                    }
                }
            },
            Transaction::Resolve(r) => {
                let k = key(r.client, r.tx);
                match self.disputes.remove(&k) {
                    None => {
                        proof {
                            assert(amounts_view(self.disputes@) =~= amounts_view(
                                old(self).disputes@,
                            ));
                            assert(self@ =~= old(self)@);
                        }
                        Err(LedgerError::DisputeNotFound)
                    },
                    Some(amount) => {
                        proof {
                            lemma_key_of_client(r.client.0, r.tx.0);
                            assert(self.balances@.contains_key(r.client.0));
                        }
                        let mut b: Balance = match self.balances.get(&r.client.0) {
                            Some(bref) => *bref,
                            None => vstd::pervasive::unreached(),
                        };
                        b.resolve(&amount);
                        self.balances.insert(r.client.0, b);
                        proof {
                            lemma_balances_view_insert(old(self).balances@, r.client.0, b);
                            lemma_amounts_view_remove(old(self).disputes@, k);
                            assert(self@ =~= step_resolve(old(self)@, *r).0);
                            let cs1 = self.clients@;
                            assert forall|c: u16|
                                self.balances@.contains_key(c) implies cs1.contains(c) by {
                                assert(old(self).balances@.contains_key(c));
                            }
                        }
                        Ok(())
                    },
                }
            },
            Transaction::Chargeback(cb) => {
                let k = key(cb.client, cb.tx);
                match self.disputes.remove(&k) {
                    None => {
                        proof {
                            assert(amounts_view(self.disputes@) =~= amounts_view(
                                old(self).disputes@,
                            ));
                            assert(self@ =~= old(self)@);
                        }
                        Err(LedgerError::DisputeNotFound)
                    },
                    Some(amount) => {
                        proof {
                            lemma_key_of_client(cb.client.0, cb.tx.0);
                            assert(self.balances@.contains_key(cb.client.0));
                        }
                        let mut b: Balance = match self.balances.get(&cb.client.0) {
                            Some(bref) => *bref,
                            None => vstd::pervasive::unreached(),
                        };
                        b.chargeback(&amount);
                        self.balances.insert(cb.client.0, b);
                        proof {
                            lemma_balances_view_insert(old(self).balances@, cb.client.0, b);
                            lemma_amounts_view_remove(old(self).disputes@, k);
                            assert(self@ =~= step_chargeback(old(self)@, *cb).0);
                            let cs1 = self.clients@;
                            assert forall|c: u16|
                                self.balances@.contains_key(c) implies cs1.contains(c) by {
                                assert(old(self).balances@.contains_key(c));
                            }
                        }
                        Ok(())
                    },
                }
            },
        }
    }

    /// Whether applying the transaction now stays within the range of an
    /// [`Amount`] (see [`step_fits`]), so that a caller can test the
    /// machine limit before calling [`Ledger::update`].
    pub fn update_fits(&self, txn: &Transaction) -> (r: bool)
        requires
            self.inv(),
        ensures
            r == step_fits(self@, *txn),
    {
        match txn {
            Transaction::Deposit(d) => {
                let avail: i128 = match self.balances.get(&d.client.0) {
                    Some(b) => b.available.0,
                    None => 0,
                };
                avail.checked_add(d.amount.0).is_some()
            },
            Transaction::Withdrawal(w) => {
                match self.balances.get(&w.client.0) {
                    None => true,
                    Some(b) => {
                        if b.available.0 > w.amount.0 {
                            b.available.0.checked_sub(w.amount.0).is_some()
                        } else {
                            true
                        }
                    },
                }
            },
            Transaction::Dispute(d) => {
                let k = key(d.client, d.tx);
                if self.disputes.contains_key(&k) {
                    true
                } else {
                    match self.deposits.get(&k) {
                        None => true,
                        Some(aref) => {
                            let a = *aref;
                            proof {
                                lemma_key_of_client(d.client.0, d.tx.0);
                            }
                            let b: Balance = match self.balances.get(&d.client.0) {
                                Some(bref) => *bref,
                                None => vstd::pervasive::unreached(),
                            };
                            b.available.0.checked_sub(a.0).is_some() && b.held.0.checked_add(
                                a.0,
                            ).is_some()
                        },
                    }
                }
            },
            Transaction::Resolve(rv) => {
                let k = key(rv.client, rv.tx);
                match self.disputes.get(&k) {
                    None => true,
                    Some(aref) => {
                        let a = *aref;
                        proof {
                            lemma_key_of_client(rv.client.0, rv.tx.0);
                        }
                        let b: Balance = match self.balances.get(&rv.client.0) {
                            Some(bref) => *bref,
                            None => vstd::pervasive::unreached(),
                        };
                        b.available.0.checked_add(a.0).is_some() && b.held.0.checked_sub(
                            a.0,
                        ).is_some()
                    },
                }
            },
            Transaction::Chargeback(cb) => {
                let k = key(cb.client, cb.tx);
                match self.disputes.get(&k) {
                    None => true,
                    Some(aref) => {
                        let a = *aref;
                        proof {
                            lemma_key_of_client(cb.client.0, cb.tx.0);
                        }
                        let b: Balance = match self.balances.get(&cb.client.0) {
                            Some(bref) => *bref,
                            None => vstd::pervasive::unreached(),
                        };
                        b.held.0.checked_sub(a.0).is_some()
                    },
                }
            },
        }
    }

    /// One snapshot record per known client, each client exactly once;
    /// the order of the records is not part of the contract.  Returns
    /// `None` exactly when some client's derived total would not fit in
    /// an [`Amount`].
    #[verifier::rlimit(50)]
    pub fn snapshots(&self) -> (r: Option<Vec<LedgerRecord>>)
        requires
            self.inv(),
        ensures
            match r {
                Some(records) => records_match(records@, self@),
                None => exists|c: u16|
                    #[trigger] self@.balances.contains_key(c) && !fits_amount(
                        self@.balances[c].available + self@.balances[c].held,
                    ),
            },
    {
        let mut records: Vec<LedgerRecord> = Vec::new();
        let n = self.clients.len();
        let mut idx: usize = 0;
        while idx < n
            invariant
                self.inv(),
                n == self.clients@.len(),
                idx <= n,
                records@.len() == idx,
                forall|i: int| 0 <= i < idx ==> record_matches(#[trigger] records@[i], self@),
                forall|i: int| 0 <= i < idx ==> records@[i].client.0 == self.clients@[i],
            decreases n - idx,
        {
            let c = self.clients[idx];
            let b: Balance = match self.balances.get(&c) {
                Some(bref) => *bref,
                None => vstd::pervasive::unreached(),
            };
            match b.available.0.checked_add(b.held.0) {
                None => {
                    proof {
                        assert(self@.balances.contains_key(c) && !fits_amount(
                            self@.balances[c].available + self@.balances[c].held,
                        ));
                    }
                    return None;
                },
                Some(total) => {
                    records.push(
                        LedgerRecord {
                            client: Client(c),
                            available: b.available,
                            held: b.held,
                            total: Amount(total),
                            locked: b.locked,
                        },
                    );
                },
            }
            idx += 1;
        }
        proof {
            assert forall|c: u16| self@.balances.contains_key(c) implies exists|i: int|
                0 <= i < records@.len() && (#[trigger] records@[i]).client.0 == c by {
                assert(self.balances@.contains_key(c));
                assert(self.clients@.contains(c));
                let i = choose|i: int| 0 <= i < self.clients@.len() && self.clients@[i] == c;
                assert(records@[i].client.0 == c);
            }
            assert forall|i: int, j: int| 0 <= i < j < records@.len() implies records@[i].client.0
                != records@[j].client.0 by {
                assert(self.clients@[i] != self.clients@[j]);
            }
            assert(records_match(records@, self@));
        }
        Some(records)
    }

    /// The balance of one client, if the client has ever deposited.
    pub fn balance(&self, client: Client) -> (r: Option<Balance>)
        ensures
            match r {
                Some(b) => self@.balances.contains_key(client.0) && b@ == self@.balances[client.0],
                None => !self@.balances.contains_key(client.0),
            },
    {
        match self.balances.get(&client.0) {
            Some(b) => Some(*b),
            None => None,
        }
    }
}

impl Default for Ledger {
    /// The empty ledger.
    fn default() -> (r: Ledger)
        ensures
            r.inv(),
            r@ == empty_ledger(),
    {
        let r = Ledger {
            balances: HashMap::new(),
            clients: Vec::new(),
            deposits: HashMap::new(),
            disputes: HashMap::new(),
        };
        proof {
            assert(balances_view(r.balances@) =~= empty_ledger().balances);
            assert(amounts_view(r.deposits@) =~= empty_ledger().deposits);
            assert(amounts_view(r.disputes@) =~= empty_ledger().disputes);
        }
        r
    }
}

} // verus!
