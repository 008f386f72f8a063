//! The general laws of the ledger engine, stated over the mathematical
//! model ([`LedgerView`] and [`ledger_step`]) and proved once for every
//! state and every input.

use vstd::prelude::*;

use crate::ledger::{client_of, empty_ledger, key_of, ledger_step, lemma_key_of_client, view_wf,
    BalanceView, LedgerError, LedgerView, zero_balance};
use crate::model::{Amount, Chargeback, Client, Deposit, Dispute, Resolve, Transaction, Tx,
    Withdrawal};

verus! {

/// The state after applying a whole sequence of transactions in order,
/// starting from `s`.  A failed transaction leaves the state unchanged,
/// exactly as [`ledger_step`] says, so the rest of the sequence is still
/// applied: errors are non-fatal.
pub open spec fn apply_all(s: LedgerView, txns: Seq<Transaction>) -> LedgerView
    decreases txns.len(),
{
    if txns.len() == 0 {
        s
    } else {
        apply_all(ledger_step(s, txns[0]).0, txns.drop_first())
    }
}

/// Whether every transaction of the sequence is a deposit.
pub open spec fn all_deposits(txns: Seq<Transaction>) -> bool {
    forall|i: int| 0 <= i < txns.len() ==> txns[i] is Deposit
}

/// The amount a transaction deposits (zero for anything else).
pub open spec fn deposit_amount(t: Transaction) -> int {
    match t {
        Transaction::Deposit(d) => d.amount.0 as int,
        _ => 0,
    }
}

/// The sum of the amounts deposited by a sequence of transactions.
pub open spec fn sum_deposits(txns: Seq<Transaction>) -> int
    decreases txns.len(),
{
    if txns.len() == 0 {
        0
    } else {
        deposit_amount(txns[0]) + sum_deposits(txns.drop_first())
    }
}

/// The sum of all clients' available funds.
pub open spec fn sum_available(m: Map<u16, BalanceView>) -> int
    decreases m.dom().len() when m.dom().finite()
{
    if !m.dom().finite() || m.dom().len() == 0 {
        0
    } else {
        let c = m.dom().choose();
        m[c].available + sum_available(m.remove(c))
    }
}

/// Taking any one client out of the sum leaves the sum of the rest,
/// whichever client the recursion happens to peel off first.
proof fn lemma_sum_available_remove(m: Map<u16, BalanceView>, c: u16)
    requires
        m.dom().finite(),
        m.contains_key(c),
    ensures
        sum_available(m) == m[c].available + sum_available(m.remove(c)),
    decreases m.dom().len(),
{
    let c0 = m.dom().choose();
    if c0 == c {
    } else {
        lemma_sum_available_remove(m.remove(c0), c);
        lemma_sum_available_remove(m.remove(c), c0);
        assert(m.remove(c0).remove(c) =~= m.remove(c).remove(c0));
    }
}

/// How an insert moves the sum: by the new value, minus whatever the
/// key contributed before.
proof fn lemma_sum_available_insert(m: Map<u16, BalanceView>, c: u16, b: BalanceView)
    requires
        m.dom().finite(),
    ensures
        sum_available(m.insert(c, b)) == sum_available(m) + b.available - (if m.contains_key(c) {
            m[c].available
        } else {
            0
        }),
{
    lemma_sum_available_remove(m.insert(c, b), c);
    if m.contains_key(c) {
        assert(m.insert(c, b).remove(c) =~= m.remove(c));
        lemma_sum_available_remove(m, c);
    } else {
        assert(m.insert(c, b).remove(c) =~= m);
    }
}

/// Law: a deposits-only sequence adds exactly the sum of the deposited
/// amounts to the total of all clients' available funds.
pub proof fn lemma_deposits_add_up(s: LedgerView, txns: Seq<Transaction>)
    requires
        s.balances.dom().finite(),
        all_deposits(txns),
    ensures
        apply_all(s, txns).balances.dom().finite(),
        sum_available(apply_all(s, txns).balances) == sum_available(s.balances) + sum_deposits(
            txns,
        ),
    decreases txns.len(),
{
    if txns.len() == 0 {
    } else {
        match txns[0] {
            Transaction::Deposit(d) => {
                let c = d.client.0;
                let b0 = if s.balances.contains_key(c) {
                    s.balances[c]
                } else {
                    zero_balance()
                };
                lemma_sum_available_insert(
                    s.balances,
                    c,
                    BalanceView { available: b0.available + d.amount.0, ..b0 },
                );
                assert(all_deposits(txns.drop_first()));
                lemma_deposits_add_up(ledger_step(s, txns[0]).0, txns.drop_first());
            },
            _ => {
                assert(false);
            },
        }
    }
}

/// Law: for a sequence containing only deposits, applied to the empty
/// ledger, the sum of all clients' available funds equals the sum of
/// the deposited amounts.
pub proof fn lemma_deposits_only_sum(txns: Seq<Transaction>)
    requires
        all_deposits(txns),
    ensures
        sum_available(apply_all(empty_ledger(), txns).balances) == sum_deposits(txns),
{
    assert(sum_available(empty_ledger().balances) == 0);
    lemma_deposits_add_up(empty_ledger(), txns);
}

/// Law: withdrawing exactly the whole available balance is rejected
/// with `InsufficientFunds` — the boundary is strict — and the state is
/// left unchanged.
pub proof fn lemma_exact_withdrawal_rejected(s: LedgerView, w: Withdrawal)
    requires
        s.balances.contains_key(w.client.0),
        s.balances[w.client.0].available == w.amount.0 as int,
    ensures
        ledger_step(s, Transaction::Withdrawal(w)) == (
            s,
            Err::<(), LedgerError>(LedgerError::InsufficientFunds),
        ),
{
}

/// Law: disputing the same `(client, tx)` twice in a row: the second
/// attempt fails with `DisputeAlreadyExists` and changes nothing.
pub proof fn lemma_repeated_dispute_rejected(s: LedgerView, d: Dispute)
    requires
        ledger_step(s, Transaction::Dispute(d)).1 is Ok,
    ensures
        ledger_step(ledger_step(s, Transaction::Dispute(d)).0, Transaction::Dispute(d)) == (
            ledger_step(s, Transaction::Dispute(d)).0,
            Err::<(), LedgerError>(LedgerError::DisputeAlreadyExists),
        ),
{
}

/// Law: a resolve or a chargeback on a `(client, tx)` with no active
/// dispute fails with `DisputeNotFound` and changes nothing.
pub proof fn lemma_close_needs_active_dispute(s: LedgerView, client: Client, tx: Tx)
    requires
        !s.disputes.contains_key(key_of(client.0, tx.0)),
    ensures
        ledger_step(s, Transaction::Resolve(Resolve { client, tx })) == (
            s,
            Err::<(), LedgerError>(LedgerError::DisputeNotFound),
        ),
        ledger_step(s, Transaction::Chargeback(Chargeback { client, tx })) == (
            s,
            Err::<(), LedgerError>(LedgerError::DisputeNotFound),
        ),
{
}

/// Law (round trip): deposit, dispute, resolve on the same `(client,
/// tx)` all succeed — provided that pair is not already under dispute —
/// and the final state is exactly the state right after the deposit:
/// the amount is available again, the held funds are as before, and the
/// deposit record is retained, so the same deposit may be disputed
/// anew.  For a client seen for the first time that means `available =
/// amount, held = 0`.
pub proof fn lemma_dispute_resolve_round_trip(s: LedgerView, client: Client, tx: Tx, amount: Amount)
    requires
        !s.disputes.contains_key(key_of(client.0, tx.0)),
    ensures
        ({
            let s1 = ledger_step(s, Transaction::Deposit(Deposit { client, tx, amount })).0;
            let step2 = ledger_step(s1, Transaction::Dispute(Dispute { client, tx }));
            let step3 = ledger_step(step2.0, Transaction::Resolve(Resolve { client, tx }));
            &&& step2.1 is Ok
            &&& step3.1 is Ok
            &&& step3.0 == s1
            &&& !s.balances.contains_key(client.0) ==> s1.balances[client.0] == (BalanceView {
                available: amount.0 as int,
                held: 0,
                locked: false,
            })
        }),
{
    let k = key_of(client.0, tx.0);
    let s1 = ledger_step(s, Transaction::Deposit(Deposit { client, tx, amount })).0;
    let step2 = ledger_step(s1, Transaction::Dispute(Dispute { client, tx }));
    let step3 = ledger_step(step2.0, Transaction::Resolve(Resolve { client, tx }));
    assert(step3.0.balances =~= s1.balances);
    assert(step3.0.disputes =~= s1.disputes);
    assert(step3.0 =~= s1);
}

/// Law: once a client's account is locked, every later transaction
/// leaves it locked — the flag is sticky.
pub proof fn lemma_locked_is_sticky(s: LedgerView, t: Transaction, c: u16)
    requires
        s.balances.contains_key(c),
        s.balances[c].locked,
    ensures
        ledger_step(s, t).0.balances.contains_key(c),
        ledger_step(s, t).0.balances[c].locked,
{
}

/// Law: a locked account is not blocked.  Whether a deposit or a
/// withdrawal is accepted never depends on the lock flag: a deposit
/// always succeeds, and a withdrawal is decided by the client's funds
/// alone.
pub proof fn lemma_locked_not_blocked(s: LedgerView, d: Deposit, w: Withdrawal)
    ensures
        ledger_step(s, Transaction::Deposit(d)).1 is Ok,
        ledger_step(s, Transaction::Withdrawal(w)).1 is Ok <==> s.balances.contains_key(w.client.0)
            && s.balances[w.client.0].available > w.amount.0 as int,
{
}

/// Law: the empty ledger is well-formed, so [`lemma_step_preserves_wf`]
/// carries referential integrity through any run.
pub proof fn lemma_empty_ledger_wf()
    ensures
        view_wf(empty_ledger()),
{
}

/// Law: every transaction preserves referential integrity — active
/// disputes always refer to recorded deposits, and a balance exists
/// exactly for the clients with at least one recorded deposit.
pub proof fn lemma_step_preserves_wf(s: LedgerView, t: Transaction)
    requires
        view_wf(s),
    ensures
        view_wf(ledger_step(s, t).0),
{
    let s1 = ledger_step(s, t).0;
    match t {
        Transaction::Deposit(d) => {
            lemma_key_of_client(d.client.0, d.tx.0);
            assert forall|k: u64| s1.deposits.contains_key(k) implies s1.balances.contains_key(
                client_of(k),
            ) by {
                if k != key_of(d.client.0, d.tx.0) {
                    assert(s.deposits.contains_key(k));
                }
            }
            assert forall|c: u16| s1.balances.contains_key(c) implies exists|k: u64|
                #[trigger] s1.deposits.contains_key(k) && client_of(k) == c by {
                if c == d.client.0 {
                    assert(s1.deposits.contains_key(key_of(d.client.0, d.tx.0)) && client_of(
                        key_of(d.client.0, d.tx.0),
                    ) == c);
                } else {
                    let k = choose|k: u64|
                        #[trigger] s.deposits.contains_key(k) && client_of(k) == c;
                    assert(s1.deposits.contains_key(k) && client_of(k) == c);
                }
            }
        },
        _ => {
            match t {
                Transaction::Withdrawal(w) => lemma_key_of_client(w.client.0, w.tx.0),
                Transaction::Dispute(d) => lemma_key_of_client(d.client.0, d.tx.0),
                Transaction::Resolve(r) => lemma_key_of_client(r.client.0, r.tx.0),
                Transaction::Chargeback(cb) => lemma_key_of_client(cb.client.0, cb.tx.0),
                _ => (),
            }
            assert forall|c: u16| s1.balances.contains_key(c) implies exists|k: u64|
                #[trigger] s1.deposits.contains_key(k) && client_of(k) == c by {
                assert(s.balances.contains_key(c));
                let k = choose|k: u64| #[trigger] s.deposits.contains_key(k) && client_of(k) == c;
                assert(s1.deposits.contains_key(k) && client_of(k) == c);
            }
        },
    }
}

} // verus!

