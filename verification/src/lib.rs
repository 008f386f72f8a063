//! A single-threaded payment ledger engine.
//!
//! A stream of transactions (deposits, withdrawals, and the dispute /
//! resolve / chargeback lifecycle that references earlier deposits) is
//! validated into a typed model and applied, one at a time, to a map of
//! per-client balances.  Each application either succeeds or reports a
//! non-fatal error and leaves the whole ledger unchanged.

pub mod laws;
pub mod ledger;
pub mod model;
