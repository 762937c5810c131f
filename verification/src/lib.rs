//! A verified ledger engine: it folds an ordered stream of financial
//! transaction records into a final snapshot of per-client account
//! balances.
//!
//! The engine applies each record to mutable account state, enforces
//! the balance invariant (`total == available + held`) and the
//! permanent account lock, and implements the dispute, resolve and
//! chargeback lifecycle over a side table of recorded amounts. Money is
//! carried by [`Amount`], an exact fixed-point value with four decimal
//! digits of precision that parses from and formats to decimal text.
//!
//! Reading records from storage and writing the snapshot back are left
//! to the caller: the engine consumes structured records and hands back
//! structured snapshots, nothing more.

pub mod amount;
pub mod engine;
pub mod tx;

pub use amount::Amount;
