//! Event-sourced client accounts: a per-client aggregate that validates
//! commands into events and folds events into balances, and a ledger that
//! routes commands to the aggregate of their client.

pub mod currency;
pub mod events;
pub mod ledger;
pub mod models;

pub use currency::Currency;
pub use events::{Actor, Cause, Effect};
