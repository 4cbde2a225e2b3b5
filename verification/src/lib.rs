//! An in-memory ledger of numbered accounts, sharded into stripes.
//!
//! Every account lives in the stripe given by its id modulo the number of
//! stripes. A stripe is a [`Bucket`]: a vector of `(id, balance)` pairs kept
//! sorted by id. [`AccountsSeq`] owns its stripes and serves one thread;
//! [`Accounts`] puts each stripe behind a lock of its own and serves many.
//! Accounts are added while a ledger has one owner; threads that share a
//! ledger move balances between the accounts that it has. Balances are
//! whole numbers of the smallest unit of account and may be negative.
//!
//! The contracts speak of one model, a sequence of sorted sequences of
//! pairs, which [`stripe`] defines; [`laws`] proves what holds of every run
//! of transfers over it.

pub mod bounds;
pub mod bucket;
pub mod command;
pub mod concurrent;
pub mod generate;
pub mod laws;
pub mod sequential;
pub mod stripe;
pub mod transfer;
pub mod workload;

pub use bucket::Bucket;
pub use command::Command;
pub use concurrent::Accounts;
pub use sequential::AccountsSeq;
pub use stripe::AccountError;
