//! Transactions: locking, logging of updates, commit, rollback and recovery.

pub mod concurrency;
pub mod lock_table;
pub mod recovery;
pub mod transaction;
