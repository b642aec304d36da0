//! A transactional storage kernel for a disk-oriented database: paged block
//! storage, a write-ahead log read backwards, a bounded buffer pool with
//! pluggable eviction, block-level shared/exclusive locking and undo-only
//! recovery, tied together by transactions.
//!
//! Every function states its behaviour over mathematical models (`Seq`, `Set`,
//! `Map` and the views of the data types), and each is proved against it.
//!
//! The library is sequential: its state is passed to each function, and a
//! request for a lock that cannot be granted at once is answered with the
//! advice to wait, not by waiting.

pub mod assoc;
pub mod block_map;
pub mod buffer;
pub mod file;
pub mod log;
pub mod txn;
