//! A write-ahead-log page store: a paged main store, an append-only log of
//! page frames, and the decisions that keep the two consistent.
//!
//! The library holds the on-disk formats and every decision of the log and
//! the store; the caller performs the reads, writes, locks and syncs that
//! the library asks for.

pub mod units;
pub mod page;
pub mod le;
pub mod frame;
pub mod frame_map;
pub mod errors;
pub mod wal;
pub mod page_store;
pub mod wal_index;
pub mod wabl;
pub mod log_file;
