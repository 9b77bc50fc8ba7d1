//! Verified core of a key-value store that stages writes in a write-ahead
//! log before flushing them to a wide-column database.

pub mod be;
pub mod checkpoint;
pub mod cli;
pub mod kv;
pub mod wal;
