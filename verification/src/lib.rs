//! A small in-memory log-structured merge tree with one level of tables.
//!
//! Writes go to a buffer, a full buffer becomes a sorted table, and enough tables are compacted
//! into one. Compaction keeps the newest entry of every key and drops the keys whose newest entry
//! is a delete. Everything the store does is stated over the sequence of entries it holds: a key
//! maps to the value of its newest entry.

pub mod clock;
pub mod columns;
pub mod commands;
pub mod compaction;
pub mod entry;
pub mod kvs;
pub mod laws;
pub mod order;
pub mod run;
pub mod state;
pub mod stats;
pub mod table;

pub use columns::EntryColumns;
pub use commands::{Command, CommandStream, Rng};
pub use compaction::{compact, compact_with_kind, CompactionKind, CompactionWork};
pub use entry::Entry;
pub use kvs::Kvs;
pub use stats::CompactionStats;
pub use table::SsTable;
