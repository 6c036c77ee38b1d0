//! Transaction-concurrency core of an embedded key-value storage engine.
//!
//! The library provides serializable snapshot isolation: each transaction
//! reads against a fixed point-in-time snapshot and commits only if no
//! concurrently active transaction wrote data it read.  The central piece is
//! the transaction [`Oracle`](oracle::Oracle), a coordinator that assigns
//! strictly ordered logical timestamps, detects read/write conflicts between
//! overlapping transactions, and gates snapshot visibility through two
//! [`WaterMark`](watermark::WaterMark) instances sharing one
//! [`Closer`](closer::Closer) shutdown handle.

pub mod closer;
pub mod conflict;
pub mod keyspace;
pub mod oracle;
pub mod watermark;

pub use closer::Closer;
pub use conflict::{AccessKind, ConflictChecker};
pub use keyspace::{open, PartitionConfig};
pub use oracle::{CommittedTxn, CreateCommitTimestampResult, Error, Oracle, ReadTsOutcome};
pub use watermark::{WaterMark, WaterMarkError};
