//! The verified core of a memory server: an LSM key-value engine (write-ahead
//! log, memtable, sorted string tables, compaction, recovery), the rules of the
//! memory services built on it, and the book-keeping of its background tasks.
//!
//! Files, sockets, clocks and async plumbing live outside; this library takes
//! and returns plain values.
pub mod access;
pub mod engine;
pub mod error;
pub mod services;
pub mod tasks;
