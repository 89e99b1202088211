//! Sorted string tables: immutable files of records in key order.
pub mod block;
pub mod compress;
pub mod layout;
pub mod reader;
pub mod writer;
