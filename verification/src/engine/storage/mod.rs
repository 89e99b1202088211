//! Durable storage: log, memtable, tables and their compaction.
pub mod compaction;
pub mod config;
pub mod consistency;
pub mod engine;
pub mod flush;
pub mod index;
pub mod init;
pub mod log;
pub mod merge;
pub mod memtable;
pub mod recovery;
pub mod restart;
pub mod sstable;
pub mod tasks;
pub mod tmp_sweep;
pub mod tree;
pub mod wal;
