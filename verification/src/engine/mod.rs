//! The storage engine.
pub mod checksum;
pub mod codec;
pub mod error;
pub mod order;
pub mod storage;
pub mod text;
pub mod util;
