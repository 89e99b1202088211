//! Memories: what is stored of them, how they are found and how they age.
pub mod connection_manager;
pub mod lifecycle_manager;
pub mod memory_manager;
pub mod search_engine;
pub mod types;
