//! Background tasks: what is known of them, and how they are kept running.
pub mod lifecycle;
pub mod registry;
pub mod supervisor;

pub use registry::TaskRegistry;
