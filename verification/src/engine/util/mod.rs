//! Building blocks of the engine.
pub mod bloom;
pub mod float;
pub mod share;
pub mod simd;

pub use bloom::BloomFilter;
pub use simd::DistanceMetric;
