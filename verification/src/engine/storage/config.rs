//! The configuration of the engine.
use crate::engine::storage::compaction::CompactionConfig;
use crate::engine::util::simd::DistanceMetric;
use vstd::prelude::*;

verus! {

/// How vectors are searched.
#[derive(Clone, Copy, PartialEq, Eq, Structural, Debug)]
pub struct VectorConfig {
    pub enabled: bool,
    /// The number of components of a vector.
    pub dimension: usize,
    /// The connections of a node.
    pub hnsw_m: usize,
    /// The candidates when a node is added.
    pub hnsw_ef_construction: usize,
    /// The candidates when a vector is searched.
    pub hnsw_ef_search: usize,
    pub metric: DistanceMetric,
}

impl Default for VectorConfig {
    fn default() -> (r: Self)
        ensures
            r == (VectorConfig {
                enabled: true,
                dimension: 384,
                hnsw_m: 16,
                hnsw_ef_construction: 200,
                hnsw_ef_search: 50,
                metric: DistanceMetric::L2,
            }),
    {
        VectorConfig {
            enabled: true,
            dimension: 384,
            hnsw_m: 16,
            hnsw_ef_construction: 200,
            hnsw_ef_search: 50,
            metric: DistanceMetric::L2,
        }
    }
}

impl VectorConfig {
    /// The default configuration for vectors of a given dimension.
    pub fn with_dimension(dim: usize) -> (r: Self)
        ensures
            r == (VectorConfig {
                enabled: true,
                dimension: dim,
                hnsw_m: 16,
                hnsw_ef_construction: 200,
                hnsw_ef_search: 50,
                metric: DistanceMetric::L2,
            }),
    {
        VectorConfig { dimension: dim, ..VectorConfig::default() }
    }

    /// Sets the metric.
    pub fn metric(self, metric: DistanceMetric) -> (r: Self)
        ensures
            r == (VectorConfig { metric, ..self }),
    {
        VectorConfig { metric, ..self }
    }

    /// Enables or disables vector search.
    pub fn enabled(self, enabled: bool) -> (r: Self)
        ensures
            r == (VectorConfig { enabled, ..self }),
    {
        VectorConfig { enabled, ..self }
    }
}

/// How edges are kept.
#[derive(Clone, Copy, PartialEq, Eq, Structural, Debug)]
pub struct GraphIndexConfig {
    pub enabled: bool,
    pub directed: bool,
}

impl Default for GraphIndexConfig {
    fn default() -> (r: Self)
        ensures
            r == (GraphIndexConfig { enabled: true, directed: true }),
    {
        GraphIndexConfig { enabled: true, directed: true }
    }
}

impl GraphIndexConfig {
    /// Enables or disables the graph.
    pub fn enabled(self, enabled: bool) -> (r: Self)
        ensures
            r == (GraphIndexConfig { enabled, ..self }),
    {
        GraphIndexConfig { enabled, ..self }
    }

    /// Makes the graph directed or undirected.
    pub fn directed(self, directed: bool) -> (r: Self)
        ensures
            r == (GraphIndexConfig { directed, ..self }),
    {
        GraphIndexConfig { directed, ..self }
    }
}

/// Whether keys are kept by time.
#[derive(Clone, Copy, PartialEq, Eq, Structural, Debug)]
pub struct TimeSeriesConfig {
    pub enabled: bool,
}

impl Default for TimeSeriesConfig {
    fn default() -> (r: Self)
        ensures
            r == (TimeSeriesConfig { enabled: true }),
    {
        TimeSeriesConfig { enabled: true }
    }
}

impl TimeSeriesConfig {
    /// Enables or disables the index by time.
    pub fn enabled(self, enabled: bool) -> (r: Self)
        ensures
            r == (TimeSeriesConfig { enabled }),
    {
        TimeSeriesConfig { enabled }
    }
}

/// How tags are kept.
#[derive(Clone, Copy, PartialEq, Eq, Structural, Debug)]
pub struct TagIndexConfig {
    pub enabled: bool,
    /// Whether tokens are brought to lower case.
    pub lowercase: bool,
    /// The bytes that a token has at least.
    pub min_token_length: usize,
}

impl Default for TagIndexConfig {
    fn default() -> (r: Self)
        ensures
            r == (TagIndexConfig { enabled: true, lowercase: true, min_token_length: 1 }),
    {
        TagIndexConfig { enabled: true, lowercase: true, min_token_length: 1 }
    }
}

impl TagIndexConfig {
    /// Enables or disables the tags.
    pub fn enabled(self, enabled: bool) -> (r: Self)
        ensures
            r == (TagIndexConfig { enabled, ..self }),
    {
        TagIndexConfig { enabled, ..self }
    }

    /// Sets whether tokens are brought to lower case.
    pub fn lowercase(self, lowercase: bool) -> (r: Self)
        ensures
            r == (TagIndexConfig { lowercase, ..self }),
    {
        TagIndexConfig { lowercase, ..self }
    }
}

/// The configuration of the engine.
#[derive(Clone, Debug)]
pub struct EngineConfig {
    /// The directory of all files.
    pub data_dir: String,
    /// The bytes from which on a memtable is full.
    pub memtable_size: usize,
    /// The bytes of blocks that are kept in memory.
    pub block_cache_size: usize,
    /// Whether the log is brought to disk after every write.
    pub sync_writes: bool,
    pub compaction: CompactionConfig,
    pub vector: VectorConfig,
    pub graph: GraphIndexConfig,
    pub time_series: TimeSeriesConfig,
    pub tag_index: TagIndexConfig,
    /// The milliseconds between two checkpoints.
    pub checkpoint_interval: u64,
    /// The bytes of the log from which on a checkpoint is forced.
    pub max_wal_size: u64,
}

impl Default for EngineConfig {
    fn default() -> (r: Self)
        ensures
            r.data_dir@ == "./data"@,
            r.memtable_size == 268435456,
            r.block_cache_size == 67108864,
            r.sync_writes,
            r.compaction == (CompactionConfig {
                l0_compaction_trigger: 4,
                level_size_multiplier: 10,
                target_file_size: 67108864,
                max_levels: 7,
                base_level_size: 268435456,
                compression: crate::engine::storage::sstable::layout::Compression::Zstd,
            }),
            r.vector == (VectorConfig {
                enabled: true,
                dimension: 384,
                hnsw_m: 16,
                hnsw_ef_construction: 200,
                hnsw_ef_search: 50,
                metric: DistanceMetric::L2,
            }),
            r.graph == (GraphIndexConfig { enabled: true, directed: true }),
            r.time_series == (TimeSeriesConfig { enabled: true }),
            r.tag_index == (TagIndexConfig { enabled: true, lowercase: true, min_token_length: 1 }),
            r.checkpoint_interval == 300000,
            r.max_wal_size == 1073741824,
    {
        EngineConfig {
            data_dir: "./data".to_owned(),
            memtable_size: 268435456,
            block_cache_size: 67108864,
            sync_writes: true,
            compaction: CompactionConfig::default(),
            vector: VectorConfig::default(),
            graph: GraphIndexConfig::default(),
            time_series: TimeSeriesConfig::default(),
            tag_index: TagIndexConfig::default(),
            checkpoint_interval: 300000,
            max_wal_size: 1073741824,
        }
    }
}

} // verus!
