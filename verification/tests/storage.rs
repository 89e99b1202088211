use remem_server::engine::storage::compaction::CompactionManager;
use remem_server::engine::storage::config::{EngineConfig, VectorConfig};
use remem_server::engine::storage::engine::{
    sstables_dir, Edge, IndexStats, LoggedChange, StorageEngine, Write, WriteOutcome,
    MAX_PENDING_IMMUTABLE_MEMTABLES,
};
use remem_server::engine::storage::index::IndexAction;
use remem_server::engine::storage::sstable::block::BlockCache;
use remem_server::engine::storage::tasks::{
    all_saves_ok, next_step, CheckpointClock, CheckpointStep,
};
use remem_server::engine::util::DistanceMetric;

/// What the indexes hold.
#[derive(Clone, Default)]
struct Indexes {
    vectors: Vec<(Vec<u8>, Vec<u32>)>,
    times: Vec<(Vec<u8>, u64)>,
    tags: Vec<(Vec<u8>, Vec<String>)>,
    edges: Vec<(Vec<u8>, Vec<u8>)>,
}

impl Indexes {
    fn apply(&mut self, action: &IndexAction) {
        match action {
            IndexAction::InsertVector { key, embedding } => {
                self.vectors.retain(|v| v.0 != *key);
                self.vectors.push((key.clone(), embedding.clone()));
            }
            IndexAction::RemoveVector { key } => self.vectors.retain(|v| v.0 != *key),
            IndexAction::SetTimestamp { key, timestamp } => {
                self.times.retain(|t| t.0 != *key);
                self.times.push((key.clone(), *timestamp));
            }
            IndexAction::RemoveTimestamp { key } => self.times.retain(|t| t.0 != *key),
            IndexAction::AddTags { key, tags } => self.tags.push((key.clone(), tags.clone())),
            IndexAction::SetTags { key, tags } => {
                self.tags.retain(|t| t.0 != *key);
                self.tags.push((key.clone(), tags.clone()));
            }
            IndexAction::RemoveTags { key } => self.tags.retain(|t| t.0 != *key),
            IndexAction::AddEdge { source, target, .. } => {
                self.edges.push((source.clone(), target.clone()))
            }
            IndexAction::RemoveEdge { source, target } => {
                self.edges.retain(|e| e.0 != *source || e.1 != *target)
            }
        }
    }

    fn edges_of(&self, key: &[u8]) -> Vec<(Vec<u8>, Vec<u8>)> {
        self.edges.iter().filter(|e| e.0 == key || e.1 == key).cloned().collect()
    }

    fn has_vector(&self, key: &[u8]) -> bool {
        self.vectors.iter().any(|v| v.0 == key)
    }
}

/// What outlives the process.
#[derive(Clone, Default)]
struct Disk {
    log: Vec<u8>,
    tables: Vec<(String, Vec<u8>)>,
    indexes: Indexes,
}

/// An engine with its indexes, whose files are kept in memory.
struct Store {
    engine: StorageEngine,
    indexes: Indexes,
    disk: Disk,
    clock: u64,
}

fn start(config: EngineConfig, disk: Disk) -> Store {
    let mut tables = CompactionManager::new(sstables_dir("data"), config.compaction);
    for (path, image) in &disk.tables {
        tables.load_sstable(0, path.clone(), image.clone()).unwrap();
    }
    tables.order_level0();
    let (engine, recovery) = StorageEngine::new(config, tables, disk.log.clone()).unwrap();
    let mut disk = disk;
    disk.log.truncate(recovery.valid);
    let mut indexes = disk.indexes.clone();
    for action in &recovery.actions {
        indexes.apply(action);
    }
    Store { engine, indexes, disk, clock: 1 }
}

impl Store {
    fn write(&mut self, write: Write) {
        loop {
            let begun = self.engine.begin_write(&write);
            self.disk.log.extend_from_slice(&begun.log);
            match self.engine.apply_write(&write, begun.timestamp).unwrap() {
                WriteOutcome::Done(actions) => {
                    actions.iter().for_each(|a| self.indexes.apply(a));
                    return;
                }
                WriteOutcome::Retry => {}
            }
        }
    }

    fn put(&mut self, key: &str, value: &str) {
        self.write(Write::put(key.as_bytes().to_vec(), value.as_bytes().to_vec()));
    }

    fn delete(&mut self, key: &[u8]) {
        self.write(Write::delete(key.to_vec()));
    }

    fn store_memory_core(&mut self, key: &str, value: &str, v: [f32; 4], at: u64, tags: &[&str]) {
        self.write(Write::store_memory_core(
            key.as_bytes().to_vec(),
            value.as_bytes().to_vec(),
            Some(v.iter().map(|x| x.to_bits()).collect()),
            at,
            tags.iter().map(|t| t.to_string()).collect(),
        ));
    }

    fn change(&mut self, change: LoggedChange) {
        self.disk.log.extend_from_slice(&change.log);
        change.actions.iter().for_each(|a| self.indexes.apply(a));
    }

    fn remove_from_indexes(&mut self, key: &str) {
        let key = key.as_bytes().to_vec();
        let edges = self.indexes.edges_of(&key);
        let change = self.engine.remove_from_indexes(&key, &edges);
        self.change(change);
    }

    fn get(&self, key: &str) -> Option<Vec<u8>> {
        self.engine.get(key.as_bytes()).unwrap()
    }

    fn flush_oldest(&mut self) -> bool {
        self.clock += 1;
        match self.engine.plan_flush(0, self.clock).unwrap() {
            Some(plan) => {
                if let Some(table) = &plan.table {
                    self.disk.tables.push((table.path().clone(), table.image().clone()));
                }
                self.engine.install_flush(plan);
                true
            }
            None => false,
        }
    }

    /// A checkpoint during which the indexes can be saved or not.
    fn checkpoint(&mut self, saves: Vec<bool>) -> bool {
        let mut step = CheckpointStep::SaveIndexes;
        loop {
            let ok = match step {
                CheckpointStep::SaveIndexes => {
                    let saved = all_saves_ok(&saves);
                    if saved {
                        self.disk.indexes = self.indexes.clone();
                    }
                    saved
                }
                CheckpointStep::FlushOldest => self.flush_oldest(),
                CheckpointStep::TruncateLog => {
                    self.disk.log.clear();
                    true
                }
                CheckpointStep::Finished => return true,
                CheckpointStep::Aborted => return false,
            };
            step = next_step(step, ok, &mut self.engine);
        }
    }

    /// The process ends, and another one begins with what is on disk.
    fn restart(self) -> Store {
        start(test_cfg(), self.disk)
    }
}

fn plain_cfg() -> EngineConfig {
    EngineConfig {
        data_dir: "data".to_string(),
        vector: VectorConfig { enabled: false, ..VectorConfig::default() },
        ..EngineConfig::default()
    }
}

fn test_cfg() -> EngineConfig {
    EngineConfig {
        data_dir: "data".to_string(),
        sync_writes: true,
        checkpoint_interval: 86_400_000,
        vector: VectorConfig {
            enabled: true,
            dimension: 4,
            hnsw_m: 4,
            hnsw_ef_construction: 10,
            hnsw_ef_search: 4,
            metric: DistanceMetric::L2,
        },
        ..Default::default()
    }
}

#[test]
fn test_put_and_get() {
    let config = EngineConfig {
        data_dir: "data".to_string(),
        memtable_size: 1024 * 1024,
        ..Default::default()
    };
    let mut s = start(config, Disk::default());
    s.put("key1", "value1");
    s.put("key2", "value2");
    assert_eq!(s.get("key1").as_deref(), Some(b"value1".as_slice()));
    assert_eq!(s.get("key2").as_deref(), Some(b"value2".as_slice()));
    assert!(s.get("key3").is_none());
}

#[test]
fn engine_test_delete() {
    let config = EngineConfig { data_dir: "data".to_string(), ..Default::default() };
    let mut s = start(config, Disk::default());
    s.put("key1", "value1");
    assert!(s.get("key1").is_some());
    s.delete(b"key1");
    assert!(s.get("key1").is_none());
}

#[test]
fn engine_test_update() {
    let config = EngineConfig { data_dir: "data".to_string(), ..Default::default() };
    let mut s = start(config, Disk::default());
    s.put("key1", "value1");
    assert_eq!(s.get("key1").as_deref(), Some(b"value1".as_slice()));
    s.put("key1", "value2");
    assert_eq!(s.get("key1").as_deref(), Some(b"value2".as_slice()));
}

#[test]
fn test_flush() {
    let config = EngineConfig {
        data_dir: "data".to_string(),
        memtable_size: 10 * 1024 * 1024,
        ..Default::default()
    };
    let mut s = start(config, Disk::default());
    for i in 0..100 {
        s.put(&format!("key{:05}", i), &format!("value{}", i));
    }
    s.engine.seal_memtable();
    while s.flush_oldest() {}
    assert_eq!(s.disk.tables.len(), 1);
    assert_eq!(s.get("key00050").as_deref(), Some(b"value50".as_slice()));
}

#[test]
fn test_stats() {
    let config = EngineConfig { data_dir: "data".to_string(), ..Default::default() };
    let mut s = start(config, Disk::default());
    let empty = || IndexStats {
        vector_count: 0,
        graph_node_count: 0,
        graph_edge_count: 0,
        time_series_count: 0,
        tag_doc_count: 0,
        tag_token_count: 0,
    };
    assert_eq!(s.engine.stats(empty(), BlockCache::new(10).stats()).memtable_size, 0);
    s.put("key1", "value1");
    assert!(s.engine.stats(empty(), BlockCache::new(10).stats()).memtable_size > 0);
}

#[test]
fn add_edges_batch_inserts_all_edges() {
    let mut s = start(plain_cfg(), Disk::default());
    let edge = |target: &str, weight: f32| Edge {
        source: b"node:a".to_vec(),
        target: target.as_bytes().to_vec(),
        edge_type: Some("similar_to".to_string()),
        weight: Some(weight.to_bits()),
    };
    let change = s.engine.add_edges_batch(&vec![edge("node:b", 0.9), edge("node:c", 0.8)]).unwrap();
    s.change(change);
    let neighbors = s.indexes.edges_of(b"node:a");
    assert_eq!(neighbors.len(), 2);
    assert!(neighbors.iter().any(|e| e.1 == b"node:b"));
    assert!(neighbors.iter().any(|e| e.1 == b"node:c"));
}

#[test]
fn store_memory_core_writes_kv_and_indexes() {
    let mut s = start(plain_cfg(), Disk::default());
    let key = b"memory:aaaaaaaa-0000-0000-0000-000000000001".to_vec();
    let value = br#"{"id":"test","content":"hello"}"#.to_vec();
    let ts = 1_700_000_000_000u64;
    let tags = vec!["rust".to_string(), "__type:short_term".to_string()];
    s.write(Write::store_memory_core(key.clone(), value.clone(), None, ts, tags));
    assert_eq!(s.engine.get(&key).unwrap(), Some(value));
    assert_eq!(s.indexes.times, vec![(key.clone(), ts)]);
    let tagged = |t: &(Vec<u8>, Vec<String>)| t.0 == key && t.1.contains(&"rust".to_string());
    assert!(s.indexes.tags.iter().any(tagged));
    assert!(s.indexes.vectors.is_empty());
}

#[test]
fn remove_all_edges_clears_graph() {
    let mut s = start(test_cfg(), Disk::default());
    let edge = Edge {
        source: b"memory:src".to_vec(),
        target: b"memory:dst".to_vec(),
        edge_type: Some("related_to".to_string()),
        weight: Some(0.9f32.to_bits()),
    };
    let change = s.engine.add_edge(edge).unwrap();
    s.change(change);
    assert_eq!(s.indexes.edges_of(b"memory:src").len(), 1);
    let edges = s.indexes.edges_of(b"memory:src");
    let change = s.engine.remove_all_edges(&edges);
    s.change(change);
    assert!(s.indexes.edges_of(b"memory:src").is_empty());
    assert!(s.restart().indexes.edges.is_empty());
}

#[test]
fn hard_delete_survives_wal_replay() {
    let key = "memory:aaaaaaaa-aaaa-aaaa-aaaa-aaaaaaaaaaaa";
    let val = r#"{"id":"aaaaaaaa-aaaa-aaaa-aaaa-aaaaaaaaaaaa","content":"test"}"#;
    let mut s = start(test_cfg(), Disk::default());
    s.store_memory_core(key, val, [1.0, 0.0, 0.0, 0.0], 1_000, &["__type:short_term"]);
    assert!(s.indexes.has_vector(key.as_bytes()));
    s.remove_from_indexes(key);
    s.delete(key.as_bytes());
    let again = s.restart();
    assert!(again.get(key).is_none());
    assert_eq!(again.indexes.times.len(), 0);
    assert!(!again.indexes.has_vector(key.as_bytes()));
}

#[test]
fn remove_from_indexes_wal_record_present_immediately() {
    let key = "memory:will-be-removed";
    let mut s = start(test_cfg(), Disk::default());
    s.store_memory_core(key, "{}", [1.0, 0.0, 0.0, 0.0], 1, &[]);
    s.remove_from_indexes(key);
    let again = s.restart();
    assert!(!again.indexes.has_vector(key.as_bytes()));
    assert!(again.get(key).is_some());
}

#[test]
fn hard_deleted_vector_does_not_resurrect_after_checkpoint() {
    let key = "memory:vec-to-delete";
    let mut s = start(test_cfg(), Disk::default());
    s.store_memory_core(key, "{}", [1.0, 0.0, 0.0, 0.0], 1, &[]);
    s.remove_from_indexes(key);
    assert!(s.checkpoint(vec![true; 4]));
    assert!(s.disk.log.is_empty());
    assert!(!s.restart().indexes.has_vector(key.as_bytes()));
}

#[test]
fn hard_deleted_vector_does_not_resurrect_after_delete_only_checkpoint() {
    let key = "memory:vec-to-delete-2";
    let mut s = start(test_cfg(), Disk::default());
    s.store_memory_core(key, "{}", [1.0, 0.0, 0.0, 0.0], 1, &[]);
    assert!(s.checkpoint(vec![true; 4]));
    s.remove_from_indexes(key);
    assert!(s.checkpoint(vec![true; 4]));
    assert!(!s.restart().indexes.has_vector(key.as_bytes()));
}

#[test]
fn wal_record_timestamp_matches_applied_memtable_timestamp() {
    let mut s = start(test_cfg(), Disk::default());
    s.put("a", "1");
    s.put("a", "2");
    assert_eq!(s.restart().get("a").as_deref(), Some(b"2".as_slice()));
}

#[test]
fn checkpoint_skips_wal_truncation_when_an_index_save_fails() {
    let mut s = start(test_cfg(), Disk::default());
    s.store_memory_core("memory:x", "{}", [1.0, 0.0, 0.0, 0.0], 1, &[]);
    assert!(!s.checkpoint(vec![false, true, true, true]));
    assert!(!s.disk.log.is_empty());
    assert!(s.restart().get("memory:x").is_some());
}

#[test]
fn checkpoint_flushes_memtable_before_truncating_wal() {
    let mut s = start(test_cfg(), Disk::default());
    s.store_memory_core("memory:y", "{}", [0.0, 1.0, 0.0, 0.0], 1, &[]);
    assert!(s.checkpoint(vec![true; 4]));
    assert!(s.disk.log.is_empty());
    let again = s.restart();
    assert!(again.get("memory:y").is_some());
    assert!(again.indexes.has_vector(b"memory:y"));
}

#[test]
fn background_checkpoint_loop_skips_wal_truncation_when_index_save_fails() {
    let config = EngineConfig { max_wal_size: 1, ..test_cfg() };
    let mut s = start(config, Disk::default());
    s.store_memory_core("memory:bg", "{}", [0.0, 0.0, 1.0, 0.0], 1, &[]);
    let mut clock = CheckpointClock::new(0);
    assert!(clock.should_checkpoint(11_000, s.disk.log.len() as u64, s.engine.config()));
    let ok = s.checkpoint(vec![false, true, true, true]);
    clock.finish(11_000, ok);
    assert!(s.restart().indexes.has_vector(b"memory:bg"));
}

#[test]
fn background_checkpoint_loop_retries_promptly_after_a_failed_attempt() {
    let config = EngineConfig { checkpoint_interval: 25_000, ..test_cfg() };
    let mut s = start(config, Disk::default());
    s.store_memory_core("memory:retry", "{}", [0.0, 1.0, 1.0, 0.0], 1, &[]);
    let mut clock = CheckpointClock::new(0);
    let size = s.disk.log.len() as u64;
    for now in [10_000, 20_000] {
        assert!(!clock.should_checkpoint(now, size, s.engine.config()));
    }
    assert!(clock.should_checkpoint(30_000, size, s.engine.config()));
    let ok = s.checkpoint(vec![false, true, true, true]);
    clock.finish(30_000, ok);
    assert!(s.disk.log.len() > 0);
    assert!(clock.should_checkpoint(40_000, size, s.engine.config()));
    let ok = s.checkpoint(vec![true; 4]);
    clock.finish(40_000, ok);
    assert_eq!(s.disk.log.len(), 0);
    assert!(!clock.should_checkpoint(60_000, 0, s.engine.config()));
}

#[test]
fn rotate_memtable_rejects_once_flush_backlog_is_full() {
    let mut s = start(test_cfg(), Disk::default());
    for i in 0..MAX_PENDING_IMMUTABLE_MEMTABLES {
        s.put(&format!("k{i}"), "v");
        assert!(s.engine.seal_memtable());
    }
    assert!(s.engine.rotate_memtable().is_err());
}

#[test]
fn torn_wal_tail_truncates_and_continues() {
    let mut s = start(test_cfg(), Disk::default());
    s.put("key1", "value1");
    s.put("key2", "value2");
    let torn = s.disk.log.len() - 3;
    s.disk.log.truncate(torn);
    let mut again = s.restart();
    assert_eq!(again.get("key1").as_deref(), Some(b"value1".as_slice()));
    assert_eq!(again.get("key2"), None);
    again.put("key3", "value3");
    assert_eq!(again.restart().get("key3").as_deref(), Some(b"value3".as_slice()));
}

#[test]
fn wal_replay_survives_a_tear_at_every_possible_offset() {
    let mut s = start(test_cfg(), Disk::default());
    s.put("key1", "value1");
    let record1_end = s.disk.log.len();
    s.put("key2", "value2");
    let full_len = s.disk.log.len();
    assert!(record1_end < full_len);
    for cut_at in record1_end..full_len {
        let disk = Disk { log: s.disk.log[..cut_at].to_vec(), ..Disk::default() };
        let again = start(test_cfg(), disk);
        assert!(again.get("key1").is_some());
        assert_eq!(again.disk.log.len(), record1_end);
    }
}

#[test]
fn a_changed_byte_of_the_log_is_found() {
    let mut s = start(test_cfg(), Disk::default());
    s.put("key1", "value1");
    let record1_end = s.disk.log.len();
    s.put("key2", "value2");
    for at in record1_end + 4..s.disk.log.len() {
        for flip in [0x01, 0x80, 0xFF] {
            let mut log = s.disk.log.clone();
            log[at] ^= flip;
            let again = start(test_cfg(), Disk { log, ..Disk::default() });
            assert!(again.get("key1").is_some());
            assert!(again.get("key2").is_none());
        }
    }
}

#[test]
fn restarts_keep_all_values() {
    let mut s = start(test_cfg(), Disk::default());
    for round in 0..4 {
        for i in 0..10 {
            s.put(&format!("key{}", (i * 7 + round) % 13), &format!("{}-{}", round, i));
        }
        s.delete(format!("key{}", round).as_bytes());
        if round == 1 {
            assert!(s.checkpoint(vec![true; 4]));
        }
        if round == 2 {
            s.engine.seal_memtable();
            while s.flush_oldest() {}
        }
    }
    let before: Vec<Option<Vec<u8>>> = (0..13).map(|i| s.get(&format!("key{}", i))).collect();
    let again = s.restart();
    let after: Vec<Option<Vec<u8>>> = (0..13).map(|i| again.get(&format!("key{}", i))).collect();
    assert_eq!(before, after);
    assert!(before.iter().any(|v| v.is_none()) && before.iter().any(|v| v.is_some()));
}

#[test]
fn refused_write_is_found_after_a_restart() {
    let mut s = start(EngineConfig { memtable_size: 100, ..test_cfg() }, Disk::default());
    for i in 0..MAX_PENDING_IMMUTABLE_MEMTABLES {
        s.put(&format!("k{i}"), &"v".repeat(50));
        assert!(s.engine.seal_memtable());
    }
    s.put("last", &"v".repeat(50));
    let refused = Write::put(b"refused".to_vec(), vec![1; 50]);
    let begun = s.engine.begin_write(&refused);
    s.disk.log.extend_from_slice(&begun.log);
    assert!(s.engine.apply_write(&refused, begun.timestamp).is_err());
    assert!(s.get("refused").is_none());
    assert!(s.restart().get("refused").is_some());
}
