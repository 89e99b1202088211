use remem_server::engine::error::{Disabled, StorageError};
use remem_server::engine::storage::compaction::{CompactionConfig, CompactionManager};
use remem_server::engine::storage::config::{
    EngineConfig, GraphIndexConfig, TagIndexConfig, TimeSeriesConfig, VectorConfig,
};
use remem_server::engine::storage::engine::{
    sstables_dir, Edge, IndexStats, StorageEngine, Write, WriteOutcome,
};
use remem_server::engine::storage::index::IndexAction;
use remem_server::engine::storage::init::IndexKind;
use remem_server::engine::storage::log::read_log;
use remem_server::engine::storage::recovery::Recovery;
use remem_server::engine::storage::sstable::block::BlockCache;
use remem_server::engine::storage::tasks::{
    all_saves_ok, begin_shutdown, index_work, next_shutdown_step, next_step, CheckpointClock,
    CheckpointStep, FlushRound, IndexWork, ShutdownStep,
};
use remem_server::engine::storage::wal::{WalRecord, WalRecordType};
use remem_server::engine::util::DistanceMetric;

/// An engine whose files are kept in memory.
struct Store {
    engine: StorageEngine,
    log: Vec<u8>,
    clock: u64,
}

fn config() -> EngineConfig {
    EngineConfig {
        data_dir: "data".to_string(),
        vector: VectorConfig::with_dimension(2).enabled(true),
        graph: GraphIndexConfig::default().enabled(true),
        time_series: TimeSeriesConfig::default().enabled(true),
        tag_index: TagIndexConfig::default().enabled(true),
        ..Default::default()
    }
}

fn open(config: EngineConfig, log: Vec<u8>) -> (Store, Recovery) {
    let tables = CompactionManager::new(sstables_dir("data"), config.compaction);
    open_over(config, tables, log)
}

fn open_over(config: EngineConfig, tables: CompactionManager, log: Vec<u8>) -> (Store, Recovery) {
    let mut log = log;
    let (engine, recovery) = StorageEngine::new(config, tables, log.clone()).unwrap();
    log.truncate(recovery.valid);
    (Store { engine, log, clock: 1 }, recovery)
}

impl Store {
    fn write(&mut self, write: Write) -> Result<Vec<IndexAction>, StorageError> {
        loop {
            let begun = self.engine.begin_write(&write);
            self.log.extend_from_slice(&begun.log);
            match self.engine.apply_write(&write, begun.timestamp)? {
                WriteOutcome::Done(actions) => return Ok(actions),
                WriteOutcome::Retry => {}
            }
        }
    }

    fn put(&mut self, key: &str, value: &str) {
        self.write(Write::put(key.as_bytes().to_vec(), value.as_bytes().to_vec())).unwrap();
    }

    fn delete(&mut self, key: &str) {
        self.write(Write::delete(key.as_bytes().to_vec())).unwrap();
    }

    fn get(&self, key: &str) -> Option<String> {
        let value = self.engine.get(key.as_bytes()).unwrap();
        value.map(|v| String::from_utf8(v).unwrap())
    }

    fn flush_oldest(&mut self) -> bool {
        self.clock += 1;
        match self.engine.plan_flush(0, self.clock).unwrap() {
            Some(plan) => {
                self.engine.install_flush(plan);
                true
            }
            None => false,
        }
    }

    fn flush(&mut self) {
        self.engine.seal_memtable();
        while self.flush_oldest() {}
    }

    fn compact(&mut self, level: usize) -> usize {
        self.clock += 1;
        let plan = self.engine.plan_compaction(level, self.clock).unwrap().unwrap();
        self.engine.install_compaction(plan).output_count
    }
}

#[test]
fn engine_config_default_matches_production_toml_default() {
    assert!(EngineConfig::default().sync_writes);
}

#[test]
fn flushed_values_are_read_back() {
    let (mut s, _) = open(config(), vec![]);
    for i in 0..100 {
        s.put(&format!("key{:03}", i), &format!("value{}", i));
    }
    s.flush();
    assert!(s.engine.memtable_is_empty());
    assert_eq!(s.engine.pending_memtables(), 0);
    for i in 0..100 {
        assert_eq!(s.get(&format!("key{:03}", i)), Some(format!("value{}", i)));
    }
    s.put("key001", "newer");
    s.delete("key002");
    s.flush();
    assert_eq!(s.get("key001").as_deref(), Some("newer"));
    assert_eq!(s.get("key002"), None);
}

#[test]
fn compaction_changes_no_value() {
    let (mut s, _) = open(config(), vec![]);
    for round in 0..4 {
        for i in 0..20 {
            s.put(&format!("key{:03}", i * (round + 1)), &format!("{}-{}", round, i));
        }
        s.delete(&format!("key{:03}", round));
        s.flush();
    }
    let keys: Vec<String> = (0..100).map(|i| format!("key{:03}", i)).collect();
    let before: Vec<Option<String>> = keys.iter().map(|k| s.get(k)).collect();
    assert_eq!(s.engine.needs_compaction(), Some(0));
    assert_eq!(s.compact(0), 1);
    assert_eq!(s.engine.needs_compaction(), None);
    let after: Vec<Option<String>> = keys.iter().map(|k| s.get(k)).collect();
    assert_eq!(before, after);
    assert!(s.engine.plan_compaction(0, 99).unwrap().is_none());
    match s.engine.plan_compaction(6, 99) {
        Err(StorageError::Compaction { level, max }) => assert_eq!((level, max), (6, 6)),
        other => panic!("unexpected: {}", other.is_ok()),
    }
}

#[test]
fn log_is_replayed_after_a_restart() {
    let (mut s, _) = open(config(), vec![]);
    s.put("a", "1");
    s.put("b", "2");
    s.delete("a");
    let (again, recovery) = open(config(), s.log.clone());
    assert_eq!(recovery.records, 3);
    assert_eq!(recovery.valid, s.log.len());
    assert!(recovery.fault.is_none());
    assert_eq!(again.get("a"), None);
    assert_eq!(again.get("b").as_deref(), Some("2"));
}

#[test]
fn torn_log_is_cut_and_goes_on() {
    let (mut s, _) = open(config(), vec![]);
    s.put("a", "1");
    let good = s.log.len();
    s.put("b", "2");
    for cut in good..s.log.len() {
        let (mut again, recovery) = open(config(), s.log[..cut].to_vec());
        assert_eq!(recovery.valid, good);
        assert_eq!(again.get("a").as_deref(), Some("1"));
        assert_eq!(again.get("b"), None);
        again.put("c", "3");
        let (third, recovery) = open(config(), again.log.clone());
        assert!(recovery.fault.is_none());
        assert_eq!(third.get("c").as_deref(), Some("3"));
    }
}

#[test]
fn timestamps_go_on_above_the_tables() {
    let (mut s, _) = open(config(), vec![]);
    s.put("k", "old");
    s.put("other", "x");
    s.engine.seal_memtable();
    let plan = s.engine.plan_flush(0, 5).unwrap().unwrap();
    let table = plan.table.unwrap();
    let mut tables = CompactionManager::new(sstables_dir("data"), CompactionConfig::default());
    tables
        .load_sstable(0, "data/sstables/level0/one.sst".to_string(), table.image().clone())
        .unwrap();
    tables.order_level0();
    let (mut again, _) = open_over(config(), tables, vec![]);
    assert_eq!(again.get("k").as_deref(), Some("old"));
    again.put("k", "new");
    assert_eq!(again.get("k").as_deref(), Some("new"));
    again.flush();
    assert_eq!(again.get("k").as_deref(), Some("new"));
    again.compact(0);
    assert_eq!(again.get("k").as_deref(), Some("new"));
}

#[test]
fn log_record_has_the_timestamp_of_the_entry() {
    let (mut s, _) = open(config(), vec![]);
    let write = Write::put(b"k".to_vec(), b"v".to_vec());
    let begun = s.engine.begin_write(&write);
    let scan = read_log(begun.log.clone());
    assert_eq!(scan.records[0].timestamp, begun.timestamp);
    let later = s.engine.begin_write(&write);
    assert!(later.timestamp > begun.timestamp);
    assert!(matches!(
        s.engine.apply_write(&write, later.timestamp),
        Ok(WriteOutcome::Done(_))
    ));
}

#[test]
fn full_memtables_wait_up_to_a_limit() {
    let small = EngineConfig { memtable_size: 100, ..config() };
    let (mut s, _) = open(small, vec![]);
    for i in 0..4 {
        s.put(&format!("k{}", i), &"v".repeat(50));
        assert!(s.engine.rotate_memtable().is_ok());
    }
    assert_eq!(s.engine.pending_memtables(), 4);
    match s.engine.rotate_memtable() {
        Err(StorageError::FlushBacklog { pending, max }) => assert_eq!((pending, max), (4, 4)),
        other => panic!("unexpected: {:?}", other),
    }
    assert!(s.flush_oldest());
    assert!(s.engine.rotate_memtable().is_ok());
    for i in 0..4 {
        assert!(s.get(&format!("k{}", i)).is_some());
    }
}

#[test]
fn writes_rotate_full_memtables() {
    let small = EngineConfig { memtable_size: 200, ..config() };
    let (mut s, _) = open(small, vec![]);
    for i in 0..30 {
        s.put(&format!("k{:02}", i), &"v".repeat(30));
        while s.flush_oldest() {}
    }
    for i in 0..30 {
        assert!(s.get(&format!("k{:02}", i)).is_some());
    }
    let stats = s.engine.stats(
        IndexStats {
            vector_count: 1,
            graph_node_count: 2,
            graph_edge_count: 3,
            time_series_count: 4,
            tag_doc_count: 5,
            tag_token_count: 6,
        },
        BlockCache::new(10).stats(),
    );
    assert!(stats.level_stats[0].file_count > 1);
    assert_eq!(stats.immutable_memtables, 0);
    assert_eq!((stats.vector_count, stats.tag_token_count), (1, 6));
    assert_eq!(stats.cache_entries, 0);
    assert!(stats.vector_enabled && stats.graph_enabled);
}

fn edge(source: &str, target: &str) -> Edge {
    Edge {
        source: source.as_bytes().to_vec(),
        target: target.as_bytes().to_vec(),
        edge_type: Some("related_to".to_string()),
        weight: Some(0.9f32.to_bits()),
    }
}

#[test]
fn batch_of_edges_is_logged_at_once() {
    let (s, _) = open(config(), vec![]);
    let change = s.engine.add_edges_batch(&vec![edge("a", "b"), edge("a", "c")]).unwrap();
    let scan = read_log(change.log.clone());
    assert_eq!(scan.records.len(), 2);
    assert_eq!(scan.records[1].record_type, WalRecordType::AddEdge);
    assert_eq!(change.actions.len(), 2);
    assert_eq!(s.engine.add_edge(edge("a", "b")).unwrap().actions.len(), 1);
}

#[test]
fn stored_memory_is_one_write_with_its_indexes() {
    let (mut s, _) = open(config(), vec![]);
    let write = Write::store_memory_core(
        b"memory:1".to_vec(),
        b"{}".to_vec(),
        Some(vec![1.0f32.to_bits(), 0.0f32.to_bits()]),
        77,
        vec!["rust".to_string()],
    );
    let actions = s.write(write).unwrap();
    assert_eq!(s.get("memory:1").as_deref(), Some("{}"));
    assert_eq!(actions.len(), 3);
    let (again, recovery) = open(config(), s.log.clone());
    assert_eq!(again.get("memory:1").as_deref(), Some("{}"));
    assert_eq!((recovery.embeddings, recovery.timestamps, recovery.tags), (1, 1, 1));
    assert!(matches!(&recovery.actions[0], IndexAction::InsertVector { key, .. } if key == b"memory:1"));
}

#[test]
fn hard_delete_survives_replay() {
    let (mut s, _) = open(config(), vec![]);
    s.put("memory:1", "{}");
    let key = b"memory:1".to_vec();
    let edges = vec![(key.clone(), b"memory:2".to_vec())];
    let change = s.engine.remove_from_indexes(&key, &edges);
    s.log.extend_from_slice(&change.log);
    s.delete("memory:1");
    let (again, recovery) = open(config(), s.log.clone());
    assert_eq!(again.get("memory:1"), None);
    let removed: Vec<&IndexAction> = recovery.actions.iter().collect();
    assert!(removed.iter().any(|a| matches!(a, IndexAction::RemoveVector { .. })));
    assert!(removed.iter().any(|a| matches!(a, IndexAction::RemoveTags { .. })));
    assert!(removed.iter().any(|a| matches!(a, IndexAction::RemoveTimestamp { .. })));
    assert!(removed.iter().any(|a| matches!(a, IndexAction::RemoveEdge { .. })));
}

#[test]
fn all_edges_of_a_node_are_removed() {
    let (mut s, _) = open(config(), vec![]);
    let edges = vec![
        (b"a".to_vec(), b"b".to_vec()),
        (b"c".to_vec(), b"a".to_vec()),
    ];
    let change = s.engine.remove_all_edges(&edges);
    assert_eq!(read_log(change.log).records.len(), 2);
    assert_eq!(change.actions.len(), 2);
}

#[test]
fn missing_indexes_are_named() {
    let none = EngineConfig {
        vector: VectorConfig::default().enabled(false),
        graph: GraphIndexConfig::default().enabled(false),
        time_series: TimeSeriesConfig::default().enabled(false),
        tag_index: TagIndexConfig::default().enabled(false),
        ..config()
    };
    let (s, _) = open(none, vec![]);
    let key = || b"k".to_vec();
    assert!(matches!(
        s.engine.add_edge(edge("a", "b")),
        Err(StorageError::InvalidArgument(Disabled::Graph))
    ));
    assert!(matches!(
        s.engine.add_timestamp(key(), 1),
        Err(StorageError::InvalidArgument(Disabled::TimeSeries))
    ));
    assert!(matches!(
        s.engine.add_tags(key(), vec![]),
        Err(StorageError::InvalidArgument(Disabled::Tag))
    ));
    assert!(matches!(
        s.engine.set_tags(key(), vec![]),
        Err(StorageError::InvalidArgument(Disabled::Tag))
    ));
    let refused = s.engine.needs_index(Disabled::Vector).unwrap_err();
    assert_eq!(refused, StorageError::InvalidArgument(Disabled::Vector));
    assert!(refused.message().contains("Vector search is not enabled"));
    assert!(s.engine.vector_search(vec![]).is_err());
    assert!(!s.engine.tag_enabled());
    let (s, _) = open(config(), vec![]);
    assert!(s.engine.needs_index(Disabled::Vector).is_ok());
    assert!(s.engine.time_series_enabled());
}

#[test]
fn search_results_get_their_values() {
    let (mut s, _) = open(config(), vec![]);
    s.put("a", "1");
    let found = vec![(b"a".to_vec(), 0.5f32.to_bits()), (b"b".to_vec(), 0.7f32.to_bits())];
    let results = s.engine.vector_search(found).unwrap();
    assert!(results.iter().all(|r| r.value.is_none()));
    let filled = s.engine.vector_search_with_values(results).unwrap();
    assert_eq!(filled[0].value.as_deref(), Some(b"1".as_slice()));
    assert_eq!(filled[1].value, None);
    assert_eq!(f32::from_bits(filled[1].distance), 0.7);
}

#[test]
fn text_is_indexed_by_its_words() {
    let (s, _) = open(config(), vec![]);
    let change = s.engine.index_text(b"k".to_vec(), "Rust is fast").unwrap();
    match &change.actions[0] {
        IndexAction::AddTags { key, tags } => {
            assert_eq!(key, b"k");
            assert_eq!(tags, &vec!["rust".to_string(), "is".to_string(), "fast".to_string()]);
        }
        other => panic!("unexpected: {:?}", other),
    }
    let mut exact = config();
    exact.tag_index = exact.tag_index.lowercase(false);
    exact.tag_index.min_token_length = 3;
    let (t, _) = open(exact, vec![]);
    let change = t.engine.index_text(b"k".to_vec(), "Rust is FAST").unwrap();
    match &change.actions[0] {
        IndexAction::AddTags { tags, .. } => {
            assert_eq!(tags, &vec!["Rust".to_string(), "FAST".to_string()]);
        }
        other => panic!("unexpected: {:?}", other),
    }
    let change = s
        .engine
        .add_timestamps_batch(&vec![(b"a".to_vec(), 5), (b"b".to_vec(), 6)])
        .unwrap();
    assert_eq!(read_log(change.log).records[1].ts_timestamp, Some(6));
}

#[test]
fn checkpoint_empties_the_log_last() {
    let (mut s, _) = open(config(), vec![]);
    s.put("a", "1");
    let mut step = CheckpointStep::SaveIndexes;
    let mut steps = Vec::new();
    loop {
        let ok = match step {
            CheckpointStep::FlushOldest => s.flush_oldest(),
            CheckpointStep::TruncateLog => {
                assert_eq!(s.engine.pending_memtables(), 0);
                assert!(s.engine.memtable_is_empty());
                s.log.clear();
                true
            }
            _ => true,
        };
        step = next_step(step, ok, &mut s.engine);
        steps.push(step);
        if step == CheckpointStep::Finished {
            break;
        }
    }
    assert_eq!(
        steps,
        vec![CheckpointStep::FlushOldest, CheckpointStep::TruncateLog, CheckpointStep::Finished]
    );
    assert_eq!(s.get("a").as_deref(), Some("1"));
}

#[test]
fn failed_index_save_keeps_the_log() {
    let (mut s, _) = open(config(), vec![]);
    s.put("a", "1");
    assert!(!all_saves_ok(&vec![true, false, true]));
    assert!(all_saves_ok(&vec![true, true]));
    let step = next_step(CheckpointStep::SaveIndexes, false, &mut s.engine);
    assert_eq!(step, CheckpointStep::Aborted);
    assert_eq!(next_step(step, true, &mut s.engine), CheckpointStep::Aborted);
    assert!(!s.engine.memtable_is_empty());
}

#[test]
fn failed_checkpoint_is_retried_promptly() {
    let config = EngineConfig { checkpoint_interval: 100, max_wal_size: 1000, ..config() };
    let mut clock = CheckpointClock::new(50);
    assert!(!clock.should_checkpoint(150, 1000, &config));
    assert!(clock.should_checkpoint(151, 0, &config));
    assert!(clock.should_checkpoint(50, 1001, &config));
    clock.finish(151, false);
    assert!(clock.should_checkpoint(152, 0, &config));
    clock.finish(152, true);
    assert!(!clock.should_checkpoint(252, 0, &config));
}

#[test]
fn default_configuration() {
    let c = EngineConfig::default();
    assert_eq!(c.checkpoint_interval, 300_000);
    let v = VectorConfig::with_dimension(384).metric(DistanceMetric::L2);
    assert_eq!(v.dimension, 384);
    assert_eq!(v.metric, DistanceMetric::L2);
    assert!(v.enabled);
    assert!(GraphIndexConfig::default().directed(true).directed);
    assert!(!TagIndexConfig::default().lowercase(false).lowercase);
}

#[test]
fn replay_of_too_much_is_an_error() {
    let small = EngineConfig { memtable_size: 60, ..config() };
    let mut log = Vec::new();
    for i in 0..3u8 {
        log.extend_from_slice(&WalRecord::insert(vec![i], vec![0; 10], i as u64).encode());
    }
    let tables = CompactionManager::new(sstables_dir("data"), small.compaction);
    match StorageEngine::new(small, tables, log) {
        Err(StorageError::MemTableFull { max, .. }) => assert_eq!(max, 60),
        other => panic!("unexpected: {}", other.is_ok()),
    }
}

#[test]
fn reads_through_a_cache_are_the_same() {
    let (mut s, _) = open(config(), vec![]);
    for i in 0..50 {
        s.put(&format!("key{:03}", i), &format!("value{}", i));
    }
    s.flush();
    s.put("key001", "newer");
    s.delete("key002");
    s.flush();
    s.compact(0);
    s.put("key003", "in memory");
    let mut cache = BlockCache::new(1024 * 1024);
    for _ in 0..2 {
        for i in 0..55 {
            let key = format!("key{:03}", i);
            let plain = s.engine.get(key.as_bytes()).unwrap();
            assert_eq!(s.engine.get_cached(key.as_bytes(), &mut cache).unwrap(), plain);
        }
    }
    assert!(cache.len() > 0);
}

#[test]
fn flush_round_goes_on_after_a_failure() {
    let mut waiting = vec!["a", "b", "c", "d"];
    let mut tried = Vec::new();
    let mut round = FlushRound::new(waiting.len());
    while let Some(place) = round.next() {
        tried.push(waiting[place]);
        let ok = waiting[place] != "b";
        if ok {
            waiting.remove(place);
        }
        round.on_tried(ok);
    }
    assert_eq!(tried, vec!["a", "b", "c", "d"]);
    assert_eq!(waiting, vec!["b"]);
}

#[test]
fn waiting_memtables_are_written_out_at_any_place() {
    let (mut s, _) = open(config(), vec![]);
    s.put("a", "1");
    s.engine.seal_memtable();
    s.put("a", "2");
    s.engine.seal_memtable();
    assert!(s.engine.plan_flush(2, 7).unwrap().is_none());
    let plan = s.engine.plan_flush(1, 7).unwrap().unwrap();
    s.engine.install_flush(plan);
    assert_eq!(s.engine.pending_memtables(), 1);
    assert!(s.flush_oldest());
    assert_eq!(s.engine.pending_memtables(), 0);
}

#[test]
fn configuration_is_kept() {
    let mut wanted = config();
    wanted.sync_writes = !wanted.sync_writes;
    wanted.checkpoint_interval = 77;
    wanted.block_cache_size = 4711;
    let sync = wanted.sync_writes;
    let (s, _) = open(wanted, vec![]);
    let kept = s.engine.config();
    assert_eq!((kept.sync_writes, kept.checkpoint_interval), (sync, 77));
    assert_eq!(kept.block_cache_size, 4711);
}

#[test]
fn checkpoints_save_what_has_changed() {
    let work = |save: bool, merge: bool| IndexWork { save, merge };
    assert_eq!(index_work(IndexKind::Graph, true, true, true), work(true, false));
    assert_eq!(index_work(IndexKind::Tag, true, false, true), work(false, true));
    assert_eq!(index_work(IndexKind::TimeSeries, true, true, false), work(true, false));
    assert_eq!(index_work(IndexKind::Vector, false, true, true), work(false, false));
}

#[test]
fn shutdown_empties_the_log_last() {
    let (mut s, _) = open(config(), vec![]);
    s.put("a", "1");
    let mut step = begin_shutdown(&mut s.engine).unwrap();
    let mut steps = vec![step];
    while step != ShutdownStep::Finished {
        let ok = step != ShutdownStep::FlushOldest || s.flush_oldest();
        step = next_shutdown_step(step, ok, &s.engine);
        steps.push(step);
    }
    assert_eq!(
        steps,
        vec![
            ShutdownStep::SyncLog,
            ShutdownStep::FlushOldest,
            ShutdownStep::SaveIndexes,
            ShutdownStep::SyncLogAgain,
            ShutdownStep::TruncateLog,
            ShutdownStep::Finished
        ]
    );
    assert_eq!(s.get("a").as_deref(), Some("1"));
    s.put("b", "2");
    assert_eq!(
        next_shutdown_step(ShutdownStep::SyncLogAgain, true, &s.engine),
        ShutdownStep::Finished
    );
    assert_eq!(
        next_shutdown_step(ShutdownStep::SaveIndexes, false, &s.engine),
        ShutdownStep::Failed
    );
    assert_eq!(
        next_shutdown_step(ShutdownStep::TruncateLog, false, &s.engine),
        ShutdownStep::Finished
    );
}

#[test]
fn sizes_of_levels_can_be_out_of_range() {
    assert!(CompactionConfig::default().has_valid_sizes());
    let steep = CompactionConfig { level_size_multiplier: usize::MAX, ..Default::default() };
    assert!(!steep.has_valid_sizes());
    let flat = CompactionConfig { max_levels: 0, ..Default::default() };
    assert!(flat.has_valid_sizes());
    let (s, _) = open(config(), vec![]);
    assert!(s.engine.can_write());
}
