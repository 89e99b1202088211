use remem_server::engine::error::StorageError;
use remem_server::engine::storage::compaction::{CompactionConfig, CompactionManager, Level};
use remem_server::engine::storage::sstable::layout::Compression;
use remem_server::engine::storage::sstable::reader::SSTableReader;
use remem_server::engine::storage::sstable::writer::SSTableWriter;
use std::sync::Arc;

fn image(name: &str, level: usize, records: &[(&str, Option<&str>, u64)]) -> (String, Vec<u8>) {
    let path = format!("base/level{}/{}.sst", level, name);
    let mut writer = SSTableWriter::with_level(path.clone(), Compression::Plain, level);
    for (key, value, ts) in records {
        writer
            .add(key.as_bytes().to_vec(), value.map(|v| v.as_bytes().to_vec()), *ts)
            .unwrap();
    }
    let (data, _) = writer.finish().unwrap();
    (path, data)
}

fn create_sstable(name: &str, level: usize, records: Vec<(&str, &str, u64)>) -> Arc<SSTableReader> {
    let rows: Vec<(&str, Option<&str>, u64)> =
        records.into_iter().map(|(k, v, t)| (k, Some(v), t)).collect();
    let (path, data) = image(name, level, &rows);
    Arc::new(SSTableReader::open_at_level(path, data, level).unwrap())
}

fn manager(config: CompactionConfig) -> CompactionManager {
    CompactionManager::new("base".to_string(), config)
}

#[test]
fn test_compaction_manager_new() {
    let manager = manager(CompactionConfig::default());
    assert!(manager.needs_compaction().is_none());
}

#[test]
fn test_add_l0_sstable() {
    let mut manager = manager(CompactionConfig::default());
    let sst = create_sstable("a", 0, vec![("key1", "value1", 1)]);
    manager.add_l0_sstable(sst);
    let stats = manager.stats();
    assert_eq!(stats[0].file_count, 1);
}

#[test]
fn test_needs_compaction() {
    let config = CompactionConfig { l0_compaction_trigger: 2, ..Default::default() };
    let mut manager = manager(config);
    manager.add_l0_sstable(create_sstable("a", 0, vec![("a", "1", 1)]));
    assert!(manager.needs_compaction().is_none());
    manager.add_l0_sstable(create_sstable("b", 0, vec![("b", "2", 2)]));
    assert_eq!(manager.needs_compaction(), Some(0));
}

#[test]
fn test_get_from_levels() {
    let mut manager = manager(CompactionConfig::default());
    manager.add_l0_sstable(create_sstable(
        "a",
        0,
        vec![("key1", "value1", 1), ("key2", "value2", 1)],
    ));
    let record = manager.get(b"key1").unwrap().unwrap();
    assert_eq!(record.value.unwrap(), b"value1".to_vec());
    assert!(manager.get(b"nonexistent").unwrap().is_none());
}

#[test]
fn newest_level0_table_answers() {
    let mut manager = manager(CompactionConfig::default());
    manager.add_l0_sstable(create_sstable("a", 0, vec![("k", "old", 1)]));
    manager.add_l0_sstable(create_sstable("b", 0, vec![("k", "new", 2)]));
    assert_eq!(manager.get(b"k").unwrap().unwrap().value.unwrap(), b"new".to_vec());
}

#[test]
fn compaction_keeps_the_newest_versions() {
    let mut manager = manager(CompactionConfig::default());
    manager.add_l0_sstable(create_sstable("a", 0, vec![("a", "1", 1), ("b", "old", 2)]));
    manager.add_l0_sstable(create_sstable("b", 0, vec![("b", "new", 3), ("c", "4", 4)]));
    let (path, data) = image("c", 0, &[("a", None, 5)]);
    manager.add_l0_sstable(Arc::new(SSTableReader::open_at_level(path, data, 0).unwrap()));
    let before: Vec<Option<Vec<u8>>> = ["a", "b", "c", "d"]
        .iter()
        .map(|k| manager.get(k.as_bytes()).unwrap().and_then(|r| r.value))
        .collect();
    let result = manager.compact_level(0, 1234).unwrap();
    assert_eq!(result.input_count, 3);
    assert_eq!(result.output_count, 1);
    let stats = manager.stats();
    assert_eq!(stats[0].file_count, 0);
    assert_eq!(stats[1].file_count, 1);
    let after: Vec<Option<Vec<u8>>> = ["a", "b", "c", "d"]
        .iter()
        .map(|k| manager.get(k.as_bytes()).unwrap().and_then(|r| r.value))
        .collect();
    assert_eq!(before, after);
    assert_eq!(after[1], Some(b"new".to_vec()));
    assert_eq!(after[0], None);
}

#[test]
fn compaction_writes_several_tables() {
    let config = CompactionConfig {
        target_file_size: 6000,
        compression: Compression::Plain,
        ..Default::default()
    };
    let mut manager = manager(config);
    let rows: Vec<(String, String)> =
        (0..400).map(|i| (format!("key{:05}", i), "x".repeat(40))).collect();
    let refs: Vec<(&str, &str, u64)> =
        rows.iter().enumerate().map(|(i, (k, v))| (k.as_str(), v.as_str(), i as u64)).collect();
    manager.add_l0_sstable(create_sstable("a", 0, refs));
    let plan = manager.plan_compaction(0, 7).unwrap().unwrap();
    let result = manager.install(plan);
    assert!(result.output_count > 2);
    for i in 0..400 {
        let key = format!("key{:05}", i);
        assert_eq!(manager.get(key.as_bytes()).unwrap().unwrap().timestamp, i as u64);
    }
    assert_eq!(manager.newest_timestamp(), 399);
}

#[test]
fn last_level_is_not_compacted() {
    let mut manager = manager(CompactionConfig::default());
    match manager.compact_level(6, 1) {
        Err(StorageError::Compaction { level, max }) => {
            assert_eq!(level, 6);
            assert_eq!(max, 6);
        }
        other => panic!("unexpected: {:?}", other.is_ok()),
    }
}

#[test]
fn loaded_tables_are_ordered_by_age() {
    let mut manager = manager(CompactionConfig::default());
    for (name, value, ts) in [("n", "new", 9), ("o", "old", 3), ("m", "mid", 5)] {
        let (path, data) = image(name, 0, &[("k", Some(value), ts)]);
        manager.load_sstable(0, path, data).unwrap();
    }
    manager.order_level0();
    assert_eq!(manager.get(b"k").unwrap().unwrap().value.unwrap(), b"new".to_vec());
    assert_eq!(manager.newest_timestamp(), 9);
}

#[test]
fn level_finds_overlapping_tables() {
    let mut level = Level::new(1);
    level.add_sstable(create_sstable("a", 1, vec![("a", "1", 1), ("c", "2", 1)]));
    level.add_sstable(create_sstable("b", 1, vec![("e", "1", 1), ("g", "2", 1)]));
    assert_eq!(level.get_overlapping(b"b", b"d").len(), 1);
    assert_eq!(level.get_overlapping(b"c", b"f").len(), 2);
    assert_eq!(level.get_overlapping(b"x", b"z").len(), 0);
    level.remove_sstable(&"base/level1/a.sst".to_string());
    assert_eq!(level.get_overlapping(b"a", b"z").len(), 1);
}

#[test]
fn default_sizes_of_levels() {
    let config = CompactionConfig::default();
    assert_eq!(config.l0_compaction_trigger, 4);
    assert_eq!(config.level_size_multiplier, 10);
    assert_eq!(config.target_file_size, 64 * 1024 * 1024);
    assert_eq!(config.max_levels, 7);
    assert_eq!(config.base_level_size, 256 * 1024 * 1024);
    assert_eq!(config.compression, Compression::Zstd);
}
