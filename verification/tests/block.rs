use remem_server::engine::storage::sstable::block::{Block, BlockCache, BlockCacheKey};
use remem_server::engine::storage::sstable::layout::Record;
use std::sync::Arc;

fn key_at(offset: u64) -> BlockCacheKey {
    BlockCacheKey { path: "/test/file.sst".to_string(), offset }
}

fn block_of(records: &[Record]) -> Block {
    let mut data = Vec::new();
    for record in records {
        data.extend_from_slice(&record.encode());
    }
    Block::parse(data).unwrap()
}

/// A block of so many bytes.
fn block_of_size(size: usize) -> Block {
    let empty = Record::new(b"k".to_vec(), Vec::new(), 1).encode().len();
    let block = block_of(&[Record::new(b"k".to_vec(), vec![0; size - empty], 1)]);
    assert_eq!(block.data_size(), size);
    block
}

#[test]
fn test_block_parse() {
    let records = vec![
        Record::new(b"key1".to_vec(), b"value1".to_vec(), 1),
        Record::new(b"key2".to_vec(), b"value2".to_vec(), 2),
        Record::tombstone(b"key3".to_vec(), 3),
    ];
    let block = block_of(&records);
    assert_eq!(block.len(), 3);
    let r1 = block.get(b"key1").unwrap();
    assert_eq!(r1.value.as_ref().unwrap().as_slice(), b"value1");
    let r3 = block.get(b"key3").unwrap();
    assert!(r3.is_tombstone());
}

#[test]
fn test_block_cache_basic() {
    let mut cache = BlockCache::new(1024 * 1024);
    let key = key_at(4096);
    assert!(cache.get(&key).is_none());
    let block = block_of(&[Record::new(b"key".to_vec(), b"value".to_vec(), 1)]);
    cache.insert(key_at(4096), Arc::new(block));
    let cached = cache.get(&key).unwrap();
    assert_eq!(cached.len(), 1);
}

#[test]
fn test_block_cache_eviction() {
    let mut cache = BlockCache::new(200);
    let key1 = key_at(0);
    cache.insert(key_at(0), Arc::new(block_of_size(100)));
    let key2 = key_at(100);
    cache.insert(key_at(100), Arc::new(block_of_size(100)));
    assert!(cache.get(&key1).is_some());
    assert!(cache.get(&key2).is_some());
    let key3 = key_at(200);
    cache.insert(key_at(200), Arc::new(block_of_size(100)));
    assert!(cache.get(&key3).is_some());
    let first_two_cached = cache.get(&key1).is_some() as i32 + cache.get(&key2).is_some() as i32;
    assert!(first_two_cached <= 1);
}

#[test]
fn test_get_or_load() {
    let mut cache = BlockCache::new(1024 * 1024);
    let mut load_count = 0;
    let block = cache.get_or_load(key_at(0), || {
        load_count += 1;
        let record = Record::new(b"k".to_vec(), b"v".to_vec(), 1);
        Block::parse(record.encode())
    });
    assert!(block.is_some());
    assert_eq!(load_count, 1);
    let block2 = cache.get_or_load(key_at(0), || {
        load_count += 1;
        None
    });
    assert!(block2.is_some());
    assert_eq!(load_count, 1);
}

#[test]
fn least_recently_used_block_leaves_first() {
    let mut cache = BlockCache::new(200);
    cache.insert(key_at(0), Arc::new(block_of_size(100)));
    cache.insert(key_at(1), Arc::new(block_of_size(100)));
    assert!(cache.get(&key_at(0)).is_some());
    cache.insert(key_at(2), Arc::new(block_of_size(100)));
    assert!(cache.get(&key_at(0)).is_some());
    assert!(cache.get(&key_at(1)).is_none());
    assert!(cache.get(&key_at(2)).is_some());
    assert_eq!(cache.size(), 200);
    assert_eq!(cache.len(), 2);
}

#[test]
fn inserting_again_does_not_count_twice() {
    let mut cache = BlockCache::new(1000);
    cache.insert(key_at(0), Arc::new(block_of_size(100)));
    cache.insert(key_at(0), Arc::new(block_of_size(300)));
    assert_eq!(cache.size(), 300);
    assert_eq!(cache.len(), 1);
    let stats = cache.stats();
    assert_eq!(stats.entries, 1);
    assert_eq!(stats.size_bytes, 300);
    assert_eq!(stats.max_size_bytes, 1000);
    cache.clear();
    assert!(cache.is_empty());
    assert_eq!(cache.size(), 0);
    assert!(cache.get(&key_at(0)).is_none());
}

#[test]
fn default_cache_is_empty() {
    let mut cache = BlockCache::default();
    assert!(cache.is_empty());
    assert!(cache.get(&key_at(0)).is_none());
}

#[test]
fn blocks_end_at_their_first_broken_record() {
    let mut data = Record::new(b"j".to_vec(), b"u".to_vec(), 1).encode();
    data.extend_from_slice(&Record::new(b"k".to_vec(), b"v".to_vec(), 2).encode());
    assert_eq!(Block::parse(data.clone()).unwrap().len(), 2);
    data.pop();
    let block = Block::parse(data.clone()).unwrap();
    assert_eq!(block.len(), 1);
    assert_eq!(block.data_size(), data.len());
    assert!(Block::parse(Vec::new()).unwrap().is_empty());
}

#[test]
fn missing_keys_are_not_found_in_a_block() {
    let block = block_of(&[
        Record::new(b"b".to_vec(), b"1".to_vec(), 1),
        Record::new(b"d".to_vec(), b"2".to_vec(), 2),
    ]);
    for key in [b"a", b"c", b"e"] {
        assert!(block.get(key).is_none());
    }
    assert_eq!(block.get(b"d").unwrap().timestamp, 2);
    assert_eq!(block.iter().len(), 2);
}
