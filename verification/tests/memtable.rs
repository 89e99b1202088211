use remem_server::engine::error::StorageError;
use remem_server::engine::storage::memtable::{Entry, ImmutableMemTable, MemTable};

#[test]
fn test_insert_and_get() {
    let mut memtable = MemTable::new();
    memtable.insert(b"key1".to_vec(), b"value1".to_vec()).unwrap();
    memtable.insert(b"key2".to_vec(), b"value2".to_vec()).unwrap();
    let entry1 = memtable.get(b"key1").unwrap();
    assert_eq!(entry1.value.as_ref().unwrap().as_slice(), b"value1");
    assert!(!entry1.is_tombstone());
    let entry2 = memtable.get(b"key2").unwrap();
    assert_eq!(entry2.value.as_ref().unwrap().as_slice(), b"value2");
    assert!(memtable.get(b"key3").is_none());
}

#[test]
fn memtable_test_update() {
    let mut memtable = MemTable::new();
    memtable.insert(b"key1".to_vec(), b"value1".to_vec()).unwrap();
    let ts1 = memtable.get(b"key1").unwrap().timestamp;
    memtable.insert(b"key1".to_vec(), b"value2".to_vec()).unwrap();
    let entry = memtable.get(b"key1").unwrap();
    assert_eq!(entry.value.as_ref().unwrap().as_slice(), b"value2");
    assert!(entry.timestamp > ts1);
}

#[test]
fn memtable_test_delete() {
    let mut memtable = MemTable::new();
    memtable.insert(b"key1".to_vec(), b"value1".to_vec()).unwrap();
    memtable.delete(b"key1".to_vec()).unwrap();
    let entry = memtable.get(b"key1").unwrap();
    assert!(entry.is_tombstone());
}

#[test]
fn test_iterator_ordered() {
    let mut memtable = MemTable::new();
    memtable.insert(b"c".to_vec(), b"3".to_vec()).unwrap();
    memtable.insert(b"a".to_vec(), b"1".to_vec()).unwrap();
    memtable.insert(b"b".to_vec(), b"2".to_vec()).unwrap();
    let keys: Vec<Vec<u8>> = memtable.iter().into_iter().map(|(k, _)| k).collect();
    assert_eq!(keys, vec![b"a".to_vec(), b"b".to_vec(), b"c".to_vec()]);
}

#[test]
fn test_size_tracking() {
    let mut memtable = MemTable::with_capacity(1000);
    assert_eq!(memtable.size(), 0);
    memtable.insert(b"key1".to_vec(), b"value1".to_vec()).unwrap();
    let size1 = memtable.size();
    assert!(size1 > 0);
    memtable.insert(b"key2".to_vec(), b"value2".to_vec()).unwrap();
    let size2 = memtable.size();
    assert!(size2 > size1);
}

#[test]
fn test_memtable_full() {
    let mut memtable = MemTable::with_capacity(100);
    let mut i = 0;
    loop {
        let key = format!("key{}", i);
        let value = format!("value{}", i);
        match memtable.insert(key.into_bytes(), value.into_bytes()) {
            Ok(_) => i += 1,
            Err(StorageError::MemTableFull { .. }) => break,
            Err(e) => panic!("Unexpected error: {:?}", e),
        }
    }
    assert!(memtable.is_full());
}

#[test]
fn test_timestamp_ordering() {
    let mut memtable = MemTable::new();
    let ts1 = memtable.insert(b"key1".to_vec(), b"v1".to_vec()).unwrap();
    let ts2 = memtable.insert(b"key2".to_vec(), b"v2".to_vec()).unwrap();
    let ts3 = memtable.delete(b"key3".to_vec()).unwrap();
    assert!(ts1 < ts2);
    assert!(ts2 < ts3);
}

#[test]
fn test_immutable_memtable() {
    let mut memtable = MemTable::new();
    memtable.insert(b"key1".to_vec(), b"value1".to_vec()).unwrap();
    let immutable = ImmutableMemTable::from_memtable(memtable);
    let entry = immutable.get(b"key1").unwrap();
    assert_eq!(entry.value.as_ref().unwrap().as_slice(), b"value1");
}

#[test]
fn older_timestamp_does_not_overwrite() {
    let mut memtable = MemTable::new();
    memtable.insert_with_timestamp(b"k".to_vec(), b"new".to_vec(), 10).unwrap();
    memtable.insert_with_timestamp(b"k".to_vec(), b"old".to_vec(), 5).unwrap();
    let entry = memtable.get(b"k").unwrap();
    assert_eq!(entry.value.unwrap(), b"new".to_vec());
    assert_eq!(entry.timestamp, 10);
    memtable.delete_with_timestamp(b"k".to_vec(), 11).unwrap();
    assert!(memtable.get(b"k").unwrap().is_tombstone());
}

#[test]
fn writes_in_any_order_come_to_the_same() {
    let writes = [(b"v1".to_vec(), 1u64), (b"v3".to_vec(), 3), (b"v2".to_vec(), 2)];
    let orders = [[0, 1, 2], [0, 2, 1], [1, 0, 2], [1, 2, 0], [2, 0, 1], [2, 1, 0]];
    for order in orders {
        let mut memtable = MemTable::new();
        for i in order {
            let (value, ts) = &writes[i];
            memtable.insert_with_timestamp(b"k".to_vec(), value.clone(), *ts).unwrap();
        }
        assert_eq!(memtable.get(b"k").unwrap().value.unwrap(), b"v3".to_vec());
        assert_eq!(memtable.len(), 1);
    }
}

#[test]
fn counter_goes_on_above_given_timestamps() {
    let mut memtable = MemTable::new();
    memtable.insert_with_timestamp(b"a".to_vec(), b"1".to_vec(), 41).unwrap();
    assert_eq!(memtable.current_timestamp(), 42);
    assert_eq!(memtable.reserve_timestamp(), 42);
    let ts = memtable.insert(b"b".to_vec(), b"2".to_vec()).unwrap();
    assert_eq!(ts, 43);
    let other = MemTable::starting_at(100, 7);
    assert_eq!(other.current_timestamp(), 7);
    assert_eq!(other.max_size(), 100);
    assert!(other.is_empty());
}

#[test]
fn entries_know_their_size() {
    let entry = Entry::new(b"abc".to_vec(), 1);
    let gone = Entry::tombstone(1);
    assert_eq!(entry.size(), gone.size() + 3);
    assert!(gone.is_tombstone());
    assert!(!entry.is_tombstone());
}

#[test]
fn full_memtable_says_its_sizes() {
    let mut memtable = MemTable::with_capacity(60);
    memtable.insert(b"0123456789".to_vec(), b"v".to_vec()).unwrap();
    let size = memtable.size();
    assert_eq!(size, 51);
    match memtable.insert(b"b".to_vec(), b"v".to_vec()) {
        Err(StorageError::MemTableFull { current, max }) => {
            assert_eq!(current, size);
            assert_eq!(max, 60);
        }
        other => panic!("unexpected: {:?}", other),
    }
    assert!(memtable.get(b"b").is_none());
}

#[test]
fn immutable_memtable_shares_its_entries() {
    let mut memtable = MemTable::new();
    memtable.insert(b"b".to_vec(), b"2".to_vec()).unwrap();
    memtable.insert(b"a".to_vec(), b"1".to_vec()).unwrap();
    let size = memtable.size();
    let one = ImmutableMemTable::from_memtable(memtable);
    let two = one.clone();
    assert_eq!(one.len(), 2);
    assert_eq!(two.size(), size);
    assert!(!two.is_empty());
    assert_eq!(two.iter()[0].0, b"a".to_vec());
}
