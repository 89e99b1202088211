use remem_server::engine::error::StorageError;
use remem_server::engine::storage::sstable::block::BlockCache;
use remem_server::engine::storage::sstable::layout::{Compression, SSTableFooter, SSTableMeta};
use remem_server::engine::storage::sstable::reader::SSTableReader;
use remem_server::engine::storage::sstable::writer::SSTableWriter;

type Row = (Vec<u8>, Option<Vec<u8>>, u64);

fn create_test_sstable(records: Vec<Row>, compression: Compression) -> (Vec<u8>, SSTableMeta) {
    let mut writer = SSTableWriter::new("test.sst".to_string(), compression);
    for (key, value, ts) in records {
        writer.add(key, value, ts).unwrap();
    }
    writer.finish().unwrap()
}

fn open(records: Vec<Row>) -> SSTableReader {
    let (data, _) = create_test_sstable(records, Compression::Plain);
    SSTableReader::open("test.sst".to_string(), data).unwrap()
}

fn row(key: &str, value: &str, ts: u64) -> Row {
    (key.as_bytes().to_vec(), Some(value.as_bytes().to_vec()), ts)
}

fn numbered(n: u64) -> Vec<Row> {
    (0..n).map(|i| row(&format!("key{:05}", i), &format!("value{}", i), i)).collect()
}

#[test]
fn test_read_single_record() {
    let reader = open(vec![row("key1", "value1", 1)]);
    let record = reader.get(b"key1").unwrap().unwrap();
    assert_eq!(record.key, b"key1".to_vec());
    assert_eq!(record.value.unwrap(), b"value1".to_vec());
    assert_eq!(record.timestamp, 1);
    assert!(reader.get(b"nonexistent").unwrap().is_none());
}

#[test]
fn test_read_multiple_records() {
    let reader = open(numbered(100));
    let record = reader.get(b"key00050").unwrap().unwrap();
    assert_eq!(record.value.unwrap(), b"value50".to_vec());
    let record = reader.get(b"key00000").unwrap().unwrap();
    assert_eq!(record.value.unwrap(), b"value0".to_vec());
    let record = reader.get(b"key00099").unwrap().unwrap();
    assert_eq!(record.value.unwrap(), b"value99".to_vec());
}

#[test]
fn test_read_tombstones() {
    let reader = open(vec![
        row("key1", "value1", 1),
        (b"key2".to_vec(), None, 2),
        row("key3", "value3", 3),
    ]);
    let record = reader.get(b"key2").unwrap().unwrap();
    assert!(record.is_tombstone());
    assert_eq!(record.timestamp, 2);
}

#[test]
fn test_bloom_filter_negative() {
    let reader = open(vec![row("existing_key", "value", 1)]);
    assert!(!reader.may_contain(b"definitely_not_here_12345"));
}

#[test]
fn test_iterator() {
    let reader = open(numbered(50));
    let records = reader.iter().unwrap();
    assert_eq!(records.len(), 50);
    for (i, record) in records.iter().enumerate() {
        assert_eq!(record.key, format!("key{:05}", i).into_bytes());
    }
}

#[test]
fn test_with_compression() {
    let rows = (0..100)
        .map(|i| row(&format!("key{:05}", i), &format!("value{}", i).repeat(10), i))
        .collect();
    let (data, _) = create_test_sstable(rows, Compression::Zstd);
    let reader = SSTableReader::open("test.sst".to_string(), data).unwrap();
    let record = reader.get(b"key00050").unwrap().unwrap();
    assert_eq!(record.value.unwrap(), "value50".repeat(10).into_bytes());
}

#[test]
fn test_with_block_cache() {
    let reader = open(vec![row("key1", "value1", 1), row("key2", "value2", 2)]);
    let mut cache = BlockCache::new(1024 * 1024);
    let _ = reader.get_cached(b"key1", &mut cache).unwrap();
    assert!(cache.len() > 0);
    let record = reader.get_cached(b"key1", &mut cache).unwrap().unwrap();
    assert_eq!(record.value.unwrap(), b"value1".to_vec());
    assert_eq!(cache.len(), 1);
}

#[test]
fn tables_of_many_blocks_are_read_in_order() {
    let rows: Vec<Row> =
        (0..3000).map(|i| row(&format!("key{:05}", i), &"x".repeat(50), i)).collect();
    for compression in [Compression::Plain, Compression::Zstd] {
        let (data, meta) = create_test_sstable(rows.clone(), compression);
        assert_eq!(meta.record_count, 3000);
        let reader =
            SSTableReader::open_at_level("test.sst".to_string(), data, 2).unwrap();
        assert!(reader.block_count() > 10);
        assert_eq!(reader.level(), 2);
        assert_eq!(reader.record_count(), 3000);
        assert_eq!(reader.iter().unwrap().len(), 3000);
        for i in [0u64, 1, 77, 1500, 2999] {
            let record = reader.get(format!("key{:05}", i).as_bytes()).unwrap().unwrap();
            assert_eq!(record.timestamp, i);
        }
        assert!(reader.get(b"key03000").unwrap().is_none());
        assert!(reader.get(b"a").unwrap().is_none());
    }
}

#[test]
fn keys_that_share_their_first_sixteen_bytes_are_found() {
    let prefix = "memory:0123456789abcdef-";
    let rows: Vec<Row> =
        (0..20).map(|i| row(&format!("{}{:03}", prefix, i), "v", i)).collect();
    let reader = open(rows);
    for i in 0..20u64 {
        let key = format!("{}{:03}", prefix, i);
        assert_eq!(reader.get(key.as_bytes()).unwrap().unwrap().timestamp, i);
    }
}

#[test]
fn short_files_are_refused() {
    let r = SSTableReader::open("x.sst".to_string(), vec![0; 95]);
    assert!(matches!(r, Err(StorageError::InvalidFormat(_))));
}

#[test]
fn changed_files_are_refused() {
    let (mut data, _) = create_test_sstable(vec![row("key1", "value1", 1)], Compression::Plain);
    data[70] ^= 0xFF;
    let r = SSTableReader::open("x.sst".to_string(), data);
    assert!(matches!(r, Err(StorageError::ChecksumMismatch { .. })));
}

#[test]
fn one_changed_byte_is_found() {
    let (data, _) = create_test_sstable(numbered(3), Compression::Plain);
    let footer = data.len() - 32;
    let checksum = data.len() - 8..data.len() - 4;
    for at in (0..footer).chain(checksum) {
        let mut changed = data.clone();
        changed[at] ^= 0x10;
        let refused = SSTableReader::open("test.sst".to_string(), changed).err().unwrap();
        if at >= 64 {
            assert!(matches!(refused, StorageError::ChecksumMismatch { .. }));
        }
    }
}

#[test]
fn header_of_another_kind_is_refused() {
    let (mut data, _) = create_test_sstable(vec![row("key1", "value1", 1)], Compression::Plain);
    data[0] = b'X';
    let r = SSTableReader::open("x.sst".to_string(), data);
    assert!(r.is_err());
}

/// The footer of a file.
fn footer_of(data: &[u8]) -> SSTableFooter {
    SSTableFooter::decode(&data[data.len() - 32..]).unwrap()
}

/// Makes the checksum of a file fit what stands in it.
fn mend_checksum(data: &mut Vec<u8>) {
    let end = data.len() - 32;
    let sum = crc32fast::hash(&data[..end]).to_le_bytes();
    data[end + 24..end + 28].copy_from_slice(&sum);
}

#[test]
fn records_before_a_broken_block_are_read() {
    let rows: Vec<Row> =
        (0..300).map(|i| row(&format!("key{:05}", i), &"x".repeat(50), i)).collect();
    let (mut data, _) = create_test_sstable(rows, Compression::Zstd);
    let whole = SSTableReader::open("x.sst".to_string(), data.clone()).unwrap();
    let (records, fault) = whole.read_records();
    assert_eq!(records.len(), 300);
    assert!(fault.is_none());
    let end = footer_of(&data).index_offset as usize;
    let last = (64..end - 3).rev().find(|i| data[*i..*i + 4] == [0x28, 0xB5, 0x2F, 0xFD]).unwrap();
    data[last] = 0;
    mend_checksum(&mut data);
    let broken = SSTableReader::open("x.sst".to_string(), data).unwrap();
    assert_eq!(broken.iter().err(), Some(StorageError::Decompression));
    let (records, fault) = broken.read_records();
    assert!(records.len() > 0 && records.len() < 300);
    assert_eq!(records[0].key, b"key00000");
    assert_eq!(fault, Some(StorageError::Decompression));
}

#[test]
fn filter_without_bits_lets_every_key_pass() {
    let (mut data, _) = create_test_sstable(numbered(10), Compression::Plain);
    let at = footer_of(&data).bloom_offset as usize;
    data[at..at + 4].copy_from_slice(&[0; 4]);
    mend_checksum(&mut data);
    let reader = SSTableReader::open("x.sst".to_string(), data).unwrap();
    assert!(reader.may_contain(b"nope"));
    assert_eq!(reader.get(b"key00004").unwrap().unwrap().timestamp, 4);
    assert!(reader.get(b"nope").unwrap().is_none());
    assert_eq!(reader.iter().unwrap().len(), 10);
}

#[test]
fn reading_uses_the_cached_block() {
    let reader = open(numbered(10));
    let mut cache = BlockCache::new(1024 * 1024);
    assert!(reader.get_cached(b"key00003", &mut cache).unwrap().is_some());
    assert_eq!(cache.len(), 1);
    assert!(reader.get_cached(b"nope", &mut cache).unwrap().is_none());
    assert_eq!(cache.len(), 1);
    assert_eq!(reader.meta().min_key.len(), 16);
    assert_eq!(reader.path(), "test.sst");
}

#[test]
fn test_write_empty_sstable() {
    let writer = SSTableWriter::new("empty.sst".to_string(), Compression::Plain);
    let (data, meta) = writer.finish().unwrap();
    assert_eq!(meta.record_count, 0);
    assert!(meta.file_size > 0);
    assert_eq!(meta.file_size, data.len() as u64);
}

#[test]
fn test_write_single_record() {
    let mut writer = SSTableWriter::new("single.sst".to_string(), Compression::Plain);
    writer.add(b"key1".to_vec(), Some(b"value1".to_vec()), 1).unwrap();
    let (_, meta) = writer.finish().unwrap();
    assert_eq!(meta.record_count, 1);
    assert_eq!(meta.min_key, b"key1".to_vec());
    assert_eq!(meta.max_key, b"key1".to_vec());
}

#[test]
fn test_write_multiple_records() {
    let (_, meta) = create_test_sstable(numbered(100), Compression::Plain);
    assert_eq!(meta.record_count, 100);
    assert_eq!(meta.min_key, b"key00000".to_vec());
    assert_eq!(meta.max_key, b"key00099".to_vec());
}

#[test]
fn test_write_with_tombstones() {
    let mut writer = SSTableWriter::new("tombstones.sst".to_string(), Compression::Plain);
    writer.add(b"key1".to_vec(), Some(b"value1".to_vec()), 1).unwrap();
    writer.add(b"key2".to_vec(), None, 2).unwrap();
    writer.add(b"key3".to_vec(), Some(b"value3".to_vec()), 3).unwrap();
    let (_, meta) = writer.finish().unwrap();
    assert_eq!(meta.record_count, 3);
}

#[test]
fn test_write_with_compression() {
    let rows: Vec<Row> = (0..1000)
        .map(|i| row(&format!("key{:05}", i), &format!("value{}", i).repeat(10), 1))
        .collect();
    let (_, meta_none) = create_test_sstable(rows.clone(), Compression::Plain);
    let (_, meta_zstd) = create_test_sstable(rows, Compression::Zstd);
    assert!(
        meta_zstd.file_size < meta_none.file_size,
        "Compressed size {} should be smaller than uncompressed {}",
        meta_zstd.file_size,
        meta_none.file_size
    );
}

#[test]
fn writer_counts_and_estimates() {
    let mut writer = SSTableWriter::new("t.sst".to_string(), Compression::Plain);
    assert_eq!(writer.record_count(), 0);
    let before = writer.estimated_size();
    writer.add(b"key1".to_vec(), Some(vec![7; 100]), 1).unwrap();
    assert_eq!(writer.record_count(), 1);
    assert!(writer.estimated_size() > before + 100);
}
