use remem_server::engine::storage::sstable::layout::{
    Compression, IndexEntry, Record, SSTableFooter, SSTableHeader, SSTableMeta, MAGIC, VERSION,
};

#[test]
fn test_record_encode_decode() {
    let record = Record::new(b"test_key".to_vec(), b"test_value".to_vec(), 12345);
    let encoded = record.encode();
    let (decoded, size) = Record::decode(&encoded).unwrap();
    assert_eq!(decoded.key, record.key);
    assert_eq!(decoded.value, record.value);
    assert_eq!(decoded.timestamp, record.timestamp);
    assert_eq!(size, encoded.len());
}

#[test]
fn test_tombstone_encode_decode() {
    let record = Record::tombstone(b"deleted_key".to_vec(), 99999);
    let encoded = record.encode();
    let (decoded, _) = Record::decode(&encoded).unwrap();
    assert_eq!(decoded.key, record.key);
    assert!(decoded.is_tombstone());
    assert_eq!(decoded.timestamp, record.timestamp);
}

#[test]
fn test_index_entry_encode_decode() {
    let entry = IndexEntry { key: b"block_first_key".to_vec(), offset: 4096, size: 1024 };
    let encoded = entry.encode();
    let (decoded, size) = IndexEntry::decode(&encoded).unwrap();
    assert_eq!(decoded.key, entry.key);
    assert_eq!(decoded.offset, entry.offset);
    assert_eq!(decoded.size, entry.size);
    assert_eq!(size, encoded.len());
}

#[test]
fn test_header_encode_decode() {
    let mut header = SSTableHeader::new(Compression::Zstd);
    header.record_count = 1000;
    header.set_min_key(b"aaa");
    header.set_max_key(b"zzz");
    let encoded = header.encode();
    let decoded = SSTableHeader::decode(&encoded).unwrap();
    assert_eq!(decoded.magic, MAGIC);
    assert_eq!(decoded.version, VERSION);
    assert_eq!(decoded.compression, Compression::Zstd);
    assert_eq!(decoded.record_count, 1000);
}

#[test]
fn shorter_key_leaves_nothing_of_a_longer_one() {
    let mut header = SSTableHeader::new(Compression::Plain);
    header.set_min_key(b"bbbb");
    header.set_min_key(b"aa");
    assert_eq!(&header.min_key, b"aa\0\0\0\0\0\0\0\0\0\0\0\0\0\0");
    header.set_max_key(b"yyyyyyyyyyyyyyyyyyyy");
    header.set_max_key(b"zz");
    assert_eq!(&header.max_key, b"zz\0\0\0\0\0\0\0\0\0\0\0\0\0\0");
    assert_eq!(header.record_count, 0);
}

#[test]
fn test_footer_encode_decode() {
    let footer = SSTableFooter {
        index_offset: 1048576,
        index_size: 4096,
        bloom_offset: 1052672,
        bloom_size: 1024,
        checksum: 0xDEADBEEF,
    };
    let encoded = footer.encode();
    let decoded = SSTableFooter::decode(&encoded).unwrap();
    assert_eq!(decoded.index_offset, footer.index_offset);
    assert_eq!(decoded.index_size, footer.index_size);
    assert_eq!(decoded.bloom_offset, footer.bloom_offset);
    assert_eq!(decoded.bloom_size, footer.bloom_size);
    assert_eq!(decoded.checksum, footer.checksum);
}

#[test]
fn truncated_bytes_are_refused() {
    let record = Record::new(b"k".to_vec(), b"v".to_vec(), 1).encode();
    for n in 0..record.len() {
        assert!(Record::decode(&record[..n]).is_none());
    }
    let entry = IndexEntry { key: b"k".to_vec(), offset: 1, size: 2 }.encode();
    for n in 0..entry.len() {
        assert!(IndexEntry::decode(&entry[..n]).is_none());
    }
    let header = SSTableHeader::new(Compression::Plain).encode();
    assert!(SSTableHeader::decode(&header[..63]).is_none());
    let footer =
        SSTableFooter { index_offset: 0, index_size: 0, bloom_offset: 0, bloom_size: 0, checksum: 0 }
            .encode();
    assert!(SSTableFooter::decode(&footer[..31]).is_none());
}

#[test]
fn wrong_magic_is_refused() {
    let mut header = SSTableHeader::new(Compression::Plain).encode();
    header[0] ^= 1;
    assert!(SSTableHeader::decode(&header).is_none());
}

#[test]
fn compression_of_a_byte() {
    assert_eq!(Compression::from(0), Compression::Plain);
    assert_eq!(Compression::from(1), Compression::Zstd);
    assert_eq!(Compression::from(250), Compression::Plain);
    assert_eq!(Compression::default(), Compression::Zstd);
}

#[test]
fn key_range_compares_prefixes() {
    let meta = SSTableMeta {
        path: "a.sst".to_string(),
        compression: Compression::Plain,
        record_count: 2,
        file_size: 100,
        min_key: b"b".to_vec(),
        max_key: b"d".to_vec(),
        level: 0,
    };
    assert!(meta.may_contain_key(b"b"));
    assert!(meta.may_contain_key(b"c"));
    assert!(meta.may_contain_key(b"d"));
    assert!(!meta.may_contain_key(b"a"));
    assert!(!meta.may_contain_key(b"e"));
}

#[test]
fn encoded_size_is_the_length_of_the_bytes() {
    let record = Record::new(b"key".to_vec(), b"value".to_vec(), 7);
    assert_eq!(record.encoded_size(), 22);
    assert_eq!(record.encode().len(), 22);
    let gone = Record::tombstone(b"key".to_vec(), 7);
    assert_eq!(gone.encoded_size(), 17);
    assert_eq!(gone.encode().len(), 17);
}
