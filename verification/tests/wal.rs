use remem_server::engine::error::{ReplayFault, StorageError, WalFault};
use remem_server::engine::storage::log::{encode_batch, read_log, WalIterator};
use remem_server::engine::storage::wal::{WalRecord, WalRecordType};

fn bytes(text: &str) -> Vec<u8> {
    text.as_bytes().to_vec()
}

fn bits(values: &[f32]) -> Vec<u32> {
    values.iter().map(|v| v.to_bits()).collect()
}

fn float(bits: u32) -> f32 {
    f32::from_bits(bits)
}

/// A log that is appended to.
fn append(log: &mut Vec<u8>, record: WalRecord) {
    log.extend_from_slice(&record.encode());
}

fn read(log: &[u8]) -> Vec<WalRecord> {
    let mut it = WalIterator::new(log.to_vec());
    let mut out = Vec::new();
    while let Some(record) = it.read_next().unwrap() {
        out.push(record);
    }
    out
}

#[test]
fn test_wal_record_encode_decode() {
    let record = WalRecord::insert(bytes("test_key"), bytes("test_value"), 12345);
    let encoded = record.encode();
    let decoded = WalRecord::decode(&encoded[4..]).unwrap();
    assert_eq!(decoded.record_type, WalRecordType::Insert);
    assert_eq!(decoded.timestamp, 12345);
    assert_eq!(decoded.key, bytes("test_key"));
    assert_eq!(decoded.value, bytes("test_value"));
}

#[test]
fn test_wal_record_delete() {
    let record = WalRecord::delete(bytes("delete_key"), 99999);
    let encoded = record.encode();
    let decoded = WalRecord::decode(&encoded[4..]).unwrap();
    assert_eq!(decoded.record_type, WalRecordType::Delete);
    assert_eq!(decoded.timestamp, 99999);
    assert_eq!(decoded.key, bytes("delete_key"));
    assert!(decoded.value.is_empty());
}

#[test]
fn test_wal_write_and_read() {
    let mut log = Vec::new();
    append(&mut log, WalRecord::insert(bytes("key1"), bytes("value1"), 1));
    append(&mut log, WalRecord::insert(bytes("key2"), bytes("value2"), 2));
    append(&mut log, WalRecord::delete(bytes("key1"), 3));
    let records = read(&log);
    assert_eq!(records.len(), 3);
    assert_eq!(records[0].record_type, WalRecordType::Insert);
    assert_eq!(records[0].key, bytes("key1"));
    assert_eq!(records[0].value, bytes("value1"));
    assert_eq!(records[0].timestamp, 1);
    assert_eq!(records[1].record_type, WalRecordType::Insert);
    assert_eq!(records[1].key, bytes("key2"));
    assert_eq!(records[2].record_type, WalRecordType::Delete);
    assert_eq!(records[2].key, bytes("key1"));
    assert_eq!(records[2].timestamp, 3);
}

#[test]
fn test_wal_truncate() {
    let mut log = Vec::new();
    append(&mut log, WalRecord::insert(bytes("key1"), bytes("value1"), 1));
    assert!(log.len() > 0);
    log.truncate(0);
    assert_eq!(log.len(), 0);
    assert_eq!(read(&log).len(), 0);
}

#[test]
fn test_wal_append_after_open() {
    let mut log = Vec::new();
    append(&mut log, WalRecord::insert(bytes("key1"), bytes("value1"), 1));
    assert_eq!(read(&log).len(), 1);
    append(&mut log, WalRecord::insert(bytes("key2"), bytes("value2"), 2));
    assert_eq!(read(&log).len(), 2);
}

#[test]
fn test_checksum_validation() {
    let record = WalRecord::insert(bytes("key"), bytes("value"), 1);
    let mut encoded = record.encode();
    if encoded.len() > 10 {
        encoded[10] ^= 0xFF;
    }
    let result = WalRecord::decode(&encoded[4..]);
    assert!(result.is_err());
    assert!(matches!(result, Err(WalFault::ChecksumMismatch { .. })));
}

#[test]
fn test_wal_record_with_embedding() {
    let embedding = vec![0.1f32, 0.2, 0.3, 0.4, 0.5];
    let record = WalRecord::insert_with_embedding(
        bytes("vector_key"),
        bytes("vector_value"),
        54321,
        bits(&embedding),
    );
    let encoded = record.encode();
    let decoded = WalRecord::decode(&encoded[4..]).unwrap();
    assert_eq!(decoded.record_type, WalRecordType::InsertWithEmbedding);
    assert_eq!(decoded.timestamp, 54321);
    assert_eq!(decoded.key, bytes("vector_key"));
    assert_eq!(decoded.value, bytes("vector_value"));
    assert!(decoded.embedding.is_some());
    let decoded_embedding = decoded.embedding.unwrap();
    assert_eq!(decoded_embedding.len(), embedding.len());
    for (i, &val) in embedding.iter().enumerate() {
        assert!((float(decoded_embedding[i]) - val).abs() < 1e-6);
    }
}

#[test]
fn test_wal_write_and_read_with_embeddings() {
    let embedding = vec![1.0f32, 2.0, 3.0, 4.0];
    let mut log = Vec::new();
    append(&mut log, WalRecord::insert(bytes("key1"), bytes("value1"), 1));
    append(
        &mut log,
        WalRecord::insert_with_embedding(bytes("key2"), bytes("value2"), 2, bits(&embedding)),
    );
    let records = read(&log);
    assert_eq!(records.len(), 2);
    assert_eq!(records[0].record_type, WalRecordType::Insert);
    assert_eq!(records[0].key, bytes("key1"));
    assert!(records[0].embedding.is_none());
    assert_eq!(records[1].record_type, WalRecordType::InsertWithEmbedding);
    assert_eq!(records[1].key, bytes("key2"));
    assert!(records[1].embedding.is_some());
    let decoded_embedding = records[1].embedding.as_ref().unwrap();
    assert_eq!(decoded_embedding.len(), embedding.len());
    for (i, &val) in embedding.iter().enumerate() {
        assert!((float(decoded_embedding[i]) - val).abs() < 1e-6);
    }
}

#[test]
fn test_wal_record_set_timestamp() {
    let record = WalRecord::set_timestamp(bytes("event:1"), 1705320000, 12345);
    let encoded = record.encode();
    let decoded = WalRecord::decode(&encoded[4..]).unwrap();
    assert_eq!(decoded.record_type, WalRecordType::SetTimestamp);
    assert_eq!(decoded.timestamp, 12345);
    assert_eq!(decoded.key, bytes("event:1"));
    assert!(decoded.value.is_empty());
    assert!(decoded.ts_timestamp.is_some());
    assert_eq!(decoded.ts_timestamp.unwrap(), 1705320000);
    assert!(decoded.embedding.is_none());
    assert!(decoded.tags.is_none());
}

#[test]
fn test_wal_record_add_tags() {
    let tags = vec!["rust".to_string(), "programming".to_string(), "async".to_string()];
    let record = WalRecord::add_tags(bytes("doc:1"), tags.clone(), 12345);
    let encoded = record.encode();
    let decoded = WalRecord::decode(&encoded[4..]).unwrap();
    assert_eq!(decoded.record_type, WalRecordType::AddTags);
    assert_eq!(decoded.timestamp, 12345);
    assert_eq!(decoded.key, bytes("doc:1"));
    assert!(decoded.value.is_empty());
    assert!(decoded.ts_timestamp.is_none());
    assert!(decoded.embedding.is_none());
    assert!(decoded.tags.is_some());
    let decoded_tags = decoded.tags.unwrap();
    assert_eq!(decoded_tags.len(), tags.len());
    for (i, tag) in tags.iter().enumerate() {
        assert_eq!(&decoded_tags[i], tag);
    }
}

#[test]
fn test_wal_write_and_read_with_timestamps_and_tags() {
    let tags = vec!["tag1".to_string(), "tag2".to_string()];
    let mut log = Vec::new();
    append(&mut log, WalRecord::set_timestamp(bytes("event:1"), 1000, 1));
    append(&mut log, WalRecord::set_timestamp(bytes("event:2"), 2000, 2));
    append(&mut log, WalRecord::add_tags(bytes("doc:1"), tags.clone(), 3));
    let records = read(&log);
    assert_eq!(records.len(), 3);
    assert_eq!(records[0].record_type, WalRecordType::SetTimestamp);
    assert_eq!(records[0].key, bytes("event:1"));
    assert_eq!(records[0].ts_timestamp.unwrap(), 1000);
    assert_eq!(records[1].record_type, WalRecordType::SetTimestamp);
    assert_eq!(records[1].key, bytes("event:2"));
    assert_eq!(records[1].ts_timestamp.unwrap(), 2000);
    assert_eq!(records[2].record_type, WalRecordType::AddTags);
    assert_eq!(records[2].key, bytes("doc:1"));
    let decoded_tags = records[2].tags.as_ref().unwrap();
    assert_eq!(decoded_tags.len(), tags.len());
    assert_eq!(decoded_tags[0], "tag1");
    assert_eq!(decoded_tags[1], "tag2");
}

#[test]
fn test_wal_record_add_edge() {
    let record = WalRecord::add_edge(
        bytes("node:1"),
        bytes("node:2"),
        Some("follows".to_string()),
        Some(0.8f32.to_bits()),
        12345,
    );
    let encoded = record.encode();
    let decoded = WalRecord::decode(&encoded[4..]).unwrap();
    assert_eq!(decoded.record_type, WalRecordType::AddEdge);
    assert_eq!(decoded.timestamp, 12345);
    assert_eq!(decoded.edge_source.unwrap(), bytes("node:1"));
    assert_eq!(decoded.edge_target.unwrap(), bytes("node:2"));
    assert_eq!(decoded.edge_type.unwrap(), "follows");
    assert!((float(decoded.edge_weight.unwrap()) - 0.8).abs() < 1e-6);
}

#[test]
fn test_wal_record_add_edge_no_type() {
    let record =
        WalRecord::add_edge(bytes("a"), bytes("b"), None, Some(1.0f32.to_bits()), 99);
    let encoded = record.encode();
    let decoded = WalRecord::decode(&encoded[4..]).unwrap();
    assert_eq!(decoded.record_type, WalRecordType::AddEdge);
    assert_eq!(decoded.edge_source.unwrap(), bytes("a"));
    assert_eq!(decoded.edge_target.unwrap(), bytes("b"));
    assert!(decoded.edge_type.is_none());
    assert!((float(decoded.edge_weight.unwrap()) - 1.0).abs() < 1e-6);
}

#[test]
fn test_wal_write_and_read_with_edges() {
    let mut log = Vec::new();
    append(
        &mut log,
        WalRecord::add_edge(
            bytes("user:1"),
            bytes("user:2"),
            Some("follows".to_string()),
            Some(1.0f32.to_bits()),
            1,
        ),
    );
    append(
        &mut log,
        WalRecord::add_edge(
            bytes("user:2"),
            bytes("user:3"),
            Some("related_to".to_string()),
            Some(0.5f32.to_bits()),
            2,
        ),
    );
    let records = read(&log);
    assert_eq!(records.len(), 2);
    let r1 = &records[0];
    assert_eq!(r1.record_type, WalRecordType::AddEdge);
    assert_eq!(r1.edge_source.as_ref().unwrap(), &bytes("user:1"));
    assert_eq!(r1.edge_target.as_ref().unwrap(), &bytes("user:2"));
    assert_eq!(r1.edge_type.as_ref().unwrap(), "follows");
    assert!((float(r1.edge_weight.unwrap()) - 1.0).abs() < 1e-6);
    let r2 = &records[1];
    assert_eq!(r2.record_type, WalRecordType::AddEdge);
    assert_eq!(r2.edge_source.as_ref().unwrap(), &bytes("user:2"));
    assert_eq!(r2.edge_target.as_ref().unwrap(), &bytes("user:3"));
    assert_eq!(r2.edge_type.as_ref().unwrap(), "related_to");
    assert!((float(r2.edge_weight.unwrap()) - 0.5).abs() < 1e-6);
}

#[test]
fn remove_index_records_roundtrip() {
    let ts = 42u64;
    let key = bytes("memory:test-uuid");
    for record in [
        WalRecord::remove_timestamp(key.clone(), ts),
        WalRecord::remove_tags(key.clone(), ts),
        WalRecord::remove_vector(key.clone(), ts),
    ] {
        let encoded = record.encode();
        let decoded = WalRecord::decode(&encoded[4..]).expect("decode must succeed");
        assert_eq!(decoded.key, key);
        assert_eq!(decoded.timestamp, ts);
        assert!(decoded.value.is_empty());
        assert!(decoded.embedding.is_none());
        assert!(decoded.tags.is_none());
        assert!(decoded.edge_source.is_none());
    }
}

#[test]
fn append_batch_writes_all_records_and_can_be_read_back() {
    let records = vec![
        WalRecord::insert(bytes("key1"), bytes("value1"), 100),
        WalRecord::set_timestamp(bytes("key2"), 999, 101),
        WalRecord::add_tags(bytes("key3"), vec!["tag_a".to_string(), "tag_b".to_string()], 102),
    ];
    let log = encode_batch(&records);
    let read_back = read(&log);
    assert_eq!(read_back.len(), 3);
    assert_eq!(read_back[0].key, bytes("key1"));
    assert_eq!(read_back[1].ts_timestamp, Some(999));
    assert_eq!(read_back[2].tags.as_ref().unwrap().len(), 2);
}

fn sample_log() -> (Vec<u8>, Vec<usize>) {
    let records = vec![
        WalRecord::insert(bytes("a"), bytes("1"), 1),
        WalRecord::insert_with_embedding(bytes("b"), bytes("2"), 2, bits(&[0.25, -1.0])),
        WalRecord::set_tags(bytes("c"), vec!["x".to_string(), "\u{e9}".to_string()], 3),
        WalRecord::remove_edge(bytes("a"), bytes("b"), 4),
    ];
    let mut log = Vec::new();
    let mut ends = Vec::new();
    for record in records {
        append(&mut log, record);
        ends.push(log.len());
    }
    (log, ends)
}

#[test]
fn tear_at_every_offset_keeps_the_records_before_it() {
    let (log, ends) = sample_log();
    for cut in 0..=log.len() {
        let scan = read_log(log[..cut].to_vec());
        let whole = ends.iter().filter(|e| **e <= cut).count();
        assert_eq!(scan.records.len(), whole, "cut at {}", cut);
        let valid = if whole == 0 { 0 } else { ends[whole - 1] };
        assert_eq!(scan.valid, valid, "cut at {}", cut);
    }
}

#[test]
fn corrupt_record_stops_the_scan() {
    let (mut log, ends) = sample_log();
    log[ends[1] + 9] ^= 0x01;
    let scan = read_log(log);
    assert_eq!(scan.records.len(), 2);
    assert_eq!(scan.valid, ends[1]);
    assert!(scan.fault.is_some());
}

#[test]
fn zero_length_prefix_is_refused() {
    let mut it = WalIterator::new(vec![0, 0, 0, 0, 1, 2, 3]);
    match it.read_next() {
        Err(StorageError::WalReplay { fault: ReplayFault::InvalidLength(0), .. }) => {}
        other => panic!("unexpected: {:?}", other.is_ok()),
    }
}

#[test]
fn every_record_kind_comes_back_from_its_byte() {
    for b in 0u8..=255 {
        match WalRecordType::try_from(b) {
            Ok(t) => assert_eq!(t.to_byte(), b),
            Err(_) => assert!(b == 0 || b > 11),
        }
    }
}

#[test]
fn faults_of_broken_records() {
    assert!(matches!(WalRecord::decode(&[1, 2, 3]), Err(WalFault::TooShort)));
    let inner = WalRecord::insert(bytes("key"), bytes("value"), 1).encode_inner();
    assert!(WalRecord::decode_inner(&inner).is_ok());
    assert!(matches!(
        WalRecord::decode_inner(&inner[..inner.len() - 1]),
        Err(WalFault::ValueTruncated)
    ));
    let mut unknown = inner.clone();
    unknown[0] = 200;
    assert!(matches!(WalRecord::decode_inner(&unknown), Err(WalFault::InvalidType(200))));
    let embedded =
        WalRecord::insert_with_embedding(bytes("k"), bytes("v"), 1, bits(&[1.0])).encode_inner();
    assert!(matches!(
        WalRecord::decode_inner(&embedded[..embedded.len() - 1]),
        Err(WalFault::EmbeddingTruncated)
    ));
    let timed = WalRecord::set_timestamp(bytes("k"), 5, 1).encode_inner();
    assert!(matches!(
        WalRecord::decode_inner(&timed[..timed.len() - 1]),
        Err(WalFault::TimestampTruncated)
    ));
    let tagged = WalRecord::add_tags(bytes("k"), vec!["t".to_string()], 1).encode_inner();
    assert!(matches!(
        WalRecord::decode_inner(&tagged[..tagged.len() - 1]),
        Err(WalFault::TagTruncated)
    ));
    let edge = WalRecord::add_edge(bytes("a"), bytes("b"), None, Some(0), 1).encode_inner();
    assert!(matches!(
        WalRecord::decode_inner(&edge[..edge.len() - 1]),
        Err(WalFault::EdgeWeightTruncated)
    ));
}

/// The IEEE checksum, bit by bit.
fn crc(data: &[u8]) -> u32 {
    let mut c = u32::MAX;
    for byte in data {
        c ^= *byte as u32;
        for _ in 0..8 {
            c = if c & 1 == 1 { (c >> 1) ^ 0xEDB8_8320 } else { c >> 1 };
        }
    }
    !c
}

#[test]
fn records_have_the_ieee_checksum() {
    assert_eq!(crc(b"123456789"), 0xCBF4_3926);
    assert_eq!(crc(b""), 0);
    for n in [0, 1, 3, 4, 7, 8, 15, 16, 17, 63, 64, 65, 200, 1000] {
        let value = (0..n).map(|i| (i * 31 % 251) as u8).collect();
        let record = WalRecord::insert(bytes("key"), value, n as u64).encode();
        assert_eq!(record[4..8], crc(&record[8..]).to_le_bytes());
    }
}

#[test]
fn one_changed_byte_of_a_record_is_found() {
    let record = WalRecord::insert(bytes("key"), bytes("value"), 7).encode();
    for at in 4..record.len() {
        let mut changed = record.clone();
        changed[at] ^= 0x04;
        let refused = WalRecord::decode(&changed[4..]).err().unwrap();
        assert!(matches!(refused, WalFault::ChecksumMismatch { .. }));
    }
}

#[test]
fn faults_have_their_wording() {
    let mismatch = WalFault::ChecksumMismatch { expected: 0xDEAD_BEEF, actual: 0x1F };
    assert_eq!(mismatch.message(), "Checksum mismatch: expected 0xdeadbeef, got 0x1f");
    let zero = WalFault::ChecksumMismatch { expected: 0, actual: u32::MAX };
    assert_eq!(zero.message(), "Checksum mismatch: expected 0x0, got 0xffffffff");
    assert_eq!(WalFault::InvalidType(42).message(), "Invalid WAL record type: 42");
    assert_eq!(WalFault::TooShort.message(), "WAL record too short");
    let length = ReplayFault::InvalidLength(104857601);
    assert_eq!(length.message(), "Invalid record length: 104857601");
    assert_eq!(ReplayFault::Truncated.message(), "Truncated record at end of WAL");
    let undecodable = ReplayFault::Undecodable(WalFault::InvalidType(0));
    assert_eq!(
        undecodable.message(),
        "Failed to decode record: Invalid WAL record type: 0"
    );
    let at = StorageError::WalReplay { offset: 12, fault: ReplayFault::Truncated };
    assert!(at.message().ends_with("12: Truncated record at end of WAL"));
}
