use remem_server::services::types::{
    default_memory_health, memory_key, memory_key_bytes, ms_to_dt, ms_to_dt_or, now_ms,
    parse_memory_id, Connection, MemoryType, RelationshipType, StoredMemory, StoredMetadata,
};
use uuid::Uuid;

#[test]
fn memory_type_display() {
    assert_eq!(MemoryType::ShortTerm.to_string(), "short_term");
    assert_eq!(MemoryType::LongTerm.to_string(), "long_term");
}

#[test]
fn memory_type_try_from_valid() {
    assert_eq!(MemoryType::try_from("short_term"), Ok(MemoryType::ShortTerm));
    assert_eq!(MemoryType::try_from("long_term"), Ok(MemoryType::LongTerm));
}

#[test]
fn memory_type_try_from_invalid() {
    assert!(MemoryType::try_from("ShortTerm").is_err());
    assert!(MemoryType::try_from("SHORT_TERM").is_err());
    assert!(MemoryType::try_from("").is_err());
    assert!(MemoryType::try_from("unknown").is_err());
}

#[test]
fn relationship_type_display() {
    assert_eq!(RelationshipType::RelatedTo.to_string(), "related_to");
    assert_eq!(RelationshipType::CausedBy.to_string(), "caused_by");
    assert_eq!(RelationshipType::PartOf.to_string(), "part_of");
    assert_eq!(RelationshipType::References.to_string(), "references");
    assert_eq!(RelationshipType::Contradicts.to_string(), "contradicts");
    assert_eq!(RelationshipType::Supports.to_string(), "supports");
    assert_eq!(RelationshipType::SimilarTo.to_string(), "similar_to");
    assert_eq!(RelationshipType::DerivedFrom.to_string(), "derived_from");
}

#[test]
fn relationship_type_try_from_all_variants() {
    let pairs = [
        ("related_to", RelationshipType::RelatedTo),
        ("caused_by", RelationshipType::CausedBy),
        ("part_of", RelationshipType::PartOf),
        ("references", RelationshipType::References),
        ("contradicts", RelationshipType::Contradicts),
        ("supports", RelationshipType::Supports),
        ("similar_to", RelationshipType::SimilarTo),
        ("derived_from", RelationshipType::DerivedFrom),
    ];
    for (s, expected) in pairs {
        assert_eq!(RelationshipType::try_from(s), Ok(expected), "failed for {s}");
    }
}

#[test]
fn relationship_type_try_from_invalid() {
    assert!(RelationshipType::try_from("follows").is_err());
    assert!(RelationshipType::try_from("precedes").is_err());
    assert!(RelationshipType::try_from("RELATED_TO").is_err());
    assert!(RelationshipType::try_from("").is_err());
}

#[test]
fn memory_key_format() {
    let id = Uuid::nil();
    assert_eq!(memory_key(id.as_u128()), "memory:00000000-0000-0000-0000-000000000000");
}

#[test]
fn memory_key_contains_uuid() {
    let id = Uuid::new_v4();
    let key = memory_key(id.as_u128());
    assert!(key.starts_with("memory:"));
    assert!(key.contains(&id.to_string()));
}

#[test]
fn ms_to_dt_roundtrip() {
    let ms: u64 = 1_700_000_000_000;
    let dt = ms_to_dt(ms);
    assert_eq!(dt.timestamp_millis() as u64, ms);
}

#[test]
fn now_ms_after_2024() {
    let ms = now_ms();
    let jan_2024_ms: u64 = 1_704_067_200_000;
    assert!(ms > jan_2024_ms, "now_ms() returned a timestamp before 2024");
}

#[test]
fn time_beyond_the_calendar_becomes_the_present() {
    let before = now_ms();
    let dt = ms_to_dt(8_210_266_876_800_000);
    let after = now_ms();
    assert!(before <= dt.millis as u64 && dt.millis as u64 <= after);
    assert_eq!(ms_to_dt(u64::MAX).millis, -1);
}

fn make_stored(memory_type: MemoryType, ttl: Option<u64>, created_ms_ago: u64) -> StoredMemory {
    let now = now_ms();
    StoredMemory {
        id: Uuid::new_v4().as_u128(),
        content: "test content".into(),
        memory_type,
        metadata: StoredMetadata {
            created_at: now.saturating_sub(created_ms_ago),
            updated_at: now,
            accessed_at: now,
            access_count: 0,
            source: None,
            tags: vec![],
            importance: 0.5f32.to_bits(),
            emotional_valence: 0.0f32.to_bits(),
            arousal: 0.0f32.to_bits(),
            health: 100.0f32.to_bits(),
            last_recalled_at: None,
            flashbulb_until: None,
            ttl,
            last_decay_at: None,
            last_health_check_at: None,
        },
        archived: false,
    }
}

#[test]
fn long_term_memory_never_expires() {
    let m = make_stored(MemoryType::LongTerm, None, 365 * 24 * 3600 * 1000);
    assert!(!m.is_expired());
}

#[test]
fn long_term_memory_with_ttl_never_expires() {
    let m = make_stored(MemoryType::LongTerm, Some(1), 999_999_999);
    assert!(!m.is_expired());
}

#[test]
fn short_term_memory_not_yet_expired() {
    let m = make_stored(MemoryType::ShortTerm, Some(3600), 0);
    assert!(!m.is_expired());
}

#[test]
fn short_term_memory_expired() {
    let m = make_stored(MemoryType::ShortTerm, Some(3600), 7_200_000);
    assert!(m.is_expired());
}

#[test]
fn short_term_memory_no_ttl_never_expires() {
    let m = make_stored(MemoryType::ShortTerm, None, 999_999_999_000);
    assert!(!m.is_expired());
}

#[test]
fn into_api_maps_all_fields() {
    let id = Uuid::new_v4().as_u128();
    let target_id = Uuid::new_v4().as_u128();
    let now = now_ms();
    let stored = StoredMemory {
        id,
        content: "Hello world".into(),
        memory_type: MemoryType::LongTerm,
        metadata: StoredMetadata {
            created_at: now,
            updated_at: now,
            accessed_at: now,
            access_count: 7,
            source: Some("unit-test".into()),
            tags: vec!["tag1".into(), "tag2".into()],
            importance: 0.8f32.to_bits(),
            emotional_valence: 0.25f32.to_bits(),
            arousal: 0.4f32.to_bits(),
            health: 88.0f32.to_bits(),
            last_recalled_at: Some(now),
            flashbulb_until: None,
            ttl: None,
            last_decay_at: None,
            last_health_check_at: None,
        },
        archived: false,
    };
    let conn = Connection {
        target_id,
        relationship_type: RelationshipType::SimilarTo,
        strength: 0.9f32.to_bits(),
        created_at: ms_to_dt(now),
    };
    let api = stored.into_api(vec![conn]);
    assert_eq!(api.id, id);
    assert_eq!(api.content, "Hello world");
    assert_eq!(api.memory_type, MemoryType::LongTerm);
    assert_eq!(api.metadata.access_count, 7);
    assert_eq!(api.metadata.source.as_deref(), Some("unit-test"));
    assert_eq!(api.metadata.tags, ["tag1", "tag2"]);
    assert!((f32::from_bits(api.metadata.importance) - 0.8).abs() < f32::EPSILON);
    assert!(api.metadata.ttl.is_none());
    assert_eq!(api.connections.len(), 1);
    assert_eq!(api.connections[0].target_id, target_id);
    assert_eq!(api.connections[0].relationship_type, RelationshipType::SimilarTo);
    assert_eq!(api.metadata.created_at.millis, now as i64);
    assert_eq!(api.metadata.last_recalled_at.unwrap().millis, now as i64);
}

#[test]
fn into_api_empty_connections() {
    let mut stored = make_stored(MemoryType::ShortTerm, Some(3600), 0);
    stored.content = "No connections".into();
    let api = stored.into_api(vec![]);
    assert!(api.connections.is_empty());
    assert_eq!(api.metadata.ttl, Some(3600));
}

#[test]
fn parse_memory_id_roundtrips_with_memory_key() {
    let id = Uuid::new_v4().as_u128();
    let key = memory_key(id);
    assert_eq!(parse_memory_id(key.as_bytes()), Some(id));
    assert_eq!(memory_key_bytes(id), key.into_bytes());
}

#[test]
fn parse_memory_id_rejects_wrong_prefix() {
    assert_eq!(parse_memory_id(b"tag:abc"), None);
    assert_eq!(parse_memory_id(b"memory:not-a-uuid"), None);
    assert_eq!(parse_memory_id(b""), None);
}

#[test]
fn ids_are_written_in_hexadecimal_groups() {
    let id: u128 = 0x0123456789abcdef_fedcba9876543210;
    assert_eq!(memory_key(id), "memory:01234567-89ab-cdef-fedc-ba9876543210");
    assert_eq!(parse_memory_id(b"memory:01234567-89ab-cdef-fedc-ba9876543210"), Some(id));
    assert_eq!(parse_memory_id(b"memory:\xff\xfe"), None);
}

#[test]
fn moments_beyond_the_calendar_are_now() {
    assert_eq!(ms_to_dt_or(5, 77).millis, 5);
    assert_eq!(ms_to_dt_or(8_210_266_876_799_999, 77).millis, 8_210_266_876_799_999);
    assert_eq!(ms_to_dt_or(8_210_266_876_800_000, 77).millis, 77);
    assert_eq!(ms_to_dt_or(u64::MAX, 77).millis, -1);
    assert_eq!(ms_to_dt_or(1 << 63, 77).millis, 77);
    let first: i64 = -8_334_601_228_800_000;
    assert_eq!(ms_to_dt_or(first as u64, 77).millis, first);
    assert_eq!(ms_to_dt_or((first - 1) as u64, 77).millis, 77);
}

#[test]
fn expiry_has_an_exact_moment() {
    let mut m = make_stored(MemoryType::ShortTerm, Some(10), 0);
    m.metadata.created_at = 1_000;
    assert!(!m.is_expired_at(10_999));
    assert!(m.is_expired_at(11_000));
    assert!(m.is_expired_at(u64::MAX));
    m.metadata.ttl = Some(u64::MAX);
    assert!(!m.is_expired_at(u64::MAX));
}

#[test]
fn memories_start_healthy() {
    assert_eq!(f32::from_bits(default_memory_health()), 100.0);
}
