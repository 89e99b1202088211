use remem_server::engine::error::{Disabled, StorageError};
use remem_server::error::AppError;
use remem_server::services::connection_manager;
use remem_server::services::connection_manager::{LoadedNeighbor, Reached, ScoredKey};
use remem_server::services::lifecycle_manager::{
    ExpiryAction, ForgettingAction, LifecycleManager, DAILY_IMPORTANCE_FACTOR, DAY_MS,
    LONG_TERM_DAILY_LOSS, SHORT_TERM_DAILY_LOSS,
};
use remem_server::services::memory_manager;
use remem_server::services::memory_manager::{
    matches_filters, CreateOpts, ListPage, Neighbor, UpdatePatch,
};
use remem_server::services::search_engine;
use remem_server::services::search_engine::{Collector, KeywordSearch, SearchPlan, SearchQuery};
use remem_server::services::types::{
    memory_key, memory_key_bytes, Connection, DateTime, Memory, MemoryFilters, MemoryType,
    RelationshipType, SearchType, StoredMemory, StoredMetadata,
};
use uuid::Uuid;

fn bits(x: f32) -> u32 {
    x.to_bits()
}

fn texts(words: &[&str]) -> Vec<String> {
    words.iter().map(|w| w.to_string()).collect()
}

fn make_stored(
    memory_type: MemoryType,
    importance: f32,
    tags: Vec<String>,
    created_at: u64,
) -> StoredMemory {
    StoredMemory {
        id: Uuid::new_v4().as_u128(),
        content: "test content".into(),
        memory_type,
        metadata: StoredMetadata {
            created_at,
            updated_at: created_at,
            accessed_at: created_at,
            access_count: 0,
            source: None,
            tags,
            importance: bits(importance),
            emotional_valence: bits(0.0),
            arousal: bits(0.0),
            health: bits(100.0),
            last_recalled_at: None,
            flashbulb_until: None,
            ttl: None,
            last_decay_at: None,
            last_health_check_at: None,
        },
        archived: false,
    }
}

fn no_filters() -> MemoryFilters {
    MemoryFilters::default()
}

#[test]
fn no_filters_matches_everything() {
    let m = make_stored(MemoryType::ShortTerm, 0.5, vec![], 1000);
    assert!(matches_filters(&m, &no_filters()));
    let m2 = make_stored(MemoryType::LongTerm, 0.9, vec!["rust".into()], 9999);
    assert!(matches_filters(&m2, &no_filters()));
}

#[test]
fn memory_type_filter_match() {
    let m = make_stored(MemoryType::LongTerm, 0.5, vec![], 1000);
    let f = MemoryFilters { memory_type: Some(MemoryType::LongTerm), ..Default::default() };
    assert!(matches_filters(&m, &f));
}

#[test]
fn memory_type_filter_no_match() {
    let m = make_stored(MemoryType::ShortTerm, 0.5, vec![], 1000);
    let f = MemoryFilters { memory_type: Some(MemoryType::LongTerm), ..Default::default() };
    assert!(!matches_filters(&m, &f));
}

#[test]
fn min_importance_boundary() {
    let m = make_stored(MemoryType::ShortTerm, 0.5, vec![], 1000);
    let pass = MemoryFilters { min_importance: Some(bits(0.5)), ..Default::default() };
    assert!(matches_filters(&m, &pass));
    let fail = MemoryFilters { min_importance: Some(bits(0.51)), ..Default::default() };
    assert!(!matches_filters(&m, &fail));
}

#[test]
fn max_importance_boundary() {
    let m = make_stored(MemoryType::ShortTerm, 0.5, vec![], 1000);
    let pass = MemoryFilters { max_importance: Some(bits(0.5)), ..Default::default() };
    assert!(matches_filters(&m, &pass));
    let fail = MemoryFilters { max_importance: Some(bits(0.49)), ..Default::default() };
    assert!(!matches_filters(&m, &fail));
}

#[test]
fn importance_range_filter() {
    let m = make_stored(MemoryType::ShortTerm, 0.6, vec![], 1000);
    let f = MemoryFilters {
        min_importance: Some(bits(0.5)),
        max_importance: Some(bits(0.7)),
        ..Default::default()
    };
    assert!(matches_filters(&m, &f));
    let low = make_stored(MemoryType::ShortTerm, 0.4, vec![], 1000);
    assert!(!matches_filters(&low, &f));
    let high = make_stored(MemoryType::ShortTerm, 0.8, vec![], 1000);
    assert!(!matches_filters(&high, &f));
}

#[test]
fn created_after_filter() {
    let m = make_stored(MemoryType::ShortTerm, 0.5, vec![], 2000);
    let pass = MemoryFilters { created_after: Some(1000), ..Default::default() };
    assert!(matches_filters(&m, &pass));
    let fail = MemoryFilters { created_after: Some(3000), ..Default::default() };
    assert!(!matches_filters(&m, &fail));
}

#[test]
fn created_before_filter() {
    let m = make_stored(MemoryType::ShortTerm, 0.5, vec![], 2000);
    let pass = MemoryFilters { created_before: Some(3000), ..Default::default() };
    assert!(matches_filters(&m, &pass));
    let fail = MemoryFilters { created_before: Some(1000), ..Default::default() };
    assert!(!matches_filters(&m, &fail));
}

#[test]
fn tags_single_match() {
    let m = make_stored(MemoryType::ShortTerm, 0.5, texts(&["rust", "test"]), 1000);
    let pass = MemoryFilters { tags: vec!["rust".into()], ..Default::default() };
    assert!(matches_filters(&m, &pass));
    let fail = MemoryFilters { tags: vec!["python".into()], ..Default::default() };
    assert!(!matches_filters(&m, &fail));
}

#[test]
fn tags_all_must_match() {
    let m = make_stored(MemoryType::ShortTerm, 0.5, texts(&["rust", "test"]), 1000);
    let both = MemoryFilters { tags: texts(&["rust", "test"]), ..Default::default() };
    assert!(matches_filters(&m, &both));
    let partial = MemoryFilters { tags: texts(&["rust", "python"]), ..Default::default() };
    assert!(!matches_filters(&m, &partial));
}

#[test]
fn empty_tags_filter_matches_all() {
    let m = make_stored(MemoryType::ShortTerm, 0.5, vec![], 1000);
    let f = MemoryFilters { tags: vec![], ..Default::default() };
    assert!(matches_filters(&m, &f));
}

#[test]
fn combined_filters_all_conditions() {
    let m = make_stored(MemoryType::LongTerm, 0.8, vec!["important".into()], 5000);
    let wanted = |memory_type: MemoryType| MemoryFilters {
        memory_type: Some(memory_type),
        min_importance: Some(bits(0.7)),
        max_importance: Some(bits(0.9)),
        tags: vec!["important".into()],
        created_after: Some(1000),
        created_before: Some(9000),
    };
    assert!(matches_filters(&m, &wanted(MemoryType::LongTerm)));
    assert!(!matches_filters(&m, &wanted(MemoryType::ShortTerm)));
}

#[test]
fn candidates_filtered_against_existing_neighbors() {
    let id_b = Uuid::new_v4().as_u128();
    let id_c = Uuid::new_v4().as_u128();
    let existing_targets = vec![memory_key_bytes(id_b)];
    let candidates = vec![(id_b, bits(0.9)), (id_c, bits(0.85))];
    let new_candidates = connection_manager::filter_connected(&candidates, &existing_targets);
    assert_eq!(new_candidates.len(), 1);
    assert_eq!(new_candidates[0].0, id_c);
}

fn found(id: u128, score: f32) -> ScoredKey {
    ScoredKey { key: memory_key_bytes(id), score: bits(score) }
}

#[test]
fn discovery_connects_to_new_memories_only() {
    let items = vec![
        found(1, 1.0),
        found(2, 0.9),
        found(3, 0.69),
        ScoredKey { key: b"other".to_vec(), score: bits(0.9) },
        found(4, 1.5),
        found(5, 0.8),
    ];
    let now = DateTime { millis: 10 };
    let existing = vec![memory_key_bytes(2)];
    let r = connection_manager::auto_discover(1, &items, &existing, bits(0.7), 2, now);
    assert_eq!(r.connections.len(), 1);
    assert_eq!(r.connections[0].target_id, 4);
    assert_eq!(f32::from_bits(r.connections[0].strength), 1.0);
    assert_eq!(r.connections[0].relationship_type, RelationshipType::SimilarTo);
    assert_eq!(r.edges[0].source, memory_key_bytes(1));
    assert_eq!(r.edges[0].target, memory_key_bytes(4));
    assert_eq!(r.edges[0].edge_type.as_deref(), Some("similar_to"));
    assert_eq!(connection_manager::pick_candidates(1, &items, bits(0.7), 0).len(), 1);
    let all = connection_manager::pick_candidates(1, &items, bits(0.7), 10);
    assert_eq!(all.iter().map(|c| c.0).collect::<Vec<u128>>(), vec![2, 4, 5]);
}

#[test]
fn connections_need_two_memories() {
    let now = DateTime { millis: 1 };
    let there = || Some(make_stored(MemoryType::LongTerm, 0.5, vec![], 1));
    let away = || {
        let mut m = make_stored(MemoryType::LongTerm, 0.5, vec![], 1);
        m.archived = true;
        Some(m)
    };
    let rel = RelationshipType::Supports;
    let same = connection_manager::create(7, &there(), 7, &there(), rel, bits(0.5), now);
    assert_eq!(
        same.err().unwrap().message(),
        "validation error: source_id and target_id must differ"
    );
    let none = connection_manager::create(7, &None, 8, &there(), rel, bits(0.5), now);
    assert!(matches!(none.err(), Some(AppError::NotFound(7))));
    let gone = connection_manager::create(7, &there(), 8, &away(), rel, bits(0.5), now);
    assert!(matches!(gone.err(), Some(AppError::NotFound(8))));
    let ok = connection_manager::create(7, &there(), 8, &there(), rel, bits(3.0), now).unwrap();
    assert_eq!(ok.connection.target_id, 8);
    assert_eq!(f32::from_bits(ok.connection.strength), 1.0);
    assert_eq!(ok.edge.weight, Some(bits(1.0)));
    assert_eq!(ok.edge.edge_type.as_deref(), Some("supports"));
}

#[test]
fn walk_leaves_out_its_start_and_memories_put_away() {
    let now = DateTime { millis: 1 };
    let m = make_stored(MemoryType::LongTerm, 0.5, vec![], 1);
    let id = m.id;
    let edge = Some(Reached { edge_type: "follows".to_string(), weight: bits(0.25) });
    let r = connection_manager::related(1, &memory_key_bytes(id), &edge, Some(m), now).unwrap();
    assert_eq!(r.0.id, id);
    assert_eq!(r.1.relationship_type, RelationshipType::RelatedTo);
    assert_eq!(f32::from_bits(r.1.strength), 0.25);
    let own = make_stored(MemoryType::LongTerm, 0.5, vec![], 1);
    assert!(connection_manager::related(1, &memory_key_bytes(1), &None, Some(own), now).is_none());
    let mut away = make_stored(MemoryType::LongTerm, 0.5, vec![], 1);
    away.archived = true;
    assert!(connection_manager::related(1, &memory_key_bytes(2), &None, Some(away), now).is_none());
    assert!(connection_manager::related(1, &memory_key_bytes(2), &None, None, now).is_none());
}

#[test]
fn followed_types_have_names() {
    assert!(connection_manager::followed_types(&vec![]).is_none());
    let names = connection_manager::followed_types(&vec![
        RelationshipType::PartOf,
        RelationshipType::CausedBy,
    ]);
    assert_eq!(names.unwrap(), texts(&["part_of", "caused_by"]));
}

#[test]
fn listed_connections_are_paged() {
    let now = DateTime { millis: 1 };
    let neighbor = |id: u128, archived: Option<bool>| LoadedNeighbor {
        neighbor: Neighbor {
            key: memory_key_bytes(id),
            edge_type: "part_of".to_string(),
            weight: bits(0.5),
        },
        archived,
    };
    let items =
        vec![neighbor(2, Some(false)), neighbor(3, Some(true)), neighbor(4, None), neighbor(5, Some(false))];
    let mut all: Vec<(u128, Connection)> = Vec::new();
    connection_manager::list_connections(&mut all, &memory_key_bytes(1), Some(false), &items, now);
    connection_manager::list_connections(&mut all, &memory_key_bytes(9), Some(true), &items, now);
    connection_manager::list_connections(&mut all, b"odd", Some(false), &items, now);
    assert_eq!(all.len(), 2);
    let (page, total) = connection_manager::page(&all, 1, 1);
    assert_eq!(total, 2);
    assert_eq!(page.len(), 1);
    assert_eq!(page[0].0, 1);
    assert_eq!(page[0].1.target_id, 5);
    assert_eq!(page[0].1.relationship_type, RelationshipType::PartOf);
    assert!(connection_manager::page(&all, 10, 2).0.is_empty());
}

#[test]
fn new_memories_are_kept_in_range() {
    let opts = CreateOpts {
        importance: bits(7.0),
        emotional_valence: bits(-3.0),
        arousal: bits(0.5),
        health: Some(bits(500.0)),
        tags: texts(&["a"]),
        ..Default::default()
    };
    let new = memory_manager::create(9, 1000, "c".to_string(), opts);
    let m = new.stored;
    assert_eq!(m.id, 9);
    assert_eq!(f32::from_bits(m.metadata.importance), 1.0);
    assert_eq!(f32::from_bits(m.metadata.emotional_valence), -1.0);
    assert_eq!(f32::from_bits(m.metadata.health), 100.0);
    assert_eq!(m.metadata.ttl, Some(3600));
    assert_eq!(m.metadata.flashbulb_until, None);
    assert_eq!(new.index_tags, texts(&["a", "__type:short_term"]));
}

#[test]
fn aroused_memories_are_protected() {
    let opts = CreateOpts { arousal: bits(0.8), importance: bits(0.1), ..Default::default() };
    let new = memory_manager::create(9, 1000, "c".to_string(), opts);
    let m = new.stored;
    assert_eq!(m.memory_type, MemoryType::LongTerm);
    assert_eq!(f32::from_bits(m.metadata.importance), 0.9);
    assert_eq!(m.metadata.flashbulb_until, Some(1000 + 30 * 86_400_000));
    assert_eq!(m.metadata.ttl, None);
    assert_eq!(new.index_tags, texts(&["__type:long_term", "__flashbulb__"]));
}

#[test]
fn recalling_strengthens() {
    let loaded = make_stored(MemoryType::ShortTerm, 0.5, vec![], 1000);
    let m = memory_manager::get(5, Some(loaded), 5000, bits(95.0 + 10.0)).unwrap();
    assert_eq!(m.metadata.access_count, 1);
    assert_eq!(m.metadata.accessed_at, 5000);
    assert_eq!(m.metadata.last_recalled_at, Some(5000));
    assert_eq!(f32::from_bits(m.metadata.health), 100.0);
    assert_eq!(m.metadata.updated_at, 1000);
}

#[test]
fn memories_put_away_are_not_found() {
    assert!(matches!(memory_manager::found(5, None), Err(AppError::NotFound(5))));
    let mut m = make_stored(MemoryType::ShortTerm, 0.5, vec![], 1000);
    memory_manager::archive(&mut m, 7);
    assert!(m.archived);
    assert_eq!(m.metadata.updated_at, 7);
    assert!(matches!(memory_manager::found(5, Some(m)), Err(AppError::NotFound(5))));
    let m = make_stored(MemoryType::ShortTerm, 0.5, vec![], 1000);
    assert!(memory_manager::found(5, Some(m)).is_ok());
}

#[test]
fn what_is_not_there_is_refused() {
    let put_away = || {
        let mut m = make_stored(MemoryType::ShortTerm, 0.5, vec![], 1000);
        memory_manager::archive(&mut m, 7);
        Some(m)
    };
    let nothing = || UpdatePatch {
        content: None,
        tags: None,
        importance: None,
        emotional_valence: None,
        arousal: None,
        health: None,
        source: None,
    };
    let rules = LifecycleManager::new(false);
    assert!(matches!(memory_manager::get(5, None, 9, 0), Err(AppError::NotFound(5))));
    assert!(matches!(memory_manager::get(5, put_away(), 9, 0), Err(AppError::NotFound(5))));
    assert!(matches!(memory_manager::update(6, None, nothing(), 9), Err(AppError::NotFound(6))));
    let refused = memory_manager::update(6, put_away(), nothing(), 9);
    assert!(matches!(refused, Err(AppError::NotFound(6))));
    assert!(matches!(rules.promote(7, None, 9), Err(AppError::NotFound(7))));
    assert!(matches!(rules.promote(7, put_away(), 9), Err(AppError::NotFound(7))));
    assert!(matches!(memory_manager::soft_delete(8, None, 9), Err(AppError::NotFound(8))));
    assert!(memory_manager::soft_delete(8, put_away(), 9).is_ok());
}

#[test]
fn patches_change_what_they_name() {
    let loaded = make_stored(MemoryType::ShortTerm, 0.5, texts(&["old"]), 1000);
    let patch = UpdatePatch {
        content: Some("new content".to_string()),
        tags: Some(texts(&["x", "y"])),
        importance: Some(bits(2.0)),
        emotional_valence: None,
        arousal: None,
        health: None,
        source: None,
    };
    let (m, effects) = memory_manager::update(5, Some(loaded), patch, 2000).unwrap();
    assert!(effects.content_changed);
    assert_eq!(effects.index_tags.unwrap(), texts(&["x", "y", "__type:short_term"]));
    assert_eq!(m.content, "new content");
    assert_eq!(m.metadata.tags, texts(&["x", "y"]));
    assert_eq!(f32::from_bits(m.metadata.importance), 1.0);
    assert_eq!(f32::from_bits(m.metadata.health), 100.0);
    assert_eq!(m.metadata.updated_at, 2000);
    assert_eq!(m.metadata.created_at, 1000);
}

#[test]
fn list_pages_skip_and_count() {
    let filters = MemoryFilters { min_importance: Some(bits(0.3)), ..Default::default() };
    let mut page = ListPage::new(2, 1, 99, &filters);
    for importance in [0.5, 0.2, 0.6, 0.7, 0.8] {
        page.offer(make_stored(MemoryType::LongTerm, importance, vec![], 1), &filters);
    }
    let mut away = make_stored(MemoryType::LongTerm, 0.9, vec![], 1);
    away.archived = true;
    page.offer(away, &filters);
    let (memories, total) = page.finish();
    assert_eq!(total, 4);
    let shown: Vec<f32> = memories.iter().map(|m| f32::from_bits(m.metadata.importance)).collect();
    assert_eq!(shown, vec![0.6, 0.7]);
}

#[test]
fn lists_begin_with_the_newest() {
    let filters = no_filters();
    let loaded = || -> Vec<StoredMemory> {
        [20u64, 50, 10, 50, 30, 40]
            .iter()
            .enumerate()
            .map(|(i, created)| {
                let mut m = make_stored(MemoryType::LongTerm, 0.5, vec![], *created);
                m.metadata.created_at = *created;
                m.content = format!("{}", i);
                m
            })
            .collect()
    };
    let (all, total) = memory_manager::list(loaded(), &filters, 10, 0, 99);
    assert_eq!(total, 6);
    let contents = |page: Vec<Memory>| page.into_iter().map(|m| m.content).collect::<Vec<String>>();
    assert_eq!(contents(all), texts(&["1", "3", "5", "4", "0", "2"]));
    let (page, total) = memory_manager::list(loaded(), &filters, 2, 3, 99);
    assert_eq!(total, 6);
    assert_eq!(contents(page), texts(&["4", "0"]));
    assert_eq!(memory_manager::list(vec![], &filters, 2, 0, 99).1, 0);
}

#[test]
fn neighbors_become_connections() {
    let neighbors = vec![
        Neighbor { key: memory_key_bytes(3), edge_type: "supports".to_string(), weight: bits(0.5) },
        Neighbor { key: b"odd".to_vec(), edge_type: "supports".to_string(), weight: bits(0.5) },
    ];
    let r = memory_manager::fetch_connections(&neighbors, DateTime { millis: 4 });
    assert_eq!(r.len(), 1);
    assert_eq!(r[0].target_id, 3);
    assert_eq!(r[0].relationship_type, RelationshipType::Supports);
    assert_eq!(r[0].created_at.millis, 4);
}

#[test]
fn expired_memories_are_promoted_or_put_away() {
    let rules = LifecycleManager::new(false);
    let mut m = make_stored(MemoryType::ShortTerm, 0.5, texts(&["t"]), 0);
    assert_eq!(rules.expire_short_term(&m, 10_000), ExpiryAction::Skip);
    m.metadata.ttl = Some(5);
    assert_eq!(rules.expire_short_term(&m, 4_999), ExpiryAction::Skip);
    assert_eq!(rules.expire_short_term(&m, 5_000), ExpiryAction::Archive);
    m.metadata.access_count = 3;
    assert_eq!(rules.expire_short_term(&m, 5_000), ExpiryAction::Promote);
    let (m, tags) = rules.promote(5, Some(m), 5_000).unwrap();
    assert_eq!(tags.unwrap(), texts(&["t", "__type:long_term"]));
    assert_eq!(m.memory_type, MemoryType::LongTerm);
    assert_eq!(m.metadata.ttl, None);
    assert_eq!(rules.expire_short_term(&m, u64::MAX), ExpiryAction::Skip);
    let (m, tags) = rules.promote(5, Some(m), 6_000).unwrap();
    assert!(tags.is_none());
    assert_eq!(m.metadata.updated_at, 5_000);
}

/// A short-term memory of the first moment, with a health that one day takes away.
fn fading() -> StoredMemory {
    let mut m = make_stored(MemoryType::ShortTerm, 0.5, vec![], 0);
    m.content = "old memory".to_string();
    m.metadata.health = bits(1.0);
    m
}

/// Lets a memory age, as far as it does.
fn forget(rules: &LifecycleManager, m: &mut StoredMemory, now: u64) -> ForgettingAction {
    let days = rules.forgetting_days(m, now).unwrap();
    let loss = f32::from_bits(rules.daily_loss(m.memory_type));
    let health = f32::from_bits(m.metadata.health) - loss * days as f32;
    rules.active_forgetting(m, now, bits(health))
}

#[test]
fn active_forgetting_archives_by_default_instead_of_hard_deleting() {
    let rules = LifecycleManager::new(false);
    let mut m = fading();
    let now = 20_000 * DAY_MS;
    assert_eq!(rules.forgetting_days(&m, now), Some(20_000));
    assert_eq!(forget(&rules, &mut m, now), ForgettingAction::Archive);
    assert!(m.archived);
    assert_eq!(f32::from_bits(m.metadata.health), 0.0);
    assert_eq!(m.metadata.last_health_check_at, Some(now));
}

#[test]
fn active_forgetting_hard_deletes_when_flag_is_set() {
    let rules = LifecycleManager::new(true);
    let mut m = fading();
    assert_eq!(forget(&rules, &mut m, 20_000 * DAY_MS), ForgettingAction::Delete);
    assert!(!m.archived);
}

#[test]
fn expire_short_term_promoting_an_expired_memory_does_not_deadlock() {
    let rules = LifecycleManager::new(false);
    let mut m = make_stored(MemoryType::ShortTerm, 0.5, vec![], 0);
    m.content = "frequently accessed short-term memory".to_string();
    m.metadata.access_count = 5;
    m.metadata.ttl = Some(1);
    let now = 20_000 * DAY_MS;
    assert_eq!(rules.expire_short_term(&m, now), ExpiryAction::Promote);
    let (after, tags) = rules.promote(m.id, Some(m), now).unwrap();
    assert_eq!(after.memory_type, MemoryType::LongTerm);
    assert_eq!(tags.unwrap(), texts(&["__type:long_term"]));
}

#[test]
fn importance_decay_does_not_reset_active_forgetting_clock() {
    let rules = LifecycleManager::new(false);
    let mut m = make_stored(MemoryType::LongTerm, 0.9, vec![], 0);
    m.content = "long-term memory".to_string();
    let now = 10 * DAY_MS;
    let before = rules.forgetting_days(&m, now);
    assert_eq!(rules.importance_decay_days(&m, now), Some(10));
    let factor = f32::from_bits(DAILY_IMPORTANCE_FACTOR);
    assert_eq!(factor, 0.995);
    rules.apply_importance_decay(&mut m, now, bits(0.9 * factor.powi(10)));
    assert_eq!(rules.forgetting_days(&m, now), before);
    assert_eq!(rules.importance_decay_days(&m, now), None);
    assert_eq!(m.metadata.updated_at, 0);
    assert_eq!(forget(&rules, &mut m, now), ForgettingAction::Keep);
    assert!(f32::from_bits(m.metadata.health) < 100.0);
    assert_eq!(f32::from_bits(m.metadata.health), 80.0);
    assert_eq!(f32::from_bits(SHORT_TERM_DAILY_LOSS), 8.0);
    assert_eq!(f32::from_bits(LONG_TERM_DAILY_LOSS), 2.0);
}

#[test]
fn protected_memories_do_not_age() {
    let rules = LifecycleManager::new(false);
    let mut m = make_stored(MemoryType::LongTerm, 0.5, vec![], 0);
    m.metadata.flashbulb_until = Some(5 * DAY_MS);
    assert_eq!(rules.importance_decay_days(&m, 4 * DAY_MS), None);
    assert_eq!(rules.forgetting_days(&m, 4 * DAY_MS), None);
    assert_eq!(rules.forgetting_days(&m, 5 * DAY_MS), Some(5));
}

#[test]
fn old_archives_are_cleaned_up() {
    let rules = LifecycleManager::new(false);
    let mut m = make_stored(MemoryType::LongTerm, 0.5, vec![], 0);
    assert!(!rules.cleanup_archived(&m, 100 * DAY_MS, 30));
    memory_manager::archive(&mut m, 10 * DAY_MS);
    assert!(!rules.cleanup_archived(&m, 40 * DAY_MS - 1, 30));
    assert!(rules.cleanup_archived(&m, 40 * DAY_MS, 30));
}

#[test]
fn searches_widen_until_all_vectors_are_seen() {
    assert_eq!(search_engine::search_width(5), 20);
    assert_eq!(search_engine::search_width(10), 30);
    let mut width = 20;
    let mut steps = Vec::new();
    while let Some(w) = search_engine::next_width(width, 3, 5, 100) {
        steps.push(w);
        width = w;
    }
    assert_eq!(steps, vec![40, 80, 100]);
    assert_eq!(search_engine::next_width(20, 5, 5, 100), None);
    assert_eq!(search_engine::next_width(usize::MAX - 1, 0, 5, usize::MAX), Some(usize::MAX));
}

#[test]
fn collector_stops_at_its_limit() {
    let filters = no_filters();
    let mut c = Collector::new(2);
    assert!(!c.offer(None, bits(0.9), &filters));
    assert!(!c.offer(
        Some(make_stored(MemoryType::LongTerm, 0.5, vec![], 1)),
        bits(0.8),
        &filters
    ));
    assert!(!c.offer_keyed(
        &b"odd".to_vec(),
        Some(make_stored(MemoryType::LongTerm, 0.5, vec![], 1)),
        bits(0.7),
        &filters
    ));
    let m = make_stored(MemoryType::LongTerm, 0.5, vec![], 1);
    let key = memory_key(m.id).into_bytes();
    assert!(c.offer_keyed(&key, Some(m), bits(0.6), &filters));
    assert_eq!(c.len(), 2);
    let results = c.finish(0);
    assert_eq!(results.iter().map(|r| f32::from_bits(r.score)).collect::<Vec<f32>>(), vec![0.8, 0.6]);
}

#[test]
fn limits_are_kept() {
    let filters = no_filters();
    let m = make_stored(MemoryType::LongTerm, 0.5, vec![], 1);
    let key = memory_key(m.id).into_bytes();
    let mut c = Collector::new(0);
    assert!(c.offer_keyed(&key, Some(m), bits(0.8), &filters));
    assert!(c.finish(0).is_empty());
    let mut c = Collector::new(0);
    assert!(!c.offer(None, bits(0.9), &filters));
    assert!(c.offer(Some(make_stored(MemoryType::LongTerm, 0.5, vec![], 1)), bits(0.8), &filters));
    assert_eq!(c.finish(0).len(), 1);
    let mut c = Collector::new(1);
    assert!(c.offer(Some(make_stored(MemoryType::LongTerm, 0.5, vec![], 1)), bits(0.8), &filters));
    assert!(c.offer(Some(make_stored(MemoryType::LongTerm, 0.5, vec![], 1)), bits(0.9), &filters));
    assert!(c.offer_keyed(&b"odd".to_vec(), None, bits(0.9), &filters));
    let results = c.finish(0);
    assert_eq!(results.len(), 1);
    assert_eq!(f32::from_bits(results[0].score), 0.8);
}

#[test]
fn keyword_search_ranks_what_it_finds() {
    let filters = no_filters();
    let mut search = KeywordSearch::new(search_engine::tokenize("  Rust\tTESTS "), 2);
    assert!(!search.is_empty());
    let mut tagged = make_stored(MemoryType::LongTerm, 0.5, vec![], 1);
    tagged.content = "about RUST and tests".to_string();
    assert_eq!(search.content_matches(&tagged), 2);
    let tagged_key = memory_key_bytes(tagged.id);
    assert!(!search.offer_tagged(&tagged_key, Some(tagged), bits(0.5), &filters));
    assert!(search.needs_scan());
    let again = make_stored(MemoryType::LongTerm, 0.5, vec![], 1);
    assert!(!search.offer_scanned(&tagged_key, Some(again), bits(9.0), &filters));
    let mut other = make_stored(MemoryType::LongTerm, 0.5, vec![], 1);
    other.content = "nothing here".to_string();
    let other_key = memory_key_bytes(other.id);
    assert!(!search.offer_scanned(&other_key, Some(other), bits(9.0), &filters));
    let mut best = make_stored(MemoryType::LongTerm, 0.5, vec![], 1);
    best.content = "trusty".to_string();
    let best_id = best.id;
    assert!(!search.offer_scanned(&memory_key_bytes(best_id), Some(best), bits(1.0), &filters));
    let results = search.finish(0);
    assert_eq!(results.len(), 2);
    assert_eq!(results[0].memory.id, best_id);
    assert_eq!(f32::from_bits(results[1].score), 0.5);
}

#[test]
fn keyword_search_finds_no_memory_twice() {
    let filters = no_filters();
    let with = |content: &str| {
        let mut m = make_stored(MemoryType::LongTerm, 0.5, vec![], 1);
        m.content = content.to_string();
        m
    };
    let keys: Vec<Vec<u8>> = (0..9u128).map(memory_key_bytes).collect();
    let mut search = KeywordSearch::new(search_engine::tokenize("rust"), 2);
    assert!(!search.offer_tagged(&keys[0], Some(with("tagged only")), bits(1.0), &filters));
    assert!(search.needs_scan());
    let mut stopped = Vec::new();
    for (i, key) in keys.iter().enumerate() {
        let content = if i % 2 == 0 { "rust" } else { "iron" };
        stopped.push(search.offer_scanned(key, Some(with(content)), bits(i as f32), &filters));
    }
    assert!(stopped.iter().all(|s| !s));
    let results = search.finish(0);
    let scores: Vec<f32> = results.iter().map(|r| f32::from_bits(r.score)).collect();
    assert_eq!(scores, vec![8.0, 6.0]);
    let mut search = KeywordSearch::new(search_engine::tokenize("rust"), 1);
    let offered: Vec<bool> = (0..3)
        .map(|i| search.offer_tagged(&keys[i], Some(with("x")), bits(0.5), &filters))
        .collect();
    assert_eq!(offered, vec![false, false, true]);
    assert!(!search.needs_scan());
    assert_eq!(search.finish(0).len(), 1);
}

#[test]
fn tokens_are_lower_case_words() {
    assert_eq!(search_engine::tokenize("Hello  W\u{d6}RLD\n"), texts(&["hello", "w\u{f6}rld"]));
    assert!(search_engine::tokenize(" \t ").is_empty());
    assert_eq!(search_engine::count_matches(&texts(&["ab", "cd", "x"]), "abcd"), 2);
}

fn planned(search_type: SearchType, related_to: Option<u128>) -> SearchPlan {
    search_engine::plan_search(&SearchQuery {
        query: "Big Dog".to_string(),
        search_type,
        filters: no_filters(),
        limit: 10,
        related_to,
    })
}

#[test]
fn search_type_decides_the_plan() {
    assert!(matches!(planned(SearchType::Semantic, None), SearchPlan::Vectors { width: 30 }));
    match planned(SearchType::Keyword, Some(5)) {
        SearchPlan::Words { tokens } => assert_eq!(tokens, texts(&["big", "dog"])),
        _ => panic!("words were wanted"),
    }
    match planned(SearchType::Semantic, Some(5)) {
        SearchPlan::Combined(plan) => {
            assert!(plan.tags.is_empty());
            assert_eq!(plan.context, Some((memory_key(5), 2)));
        },
        _ => panic!("all was wanted"),
    }
    match planned(SearchType::Hybrid, None) {
        SearchPlan::Combined(plan) => {
            assert_eq!(plan.tags, texts(&["big", "dog"]));
            assert!(plan.context.is_none());
        },
        _ => panic!("all was wanted"),
    }
}

#[test]
fn hybrid_search_prefers_neighbors() {
    let plan = search_engine::plan_hybrid(texts(&["a"]), 10, Some(5));
    assert_eq!(plan.width, 30);
    assert_eq!(plan.tags, texts(&["a"]));
    assert_eq!(plan.context, Some((memory_key(5), 2)));
    assert!(search_engine::plan_hybrid(vec![], 1, None).context.is_none());
}

#[test]
fn responses_tell_only_what_callers_may_know() {
    let id = Uuid::nil().as_u128();
    let cases: Vec<(AppError, u16, &str)> = vec![
        (AppError::NotFound(id), 404, "memory not found: 00000000-0000-0000-0000-000000000000"),
        (AppError::Validation("bad".to_string()), 422, "validation error: bad"),
        (AppError::Conflict("twice".to_string()), 409, "conflict: twice"),
        (AppError::Unauthorized, 401, "unauthorized"),
        (AppError::Embedding("x".to_string()), 500, "embedding error: x"),
        (
            AppError::from(StorageError::InvalidArgument(Disabled::Graph)),
            500,
            "storage error: ",
        ),
        (AppError::Serialization("y".to_string()), 500, "serialization error: y"),
        (AppError::Internal("z".to_string()), 500, "internal error: z"),
    ];
    for (error, status, message) in cases {
        assert_eq!(error.status(), status);
        assert!(error.message().starts_with(message), "{}", error.message());
        let detail = error.response().detail;
        if status == 500 {
            assert_eq!(detail, "internal server error");
        } else {
            assert_eq!(detail, error.message());
        }
    }
}

#[test]
fn new_memories_get_random_ids() {
    let one = memory_manager::create_new("a".to_string(), CreateOpts::default()).stored;
    let two = memory_manager::create_new("a".to_string(), CreateOpts::default()).stored;
    assert_ne!(one.id, two.id);
    assert_eq!(Uuid::from_u128(one.id).get_version_num(), 4);
    assert!(one.metadata.created_at > 1_704_067_200_000);
}

#[test]
fn soft_delete_puts_away() {
    assert!(matches!(memory_manager::soft_delete(3, None, 5), Err(AppError::NotFound(3))));
    let m = make_stored(MemoryType::ShortTerm, 0.5, vec![], 1000);
    let away = memory_manager::soft_delete(3, Some(m), 5).unwrap();
    assert!(away.archived);
    assert_eq!(away.metadata.updated_at, 5);
    assert!(memory_manager::soft_delete(3, Some(away), 6).is_ok());
    assert_eq!(memory_manager::archived_tag(), "__archived__");
}

#[test]
fn changed_content_is_connected_anew() {
    let task = memory_manager::discovery_of(4, vec![1, 2]);
    assert_eq!((task.memory_id, task.top_k), (4, 5));
    assert_eq!(f32::from_bits(task.threshold), 0.7);
    assert_eq!(task.embedding, vec![1, 2]);
}

#[test]
fn discovery_leaves_out_memories_put_away() {
    let rules = LifecycleManager::new(false);
    let mut m = make_stored(MemoryType::LongTerm, 0.5, vec![], 0);
    assert!(rules.discovers(&m));
    memory_manager::archive(&mut m, 1);
    assert!(!rules.discovers(&m));
}

#[test]
fn repeated_contents_are_consolidated() {
    let rules = LifecycleManager::new(false);
    let memory = |content: &str| {
        let mut m = make_stored(MemoryType::LongTerm, 0.5, vec![], 0);
        m.content = content.to_string();
        m
    };
    let mut all = vec![memory("a"), memory("b"), memory("a"), memory("a"), memory("b")];
    memory_manager::archive(&mut all[1], 1);
    assert_eq!(rules.consolidate_similar(&all), vec![2, 3]);
    memory_manager::archive(&mut all[2], 2);
    memory_manager::archive(&mut all[3], 2);
    assert!(rules.consolidate_similar(&all).is_empty());
    assert!(rules.consolidate_similar(&vec![]).is_empty());
}
