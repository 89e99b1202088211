//! Creating, reading, changing, putting away and listing memories.
use crate::engine::storage::index;
use crate::engine::text;
use crate::engine::util::float;
use crate::error::AppError;
use crate::services::connection_manager::DiscoveryTask;
use crate::services::types;
use crate::services::types::{
    Connection, DateTime, Memory, MemoryFilters, MemoryType, RelationshipType, StoredMemory,
    StoredMetadata,
};
use vstd::prelude::*;
use vstd::string::StringExecFns;

verus! {

/// The arousal from which on a memory is a flashbulb memory: 0.8.
pub const FLASHBULB_AROUSAL_THRESHOLD: u32 = 0x3F4CCCCD;

/// The importance that a flashbulb memory has at least: 0.9.
pub const FLASHBULB_IMPORTANCE: u32 = 0x3F666666;

/// The milliseconds for which a flashbulb memory is protected: 30 days.
pub const FLASHBULB_PROTECTION_MS: u64 = 2592000000;

/// The seconds that a short-term memory lives if nothing else is wanted.
pub const DEFAULT_TTL: u64 = 3600;

/// The score from which on two memories are connected after a change: 0.7.
pub const DISCOVERY_THRESHOLD: u32 = 0x3F333333;

/// The connections that are made after a change at most.
pub const DISCOVERY_TOP_K: usize = 5;

/// What a recall adds to the health of a memory: 10.
pub const RECALL_GAIN: u32 = 0x41200000;

/// What is wanted of a new memory.
pub struct CreateOpts {
    pub memory_type: MemoryType,
    pub tags: Vec<String>,
    pub importance: u32,
    pub emotional_valence: u32,
    pub arousal: u32,
    pub health: Option<u32>,
    pub ttl: Option<u64>,
    pub source: Option<String>,
}

impl Default for CreateOpts {
    fn default() -> (r: Self)
        ensures
            r.memory_type == MemoryType::ShortTerm,
            r.tags@.len() == 0,
            r.importance == float::HALF,
            r.emotional_valence == float::ZERO,
            r.arousal == float::ZERO,
            r.health is None,
            r.ttl == Some(DEFAULT_TTL),
            r.source is None,
    {
        CreateOpts {
            memory_type: MemoryType::ShortTerm,
            tags: Vec::new(),
            importance: float::HALF,
            emotional_valence: float::ZERO,
            arousal: float::ZERO,
            health: None,
            ttl: Some(DEFAULT_TTL),
            source: None,
        }
    }
}

/// What is to be changed of a memory.
pub struct UpdatePatch {
    pub content: Option<String>,
    pub tags: Option<Vec<String>>,
    pub importance: Option<u32>,
    pub emotional_valence: Option<u32>,
    pub arousal: Option<u32>,
    pub health: Option<u32>,
    pub source: Option<String>,
}

/// What a memory's tags are called in the index, beside those that the user gave.
pub open spec fn type_tag(memory_type: MemoryType) -> Seq<char> {
    "__type:"@ + memory_type.name()
}

/// Whether a memory with such an arousal is a flashbulb memory.
pub open spec fn is_flashbulb(arousal: u32) -> bool {
    let a = float::clamped(arousal, float::ZERO, float::ONE);
    !float::is_nan(a) && !float::less(a, FLASHBULB_AROUSAL_THRESHOLD)
}

impl CreateOpts {
    /// The type of the new memory: a flashbulb memory is long-term.
    pub open spec fn type_made(&self) -> MemoryType {
        if is_flashbulb(self.arousal) {
            MemoryType::LongTerm
        } else {
            self.memory_type
        }
    }

    /// The importance of the new memory.
    pub open spec fn importance_made(&self) -> u32 {
        let i = float::clamped(self.importance, float::ZERO, float::ONE);
        if is_flashbulb(self.arousal) {
            float::larger(i, FLASHBULB_IMPORTANCE)
        } else {
            i
        }
    }

    /// The seconds that the new memory lives.
    pub open spec fn ttl_made(&self) -> Option<u64> {
        match self.type_made() {
            MemoryType::ShortTerm => match self.ttl {
                Some(t) => Some(t),
                None => Some(DEFAULT_TTL),
            },
            MemoryType::LongTerm => None,
        }
    }

    /// The new memory.
    pub open spec fn made(&self, id: u128, now: u64, content: Seq<char>) -> types::StoredView {
        types::StoredView {
            id,
            content,
            memory_type: self.type_made(),
            metadata: types::MetadataView {
                created_at: now,
                updated_at: now,
                accessed_at: now,
                access_count: 0,
                source: index::text_view(self.source),
                tags: text::texts(self.tags@),
                importance: self.importance_made(),
                emotional_valence: float::clamped(
                    self.emotional_valence,
                    float::MINUS_ONE,
                    float::ONE,
                ),
                arousal: float::clamped(self.arousal, float::ZERO, float::ONE),
                health: float::clamped(
                    match self.health {
                        Some(h) => h,
                        None => float::HUNDRED,
                    },
                    float::ZERO,
                    float::HUNDRED,
                ),
                last_recalled_at: None,
                flashbulb_until: if is_flashbulb(self.arousal) {
                    Some((now + FLASHBULB_PROTECTION_MS) as u64)
                } else {
                    None
                },
                ttl: self.ttl_made(),
                last_decay_at: None,
                last_health_check_at: None,
            },
            archived: false,
        }
    }

    /// The tags under which the new memory is indexed.
    pub open spec fn tags_made(&self) -> Seq<Seq<char>> {
        let tags = text::texts(self.tags@).push(type_tag(self.type_made()));
        if is_flashbulb(self.arousal) {
            tags.push("__flashbulb__"@)
        } else {
            tags
        }
    }
}

/// The tag of a type.
pub fn tag_of_type(memory_type: MemoryType) -> (r: String)
    ensures
        r@ == type_tag(memory_type),
{
    let mut out = String::new();
    out.append("__type:");
    out.append(memory_type.as_str());
    assert(out@ =~= type_tag(memory_type));
    out
}

/// A new memory and the tags under which it is indexed.
pub struct NewMemory {
    pub stored: StoredMemory,
    pub index_tags: Vec<String>,
}

/// Makes a new memory. High arousal makes it long-term, important and protected for
/// some time.
pub fn create(id: u128, now: u64, content: String, opts: CreateOpts) -> (r: NewMemory)
    requires
        is_flashbulb(opts.arousal) ==> now + FLASHBULB_PROTECTION_MS <= u64::MAX,
    ensures
        r.stored@ == opts.made(id, now, content@),
        text::texts(r.index_tags@) == opts.tags_made(),
        r.stored.id == id,
        r.stored.content@ == content@,
        !r.stored.archived,
        r.stored.metadata.tags@ == opts.tags@,
        r.stored.metadata.source == opts.source,
        r.stored.metadata.created_at == now,
        r.stored.metadata.updated_at == now,
        r.stored.metadata.accessed_at == now,
        r.stored.metadata.access_count == 0,
        float::within(opts.importance, float::ZERO, float::ONE) && r.stored.memory_type
            == opts.memory_type && r.stored.metadata.flashbulb_until is None
            ==> r.stored.metadata.importance == opts.importance,
        opts.health matches Some(h) ==> float::within(h, float::ZERO, float::HUNDRED)
            ==> r.stored.metadata.health == h,
        r.stored.memory_type == MemoryType::ShortTerm && opts.ttl is Some ==> r.stored.metadata.ttl
            == opts.ttl,
{
    let arousal: u32 = float::clamp(opts.arousal, float::ZERO, float::ONE);
    let emotional_valence: u32 = float::clamp(
        opts.emotional_valence,
        float::MINUS_ONE,
        float::ONE,
    );
    let flashbulb = float::at_least(arousal, FLASHBULB_AROUSAL_THRESHOLD);
    let memory_type = if flashbulb {
        MemoryType::LongTerm
    } else {
        opts.memory_type
    };
    let clamped: u32 = float::clamp(opts.importance, float::ZERO, float::ONE);
    let importance: u32 = if flashbulb {
        float::max(clamped, FLASHBULB_IMPORTANCE)
    } else {
        clamped
    };
    let wanted: u32 = match opts.health {
        Some(h) => h,
        None => float::HUNDRED,
    };
    let mut index_tags = index::copy_texts(&opts.tags);
    let ghost given = text::texts(opts.tags@);
    index_tags.push(tag_of_type(memory_type));
    assert(text::texts(index_tags@) =~= given.push(type_tag(memory_type)));
    if flashbulb {
        index_tags.push("__flashbulb__".to_owned());
        assert(text::texts(index_tags@) =~= given.push(type_tag(memory_type)).push(
            "__flashbulb__"@,
        ));
    }
    let stored = StoredMemory {
        id,
        content,
        memory_type,
        metadata: StoredMetadata {
            created_at: now,
            updated_at: now,
            accessed_at: now,
            access_count: 0,
            source: opts.source,
            tags: opts.tags,
            importance,
            emotional_valence,
            arousal,
            health: float::clamp(wanted, float::ZERO, float::HUNDRED),
            last_recalled_at: None,
            flashbulb_until: if flashbulb {
                Some(now + FLASHBULB_PROTECTION_MS)
            } else {
                None
            },
            ttl: match memory_type {
                MemoryType::ShortTerm => match opts.ttl {
                    Some(t) => Some(t),
                    None => Some(DEFAULT_TTL),
                },
                MemoryType::LongTerm => None,
            },
            last_decay_at: None,
            last_health_check_at: None,
        },
        archived: false,
    };
    NewMemory { stored, index_tags }
}

/// Whether a memory was loaded that is not put away.
pub open spec fn is_there(loaded: Option<StoredMemory>) -> bool {
    loaded is Some && !loaded->Some_0.archived
}

/// The memory that was loaded, unless there is none or it is put away.
pub fn found(id: u128, loaded: Option<StoredMemory>) -> (r: Result<StoredMemory, AppError>)
    ensures
        r == (if is_there(loaded) {
            Ok::<StoredMemory, AppError>(loaded->Some_0)
        } else {
            Err(AppError::NotFound(id))
        }),
        r is Ok <==> loaded is Some && !loaded->Some_0.archived,
        r matches Ok(stored) ==> loaded == Some(stored),
{
    match loaded {
        Some(stored) => if stored.archived {
            Err(AppError::NotFound(id))
        } else {
            Ok(stored)
        },
        None => Err(AppError::NotFound(id)),
    }
}

impl types::StoredView {
    /// The memory after it was recalled; `raised` is its health and 10.
    pub open spec fn recalled(self, now: u64, raised: u32) -> types::StoredView {
        types::StoredView {
            metadata: types::MetadataView {
                accessed_at: now,
                access_count: (self.metadata.access_count + 1) as u32,
                last_recalled_at: Some(now),
                health: float::smaller(raised, float::HUNDRED),
                ..self.metadata
            },
            ..self
        }
    }

    /// The memory after it was put away.
    pub open spec fn put_away(self, now: u64) -> types::StoredView {
        types::StoredView {
            archived: true,
            metadata: types::MetadataView { updated_at: now, ..self.metadata },
            ..self
        }
    }

    /// The memory after a change.
    pub open spec fn patched(self, patch: UpdatePatch, now: u64) -> types::StoredView {
        let m = self.metadata;
        types::StoredView {
            content: match patch.content {
                Some(c) => c@,
                None => self.content,
            },
            metadata: types::MetadataView {
                tags: match patch.tags {
                    Some(t) => text::texts(t@),
                    None => m.tags,
                },
                importance: match patch.importance {
                    Some(i) => float::clamped(i, float::ZERO, float::ONE),
                    None => m.importance,
                },
                emotional_valence: match patch.emotional_valence {
                    Some(v) => float::clamped(v, float::MINUS_ONE, float::ONE),
                    None => m.emotional_valence,
                },
                arousal: match patch.arousal {
                    Some(a) => float::clamped(a, float::ZERO, float::ONE),
                    None => m.arousal,
                },
                health: match patch.health {
                    Some(h) => float::clamped(h, float::ZERO, float::HUNDRED),
                    None => m.health,
                },
                source: match patch.source {
                    Some(s) => Some(s@),
                    None => m.source,
                },
                updated_at: now,
                ..m
            },
            ..self
        }
    }
}

/// Recalls a memory. `raised_health` is the sum of its health and
/// `RECALL_GAIN`.
pub fn recall(stored: &mut StoredMemory, now: u64, raised_health: u32)
    requires
        old(stored).metadata.access_count < u32::MAX,
    ensures
        final(stored)@ == old(stored)@.recalled(now, raised_health),
        final(stored).metadata.access_count == old(stored).metadata.access_count + 1,
        final(stored).metadata.accessed_at == now,
        final(stored).metadata.last_recalled_at == Some(now),
        final(stored).content == old(stored).content,
        final(stored).id == old(stored).id,
{
    stored.metadata.accessed_at = now;
    stored.metadata.access_count = stored.metadata.access_count + 1;
    stored.metadata.last_recalled_at = Some(now);
    stored.metadata.health = float::min(raised_health, float::HUNDRED);
}

/// Recalls a memory that was loaded. `raised_health` is the sum of its health and
/// `RECALL_GAIN`. A memory that is not there or is put away is not found.
pub fn get(id: u128, loaded: Option<StoredMemory>, now: u64, raised_health: u32) -> (r: Result<
    StoredMemory,
    AppError,
>)
    requires
        is_there(loaded) ==> loaded->Some_0.metadata.access_count < u32::MAX,
    ensures
        if is_there(loaded) {
            r matches Ok(stored) && stored@ == loaded->Some_0@.recalled(now, raised_health)
        } else {
            r == Err::<StoredMemory, AppError>(AppError::NotFound(id))
        },
        r is Ok <==> loaded is Some && !loaded->Some_0.archived,
        r matches Ok(stored) ==> {
            let before = loaded->Some_0;
            &&& stored.id == before.id
            &&& stored.content@ == before.content@
            &&& stored.metadata.access_count == before.metadata.access_count + 1
            &&& stored.metadata.accessed_at == now
            &&& stored.metadata.last_recalled_at == Some(now)
        },
{
    match found(id, loaded) {
        Ok(mut stored) => {
            recall(&mut stored, now, raised_health);
            Ok(stored)
        },
        Err(e) => Err(e),
    }
}

/// Puts a memory away.
pub fn archive(stored: &mut StoredMemory, now: u64)
    ensures
        final(stored)@ == old(stored)@.put_away(now),
        final(stored).archived,
        final(stored).metadata.updated_at == now,
        final(stored).id == old(stored).id,
        final(stored).content == old(stored).content,
{
    stored.archived = true;
    stored.metadata.updated_at = now;
}

/// Makes a memory with a new id, at the present time.
pub fn create_new(content: String, opts: CreateOpts) -> (r: NewMemory)
    ensures
        exists|id: u128, now: u64| #[trigger] creates(id, now, content@, opts, r),
        types::is_random_id(r.stored.id),
        r.stored.content@ == content@,
        !r.stored.archived,
        r.stored.metadata.tags@ == opts.tags@,
        r.stored.metadata.source == opts.source,
        r.stored.metadata.created_at <= types::LAST_MOMENT,
        r.stored.metadata.updated_at == r.stored.metadata.created_at,
{
    let id: u128 = types::random_id();
    let now: u64 = types::now_ms();
    let ghost text = content@;
    let new = create(id, now, content, opts);
    assert(creates(id, now, text, opts, new));
    new
}

/// Whether making a memory with a random id at a moment of the calendar comes to `r`.
pub open spec fn creates(
    id: u128,
    now: u64,
    content: Seq<char>,
    opts: CreateOpts,
    r: NewMemory,
) -> bool {
    &&& types::is_random_id(id)
    &&& now <= types::LAST_MOMENT
    &&& r.stored@ == opts.made(id, now, content)
    &&& text::texts(r.index_tags@) == opts.tags_made()
}

/// Puts a memory away that was loaded; one that was put away already is put away
/// again.
pub fn soft_delete(id: u128, loaded: Option<StoredMemory>, now: u64) -> (r: Result<
    StoredMemory,
    AppError,
>)
    ensures
        match loaded {
            Some(before) => r matches Ok(stored) && stored@ == before@.put_away(now),
            None => r == Err::<StoredMemory, AppError>(AppError::NotFound(id)),
        },
        r is Ok <==> loaded is Some,
        r matches Ok(stored) ==> stored.archived && stored.id == loaded->Some_0.id
            && stored.content@ == loaded->Some_0.content@ && stored.metadata.updated_at == now,
{
    match loaded {
        Some(mut stored) => {
            archive(&mut stored, now);
            Ok(stored)
        },
        None => Err(AppError::NotFound(id)),
    }
}

/// The tag under which memories that were put away are indexed.
pub fn archived_tag() -> (r: String)
    ensures
        r@ == "__archived__"@,
{
    "__archived__".to_owned()
}

/// The request to look for connections of a memory whose content has changed.
pub fn discovery_of(id: u128, embedding: Vec<u32>) -> (r: DiscoveryTask)
    ensures
        r == (DiscoveryTask {
            memory_id: id,
            embedding,
            threshold: DISCOVERY_THRESHOLD,
            top_k: DISCOVERY_TOP_K,
        }),
        r.memory_id == id,
        r.embedding == embedding,
        r.threshold == 0x3F333333,
        r.top_k == 5,
{
    DiscoveryTask {
        memory_id: id,
        embedding,
        threshold: DISCOVERY_THRESHOLD,
        top_k: DISCOVERY_TOP_K,
    }
}

/// What follows a change of a memory.
pub struct UpdateEffects {
    /// Whether the content is to be embedded anew, its edges removed and new
    /// connections looked for.
    pub content_changed: bool,
    /// The tags that replace those in the index.
    pub index_tags: Option<Vec<String>>,
}

impl UpdateEffects {
    /// Whether this is what is left to do after a memory of some type was changed.
    pub open spec fn follow(self, patch: UpdatePatch, memory_type: MemoryType) -> bool {
        &&& self.content_changed == patch.content is Some
        &&& match self.index_tags {
            Some(tags) => patch.tags is Some && text::texts(tags@) == text::texts(
                patch.tags->Some_0@,
            ).push(type_tag(memory_type)),
            None => patch.tags is None,
        }
    }
}

/// Changes a memory that was loaded. A memory that is not there or is put away is not
/// found.
pub fn update(id: u128, loaded: Option<StoredMemory>, patch: UpdatePatch, now: u64) -> (r: Result<
    (StoredMemory, UpdateEffects),
    AppError,
>)
    ensures
        if is_there(loaded) {
            &&& r is Ok
            &&& r->Ok_0.0@ == loaded->Some_0@.patched(patch, now)
            &&& r->Ok_0.1.follow(patch, loaded->Some_0.memory_type)
        } else {
            r == Err::<(StoredMemory, UpdateEffects), AppError>(AppError::NotFound(id))
        },
        r is Ok <==> loaded is Some && !loaded->Some_0.archived,
        r is Ok ==> {
            let stored = r->Ok_0.0;
            &&& stored.id == loaded->Some_0.id
            &&& stored.metadata.updated_at == now
            &&& patch.content matches Some(c) ==> stored.content@ == c@ && r->Ok_0.1.content_changed
            &&& patch.content is None ==> stored.content@ == loaded->Some_0.content@
                && !r->Ok_0.1.content_changed
            &&& patch.tags matches Some(t) ==> text::texts(stored.metadata.tags@) == text::texts(t@)
                && r->Ok_0.1.index_tags is Some
        },
{
    match found(id, loaded) {
        Ok(mut stored) => {
            let effects = apply_patch(&mut stored, patch, now);
            Ok((stored, effects))
        },
        Err(e) => Err(e),
    }
}

/// Changes a memory.
pub fn apply_patch(stored: &mut StoredMemory, patch: UpdatePatch, now: u64) -> (r: UpdateEffects)
    ensures
        final(stored)@ == old(stored)@.patched(patch, now),
        r.follow(patch, old(stored).memory_type),
{
    let content_changed = patch.content.is_some();
    let mut index_tags: Option<Vec<String>> = None;
    if let Some(c) = patch.content {
        stored.content = c;
    }
    if let Some(t) = patch.tags {
        let mut tags = index::copy_texts(&t);
        tags.push(tag_of_type(stored.memory_type));
        assert(text::texts(tags@) =~= text::texts(t@).push(type_tag(stored.memory_type)));
        index_tags = Some(tags);
        stored.metadata.tags = t;
    }
    if let Some(i) = patch.importance {
        stored.metadata.importance = float::clamp(i, float::ZERO, float::ONE);
    }
    if let Some(v) = patch.emotional_valence {
        stored.metadata.emotional_valence = float::clamp(v, float::MINUS_ONE, float::ONE);
    }
    if let Some(a) = patch.arousal {
        stored.metadata.arousal = float::clamp(a, float::ZERO, float::ONE);
    }
    if let Some(h) = patch.health {
        stored.metadata.health = float::clamp(h, float::ZERO, float::HUNDRED);
    }
    if let Some(s) = patch.source {
        stored.metadata.source = Some(s);
    }
    stored.metadata.updated_at = now;
    UpdateEffects { content_changed, index_tags }
}

/// Whether a memory is one of those that are wanted.
pub open spec fn matching(stored: types::StoredView, filters: MemoryFilters) -> bool {
    let m = stored.metadata;
    &&& filters.memory_type matches Some(t) ==> stored.memory_type == t
    &&& filters.min_importance matches Some(low) ==> !float::less(m.importance, low)
    &&& filters.max_importance matches Some(high) ==> !float::less(high, m.importance)
    &&& filters.created_after matches Some(after) ==> m.created_at >= after
    &&& filters.created_before matches Some(before) ==> m.created_at <= before
    &&& forall|i: int|
        0 <= i < filters.tags@.len() ==> m.tags.contains((#[trigger] filters.tags@[i])@)
}

/// Whether a text is among some texts.
fn has_text(texts: &Vec<String>, wanted: &String) -> (r: bool)
    ensures
        r == text::texts(texts@).contains(wanted@),
{
    let ghost all = text::texts(texts@);
    let mut i: usize = 0;
    while i < texts.len()
        invariant
            i <= texts@.len(),
            all == text::texts(texts@),
            forall|j: int| 0 <= j < i ==> all[j] != wanted@,
        decreases texts@.len() - i,
    {
        if texts[i] == *wanted {
            assert(all[i as int] == wanted@);
            return true;
        }
        i = i + 1;
    }
    false
}

/// Whether a memory is one of those that are wanted.
pub fn matches_filters(stored: &StoredMemory, filters: &MemoryFilters) -> (r: bool)
    ensures
        r == matching(stored@, *filters),
{
    if let Some(t) = filters.memory_type {
        if stored.memory_type != t {
            return false;
        }
    }
    if let Some(low) = filters.min_importance {
        if float::lt(stored.metadata.importance, low) {
            return false;
        }
    }
    if let Some(high) = filters.max_importance {
        if float::lt(high, stored.metadata.importance) {
            return false;
        }
    }
    if let Some(after) = filters.created_after {
        if stored.metadata.created_at < after {
            return false;
        }
    }
    if let Some(before) = filters.created_before {
        if stored.metadata.created_at > before {
            return false;
        }
    }
    let mut i: usize = 0;
    while i < filters.tags.len()
        invariant
            i <= filters.tags@.len(),
            forall|j: int|
                0 <= j < i ==> stored@.metadata.tags.contains((#[trigger] filters.tags@[j])@),
        decreases filters.tags@.len() - i,
    {
        if !has_text(&stored.metadata.tags, &filters.tags[i]) {
            proof {
                assert(!stored@.metadata.tags.contains(filters.tags@[i as int]@));
            }
            return false;
        }
        i = i + 1;
    }
    true
}

/// Whether a memory is shown to a caller who wants some.
pub open spec fn shown(stored: types::StoredView, filters: MemoryFilters) -> bool {
    !stored.archived && matching(stored, filters)
}

/// Those of some memories that are shown.
pub open spec fn all_shown(loaded: Seq<types::StoredView>, filters: MemoryFilters) -> Seq<
    types::StoredView,
>
    decreases loaded.len(),
{
    if loaded.len() == 0 {
        Seq::empty()
    } else if shown(loaded.last(), filters) {
        all_shown(loaded.drop_last(), filters).push(loaded.last())
    } else {
        all_shown(loaded.drop_last(), filters)
    }
}

/// A page of a list of memories, which is filled as the memories are loaded.
pub struct ListPage {
    limit: usize,
    offset: usize,
    now: i64,
    total: usize,
    memories: Vec<Memory>,
    offered: Ghost<Seq<types::StoredView>>,
    wanted: Ghost<MemoryFilters>,
}

/// Whether some memories are what callers get of stored ones.
pub open spec fn are_of(memories: Seq<Memory>, stored: Seq<types::StoredView>, now: i64) -> bool {
    &&& memories.len() == stored.len()
    &&& forall|i: int|
        0 <= i < memories.len() ==> (#[trigger] memories[i]).is_of(stored[i], Seq::empty(), now)
}

/// The part of a list from an offset on, up to a limit.
pub open spec fn page_of(all: Seq<types::StoredView>, offset: int, limit: int) -> Seq<
    types::StoredView,
> {
    let start = if offset < all.len() {
        offset
    } else {
        all.len() as int
    };
    let end = if start + limit < all.len() {
        start + limit
    } else {
        all.len() as int
    };
    all.subrange(start, end)
}

impl ListPage {
    /// The memories that were offered.
    pub closed spec fn offered(&self) -> Seq<types::StoredView> {
        self.offered@
    }

    /// Which memories are wanted.
    pub closed spec fn wanted(&self) -> MemoryFilters {
        self.wanted@
    }

    /// The offset and the limit of the page, and the present.
    pub closed spec fn bounds(&self) -> (usize, usize, i64) {
        (self.offset, self.limit, self.now)
    }

    /// The page holds what it should of the memories that were offered.
    pub closed spec fn inv(&self) -> bool {
        let all = all_shown(self.offered@, self.wanted@);
        &&& self.total == all.len()
        &&& are_of(
            self.memories@,
            page_of(all, self.offset as int, self.limit as int),
            self.now,
        )
    }

    /// An empty page.
    pub fn new(limit: usize, offset: usize, now: i64, filters: &MemoryFilters) -> (r: Self)
        ensures
            r.inv(),
            r.offered() == Seq::<types::StoredView>::empty(),
            r.wanted() == *filters,
            r.bounds() == (offset, limit, now),
    {
        ListPage {
            limit,
            offset,
            now,
            total: 0,
            memories: Vec::new(),
            offered: Ghost(Seq::empty()),
            wanted: Ghost(*filters),
        }
    }

    /// Offers a memory that was loaded.
    pub fn offer(&mut self, stored: StoredMemory, filters: &MemoryFilters)
        requires
            old(self).inv(),
            old(self).wanted() == *filters,
            old(self).offered().len() < usize::MAX,
        ensures
            final(self).inv(),
            final(self).wanted() == old(self).wanted(),
            final(self).bounds() == old(self).bounds(),
            final(self).offered() == old(self).offered().push(stored@),
    {
        let ghost view = stored@;
        let ghost before = self.offered@;
        let ghost all = all_shown(before, *filters);
        let ghost next = before.push(view);
        proof {
            assert(next.drop_last() =~= before);
            lemma_shown_len(before, *filters);
            self.offered@ = next;
        }
        if stored.archived || !matches_filters(&stored, filters) {
            return;
        }
        let ghost more = all_shown(next, *filters);
        assert(more == all.push(view));
        if self.total >= self.offset && self.memories.len() < self.limit {
            let memory = stored.into_api_at(Vec::new(), self.now);
            proof {
                let old_page = page_of(all, self.offset as int, self.limit as int);
                let new_page = page_of(more, self.offset as int, self.limit as int);
                assert(new_page =~= old_page.push(view));
                assert(memory.connections@ =~= Seq::empty());
            }
            self.memories.push(memory);
        } else {
            assert(page_of(more, self.offset as int, self.limit as int) =~= page_of(
                all,
                self.offset as int,
                self.limit as int,
            ));
        }
        self.total = self.total + 1;
    }

    /// The page, and the number of all memories that are shown.
    pub fn finish(self) -> (r: (Vec<Memory>, usize))
        requires
            self.inv(),
        ensures
            r.1 == all_shown(self.offered(), self.wanted()).len(),
            are_of(
                r.0@,
                page_of(
                    all_shown(self.offered(), self.wanted()),
                    self.bounds().0 as int,
                    self.bounds().1 as int,
                ),
                self.bounds().2,
            ),
    {
        (self.memories, self.total)
    }
}

/// No more memories are shown than there are.
proof fn lemma_shown_len(loaded: Seq<types::StoredView>, filters: MemoryFilters)
    ensures
        all_shown(loaded, filters).len() <= loaded.len(),
    decreases loaded.len(),
{
    if loaded.len() > 0 {
        lemma_shown_len(loaded.drop_last(), filters);
    }
}

/// How many memories at the head of a list were made after a time.
pub open spec fn newer_at_head(all: Seq<types::StoredView>, time: u64) -> int
    decreases all.len(),
{
    if all.len() == 0 || all[0].metadata.created_at <= time {
        0
    } else {
        1 + newer_at_head(all.skip(1), time)
    }
}

/// Memories in the order of their creation, the newest first; memories that were made
/// at the same time stay in their order.
pub open spec fn newest_first(all: Seq<types::StoredView>) -> Seq<types::StoredView>
    decreases all.len(),
{
    if all.len() == 0 {
        all
    } else {
        let rest = newest_first(all.skip(1));
        rest.insert(newer_at_head(rest, all[0].metadata.created_at), all[0])
    }
}

/// Whether no memory was made before one behind it.
pub open spec fn by_creation(all: Seq<types::StoredView>) -> bool {
    forall|i: int, j: int|
        0 <= i < j < all.len() ==> (#[trigger] all[i]).metadata.created_at >= (
        #[trigger] all[j]).metadata.created_at
}

/// Where the memories end that are newer than a time.
proof fn lemma_newer_at_head(all: Seq<types::StoredView>, time: u64, n: int)
    requires
        0 <= n <= all.len(),
        forall|i: int| 0 <= i < n ==> (#[trigger] all[i]).metadata.created_at > time,
        n < all.len() ==> all[n].metadata.created_at <= time,
    ensures
        newer_at_head(all, time) == n,
    decreases all.len(),
{
    if n > 0 {
        let rest = all.skip(1);
        assert forall|i: int| 0 <= i < n - 1 implies (#[trigger] rest[i]).metadata.created_at
            > time by {
            assert(rest[i] == all[i + 1]);
        }
        lemma_newer_at_head(rest, time, n - 1);
    }
}

/// What stands before and behind the place of a new memory.
proof fn lemma_head(all: Seq<types::StoredView>, time: u64)
    ensures
        ({
            let n = newer_at_head(all, time);
            &&& 0 <= n <= all.len()
            &&& forall|i: int| 0 <= i < n ==> (#[trigger] all[i]).metadata.created_at > time
            &&& n < all.len() ==> all[n].metadata.created_at <= time
        }),
    decreases all.len(),
{
    if all.len() > 0 && all[0].metadata.created_at > time {
        let rest = all.skip(1);
        lemma_head(rest, time);
        let n = newer_at_head(all, time);
        assert forall|i: int| 0 <= i < n implies (#[trigger] all[i]).metadata.created_at > time by {
            if i > 0 {
                assert(rest[i - 1] == all[i]);
            }
        }
        if n < all.len() {
            assert(rest[n - 1] == all[n]);
        }
    }
}

/// Sorting by creation sorts, and loses and adds nothing.
proof fn lemma_newest_first(all: Seq<types::StoredView>)
    ensures
        by_creation(newest_first(all)),
        newest_first(all).to_multiset() == all.to_multiset(),
        newest_first(all).len() == all.len(),
    decreases all.len(),
{
    broadcast use vstd::seq_lib::group_to_multiset_ensures;

    if all.len() > 0 {
        let tail = all.skip(1);
        lemma_newest_first(tail);
        let rest = newest_first(tail);
        let n = newer_at_head(rest, all[0].metadata.created_at);
        lemma_head(rest, all[0].metadata.created_at);
        let out = rest.insert(n, all[0]);
        assert forall|i: int, j: int| 0 <= i < j < out.len() implies (
        #[trigger] out[i]).metadata.created_at >= (#[trigger] out[j]).metadata.created_at by {
            if j < n {
                assert(out[i] == rest[i] && out[j] == rest[j]);
            } else if j == n {
                assert(out[i] == rest[i]);
            } else if i < n {
                assert(out[i] == rest[i] && out[j] == rest[j - 1]);
            } else if i == n {
                assert(out[j] == rest[j - 1]);
                if j - 1 > n {
                    assert(rest[n].metadata.created_at >= rest[j - 1].metadata.created_at);
                }
            } else {
                assert(out[i] == rest[i - 1] && out[j] == rest[j - 1]);
            }
        }
        assert(all =~= tail.insert(0, all[0]));
        assert(out.to_multiset() =~= all.to_multiset());
    }
}

/// Those that are shown stay in their order.
proof fn lemma_shown_in_order(all: Seq<types::StoredView>, filters: MemoryFilters)
    requires
        by_creation(all),
    ensures
        by_creation(all_shown(all, filters)),
        forall|i: int|
            0 <= i < all_shown(all, filters).len() ==> all.contains(
                #[trigger] all_shown(all, filters)[i],
            ),
    decreases all.len(),
{
    if all.len() > 0 {
        let init = all.drop_last();
        assert forall|i: int, j: int| 0 <= i < j < init.len() implies (
        #[trigger] init[i]).metadata.created_at >= (#[trigger] init[j]).metadata.created_at by {
            assert(init[i] == all[i] && init[j] == all[j]);
        }
        lemma_shown_in_order(init, filters);
        let before = all_shown(init, filters);
        let after = all_shown(all, filters);
        assert forall|i: int| 0 <= i < before.len() implies all.contains(#[trigger] before[i])
            && before[i].metadata.created_at >= all.last().metadata.created_at by {
            let k = choose|k: int| 0 <= k < init.len() && init[k] == before[i];
            assert(all[k] == before[i]);
            assert(all[all.len() - 1] == all.last());
        }
        assert forall|i: int| 0 <= i < after.len() implies all.contains(#[trigger] after[i]) by {
            if i < before.len() {
                assert(after[i] == before[i]);
            } else {
                assert(all[all.len() - 1] == all.last());
            }
        }
        assert forall|i: int, j: int| 0 <= i < j < after.len() implies (
        #[trigger] after[i]).metadata.created_at >= (#[trigger] after[j]).metadata.created_at by {
            assert(after[i] == before[i]);
            if j < before.len() {
                assert(after[j] == before[j]);
            }
        }
    }
}

/// A page of a list has its memories in the order of their creation, the newest first,
/// and the list is made of all memories.
pub proof fn law_listed_newest_first(
    loaded: Seq<types::StoredView>,
    filters: MemoryFilters,
    offset: int,
    limit: int,
)
    requires
        0 <= offset,
        0 <= limit,
    ensures
        by_creation(page_of(all_shown(newest_first(loaded), filters), offset, limit)),
        newest_first(loaded).to_multiset() == loaded.to_multiset(),
{
    lemma_newest_first(loaded);
    lemma_shown_in_order(newest_first(loaded), filters);
    let all = all_shown(newest_first(loaded), filters);
    let page = page_of(all, offset, limit);
    let start = if offset < all.len() {
        offset
    } else {
        all.len() as int
    };
    assert forall|i: int, j: int| 0 <= i < j < page.len() implies (
    #[trigger] page[i]).metadata.created_at >= (#[trigger] page[j]).metadata.created_at by {
        assert(page[i] == all[start + i] && page[j] == all[start + j]);
    }
}

/// The views of some memories from the last to the first.
spec fn views_back(stored: Seq<StoredMemory>) -> Seq<types::StoredView> {
    Seq::new(stored.len(), |i: int| stored[stored.len() - 1 - i]@)
}

/// Puts memories into the order of their creation, the newest last.
fn sort_by_creation(loaded: Vec<StoredMemory>) -> (r: Vec<StoredMemory>)
    ensures
        views_back(r@) == newest_first(types::stored_views(loaded@)),
{
    let ghost all = types::stored_views(loaded@);
    let mut rest = loaded;
    let mut out: Vec<StoredMemory> = Vec::new();
    assert(views_back(out@) =~= newest_first(all.skip(all.len() as int)));
    while rest.len() > 0
        invariant
            rest@.len() <= all.len(),
            types::stored_views(rest@) == all.take(rest@.len() as int),
            views_back(out@) == newest_first(all.skip(rest@.len() as int)),
        decreases rest@.len(),
    {
        let ghost n = rest@.len() as int;
        let ghost sorted = views_back(out@);
        proof {
            assert(types::stored_views(rest@)[n - 1] == all[n - 1]);
            assert(all.skip(n - 1).skip(1) =~= all.skip(n));
            assert(all.skip(n - 1)[0] == all[n - 1]);
        }
        if let Some(stored) = rest.pop() {
            let ghost view = stored@;
            let time: u64 = stored.metadata.created_at;
            let mut at: usize = out.len();
            while at > 0 && out[at - 1].metadata.created_at > time
                invariant
                    at <= out@.len(),
                    sorted == views_back(out@),
                    forall|i: int|
                        0 <= i < out@.len() - at ==> (#[trigger] sorted[i]).metadata.created_at
                            > time,
                decreases at,
            {
                assert(sorted[out@.len() - at] == out@[at - 1]@);
                at = at - 1;
            }
            proof {
                if at > 0 {
                    assert(sorted[out@.len() - at] == out@[at - 1]@);
                }
                lemma_newer_at_head(sorted, time, out@.len() - at);
            }
            let ghost before = out@;
            out.insert(at, stored);
            proof {
                assert(views_back(out@) =~= sorted.insert(before.len() - at, view));
                assert(types::stored_views(rest@) =~= all.take(n - 1));
            }
        }
    }
    assert(all.skip(0) =~= all);
    out
}

/// Lists the memories that were loaded and are shown, the newest first: a page of
/// them, and the number of all of them.
pub fn list(
    loaded: Vec<StoredMemory>,
    filters: &MemoryFilters,
    limit: usize,
    offset: usize,
    now: i64,
) -> (r: (Vec<Memory>, usize))
    ensures
        ({
            let all = all_shown(newest_first(types::stored_views(loaded@)), *filters);
            &&& r.1 == all.len()
            &&& are_of(r.0@, page_of(all, offset as int, limit as int), now)
        }),
        r.0@.len() <= limit,
        offset + limit <= r.1 ==> r.0@.len() == limit,
        offset <= r.1 <= offset + limit ==> r.0@.len() == r.1 - offset,
{
    let ghost all = newest_first(types::stored_views(loaded@));
    let mut rest = sort_by_creation(loaded);
    let count: usize = rest.len();
    let mut page = ListPage::new(limit, offset, now, filters);
    let mut i: usize = 0;
    assert(views_back(rest@) == all);
    assert(all.take(0) =~= Seq::empty());
    assert(all.skip(0) =~= all);
    while i < count
        invariant
            page.inv(),
            page.wanted() == *filters,
            page.bounds() == (offset, limit, now),
            i <= count == all.len(),
            rest@.len() == count - i,
            page.offered() == all.take(i as int),
            views_back(rest@) == all.skip(i as int),
        decreases count - i,
    {
        let ghost n = i as int;
        let ghost back = views_back(rest@);
        let ghost offered = page.offered();
        assert(back[0] == all[n]);
        if let Some(stored) = rest.pop() {
            assert(stored@ == all[n]);
            page.offer(stored, filters);
            proof {
                assert(page.offered() == offered.push(all[n]));
                assert(offered.push(all[n]) =~= all.take(n + 1));
                assert(views_back(rest@) =~= back.skip(1));
                assert(back.skip(1) =~= all.skip(n + 1));
            }
        }
        i = i + 1;
    }
    assert(page.offered() =~= all);
    page.finish()
}

/// A neighbour of a memory in the graph.
pub struct Neighbor {
    pub key: Vec<u8>,
    pub edge_type: String,
    pub weight: u32,
}

/// The relationship that a text is the name of.
pub open spec fn relationship_named(s: Seq<char>) -> Option<RelationshipType> {
    if types::names_relationship(s) {
        Some(choose|t: RelationshipType| s == #[trigger] t.name())
    } else {
        None
    }
}

/// The relationship that a text is the name of.
pub fn relationship_of(s: &str) -> (r: Option<RelationshipType>)
    ensures
        r == relationship_named(s@),
{
    match RelationshipType::try_from(s) {
        Ok(t) => {
            proof {
                types::law_names_differ();
                assert(s@ == t.name());
            }
            Some(t)
        },
        Err(_) => None,
    }
}

/// The connection to a neighbour that is a memory and whose edge has the name of a
/// relationship.
pub open spec fn connection_to(neighbor: Neighbor, now: DateTime) -> Option<Connection> {
    match (
        types::id_in(text::lossy_text(neighbor.key@)),
        relationship_named(neighbor.edge_type@),
    ) {
        (Some(target_id), Some(relationship_type)) => Some(
            Connection {
                target_id,
                relationship_type,
                strength: neighbor.weight,
                created_at: now,
            },
        ),
        _ => None,
    }
}

/// The connections to some neighbours.
pub open spec fn connections_to(neighbors: Seq<Neighbor>, now: DateTime) -> Seq<Connection>
    decreases neighbors.len(),
{
    if neighbors.len() == 0 {
        Seq::empty()
    } else {
        match connection_to(neighbors.last(), now) {
            Some(c) => connections_to(neighbors.drop_last(), now).push(c),
            None => connections_to(neighbors.drop_last(), now),
        }
    }
}

/// The connections of a memory, by its neighbours in the graph.
pub fn fetch_connections(neighbors: &Vec<Neighbor>, now: DateTime) -> (r: Vec<Connection>)
    ensures
        r@ == connections_to(neighbors@, now),
{
    let mut out: Vec<Connection> = Vec::new();
    let mut i: usize = 0;
    assert(out@ =~= connections_to(neighbors@.take(0), now));
    while i < neighbors.len()
        invariant
            i <= neighbors@.len(),
            out@ == connections_to(neighbors@.take(i as int), now),
        decreases neighbors@.len() - i,
    {
        let neighbor = &neighbors[i];
        proof {
            assert(neighbors@.take(i + 1).drop_last() =~= neighbors@.take(i as int));
            assert(neighbors@.take(i + 1).last() == neighbors@[i as int]);
        }
        let key = text::text_of(neighbor.key.as_slice());
        let id = types::id_in_text(key.as_str());
        let relationship = relationship_of(neighbor.edge_type.as_str());
        if let (Some(target_id), Some(relationship_type)) = (id, relationship) {
            out.push(
                Connection {
                    target_id,
                    relationship_type,
                    strength: neighbor.weight,
                    created_at: now,
                },
            );
        }
        i = i + 1;
    }
    assert(neighbors@.take(i as int) =~= neighbors@);
    out
}

/// The values of a new memory are within their ranges, whatever was wanted, unless
/// they are no numbers.
pub proof fn law_create_in_range(opts: CreateOpts, id: u128, now: u64, content: Seq<char>)
    ensures
        ({
            let m = opts.made(id, now, content).metadata;
            &&& float::within(m.importance, float::ZERO, float::ONE)
            &&& float::within(m.emotional_valence, float::MINUS_ONE, float::ONE)
            &&& float::within(m.arousal, float::ZERO, float::ONE)
            &&& float::within(m.health, float::ZERO, float::HUNDRED)
        }),
{
}

/// A flashbulb memory is long-term, lives for ever, is important and is protected;
/// no other memory is protected.
pub proof fn law_flashbulb(opts: CreateOpts, id: u128, now: u64, content: Seq<char>)
    ensures
        ({
            let made = opts.made(id, now, content);
            &&& is_flashbulb(opts.arousal) ==> made.memory_type == MemoryType::LongTerm
                && made.metadata.ttl is None && !float::less(
                made.metadata.importance,
                FLASHBULB_IMPORTANCE,
            ) && made.metadata.flashbulb_until is Some
            &&& !is_flashbulb(opts.arousal) ==> made.metadata.flashbulb_until is None
            &&& made.memory_type == MemoryType::LongTerm <==> made.metadata.ttl is None
        }),
{
}

/// A change keeps the identifier, the type and the creation of a memory, and changes
/// nothing that it does not speak of but the time of the change.
pub proof fn law_patch_keeps(stored: types::StoredView, patch: UpdatePatch, now: u64)
    ensures
        ({
            let after = stored.patched(patch, now);
            &&& after.id == stored.id
            &&& after.memory_type == stored.memory_type
            &&& after.archived == stored.archived
            &&& after.metadata.created_at == stored.metadata.created_at
            &&& after.metadata.access_count == stored.metadata.access_count
            &&& patch.content is None ==> after.content == stored.content
            &&& patch.tags is None ==> after.metadata.tags == stored.metadata.tags
            &&& patch.importance is None ==> after.metadata.importance
                == stored.metadata.importance
            &&& patch.health is None ==> after.metadata.health == stored.metadata.health
            &&& patch.source is None ==> after.metadata.source == stored.metadata.source
        }),
{
}

/// A new memory is what was asked for: it has the identifier, the content, the tags and
/// the source that were given, it begins now, was never accessed, recalled or aged, and
/// is not put away.
pub proof fn law_new_memory(opts: CreateOpts, id: u128, now: u64, content: Seq<char>)
    ensures
        ({
            let made = opts.made(id, now, content);
            let m = made.metadata;
            &&& made.id == id
            &&& made.content == content
            &&& !made.archived
            &&& m.created_at == now
            &&& m.updated_at == now
            &&& m.accessed_at == now
            &&& m.access_count == 0
            &&& m.last_recalled_at is None
            &&& m.last_decay_at is None
            &&& m.last_health_check_at is None
            &&& m.tags.len() == opts.tags@.len()
            &&& forall|i: int|
                0 <= i < opts.tags@.len() ==> #[trigger] m.tags[i] == opts.tags@[i]@
            &&& opts.source is Some ==> m.source == Some(opts.source->Some_0@)
            &&& opts.source is None ==> m.source is None
        }),
{
}

/// What is wanted of the numbers of a new memory is taken as it is where it is in
/// range, and else brought to the nearer bound. Without a wish its health is full.
pub proof fn law_new_memory_numbers(opts: CreateOpts, id: u128, now: u64, content: Seq<char>)
    ensures
        ({
            let m = opts.made(id, now, content).metadata;
            let valence = opts.emotional_valence;
            &&& opts.health is None ==> m.health == 0x42C80000
            &&& opts.health matches Some(h) ==> {
                &&& h <= 0x42C80000 ==> m.health == h
                &&& 0x42C80000 < h <= 0x7F800000 ==> m.health == 0x42C80000
                &&& 0x80000000 < h <= 0xFF800000 ==> m.health == 0
            }
            &&& opts.arousal <= 0x3F800000 ==> m.arousal == opts.arousal
            &&& 0x3F800000 < opts.arousal <= 0x7F800000 ==> m.arousal == 0x3F800000
            &&& 0x80000000 < opts.arousal <= 0xFF800000 ==> m.arousal == 0
            &&& valence <= 0x3F800000 || 0x80000000 <= valence <= 0xBF800000
                ==> m.emotional_valence == valence
            &&& 0x3F800000 < valence <= 0x7F800000 ==> m.emotional_valence == 0x3F800000
            &&& 0xBF800000 < valence <= 0xFF800000 ==> m.emotional_valence == 0xBF800000
        }),
{
}

/// A memory of ordinary arousal has the type and the importance that were wanted, and is
/// not protected; as a short-term memory it lives for as long as was wanted, or for an
/// hour, and as a long-term memory for ever.
pub proof fn law_ordinary_memory(opts: CreateOpts, id: u128, now: u64, content: Seq<char>)
    requires
        opts.arousal < 0x3F4CCCCD || 0x80000000 <= opts.arousal || opts.arousal > 0x7F800000,
    ensures
        ({
            let made = opts.made(id, now, content);
            let m = made.metadata;
            &&& made.memory_type == opts.memory_type
            &&& m.flashbulb_until is None
            &&& opts.importance <= 0x3F800000 ==> m.importance == opts.importance
            &&& 0x3F800000 < opts.importance <= 0x7F800000 ==> m.importance == 0x3F800000
            &&& 0x80000000 < opts.importance <= 0xFF800000 ==> m.importance == 0
            &&& opts.memory_type == MemoryType::LongTerm ==> m.ttl is None
            &&& opts.memory_type == MemoryType::ShortTerm && opts.ttl is Some ==> m.ttl == opts.ttl
            &&& opts.memory_type == MemoryType::ShortTerm && opts.ttl is None ==> m.ttl == Some(
                3600u64,
            )
        }),
{
}

/// A memory of high arousal is long-term and lives for ever, is protected for thirty
/// days, and keeps a high importance; a lower one is raised.
pub proof fn law_flashbulb_memory(opts: CreateOpts, id: u128, now: u64, content: Seq<char>)
    requires
        0x3F4CCCCD <= opts.arousal <= 0x7F800000,
        now + 2592000000 <= u64::MAX,
    ensures
        ({
            let made = opts.made(id, now, content);
            let m = made.metadata;
            &&& made.memory_type == MemoryType::LongTerm
            &&& m.ttl is None
            &&& m.flashbulb_until matches Some(until) && until == now + 30 * 24 * 3600 * 1000
            &&& 0x3F666666 <= opts.importance <= 0x3F800000 ==> m.importance == opts.importance
            &&& 0x3F800000 < opts.importance <= 0x7F800000 ==> m.importance == 0x3F800000
            &&& opts.importance < 0x3F666666 || 0x80000000 <= opts.importance ==> m.importance
                == 0x3F666666
        }),
{
}

/// A new memory is indexed under the tags that were given, under its type, and, if it is
/// protected, as such.
pub proof fn law_new_memory_is_indexed(opts: CreateOpts, id: u128, now: u64, content: Seq<char>)
    ensures
        ({
            let made = opts.made(id, now, content);
            let n = opts.tags@.len() as int;
            let tags = opts.tags_made();
            &&& forall|i: int| 0 <= i < n ==> #[trigger] tags[i] == opts.tags@[i]@
            &&& tags[n] == "__type:"@ + (if made.memory_type == MemoryType::LongTerm {
                "long_term"@
            } else {
                "short_term"@
            })
            &&& made.metadata.flashbulb_until is None ==> tags.len() == n + 1
            &&& made.metadata.flashbulb_until is Some ==> tags.len() == n + 2 && tags[n + 1]
                == "__flashbulb__"@
        }),
{
}

/// A recall counts as one more access, now, and leaves everything else as it was but the
/// health: that is what it was raised to, and full at most.
pub proof fn law_recalled(stored: types::StoredView, now: u64, raised: u32)
    requires
        stored.metadata.access_count < u32::MAX,
    ensures
        ({
            let after = stored.recalled(now, raised);
            let m = stored.metadata;
            let n = after.metadata;
            &&& n.access_count == m.access_count + 1
            &&& n.accessed_at == now
            &&& n.last_recalled_at == Some(now)
            &&& raised <= 0x42C80000 || 0x80000000 <= raised <= 0xFF800000 ==> n.health == raised
            &&& 0x42C80000 < raised <= 0x7F800000 ==> n.health == 0x42C80000
            &&& after.id == stored.id
            &&& after.content == stored.content
            &&& after.memory_type == stored.memory_type
            &&& after.archived == stored.archived
            &&& n.tags == m.tags && n.source == m.source && n.importance == m.importance
            &&& n.emotional_valence == m.emotional_valence && n.arousal == m.arousal
            &&& n.created_at == m.created_at && n.updated_at == m.updated_at && n.ttl == m.ttl
            &&& n.flashbulb_until == m.flashbulb_until && n.last_decay_at == m.last_decay_at
            &&& n.last_health_check_at == m.last_health_check_at
        }),
{
}

/// Putting a memory away changes nothing of it but that, and the time of its change.
pub proof fn law_put_away(stored: types::StoredView, now: u64)
    ensures
        ({
            let after = stored.put_away(now);
            &&& after.archived
            &&& after.metadata.updated_at == now
            &&& after.id == stored.id
            &&& after.content == stored.content
            &&& after.memory_type == stored.memory_type
            &&& after.metadata == (types::MetadataView {
                updated_at: now,
                ..stored.metadata
            })
        }),
{
}

/// A change makes a memory what it says: each part that it names is that part of the
/// memory afterwards, numbers where they are in range, and the memory was changed now.
pub proof fn law_patch_changes(stored: types::StoredView, patch: UpdatePatch, now: u64)
    ensures
        ({
            let after = stored.patched(patch, now);
            let n = after.metadata;
            &&& n.updated_at == now
            &&& patch.content matches Some(c) ==> after.content == c@
            &&& patch.tags matches Some(t) ==> n.tags.len() == t@.len() && forall|i: int|
                0 <= i < t@.len() ==> #[trigger] n.tags[i] == t@[i]@
            &&& patch.source matches Some(s) ==> n.source == Some(s@)
            &&& patch.importance matches Some(i) ==> {
                &&& i <= 0x3F800000 ==> n.importance == i
                &&& 0x3F800000 < i <= 0x7F800000 ==> n.importance == 0x3F800000
                &&& 0x80000000 < i <= 0xFF800000 ==> n.importance == 0
            }
            &&& patch.arousal matches Some(a) ==> {
                &&& a <= 0x3F800000 ==> n.arousal == a
                &&& 0x3F800000 < a <= 0x7F800000 ==> n.arousal == 0x3F800000
                &&& 0x80000000 < a <= 0xFF800000 ==> n.arousal == 0
            }
            &&& patch.emotional_valence matches Some(v) ==> {
                &&& v <= 0x3F800000 || 0x80000000 <= v <= 0xBF800000 ==> n.emotional_valence == v
                &&& 0x3F800000 < v <= 0x7F800000 ==> n.emotional_valence == 0x3F800000
                &&& 0xBF800000 < v <= 0xFF800000 ==> n.emotional_valence == 0xBF800000
            }
            &&& patch.health matches Some(h) ==> {
                &&& h <= 0x42C80000 ==> n.health == h
                &&& 0x42C80000 < h <= 0x7F800000 ==> n.health == 0x42C80000
                &&& 0x80000000 < h <= 0xFF800000 ==> n.health == 0
            }
        }),
{
}

/// A change leaves the numbers that it does not name, and all that no change can name.
pub proof fn law_patch_keeps_the_rest(stored: types::StoredView, patch: UpdatePatch, now: u64)
    ensures
        ({
            let m = stored.metadata;
            let n = stored.patched(patch, now).metadata;
            &&& patch.emotional_valence is None ==> n.emotional_valence == m.emotional_valence
            &&& patch.arousal is None ==> n.arousal == m.arousal
            &&& n.accessed_at == m.accessed_at
            &&& n.last_recalled_at == m.last_recalled_at
            &&& n.flashbulb_until == m.flashbulb_until
            &&& n.ttl == m.ttl
            &&& n.last_decay_at == m.last_decay_at
            &&& n.last_health_check_at == m.last_health_check_at
        }),
{
}

/// After a change the content is embedded anew if it was named, and the tags in the
/// index are replaced, by those that were named and the type, if tags were named.
pub proof fn law_effects_of_a_change(
    effects: UpdateEffects,
    patch: UpdatePatch,
    memory_type: MemoryType,
)
    requires
        effects.follow(patch, memory_type),
    ensures
        effects.content_changed <==> patch.content is Some,
        effects.index_tags is Some <==> patch.tags is Some,
        patch.tags matches Some(t) ==> {
            let tags = effects.index_tags->Some_0@;
            &&& tags.len() == t@.len() + 1
            &&& forall|i: int| 0 <= i < t@.len() ==> (#[trigger] tags[i])@ == t@[i]@
            &&& tags[t@.len() as int]@ == "__type:"@ + (if memory_type == MemoryType::LongTerm {
                "long_term"@
            } else {
                "short_term"@
            })
        },
{
    if let Some(t) = patch.tags {
        let tags = effects.index_tags->Some_0@;
        let all = text::texts(tags);
        let given = text::texts(t@);
        assert(all == given.push(type_tag(memory_type)));
        assert(all.len() == tags.len());
        assert forall|i: int| 0 <= i < t@.len() implies (#[trigger] tags[i])@ == t@[i]@ by {
            assert(all[i] == tags[i]@);
            assert(given.push(type_tag(memory_type))[i] == given[i]);
        }
        assert(all[t@.len() as int] == tags[t@.len() as int]@);
    }
}

/// A memory is wanted exactly if it has the type, all the tags, the importance and the
/// age that are asked for; without a wish every memory is.
pub proof fn law_wanted(stored: types::StoredView, filters: MemoryFilters)
    ensures
        ({
            let m = stored.metadata;
            let kind = filters.memory_type is None || filters.memory_type->Some_0
                == stored.memory_type;
            let low = filters.min_importance is None || !float::less(
                m.importance,
                filters.min_importance->Some_0,
            );
            let high = filters.max_importance is None || !float::less(
                filters.max_importance->Some_0,
                m.importance,
            );
            let young = filters.created_after is None || filters.created_after->Some_0
                <= m.created_at;
            let old = filters.created_before is None || m.created_at
                <= filters.created_before->Some_0;
            let tagged = forall|i: int|
                0 <= i < filters.tags@.len() ==> m.tags.contains((#[trigger] filters.tags@[i])@);
            matching(stored, filters) <==> kind && low && high && young && old && tagged
        }),
{
}

/// The memories that are shown are all those that are wanted and not put away, in their
/// order.
pub proof fn law_shown(loaded: Seq<types::StoredView>, filters: MemoryFilters)
    ensures
        all_shown(loaded, filters) == loaded.filter(
            |m: types::StoredView| !m.archived && matching(m, filters),
        ),
        forall|i: int|
            0 <= i < all_shown(loaded, filters).len() ==> !(#[trigger] all_shown(
                loaded,
                filters,
            )[i]).archived,
    decreases loaded.len(),
{
    reveal(Seq::filter);
    if loaded.len() > 0 {
        law_shown(loaded.drop_last(), filters);
    }
}

/// A page begins behind as many memories as are to be skipped and has as many as are
/// wanted, as far as there are so many, in the order of the list.
pub proof fn law_page(all: Seq<types::StoredView>, offset: int, limit: int)
    requires
        0 <= offset,
        0 <= limit,
    ensures
        offset + limit <= all.len() ==> page_of(all, offset, limit).len() == limit,
        offset <= all.len() <= offset + limit ==> page_of(all, offset, limit).len() == all.len()
            - offset,
        all.len() <= offset ==> page_of(all, offset, limit).len() == 0,
        forall|i: int|
            0 <= i < page_of(all, offset, limit).len() ==> #[trigger] page_of(all, offset, limit)[i]
                == all[offset + i],
{
}

/// Memories that were made at the same time stay in the order in which they were loaded.
pub proof fn law_listing_is_stable(all: Seq<types::StoredView>, time: u64)
    ensures
        newest_first(all).filter(|m: types::StoredView| m.metadata.created_at == time)
            == all.filter(|m: types::StoredView| m.metadata.created_at == time),
    decreases all.len(),
{
    let at = |m: types::StoredView| m.metadata.created_at == time;
    reveal(Seq::filter);
    if all.len() > 0 {
        let tail = all.skip(1);
        law_listing_is_stable(tail, time);
        let rest = newest_first(tail);
        let n = newer_at_head(rest, all[0].metadata.created_at);
        lemma_head(rest, all[0].metadata.created_at);
        let head = rest.take(n);
        let back = rest.skip(n);
        let one = seq![all[0]];
        assert(newest_first(all) =~= head + one + back);
        assert(rest =~= head + back);
        assert(all =~= one + tail);
        Seq::filter_distributes_over_add(head + one, back, at);
        Seq::filter_distributes_over_add(head, one, at);
        Seq::filter_distributes_over_add(head, back, at);
        Seq::filter_distributes_over_add(one, tail, at);
        if all[0].metadata.created_at == time {
            lemma_filter_none(head, at);
        } else {
            lemma_filter_none(one, at);
        }
        assert(newest_first(all).filter(at) =~= all.filter(at));
    }
}

/// A list of which no element is wanted leaves nothing.
proof fn lemma_filter_none(all: Seq<types::StoredView>, wanted: spec_fn(types::StoredView) -> bool)
    requires
        forall|i: int| 0 <= i < all.len() ==> !wanted(#[trigger] all[i]),
    ensures
        all.filter(wanted) == Seq::<types::StoredView>::empty(),
    decreases all.len(),
{
    reveal(Seq::filter);
    if all.len() > 0 {
        let init = all.drop_last();
        assert forall|i: int| 0 <= i < init.len() implies !wanted(#[trigger] init[i]) by {
            assert(init[i] == all[i]);
        }
        lemma_filter_none(init, wanted);
        assert(!wanted(all[all.len() - 1]));
    }
    assert(all.filter(wanted) =~= Seq::empty());
}

/// The name of a relationship stands for it, and another text for none.
pub proof fn law_relationship_named(t: RelationshipType, s: Seq<char>)
    ensures
        relationship_named(t.name()) == Some(t),
        (forall|u: RelationshipType| s != #[trigger] u.name()) ==> relationship_named(s) is None,
{
    types::law_names_differ();
    assert(types::names_relationship(t.name()));
}

/// The connections of a memory are those to all its neighbours that are memories and
/// whose edge has the name of a relationship, in their order, each to its neighbour with
/// the weight of its edge.
pub proof fn law_connections(neighbors: Seq<Neighbor>, now: DateTime)
    ensures
        connections_to(neighbors, now) == neighbors.filter(
            |n: Neighbor|
                types::id_in(text::lossy_text(n.key@)) is Some && relationship_named(
                    n.edge_type@,
                ) is Some,
        ).map_values(
            |n: Neighbor|
                Connection {
                    target_id: types::id_in(text::lossy_text(n.key@))->Some_0,
                    relationship_type: relationship_named(n.edge_type@)->Some_0,
                    strength: n.weight,
                    created_at: now,
                },
        ),
    decreases neighbors.len(),
{
    reveal(Seq::filter);
    if neighbors.len() > 0 {
        law_connections(neighbors.drop_last(), now);
        assert(connections_to(neighbors, now) =~= neighbors.filter(
            |n: Neighbor|
                types::id_in(text::lossy_text(n.key@)) is Some && relationship_named(
                    n.edge_type@,
                ) is Some,
        ).map_values(
            |n: Neighbor|
                Connection {
                    target_id: types::id_in(text::lossy_text(n.key@))->Some_0,
                    relationship_type: relationship_named(n.edge_type@)->Some_0,
                    strength: n.weight,
                    created_at: now,
                },
        ));
    }
}

/// A page that callers get has the memories of the page, one for one.
pub proof fn law_listed_memories(memories: Seq<Memory>, stored: Seq<types::StoredView>, now: i64)
    requires
        are_of(memories, stored, now),
    ensures
        memories.len() == stored.len(),
        forall|i: int|
            0 <= i < stored.len() ==> {
                &&& (#[trigger] memories[i]).id == stored[i].id
                &&& memories[i].content@ == stored[i].content
                &&& memories[i].is_of(stored[i], Seq::empty(), now)
            },
{
}

/// A memory that is made at the present has a random identifier, the content that was
/// given, and begins at that moment.
pub proof fn law_made_at_present(
    id: u128,
    now: u64,
    content: Seq<char>,
    opts: CreateOpts,
    new: NewMemory,
)
    requires
        creates(id, now, content, opts, new),
    ensures
        types::is_random_id(new.stored.id),
        new.stored.id == id,
        new.stored.content@ == content,
        new.stored.metadata.created_at == now,
        now <= types::LAST_MOMENT,
        !new.stored.archived,
        new.index_tags@.len() >= opts.tags@.len() + 1,
{
    assert(text::texts(new.index_tags@).len() == new.index_tags@.len());
    assert(new.stored@.id == id && new.stored@.content == content);
}

} // verus!
