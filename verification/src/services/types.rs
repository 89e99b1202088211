//! Memories and what is stored of them.
//!
//! Numbers between 0 and 1, and the like, are single-precision numbers; they are
//! held as their bits.
use crate::engine::storage::index;
use crate::engine::text;
use crate::engine::util::float;
use vstd::arithmetic::power;
use vstd::prelude::*;
use vstd::string::StringExecFns;

verus! {

/// How long a memory is meant to last.
#[derive(Clone, Copy, PartialEq, Eq, Structural, Debug)]
pub enum MemoryType {
    ShortTerm,
    LongTerm,
}

impl MemoryType {
    /// The name of the type.
    pub open spec fn name(self) -> Seq<char> {
        match self {
            MemoryType::ShortTerm => "short_term"@,
            MemoryType::LongTerm => "long_term"@,
        }
    }

    /// The name of the type.
    pub fn as_str(&self) -> (r: &'static str)
        ensures
            r@ == self.name(),
    {
        match self {
            MemoryType::ShortTerm => "short_term",
            MemoryType::LongTerm => "long_term",
        }
    }

    /// The name of the type, as a text of its own.
    pub fn to_string(&self) -> (r: String)
        ensures
            r@ == self.name(),
    {
        self.as_str().to_owned()
    }
}

/// The wording for a name that stands for nothing.
pub open spec fn unknown(what: Seq<char>, name: Seq<char>) -> Seq<char> {
    "unknown "@ + what + ": "@ + name
}

/// The wording for a name that stands for nothing.
fn unknown_text(what: &str, name: &str) -> (r: String)
    ensures
        r@ == unknown(what@, name@),
{
    let mut out = String::new();
    out.append("unknown ");
    out.append(what);
    out.append(": ");
    out.append(name);
    assert(out@ =~= unknown(what@, name@));
    out
}

impl<'a> TryFrom<&'a str> for MemoryType {
    type Error = String;

    fn try_from(s: &'a str) -> (r: Result<Self, String>)
        ensures
            match r {
                Ok(t) => s@ == t.name(),
                Err(e) => s@ != "short_term"@ && s@ != "long_term"@ && e@ == unknown(
                    "memory_type"@,
                    s@,
                ),
            },
    {
        if text::same_text(s, "short_term") {
            Ok(MemoryType::ShortTerm)
        } else if text::same_text(s, "long_term") {
            Ok(MemoryType::LongTerm)
        } else {
            Err(unknown_text("memory_type", s))
        }
    }
}

impl<'a> vstd::std_specs::convert::TryFromSpecImpl<&'a str> for MemoryType {
    open spec fn obeys_try_from_spec() -> bool {
        false
    }

    open spec fn try_from_spec(s: &'a str) -> Result<Self, String> {
        arbitrary()
    }
}

/// How one memory relates to another.
#[derive(Clone, Copy, PartialEq, Eq, Structural, Debug)]
pub enum RelationshipType {
    RelatedTo,
    CausedBy,
    PartOf,
    References,
    Contradicts,
    Supports,
    SimilarTo,
    DerivedFrom,
}

impl RelationshipType {
    /// The name of the relationship.
    pub open spec fn name(self) -> Seq<char> {
        match self {
            RelationshipType::RelatedTo => "related_to"@,
            RelationshipType::CausedBy => "caused_by"@,
            RelationshipType::PartOf => "part_of"@,
            RelationshipType::References => "references"@,
            RelationshipType::Contradicts => "contradicts"@,
            RelationshipType::Supports => "supports"@,
            RelationshipType::SimilarTo => "similar_to"@,
            RelationshipType::DerivedFrom => "derived_from"@,
        }
    }

    /// The name of the relationship.
    pub fn as_str(&self) -> (r: &'static str)
        ensures
            r@ == self.name(),
    {
        match self {
            RelationshipType::RelatedTo => "related_to",
            RelationshipType::CausedBy => "caused_by",
            RelationshipType::PartOf => "part_of",
            RelationshipType::References => "references",
            RelationshipType::Contradicts => "contradicts",
            RelationshipType::Supports => "supports",
            RelationshipType::SimilarTo => "similar_to",
            RelationshipType::DerivedFrom => "derived_from",
        }
    }

    /// The name of the relationship, as a text of its own.
    pub fn to_string(&self) -> (r: String)
        ensures
            r@ == self.name(),
    {
        self.as_str().to_owned()
    }
}

/// Whether a text is the name of a relationship.
pub open spec fn names_relationship(s: Seq<char>) -> bool {
    exists|t: RelationshipType| s == #[trigger] t.name()
}

impl<'a> TryFrom<&'a str> for RelationshipType {
    type Error = String;

    fn try_from(s: &'a str) -> (r: Result<Self, String>)
        ensures
            match r {
                Ok(t) => s@ == t.name(),
                Err(e) => !names_relationship(s@) && e@ == unknown("relationship_type"@, s@),
            },
    {
        if text::same_text(s, "related_to") {
            Ok(RelationshipType::RelatedTo)
        } else if text::same_text(s, "caused_by") {
            Ok(RelationshipType::CausedBy)
        } else if text::same_text(s, "part_of") {
            Ok(RelationshipType::PartOf)
        } else if text::same_text(s, "references") {
            Ok(RelationshipType::References)
        } else if text::same_text(s, "contradicts") {
            Ok(RelationshipType::Contradicts)
        } else if text::same_text(s, "supports") {
            Ok(RelationshipType::Supports)
        } else if text::same_text(s, "similar_to") {
            Ok(RelationshipType::SimilarTo)
        } else if text::same_text(s, "derived_from") {
            Ok(RelationshipType::DerivedFrom)
        } else {
            Err(unknown_text("relationship_type", s))
        }
    }
}

impl<'a> vstd::std_specs::convert::TryFromSpecImpl<&'a str> for RelationshipType {
    open spec fn obeys_try_from_spec() -> bool {
        false
    }

    open spec fn try_from_spec(s: &'a str) -> Result<Self, String> {
        arbitrary()
    }
}

/// Different types have different names.
pub proof fn law_names_differ()
    ensures
        MemoryType::ShortTerm.name() != MemoryType::LongTerm.name(),
        forall|a: RelationshipType, b: RelationshipType| #[trigger]
            a.name() == #[trigger] b.name() ==> a == b,
{
    reveal_strlit("short_term");
    reveal_strlit("long_term");
    reveal_strlit("related_to");
    reveal_strlit("caused_by");
    reveal_strlit("part_of");
    reveal_strlit("references");
    reveal_strlit("contradicts");
    reveal_strlit("supports");
    reveal_strlit("similar_to");
    reveal_strlit("derived_from");
    assert(MemoryType::ShortTerm.name()[0] == 's');
    assert(MemoryType::LongTerm.name()[0] == 'l');
    assert forall|a: RelationshipType, b: RelationshipType| #[trigger]
        a.name() == #[trigger] b.name() implies a == b by {
        assert(a.name()[0] == b.name()[0] && a.name()[1] == b.name()[1] && a.name()[2]
            == b.name()[2]);
    }
}

/// How memories are searched.
#[derive(Clone, Copy, PartialEq, Eq, Structural, Debug)]
pub enum SearchType {
    Semantic,
    Keyword,
    Hybrid,
}

/// What is stored of a memory.
pub struct StoredMemory {
    pub id: u128,
    pub content: String,
    pub memory_type: MemoryType,
    pub metadata: StoredMetadata,
    /// Whether the memory is put away; it is never brought back.
    pub archived: bool,
}

/// What is stored about a memory. Times are milliseconds since 1970.
pub struct StoredMetadata {
    pub created_at: u64,
    pub updated_at: u64,
    pub accessed_at: u64,
    pub access_count: u32,
    pub source: Option<String>,
    /// The tags that the user gave.
    pub tags: Vec<String>,
    /// From 0 to 1.
    pub importance: u32,
    /// From -1 to 1.
    pub emotional_valence: u32,
    /// From 0 to 1. High arousal makes a memory last.
    pub arousal: u32,
    /// From 0 to 100. A memory without health is forgotten.
    pub health: u32,
    pub last_recalled_at: Option<u64>,
    /// Until when the memory is protected from ageing.
    pub flashbulb_until: Option<u64>,
    /// Seconds from the creation on; a long-term memory has none.
    pub ttl: Option<u64>,
    /// When the importance last aged.
    pub last_decay_at: Option<u64>,
    /// When the health last aged.
    pub last_health_check_at: Option<u64>,
}

/// What is stored about a memory.
#[verifier::ext_equal]
pub struct MetadataView {
    pub created_at: u64,
    pub updated_at: u64,
    pub accessed_at: u64,
    pub access_count: u32,
    pub source: Option<Seq<char>>,
    pub tags: Seq<Seq<char>>,
    pub importance: u32,
    pub emotional_valence: u32,
    pub arousal: u32,
    pub health: u32,
    pub last_recalled_at: Option<u64>,
    pub flashbulb_until: Option<u64>,
    pub ttl: Option<u64>,
    pub last_decay_at: Option<u64>,
    pub last_health_check_at: Option<u64>,
}

/// What is stored of a memory.
#[verifier::ext_equal]
pub struct StoredView {
    pub id: u128,
    pub content: Seq<char>,
    pub memory_type: MemoryType,
    pub metadata: MetadataView,
    pub archived: bool,
}

/// The views of some stored memories.
pub open spec fn stored_views(stored: Seq<StoredMemory>) -> Seq<StoredView> {
    Seq::new(stored.len(), |i: int| stored[i]@)
}

impl View for StoredMetadata {
    type V = MetadataView;

    open spec fn view(&self) -> MetadataView {
        MetadataView {
            created_at: self.created_at,
            updated_at: self.updated_at,
            accessed_at: self.accessed_at,
            access_count: self.access_count,
            source: index::text_view(self.source),
            tags: text::texts(self.tags@),
            importance: self.importance,
            emotional_valence: self.emotional_valence,
            arousal: self.arousal,
            health: self.health,
            last_recalled_at: self.last_recalled_at,
            flashbulb_until: self.flashbulb_until,
            ttl: self.ttl,
            last_decay_at: self.last_decay_at,
            last_health_check_at: self.last_health_check_at,
        }
    }
}

impl View for StoredMemory {
    type V = StoredView;

    open spec fn view(&self) -> StoredView {
        StoredView {
            id: self.id,
            content: self.content@,
            memory_type: self.memory_type,
            metadata: self.metadata@,
            archived: self.archived,
        }
    }
}

/// A moment, in milliseconds since 1970.
#[derive(Clone, Copy, PartialEq, Eq, Structural, Debug)]
pub struct DateTime {
    pub millis: i64,
}

impl DateTime {
    /// The milliseconds since 1970.
    pub fn timestamp_millis(&self) -> (r: i64)
        ensures
            r == self.millis,
    {
        self.millis
    }
}

/// The first moment that a calendar date stands for.
pub const FIRST_MOMENT: i64 = -8334601228800000;

/// The last moment that a calendar date stands for.
pub const LAST_MOMENT: i64 = 8210266876799999;

/// Calls `chrono::DateTime::from_timestamp_millis`, and `timestamp_millis` of what
/// it gives: a moment within the range of calendar dates is itself, and there is no
/// other.
#[verifier::external_body]
fn calendar_moment(millis: i64) -> (r: Option<i64>)
    ensures
        r == (if FIRST_MOMENT <= millis <= LAST_MOMENT {
            Some(millis)
        } else {
            None
        }),
{
    chrono::DateTime::from_timestamp_millis(millis).map(|d| d.timestamp_millis())
}

/// Whether a calendar date stands for a moment.
pub open spec fn is_moment(millis: int) -> bool {
    FIRST_MOMENT <= millis <= LAST_MOMENT
}

/// The moment that a stored time means: moments before 1970 are stored as two's
/// complements.
pub open spec fn signed_millis(ms: u64) -> int {
    if ms < 0x8000_0000_0000_0000 {
        ms as int
    } else {
        ms - 0x1_0000_0000_0000_0000
    }
}

/// The moment that a stored time means.
fn to_signed(ms: u64) -> (r: i64)
    ensures
        r == signed_millis(ms),
{
    if ms < 0x8000_0000_0000_0000 {
        ms as i64
    } else {
        -1 - (u64::MAX - ms) as i64
    }
}

/// Calls `chrono::Utc::now`, and `timestamp_millis` of what it gives: the
/// milliseconds since 1970 of a calendar date that is not before 1970. Which date
/// that is depends on the clock, and nothing more is claimed of it. A clock that
/// stands before 1970 makes the call panic.
#[verifier::external_body]
pub fn now_ms() -> (r: u64)
    ensures
        r <= LAST_MOMENT,
{
    chrono::Utc::now().timestamp_millis() as u64
}

/// Whether an id says of itself that it is random: version 4, and the variant of
/// its standard.
pub open spec fn is_random_id(id: u128) -> bool {
    &&& (id as int / 0x1000_0000_0000_0000_0000) % 16 == 4
    &&& (id as int / 0x4000_0000_0000_0000) % 4 == 2
}

/// Calls `uuid::Uuid::new_v4`: an id of version 4. Its other bits are random, and
/// nothing is claimed of them.
#[verifier::external_body]
pub(crate) fn random_id() -> (r: u128)
    ensures
        is_random_id(r),
{
    uuid::Uuid::new_v4().as_u128()
}

/// The moment of a stored time; a time beyond the range of calendar dates becomes
/// `now`.
pub open spec fn moment_or(ms: u64, now: i64) -> DateTime {
    if ms <= LAST_MOMENT {
        DateTime { millis: ms as i64 }
    } else if ms >= 0x8000_0000_0000_0000 && ms - 0x1_0000_0000_0000_0000 >= FIRST_MOMENT {
        DateTime { millis: (ms - 0x1_0000_0000_0000_0000) as i64 }
    } else {
        DateTime { millis: now }
    }
}

/// The moment of a stored time, if there is one; else `now`.
pub fn ms_to_dt_or(ms: u64, now: i64) -> (r: DateTime)
    ensures
        r == moment_or(ms, now),
{
    match calendar_moment(to_signed(ms)) {
        Some(m) => DateTime { millis: m },
        None => DateTime { millis: now },
    }
}

/// The moment of a stored time; a time beyond the range of calendar dates becomes
/// the present.
pub fn ms_to_dt(ms: u64) -> (r: DateTime)
    ensures
        ms <= LAST_MOMENT ==> r.millis == ms,
        is_moment(r.millis as int),
        exists|now: i64| 0 <= now <= LAST_MOMENT && r == #[trigger] moment_or(ms, now),
{
    let now: i64 = present_millis();
    let r = ms_to_dt_or(ms, now);
    assert(r == moment_or(ms, now));
    r
}

/// The present. Whatever the clock shows, a calendar date from 1970 on stands for it.
fn present_millis() -> (r: i64)
    ensures
        0 <= r <= LAST_MOMENT,
{
    now_ms() as i64
}

/// The digit of an identifier at a place, counted from the highest.
pub open spec fn id_digit(id: u128, place: int) -> char {
    text::hex_digit((id as int / power::pow(16, (31 - place) as nat)) % 16)
}

/// The usual text of an identifier: 32 hexadecimal digits in five groups.
pub open spec fn id_text(id: u128) -> Seq<char> {
    Seq::new(
        36,
        |i: int|
            if i < 8 {
                id_digit(id, i)
            } else if i == 8 || i == 13 || i == 18 || i == 23 {
                '-'
            } else if i < 13 {
                id_digit(id, i - 1)
            } else if i < 18 {
                id_digit(id, i - 2)
            } else if i < 23 {
                id_digit(id, i - 3)
            } else {
                id_digit(id, i - 4)
            },
    )
}

/// The identifier that `uuid::Uuid::parse_str` finds in a text.
pub uninterp spec fn parsed_id(s: Seq<char>) -> Option<u128>;

/// Calls `uuid::Uuid::to_string`: the hyphenated digits, which parse as the same
/// identifier.
#[verifier::external_body]
pub(crate) fn id_to_text(id: u128) -> (r: String)
    ensures
        r@ == id_text(id),
        parsed_id(r@) == Some(id),
{
    uuid::Uuid::from_u128(id).to_string()
}

/// Calls `uuid::Uuid::parse_str`: the result depends on the text alone.
#[verifier::external_body]
fn text_to_id(s: &str) -> (r: Option<u128>)
    ensures
        r == parsed_id(s@),
{
    uuid::Uuid::parse_str(s).ok().map(|u| u.as_u128())
}

/// The key of a memory.
pub open spec fn key_text(id: u128) -> Seq<char> {
    "memory:"@ + id_text(id)
}

/// The key of a memory. The identifier can be read back from it.
pub fn memory_key(id: u128) -> (r: String)
    ensures
        r@ == key_text(id),
        parsed_id(id_text(id)) == Some(id),
{
    let mut key = String::new();
    key.append("memory:");
    let digits = id_to_text(id);
    key.append(digits.as_str());
    assert(key@ =~= key_text(id));
    key
}

/// The identifier in a text that is the key of a memory.
pub open spec fn id_in(s: Seq<char>) -> Option<u128> {
    if "memory:"@.is_prefix_of(s) {
        parsed_id(s.skip("memory:"@.len() as int))
    } else {
        None
    }
}

/// The identifier in a text that is the key of a memory.
pub fn id_in_text(s: &str) -> (r: Option<u128>)
    ensures
        r == id_in(s@),
{
    match text::without_prefix(s, "memory:") {
        Some(rest) => {
            proof {
                assert("memory:"@.is_prefix_of(s@));
                assert(s@.skip("memory:"@.len() as int) =~= rest@);
            }
            text_to_id(rest.as_str())
        },
        None => None,
    }
}

/// The identifier of a key.
pub open spec fn id_of_key(key: Seq<u8>) -> Option<u128> {
    if vstd::utf8::valid_utf8(key) {
        id_in(vstd::utf8::decode_utf8(key))
    } else {
        None
    }
}

/// The identifier of a key of a memory; another key has none.
pub fn parse_memory_id(key: &[u8]) -> (r: Option<u128>)
    ensures
        r == id_of_key(key@),
{
    match text::valid_text(key) {
        Some(s) => id_in_text(s.as_str()),
        None => None,
    }
}

/// The identifier of a memory can be read back from its key.
pub fn memory_key_bytes(id: u128) -> (r: Vec<u8>)
    ensures
        r@ == vstd::utf8::encode_utf8(key_text(id)),
        id_of_key(r@) == Some(id),
{
    let key = memory_key(id);
    let bytes = vstd::slice::slice_to_vec(key.as_str().as_bytes());
    proof {
        let s = key_text(id);
        vstd::utf8::encode_utf8_valid_utf8(s);
        vstd::utf8::encode_utf8_decode_utf8(s);
        assert("memory:"@.is_prefix_of(s));
        assert(s.skip("memory:"@.len() as int) =~= id_text(id));
    }
    bytes
}

/// The health of a memory that is new.
pub fn default_memory_health() -> (r: u32)
    ensures
        r == float::HUNDRED,
{
    float::HUNDRED
}

/// A memory as callers get it.
#[derive(Debug)]
pub struct Memory {
    pub id: u128,
    pub content: String,
    pub memory_type: MemoryType,
    pub metadata: Metadata,
    pub connections: Vec<Connection>,
}

/// What callers get about a memory.
#[derive(Debug)]
pub struct Metadata {
    pub created_at: DateTime,
    pub updated_at: DateTime,
    pub accessed_at: DateTime,
    pub access_count: u32,
    pub source: Option<String>,
    pub tags: Vec<String>,
    pub importance: u32,
    pub emotional_valence: u32,
    pub arousal: u32,
    pub health: u32,
    pub last_recalled_at: Option<DateTime>,
    pub flashbulb_until: Option<DateTime>,
    pub ttl: Option<u64>,
}

/// A connection from one memory to another.
#[derive(Clone, Copy, PartialEq, Eq, Structural, Debug)]
pub struct Connection {
    pub target_id: u128,
    pub relationship_type: RelationshipType,
    pub strength: u32,
    pub created_at: DateTime,
}

/// A memory that was found, and how well it fits.
#[derive(Debug)]
pub struct SearchResult {
    pub memory: Memory,
    pub score: u32,
}

/// Which memories are wanted.
#[derive(Debug)]
pub struct MemoryFilters {
    pub memory_type: Option<MemoryType>,
    /// All of these are wanted.
    pub tags: Vec<String>,
    pub min_importance: Option<u32>,
    pub max_importance: Option<u32>,
    pub created_after: Option<u64>,
    pub created_before: Option<u64>,
}

impl Default for MemoryFilters {
    fn default() -> (r: Self)
        ensures
            r.memory_type is None,
            r.tags@.len() == 0,
            r.min_importance is None,
            r.max_importance is None,
            r.created_after is None,
            r.created_before is None,
    {
        MemoryFilters {
            memory_type: None,
            tags: Vec::new(),
            min_importance: None,
            max_importance: None,
            created_after: None,
            created_before: None,
        }
    }
}

/// The moment of a stored time, if there is one.
pub open spec fn moment_if(ms: Option<u64>, now: i64) -> Option<DateTime> {
    match ms {
        Some(t) => Some(moment_or(t, now)),
        None => None,
    }
}

/// The moment of a stored time, if there is one.
fn moment_of(ms: Option<u64>, now: i64) -> (r: Option<DateTime>)
    ensures
        r == moment_if(ms, now),
{
    match ms {
        Some(t) => Some(ms_to_dt_or(t, now)),
        None => None,
    }
}

impl Metadata {
    /// Whether this is what callers get of what is stored, at a given present.
    pub open spec fn is_of(&self, m: MetadataView, now: i64) -> bool {
        &&& self.created_at == moment_or(m.created_at, now)
        &&& self.updated_at == moment_or(m.updated_at, now)
        &&& self.accessed_at == moment_or(m.accessed_at, now)
        &&& self.access_count == m.access_count
        &&& index::text_view(self.source) == m.source
        &&& text::texts(self.tags@) == m.tags
        &&& self.importance == m.importance
        &&& self.emotional_valence == m.emotional_valence
        &&& self.arousal == m.arousal
        &&& self.health == m.health
        &&& self.last_recalled_at == moment_if(m.last_recalled_at, now)
        &&& self.flashbulb_until == moment_if(m.flashbulb_until, now)
        &&& self.ttl == m.ttl
    }
}

impl Memory {
    /// Whether this is what callers get of a stored memory, at a given present.
    pub open spec fn is_of(&self, stored: StoredView, connections: Seq<Connection>, now: i64) -> bool {
        &&& self.id == stored.id
        &&& self.content@ == stored.content
        &&& self.memory_type == stored.memory_type
        &&& self.metadata.is_of(stored.metadata, now)
        &&& self.connections@ == connections
    }
}

impl StoredMemory {
    /// The memory as callers get it at a given present.
    pub fn into_api_at(self, connections: Vec<Connection>, now: i64) -> (r: Memory)
        ensures
            r.is_of(self@, connections@, now),
            r.id == self.id,
            r.content == self.content,
            r.memory_type == self.memory_type,
            r.connections == connections,
            r.metadata.tags == self.metadata.tags,
            r.metadata.source == self.metadata.source,
            r.metadata.importance == self.metadata.importance,
            r.metadata.health == self.metadata.health,
            r.metadata.access_count == self.metadata.access_count,
            r.metadata.ttl == self.metadata.ttl,
            self.metadata.created_at <= LAST_MOMENT ==> r.metadata.created_at.millis
                == self.metadata.created_at,
    {
        let m = self.metadata;
        Memory {
            id: self.id,
            content: self.content,
            memory_type: self.memory_type,
            metadata: Metadata {
                created_at: ms_to_dt_or(m.created_at, now),
                updated_at: ms_to_dt_or(m.updated_at, now),
                accessed_at: ms_to_dt_or(m.accessed_at, now),
                access_count: m.access_count,
                source: m.source,
                tags: m.tags,
                importance: m.importance,
                emotional_valence: m.emotional_valence,
                arousal: m.arousal,
                health: m.health,
                last_recalled_at: moment_of(m.last_recalled_at, now),
                flashbulb_until: moment_of(m.flashbulb_until, now),
                ttl: m.ttl,
            },
            connections,
        }
    }

    /// The memory as callers get it.
    pub fn into_api(self, connections: Vec<Connection>) -> (r: Memory)
        ensures
            exists|now: i64|
                0 <= now <= LAST_MOMENT && #[trigger] r.is_of(self@, connections@, now),
    {
        let now: i64 = present_millis();
        let r = self.into_api_at(connections, now);
        assert(r.is_of(self@, connections@, now));
        r
    }

    /// Whether the memory has expired at a given time.
    pub fn is_expired_at(&self, now: u64) -> (r: bool)
        ensures
            r == self@.expired(now),
    {
        match self.memory_type {
            MemoryType::LongTerm => false,
            MemoryType::ShortTerm => match self.metadata.ttl {
                Some(ttl) => {
                    if now < self.metadata.created_at {
                        false
                    } else {
                        let age: u64 = now - self.metadata.created_at;
                        age / 1000 >= ttl
                    }
                },
                None => false,
            },
        }
    }

    /// Whether the memory has expired.
    pub fn is_expired(&self) -> (r: bool)
        ensures
            exists|now: u64| now <= LAST_MOMENT && r == #[trigger] self@.expired(now),
            r ==> self.memory_type == MemoryType::ShortTerm && self.metadata.ttl is Some,
    {
        let now: u64 = now_ms();
        let r = self.is_expired_at(now);
        assert(r == self@.expired(now));
        r
    }
}

impl StoredView {
    /// Whether the memory has expired: a short-term memory lives for its seconds.
    pub open spec fn expired(self, now: u64) -> bool {
        &&& self.memory_type == MemoryType::ShortTerm
        &&& self.metadata.ttl matches Some(ttl) && now >= self.metadata.created_at + ttl * 1000
    }
}

/// A long-term memory never expires, and a short-term memory that has expired stays
/// so.
pub proof fn law_expiry(stored: StoredView, now: u64, later: u64)
    requires
        now <= later,
    ensures
        stored.memory_type == MemoryType::LongTerm ==> !stored.expired(now),
        stored.expired(now) ==> stored.expired(later),
{
}

/// What is seen of a stored memory is all that is stored of it.
pub proof fn law_stored_view(m: StoredMemory)
    ensures
        m@.id == m.id,
        m@.content == m.content@,
        m@.memory_type == m.memory_type,
        m@.archived == m.archived,
        m@.metadata.created_at == m.metadata.created_at,
        m@.metadata.updated_at == m.metadata.updated_at,
        m@.metadata.accessed_at == m.metadata.accessed_at,
        m@.metadata.access_count == m.metadata.access_count,
        m.metadata.source is Some ==> m@.metadata.source == Some(m.metadata.source->Some_0@),
        m.metadata.source is None ==> m@.metadata.source is None,
        m@.metadata.tags.len() == m.metadata.tags@.len(),
        forall|i: int|
            0 <= i < m.metadata.tags@.len() ==> #[trigger] m@.metadata.tags[i]
                == m.metadata.tags@[i]@,
        m@.metadata.importance == m.metadata.importance,
        m@.metadata.emotional_valence == m.metadata.emotional_valence,
        m@.metadata.arousal == m.metadata.arousal,
        m@.metadata.health == m.metadata.health,
        m@.metadata.last_recalled_at == m.metadata.last_recalled_at,
        m@.metadata.flashbulb_until == m.metadata.flashbulb_until,
        m@.metadata.ttl == m.metadata.ttl,
        m@.metadata.last_decay_at == m.metadata.last_decay_at,
        m@.metadata.last_health_check_at == m.metadata.last_health_check_at,
{
}

/// A stored time from 1970 on is the moment of so many milliseconds, as far as the
/// calendar goes; a time before 1970 is stored as a two's complement; and a time beyond
/// the calendar becomes the present.
pub proof fn law_moment(ms: u64, now: i64)
    ensures
        ms <= 8210266876799999 ==> moment_or(ms, now).millis == ms,
        8210266876799999 < ms < 0x8000_0000_0000_0000 ==> moment_or(ms, now).millis == now,
        0x8000_0000_0000_0000 <= ms && ms - 0x1_0000_0000_0000_0000 >= -8334601228800000
            ==> moment_or(ms, now).millis == ms - 0x1_0000_0000_0000_0000,
        0x8000_0000_0000_0000 <= ms && ms - 0x1_0000_0000_0000_0000 < -8334601228800000
            ==> moment_or(ms, now).millis == now,
{
}

/// Callers get of a memory what is stored of it: nothing is left out or changed but how
/// times are written.
pub proof fn law_callers_get_what_is_stored(
    memory: Memory,
    stored: StoredView,
    connections: Seq<Connection>,
    now: i64,
)
    requires
        memory.is_of(stored, connections, now),
    ensures
        memory.id == stored.id,
        memory.content@ == stored.content,
        memory.memory_type == stored.memory_type,
        memory.connections@ == connections,
        memory.metadata.access_count == stored.metadata.access_count,
        memory.metadata.importance == stored.metadata.importance,
        memory.metadata.emotional_valence == stored.metadata.emotional_valence,
        memory.metadata.arousal == stored.metadata.arousal,
        memory.metadata.health == stored.metadata.health,
        memory.metadata.ttl == stored.metadata.ttl,
        memory.metadata.tags@.len() == stored.metadata.tags.len(),
        forall|i: int|
            0 <= i < stored.metadata.tags.len() ==> (#[trigger] memory.metadata.tags@[i])@
                == stored.metadata.tags[i],
        stored.metadata.source is Some ==> memory.metadata.source is Some
            && memory.metadata.source->Some_0@ == stored.metadata.source->Some_0,
        stored.metadata.source is None ==> memory.metadata.source is None,
        stored.metadata.created_at <= LAST_MOMENT ==> memory.metadata.created_at.millis
            == stored.metadata.created_at,
        stored.metadata.updated_at <= LAST_MOMENT ==> memory.metadata.updated_at.millis
            == stored.metadata.updated_at,
        stored.metadata.accessed_at <= LAST_MOMENT ==> memory.metadata.accessed_at.millis
            == stored.metadata.accessed_at,
        stored.metadata.last_recalled_at matches Some(t) ==> t <= LAST_MOMENT
            ==> memory.metadata.last_recalled_at == Some(DateTime { millis: t as i64 }),
        stored.metadata.last_recalled_at is None ==> memory.metadata.last_recalled_at is None,
        stored.metadata.flashbulb_until matches Some(t) ==> t <= LAST_MOMENT
            ==> memory.metadata.flashbulb_until == Some(DateTime { millis: t as i64 }),
        stored.metadata.flashbulb_until is None ==> memory.metadata.flashbulb_until is None,
{
    assert forall|i: int| 0 <= i < stored.metadata.tags.len() implies (
    #[trigger] memory.metadata.tags@[i])@ == stored.metadata.tags[i] by {
        assert(text::texts(memory.metadata.tags@)[i] == stored.metadata.tags[i]);
    }
}

/// A short-term memory lives for exactly the seconds that it was given; one that was
/// given none, and every long-term memory, does not expire.
pub proof fn law_lifetime(stored: StoredView, now: u64)
    ensures
        stored.metadata.ttl is None ==> !stored.expired(now),
        stored.memory_type == MemoryType::LongTerm ==> !stored.expired(now),
        stored.memory_type == MemoryType::ShortTerm ==> (stored.metadata.ttl matches Some(ttl) ==> (
        now - stored.metadata.created_at >= 1000 * ttl <==> stored.expired(now))),
{
}

/// The identifier in a text is the one behind the prefix of all keys; a text without the
/// prefix has none.
pub proof fn law_id_in_key(rest: Seq<char>, other: Seq<char>, id: u128)
    ensures
        id_in("memory:"@ + rest) == parsed_id(rest),
        !"memory:"@.is_prefix_of(other) ==> id_in(other) is None,
        key_text(id).len() == "memory:"@.len() + 36,
        key_text(id).skip("memory:"@.len() as int) == id_text(id),
        id_of_key(vstd::utf8::encode_utf8(other)) == id_in(other),
{
    let s = "memory:"@ + rest;
    assert("memory:"@.is_prefix_of(s));
    assert(s.skip("memory:"@.len() as int) =~= rest);
    assert(key_text(id).skip("memory:"@.len() as int) =~= id_text(id));
    vstd::utf8::encode_utf8_valid_utf8(other);
    vstd::utf8::encode_utf8_decode_utf8(other);
}

/// The names of the types and relationships are those that callers know them by.
pub proof fn law_names()
    ensures
        MemoryType::ShortTerm.name() == "short_term"@,
        MemoryType::LongTerm.name() == "long_term"@,
        RelationshipType::RelatedTo.name() == "related_to"@,
        RelationshipType::CausedBy.name() == "caused_by"@,
        RelationshipType::PartOf.name() == "part_of"@,
        RelationshipType::References.name() == "references"@,
        RelationshipType::Contradicts.name() == "contradicts"@,
        RelationshipType::Supports.name() == "supports"@,
        RelationshipType::SimilarTo.name() == "similar_to"@,
        RelationshipType::DerivedFrom.name() == "derived_from"@,
{
}

/// What stored memories are is what each of them is, in their order.
pub proof fn law_stored_views(stored: Seq<StoredMemory>, i: int)
    ensures
        stored_views(stored).len() == stored.len(),
        0 <= i < stored.len() ==> stored_views(stored)[i] == stored[i]@,
{
}

/// A time that may be missing is missing where it was, and else the moment that it is.
pub proof fn law_moment_if(ms: Option<u64>, now: i64)
    ensures
        ms is None <==> moment_if(ms, now) is None,
        ms matches Some(t) ==> moment_if(ms, now) == Some(moment_or(t, now)),
        ms matches Some(t) ==> t <= 8210266876799999 ==> moment_if(ms, now) == Some(
            DateTime { millis: t as i64 },
        ),
{
}

} // verus!
