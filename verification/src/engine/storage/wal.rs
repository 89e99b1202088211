//! The write-ahead log.
//!
//! Every operation is logged before it is applied, so that a crash loses nothing
//! that was acknowledged. A record stands in the log as
//!
//! ```text
//! [length: u32][checksum: u32][type: u8][timestamp: u64][key_len: u16][key][value_len: u32][value][tail]
//! ```
//!
//! where `length` counts the bytes after the checksum, and the tail depends on the
//! type: an embedding, a time-series timestamp, tags or an edge.
use crate::engine::checksum;
use crate::engine::codec;
use crate::engine::error::WalFault;
use crate::engine::text;
use vstd::prelude::*;

verus! {

/// The longest record that is read back: 100 MiB.
pub const MAX_RECORD_LENGTH: u32 = 104857600;

/// The bit pattern of the weight 1.0, which an edge without a weight gets.
pub const UNIT_WEIGHT: u32 = 0x3F80_0000;

/// What a log record does.
#[derive(Clone, Copy, PartialEq, Eq, Structural, Debug)]
pub enum WalRecordType {
    /// Insert or update a key.
    Insert,
    /// Delete a key.
    Delete,
    /// Insert a key together with its embedding.
    InsertWithEmbedding,
    /// Set the time-series timestamp of a key.
    SetTimestamp,
    /// Add tags to a key.
    AddTags,
    /// Add a graph edge.
    AddEdge,
    /// Replace all tags of a key.
    SetTags,
    /// Remove the edges from a source to a target.
    RemoveEdge,
    /// Remove a key from the time-series index.
    RemoveTimestamp,
    /// Remove a key from the tag index.
    RemoveTags,
    /// Remove a key from the vector index.
    RemoveVector,
}

impl WalRecordType {
    /// The byte that stands for the type.
    pub open spec fn code(self) -> u8 {
        match self {
            WalRecordType::Insert => 1,
            WalRecordType::Delete => 2,
            WalRecordType::InsertWithEmbedding => 3,
            WalRecordType::SetTimestamp => 4,
            WalRecordType::AddTags => 5,
            WalRecordType::AddEdge => 6,
            WalRecordType::SetTags => 7,
            WalRecordType::RemoveEdge => 8,
            WalRecordType::RemoveTimestamp => 9,
            WalRecordType::RemoveTags => 10,
            WalRecordType::RemoveVector => 11,
        }
    }

    /// The byte that stands for the type.
    pub fn to_byte(self) -> (r: u8)
        ensures
            r == self.code(),
    {
        match self {
            WalRecordType::Insert => 1,
            WalRecordType::Delete => 2,
            WalRecordType::InsertWithEmbedding => 3,
            WalRecordType::SetTimestamp => 4,
            WalRecordType::AddTags => 5,
            WalRecordType::AddEdge => 6,
            WalRecordType::SetTags => 7,
            WalRecordType::RemoveEdge => 8,
            WalRecordType::RemoveTimestamp => 9,
            WalRecordType::RemoveTags => 10,
            WalRecordType::RemoveVector => 11,
        }
    }
}

/// The type that a byte stands for.
pub open spec fn type_of(byte: u8) -> Result<WalRecordType, WalFault> {
    if byte == 1 {
        Ok(WalRecordType::Insert)
    } else if byte == 2 {
        Ok(WalRecordType::Delete)
    } else if byte == 3 {
        Ok(WalRecordType::InsertWithEmbedding)
    } else if byte == 4 {
        Ok(WalRecordType::SetTimestamp)
    } else if byte == 5 {
        Ok(WalRecordType::AddTags)
    } else if byte == 6 {
        Ok(WalRecordType::AddEdge)
    } else if byte == 7 {
        Ok(WalRecordType::SetTags)
    } else if byte == 8 {
        Ok(WalRecordType::RemoveEdge)
    } else if byte == 9 {
        Ok(WalRecordType::RemoveTimestamp)
    } else if byte == 10 {
        Ok(WalRecordType::RemoveTags)
    } else if byte == 11 {
        Ok(WalRecordType::RemoveVector)
    } else {
        Err(WalFault::InvalidType(byte))
    }
}

impl TryFrom<u8> for WalRecordType {
    type Error = WalFault;

    fn try_from(value: u8) -> (r: Result<Self, WalFault>) {
        match value {
            1 => Ok(WalRecordType::Insert),
            2 => Ok(WalRecordType::Delete),
            3 => Ok(WalRecordType::InsertWithEmbedding),
            4 => Ok(WalRecordType::SetTimestamp),
            5 => Ok(WalRecordType::AddTags),
            6 => Ok(WalRecordType::AddEdge),
            7 => Ok(WalRecordType::SetTags),
            8 => Ok(WalRecordType::RemoveEdge),
            9 => Ok(WalRecordType::RemoveTimestamp),
            10 => Ok(WalRecordType::RemoveTags),
            11 => Ok(WalRecordType::RemoveVector),
            _ => Err(WalFault::InvalidType(value)),
        }
    }
}

impl vstd::std_specs::convert::TryFromSpecImpl<u8> for WalRecordType {
    open spec fn obeys_try_from_spec() -> bool {
        true
    }

    open spec fn try_from_spec(value: u8) -> Result<Self, WalFault> {
        type_of(value)
    }
}

/// A record of the log.
///
/// An embedding and a weight are held as the bit patterns of single-precision
/// numbers: the log stores them and does not compute with them.
#[derive(Clone, Debug)]
pub struct WalRecord {
    /// What the record does.
    pub record_type: WalRecordType,
    /// The order of the operation among all operations.
    pub timestamp: u64,
    pub key: Vec<u8>,
    /// The value; empty where the record carries none.
    pub value: Vec<u8>,
    /// For `InsertWithEmbedding`.
    pub embedding: Option<Vec<u32>>,
    /// For `SetTimestamp`.
    pub ts_timestamp: Option<u64>,
    /// For `AddTags` and `SetTags`.
    pub tags: Option<Vec<String>>,
    /// For `AddEdge` and `RemoveEdge`.
    pub edge_source: Option<Vec<u8>>,
    /// For `AddEdge` and `RemoveEdge`.
    pub edge_target: Option<Vec<u8>>,
    /// For `AddEdge`.
    pub edge_type: Option<String>,
    /// For `AddEdge`.
    pub edge_weight: Option<u32>,
}

/// What a log record says.
#[verifier::ext_equal]
pub struct WalRecordView {
    pub record_type: WalRecordType,
    pub timestamp: u64,
    pub key: Seq<u8>,
    pub value: Seq<u8>,
    pub embedding: Option<Seq<u32>>,
    pub ts_timestamp: Option<u64>,
    pub tags: Option<Seq<Seq<char>>>,
    pub edge_source: Option<Seq<u8>>,
    pub edge_target: Option<Seq<u8>>,
    pub edge_type: Option<Seq<char>>,
    pub edge_weight: Option<u32>,
}

impl View for WalRecord {
    type V = WalRecordView;

    open spec fn view(&self) -> WalRecordView {
        WalRecordView {
            record_type: self.record_type,
            timestamp: self.timestamp,
            key: self.key@,
            value: self.value@,
            embedding: match self.embedding {
                Some(e) => Some(e@),
                None => None,
            },
            ts_timestamp: self.ts_timestamp,
            tags: match self.tags {
                Some(t) => Some(text::texts(t@)),
                None => None,
            },
            edge_source: match self.edge_source {
                Some(b) => Some(b@),
                None => None,
            },
            edge_target: match self.edge_target {
                Some(b) => Some(b@),
                None => None,
            },
            edge_type: match self.edge_type {
                Some(t) => Some(t@),
                None => None,
            },
            edge_weight: self.edge_weight,
        }
    }
}

/// A record of the given type with a key and a value and nothing else.
pub open spec fn plain_record(
    record_type: WalRecordType,
    key: Seq<u8>,
    value: Seq<u8>,
    timestamp: u64,
) -> WalRecordView {
    WalRecordView {
        record_type,
        timestamp,
        key,
        value,
        embedding: None,
        ts_timestamp: None,
        tags: None,
        edge_source: None,
        edge_target: None,
        edge_type: None,
        edge_weight: None,
    }
}

/// An edge record: its key and value are empty.
pub open spec fn edge_record(
    record_type: WalRecordType,
    source: Seq<u8>,
    target: Seq<u8>,
    edge_type: Option<Seq<char>>,
    weight: Option<u32>,
    timestamp: u64,
) -> WalRecordView {
    WalRecordView {
        edge_source: Some(source),
        edge_target: Some(target),
        edge_type,
        edge_weight: weight,
        ..plain_record(record_type, Seq::empty(), Seq::empty(), timestamp)
    }
}

/// A byte string behind its length.
pub open spec fn short_field(b: Seq<u8>) -> Seq<u8> {
    codec::u16_le(b.len() as u16) + b
}

/// The bytes of a list of 32-bit words.
pub open spec fn word_bytes(words: Seq<u32>) -> Seq<u8>
    decreases words.len(),
{
    if words.len() == 0 {
        Seq::empty()
    } else {
        word_bytes(words.drop_last()) + codec::u32_le(words.last())
    }
}

/// The bytes of a list of tags, each behind its length.
pub open spec fn tag_bytes(tags: Seq<Seq<char>>) -> Seq<u8>
    decreases tags.len(),
{
    if tags.len() == 0 {
        Seq::empty()
    } else {
        tag_bytes(tags.drop_last()) + short_field(vstd::utf8::encode_utf8(tags.last()))
    }
}

/// The part of a record that every type has.
pub open spec fn head_bytes(r: WalRecordView) -> Seq<u8> {
    seq![r.record_type.code()] + codec::u64_le(r.timestamp) + short_field(r.key) + codec::u32_le(
        r.value.len() as u32,
    ) + r.value
}

/// The part of a record that depends on its type.
pub open spec fn tail_bytes(r: WalRecordView) -> Seq<u8> {
    match r.record_type {
        WalRecordType::InsertWithEmbedding => {
            let e = r.embedding.unwrap_or(Seq::empty());
            codec::u32_le(e.len() as u32) + word_bytes(e)
        },
        WalRecordType::SetTimestamp => codec::u64_le(r.ts_timestamp.unwrap_or(0)),
        WalRecordType::AddTags | WalRecordType::SetTags => match r.tags {
            Some(t) => codec::u32_le(t.len() as u32) + tag_bytes(t),
            None => Seq::empty(),
        },
        WalRecordType::AddEdge => short_field(r.edge_source.unwrap_or(Seq::empty())) + short_field(
            r.edge_target.unwrap_or(Seq::empty()),
        ) + short_field(vstd::utf8::encode_utf8(r.edge_type.unwrap_or(Seq::empty())))
            + codec::u32_le(r.edge_weight.unwrap_or(UNIT_WEIGHT)),
        WalRecordType::RemoveEdge => short_field(r.edge_source.unwrap_or(Seq::empty()))
            + short_field(r.edge_target.unwrap_or(Seq::empty())),
        _ => Seq::empty(),
    }
}

/// The bytes of a record behind its length and checksum.
#[verifier::opaque]
pub open spec fn inner_bytes(r: WalRecordView) -> Seq<u8> {
    head_bytes(r) + tail_bytes(r)
}

/// Bytes behind their length and checksum.
pub open spec fn framed(inner: Seq<u8>) -> Seq<u8> {
    codec::u32_le(inner.len() as u32) + codec::u32_le(checksum::crc32(inner)) + inner
}

/// The bytes of a record in the log.
pub open spec fn record_bytes(r: WalRecordView) -> Seq<u8> {
    framed(inner_bytes(r))
}

/// Appends a byte string behind its length.
fn put_short_field(out: &mut Vec<u8>, b: &[u8])
    ensures
        final(out)@ == old(out)@ + short_field(b@),
{
    codec::put_u16(out, b.len() as u16);
    codec::put_bytes(out, b);
    assert(out@ =~= old(out)@ + short_field(b@));
}

/// Appends a list of words.
fn put_words(out: &mut Vec<u8>, words: &Vec<u32>)
    ensures
        final(out)@ == old(out)@ + word_bytes(words@),
{
    let ghost start = out@;
    let mut i: usize = 0;
    assert(out@ =~= start + word_bytes(words@.take(0)));
    while i < words.len()
        invariant
            i <= words@.len(),
            out@ == start + word_bytes(words@.take(i as int)),
        decreases words@.len() - i,
    {
        codec::put_u32(out, words[i]);
        proof {
            let next = words@.take(i + 1);
            assert(next.drop_last() =~= words@.take(i as int));
            assert(out@ =~= start + word_bytes(next));
        }
        i = i + 1;
    }
    assert(words@.take(i as int) =~= words@);
}

/// Appends a list of tags.
fn put_tags(out: &mut Vec<u8>, tags: &Vec<String>)
    ensures
        final(out)@ == old(out)@ + tag_bytes(text::texts(tags@)),
{
    let ghost start = out@;
    let ghost all = text::texts(tags@);
    let mut i: usize = 0;
    assert(out@ =~= start + tag_bytes(all.take(0)));
    while i < tags.len()
        invariant
            i <= tags@.len(),
            all == text::texts(tags@),
            out@ == start + tag_bytes(all.take(i as int)),
        decreases tags@.len() - i,
    {
        put_short_field(out, tags[i].as_str().as_bytes());
        proof {
            let next = all.take(i + 1);
            assert(next.drop_last() =~= all.take(i as int));
            assert(out@ =~= start + tag_bytes(next));
        }
        i = i + 1;
    }
    assert(all.take(i as int) =~= all);
}

/// Appends an optional byte string behind its length; an absent one counts as empty.
fn put_optional_field(out: &mut Vec<u8>, b: &Option<Vec<u8>>)
    ensures
        final(out)@ == old(out)@ + short_field(
            match *b {
                Some(v) => v@,
                None => Seq::empty(),
            },
        ),
{
    match b {
        Some(v) => put_short_field(out, v.as_slice()),
        None => {
            let none: Vec<u8> = Vec::new();
            put_short_field(out, none.as_slice())
        },
    }
}

impl WalRecord {
    /// A record without a tail.
    fn plain(record_type: WalRecordType, key: Vec<u8>, value: Vec<u8>, timestamp: u64) -> (r: Self)
        ensures
            r@ == plain_record(record_type, key@, value@, timestamp),
    {
        WalRecord {
            record_type,
            timestamp,
            key,
            value,
            embedding: None,
            ts_timestamp: None,
            tags: None,
            edge_source: None,
            edge_target: None,
            edge_type: None,
            edge_weight: None,
        }
    }

    /// The record of an insert.
    pub fn insert(key: Vec<u8>, value: Vec<u8>, timestamp: u64) -> (r: Self)
        ensures
            r@ == plain_record(WalRecordType::Insert, key@, value@, timestamp),
    {
        Self::plain(WalRecordType::Insert, key, value, timestamp)
    }

    /// The record of an insert with an embedding.
    pub fn insert_with_embedding(
        key: Vec<u8>,
        value: Vec<u8>,
        timestamp: u64,
        embedding: Vec<u32>,
    ) -> (r: Self)
        ensures
            r@ == (WalRecordView {
                embedding: Some(embedding@),
                ..plain_record(WalRecordType::InsertWithEmbedding, key@, value@, timestamp)
            }),
    {
        WalRecord {
            embedding: Some(embedding),
            ..Self::plain(WalRecordType::InsertWithEmbedding, key, value, timestamp)
        }
    }

    /// The record of a delete.
    pub fn delete(key: Vec<u8>, timestamp: u64) -> (r: Self)
        ensures
            r@ == plain_record(WalRecordType::Delete, key@, Seq::empty(), timestamp),
    {
        Self::plain(WalRecordType::Delete, key, Vec::new(), timestamp)
    }

    /// The record that sets a key's time-series timestamp.
    pub fn set_timestamp(key: Vec<u8>, ts_timestamp: u64, timestamp: u64) -> (r: Self)
        ensures
            r@ == (WalRecordView {
                ts_timestamp: Some(ts_timestamp),
                ..plain_record(WalRecordType::SetTimestamp, key@, Seq::empty(), timestamp)
            }),
    {
        WalRecord {
            ts_timestamp: Some(ts_timestamp),
            ..Self::plain(WalRecordType::SetTimestamp, key, Vec::new(), timestamp)
        }
    }

    /// The record that adds tags to a key.
    pub fn add_tags(key: Vec<u8>, tags: Vec<String>, timestamp: u64) -> (r: Self)
        ensures
            r@ == (WalRecordView {
                tags: Some(text::texts(tags@)),
                ..plain_record(WalRecordType::AddTags, key@, Seq::empty(), timestamp)
            }),
    {
        WalRecord {
            tags: Some(tags),
            ..Self::plain(WalRecordType::AddTags, key, Vec::new(), timestamp)
        }
    }

    /// The record that replaces all tags of a key.
    pub fn set_tags(key: Vec<u8>, tags: Vec<String>, timestamp: u64) -> (r: Self)
        ensures
            r@ == (WalRecordView {
                tags: Some(text::texts(tags@)),
                ..plain_record(WalRecordType::SetTags, key@, Seq::empty(), timestamp)
            }),
    {
        WalRecord {
            tags: Some(tags),
            ..Self::plain(WalRecordType::SetTags, key, Vec::new(), timestamp)
        }
    }

    /// The record that adds an edge.
    pub fn add_edge(
        source: Vec<u8>,
        target: Vec<u8>,
        edge_type: Option<String>,
        weight: Option<u32>,
        timestamp: u64,
    ) -> (r: Self)
        ensures
            r@ == edge_record(
                WalRecordType::AddEdge,
                source@,
                target@,
                match edge_type {
                    Some(t) => Some(t@),
                    None => None,
                },
                weight,
                timestamp,
            ),
    {
        WalRecord {
            edge_source: Some(source),
            edge_target: Some(target),
            edge_type,
            edge_weight: weight,
            ..Self::plain(WalRecordType::AddEdge, Vec::new(), Vec::new(), timestamp)
        }
    }

    /// The record that removes all edges from a source to a target.
    pub fn remove_edge(source: Vec<u8>, target: Vec<u8>, timestamp: u64) -> (r: Self)
        ensures
            r@ == edge_record(
                WalRecordType::RemoveEdge,
                source@,
                target@,
                None,
                None,
                timestamp,
            ),
    {
        WalRecord {
            edge_source: Some(source),
            edge_target: Some(target),
            ..Self::plain(WalRecordType::RemoveEdge, Vec::new(), Vec::new(), timestamp)
        }
    }

    /// The record that removes a key from the time-series index.
    pub fn remove_timestamp(key: Vec<u8>, timestamp: u64) -> (r: Self)
        ensures
            r@ == plain_record(WalRecordType::RemoveTimestamp, key@, Seq::empty(), timestamp),
    {
        Self::plain(WalRecordType::RemoveTimestamp, key, Vec::new(), timestamp)
    }

    /// The record that removes a key from the tag index.
    pub fn remove_tags(key: Vec<u8>, timestamp: u64) -> (r: Self)
        ensures
            r@ == plain_record(WalRecordType::RemoveTags, key@, Seq::empty(), timestamp),
    {
        Self::plain(WalRecordType::RemoveTags, key, Vec::new(), timestamp)
    }

    /// The record that removes a key from the vector index.
    pub fn remove_vector(key: Vec<u8>, timestamp: u64) -> (r: Self)
        ensures
            r@ == plain_record(WalRecordType::RemoveVector, key@, Seq::empty(), timestamp),
    {
        Self::plain(WalRecordType::RemoveVector, key, Vec::new(), timestamp)
    }

    /// The bytes of the record behind its length and checksum.
    pub fn encode_inner(&self) -> (r: Vec<u8>)
        ensures
            r@ == inner_bytes(self@),
    {
        reveal(inner_bytes);
        let ghost v = self@;
        let mut buf: Vec<u8> = Vec::new();
        buf.push(self.record_type.to_byte());
        codec::put_u64(&mut buf, self.timestamp);
        put_short_field(&mut buf, self.key.as_slice());
        codec::put_u32(&mut buf, self.value.len() as u32);
        codec::put_bytes(&mut buf, self.value.as_slice());
        assert(buf@ =~= head_bytes(v));
        let ghost head = buf@;
        match self.record_type {
            WalRecordType::InsertWithEmbedding => {
                match &self.embedding {
                    Some(e) => {
                        codec::put_u32(&mut buf, e.len() as u32);
                        put_words(&mut buf, e);
                    },
                    None => {
                        codec::put_u32(&mut buf, 0);
                        assert(word_bytes(Seq::<u32>::empty()) =~= Seq::empty());
                    },
                }
            },
            WalRecordType::SetTimestamp => {
                let ts: u64 = match self.ts_timestamp {
                    Some(t) => t,
                    None => 0,
                };
                codec::put_u64(&mut buf, ts);
            },
            WalRecordType::AddTags | WalRecordType::SetTags => {
                if let Some(tags) = &self.tags {
                    codec::put_u32(&mut buf, tags.len() as u32);
                    put_tags(&mut buf, tags);
                }
            },
            WalRecordType::AddEdge => {
                put_optional_field(&mut buf, &self.edge_source);
                put_optional_field(&mut buf, &self.edge_target);
                match &self.edge_type {
                    Some(t) => put_short_field(&mut buf, t.as_str().as_bytes()),
                    None => {
                        let none: Vec<u8> = Vec::new();
                        put_short_field(&mut buf, none.as_slice());
                        assert(vstd::utf8::encode_utf8(Seq::<char>::empty()) =~= Seq::empty());
                    },
                }
                let weight: u32 = match self.edge_weight {
                    Some(w) => w,
                    None => UNIT_WEIGHT,
                };
                codec::put_u32(&mut buf, weight);
            },
            WalRecordType::RemoveEdge => {
                put_optional_field(&mut buf, &self.edge_source);
                put_optional_field(&mut buf, &self.edge_target);
            },
            _ => {},
        }
        assert(buf@ =~= head + tail_bytes(v));
        buf
    }

    /// The bytes of the record as it stands in the log.
    pub fn encode(&self) -> (r: Vec<u8>)
        ensures
            r@ == record_bytes(self@),
    {
        let inner = self.encode_inner();
        let sum: u32 = crc32fast::hash(inner.as_slice());
        let mut buf: Vec<u8> = Vec::new();
        codec::put_u32(&mut buf, inner.len() as u32);
        codec::put_u32(&mut buf, sum);
        codec::put_bytes(&mut buf, inner.as_slice());
        assert(buf@ =~= record_bytes(self@));
        buf
    }
}

/// `n` words from `at` on.
pub open spec fn words_at(d: Seq<u8>, at: int, n: nat) -> Seq<u32> {
    Seq::new(n, |i: int| codec::u32_at(d, at + 4 * i))
}

/// Puts `first` in front of what was read, if it could be read.
pub open spec fn prefixed(
    first: Seq<Seq<char>>,
    rest: Result<Seq<Seq<char>>, WalFault>,
) -> Result<Seq<Seq<char>>, WalFault> {
    match rest {
        Ok(tags) => Ok(first + tags),
        Err(e) => Err(e),
    }
}

/// `n` tags from `at` on, or the first fault among them.
pub open spec fn tags_at(d: Seq<u8>, at: int, n: nat) -> Result<Seq<Seq<char>>, WalFault>
    decreases n,
{
    if n == 0 {
        Ok(Seq::empty())
    } else if d.len() < at + 2 {
        Err(WalFault::TagLengthTruncated)
    } else {
        let end = at + 2 + codec::u16_at(d, at);
        if d.len() < end {
            Err(WalFault::TagTruncated)
        } else {
            prefixed(
                seq![text::lossy_text(d.subrange(at + 2, end))],
                tags_at(d, end, (n - 1) as nat),
            )
        }
    }
}

/// The short field at `at` and the offset behind it, or the fault that its
/// missing length or its missing bytes are.
pub open spec fn short_field_at(
    d: Seq<u8>,
    at: int,
    no_length: WalFault,
    no_bytes: WalFault,
) -> Result<(Seq<u8>, int), WalFault> {
    if d.len() < at + 2 {
        Err(no_length)
    } else {
        let end = at + 2 + codec::u16_at(d, at);
        if d.len() < end {
            Err(no_bytes)
        } else {
            Ok((d.subrange(at + 2, end), end))
        }
    }
}

/// Reads the tail of a record whose head is `base`, from `at` on.
pub open spec fn decoded_tail(base: WalRecordView, d: Seq<u8>, at: int) -> Result<
    WalRecordView,
    WalFault,
> {
    match base.record_type {
        WalRecordType::InsertWithEmbedding => if d.len() < at + 4 {
            Err(WalFault::EmbeddingLengthTruncated)
        } else {
            let n = codec::u32_at(d, at);
            if d.len() < at + 4 + 4 * n {
                Err(WalFault::EmbeddingTruncated)
            } else {
                Ok(WalRecordView { embedding: Some(words_at(d, at + 4, n as nat)), ..base })
            }
        },
        WalRecordType::SetTimestamp => if d.len() < at + 8 {
            Err(WalFault::TimestampTruncated)
        } else {
            Ok(WalRecordView { ts_timestamp: Some(codec::u64_at(d, at)), ..base })
        },
        WalRecordType::AddTags | WalRecordType::SetTags => if d.len() < at + 4 {
            Err(WalFault::TagCountTruncated)
        } else {
            match tags_at(d, at + 4, codec::u32_at(d, at) as nat) {
                Ok(tags) => Ok(WalRecordView { tags: Some(tags), ..base }),
                Err(e) => Err(e),
            }
        },
        WalRecordType::AddEdge | WalRecordType::RemoveEdge => match decoded_ends(d, at) {
            Ok((source, target, end)) => {
                let ends = WalRecordView {
                    edge_source: Some(source),
                    edge_target: Some(target),
                    ..base
                };
                if base.record_type == WalRecordType::RemoveEdge {
                    Ok(ends)
                } else {
                    decoded_label(ends, d, end)
                }
            },
            Err(e) => Err(e),
        },
        _ => Ok(base),
    }
}

/// The source and the target of an edge, and the offset behind them.
pub open spec fn decoded_ends(d: Seq<u8>, at: int) -> Result<(Seq<u8>, Seq<u8>, int), WalFault> {
    match short_field_at(
        d,
        at,
        WalFault::EdgeSourceLengthTruncated,
        WalFault::EdgeSourceTruncated,
    ) {
        Ok((source, mid)) => match short_field_at(
            d,
            mid,
            WalFault::EdgeTargetLengthTruncated,
            WalFault::EdgeTargetTruncated,
        ) {
            Ok((target, end)) => Ok((source, target, end)),
            Err(e) => Err(e),
        },
        Err(e) => Err(e),
    }
}

/// Reads the type and the weight of an edge; an empty type is none.
pub open spec fn decoded_label(base: WalRecordView, d: Seq<u8>, at: int) -> Result<
    WalRecordView,
    WalFault,
> {
    match short_field_at(
        d,
        at,
        WalFault::EdgeTypeLengthTruncated,
        WalFault::EdgeTypeTruncated,
    ) {
        Ok((label, end)) => if d.len() < end + 4 {
            Err(WalFault::EdgeWeightTruncated)
        } else {
            Ok(
                WalRecordView {
                    edge_type: if label.len() == 0 {
                        None
                    } else {
                        Some(text::lossy_text(label))
                    },
                    edge_weight: Some(codec::u32_at(d, end)),
                    ..base
                },
            )
        },
        Err(e) => Err(e),
    }
}

/// The record that bytes behind a checksum hold, or the first fault in them.
/// Bytes behind the record are ignored.
#[verifier::opaque]
pub open spec fn decoded_inner(d: Seq<u8>) -> Result<WalRecordView, WalFault> {
    if d.len() < 15 {
        Err(WalFault::TooShort)
    } else {
        match type_of(d[0]) {
            Err(e) => Err(e),
            Ok(record_type) => {
                let key_end = 11 + codec::u16_at(d, 9);
                if d.len() < key_end + 4 {
                    Err(WalFault::KeyTruncated)
                } else {
                    let value_end = key_end + 4 + codec::u32_at(d, key_end);
                    if d.len() < value_end {
                        Err(WalFault::ValueTruncated)
                    } else {
                        decoded_tail(
                            plain_record(
                                record_type,
                                d.subrange(11, key_end),
                                d.subrange(key_end + 4, value_end),
                                codec::u64_at(d, 1),
                            ),
                            d,
                            value_end,
                        )
                    }
                }
            },
        }
    }
}

/// The record that a checksum and the bytes behind it hold.
pub open spec fn decoded(d: Seq<u8>) -> Result<WalRecordView, WalFault> {
    let inner = d.skip(4);
    if d.len() < 8 {
        Err(WalFault::TooShort)
    } else if codec::u32_at(d, 0) != checksum::crc32(inner) {
        Err(
            WalFault::ChecksumMismatch {
                expected: codec::u32_at(d, 0),
                actual: checksum::crc32(inner),
            },
        )
    } else {
        decoded_inner(inner)
    }
}

/// What a decoding function returned, as views.
pub open spec fn decoding(r: Result<WalRecord, WalFault>) -> Result<WalRecordView, WalFault> {
    match r {
        Ok(record) => Ok(record@),
        Err(e) => Err(e),
    }
}

/// Reads the short field at `at`; the second result is the offset behind it.
fn get_short_field(data: &[u8], at: usize, no_length: WalFault, no_bytes: WalFault) -> (r: Result<
    (Vec<u8>, usize),
    WalFault,
>)
    requires
        at <= data@.len(),
    ensures
        short_field_at(data@, at as int, no_length, no_bytes) == (match r {
            Ok((b, end)) => Ok((b@, end as int)),
            Err(e) => Err(e),
        }),
        r matches Ok((b, end)) ==> end <= data@.len(),
{
    if data.len() - at < 2 {
        return Err(no_length);
    }
    let len: usize = codec::get_u16(data, at) as usize;
    if data.len() - at - 2 < len {
        return Err(no_bytes);
    }
    let end: usize = at + 2 + len;
    Ok((codec::copy_range(data, at + 2, end), end))
}

/// Reads `n` words from `at` on.
fn get_words(data: &[u8], at: usize, n: usize) -> (r: Vec<u32>)
    requires
        at + 4 * n <= data@.len(),
    ensures
        r@ == words_at(data@, at as int, n as nat),
{
    let mut words: Vec<u32> = Vec::new();
    let mut i: usize = 0;
    while i < n
        invariant
            i <= n,
            at + 4 * n <= data@.len(),
            words@ == words_at(data@, at as int, i as nat),
        decreases n - i,
    {
        assert(data@.len() == data.len());
        words.push(codec::get_u32(data, at + 4 * i));
        i = i + 1;
        assert(words@ =~= words_at(data@, at as int, i as nat));
    }
    words
}

/// Reads `n` tags from `at` on.
fn get_tags(data: &[u8], at: usize, n: u32) -> (r: Result<Vec<String>, WalFault>)
    requires
        at <= data@.len(),
    ensures
        tags_at(data@, at as int, n as nat) == (match r {
            Ok(tags) => Ok(text::texts(tags@)),
            Err(e) => Err(e),
        }),
{
    let mut tags: Vec<String> = Vec::new();
    let mut pos: usize = at;
    let mut left: u32 = n;
    proof {
        assert(text::texts(tags@) =~= Seq::empty());
        let all = tags_at(data@, at as int, n as nat);
        if all is Ok {
            assert(Seq::empty() + all->Ok_0 =~= all->Ok_0);
        }
    }
    while left > 0
        invariant
            pos <= data@.len(),
            tags_at(data@, at as int, n as nat) == prefixed(
                text::texts(tags@),
                tags_at(data@, pos as int, left as nat),
            ),
        decreases left,
    {
        if data.len() - pos < 2 {
            return Err(WalFault::TagLengthTruncated);
        }
        let len: usize = codec::get_u16(data, pos) as usize;
        if data.len() - pos - 2 < len {
            return Err(WalFault::TagTruncated);
        }
        let end: usize = pos + 2 + len;
        let tag = text::text_of(vstd::slice::slice_subrange(data, pos + 2, end));
        let ghost before = text::texts(tags@);
        tags.push(tag);
        proof {
            let rest = tags_at(data@, end as int, (left - 1) as nat);
            assert(text::texts(tags@) =~= before + seq![tag@]);
            if rest is Ok {
                assert(before + (seq![tag@] + rest->Ok_0) =~= text::texts(tags@) + rest->Ok_0);
            }
        }
        pos = end;
        left = left - 1;
    }
    proof {
        assert(text::texts(tags@) + Seq::<Seq<char>>::empty() =~= text::texts(tags@));
    }
    Ok(tags)
}

impl WalRecord {
    /// Reads the tail of a record from `at` on into `base`, which holds its head.
    fn decode_tail(base: WalRecord, data: &[u8], at: usize) -> (r: Result<WalRecord, WalFault>)
        requires
            at <= data@.len(),
            base@ == plain_record(base.record_type, base.key@, base.value@, base.timestamp),
        ensures
            decoding(r) == decoded_tail(base@, data@, at as int),
    {
        let mut record = base;
        match record.record_type {
            WalRecordType::InsertWithEmbedding => {
                if data.len() - at < 4 {
                    return Err(WalFault::EmbeddingLengthTruncated);
                }
                let n: u32 = codec::get_u32(data, at);
                if (data.len() - at - 4) / 4 < n as usize {
                    return Err(WalFault::EmbeddingTruncated);
                }
                record.embedding = Some(get_words(data, at + 4, n as usize));
                Ok(record)
            },
            WalRecordType::SetTimestamp => {
                if data.len() - at < 8 {
                    return Err(WalFault::TimestampTruncated);
                }
                record.ts_timestamp = Some(codec::get_u64(data, at));
                Ok(record)
            },
            WalRecordType::AddTags | WalRecordType::SetTags => {
                if data.len() - at < 4 {
                    return Err(WalFault::TagCountTruncated);
                }
                let n: u32 = codec::get_u32(data, at);
                match get_tags(data, at + 4, n) {
                    Ok(tags) => {
                        record.tags = Some(tags);
                        Ok(record)
                    },
                    Err(e) => Err(e),
                }
            },
            WalRecordType::AddEdge | WalRecordType::RemoveEdge => {
                let (source, mid) = match get_short_field(
                    data,
                    at,
                    WalFault::EdgeSourceLengthTruncated,
                    WalFault::EdgeSourceTruncated,
                ) {
                    Ok(field) => field,
                    Err(e) => return Err(e),
                };
                let (target, end) = match get_short_field(
                    data,
                    mid,
                    WalFault::EdgeTargetLengthTruncated,
                    WalFault::EdgeTargetTruncated,
                ) {
                    Ok(field) => field,
                    Err(e) => return Err(e),
                };
                record.edge_source = Some(source);
                record.edge_target = Some(target);
                if record.record_type == WalRecordType::RemoveEdge {
                    return Ok(record);
                }
                let (label, weight_at) = match get_short_field(
                    data,
                    end,
                    WalFault::EdgeTypeLengthTruncated,
                    WalFault::EdgeTypeTruncated,
                ) {
                    Ok(field) => field,
                    Err(e) => return Err(e),
                };
                if data.len() - weight_at < 4 {
                    return Err(WalFault::EdgeWeightTruncated);
                }
                if label.len() > 0 {
                    record.edge_type = Some(text::text_of(label.as_slice()));
                }
                record.edge_weight = Some(codec::get_u32(data, weight_at));
                Ok(record)
            },
            _ => Ok(record),
        }
    }

    /// Reads a record from the bytes behind its checksum.
    pub fn decode_inner(data: &[u8]) -> (r: Result<WalRecord, WalFault>)
        ensures
            decoding(r) == decoded_inner(data@),
    {
        reveal(decoded_inner);
        if data.len() < 15 {
            return Err(WalFault::TooShort);
        }
        let record_type = match WalRecordType::try_from(data[0]) {
            Ok(t) => t,
            Err(e) => return Err(e),
        };
        let timestamp: u64 = codec::get_u64(data, 1);
        let key_len: usize = codec::get_u16(data, 9) as usize;
        if data.len() - 15 < key_len {
            return Err(WalFault::KeyTruncated);
        }
        let key_end: usize = 11 + key_len;
        let value_len: u32 = codec::get_u32(data, key_end);
        if data.len() - key_end - 4 < value_len as usize {
            return Err(WalFault::ValueTruncated);
        }
        let value_end: usize = key_end + 4 + value_len as usize;
        let base = Self::plain(
            record_type,
            codec::copy_range(data, 11, key_end),
            codec::copy_range(data, key_end + 4, value_end),
            timestamp,
        );
        Self::decode_tail(base, data, value_end)
    }

    /// Reads a record from its checksum and the bytes behind it.
    pub fn decode(data: &[u8]) -> (r: Result<WalRecord, WalFault>)
        ensures
            decoding(r) == decoded(data@),
    {
        if data.len() < 8 {
            return Err(WalFault::TooShort);
        }
        let expected: u32 = codec::get_u32(data, 0);
        let inner = vstd::slice::slice_subrange(data, 4, data.len());
        assert(inner@ =~= data@.skip(4));
        let actual: u32 = crc32fast::hash(inner);
        if expected != actual {
            return Err(WalFault::ChecksumMismatch { expected, actual });
        }
        Self::decode_inner(inner)
    }
}

/// Whether every part of the record is within the range of its length field, and
/// a record of tags has tags.
pub open spec fn fits(r: WalRecordView) -> bool {
    &&& r.key.len() <= u16::MAX
    &&& r.value.len() <= u32::MAX
    &&& r.embedding matches Some(e) ==> e.len() <= u32::MAX
    &&& (r.record_type == WalRecordType::AddTags || r.record_type == WalRecordType::SetTags)
        ==> r.tags is Some
    &&& r.tags matches Some(t) ==> t.len() <= u32::MAX && tags_fit(t)
    &&& r.edge_source matches Some(b) ==> b.len() <= u16::MAX
    &&& r.edge_target matches Some(b) ==> b.len() <= u16::MAX
    &&& r.edge_type matches Some(t) ==> vstd::utf8::encode_utf8(t).len() <= u16::MAX
}

/// Whether each tag is within the range of its length field.
pub open spec fn tags_fit(tags: Seq<Seq<char>>) -> bool {
    forall|i: int|
        0 <= i < tags.len() ==> vstd::utf8::encode_utf8(#[trigger] tags[i]).len() <= u16::MAX
}

/// The record that is read back of `r`: it has the parts that belong to its type,
/// absent ones filled in, and no others.
#[verifier::opaque]
pub open spec fn canonical(r: WalRecordView) -> WalRecordView {
    let base = plain_record(r.record_type, r.key, r.value, r.timestamp);
    match r.record_type {
        WalRecordType::InsertWithEmbedding => WalRecordView {
            embedding: Some(r.embedding.unwrap_or(Seq::empty())),
            ..base
        },
        WalRecordType::SetTimestamp => WalRecordView {
            ts_timestamp: Some(r.ts_timestamp.unwrap_or(0)),
            ..base
        },
        WalRecordType::AddTags | WalRecordType::SetTags => WalRecordView { tags: r.tags, ..base },
        WalRecordType::AddEdge => WalRecordView {
            edge_source: Some(r.edge_source.unwrap_or(Seq::empty())),
            edge_target: Some(r.edge_target.unwrap_or(Seq::empty())),
            edge_type: if r.edge_type == Some(Seq::<char>::empty()) {
                None
            } else {
                r.edge_type
            },
            edge_weight: Some(r.edge_weight.unwrap_or(UNIT_WEIGHT)),
            ..base
        },
        WalRecordType::RemoveEdge => WalRecordView {
            edge_source: Some(r.edge_source.unwrap_or(Seq::empty())),
            edge_target: Some(r.edge_target.unwrap_or(Seq::empty())),
            ..base
        },
        _ => base,
    }
}

proof fn lemma_short_field_at(d: Seq<u8>, at: int, b: Seq<u8>, no_length: WalFault, no_bytes: WalFault)
    requires
        0 <= at,
        at + 2 + b.len() <= d.len(),
        b.len() <= u16::MAX,
        d.subrange(at, at + 2 + b.len()) == short_field(b),
    ensures
        short_field_at(d, at, no_length, no_bytes) == Ok::<(Seq<u8>, int), WalFault>(
            (b, at + 2 + b.len()),
        ),
{
    let f = d.subrange(at, at + 2 + b.len());
    assert(d.subrange(at, at + 2) =~= f.subrange(0, 2));
    assert(f.subrange(0, 2) =~= codec::u16_le(b.len() as u16));
    codec::lemma_u16_at(d, at, b.len() as u16);
    assert(d.subrange(at + 2, at + 2 + b.len()) =~= f.subrange(2, f.len() as int));
    assert(f.subrange(2, f.len() as int) =~= b);
}

proof fn lemma_words_at(d: Seq<u8>, at: int, words: Seq<u32>)
    requires
        0 <= at,
        at + word_bytes(words).len() <= d.len(),
        d.subrange(at, at + word_bytes(words).len()) == word_bytes(words),
    ensures
        word_bytes(words).len() == 4 * words.len(),
        words_at(d, at, words.len()) == words,
    decreases words.len(),
{
    if words.len() > 0 {
        let init = words.drop_last();
        let all = word_bytes(words);
        let n = word_bytes(init).len() as int;
        assert(d.subrange(at, at + n) =~= all.subrange(0, n));
        assert(all.subrange(0, n) =~= word_bytes(init));
        lemma_words_at(d, at, init);
        assert(d.subrange(at + n, at + n + 4) =~= all.subrange(n, n + 4));
        assert(all.subrange(n, n + 4) =~= codec::u32_le(words.last()));
        codec::lemma_u32_at(d, at + n, words.last());
        assert forall|i: int| 0 <= i < words.len() implies words_at(d, at, words.len())[i]
            == words[i] by {
            if i < init.len() {
                assert(words_at(d, at, init.len())[i] == init[i]);
            }
        }
    }
    assert(words_at(d, at, words.len()) =~= words);
}

proof fn lemma_tag_bytes_first(tags: Seq<Seq<char>>)
    requires
        tags.len() > 0,
    ensures
        tag_bytes(tags) == short_field(vstd::utf8::encode_utf8(tags[0])) + tag_bytes(tags.skip(1)),
    decreases tags.len(),
{
    if tags.len() == 1 {
        assert(tags.drop_last() =~= Seq::empty());
        assert(tags.skip(1) =~= Seq::empty());
        assert(tag_bytes(tags) =~= short_field(vstd::utf8::encode_utf8(tags[0])) + tag_bytes(
            tags.skip(1),
        ));
    } else {
        let init = tags.drop_last();
        lemma_tag_bytes_first(init);
        assert(init.skip(1) =~= tags.skip(1).drop_last());
        assert(tags.skip(1).last() == tags.last());
        assert(tag_bytes(tags) =~= short_field(vstd::utf8::encode_utf8(tags[0])) + tag_bytes(
            tags.skip(1),
        ));
    }
}

proof fn lemma_tags_at(d: Seq<u8>, at: int, tags: Seq<Seq<char>>)
    requires
        0 <= at,
        at + tag_bytes(tags).len() <= d.len(),
        d.subrange(at, at + tag_bytes(tags).len()) == tag_bytes(tags),
        tags_fit(tags),
    ensures
        tags_at(d, at, tags.len()) == Ok::<Seq<Seq<char>>, WalFault>(tags),
    decreases tags.len(),
{
    if tags.len() == 0 {
        assert(tags =~= Seq::empty());
    } else {
        lemma_tag_bytes_first(tags);
        let b = vstd::utf8::encode_utf8(tags[0]);
        let f = short_field(b);
        let rest = tags.skip(1);
        let all = tag_bytes(tags);
        let end = at + f.len();
        assert(d.subrange(at, at + 2 + b.len()) =~= all.subrange(0, f.len() as int));
        assert(all.subrange(0, f.len() as int) =~= f);
        lemma_short_field_at(
            d,
            at,
            b,
            WalFault::TagLengthTruncated,
            WalFault::TagTruncated,
        );
        assert(d.subrange(end, end + tag_bytes(rest).len()) =~= all.subrange(
            f.len() as int,
            all.len() as int,
        ));
        assert(all.subrange(f.len() as int, all.len() as int) =~= tag_bytes(rest));
        assert forall|i: int| 0 <= i < rest.len() implies vstd::utf8::encode_utf8(
            #[trigger] rest[i],
        ).len() <= u16::MAX by {
            assert(rest[i] == tags[i + 1]);
        }
        lemma_tags_at(d, end, rest);
        text::lemma_text_roundtrip(tags[0]);
        assert(seq![tags[0]] + rest =~= tags);
        assert(d.subrange(at + 2, end) =~= b);
    }
}

/// Where the pieces of a concatenation stand.
proof fn lemma_four_pieces(d: Seq<u8>, at: int, a: Seq<u8>, b: Seq<u8>, c: Seq<u8>, e: Seq<u8>)
    requires
        0 <= at <= d.len(),
        d.subrange(at, d.len() as int) == a + b + c + e,
    ensures
        at + a.len() + b.len() + c.len() + e.len() == d.len(),
        d.subrange(at, at + a.len()) == a,
        d.subrange(at + a.len(), at + a.len() + b.len()) == b,
        d.subrange(at + a.len() + b.len(), at + a.len() + b.len() + c.len()) == c,
        d.subrange(at + a.len() + b.len() + c.len(), d.len() as int) == e,
{
    let t = a + b + c + e;
    let x = a.len() as int;
    let y = x + b.len();
    let z = y + c.len();
    assert(t.subrange(0, x) =~= a);
    assert(t.subrange(x, y) =~= b);
    assert(t.subrange(y, z) =~= c);
    assert(t.subrange(z, t.len() as int) =~= e);
    assert(d.subrange(at, at + x) =~= t.subrange(0, x));
    assert(d.subrange(at + x, at + y) =~= t.subrange(x, y));
    assert(d.subrange(at + y, at + z) =~= t.subrange(y, z));
    assert(d.subrange(at + z, d.len() as int) =~= t.subrange(z, t.len() as int));
}

/// The two ends of an edge read back as they were written.
proof fn lemma_ends(d: Seq<u8>, at: int, source: Seq<u8>, target: Seq<u8>, c: Seq<u8>, e: Seq<u8>)
    requires
        source.len() <= u16::MAX,
        target.len() <= u16::MAX,
        0 <= at <= d.len(),
        d.subrange(at, d.len() as int) == short_field(source) + short_field(target) + c + e,
    ensures
        decoded_ends(d, at) == Ok::<(Seq<u8>, Seq<u8>, int), WalFault>(
            (source, target, at + 4 + source.len() + target.len()),
        ),
        at + 4 + source.len() + target.len() + c.len() + e.len() == d.len(),
        d.subrange(
            at + 4 + source.len() + target.len(),
            at + 4 + source.len() + target.len() + c.len(),
        ) == c,
        d.subrange(at + 4 + source.len() + target.len() + c.len(), d.len() as int) == e,
{
    lemma_four_pieces(d, at, short_field(source), short_field(target), c, e);
    lemma_short_field_at(
        d,
        at,
        source,
        WalFault::EdgeSourceLengthTruncated,
        WalFault::EdgeSourceTruncated,
    );
    lemma_short_field_at(
        d,
        at + 2 + source.len(),
        target,
        WalFault::EdgeTargetLengthTruncated,
        WalFault::EdgeTargetTruncated,
    );
}

/// Only the empty text is written as no bytes.
proof fn lemma_empty_text(t: Seq<char>)
    ensures
        vstd::utf8::encode_utf8(t).len() == 0 <==> t.len() == 0,
{
    text::lemma_text_roundtrip(t);
    let none = Seq::<char>::empty();
    text::lemma_text_roundtrip(none);
    assert(vstd::utf8::encode_utf8(none) =~= Seq::<u8>::empty());
    if t.len() == 0 {
        assert(t =~= none);
    }
    if vstd::utf8::encode_utf8(t).len() == 0 {
        assert(vstd::utf8::encode_utf8(t) =~= Seq::<u8>::empty());
    }
}

/// The edge parts of a record read back as they were written.
proof fn lemma_edge_tail(r: WalRecordView, d: Seq<u8>, at: int)
    requires
        r.record_type == WalRecordType::AddEdge || r.record_type == WalRecordType::RemoveEdge,
        fits(r),
        0 <= at <= d.len(),
        d.subrange(at, d.len() as int) == tail_bytes(r),
    ensures
        decoded_tail(plain_record(r.record_type, r.key, r.value, r.timestamp), d, at) == Ok::<
            WalRecordView,
            WalFault,
        >(canonical(r)),
{
    reveal(canonical);
    let source = r.edge_source.unwrap_or(Seq::empty());
    let target = r.edge_target.unwrap_or(Seq::empty());
    let end = at + 4 + source.len() + target.len();
    let none = Seq::<u8>::empty();
    if r.record_type == WalRecordType::AddEdge {
        let label = r.edge_type.unwrap_or(Seq::empty());
        let b = vstd::utf8::encode_utf8(label);
        let w = r.edge_weight.unwrap_or(UNIT_WEIGHT);
        lemma_empty_text(label);
        lemma_ends(d, at, source, target, short_field(b), codec::u32_le(w));
        lemma_short_field_at(
            d,
            end,
            b,
            WalFault::EdgeTypeLengthTruncated,
            WalFault::EdgeTypeTruncated,
        );
        assert(d.subrange(end + 2 + b.len(), end + 2 + b.len() + 4) =~= codec::u32_le(w));
        codec::lemma_u32_at(d, end + 2 + b.len(), w);
        text::lemma_text_roundtrip(label);
        if b.len() == 0 {
            assert(label =~= Seq::<char>::empty());
        }
    } else {
        assert(tail_bytes(r) =~= short_field(source) + short_field(target) + none + none);
        lemma_ends(d, at, source, target, none, none);
    }
}

/// A count and the words behind it read back as they were written.
proof fn lemma_counted_words(d: Seq<u8>, at: int, e: Seq<u32>)
    requires
        e.len() <= u32::MAX,
        0 <= at <= d.len(),
        d.subrange(at, d.len() as int) == codec::u32_le(e.len() as u32) + word_bytes(e),
    ensures
        d.len() == at + 4 + 4 * e.len(),
        codec::u32_at(d, at) == e.len(),
        words_at(d, at + 4, e.len()) == e,
{
    let count = codec::u32_le(e.len() as u32);
    assert(d.len() == at + count.len() + word_bytes(e).len()) by {
        assert(d.subrange(at, d.len() as int).len() == (count + word_bytes(e)).len());
    }
    codec::lemma_two_pieces(d, at, count, word_bytes(e));
    codec::lemma_u32_at(d, at, e.len() as u32);
    lemma_words_at(d, at + 4, e);
}

/// A count and the tags behind it read back as they were written.
proof fn lemma_counted_tags(d: Seq<u8>, at: int, tags: Seq<Seq<char>>)
    requires
        tags.len() <= u32::MAX,
        tags_fit(tags),
        0 <= at <= d.len(),
        d.subrange(at, d.len() as int) == codec::u32_le(tags.len() as u32) + tag_bytes(tags),
    ensures
        d.len() >= at + 4,
        codec::u32_at(d, at) == tags.len(),
        tags_at(d, at + 4, tags.len()) == Ok::<Seq<Seq<char>>, WalFault>(tags),
{
    let count = codec::u32_le(tags.len() as u32);
    assert(d.len() == at + count.len() + tag_bytes(tags).len()) by {
        assert(d.subrange(at, d.len() as int).len() == (count + tag_bytes(tags)).len());
    }
    codec::lemma_two_pieces(d, at, count, tag_bytes(tags));
    codec::lemma_u32_at(d, at, tags.len() as u32);
    lemma_tags_at(d, at + 4, tags);
}

/// A tail of eight bytes reads back as the integer it was written from.
proof fn lemma_lone_u64(d: Seq<u8>, at: int, x: u64)
    requires
        0 <= at <= d.len(),
        d.subrange(at, d.len() as int) == codec::u64_le(x),
    ensures
        d.len() == at + 8,
        codec::u64_at(d, at) == x,
{
    assert(d.subrange(at, d.len() as int).len() == 8);
    codec::lemma_u64_at(d, at, x);
}

/// The tail of a record reads back as it was written.
proof fn lemma_tail(r: WalRecordView, d: Seq<u8>, at: int)
    requires
        fits(r),
        0 <= at <= d.len(),
        d.subrange(at, d.len() as int) == tail_bytes(r),
    ensures
        decoded_tail(plain_record(r.record_type, r.key, r.value, r.timestamp), d, at) == Ok::<
            WalRecordView,
            WalFault,
        >(canonical(r)),
{
    reveal(canonical);
    match r.record_type {
        WalRecordType::InsertWithEmbedding => {
            lemma_counted_words(d, at, r.embedding.unwrap_or(Seq::empty()));
        },
        WalRecordType::SetTimestamp => {
            lemma_lone_u64(d, at, r.ts_timestamp.unwrap_or(0));
        },
        WalRecordType::AddTags | WalRecordType::SetTags => {
            lemma_counted_tags(d, at, r.tags->Some_0);
        },
        WalRecordType::AddEdge | WalRecordType::RemoveEdge => {
            lemma_edge_tail(r, d, at);
        },
        _ => {},
    }
}

/// Where the pieces of a record stand.
proof fn lemma_head_pieces(
    d: Seq<u8>,
    a: Seq<u8>,
    b: Seq<u8>,
    c: Seq<u8>,
    k: Seq<u8>,
    l: Seq<u8>,
    v: Seq<u8>,
    t: Seq<u8>,
)
    requires
        a.len() == 1,
        b.len() == 8,
        c.len() == 2,
        l.len() == 4,
        d == a + b + (c + k) + l + v + t,
    ensures
        d.len() == 15 + k.len() + v.len() + t.len(),
        d[0] == a[0],
        d.subrange(1, 9) == b,
        d.subrange(9, 11) == c,
        d.subrange(11, 11int + k.len()) == k,
        d.subrange(11int + k.len(), 15int + k.len()) == l,
        d.subrange(15int + k.len(), 15int + k.len() + v.len()) == v,
        d.subrange(15int + k.len() + v.len(), d.len() as int) == t,
{
    assert(d.subrange(1, 9) =~= b);
    assert(d.subrange(9, 11) =~= c);
    assert(d.subrange(11, 11int + k.len()) =~= k);
    assert(d.subrange(11int + k.len(), 15int + k.len()) =~= l);
    assert(d.subrange(15int + k.len(), 15int + k.len() + v.len()) =~= v);
    assert(d.subrange(15int + k.len() + v.len(), d.len() as int) =~= t);
}

/// The parts of a head read back as they were written.
proof fn lemma_head_fields(
    d: Seq<u8>,
    record_type: WalRecordType,
    timestamp: u64,
    key: Seq<u8>,
    value: Seq<u8>,
    tail: Seq<u8>,
)
    requires
        key.len() <= u16::MAX,
        value.len() <= u32::MAX,
        d == seq![record_type.code()] + codec::u64_le(timestamp) + short_field(key)
            + codec::u32_le(value.len() as u32) + value + tail,
    ensures
        d.len() == 15 + key.len() + value.len() + tail.len(),
        type_of(d[0]) == Ok::<WalRecordType, WalFault>(record_type),
        codec::u64_at(d, 1) == timestamp,
        codec::u16_at(d, 9) == key.len(),
        d.subrange(11, 11int + key.len()) == key,
        codec::u32_at(d, 11int + key.len()) == value.len(),
        d.subrange(15int + key.len(), 15int + key.len() + value.len()) == value,
        d.subrange(15int + key.len() + value.len(), d.len() as int) == tail,
{
    lemma_head_pieces(
        d,
        seq![record_type.code()],
        codec::u64_le(timestamp),
        codec::u16_le(key.len() as u16),
        key,
        codec::u32_le(value.len() as u32),
        value,
        tail,
    );
    codec::lemma_u64_at(d, 1, timestamp);
    codec::lemma_u16_at(d, 9, key.len() as u16);
    codec::lemma_u32_at(d, 11int + key.len(), value.len() as u32);
}

/// A record reads back from the bytes it was written as, its absent parts filled
/// in.
#[verifier::spinoff_prover]
pub proof fn law_inner_roundtrip(r: WalRecordView)
    requires
        fits(r),
    ensures
        decoded_inner(inner_bytes(r)) == Ok::<WalRecordView, WalFault>(canonical(r)),
{
    let d = inner_bytes(r);
    let tail = tail_bytes(r);
    let value_end = 15int + r.key.len() + r.value.len();
    assert(d == head_bytes(r) + tail) by {
        reveal(inner_bytes);
    }
    lemma_head_fields(d, r.record_type, r.timestamp, r.key, r.value, tail);
    lemma_tail(r, d, value_end);
    reveal(decoded_inner);
}

/// Every record has the parts of its head.
pub proof fn lemma_inner_len(r: WalRecordView)
    ensures
        inner_bytes(r).len() >= 15,
{
    reveal(inner_bytes);
}

/// Where the pieces of a frame stand.
pub proof fn lemma_framed(inner: Seq<u8>)
    ensures
        framed(inner).len() == 8 + inner.len(),
        framed(inner).subrange(0, 4) == codec::u32_le(inner.len() as u32),
        framed(inner).skip(4).subrange(0, 4) == codec::u32_le(checksum::crc32(inner)),
        framed(inner).skip(4).skip(4) == inner,
{
    let f = framed(inner);
    assert(f.subrange(0, 4) =~= codec::u32_le(inner.len() as u32));
    assert(f.skip(4).subrange(0, 4) =~= codec::u32_le(checksum::crc32(inner)));
    assert(f.skip(4).skip(4) =~= inner);
}

/// A record reads back from its checksum and the bytes behind it.
pub proof fn law_record_roundtrip(r: WalRecordView)
    requires
        fits(r),
    ensures
        decoded(record_bytes(r).skip(4)) == Ok::<WalRecordView, WalFault>(canonical(r)),
{
    let inner = inner_bytes(r);
    lemma_inner_len(r);
    lemma_framed(inner);
    codec::lemma_u32_at(record_bytes(r).skip(4), 0, checksum::crc32(inner));
    law_inner_roundtrip(r);
}

/// Whether bytes are a checksum and what it is the checksum of.
pub open spec fn checked(d: Seq<u8>) -> bool {
    d.len() >= 8 && codec::u32_at(d, 0) == checksum::crc32(d.skip(4))
}

/// One changed byte, of the checksum or behind it, is found: the bytes are refused.
pub proof fn law_changed_bytes_are_refused(d: Seq<u8>, at: int, byte: u8)
    requires
        checked(d),
        0 <= at < d.len(),
        byte != d[at],
    ensures
        decoded(d.update(at, byte)) == Err::<WalRecordView, WalFault>(
            WalFault::ChecksumMismatch {
                expected: codec::u32_at(d.update(at, byte), 0),
                actual: checksum::crc32(d.update(at, byte).skip(4)),
            },
        ),
{
    let changed = d.update(at, byte);
    if at < 4 {
        assert(changed.skip(4) =~= d.skip(4));
        codec::lemma_u32_changed(d, 0, at, byte);
    } else {
        assert(changed.skip(4) =~= d.skip(4).update(at - 4, byte));
        checksum::law_changed_byte(d.skip(4), at - 4, byte);
    }
}

/// A record in which one byte behind the length was changed is refused.
pub proof fn law_changed_record_is_refused(r: WalRecordView, at: int, byte: u8)
    requires
        4 <= at < record_bytes(r).len(),
        byte != record_bytes(r)[at],
    ensures
        decoded(record_bytes(r).update(at, byte).skip(4)) matches Err(
            WalFault::ChecksumMismatch { .. },
        ),
{
    let inner = inner_bytes(r);
    let b = record_bytes(r);
    lemma_inner_len(r);
    lemma_framed(inner);
    codec::lemma_u32_at(b.skip(4), 0, checksum::crc32(inner));
    assert(b.update(at, byte).skip(4) =~= b.skip(4).update(at - 4, byte));
    law_changed_bytes_are_refused(b.skip(4), at - 4, byte);
}

/// The byte of each type, and that no other byte stands for one.
pub proof fn law_type_codes(t: WalRecordType, byte: u8)
    ensures
        t is Insert ==> t.code() == 1,
        t is Delete ==> t.code() == 2,
        t is InsertWithEmbedding ==> t.code() == 3,
        t is SetTimestamp ==> t.code() == 4,
        t is AddTags ==> t.code() == 5,
        t is AddEdge ==> t.code() == 6,
        t is SetTags ==> t.code() == 7,
        t is RemoveEdge ==> t.code() == 8,
        t is RemoveTimestamp ==> t.code() == 9,
        t is RemoveTags ==> t.code() == 10,
        t is RemoveVector ==> t.code() == 11,
        type_of(t.code()) == Ok::<WalRecordType, WalFault>(t),
        1 <= byte <= 11 ==> (type_of(byte) matches Ok(u) && u.code() == byte),
        !(1 <= byte <= 11) ==> type_of(byte) == Err::<WalRecordType, WalFault>(
            WalFault::InvalidType(byte),
        ),
{
}

/// What a record says is what its fields hold.
pub proof fn law_record_view(r: WalRecord)
    ensures
        r@.record_type == r.record_type,
        r@.timestamp == r.timestamp,
        r@.key == r.key@,
        r@.value == r.value@,
        r@.ts_timestamp == r.ts_timestamp,
        r@.edge_weight == r.edge_weight,
        r.embedding is None <==> r@.embedding is None,
        r.embedding matches Some(e) ==> r@.embedding == Some(e@),
        r.tags is None <==> r@.tags is None,
        r.tags matches Some(t) ==> (r@.tags matches Some(all) && all.len() == t@.len() && forall|
            i: int,
        |
            0 <= i < t@.len() ==> #[trigger] all[i] == t@[i]@),
        r.edge_source is None <==> r@.edge_source is None,
        r.edge_source matches Some(b) ==> r@.edge_source == Some(b@),
        r.edge_target is None <==> r@.edge_target is None,
        r.edge_target matches Some(b) ==> r@.edge_target == Some(b@),
        r.edge_type is None <==> r@.edge_type is None,
        r.edge_type matches Some(t) ==> r@.edge_type == Some(t@),
{
    match r.tags {
        Some(t) => text::law_texts(t@),
        None => {},
    }
}

/// A plain record holds its type, key, value and timestamp, and nothing else.
pub proof fn law_plain_record(t: WalRecordType, key: Seq<u8>, value: Seq<u8>, timestamp: u64)
    ensures
        ({
            let r = plain_record(t, key, value, timestamp);
            &&& r.record_type == t
            &&& r.key == key
            &&& r.value == value
            &&& r.timestamp == timestamp
            &&& r.embedding is None
            &&& r.ts_timestamp is None
            &&& r.tags is None
            &&& r.edge_source is None
            &&& r.edge_target is None
            &&& r.edge_type is None
            &&& r.edge_weight is None
        }),
{
}

/// The record of an edge holds its ends, its type and its weight, and no key, value or
/// index data.
pub proof fn law_edge_record(
    t: WalRecordType,
    source: Seq<u8>,
    target: Seq<u8>,
    edge_type: Option<Seq<char>>,
    weight: Option<u32>,
    timestamp: u64,
)
    ensures
        ({
            let r = edge_record(t, source, target, edge_type, weight, timestamp);
            &&& r.record_type == t
            &&& r.key.len() == 0
            &&& r.value.len() == 0
            &&& r.timestamp == timestamp
            &&& r.edge_source == Some(source)
            &&& r.edge_target == Some(target)
            &&& r.edge_type == edge_type
            &&& r.edge_weight == weight
            &&& r.embedding is None
            &&& r.ts_timestamp is None
            &&& r.tags is None
        }),
{
}

/// What is read back of a record: its type, timestamp, key and value as they were
/// written, and the parts that belong to its type. A weight that is not given is 1, and
/// an edge type of no characters is none.
pub proof fn law_canonical(r: WalRecordView)
    ensures
        ({
            let c = canonical(r);
            &&& c.record_type == r.record_type
            &&& c.timestamp == r.timestamp
            &&& c.key == r.key
            &&& c.value == r.value
            &&& r.record_type is InsertWithEmbedding && r.embedding is Some ==> c.embedding
                == r.embedding
            &&& r.record_type is SetTimestamp && r.ts_timestamp is Some ==> c.ts_timestamp
                == r.ts_timestamp
            &&& r.record_type is AddTags || r.record_type is SetTags ==> c.tags == r.tags
            &&& r.record_type is AddEdge || r.record_type is RemoveEdge ==> {
                &&& r.edge_source is Some ==> c.edge_source == r.edge_source
                &&& r.edge_target is Some ==> c.edge_target == r.edge_target
            }
            &&& r.record_type is AddEdge ==> {
                &&& r.edge_weight is Some ==> c.edge_weight == r.edge_weight
                &&& r.edge_weight is None ==> c.edge_weight == Some(0x3F80_0000u32)
                &&& (r.edge_type matches Some(t) && t.len() > 0) ==> c.edge_type == r.edge_type
                &&& (r.edge_type matches Some(t) ==> t.len() == 0) ==> c.edge_type is None
            }
            &&& r.record_type !is InsertWithEmbedding ==> c.embedding is None
            &&& r.record_type !is SetTimestamp ==> c.ts_timestamp is None
            &&& r.record_type !is AddTags && r.record_type !is SetTags ==> c.tags is None
            &&& r.record_type !is AddEdge && r.record_type !is RemoveEdge ==> c.edge_source is None
                && c.edge_target is None
            &&& r.record_type !is AddEdge ==> c.edge_type is None && c.edge_weight is None
        }),
{
    reveal(canonical);
    match r.edge_type {
        Some(t) => {
            if t.len() == 0 {
                assert(t =~= Seq::<char>::empty());
            }
        },
        None => {},
    }
}

/// Where the parts of a record stand in the log: the length of what follows the
/// checksum, the checksum of that, the byte of the type, the timestamp, the key behind
/// its length and the value behind its length.
pub proof fn law_record_layout(r: WalRecordView)
    requires
        fits(r),
        record_bytes(r).len() <= u32::MAX,
    ensures
        ({
            let d = record_bytes(r);
            let k = r.key.len() as int;
            let v = r.value.len() as int;
            &&& d.len() >= 23 + k + v
            &&& codec::u32_at(d, 0) == d.len() - 8
            &&& codec::u32_at(d, 4) == checksum::crc32(d.skip(8))
            &&& d[8] == r.record_type.code()
            &&& codec::u64_at(d, 9) == r.timestamp
            &&& codec::u16_at(d, 17) == k
            &&& d.subrange(19, 19 + k) == r.key
            &&& codec::u32_at(d, 19 + k) == v
            &&& d.subrange(23 + k, 23 + k + v) == r.value
        }),
{
    let d = record_bytes(r);
    let inner = inner_bytes(r);
    let k = r.key.len() as int;
    let v = r.value.len() as int;
    assert(inner == head_bytes(r) + tail_bytes(r)) by {
        reveal(inner_bytes);
    }
    lemma_framed(inner);
    lemma_head_fields(inner, r.record_type, r.timestamp, r.key, r.value, tail_bytes(r));
    codec::lemma_u32_at(d, 0, inner.len() as u32);
    assert(d.subrange(4, 8) =~= d.skip(4).subrange(0, 4));
    codec::lemma_u32_at(d, 4, checksum::crc32(inner));
    assert(d.skip(8) =~= inner);
    assert forall|i: int| 0 <= i < inner.len() implies #[trigger] inner[i] == d[8 + i] by {
        assert(d.skip(8)[i] == d[8 + i]);
    }
    assert(inner[0] == r.record_type.code());
    codec::law_read_little_endian(d, 9);
    codec::law_read_little_endian(inner, 1);
    codec::law_read_little_endian(d, 17);
    codec::law_read_little_endian(inner, 9);
    codec::law_read_little_endian(d, 19 + k);
    codec::law_read_little_endian(inner, 11 + k);
    assert(d.subrange(19, 19 + k) =~= inner.subrange(11, 11 + k));
    assert(d.subrange(23 + k, 23 + k + v) =~= inner.subrange(15 + k, 15 + k + v));
}

/// Where the parts of a record's tail stand: the components of an embedding behind their
/// number, a timestamp, the tags behind their number, or the ends, the type and the
/// weight of an edge.
pub proof fn law_tail_layout(r: WalRecordView, i: int)
    requires
        fits(r),
    ensures
        ({
            let d = tail_bytes(r);
            &&& r.record_type is InsertWithEmbedding ==> (r.embedding matches Some(e) ==> {
                &&& d.len() == 4 + 4 * e.len()
                &&& codec::u32_at(d, 0) == e.len()
                &&& 0 <= i < e.len() ==> codec::u32_at(d, 4 + 4 * i) == e[i]
            })
            &&& r.record_type is SetTimestamp ==> (r.ts_timestamp matches Some(t) ==> d.len() == 8
                && codec::u64_at(d, 0) == t)
            &&& r.record_type is AddTags || r.record_type is SetTags ==> codec::u32_at(d, 0)
                == r.tags->Some_0.len()
            &&& r.record_type is RemoveEdge ==> (r.edge_source matches Some(s) ==> (
            r.edge_target matches Some(t) ==> {
                &&& d.len() == 4 + s.len() + t.len()
                &&& codec::u16_at(d, 0) == s.len()
                &&& d.subrange(2, 2int + s.len()) == s
                &&& codec::u16_at(d, 2int + s.len()) == t.len()
                &&& d.subrange(4int + s.len(), 4int + s.len() + t.len()) == t
            }))
            &&& r.record_type is Insert || r.record_type is Delete || r.record_type is RemoveVector
                || r.record_type is RemoveTags || r.record_type is RemoveTimestamp ==> d.len() == 0
        }),
{
    let d = tail_bytes(r);
    if r.record_type is InsertWithEmbedding && r.embedding is Some {
        let e = r.embedding->Some_0;
        let bytes = word_bytes(e);
        assert(d.subrange(0, 4) =~= codec::u32_le(e.len() as u32));
        codec::lemma_u32_at(d, 0, e.len() as u32);
        assert(d.subrange(4, 4int + bytes.len()) =~= bytes);
        lemma_words_at(d, 4, e);
        if 0 <= i < e.len() {
            assert(words_at(d, 4, e.len())[i] == e[i]);
        }
    }
    if r.record_type is SetTimestamp && r.ts_timestamp is Some {
        assert(d.subrange(0, 8) =~= codec::u64_le(r.ts_timestamp->Some_0));
        codec::lemma_u64_at(d, 0, r.ts_timestamp->Some_0);
    }
    if r.record_type is AddTags || r.record_type is SetTags {
        let t = r.tags->Some_0;
        assert(d.subrange(0, 4) =~= codec::u32_le(t.len() as u32));
        codec::lemma_u32_at(d, 0, t.len() as u32);
    }
    if r.record_type is RemoveEdge && r.edge_source is Some && r.edge_target is Some {
        let s = r.edge_source->Some_0;
        let t = r.edge_target->Some_0;
        let n = s.len() as int;
        assert(d.subrange(0, 2) =~= codec::u16_le(s.len() as u16));
        codec::lemma_u16_at(d, 0, s.len() as u16);
        assert(d.subrange(2, 2 + n) =~= s);
        assert(d.subrange(2 + n, 4 + n) =~= codec::u16_le(t.len() as u16));
        codec::lemma_u16_at(d, 2 + n, t.len() as u16);
        assert(d.subrange(4 + n, 4 + n + t.len()) =~= t);
    }
}

/// Why bytes behind a checksum are refused: they are too short for a head, start with a
/// byte that is no type, or end before the key or the value does. What is read of the
/// head is what stands there.
pub proof fn law_decoded_head(d: Seq<u8>)
    ensures
        d.len() < 15 ==> decoded_inner(d) == Err::<WalRecordView, WalFault>(WalFault::TooShort),
        d.len() >= 15 && !(1 <= d[0] <= 11) ==> decoded_inner(d) == Err::<WalRecordView, WalFault>(
            WalFault::InvalidType(d[0]),
        ),
        d.len() >= 15 && 1 <= d[0] <= 11 ==> {
            let key_end = 11 + codec::u16_at(d, 9);
            let value_end = key_end + 4 + codec::u32_at(d, key_end);
            &&& d.len() < key_end + 4 ==> decoded_inner(d) == Err::<WalRecordView, WalFault>(
                WalFault::KeyTruncated,
            )
            &&& key_end + 4 <= d.len() < value_end ==> decoded_inner(d) == Err::<
                WalRecordView,
                WalFault,
            >(WalFault::ValueTruncated)
            &&& decoded_inner(d) matches Ok(r) ==> {
                &&& d.len() >= value_end
                &&& r.record_type.code() == d[0]
                &&& r.timestamp == codec::u64_at(d, 1)
                &&& r.key == d.subrange(11, key_end)
                &&& r.value == d.subrange(key_end + 4, value_end)
            }
        },
{
    reveal(decoded_inner);
}

/// Why bytes are refused before their parts are read: they are too short for a checksum
/// and a head, or the checksum is not that of what follows it.
pub proof fn law_decoded_checksum(d: Seq<u8>)
    ensures
        d.len() < 8 ==> decoded(d) == Err::<WalRecordView, WalFault>(WalFault::TooShort),
        d.len() >= 8 && codec::u32_at(d, 0) != checksum::crc32(d.skip(4)) ==> decoded(d) == Err::<
            WalRecordView,
            WalFault,
        >(
            WalFault::ChecksumMismatch {
                expected: codec::u32_at(d, 0),
                actual: checksum::crc32(d.skip(4)),
            },
        ),
        d.len() >= 8 && codec::u32_at(d, 0) == checksum::crc32(d.skip(4)) ==> decoded(d)
            == decoded_inner(d.skip(4)),
{
}

} // verus!
