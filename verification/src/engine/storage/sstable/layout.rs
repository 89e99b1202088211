//! The layout of a table file.
//!
//! ```text
//! [header: 64 bytes][data blocks][index block][bloom filter][footer: 32 bytes]
//! ```
use crate::engine::codec;
use crate::engine::order;
use vstd::prelude::*;

verus! {

/// The first bytes of every table file: "RMST".
pub const MAGIC: [u8; 4] = [0x52, 0x4D, 0x53, 0x54];

/// The version of the layout.
pub const VERSION: u32 = 1;

/// The size of the header in bytes.
pub const HEADER_SIZE: usize = 64;

/// The size of the footer in bytes.
pub const FOOTER_SIZE: usize = 32;

/// The size from which on a data block is closed.
pub const BLOCK_SIZE: usize = 4096;

/// The longest key: 64 KiB.
pub const MAX_KEY_SIZE: usize = 65536;

/// The longest value: 16 MiB.
pub const MAX_VALUE_SIZE: usize = 16777216;

/// The length that marks a record without a value.
pub const TOMBSTONE_LENGTH: u32 = 0xFFFF_FFFF;

/// How blocks are compressed.
#[derive(Clone, Copy, PartialEq, Eq, Structural, Debug)]
pub enum Compression {
    /// Not at all.
    Plain,
    /// With Zstandard.
    Zstd,
}

impl Compression {
    /// The byte that stands for the compression.
    pub open spec fn code(self) -> u8 {
        match self {
            Compression::Plain => 0,
            Compression::Zstd => 1,
        }
    }

    /// The byte that stands for the compression.
    pub fn to_byte(self) -> (r: u8)
        ensures
            r == self.code(),
    {
        match self {
            Compression::Plain => 0,
            Compression::Zstd => 1,
        }
    }
}

/// The compression that a byte stands for; unknown bytes stand for none.
pub open spec fn compression_of(byte: u8) -> Compression {
    if byte == 1 {
        Compression::Zstd
    } else {
        Compression::Plain
    }
}

impl Default for Compression {
    fn default() -> (r: Self)
        ensures
            r == Compression::Zstd,
    {
        Compression::Zstd
    }
}

impl From<u8> for Compression {
    fn from(value: u8) -> (r: Self) {
        match value {
            0 => Compression::Plain,
            1 => Compression::Zstd,
            _ => Compression::Plain,
        }
    }
}

impl vstd::std_specs::convert::FromSpecImpl<u8> for Compression {
    open spec fn obeys_from_spec() -> bool {
        true
    }

    open spec fn from_spec(value: u8) -> Self {
        compression_of(value)
    }
}

/// The first bytes of every table file.
pub open spec fn magic() -> Seq<u8> {
    seq![0x52u8, 0x4Du8, 0x53u8, 0x54u8]
}

/// `n` zero bytes.
pub open spec fn zeros(n: nat) -> Seq<u8> {
    Seq::new(n, |i: int| 0u8)
}

/// Appends `n` zero bytes.
fn put_zeros(out: &mut Vec<u8>, n: usize)
    ensures
        final(out)@ == old(out)@ + zeros(n as nat),
{
    let ghost start = out@;
    let mut i: usize = 0;
    assert(out@ =~= start + zeros(0));
    while i < n
        invariant
            i <= n,
            out@ == start + zeros(i as nat),
        decreases n - i,
    {
        out.push(0);
        i = i + 1;
        assert(out@ =~= start + zeros(i as nat));
    }
}

/// The `N` bytes at `at`.
fn fixed<const N: usize>(data: &[u8], at: usize) -> (r: [u8; N])
    requires
        at + N <= data@.len(),
    ensures
        r@ == data@.subrange(at as int, at + N),
{
    let mut out = [0u8; N];
    let mut i: usize = 0;
    while i < N
        invariant
            i <= N,
            at + N <= data@.len(),
            forall|j: int| 0 <= j < i ==> out@[j] == data@[at + j],
        decreases N - i,
    {
        assert(data@.len() == data.len());
        out[i] = data[at + i];
        i = i + 1;
    }
    assert(out@ =~= data@.subrange(at as int, at + N));
    out
}

/// The header of a table file.
#[derive(Clone, Debug)]
pub struct SSTableHeader {
    pub magic: [u8; 4],
    pub version: u32,
    pub compression: Compression,
    /// The number of records.
    pub record_count: u64,
    /// The first 16 bytes of the smallest key, zero-padded.
    pub min_key: [u8; 16],
    /// The first 16 bytes of the largest key, zero-padded.
    pub max_key: [u8; 16],
    pub index_offset: u64,
    pub index_size: u32,
    pub bloom_offset: u64,
    pub bloom_size: u32,
}

/// What a header says.
#[verifier::ext_equal]
pub struct HeaderView {
    pub magic: Seq<u8>,
    pub version: u32,
    pub compression: Compression,
    pub record_count: u64,
    pub min_key: Seq<u8>,
    pub max_key: Seq<u8>,
    pub index_offset: u64,
    pub index_size: u32,
    pub bloom_offset: u64,
    pub bloom_size: u32,
}

impl View for SSTableHeader {
    type V = HeaderView;

    open spec fn view(&self) -> HeaderView {
        HeaderView {
            magic: self.magic@,
            version: self.version,
            compression: self.compression,
            record_count: self.record_count,
            min_key: self.min_key@,
            max_key: self.max_key@,
            index_offset: self.index_offset,
            index_size: self.index_size,
            bloom_offset: self.bloom_offset,
            bloom_size: self.bloom_size,
        }
    }
}

impl HeaderView {
    /// The bytes of the header. The offsets of the index and the filter are not
    /// among them: the footer has those.
    pub open spec fn bytes(self) -> Seq<u8> {
        self.magic + codec::u32_le(self.version) + seq![self.compression.code()] + zeros(3)
            + codec::u64_le(self.record_count) + self.min_key + self.max_key + zeros(12)
    }
}

/// The header that bytes hold.
pub open spec fn decoded_header(data: Seq<u8>) -> Option<HeaderView> {
    if data.len() < HEADER_SIZE || data.subrange(0, 4) != magic() {
        None
    } else {
        Some(
            HeaderView {
                magic: data.subrange(0, 4),
                version: codec::u32_at(data, 4),
                compression: compression_of(data[8]),
                record_count: codec::u64_at(data, 12),
                min_key: data.subrange(20, 36),
                max_key: data.subrange(36, 52),
                index_offset: 0,
                index_size: 0,
                bloom_offset: 0,
                bloom_size: 0,
            },
        )
    }
}

/// A header without records.
pub open spec fn new_header(compression: Compression) -> HeaderView {
    HeaderView {
        magic: magic(),
        version: VERSION,
        compression,
        record_count: 0,
        min_key: zeros(16),
        max_key: zeros(16),
        index_offset: 0,
        index_size: 0,
        bloom_offset: 0,
        bloom_size: 0,
    }
}

impl SSTableHeader {
    /// A header without records.
    pub fn new(compression: Compression) -> (r: Self)
        ensures
            r@ == new_header(compression),
    {
        let r = SSTableHeader {
            magic: MAGIC,
            version: VERSION,
            compression,
            record_count: 0,
            min_key: [0u8; 16],
            max_key: [0u8; 16],
            index_offset: 0,
            index_size: 0,
            bloom_offset: 0,
            bloom_size: 0,
        };
        assert(r@ =~= new_header(compression));
        r
    }

    /// The bytes of the header.
    pub fn encode(&self) -> (r: [u8; 64])
        ensures
            r@ == self@.bytes(),
    {
        let mut buf: Vec<u8> = Vec::new();
        codec::put_bytes(&mut buf, self.magic.as_slice());
        codec::put_u32(&mut buf, self.version);
        buf.push(self.compression.to_byte());
        put_zeros(&mut buf, 3);
        codec::put_u64(&mut buf, self.record_count);
        codec::put_bytes(&mut buf, self.min_key.as_slice());
        codec::put_bytes(&mut buf, self.max_key.as_slice());
        put_zeros(&mut buf, 12);
        assert(buf@ =~= self@.bytes());
        assert(buf@.len() == 64);
        let r = fixed::<64>(buf.as_slice(), 0);
        assert(r@ =~= buf@);
        r
    }

    /// Reads a header.
    pub fn decode(data: &[u8]) -> (r: Option<Self>)
        ensures
            decoded_header(data@) == (match r {
                Some(header) => Some(header@),
                None => None,
            }),
    {
        if data.len() < HEADER_SIZE {
            return None;
        }
        let magic = fixed::<4>(data, 0);
        if !order::bytes_equal(magic.as_slice(), MAGIC.as_slice()) {
            assert(MAGIC@ =~= self::magic());
            return None;
        }
        assert(MAGIC@ =~= self::magic());
        Some(
            SSTableHeader {
                magic,
                version: codec::get_u32(data, 4),
                compression: Compression::from(data[8]),
                record_count: codec::get_u64(data, 12),
                min_key: fixed::<16>(data, 20),
                max_key: fixed::<16>(data, 36),
                index_offset: 0,
                index_size: 0,
                bloom_offset: 0,
                bloom_size: 0,
            },
        )
    }

    /// Makes the first bytes of a key, zero-padded, the smallest key.
    pub fn set_min_key(&mut self, key: &[u8])
        ensures
            final(self)@ == (HeaderView { min_key: order::padded(key@, 16), ..old(self)@ }),
    {
        self.min_key = pad_key(key);
    }

    /// Makes the first bytes of a key, zero-padded, the largest key.
    pub fn set_max_key(&mut self, key: &[u8])
        ensures
            final(self)@ == (HeaderView { max_key: order::padded(key@, 16), ..old(self)@ }),
    {
        self.max_key = pad_key(key);
    }
}

/// The first bytes of a key, zero-padded.
fn pad_key(key: &[u8]) -> (r: [u8; 16])
    ensures
        r@ == order::padded(key@, 16),
{
    let mut out = [0u8; 16];
    let mut i: usize = 0;
    while i < 16 && i < key.len()
        invariant
            i <= 16,
            i <= key@.len(),
            forall|j: int| 0 <= j < i ==> out@[j] == key@[j],
            forall|j: int| i <= j < 16 ==> out@[j] == 0,
        decreases 16 - i,
    {
        out[i] = key[i];
        i = i + 1;
    }
    assert(out@ =~= order::padded(key@, 16));
    out
}

/// The footer of a table file: where the index and the filter stand, and the
/// checksum of everything before the footer.
#[derive(Clone, Copy, PartialEq, Eq, Structural, Debug)]
pub struct SSTableFooter {
    pub index_offset: u64,
    pub index_size: u32,
    pub bloom_offset: u64,
    pub bloom_size: u32,
    pub checksum: u32,
}

/// The bytes of a footer.
pub open spec fn footer_bytes(f: SSTableFooter) -> Seq<u8> {
    codec::u64_le(f.index_offset) + codec::u32_le(f.index_size) + codec::u64_le(f.bloom_offset)
        + codec::u32_le(f.bloom_size) + codec::u32_le(f.checksum) + zeros(4)
}

/// The footer that bytes hold.
pub open spec fn decoded_footer(data: Seq<u8>) -> Option<SSTableFooter> {
    if data.len() < FOOTER_SIZE {
        None
    } else {
        Some(
            SSTableFooter {
                index_offset: codec::u64_at(data, 0),
                index_size: codec::u32_at(data, 8),
                bloom_offset: codec::u64_at(data, 12),
                bloom_size: codec::u32_at(data, 20),
                checksum: codec::u32_at(data, 24),
            },
        )
    }
}

impl SSTableFooter {
    /// The bytes of the footer.
    pub fn encode(&self) -> (r: [u8; 32])
        ensures
            r@ == footer_bytes(*self),
    {
        let mut buf: Vec<u8> = Vec::new();
        codec::put_u64(&mut buf, self.index_offset);
        codec::put_u32(&mut buf, self.index_size);
        codec::put_u64(&mut buf, self.bloom_offset);
        codec::put_u32(&mut buf, self.bloom_size);
        codec::put_u32(&mut buf, self.checksum);
        put_zeros(&mut buf, 4);
        assert(buf@ =~= footer_bytes(*self));
        assert(buf@.len() == 32);
        let r = fixed::<32>(buf.as_slice(), 0);
        assert(r@ =~= buf@);
        r
    }

    /// Reads a footer.
    pub fn decode(data: &[u8]) -> (r: Option<Self>)
        ensures
            r == decoded_footer(data@),
    {
        if data.len() < FOOTER_SIZE {
            return None;
        }
        Some(
            SSTableFooter {
                index_offset: codec::get_u64(data, 0),
                index_size: codec::get_u32(data, 8),
                bloom_offset: codec::get_u64(data, 12),
                bloom_size: codec::get_u32(data, 20),
                checksum: codec::get_u32(data, 24),
            },
        )
    }
}

/// Where a data block stands.
#[derive(Debug)]
pub struct IndexEntry {
    /// The first key in the block.
    pub key: Vec<u8>,
    /// The offset of the block in the file.
    pub offset: u64,
    /// The size of the block in the file.
    pub size: u32,
}

/// What an index entry says.
#[verifier::ext_equal]
pub struct IndexEntryView {
    pub key: Seq<u8>,
    pub offset: u64,
    pub size: u32,
}

impl View for IndexEntry {
    type V = IndexEntryView;

    open spec fn view(&self) -> IndexEntryView {
        IndexEntryView { key: self.key@, offset: self.offset, size: self.size }
    }
}

impl IndexEntryView {
    /// The bytes of the entry.
    pub open spec fn bytes(self) -> Seq<u8> {
        codec::u16_le(self.key.len() as u16) + self.key + codec::u64_le(self.offset)
            + codec::u32_le(self.size)
    }
}

/// The index entry at the start of `data`, and its length.
pub open spec fn decoded_entry(data: Seq<u8>) -> Option<(IndexEntryView, int)> {
    let end = 2 + codec::u16_at(data, 0);
    if data.len() < 14 || data.len() < end + 12 {
        None
    } else {
        Some(
            (
                IndexEntryView {
                    key: data.subrange(2, end),
                    offset: codec::u64_at(data, end),
                    size: codec::u32_at(data, end + 8),
                },
                end + 12,
            ),
        )
    }
}

impl IndexEntry {
    /// The bytes of the entry.
    pub fn encode(&self) -> (r: Vec<u8>)
        ensures
            r@ == self@.bytes(),
    {
        let mut buf: Vec<u8> = Vec::new();
        codec::put_u16(&mut buf, self.key.len() as u16);
        codec::put_bytes(&mut buf, self.key.as_slice());
        codec::put_u64(&mut buf, self.offset);
        codec::put_u32(&mut buf, self.size);
        assert(buf@ =~= self@.bytes());
        buf
    }

    /// Reads an entry from the start of `data`; the second result is its length.
    pub fn decode(data: &[u8]) -> (r: Option<(Self, usize)>)
        ensures
            decoded_entry(data@) == (match r {
                Some((entry, size)) => Some((entry@, size as int)),
                None => None,
            }),
    {
        if data.len() < 14 {
            return None;
        }
        let key_len: usize = codec::get_u16(data, 0) as usize;
        if data.len() - 14 < key_len {
            return None;
        }
        let end: usize = 2 + key_len;
        let entry = IndexEntry {
            key: codec::copy_range(data, 2, end),
            offset: codec::get_u64(data, end),
            size: codec::get_u32(data, end + 8),
        };
        Some((entry, end + 12))
    }
}

/// What is known of a table without reading its blocks.
#[derive(Debug)]
pub struct SSTableMeta {
    pub path: String,
    pub compression: Compression,
    /// The number of records.
    pub record_count: u64,
    /// The size of the file in bytes.
    pub file_size: u64,
    /// The smallest key, or its first bytes.
    pub min_key: Vec<u8>,
    /// The largest key, or its first bytes.
    pub max_key: Vec<u8>,
    /// The level of the table.
    pub level: usize,
}

/// Whether the first 16 bytes of a key, zero-padded, lie between those of the
/// smallest and the largest key.
pub open spec fn in_prefix_range(min_key: Seq<u8>, max_key: Seq<u8>, key: Seq<u8>) -> bool {
    order::lex_le(order::padded(min_key, 16), order::padded(key, 16)) && order::lex_le(
        order::padded(key, 16),
        order::padded(max_key, 16),
    )
}

/// A key between the smallest and the largest key is in the prefix range.
pub proof fn law_prefix_range_covers(min_key: Seq<u8>, max_key: Seq<u8>, key: Seq<u8>)
    requires
        order::lex_le(min_key, key),
        order::lex_le(key, max_key),
    ensures
        in_prefix_range(min_key, max_key, key),
        in_prefix_range(order::padded(min_key, 16), order::padded(max_key, 16), key),
{
    order::lemma_padded_monotone(min_key, key, 16);
    order::lemma_padded_monotone(key, max_key, 16);
    assert(order::padded(order::padded(min_key, 16), 16) =~= order::padded(min_key, 16));
    assert(order::padded(order::padded(max_key, 16), 16) =~= order::padded(max_key, 16));
}

/// Whether `a` comes before `b` or is `b`, both cut and padded to 16 bytes.
pub fn prefix_le(a: &[u8], b: &[u8]) -> (r: bool)
    ensures
        r == order::lex_le(order::padded(a@, 16), order::padded(b@, 16)),
{
    let pa = pad_key(a);
    let pb = pad_key(b);
    match order::compare_keys(pa.as_slice(), pb.as_slice()) {
        order::KeyOrder::Greater => {
            proof {
                order::lemma_lex_asymmetric(pb@, pa@);
            }
            false
        },
        _ => true,
    }
}

impl SSTableMeta {
    /// Whether a key may be in the table, going by the range of its keys.
    pub fn may_contain_key(&self, key: &[u8]) -> (r: bool)
        ensures
            r == in_prefix_range(self.min_key@, self.max_key@, key@),
    {
        prefix_le(self.min_key.as_slice(), key) && prefix_le(key, self.max_key.as_slice())
    }
}

/// A record of a data block.
#[derive(Debug)]
pub struct Record {
    pub key: Vec<u8>,
    /// The value; a record without one is a tombstone.
    pub value: Option<Vec<u8>>,
    pub timestamp: u64,
}

/// What a record says.
#[verifier::ext_equal]
pub struct RecordView {
    pub key: Seq<u8>,
    pub value: Option<Seq<u8>>,
    pub timestamp: u64,
}

/// The bytes of an optional value.
pub open spec fn value_view(value: Option<Vec<u8>>) -> Option<Seq<u8>> {
    match value {
        Some(v) => Some(v@),
        None => None,
    }
}

/// A copy of an optional value.
pub fn copy_value(value: &Option<Vec<u8>>) -> (r: Option<Vec<u8>>)
    ensures
        value_view(r) == value_view(*value),
{
    match value {
        Some(v) => Some(codec::copy_bytes(v)),
        None => None,
    }
}

impl View for Record {
    type V = RecordView;

    open spec fn view(&self) -> RecordView {
        RecordView {
            key: self.key@,
            value: value_view(self.value),
            timestamp: self.timestamp,
        }
    }
}

impl RecordView {
    /// The value, or no bytes.
    pub open spec fn payload(self) -> Seq<u8> {
        match self.value {
            Some(v) => v,
            None => Seq::empty(),
        }
    }

    /// The length field of the value.
    pub open spec fn length_field(self) -> u32 {
        match self.value {
            Some(v) => v.len() as u32,
            None => TOMBSTONE_LENGTH,
        }
    }

    /// The bytes of the record.
    pub open spec fn bytes(self) -> Seq<u8> {
        codec::u16_le(self.key.len() as u16) + codec::u32_le(self.length_field())
            + codec::u64_le(self.timestamp) + self.key + self.payload()
    }

    /// Whether key and value are within the range of their length fields.
    pub open spec fn storable(self) -> bool {
        self.key.len() <= u16::MAX && self.payload().len() < TOMBSTONE_LENGTH
    }
}

/// The record at the start of `data`, and its length.
pub open spec fn decoded_record(data: Seq<u8>) -> Option<(RecordView, int)> {
    let key_end = 14 + codec::u16_at(data, 0);
    let length = codec::u32_at(data, 2);
    let end = if length == TOMBSTONE_LENGTH {
        key_end
    } else {
        key_end + length
    };
    if data.len() < 14 || data.len() < end {
        None
    } else {
        Some(
            (
                RecordView {
                    key: data.subrange(14, key_end),
                    value: if length == TOMBSTONE_LENGTH {
                        None
                    } else {
                        Some(data.subrange(key_end, end))
                    },
                    timestamp: codec::u64_at(data, 6),
                },
                end,
            ),
        )
    }
}

impl Clone for Record {
    fn clone(&self) -> (r: Self)
        ensures
            r@ == self@,
    {
        Record {
            key: codec::copy_bytes(&self.key),
            value: copy_value(&self.value),
            timestamp: self.timestamp,
        }
    }
}

impl Record {
    /// A record with a value.
    pub fn new(key: Vec<u8>, value: Vec<u8>, timestamp: u64) -> (r: Self)
        ensures
            r@ == (RecordView { key: key@, value: Some(value@), timestamp }),
    {
        Record { key, value: Some(value), timestamp }
    }

    /// A tombstone.
    pub fn tombstone(key: Vec<u8>, timestamp: u64) -> (r: Self)
        ensures
            r@ == (RecordView { key: key@, value: None, timestamp }),
    {
        Record { key, value: None, timestamp }
    }

    /// Whether the record is a tombstone.
    pub fn is_tombstone(&self) -> (r: bool)
        ensures
            r == (self@.value is None),
    {
        self.value.is_none()
    }

    /// The bytes of the record.
    pub fn encode(&self) -> (r: Vec<u8>)
        ensures
            r@ == self@.bytes(),
    {
        let length: u32 = match &self.value {
            Some(v) => v.len() as u32,
            None => TOMBSTONE_LENGTH,
        };
        let mut buf: Vec<u8> = Vec::new();
        codec::put_u16(&mut buf, self.key.len() as u16);
        codec::put_u32(&mut buf, length);
        codec::put_u64(&mut buf, self.timestamp);
        codec::put_bytes(&mut buf, self.key.as_slice());
        if let Some(v) = &self.value {
            codec::put_bytes(&mut buf, v.as_slice());
        }
        assert(buf@ =~= self@.bytes());
        buf
    }

    /// Reads a record from the start of `data`; the second result is its length.
    pub fn decode(data: &[u8]) -> (r: Option<(Self, usize)>)
        ensures
            decoded_record(data@) == (match r {
                Some((record, size)) => Some((record@, size as int)),
                None => None,
            }),
            r matches Some((record, size)) ==> 14 <= size <= data@.len(),
    {
        if data.len() < 14 {
            return None;
        }
        let key_len: usize = codec::get_u16(data, 0) as usize;
        let length: u32 = codec::get_u32(data, 2);
        let timestamp: u64 = codec::get_u64(data, 6);
        if data.len() - 14 < key_len {
            return None;
        }
        let key_end: usize = 14 + key_len;
        let key = codec::copy_range(data, 14, key_end);
        if length == TOMBSTONE_LENGTH {
            return Some((Record { key, value: None, timestamp }, key_end));
        }
        if data.len() - key_end < length as usize {
            return None;
        }
        let end: usize = key_end + length as usize;
        let value = codec::copy_range(data, key_end, end);
        Some((Record { key, value: Some(value), timestamp }, end))
    }

    /// The length of the record's bytes.
    pub fn encoded_size(&self) -> (r: usize)
        requires
            self@.bytes().len() <= usize::MAX,
        ensures
            r == self@.bytes().len(),
    {
        let value_len: usize = match &self.value {
            Some(v) => v.len(),
            None => 0,
        };
        assert(self@.bytes().len() == 14 + self.key@.len() + value_len);
        14 + self.key.len() + value_len
    }
}

/// A header reads back as it was written; the offsets of the index and the filter
/// are left for the footer.
pub proof fn law_header_roundtrip(h: HeaderView, rest: Seq<u8>)
    requires
        h.magic == magic(),
        h.min_key.len() == 16,
        h.max_key.len() == 16,
    ensures
        h.bytes().len() == HEADER_SIZE,
        decoded_header(h.bytes() + rest) == Some(
            HeaderView { index_offset: 0, index_size: 0, bloom_offset: 0, bloom_size: 0, ..h },
        ),
{
    let version = codec::u32_le(h.version);
    let count = codec::u64_le(h.record_count);
    let d = h.bytes() + rest;
    assert(d.subrange(0, 4) =~= h.magic);
    assert(d.subrange(4, 8) =~= version);
    codec::lemma_u32_at(d, 4, h.version);
    assert(d[8] == h.compression.code());
    assert(d.subrange(12, 20) =~= count);
    codec::lemma_u64_at(d, 12, h.record_count);
    assert(d.subrange(20, 36) =~= h.min_key);
    assert(d.subrange(36, 52) =~= h.max_key);
}

/// A footer reads back as it was written.
pub proof fn law_footer_roundtrip(f: SSTableFooter)
    ensures
        footer_bytes(f).len() == FOOTER_SIZE,
        decoded_footer(footer_bytes(f)) == Some(f),
{
    let d = footer_bytes(f);
    assert(d.subrange(0, 8) =~= codec::u64_le(f.index_offset));
    codec::lemma_u64_at(d, 0, f.index_offset);
    assert(d.subrange(8, 12) =~= codec::u32_le(f.index_size));
    codec::lemma_u32_at(d, 8, f.index_size);
    assert(d.subrange(12, 20) =~= codec::u64_le(f.bloom_offset));
    codec::lemma_u64_at(d, 12, f.bloom_offset);
    assert(d.subrange(20, 24) =~= codec::u32_le(f.bloom_size));
    codec::lemma_u32_at(d, 20, f.bloom_size);
    assert(d.subrange(24, 28) =~= codec::u32_le(f.checksum));
    codec::lemma_u32_at(d, 24, f.checksum);
}

/// An index entry reads back as it was written, whatever follows it.
pub proof fn law_entry_roundtrip(e: IndexEntryView, rest: Seq<u8>)
    requires
        e.key.len() <= u16::MAX,
    ensures
        decoded_entry(e.bytes() + rest) == Some((e, e.bytes().len() as int)),
{
    let d = e.bytes() + rest;
    let end = 2 + e.key.len() as int;
    assert(d.subrange(0, 2) =~= codec::u16_le(e.key.len() as u16));
    codec::lemma_u16_at(d, 0, e.key.len() as u16);
    assert(d.subrange(2, end) =~= e.key);
    assert(d.subrange(end, end + 8) =~= codec::u64_le(e.offset));
    codec::lemma_u64_at(d, end, e.offset);
    assert(d.subrange(end + 8, end + 12) =~= codec::u32_le(e.size));
    codec::lemma_u32_at(d, end + 8, e.size);
}

/// A record reads back as it was written, whatever follows it.
pub proof fn law_record_roundtrip(r: RecordView, rest: Seq<u8>)
    requires
        r.storable(),
    ensures
        r.bytes().len() == 14 + r.key.len() + r.payload().len(),
        decoded_record(r.bytes() + rest) == Some((r, r.bytes().len() as int)),
{
    let d = r.bytes() + rest;
    let key_end = 14 + r.key.len() as int;
    assert(d.subrange(0, 2) =~= codec::u16_le(r.key.len() as u16));
    codec::lemma_u16_at(d, 0, r.key.len() as u16);
    assert(d.subrange(2, 6) =~= codec::u32_le(r.length_field()));
    codec::lemma_u32_at(d, 2, r.length_field());
    assert(d.subrange(6, 14) =~= codec::u64_le(r.timestamp));
    codec::lemma_u64_at(d, 6, r.timestamp);
    assert(d.subrange(14, key_end) =~= r.key);
    assert(d.subrange(key_end, key_end + r.payload().len()) =~= r.payload());
}

/// The byte of each compression; every other byte stands for none.
pub proof fn law_compression_codes(c: Compression, byte: u8)
    ensures
        c is Plain ==> c.code() == 0,
        c is Zstd ==> c.code() == 1,
        compression_of(c.code()) == c,
        compression_of(byte) is Zstd <==> byte == 1,
{
}

/// A header that nothing was added to: the magic bytes, the version, the compression,
/// and zeros.
pub proof fn law_new_header(compression: Compression)
    ensures
        ({
            let h = new_header(compression);
            &&& h.magic == seq![0x52u8, 0x4Du8, 0x53u8, 0x54u8]
            &&& h.version == 1
            &&& h.compression == compression
            &&& h.record_count == 0
            &&& h.min_key.len() == 16
            &&& h.max_key.len() == 16
            &&& forall|i: int|
                0 <= i < 16 ==> #[trigger] h.min_key[i] == 0 && #[trigger] h.max_key[i] == 0
            &&& h.index_offset == 0 && h.index_size == 0
            &&& h.bloom_offset == 0 && h.bloom_size == 0
        }),
{
}

/// Where the parts of a header stand.
pub proof fn law_header_layout(h: HeaderView)
    requires
        h.magic.len() == 4,
        h.min_key.len() == 16,
        h.max_key.len() == 16,
    ensures
        ({
            let d = h.bytes();
            &&& d.len() == 64
            &&& d.subrange(0, 4) == h.magic
            &&& codec::u32_at(d, 4) == h.version
            &&& d[8] == h.compression.code()
            &&& codec::u64_at(d, 12) == h.record_count
            &&& d.subrange(20, 36) == h.min_key
            &&& d.subrange(36, 52) == h.max_key
            &&& forall|i: int| 9 <= i < 12 || 52 <= i < 64 ==> #[trigger] d[i] == 0
        }),
{
    let d = h.bytes();
    assert(d.subrange(0, 4) =~= h.magic);
    assert(d.subrange(4, 8) =~= codec::u32_le(h.version));
    codec::lemma_u32_at(d, 4, h.version);
    assert(d.subrange(12, 20) =~= codec::u64_le(h.record_count));
    codec::lemma_u64_at(d, 12, h.record_count);
    assert(d.subrange(20, 36) =~= h.min_key);
    assert(d.subrange(36, 52) =~= h.max_key);
}

/// What does not start with the magic bytes, or is too short, is no header.
pub proof fn law_no_header(data: Seq<u8>)
    ensures
        decoded_header(data) is Some <==> data.len() >= 64 && data[0] == 0x52 && data[1] == 0x4D
            && data[2] == 0x53 && data[3] == 0x54,
{
    if data.len() >= 64 {
        let start = data.subrange(0, 4);
        assert(start[0] == data[0] && start[1] == data[1] && start[2] == data[2] && start[3]
            == data[3]);
        if data[0] == 0x52 && data[1] == 0x4D && data[2] == 0x53 && data[3] == 0x54 {
            assert(start =~= magic());
        }
    }
}

/// Where the parts of a footer stand.
pub proof fn law_footer_layout(f: SSTableFooter)
    ensures
        ({
            let d = footer_bytes(f);
            &&& d.len() == 32
            &&& codec::u64_at(d, 0) == f.index_offset
            &&& codec::u32_at(d, 8) == f.index_size
            &&& codec::u64_at(d, 12) == f.bloom_offset
            &&& codec::u32_at(d, 20) == f.bloom_size
            &&& codec::u32_at(d, 24) == f.checksum
            &&& forall|i: int| 28 <= i < 32 ==> #[trigger] d[i] == 0
        }),
{
    law_footer_roundtrip(f);
}

/// Where the parts of an index entry stand: the key behind its length, and the offset
/// and size of the block.
pub proof fn law_entry_layout(e: IndexEntryView)
    requires
        e.key.len() <= u16::MAX,
    ensures
        ({
            let d = e.bytes();
            let end = 2 + e.key.len() as int;
            &&& d.len() == end + 12
            &&& codec::u16_at(d, 0) == e.key.len()
            &&& d.subrange(2, end) == e.key
            &&& codec::u64_at(d, end) == e.offset
            &&& codec::u32_at(d, end + 8) == e.size
        }),
{
    let d = e.bytes();
    law_entry_roundtrip(e, Seq::empty());
    assert(d + Seq::<u8>::empty() =~= d);
    assert(d.subrange(0, 2) =~= codec::u16_le(e.key.len() as u16));
    codec::lemma_u16_at(d, 0, e.key.len() as u16);
}

/// Where the parts of a record stand: the lengths of the key and the value, the
/// timestamp, the key and the value. A record without a value has a length of all ones,
/// and no bytes there.
pub proof fn law_record_layout(r: RecordView)
    requires
        r.storable(),
    ensures
        ({
            let d = r.bytes();
            let end = 14 + r.key.len() as int;
            &&& codec::u16_at(d, 0) == r.key.len()
            &&& codec::u64_at(d, 6) == r.timestamp
            &&& d.subrange(14, end) == r.key
            &&& r.value matches Some(v) ==> codec::u32_at(d, 2) == v.len() && d.len() == end
                + v.len() && d.subrange(end, end + v.len()) == v
            &&& r.value is None ==> codec::u32_at(d, 2) == 0xFFFF_FFFFu32 && d.len() == end
        }),
{
    let d = r.bytes();
    let end = 14 + r.key.len() as int;
    assert(d.subrange(0, 2) =~= codec::u16_le(r.key.len() as u16));
    codec::lemma_u16_at(d, 0, r.key.len() as u16);
    assert(d.subrange(2, 6) =~= codec::u32_le(r.length_field()));
    codec::lemma_u32_at(d, 2, r.length_field());
    assert(d.subrange(6, 14) =~= codec::u64_le(r.timestamp));
    codec::lemma_u64_at(d, 6, r.timestamp);
    assert(d.subrange(14, end) =~= r.key);
    assert(d.subrange(end, end + r.payload().len()) =~= r.payload());
}

/// What a record, an index entry and a header say is what their fields hold.
pub proof fn law_views(r: Record, e: IndexEntry, h: SSTableHeader)
    ensures
        r@.key == r.key@,
        r@.timestamp == r.timestamp,
        r.value is None <==> r@.value is None,
        r.value matches Some(v) ==> r@.value == Some(v@),
        e@.key == e.key@,
        e@.offset == e.offset,
        e@.size == e.size,
        h@.magic == h.magic@,
        h@.version == h.version,
        h@.compression == h.compression,
        h@.record_count == h.record_count,
        h@.min_key == h.min_key@,
        h@.max_key == h.max_key@,
{
}

/// Which records can be stored: those whose key is no longer than its length field can
/// say, and whose value is shorter than the mark of a missing one.
pub proof fn law_storable(r: RecordView)
    ensures
        r.storable() <==> r.key.len() <= 65535 && (r.value matches Some(v) ==> v.len()
            < 0xFFFF_FFFF),
{
}

/// A key may be in a table only if its first 16 bytes are not below those of the
/// smallest key, nor above those of the largest.
pub proof fn law_prefix_range_bounds(min_key: Seq<u8>, max_key: Seq<u8>, key: Seq<u8>)
    requires
        min_key.len() >= 16,
        max_key.len() >= 16,
        key.len() >= 16,
    ensures
        in_prefix_range(min_key, max_key, key) <==> {
            &&& order::lex_le(min_key.take(16), key.take(16))
            &&& order::lex_le(key.take(16), max_key.take(16))
        },
{
    order::law_padded(min_key, 16);
    order::law_padded(max_key, 16);
    order::law_padded(key, 16);
}

} // verus!
