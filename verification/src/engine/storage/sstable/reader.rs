//! Reading tables.
use crate::engine::checksum;
use crate::engine::codec;
use crate::engine::error::{FormatFault, StorageError};
use crate::engine::order;
use crate::engine::storage::sstable::block;
use crate::engine::storage::sstable::block::{Block, BlockCache, BlockCacheKey};
use crate::engine::storage::sstable::compress;
use crate::engine::storage::sstable::layout;
use crate::engine::storage::sstable::layout::{
    IndexEntry, Record, SSTableFooter, SSTableHeader, SSTableMeta,
};
use crate::engine::storage::sstable::writer;
use crate::engine::util::bloom;
use crate::engine::util::bloom::BloomFilter;
use crate::engine::util::share;
use std::sync::Arc;
use vstd::prelude::*;

verus! {

/// `n` index entries from `at` on, if they can be read.
pub open spec fn entries_at(data: Seq<u8>, at: int, n: nat) -> Option<Seq<layout::IndexEntryView>>
    decreases n,
{
    if n == 0 {
        Some(Seq::empty())
    } else {
        match layout::decoded_entry(data.skip(at)) {
            Some((entry, size)) => match entries_at(data, at + size, (n - 1) as nat) {
                Some(rest) => Some(seq![entry] + rest),
                None => None,
            },
            None => None,
        }
    }
}

/// The entries of an index block; a block too short for their number has none.
pub open spec fn parsed_index(data: Seq<u8>) -> Option<Seq<layout::IndexEntryView>> {
    if data.len() < 4 {
        Some(Seq::empty())
    } else {
        entries_at(data, 4, codec::u32_at(data, 0) as nat)
    }
}

/// A table that was opened.
#[verifier::ext_equal]
pub struct TableView {
    pub path: Seq<char>,
    pub level: usize,
    /// The file.
    pub data: Seq<u8>,
    pub header: layout::HeaderView,
    pub footer: SSTableFooter,
    pub index: Seq<layout::IndexEntryView>,
    pub bloom: bloom::BloomView,
}

/// Whether `size` bytes from `offset` on lie in the file.
pub open spec fn in_file(data: Seq<u8>, offset: u64, size: u32) -> bool {
    offset + size <= data.len()
}

/// The bytes of a section.
pub open spec fn section(data: Seq<u8>, offset: u64, size: u32) -> Seq<u8> {
    data.subrange(offset as int, offset + size)
}

/// What opening a file gives, or the first fault that is found.
#[verifier::opaque]
pub open spec fn opened(path: Seq<char>, level: usize, data: Seq<u8>) -> Result<
    TableView,
    StorageError,
> {
    if data.len() < layout::HEADER_SIZE + layout::FOOTER_SIZE {
        Err(StorageError::InvalidFormat(FormatFault::TooSmall))
    } else {
        match layout::decoded_header(data.subrange(0, layout::HEADER_SIZE as int)) {
            None => Err(StorageError::InvalidFormat(FormatFault::InvalidHeader)),
            Some(header) => {
                let body = data.take(data.len() - layout::FOOTER_SIZE);
                let footer = layout::decoded_footer(
                    data.skip(data.len() - layout::FOOTER_SIZE),
                )->Some_0;
                if footer.checksum != checksum::crc32(body) {
                    Err(
                        StorageError::ChecksumMismatch {
                            expected: footer.checksum,
                            actual: checksum::crc32(body),
                        },
                    )
                } else {
                    opened_sections(path, level, data, header, footer)
                }
            },
        }
    }
}

/// The part of opening that reads the index and the filter.
pub open spec fn opened_sections(
    path: Seq<char>,
    level: usize,
    data: Seq<u8>,
    header: layout::HeaderView,
    footer: SSTableFooter,
) -> Result<TableView, StorageError> {
    if !in_file(data, footer.index_offset, footer.index_size) {
        Err(StorageError::InvalidFormat(FormatFault::SectionOutOfRange))
    } else {
        match compress::unpacked(
            section(data, footer.index_offset, footer.index_size),
            header.compression,
        ) {
            None => Err(StorageError::Decompression),
            Some(plain) => match parsed_index(plain) {
                None => Err(StorageError::CorruptIndex),
                Some(index) => if !in_file(data, footer.bloom_offset, footer.bloom_size) {
                    Err(StorageError::InvalidFormat(FormatFault::SectionOutOfRange))
                } else {
                    match bloom::decoded(section(data, footer.bloom_offset, footer.bloom_size)) {
                        Some(filter) => Ok(
                            TableView { path, level, data, header, footer, index, bloom: filter },
                        ),
                        None => Err(StorageError::InvalidFormat(FormatFault::InvalidBloomFilter)),
                    }
                },
            },
        }
    }
}

impl TableView {
    /// Whether the filter lets a key pass. A filter without bits lets every key pass.
    pub open spec fn passes(self, key: Seq<u8>) -> bool {
        !self.bloom.usable() || self.bloom.contains(key)
    }

    /// The keys of the index.
    pub open spec fn index_keys(self) -> Seq<Seq<u8>> {
        Seq::new(self.index.len(), |i: int| self.index[i].key)
    }

    /// Block `i`, or why it cannot be read.
    pub open spec fn block(self, i: int) -> Result<block::BlockView, StorageError> {
        let e = self.index[i];
        if !in_file(self.data, e.offset, e.size) {
            Err(StorageError::InvalidFormat(FormatFault::SectionOutOfRange))
        } else {
            match compress::unpacked(section(self.data, e.offset, e.size), self.header.compression) {
                Some(plain) => Ok(block::block_of(plain)),
                None => Err(StorageError::Decompression),
            }
        }
    }

    /// The record with a given key in block `i`.
    pub open spec fn block_get(self, i: int, key: Seq<u8>) -> Result<
        Option<layout::RecordView>,
        StorageError,
    > {
        match self.block(i) {
            Ok(b) => Ok(block::find_key(b.records, key)),
            Err(e) => Err(e),
        }
    }

    /// The block that a key is in, if it is in the table: the last one whose first
    /// key does not come behind it, or the first block.
    pub open spec fn is_block_for(self, i: int, key: Seq<u8>) -> bool {
        &&& 0 <= i < self.index.len()
        &&& i > 0 ==> order::lex_le(self.index[i].key, key)
        &&& i + 1 < self.index.len() ==> order::lex_lt(key, self.index[i + 1].key)
    }

    /// What looking a key up gives where block `i` is searched.
    pub open spec fn lookup(self, i: int, key: Seq<u8>) -> Result<
        Option<layout::RecordView>,
        StorageError,
    > {
        if !self.passes(key) || self.index.len() == 0 {
            Ok(None)
        } else {
            self.block_get(i, key)
        }
    }

    /// What loading block `i` through a cache gives: what the cache has there, else
    /// what the file has.
    pub open spec fn fetched(self, cache: block::CacheView, i: int) -> Result<
        block::BlockView,
        StorageError,
    > {
        match cache.lookup((self.path, self.index[i].offset)) {
            Some(b) => Ok(b),
            None => self.block(i),
        }
    }

    /// A cache after block `i` was loaded through it.
    pub open spec fn cache_after(self, cache: block::CacheView, i: int) -> block::CacheView {
        let key = (self.path, self.index[i].offset);
        match cache.lookup(key) {
            Some(_) => cache.touched(key),
            None => match self.block(i) {
                Ok(b) => cache.inserted(key, b),
                Err(_) => cache,
            },
        }
    }

    /// Whether `r` is what looking a key up through a cache gives, and `after` what
    /// the cache then holds.
    pub open spec fn answers_through(
        self,
        key: Seq<u8>,
        cache: block::CacheView,
        r: Result<Option<layout::RecordView>, StorageError>,
        after: block::CacheView,
    ) -> bool {
        if self.index.len() == 0 {
            r == Ok::<Option<layout::RecordView>, StorageError>(None) && after == cache
        } else {
            exists|i: int| #[trigger] self.answers_from(i, key, cache, r, after)
        }
    }

    /// Whether block `i` is the one that is searched for a key through a cache, `r` is
    /// what is found there, and `after` what the cache then holds. A key that is not in
    /// the filter is not looked for.
    pub open spec fn answers_from(
        self,
        i: int,
        key: Seq<u8>,
        cache: block::CacheView,
        r: Result<Option<layout::RecordView>, StorageError>,
        after: block::CacheView,
    ) -> bool {
        &&& 0 <= i < self.index.len()
        &&& order::strictly_sorted(self.index_keys()) ==> self.is_block_for(i, key)
        &&& if self.passes(key) {
            after == self.cache_after(cache, i) && r == (match self.fetched(cache, i) {
                Ok(b) => Ok(block::find_key(b.records, key)),
                Err(e) => Err(e),
            })
        } else {
            after == cache && r == Ok::<Option<layout::RecordView>, StorageError>(None)
        }
    }

    /// Whether `r` is what looking a key up gives. One block is searched; where the
    /// index is in key order, it is the one that the key belongs to.
    pub open spec fn answers(
        self,
        key: Seq<u8>,
        r: Result<Option<layout::RecordView>, StorageError>,
    ) -> bool {
        if self.index.len() == 0 {
            r == Ok::<Option<layout::RecordView>, StorageError>(None)
        } else {
            exists|i: int|
                #![trigger self.lookup(i, key)]
                0 <= i < self.index.len() && r == self.lookup(i, key) && (order::strictly_sorted(
                    self.index_keys(),
                ) ==> self.is_block_for(i, key))
        }
    }

    /// The records of the blocks from `i` on, or why they cannot be read.
    pub open spec fn records_from(self, i: int) -> Result<Seq<layout::RecordView>, StorageError>
        decreases self.index.len() - i,
    {
        if i < 0 || i >= self.index.len() {
            Ok(Seq::empty())
        } else {
            match self.block(i) {
                Err(e) => Err(e),
                Ok(b) => match self.records_from(i + 1) {
                    Ok(rest) => Ok(b.records + rest),
                    Err(e) => Err(e),
                },
            }
        }
    }

    /// The records of the blocks from `i` on up to the first block that cannot be read,
    /// and why that cannot be read.
    pub open spec fn read_from(self, i: int) -> (Seq<layout::RecordView>, Option<StorageError>)
        decreases self.index.len() - i,
    {
        if i < 0 || i >= self.index.len() {
            (Seq::empty(), None)
        } else {
            match self.block(i) {
                Err(e) => (Seq::empty(), Some(e)),
                Ok(b) => {
                    let (rest, fault) = self.read_from(i + 1);
                    (b.records + rest, fault)
                },
            }
        }
    }

    /// All records, or why they cannot be read.
    pub open spec fn records(self) -> Result<Seq<layout::RecordView>, StorageError> {
        self.records_from(0)
    }
}

/// Whether blocks at the same offset are the same block.
pub open spec fn offsets_determine(table: TableView) -> bool {
    forall|i: int, j: int|
        0 <= i < table.index.len() && 0 <= j < table.index.len() && (
        #[trigger] table.index[i]).offset == (#[trigger] table.index[j]).offset ==> table.block(i)
            == table.block(j)
}

/// Whether what a cache holds for a table is what the table holds.
pub open spec fn cache_agrees(cache: block::CacheView, table: TableView) -> bool {
    forall|i: int, j: int|
        0 <= i < cache.entries.len() && 0 <= j < table.index.len() && (
        #[trigger] cache.entries[i]).0 == (table.path, (#[trigger] table.index[j]).offset)
            ==> table.block(j) == Ok::<block::BlockView, StorageError>(cache.entries[i].1)
}

/// Whether reading a table through a cache comes to the same as reading it.
pub open spec fn agrees(cache: block::CacheView, table: TableView) -> bool {
    offsets_determine(table) && cache_agrees(cache, table)
}

/// Looking a block up keeps every agreement.
proof fn lemma_agrees_touched(cache: block::CacheView, key: (Seq<char>, u64))
    ensures
        forall|table: TableView|
            cache_agrees(cache, table) ==> #[trigger] cache_agrees(cache.touched(key), table),
{
    let next = cache.touched(key);
    assert forall|table: TableView| cache_agrees(cache, table) implies #[trigger] cache_agrees(
        next,
        table,
    ) by {
        assert forall|i: int, j: int|
            0 <= i < next.entries.len() && 0 <= j < table.index.len() && (
            #[trigger] next.entries[i]).0 == (
                table.path,
                (#[trigger] table.index[j]).offset,
            ) implies table.block(j) == Ok::<block::BlockView, StorageError>(
            next.entries[i].1,
        ) by {
            block::lemma_touched_entries(cache, key, i);
            let k = choose|k: int|
                0 <= k < cache.entries.len() && cache.entries[k] == next.entries[i];
            assert(cache.entries[k].0 == (table.path, table.index[j].offset));
        }
    }
}

/// What an agreeing cache finds is the block.
proof fn lemma_agrees_lookup(cache: block::CacheView, table: TableView, j: int)
    requires
        cache_agrees(cache, table),
        0 <= j < table.index.len(),
    ensures
        cache.lookup((table.path, table.index[j].offset)) matches Some(b) ==> table.block(j) == Ok::<
            block::BlockView,
            StorageError,
        >(b),
{
    let key = (table.path, table.index[j].offset);
    if block::has_key(cache.entries, key) {
        let k = block::place_of(cache.entries, key);
        assert(cache.entries[k].0 == (table.path, table.index[j].offset));
    }
}

/// Offering a block of a table keeps the agreement with it and with every table
/// of another path.
proof fn lemma_agrees_inserted(cache: block::CacheView, table: TableView, n: int, b: block::BlockView)
    requires
        cache.wf(),
        0 <= n < table.index.len(),
        table.block(n) == Ok::<block::BlockView, StorageError>(b),
    ensures
        agrees(cache, table) ==> agrees(
            cache.inserted((table.path, table.index[n].offset), b),
            table,
        ),
        forall|other: TableView|
            other.path != table.path && cache_agrees(cache, other) ==> #[trigger] cache_agrees(
                cache.inserted((table.path, table.index[n].offset), b),
                other,
            ),
{
    let key = (table.path, table.index[n].offset);
    let next = cache.inserted(key, b);
    assert forall|t: TableView|
        (t == table && offsets_determine(table) || t.path != table.path) && cache_agrees(
            cache,
            t,
        ) implies #[trigger] cache_agrees(next, t) by {
        assert forall|i: int, j: int|
            0 <= i < next.entries.len() && 0 <= j < t.index.len() && (#[trigger] next.entries[i]).0
                == (t.path, (#[trigger] t.index[j]).offset) implies t.block(j) == Ok::<
            block::BlockView,
            StorageError,
        >(next.entries[i].1) by {
            block::lemma_inserted_entries(cache, key, b, i);
            if next.entries[i] == (key, b) {
                assert(t == table);
                assert(table.index[j].offset == table.index[n].offset);
            } else {
                let k = choose|k: int|
                    0 <= k < cache.entries.len() && cache.entries[k] == next.entries[i];
                assert(cache.entries[k].0 == (t.path, t.index[j].offset));
            }
        }
    }
}

/// Reading a table through a cache that agrees with it comes to the same as reading
/// it, and the cache goes on to agree with it. The agreement with tables of other
/// paths stays in any case.
pub proof fn law_cached_reads(
    cache: block::CacheView,
    table: TableView,
    key: Seq<u8>,
    r: Result<Option<layout::RecordView>, StorageError>,
    after: block::CacheView,
)
    requires
        cache.wf(),
        table.answers_through(key, cache, r, after),
    ensures
        agrees(cache, table) ==> table.answers(key, r) && agrees(after, table),
        forall|other: TableView|
            other.path != table.path && cache_agrees(cache, other) ==> #[trigger] cache_agrees(
                after,
                other,
            ),
{
    if table.index.len() > 0 {
        let i = choose|i: int| #[trigger] table.answers_from(i, key, cache, r, after);
        if table.passes(key) {
            let at = (table.path, table.index[i].offset);
            if cache.lookup(at) is Some {
                lemma_agrees_touched(cache, at);
            } else if table.block(i) is Ok {
                lemma_agrees_inserted(cache, table, i, table.block(i)->Ok_0);
            }
            if agrees(cache, table) {
                lemma_agrees_lookup(cache, table, i);
                assert(table.fetched(cache, i) == table.block(i));
                assert(table.lookup(i, key) == r);
            }
        } else {
            assert(table.lookup(i, key) == r);
        }
    }
}

/// A table that is open for reading.
pub struct SSTableReader {
    path: String,
    data: Vec<u8>,
    header: SSTableHeader,
    footer: SSTableFooter,
    index: Vec<IndexEntry>,
    bloom: BloomFilter,
    level: usize,
}

impl View for SSTableReader {
    type V = TableView;

    closed spec fn view(&self) -> TableView {
        TableView {
            path: self.path@,
            level: self.level,
            data: self.data@,
            header: self.header@,
            footer: self.footer,
            index: writer::entry_views(self.index@),
            bloom: self.bloom@,
        }
    }
}

/// What a lookup returned, as views.
pub open spec fn looked_up(r: Result<Option<Record>, StorageError>) -> Result<
    Option<layout::RecordView>,
    StorageError,
> {
    match r {
        Ok(Some(record)) => Ok(Some(record@)),
        Ok(None) => Ok(None),
        Err(e) => Err(e),
    }
}

impl SSTableReader {
    /// The table was opened from its file.
    pub open spec fn inv(&self) -> bool {
        opened(self@.path, self@.level, self@.data) == Ok::<TableView, StorageError>(self@)
    }

    /// Opens a table of level 0.
    pub fn open(path: String, data: Vec<u8>) -> (r: Result<Self, StorageError>)
        ensures
            match r {
                Ok(reader) => reader.inv() && opened(path@, 0, data@) == Ok::<
                    TableView,
                    StorageError,
                >(reader@),
                Err(e) => opened(path@, 0, data@) == Err::<TableView, StorageError>(e),
            },
    {
        Self::open_at_level(path, data, 0)
    }

    /// Opens a table of a given level from the bytes of its file.
    pub fn open_at_level(path: String, data: Vec<u8>, level: usize) -> (r: Result<
        Self,
        StorageError,
    >)
        ensures
            match r {
                Ok(reader) => reader.inv() && opened(path@, level, data@) == Ok::<
                    TableView,
                    StorageError,
                >(reader@) && reader@.path == path@ && reader@.level == level && reader@.data
                    == data@,
                Err(e) => opened(path@, level, data@) == Err::<TableView, StorageError>(e),
            },
    {
        reveal(opened);
        if data.len() < layout::HEADER_SIZE + layout::FOOTER_SIZE {
            return Err(StorageError::InvalidFormat(FormatFault::TooSmall));
        }
        let header = match SSTableHeader::decode(
            vstd::slice::slice_subrange(data.as_slice(), 0, layout::HEADER_SIZE),
        ) {
            Some(h) => h,
            None => return Err(StorageError::InvalidFormat(FormatFault::InvalidHeader)),
        };
        let footer_start: usize = data.len() - layout::FOOTER_SIZE;
        let footer_data = vstd::slice::slice_subrange(data.as_slice(), footer_start, data.len());
        assert(footer_data@ =~= data@.skip(footer_start as int));
        let footer = match SSTableFooter::decode(footer_data) {
            Some(f) => f,
            None => return Err(StorageError::InvalidFormat(FormatFault::TooSmall)),
        };
        let body = vstd::slice::slice_subrange(data.as_slice(), 0, footer_start);
        assert(body@ =~= data@.take(footer_start as int));
        let actual: u32 = crc32fast::hash(body);
        if footer.checksum != actual {
            return Err(StorageError::ChecksumMismatch { expected: footer.checksum, actual });
        }
        let index_data = match Self::section(&data, footer.index_offset, footer.index_size) {
            Some(s) => s,
            None => return Err(StorageError::InvalidFormat(FormatFault::SectionOutOfRange)),
        };
        let plain = match compress::decompress_data(index_data, header.compression) {
            Ok(p) => p,
            Err(e) => return Err(e),
        };
        let index = match Self::parse_index(plain.as_slice()) {
            Some(i) => i,
            None => return Err(StorageError::CorruptIndex),
        };
        let bloom_data = match Self::section(&data, footer.bloom_offset, footer.bloom_size) {
            Some(s) => s,
            None => return Err(StorageError::InvalidFormat(FormatFault::SectionOutOfRange)),
        };
        let bloom = match BloomFilter::decode(bloom_data) {
            Some(b) => b,
            None => return Err(StorageError::InvalidFormat(FormatFault::InvalidBloomFilter)),
        };
        Ok(SSTableReader { path, data, header, footer, index, bloom, level })
    }

    /// The bytes of a section, if it lies in the file.
    fn section(data: &Vec<u8>, offset: u64, size: u32) -> (r: Option<&[u8]>)
        ensures
            match r {
                Some(s) => in_file(data@, offset, size) && s@ == section(data@, offset, size),
                None => !in_file(data@, offset, size),
            },
    {
        let len: u64 = data.len() as u64;
        if offset > len || size as u64 > len - offset {
            return None;
        }
        let start: usize = offset as usize;
        let end: usize = start + size as usize;
        Some(vstd::slice::slice_subrange(data.as_slice(), start, end))
    }

    /// Reads the entries of an index block.
    fn parse_index(data: &[u8]) -> (r: Option<Vec<IndexEntry>>)
        ensures
            parsed_index(data@) == (match r {
                Some(entries) => Some(writer::entry_views(entries@)),
                None => None,
            }),
    {
        let mut entries: Vec<IndexEntry> = Vec::new();
        assert(writer::entry_views(entries@) =~= Seq::empty());
        if data.len() < 4 {
            return Some(entries);
        }
        let count: u32 = codec::get_u32(data, 0);
        let mut left: u32 = count;
        let mut offset: usize = 4;
        proof {
            let all = entries_at(data@, 4, count as nat);
            if all is Some {
                assert(Seq::empty() + all->Some_0 =~= all->Some_0);
            }
        }
        while left > 0
            invariant
                4 <= offset <= data@.len(),
                count == codec::u32_at(data@, 0),
                match entries_at(data@, offset as int, left as nat) {
                    Some(rest) => entries_at(data@, 4, count as nat) == Some(
                        writer::entry_views(entries@) + rest,
                    ),
                    None => entries_at(data@, 4, count as nat) is None,
                },
            decreases left,
        {
            let rest = vstd::slice::slice_subrange(data, offset, data.len());
            assert(rest@ =~= data@.skip(offset as int));
            match IndexEntry::decode(rest) {
                Some((entry, size)) => {
                    let ghost before = writer::entry_views(entries@);
                    entries.push(entry);
                    proof {
                        assert(writer::entry_views(entries@) =~= before.push(entry@));
                        let tail = entries_at(data@, offset + size, (left - 1) as nat);
                        if tail is Some {
                            assert(before + (seq![entry@] + tail->Some_0) =~= before.push(entry@)
                                + tail->Some_0);
                        }
                    }
                    offset = offset + size;
                    left = left - 1;
                },
                None => return None,
            }
        }
        assert(writer::entry_views(entries@) + Seq::<layout::IndexEntryView>::empty()
            =~= writer::entry_views(entries@));
        Some(entries)
    }

    /// The block to search for a key. The index has to be in key order for the
    /// answer to be right, as it is in a table written in key order.
    pub fn find_block_for_key(&self, key: &[u8]) -> (r: usize)
        requires
            self@.index.len() > 0,
        ensures
            r < self@.index.len(),
            order::strictly_sorted(self@.index_keys()) ==> self@.is_block_for(r as int, key@),
    {
        let n: usize = self.index.len();
        let mut lo: usize = 0;
        let mut hi: usize = n;
        while lo < hi
            invariant
                n == self@.index.len(),
                0 <= lo <= hi <= n,
                order::strictly_sorted(self@.index_keys()) ==> {
                    &&& lo > 0 ==> order::lex_le(self@.index[lo - 1].key, key@)
                    &&& hi < n ==> order::lex_lt(key@, self@.index[hi as int].key)
                },
            decreases hi - lo,
        {
            let mid: usize = lo + (hi - lo) / 2;
            assert(self@.index[mid as int].key == self.index@[mid as int].key@);
            match order::compare_keys(self.index[mid].key.as_slice(), key) {
                order::KeyOrder::Greater => {
                    hi = mid;
                },
                _ => {
                    lo = mid + 1;
                },
            }
        }
        proof {
            if order::strictly_sorted(self@.index_keys()) && lo == 0 && n > 1 {
                let keys = self@.index_keys();
                assert(order::lex_lt(keys[0], keys[1]));
                order::lemma_lex_transitive(key@, keys[0], keys[1]);
            }
        }
        if lo == 0 {
            0
        } else {
            lo - 1
        }
    }

    /// Reads a block.
    pub fn load_block(&self, block_idx: usize) -> (r: Result<Arc<Block>, StorageError>)
        requires
            block_idx < self@.index.len(),
        ensures
            self@.block(block_idx as int) == (match r {
                Ok(b) => Ok(b@),
                Err(e) => Err(e),
            }),
    {
        let entry = &self.index[block_idx];
        assert(self@.index[block_idx as int] == entry@);
        let packed = match Self::section(&self.data, entry.offset, entry.size) {
            Some(s) => s,
            None => return Err(StorageError::InvalidFormat(FormatFault::SectionOutOfRange)),
        };
        let plain = match compress::decompress_data(packed, self.header.compression) {
            Ok(p) => p,
            Err(e) => return Err(e),
        };
        match Block::parse(plain) {
            Some(b) => Ok(Arc::new(b)),
            None => Err(StorageError::Decompression),
        }
    }

    /// Reads a block, through a cache that agrees with the table.
    pub fn load_block_cached(&self, block_idx: usize, cache: &mut BlockCache) -> (r: Result<
        Arc<Block>,
        StorageError,
    >)
        requires
            block_idx < self@.index.len(),
            old(cache).inv(),
        ensures
            self@.fetched(old(cache)@, block_idx as int) == (match r {
                Ok(b) => Ok(b@),
                Err(e) => Err(e),
            }),
            final(cache).inv(),
            final(cache)@ == self@.cache_after(old(cache)@, block_idx as int),
    {
        let offset: u64 = self.index[block_idx].offset;
        assert(self@.index[block_idx as int].offset == offset);
        let key = BlockCacheKey { path: self.path.clone(), offset };
        if let Some(b) = cache.get(&key) {
            return Ok(b);
        }
        match self.load_block(block_idx) {
            Ok(b) => {
                cache.insert(key, share::share(&b));
                Ok(b)
            },
            Err(e) => Err(e),
        }
    }

    /// Looks a key up, through a cache.
    pub fn get_cached(&self, key: &[u8], cache: &mut BlockCache) -> (r: Result<
        Option<Record>,
        StorageError,
    >)
        requires
            self.inv(),
            old(cache).inv(),
        ensures
            final(cache).inv(),
            self@.answers_through(key@, old(cache)@, looked_up(r), final(cache)@),
    {
        if self.index.len() == 0 {
            return Ok(None);
        }
        let i: usize = self.find_block_for_key(key);
        let ghost before = cache@;
        let r = self.fetch_in_block(i, key, cache);
        assert(self@.answers_from(i as int, key@, before, looked_up(r), cache@));
        r
    }

    /// Looks a key up in a block, through a cache.
    fn fetch_in_block(&self, block_idx: usize, key: &[u8], cache: &mut BlockCache) -> (r: Result<
        Option<Record>,
        StorageError,
    >)
        requires
            self.inv(),
            block_idx < self@.index.len(),
            old(cache).inv(),
        ensures
            final(cache).inv(),
            if self@.passes(key@) {
                final(cache)@ == self@.cache_after(old(cache)@, block_idx as int) && looked_up(r)
                    == (match self@.fetched(old(cache)@, block_idx as int) {
                    Ok(b) => Ok(block::find_key(b.records, key@)),
                    Err(e) => Err(e),
                })
            } else {
                final(cache)@ == old(cache)@ && looked_up(r) == Ok::<
                    Option<layout::RecordView>,
                    StorageError,
                >(None)
            },
    {
        if !self.may_contain(key) {
            return Ok(None);
        }
        match self.load_block_cached(block_idx, cache) {
            Ok(b) => match b.get(key) {
                Some(record) => Ok(Some(record.clone())),
                None => Ok(None),
            },
            Err(e) => Err(e),
        }
    }

    /// Looks a key up in a block.
    fn get_in_block(&self, block_idx: usize, key: &[u8]) -> (r: Result<Option<Record>, StorageError>)
        requires
            self.inv(),
            block_idx < self@.index.len(),
        ensures
            looked_up(r) == self@.lookup(block_idx as int, key@),
    {
        if !self.may_contain(key) {
            return Ok(None);
        }
        match self.load_block(block_idx) {
            Ok(b) => match b.get(key) {
                Some(record) => Ok(Some(record.clone())),
                None => Ok(None),
            },
            Err(e) => Err(e),
        }
    }

    /// Looks a key up.
    pub fn get(&self, key: &[u8]) -> (r: Result<Option<Record>, StorageError>)
        requires
            self.inv(),
        ensures
            self@.answers(key@, looked_up(r)),
    {
        if self.index.len() == 0 {
            return Ok(None);
        }
        let i: usize = self.find_block_for_key(key);
        self.get_in_block(i, key)
    }

    /// Whether a key may be in the table, going by the filter.
    pub fn may_contain(&self, key: &[u8]) -> (r: bool)
        requires
            self.inv(),
        ensures
            r == self@.passes(key@),
    {
        proof {
            lemma_opened_filter(self@);
        }
        if self.bloom.num_bits() == 0 && self.bloom.num_hashes() > 0 {
            return true;
        }
        self.bloom.may_contain(key)
    }

    /// The records in the order of the file, up to the first block that cannot be read,
    /// and why that cannot be read.
    pub fn read_records(&self) -> (r: (Vec<Record>, Option<StorageError>))
        ensures
            (block::record_views(r.0@), r.1) == self@.read_from(0),
    {
        let mut out: Vec<Record> = Vec::new();
        let mut i: usize = 0;
        assert(block::record_views(out@) + self@.read_from(0).0 =~= self@.read_from(0).0);
        while i < self.index.len()
            invariant
                i <= self.index@.len() == self@.index.len(),
                self@.read_from(0) == (
                    block::record_views(out@) + self@.read_from(i as int).0,
                    self@.read_from(i as int).1,
                ),
            decreases self.index@.len() - i,
        {
            match self.load_block(i) {
                Ok(b) => {
                    let ghost before = block::record_views(out@);
                    append_records(&mut out, &b);
                    proof {
                        let rest = self@.read_from(i + 1).0;
                        assert(before + (b@.records + rest) =~= block::record_views(out@) + rest);
                    }
                },
                Err(e) => {
                    assert(block::record_views(out@) + Seq::<layout::RecordView>::empty()
                        =~= block::record_views(out@));
                    return (out, Some(e));
                },
            }
            i = i + 1;
        }
        assert(block::record_views(out@) + Seq::<layout::RecordView>::empty()
            =~= block::record_views(out@));
        (out, None)
    }

    /// All records in the order of the file, or why they cannot be read.
    pub fn iter(&self) -> (r: Result<Vec<Record>, StorageError>)
        ensures
            self@.records() == (match r {
                Ok(records) => Ok(block::record_views(records@)),
                Err(e) => Err(e),
            }),
    {
        let (records, fault) = self.read_records();
        proof {
            law_records_read(self@, 0);
        }
        match fault {
            Some(e) => Err(e),
            None => Ok(records),
        }
    }

    /// What is known of the table without reading its blocks. The keys are the
    /// first 16 bytes of the smallest and the largest key, zero-padded.
    pub fn meta(&self) -> (r: SSTableMeta)
        ensures
            r.path@ == self@.path,
            r.compression == self@.header.compression,
            r.record_count == self@.header.record_count,
            r.file_size == self@.data.len(),
            r.min_key@ == self@.header.min_key,
            r.max_key@ == self@.header.max_key,
            r.level == self@.level,
    {
        SSTableMeta {
            path: self.path.clone(),
            compression: self.header.compression,
            record_count: self.header.record_count,
            file_size: self.data.len() as u64,
            min_key: vstd::slice::slice_to_vec(self.header.min_key.as_slice()),
            max_key: vstd::slice::slice_to_vec(self.header.max_key.as_slice()),
            level: self.level,
        }
    }

    /// The path of the table.
    pub fn path(&self) -> (r: &String)
        ensures
            r@ == self@.path,
    {
        &self.path
    }

    /// The file of the table.
    pub fn image(&self) -> (r: &Vec<u8>)
        ensures
            r@ == self@.data,
    {
        &self.data
    }

    /// The number of records.
    pub fn record_count(&self) -> (r: u64)
        ensures
            r == self@.header.record_count,
    {
        self.header.record_count
    }

    /// The level of the table.
    pub fn level(&self) -> (r: usize)
        ensures
            r == self@.level,
    {
        self.level
    }

    /// The number of blocks.
    pub fn block_count(&self) -> (r: usize)
        ensures
            r == self@.index.len(),
    {
        self.index.len()
    }
}

/// A table has all its records exactly if none of its blocks is unreadable; else it
/// has the fault of the first block that is.
pub proof fn law_records_read(table: TableView, i: int)
    ensures
        table.records_from(i) == (match table.read_from(i).1 {
            Some(e) => Err(e),
            None => Ok::<Seq<layout::RecordView>, StorageError>(table.read_from(i).0),
        }),
    decreases table.index.len() - i,
{
    if 0 <= i < table.index.len() {
        law_records_read(table, i + 1);
    }
}

/// The filter of a table that was opened has as many words as its bits need.
proof fn lemma_opened_filter(table: TableView)
    requires
        opened(table.path, table.level, table.data) == Ok::<TableView, StorageError>(table),
    ensures
        table.bloom.wf(),
{
    reveal(opened);
}

/// Appends copies of a block's records.
fn append_records(out: &mut Vec<Record>, b: &Arc<Block>)
    ensures
        block::record_views(final(out)@) == block::record_views(old(out)@) + b@.records,
{
    let ghost start = block::record_views(out@);
    let records = b.iter();
    let mut j: usize = 0;
    assert(block::record_views(out@) =~= start + b@.records.take(0));
    while j < records.len()
        invariant
            j <= records@.len(),
            block::record_views(records@) == b@.records,
            block::record_views(out@) == start + b@.records.take(j as int),
        decreases records@.len() - j,
    {
        let record = records[j].clone();
        assert(record@ == b@.records[j as int]);
        let ghost before = block::record_views(out@);
        out.push(record);
        j = j + 1;
        assert(block::record_views(out@) =~= before.push(record@));
        assert(b@.records.take(j as int) =~= b@.records.take(j - 1).push(record@));
        assert(block::record_views(out@) =~= start + b@.records.take(j as int));
    }
    assert(b@.records.take(j as int) =~= b@.records);
}

/// Whether key and value of every record are within the range of their length
/// fields.
pub open spec fn all_storable(records: Seq<layout::RecordView>) -> bool {
    forall|i: int| 0 <= i < records.len() ==> (#[trigger] records[i]).storable()
}

proof fn lemma_block_bytes_first(records: Seq<layout::RecordView>)
    requires
        records.len() > 0,
    ensures
        writer::block_bytes(records) == records[0].bytes() + writer::block_bytes(records.skip(1)),
    decreases records.len(),
{
    let whole = writer::block_bytes(records);
    let split = records[0].bytes() + writer::block_bytes(records.skip(1));
    if records.len() == 1 {
        assert(records.drop_last() =~= Seq::empty());
        assert(records.skip(1) =~= Seq::empty());
        assert(whole =~= split);
    } else {
        let init = records.drop_last();
        lemma_block_bytes_first(init);
        assert(init.skip(1) =~= records.skip(1).drop_last());
        assert(records.skip(1).last() == records.last());
        assert(whole =~= split);
    }
}

/// The records of a block read back as they were written.
proof fn lemma_parsed(data: Seq<u8>, at: int, records: Seq<layout::RecordView>)
    requires
        all_storable(records),
        0 <= at <= data.len(),
        data.skip(at) == writer::block_bytes(records),
    ensures
        block::parsed(data, at) == records,
    decreases records.len(),
{
    if records.len() == 0 {
        assert(data.skip(at).len() == 0);
        assert(records =~= Seq::empty());
    } else {
        lemma_block_bytes_first(records);
        let rest = records.skip(1);
        let r = records[0];
        assert(r.storable());
        layout::law_record_roundtrip(r, writer::block_bytes(rest));
        let n = r.bytes().len() as int;
        codec::lemma_skip_front(data, at, r.bytes(), writer::block_bytes(rest));
        assert forall|i: int| 0 <= i < rest.len() implies (#[trigger] rest[i]).storable() by {
            assert(records[i + 1].storable());
        }
        lemma_parsed(data, at + n, rest);
        assert(seq![r] + rest =~= records);
    }
}

/// A block reads back as the records it was written from.
pub proof fn law_block_roundtrip(records: Seq<layout::RecordView>)
    requires
        all_storable(records),
    ensures
        block::block_of(writer::block_bytes(records)).records == records,
{
    let data = writer::block_bytes(records);
    assert(data.skip(0) =~= data);
    lemma_parsed(data, 0, records);
}

/// Whether every key is within the range of its length field.
pub open spec fn index_fits(entries: Seq<layout::IndexEntryView>) -> bool {
    forall|i: int| 0 <= i < entries.len() ==> (#[trigger] entries[i]).key.len() <= u16::MAX
}

proof fn lemma_entry_bytes_first(entries: Seq<layout::IndexEntryView>)
    requires
        entries.len() > 0,
    ensures
        writer::entry_bytes(entries) == entries[0].bytes() + writer::entry_bytes(entries.skip(1)),
    decreases entries.len(),
{
    let whole = writer::entry_bytes(entries);
    let split = entries[0].bytes() + writer::entry_bytes(entries.skip(1));
    if entries.len() == 1 {
        assert(entries.drop_last() =~= Seq::empty());
        assert(entries.skip(1) =~= Seq::empty());
        assert(whole =~= split);
    } else {
        let init = entries.drop_last();
        lemma_entry_bytes_first(init);
        assert(init.skip(1) =~= entries.skip(1).drop_last());
        assert(entries.skip(1).last() == entries.last());
        assert(whole =~= split);
    }
}

/// The entries of an index read back as they were written.
proof fn lemma_entries_at(data: Seq<u8>, at: int, entries: Seq<layout::IndexEntryView>)
    requires
        index_fits(entries),
        0 <= at <= data.len(),
        data.skip(at) == writer::entry_bytes(entries),
    ensures
        entries_at(data, at, entries.len()) == Some(entries),
    decreases entries.len(),
{
    if entries.len() == 0 {
        assert(entries =~= Seq::empty());
    } else {
        lemma_entry_bytes_first(entries);
        let rest = entries.skip(1);
        let e = entries[0];
        layout::law_entry_roundtrip(e, writer::entry_bytes(rest));
        let n = e.bytes().len() as int;
        codec::lemma_skip_front(data, at, e.bytes(), writer::entry_bytes(rest));
        assert forall|i: int| 0 <= i < rest.len() implies (#[trigger] rest[i]).key.len()
            <= u16::MAX by {
            assert(entries[i + 1].key.len() <= u16::MAX);
        }
        lemma_entries_at(data, at + n, rest);
        assert(seq![e] + rest =~= entries);
    }
}

/// An index block reads back as the entries it was written from.
pub proof fn law_index_roundtrip(entries: Seq<layout::IndexEntryView>)
    requires
        index_fits(entries),
        entries.len() <= u32::MAX,
    ensures
        parsed_index(writer::index_bytes(entries)) == Some(entries),
{
    let data = writer::index_bytes(entries);
    assert(data.subrange(0, 4) =~= codec::u32_le(entries.len() as u32));
    codec::lemma_u32_at(data, 0, entries.len() as u32);
    assert(data.skip(4) =~= writer::entry_bytes(entries));
    lemma_entries_at(data, 4, entries);
}

/// Whether a table's blocks hold exactly the given records, none of the blocks is
/// empty, the index has their first keys, and the filter knows all keys.
pub open spec fn holds_blocks(table: TableView, blocks: Seq<Seq<layout::RecordView>>) -> bool {
    &&& table.index.len() == blocks.len()
    &&& forall|i: int|
        0 <= i < blocks.len() ==> {
            &&& (#[trigger] blocks[i]).len() > 0
            &&& table.index[i].key == blocks[i][0].key
            &&& table.block(i) matches Ok(b) && b.records == blocks[i]
        }
    &&& forall|i: int, j: int|
        0 <= i < blocks.len() && 0 <= j < blocks[i].len() ==> table.passes(
            (#[trigger] blocks[i][j]).key,
        )
}

/// Whether a table holds exactly the given records, in their order.
pub open spec fn holds(table: TableView, records: Seq<layout::RecordView>) -> bool {
    &&& table.header.record_count == records.len()
    &&& records.len() > 0 ==> table.header.min_key == order::padded(records[0].key, 16)
        && table.header.max_key == order::padded(records.last().key, 16)
    &&& exists|blocks: Seq<Seq<layout::RecordView>>|
        #[trigger] writer::flattened(blocks) == records && holds_blocks(table, blocks)
}

/// Whether a file can be opened as a table that holds exactly the given records.
pub open spec fn is_table_of(
    path: Seq<char>,
    level: usize,
    data: Seq<u8>,
    records: Seq<layout::RecordView>,
) -> bool {
    opened(path, level, data) matches Ok(table) && holds(table, records)
}

/// The table that a finished writer's file opens as.
spec fn written_table(
    done: writer::WriterView,
    packed: Seq<u8>,
    file: Seq<u8>,
    path: Seq<char>,
    level: usize,
) -> TableView {
    TableView {
        path,
        level,
        data: file,
        header: done.header(),
        footer: done.footer(packed, done.body(packed)),
        index: done.index,
        bloom: done.bloom,
    }
}

/// Where the parts of a finished file stand.
proof fn lemma_file_parts(
    file: Seq<u8>,
    header: Seq<u8>,
    image: Seq<u8>,
    index: Seq<u8>,
    filter: Seq<u8>,
    footer: Seq<u8>,
)
    requires
        header.len() == 64,
        image.len() >= 64,
        footer.len() == 32,
        file == header + image.skip(64) + index + filter + footer,
    ensures
        file.len() == image.len() + index.len() + filter.len() + 32,
        file.subrange(0, 64) == header,
        file.skip(file.len() - 32) == footer,
        file.take(file.len() - 32) == header + image.skip(64) + index + filter,
        file.subrange(image.len() as int, image.len() + index.len() as int) == index,
        file.subrange(
            image.len() + index.len() as int,
            image.len() + index.len() + filter.len() as int,
        ) == filter,
        forall|a: int, b: int|
            64 <= a <= b <= image.len() ==> #[trigger] file.subrange(a, b) == image.subrange(a, b),
{
    assert(file.subrange(0, 64) =~= header);
    assert(file.skip(file.len() - 32) =~= footer);
    assert(file.take(file.len() - 32) =~= header + image.skip(64) + index + filter);
    assert(file.subrange(image.len() as int, image.len() + index.len() as int) =~= index);
    assert(file.subrange(
        image.len() + index.len() as int,
        image.len() + index.len() + filter.len() as int,
    ) =~= filter);
    assert forall|a: int, b: int| 64 <= a <= b <= image.len() implies #[trigger] file.subrange(
        a,
        b,
    ) == image.subrange(a, b) by {
        assert(file.subrange(a, b) =~= image.subrange(a, b));
    }
}

/// The length of a list of words in bytes.
proof fn lemma_long_bytes_len(words: Seq<u64>)
    ensures
        bloom::long_bytes(words).len() == 8 * words.len(),
    decreases words.len(),
{
    if words.len() > 0 {
        lemma_long_bytes_len(words.drop_last());
    }
}

/// A finished file opens as the table that was written.
proof fn lemma_file_opens(
    done: writer::WriterView,
    packed: Seq<u8>,
    file: Seq<u8>,
    path: Seq<char>,
    level: usize,
)
    requires
        done.wf(),
        done.records.len() <= u64::MAX,
        done.index.len() <= u32::MAX,
        index_fits(done.index),
        packed.len() <= u32::MAX,
        compress::unpacked(packed, done.compression) == Some(writer::index_bytes(done.index)),
        done.image.len() + packed.len() <= u64::MAX,
        file == done.body(packed) + layout::footer_bytes(done.footer(packed, done.body(packed))),
    ensures
        opened(path, level, file) == Ok::<TableView, StorageError>(
            written_table(done, packed, file, path, level),
        ),
        forall|a: int, b: int|
            64 <= a <= b <= done.image.len() ==> #[trigger] file.subrange(a, b)
                == done.image.subrange(a, b),
        done.image.len() <= file.len(),
{
    let footer = done.footer(packed, done.body(packed));
    lemma_header_and_filter(done);
    layout::law_footer_roundtrip(footer);
    law_index_roundtrip(done.index);
    lemma_parts_open(
        path,
        level,
        file,
        done.header(),
        done.header().bytes(),
        done.image,
        packed,
        writer::index_bytes(done.index),
        done.index,
        done.bloom.bytes(),
        done.bloom,
        footer,
        layout::footer_bytes(footer),
    );
}

/// Header and filter of a finished table read back as they were written.
proof fn lemma_header_and_filter(done: writer::WriterView)
    requires
        done.wf(),
    ensures
        done.header().bytes().len() == 64,
        layout::decoded_header(done.header().bytes()) == Some(done.header()),
        done.bloom.bytes().len() <= u32::MAX,
        bloom::decoded(done.bloom.bytes()) == Some(done.bloom),
{
    let none = Seq::<u8>::empty();
    layout::law_header_roundtrip(done.header(), none);
    assert(done.header().bytes() + none =~= done.header().bytes());
    lemma_long_bytes_len(done.bloom.words);
    bloom::law_filter_roundtrip(done.bloom, none);
    assert(done.bloom.bytes() + none =~= done.bloom.bytes());
}

/// A file made of parts that can be read opens as the table of these parts.
proof fn lemma_parts_open(
    path: Seq<char>,
    level: usize,
    file: Seq<u8>,
    header: layout::HeaderView,
    header_bytes: Seq<u8>,
    image: Seq<u8>,
    packed: Seq<u8>,
    plain: Seq<u8>,
    index: Seq<layout::IndexEntryView>,
    filter_bytes: Seq<u8>,
    filter: bloom::BloomView,
    footer: SSTableFooter,
    footer_bytes: Seq<u8>,
)
    requires
        header_bytes.len() == 64,
        layout::decoded_header(header_bytes) == Some(header),
        image.len() >= 64,
        footer_bytes.len() == 32,
        layout::decoded_footer(footer_bytes) == Some(footer),
        file == header_bytes + image.skip(64) + packed + filter_bytes + footer_bytes,
        footer.index_offset == image.len(),
        footer.index_size == packed.len(),
        footer.bloom_offset == image.len() + packed.len(),
        footer.bloom_size == filter_bytes.len(),
        footer.checksum == checksum::crc32(header_bytes + image.skip(64) + packed + filter_bytes),
        compress::unpacked(packed, header.compression) == Some(plain),
        parsed_index(plain) == Some(index),
        bloom::decoded(filter_bytes) == Some(filter),
    ensures
        opened(path, level, file) == Ok::<TableView, StorageError>(
            TableView { path, level, data: file, header, footer, index, bloom: filter },
        ),
        forall|a: int, b: int|
            64 <= a <= b <= image.len() ==> #[trigger] file.subrange(a, b) == image.subrange(a, b),
        image.len() <= file.len(),
{
    lemma_file_parts(file, header_bytes, image, packed, filter_bytes, footer_bytes);
    lemma_opens(path, level, file, header, footer, plain, index, filter);
}

/// A file all of whose parts can be read opens as the table of these parts.
proof fn lemma_opens(
    path: Seq<char>,
    level: usize,
    file: Seq<u8>,
    header: layout::HeaderView,
    footer: SSTableFooter,
    plain: Seq<u8>,
    index: Seq<layout::IndexEntryView>,
    filter: bloom::BloomView,
)
    requires
        file.len() >= 96,
        layout::decoded_header(file.subrange(0, 64)) == Some(header),
        layout::decoded_footer(file.skip(file.len() - 32)) == Some(footer),
        footer.checksum == checksum::crc32(file.take(file.len() - 32)),
        in_file(file, footer.index_offset, footer.index_size),
        compress::unpacked(
            section(file, footer.index_offset, footer.index_size),
            header.compression,
        ) == Some(plain),
        parsed_index(plain) == Some(index),
        in_file(file, footer.bloom_offset, footer.bloom_size),
        bloom::decoded(section(file, footer.bloom_offset, footer.bloom_size)) == Some(filter),
    ensures
        opened(path, level, file) == Ok::<TableView, StorageError>(
            TableView { path, level, data: file, header, footer, index, bloom: filter },
        ),
{
    reveal(opened);
}

/// A table file in which one byte before the footer, or one byte of the checksum, was
/// changed is refused. Behind the header it is always the checksum that shows it.
#[verifier::spinoff_prover]
#[verifier::rlimit(50)]
pub proof fn law_changed_table_is_refused(
    path: Seq<char>,
    level: usize,
    data: Seq<u8>,
    at: int,
    byte: u8,
)
    requires
        opened(path, level, data) is Ok,
        0 <= at < data.len() - 32 || data.len() - 8 <= at < data.len() - 4,
        byte != data[at],
    ensures
        opened(path, level, data.update(at, byte)) is Err,
        at >= 64 ==> opened(path, level, data.update(at, byte)) matches Err(
            StorageError::ChecksumMismatch { .. },
        ),
{
    reveal(opened);
    let n = data.len() - 32;
    let changed = data.update(at, byte);
    if at < n {
        assert(changed.take(n) =~= data.take(n).update(at, byte));
        assert(changed.skip(n) =~= data.skip(n));
        checksum::law_changed_byte(data.take(n), at, byte);
    } else {
        assert(changed.take(n) =~= data.take(n));
        assert(changed.skip(n) =~= data.skip(n).update(at - n, byte));
        codec::lemma_u32_changed(data.skip(n), 24, at - n, byte);
    }
    if at >= 64 {
        assert(changed.subrange(0, 64) =~= data.subrange(0, 64));
    }
}

/// A finished file holds the records that were added.
pub proof fn lemma_file_holds(
    done: writer::WriterView,
    packed: Seq<u8>,
    file: Seq<u8>,
    path: Seq<char>,
    level: usize,
)
    requires
        done.wf(),
        done.open.len() == 0,
        done.intact,
        all_storable(done.records),
        done.records.len() <= u64::MAX,
        done.index.len() <= u32::MAX,
        packed.len() <= u32::MAX,
        compress::unpacked(packed, done.compression) == Some(writer::index_bytes(done.index)),
        done.image.len() + packed.len() <= u64::MAX,
        file == done.body(packed) + layout::footer_bytes(done.footer(packed, done.body(packed))),
    ensures
        is_table_of(path, level, file, done.records),
{
    let blocks = done.blocks;
    let table = written_table(done, packed, file, path, level);
    assert(writer::flattened(blocks) + done.open =~= writer::flattened(blocks));
    assert forall|i: int, j: int| 0 <= i < blocks.len() && 0 <= j < blocks[i].len() implies
        done.records.contains(#[trigger] blocks[i][j]) by {
        lemma_flattened_contains(blocks, i, j);
    }
    assert forall|i: int, j: int| 0 <= i < blocks.len() && 0 <= j < blocks[i].len() implies (
    #[trigger] blocks[i][j]).storable() by {
        let k = choose|k: int| 0 <= k < done.records.len() && done.records[k] == blocks[i][j];
        assert(done.records[k].storable());
    }
    assert forall|i: int| 0 <= i < done.index.len() implies (#[trigger] done.index[i]).key.len()
        <= u16::MAX by {
        assert(done.block_stands(i));
        assert(blocks[i][0].storable());
    }
    lemma_file_opens(done, packed, file, path, level);
    assert forall|i: int| 0 <= i < blocks.len() implies {
        &&& (#[trigger] blocks[i]).len() > 0
        &&& table.index[i].key == blocks[i][0].key
        &&& table.block(i) matches Ok(b) && b.records == blocks[i]
    } by {
        assert(done.block_stands(i));
        let e = done.index[i];
        assert(section(file, e.offset, e.size) == done.image.subrange(
            e.offset as int,
            e.offset + e.size,
        ));
        assert(all_storable(blocks[i])) by {
            assert forall|j: int| 0 <= j < blocks[i].len() implies (
            #[trigger] blocks[i][j]).storable() by {}
        }
        law_block_roundtrip(blocks[i]);
    }
    assert forall|i: int, j: int| 0 <= i < blocks.len() && 0 <= j < blocks[i].len() implies
        table.passes((#[trigger] blocks[i][j]).key) by {
        let k = choose|k: int| 0 <= k < done.records.len() && done.records[k] == blocks[i][j];
        assert(done.bloom.contains(done.records[k].key));
    }
    assert(holds_blocks(table, blocks));
}

/// Every record of a block is among all records.
pub proof fn lemma_flattened_contains(blocks: Seq<Seq<layout::RecordView>>, i: int, j: int)
    requires
        0 <= i < blocks.len(),
        0 <= j < blocks[i].len(),
    ensures
        writer::flattened(blocks).contains(blocks[i][j]),
    decreases blocks.len(),
{
    let init = blocks.drop_last();
    let all = writer::flattened(blocks);
    let n = writer::flattened(init).len() as int;
    if i == blocks.len() - 1 {
        assert(all[n + j] == blocks[i][j]);
    } else {
        lemma_flattened_contains(init, i, j);
        let k = choose|k: int|
            0 <= k < n && writer::flattened(init)[k] == init[i][j];
        assert(all[k] == blocks[i][j]);
    }
}

/// The keys of some records.
pub open spec fn record_keys(records: Seq<layout::RecordView>) -> Seq<Seq<u8>> {
    Seq::new(records.len(), |i: int| records[i].key)
}

/// Whether the keys of some records come in strictly ascending order.
pub open spec fn sorted_records(records: Seq<layout::RecordView>) -> bool {
    order::strictly_sorted(record_keys(records))
}

/// A key that no record has is not found.
pub proof fn lemma_find_absent(records: Seq<layout::RecordView>, key: Seq<u8>)
    requires
        forall|i: int| 0 <= i < records.len() ==> (#[trigger] records[i]).key != key,
    ensures
        block::find_key(records, key) is None,
    decreases records.len(),
{
    if records.len() > 0 {
        let rest = records.skip(1);
        assert forall|i: int| 0 <= i < rest.len() implies (#[trigger] rest[i]).key != key by {
            assert(records[i + 1].key != key);
        }
        assert(records[0].key != key);
        lemma_find_absent(rest, key);
    }
}

/// What is found has the key and is among the records.
pub proof fn lemma_find_some(records: Seq<layout::RecordView>, key: Seq<u8>)
    ensures
        block::find_key(records, key) matches Some(r) ==> r.key == key && records.contains(r),
        block::find_key(records, key) is None ==> forall|i: int|
            0 <= i < records.len() ==> (#[trigger] records[i]).key != key,
    decreases records.len(),
{
    if records.len() > 0 {
        let rest = records.skip(1);
        lemma_find_some(rest, key);
        if records[0].key == key {
            assert(records.contains(records[0]));
        } else {
            let found = block::find_key(rest, key);
            if found is Some {
                let k = choose|k: int| 0 <= k < rest.len() && rest[k] == found->Some_0;
                assert(records[k + 1] == found->Some_0);
            } else {
                assert forall|i: int| 0 <= i < records.len() implies (#[trigger] records[i]).key
                    != key by {
                    if i > 0 {
                        assert(rest[i - 1].key != key);
                    }
                }
            }
        }
    }
}

/// Of records in key order the one with the key is found.
pub proof fn lemma_find_at(records: Seq<layout::RecordView>, k: int)
    requires
        sorted_records(records),
        0 <= k < records.len(),
    ensures
        block::find_key(records, records[k].key) == Some(records[k]),
{
    let key = records[k].key;
    lemma_find_some(records, key);
    let found = block::find_key(records, key);
    if found is None {
        assert(records[k].key != key);
    } else {
        let j = choose|j: int| 0 <= j < records.len() && records[j] == found->Some_0;
        let keys = record_keys(records);
        if j < k {
            assert(order::lex_lt(keys[j], keys[k]));
            order::lemma_lex_irreflexive(key);
        } else if k < j {
            assert(order::lex_lt(keys[k], keys[j]));
            order::lemma_lex_irreflexive(key);
        }
    }
}

/// The number of records before block `i`.
spec fn before_block(blocks: Seq<Seq<layout::RecordView>>, i: int) -> int {
    writer::flattened(blocks.take(i)).len() as int
}

/// Where the records of the blocks stand among all records.
proof fn lemma_before_block(blocks: Seq<Seq<layout::RecordView>>, i: int)
    requires
        0 <= i < blocks.len(),
    ensures
        0 <= before_block(blocks, i),
        before_block(blocks, i + 1) == before_block(blocks, i) + blocks[i].len(),
        writer::flattened(blocks.take(i + 1)) == writer::flattened(blocks.take(i)) + blocks[i],
{
    assert(blocks.take(i + 1).drop_last() =~= blocks.take(i));
    assert(blocks.take(i + 1).last() == blocks[i]);
}

proof fn lemma_flattened_prefix(blocks: Seq<Seq<layout::RecordView>>, i: int)
    requires
        0 <= i <= blocks.len(),
    ensures
        before_block(blocks, i) <= writer::flattened(blocks).len(),
        forall|k: int|
            0 <= k < before_block(blocks, i) ==> #[trigger] writer::flattened(blocks)[k]
                == writer::flattened(blocks.take(i))[k],
    decreases blocks.len() - i,
{
    if i == blocks.len() {
        assert(blocks.take(i) =~= blocks);
    } else {
        lemma_before_block(blocks, i);
        lemma_flattened_prefix(blocks, i + 1);
        let shorter = writer::flattened(blocks.take(i));
        let longer = writer::flattened(blocks.take(i + 1));
        assert forall|k: int| 0 <= k < before_block(blocks, i) implies
            #[trigger] writer::flattened(blocks)[k] == shorter[k] by {
            assert(longer[k] == shorter[k]);
        }
    }
}

/// Record `j` of block `i` among all records.
proof fn lemma_flattened_at(blocks: Seq<Seq<layout::RecordView>>, i: int, j: int)
    requires
        0 <= i < blocks.len(),
        0 <= j < blocks[i].len(),
    ensures
        0 <= before_block(blocks, i) + j < writer::flattened(blocks).len(),
        writer::flattened(blocks)[before_block(blocks, i) + j] == blocks[i][j],
{
    lemma_before_block(blocks, i);
    lemma_flattened_prefix(blocks, i + 1);
    let k = before_block(blocks, i) + j;
    assert(writer::flattened(blocks.take(i + 1))[k] == blocks[i][j]);
}

proof fn lemma_before_block_monotone(blocks: Seq<Seq<layout::RecordView>>, a: int, b: int)
    requires
        0 <= a < b < blocks.len(),
    ensures
        before_block(blocks, a) + blocks[a].len() <= before_block(blocks, b),
    decreases b - a,
{
    lemma_before_block(blocks, a);
    if a + 1 < b {
        lemma_before_block_monotone(blocks, a + 1, b);
    }
}

/// Every record is in some block.
pub proof fn lemma_flattened_split(blocks: Seq<Seq<layout::RecordView>>, k: int) -> (r: (int, int))
    requires
        0 <= k < writer::flattened(blocks).len(),
    ensures
        0 <= r.0 < blocks.len(),
        0 <= r.1 < blocks[r.0].len(),
        blocks[r.0][r.1] == writer::flattened(blocks)[k],
    decreases blocks.len(),
{
    let init = blocks.drop_last();
    let n = writer::flattened(init).len() as int;
    if k < n {
        let (i, j) = lemma_flattened_split(init, k);
        assert(init[i] == blocks[i]);
        (i, j)
    } else {
        (blocks.len() - 1, k - n)
    }
}

/// Two records of two blocks come in the order of the blocks.
pub proof fn lemma_blocks_sorted(
    blocks: Seq<Seq<layout::RecordView>>,
    a: int,
    i: int,
    b: int,
    j: int,
)
    requires
        sorted_records(writer::flattened(blocks)),
        0 <= a <= b < blocks.len(),
        0 <= i < blocks[a].len(),
        0 <= j < blocks[b].len(),
        a == b ==> i < j,
    ensures
        order::lex_lt(blocks[a][i].key, blocks[b][j].key),
{
    lemma_flattened_at(blocks, a, i);
    lemma_flattened_at(blocks, b, j);
    if a < b {
        lemma_before_block_monotone(blocks, a, b);
    }
    let keys = record_keys(writer::flattened(blocks));
    let x = before_block(blocks, a) + i;
    let y = before_block(blocks, b) + j;
    assert(order::lex_lt(keys[x], keys[y]));
}

/// The block that a key belongs to is the one that its record is in.
proof fn lemma_block_for(table: TableView, blocks: Seq<Seq<layout::RecordView>>, i: int, a: int, j: int)
    requires
        holds_blocks(table, blocks),
        sorted_records(writer::flattened(blocks)),
        0 <= a < blocks.len(),
        0 <= j < blocks[a].len(),
        table.is_block_for(i, blocks[a][j].key),
    ensures
        i == a,
{
    let key = blocks[a][j].key;
    order::lemma_lex_irreflexive(key);
    if i < a {
        let next = blocks[i + 1][0].key;
        assert(blocks[i + 1].len() > 0);
        assert(table.index[i + 1].key == next);
        if i + 1 < a || 0 < j {
            lemma_blocks_sorted(blocks, i + 1, 0, a, j);
            order::lemma_lex_transitive(key, next, key);
        }
    } else if a < i {
        let first = blocks[i][0].key;
        assert(blocks[i].len() > 0);
        assert(table.index[i].key == first);
        lemma_blocks_sorted(blocks, a, j, i, 0);
        if order::lex_lt(first, key) {
            order::lemma_lex_transitive(key, first, key);
        }
    }
}

/// Looking a key up in a table whose records are in key order gives the record
/// with that key, or none if no record has it.
pub proof fn law_table_get(
    table: TableView,
    records: Seq<layout::RecordView>,
    key: Seq<u8>,
    r: Result<Option<layout::RecordView>, StorageError>,
)
    requires
        holds(table, records),
        sorted_records(records),
        table.answers(key, r),
    ensures
        r == Ok::<Option<layout::RecordView>, StorageError>(block::find_key(records, key)),
{
    let blocks = choose|blocks: Seq<Seq<layout::RecordView>>|
        #[trigger] writer::flattened(blocks) == records && holds_blocks(table, blocks);
    lemma_find_some(records, key);
    let found = block::find_key(records, key);
    if table.index.len() == 0 {
        assert(blocks =~= Seq::empty());
        assert(records.len() == 0);
    } else {
        lemma_index_sorted(table, blocks);
        let i = choose|i: int|
            #![trigger table.lookup(i, key)]
            0 <= i < table.index.len() && r == table.lookup(i, key) && (order::strictly_sorted(
                table.index_keys(),
            ) ==> table.is_block_for(i, key));
        assert(blocks[i].len() > 0);
        lemma_find_some(blocks[i], key);
        if found is Some {
            let k = choose|k: int| 0 <= k < records.len() && records[k] == found->Some_0;
            let (a, j) = lemma_flattened_split(blocks, k);
            assert(table.passes(blocks[a][j].key));
            lemma_block_for(table, blocks, i, a, j);
            lemma_block_sorted(blocks, a);
            lemma_find_at(blocks[a], j);
        } else {
            assert forall|j: int| 0 <= j < blocks[i].len() implies (#[trigger] blocks[i][j]).key
                != key by {
                lemma_flattened_contains(blocks, i, j);
                let k = choose|k: int| 0 <= k < records.len() && records[k] == blocks[i][j];
                assert(records[k].key != key);
            }
            lemma_find_absent(blocks[i], key);
        }
    }
}

/// The records of each block are in key order.
pub proof fn lemma_block_sorted(blocks: Seq<Seq<layout::RecordView>>, a: int)
    requires
        sorted_records(writer::flattened(blocks)),
        0 <= a < blocks.len(),
    ensures
        sorted_records(blocks[a]),
{
    let keys = record_keys(blocks[a]);
    assert forall|i: int, j: int| 0 <= i < j < keys.len() implies order::lex_lt(
        #[trigger] keys[i],
        #[trigger] keys[j],
    ) by {
        lemma_blocks_sorted(blocks, a, i, a, j);
    }
}

/// The index of a table in key order is in key order.
proof fn lemma_index_sorted(table: TableView, blocks: Seq<Seq<layout::RecordView>>)
    requires
        holds_blocks(table, blocks),
        sorted_records(writer::flattened(blocks)),
    ensures
        order::strictly_sorted(table.index_keys()),
{
    let keys = table.index_keys();
    assert forall|i: int, j: int| 0 <= i < j < keys.len() implies order::lex_lt(
        #[trigger] keys[i],
        #[trigger] keys[j],
    ) by {
        assert(blocks[i].len() > 0 && blocks[j].len() > 0);
        lemma_blocks_sorted(blocks, i, 0, j, 0);
    }
}

proof fn lemma_records_from(table: TableView, blocks: Seq<Seq<layout::RecordView>>, i: int)
    requires
        holds_blocks(table, blocks),
        0 <= i <= blocks.len(),
    ensures
        table.records_from(i) matches Ok(rest) && writer::flattened(blocks.take(i)) + rest
            == writer::flattened(blocks),
    decreases blocks.len() - i,
{
    if i == blocks.len() {
        assert(blocks.take(i) =~= blocks);
        assert(writer::flattened(blocks) + Seq::<layout::RecordView>::empty() =~= writer::flattened(
            blocks,
        ));
    } else {
        lemma_records_from(table, blocks, i + 1);
        lemma_before_block(blocks, i);
        assert(blocks[i].len() > 0);
        let rest = table.records_from(i + 1)->Ok_0;
        assert(writer::flattened(blocks.take(i)) + (blocks[i] + rest) =~= writer::flattened(
            blocks.take(i + 1),
        ) + rest);
    }
}

/// Reading a table through gives its records in their order.
pub proof fn law_table_iter(table: TableView, records: Seq<layout::RecordView>)
    requires
        holds(table, records),
    ensures
        table.records() == Ok::<Seq<layout::RecordView>, StorageError>(records),
{
    let blocks = choose|blocks: Seq<Seq<layout::RecordView>>|
        #[trigger] writer::flattened(blocks) == records && holds_blocks(table, blocks);
    lemma_records_from(table, blocks, 0);
    let all = table.records_from(0)->Ok_0;
    assert(blocks.take(0) =~= Seq::empty());
    assert(writer::flattened(blocks.take(0)) + all =~= all);
}

/// What opening a file gives: it is refused if it is too short for a header and a
/// footer, if it does not start as a table does, or if its checksum is not that of what
/// it holds; a table that is opened is that of the file, at its path and level.
pub proof fn law_opened(path: Seq<char>, level: usize, data: Seq<u8>)
    ensures
        data.len() < 96 ==> opened(path, level, data) == Err::<TableView, StorageError>(
            StorageError::InvalidFormat(FormatFault::TooSmall),
        ),
        data.len() >= 96 && layout::decoded_header(data.take(64)) is None ==> opened(
            path,
            level,
            data,
        ) == Err::<TableView, StorageError>(
            StorageError::InvalidFormat(FormatFault::InvalidHeader),
        ),
        data.len() >= 96 && layout::decoded_header(data.take(64)) is Some && codec::u32_at(
            data,
            data.len() - 8,
        ) != checksum::crc32(data.take(data.len() - 32)) ==> opened(path, level, data) == Err::<
            TableView,
            StorageError,
        >(
            StorageError::ChecksumMismatch {
                expected: codec::u32_at(data, data.len() - 8),
                actual: checksum::crc32(data.take(data.len() - 32)),
            },
        ),
        opened(path, level, data) matches Ok(table) ==> {
            &&& data.len() >= 96
            &&& table.path == path
            &&& table.level == level
            &&& table.data == data
            &&& layout::decoded_header(data.take(64)) == Some(table.header)
            &&& layout::decoded_footer(data.skip(data.len() - 32)) == Some(table.footer)
            &&& codec::u32_at(data, data.len() - 8) == checksum::crc32(data.take(data.len() - 32))
            &&& table.footer.index_offset + table.footer.index_size <= data.len()
            &&& table.footer.bloom_offset + table.footer.bloom_size <= data.len()
            &&& bloom::decoded(
                data.subrange(
                    table.footer.bloom_offset as int,
                    table.footer.bloom_offset + table.footer.bloom_size,
                ),
            ) == Some(table.bloom)
        },
{
    reveal(opened);
    if data.len() >= 96 {
        let foot = data.skip(data.len() - 32);
        assert(data.subrange(0, 64) =~= data.take(64));
        codec::law_read_little_endian(foot, 24);
        codec::law_read_little_endian(data, data.len() - 8);
        assert(forall|i: int| 0 <= i < 32 ==> #[trigger] foot[i] == data[data.len() - 32 + i]);
        assert(foot[24] == data[data.len() - 8] && foot[25] == data[data.len() - 7] && foot[26]
            == data[data.len() - 6] && foot[27] == data[data.len() - 5]);
    }
}

/// A filter that has bits and hash functions decides which keys are looked for; without
/// bits no key is turned away.
pub proof fn law_passes(table: TableView, key: Seq<u8>)
    ensures
        table.bloom.usable() && !table.bloom.contains(key) ==> !table.passes(key),
        table.bloom.contains(key) ==> table.passes(key),
        !table.bloom.usable() ==> table.passes(key),
{
}

/// A block is read from where its index entry says, and decompressed as the header says.
/// One that lies beyond the file, or cannot be decompressed, is an error.
pub proof fn law_block_read(table: TableView, i: int)
    requires
        0 <= i < table.index.len(),
    ensures
        ({
            let e = table.index[i];
            &&& e.offset + e.size > table.data.len() ==> table.block(i) == Err::<
                block::BlockView,
                StorageError,
            >(StorageError::InvalidFormat(FormatFault::SectionOutOfRange))
            &&& e.offset + e.size <= table.data.len() ==> match compress::unpacked(
                table.data.subrange(e.offset as int, e.offset + e.size),
                table.header.compression,
            ) {
                Some(plain) => table.block(i) matches Ok(b) && b.data == plain && b.records
                    == block::parsed(plain, 0),
                None => table.block(i) == Err::<block::BlockView, StorageError>(
                    StorageError::Decompression,
                ),
            }
        }),
{
}

/// The block that is searched for a key: no block behind it can have the key, and none
/// before it, where the index is in key order.
pub proof fn law_block_for(table: TableView, i: int, j: int, key: Seq<u8>)
    requires
        order::strictly_sorted(table.index_keys()),
        table.is_block_for(i, key),
        0 <= j < table.index.len(),
    ensures
        j > i ==> order::lex_lt(key, table.index[j].key),
        0 < j <= i ==> order::lex_le(table.index[j].key, key),
{
    let keys = table.index_keys();
    if j > i + 1 {
        assert(order::lex_lt(keys[i + 1], keys[j]));
        order::lemma_lex_transitive(key, table.index[i + 1].key, table.index[j].key);
    }
    if 0 < j < i {
        assert(order::lex_lt(keys[j], keys[i]));
        order::lemma_lex_le_transitive(table.index[j].key, table.index[i].key, key);
    }
}

} // verus!
