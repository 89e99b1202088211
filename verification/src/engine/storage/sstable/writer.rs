//! Writing tables.
//!
//! Records are added in key order. They are gathered into blocks of about 4 KiB;
//! each block gets an entry with its first key in the index, and each key a place
//! in the Bloom filter.
use crate::engine::checksum;
use crate::engine::codec;
use crate::engine::error::StorageError;
use crate::engine::storage::sstable::compress;
use crate::engine::storage::sstable::layout;
use crate::engine::storage::sstable::layout::{
    Compression, IndexEntry, Record, SSTableFooter, SSTableHeader, SSTableMeta,
};
use crate::engine::storage::sstable::reader;
use crate::engine::util::bloom;
use crate::engine::util::bloom::BloomFilter;
use vstd::prelude::*;

verus! {

/// The number of bits of a table's filter: right for 10000 keys and one false
/// positive in a hundred.
pub const FILTER_BITS: u32 = 95872;

/// The number of hash functions of a table's filter.
pub const FILTER_HASHES: u8 = 7;

/// The bytes of some records, one behind the other.
pub open spec fn block_bytes(records: Seq<layout::RecordView>) -> Seq<u8>
    decreases records.len(),
{
    if records.len() == 0 {
        Seq::empty()
    } else {
        block_bytes(records.drop_last()) + records.last().bytes()
    }
}

/// The bytes of some index entries, one behind the other.
pub open spec fn entry_bytes(entries: Seq<layout::IndexEntryView>) -> Seq<u8>
    decreases entries.len(),
{
    if entries.len() == 0 {
        Seq::empty()
    } else {
        entry_bytes(entries.drop_last()) + entries.last().bytes()
    }
}

/// The index block: the number of entries and the entries.
pub open spec fn index_bytes(entries: Seq<layout::IndexEntryView>) -> Seq<u8> {
    codec::u32_le(entries.len() as u32) + entry_bytes(entries)
}

/// All records of some blocks, in order.
pub open spec fn flattened(blocks: Seq<Seq<layout::RecordView>>) -> Seq<layout::RecordView>
    decreases blocks.len(),
{
    if blocks.len() == 0 {
        Seq::empty()
    } else {
        flattened(blocks.drop_last()) + blocks.last()
    }
}

/// The views of some index entries.
pub open spec fn entry_views(entries: Seq<IndexEntry>) -> Seq<layout::IndexEntryView> {
    Seq::new(entries.len(), |i: int| entries[i]@)
}

/// The state of a writer.
#[verifier::ext_equal]
pub struct WriterView {
    pub path: Seq<char>,
    pub level: usize,
    pub compression: Compression,
    /// The records that were added.
    pub records: Seq<layout::RecordView>,
    /// The blocks that were closed.
    pub blocks: Seq<Seq<layout::RecordView>>,
    /// The records of the block that is being filled.
    pub open: Seq<layout::RecordView>,
    /// The header's place and the closed blocks, compressed.
    pub image: Seq<u8>,
    /// An entry for each closed block.
    pub index: Seq<layout::IndexEntryView>,
    pub bloom: bloom::BloomView,
    /// Whether the size of every closed block is within the range of its field.
    pub intact: bool,
}

impl WriterView {
    /// The state with one more record, before a full block is closed. The filter
    /// is left as it is.
    pub open spec fn appended(self, record: layout::RecordView) -> WriterView {
        WriterView {
            records: self.records.push(record),
            open: self.open.push(record),
            ..self
        }
    }

    /// The state after the block that is being filled was closed, if it can be
    /// compressed. An empty block is not closed.
    pub open spec fn flushed(self) -> Option<WriterView> {
        if self.open.len() == 0 {
            Some(self)
        } else {
            match compress::packed(block_bytes(self.open), self.compression) {
                Some(p) => Some(
                    WriterView {
                        blocks: self.blocks.push(self.open),
                        open: Seq::empty(),
                        image: self.image + p,
                        index: self.index.push(
                            layout::IndexEntryView {
                                key: self.open[0].key,
                                offset: self.image.len() as u64,
                                size: p.len() as u32,
                            },
                        ),
                        intact: self.intact && p.len() <= u32::MAX,
                        ..self
                    },
                ),
                None => None,
            }
        }
    }

    /// The state after a record was added, apart from the filter: a block that
    /// has become large enough is closed.
    pub open spec fn added(self, record: layout::RecordView) -> Option<WriterView> {
        let next = self.appended(record);
        if block_bytes(next.open).len() >= layout::BLOCK_SIZE {
            next.flushed()
        } else {
            Some(next)
        }
    }

    /// The size of the file so far, without index and filter.
    pub open spec fn size_so_far(self) -> int {
        self.image.len() + block_bytes(self.open).len() as int
    }

    /// Whether block `i` can be read back from the image by its index entry.
    pub open spec fn block_stands(self, i: int) -> bool {
        let e = self.index[i];
        &&& self.blocks[i].len() > 0
        &&& e.key == self.blocks[i][0].key
        &&& layout::HEADER_SIZE <= e.offset
        &&& e.offset + e.size <= self.image.len()
        &&& compress::unpacked(
            self.image.subrange(e.offset as int, e.offset + e.size),
            self.compression,
        ) == Some(block_bytes(self.blocks[i]))
    }

    /// What holds of every writer.
    pub open spec fn wf(self) -> bool {
        &&& self.image.len() >= layout::HEADER_SIZE
        &&& self.image.len() <= u64::MAX
        &&& self.index.len() == self.blocks.len()
        &&& self.records == flattened(self.blocks) + self.open
        &&& self.bloom.usable()
        &&& forall|i: int|
            0 <= i < self.records.len() ==> self.bloom.contains((#[trigger] self.records[i]).key)
        &&& self.intact ==> forall|i: int|
            0 <= i < self.blocks.len() ==> #[trigger] self.block_stands(i)
    }

    /// The header of the finished table.
    pub open spec fn header(self) -> layout::HeaderView {
        let n = self.records.len() as int;
        layout::HeaderView {
            record_count: n as u64,
            min_key: if n == 0 {
                layout::zeros(16)
            } else {
                crate::engine::order::padded(self.records[0].key, 16)
            },
            max_key: if n == 0 {
                layout::zeros(16)
            } else {
                crate::engine::order::padded(self.records[n - 1].key, 16)
            },
            ..layout::new_header(self.compression)
        }
    }

    /// The footer of a table whose compressed index is `index` and whose body is
    /// `body`.
    pub open spec fn footer(self, index: Seq<u8>, body: Seq<u8>) -> SSTableFooter {
        SSTableFooter {
            index_offset: self.image.len() as u64,
            index_size: index.len() as u32,
            bloom_offset: (self.image.len() + index.len()) as u64,
            bloom_size: self.bloom.bytes().len() as u32,
            checksum: checksum::crc32(body),
        }
    }

    /// Everything of the table before its footer, `index` being its compressed
    /// index.
    pub open spec fn body(self, index: Seq<u8>) -> Seq<u8> {
        self.header().bytes() + self.image.skip(layout::HEADER_SIZE as int) + index
            + self.bloom.bytes()
    }

    /// The file of a table all of whose blocks are closed.
    pub open spec fn closed_file(self) -> Option<Seq<u8>> {
        match compress::packed(index_bytes(self.index), self.compression) {
            Some(index) => Some(
                self.body(index) + layout::footer_bytes(self.footer(index, self.body(index))),
            ),
            None => None,
        }
    }

    /// The file of the table.
    #[verifier::opaque]
    pub open spec fn file(self) -> Option<Seq<u8>> {
        match self.flushed() {
            Some(done) => done.closed_file(),
            None => None,
        }
    }
}

/// A writer of a table, which gathers the file in memory.
pub struct SSTableWriter {
    path: String,
    level: usize,
    compression: Compression,
    image: Vec<u8>,
    current_block: Vec<u8>,
    index_entries: Vec<IndexEntry>,
    bloom: BloomFilter,
    record_count: u64,
    min_key: Option<Vec<u8>>,
    max_key: Option<Vec<u8>>,
    block_first_key: Option<Vec<u8>>,
    records: Ghost<Seq<layout::RecordView>>,
    blocks: Ghost<Seq<Seq<layout::RecordView>>>,
    open: Ghost<Seq<layout::RecordView>>,
    intact: Ghost<bool>,
}

impl View for SSTableWriter {
    type V = WriterView;

    closed spec fn view(&self) -> WriterView {
        WriterView {
            path: self.path@,
            level: self.level,
            compression: self.compression,
            records: self.records@,
            blocks: self.blocks@,
            open: self.open@,
            image: self.image@,
            index: entry_views(self.index_entries@),
            bloom: self.bloom@,
            intact: self.intact@,
        }
    }
}

/// The key of the first record, if there is one.
pub open spec fn first_key(records: Seq<layout::RecordView>) -> Option<Seq<u8>> {
    if records.len() == 0 {
        None
    } else {
        Some(records[0].key)
    }
}

/// The key of the last record, if there is one.
pub open spec fn last_key(records: Seq<layout::RecordView>) -> Option<Seq<u8>> {
    if records.len() == 0 {
        None
    } else {
        Some(records.last().key)
    }
}

/// A writer that nothing was added to.
pub open spec fn new_writer(path: Seq<char>, compression: Compression, level: usize) -> WriterView {
    WriterView {
        path,
        level,
        compression,
        records: Seq::empty(),
        blocks: Seq::empty(),
        open: Seq::empty(),
        image: layout::new_header(compression).bytes(),
        index: Seq::empty(),
        bloom: bloom::BloomView {
            words: Seq::new(bloom::words_for(FILTER_BITS), |i: int| 0u64),
            num_bits: FILTER_BITS,
            num_hashes: FILTER_HASHES,
        },
        intact: true,
    }
}

impl SSTableWriter {
    /// The writer's fields agree with its state.
    pub closed spec fn inv(&self) -> bool {
        &&& self@.wf()
        &&& self.current_block@ == block_bytes(self.open@)
        &&& self.record_count == self.records@.len()
        &&& layout::value_view(self.min_key) == first_key(self.records@)
        &&& layout::value_view(self.max_key) == last_key(self.records@)
        &&& layout::value_view(self.block_first_key) == first_key(self.open@)
    }

    /// A writer for a table of level 0.
    pub fn new(path: String, compression: Compression) -> (r: Self)
        ensures
            r.inv(),
            r@ == new_writer(path@, compression, 0),
    {
        Self::with_level(path, compression, 0)
    }

    /// A writer for a table of a given level.
    pub fn with_level(path: String, compression: Compression, level: usize) -> (r: Self)
        ensures
            r.inv(),
            r@ == new_writer(path@, compression, level),
    {
        let header = SSTableHeader::new(compression).encode();
        let image = vstd::slice::slice_to_vec(header.as_slice());
        let r = SSTableWriter {
            path,
            level,
            compression,
            image,
            current_block: Vec::new(),
            index_entries: Vec::new(),
            bloom: BloomFilter::with_params(FILTER_BITS, FILTER_HASHES),
            record_count: 0,
            min_key: None,
            max_key: None,
            block_first_key: None,
            records: Ghost(Seq::empty()),
            blocks: Ghost(Seq::empty()),
            open: Ghost(Seq::empty()),
            intact: Ghost(true),
        };
        proof {
            assert(r@.index =~= Seq::empty());
            assert(image@.len() == 64);
            assert(r@.image.len() <= u64::MAX);
            assert(flattened(r@.blocks) + r@.open =~= r@.records);
            assert(r@ =~= new_writer(path@, compression, level));
        }
        r
    }

    /// Adds a record. Records come in the order of their keys.
    pub fn add(&mut self, key: Vec<u8>, value: Option<Vec<u8>>, timestamp: u64) -> (r: Result<
        (),
        StorageError,
    >)
        requires
            old(self).inv(),
            old(self)@.records.len() < u64::MAX,
        ensures
            final(self).inv(),
            ({
                let record = layout::RecordView {
                    key: key@,
                    value: layout::value_view(value),
                    timestamp,
                };
                &&& final(self)@.bloom.is_inserted(old(self)@.bloom, key@)
                &&& match old(self)@.added(record) {
                    Some(next) => r == Ok::<(), StorageError>(()) && final(self)@ == (WriterView {
                        bloom: final(self)@.bloom,
                        ..next
                    }),
                    None => r == Err::<(), StorageError>(StorageError::Compression)
                        && final(self)@ == (WriterView {
                        bloom: final(self)@.bloom,
                        ..old(self)@.appended(record)
                    }),
                }
            }),
    {
        let ghost before = self@;
        let ghost record = layout::RecordView {
            key: key@,
            value: layout::value_view(value),
            timestamp,
        };
        if self.min_key.is_none() {
            self.min_key = Some(codec::copy_bytes(&key));
        }
        self.max_key = Some(codec::copy_bytes(&key));
        if self.block_first_key.is_none() {
            self.block_first_key = Some(codec::copy_bytes(&key));
        }
        self.bloom.insert(key.as_slice());
        let encoded = Record { key, value, timestamp }.encode();
        codec::put_bytes(&mut self.current_block, encoded.as_slice());
        self.record_count = self.record_count + 1;
        self.records = Ghost(self.records@.push(record));
        self.open = Ghost(self.open@.push(record));
        proof {
            let next = self@;
            assert(next == (WriterView { bloom: next.bloom, ..before.appended(record) }));
            lemma_appended_wf(before, next, record);
            assert(self.open@.drop_last() =~= before.open);
        }
        if self.current_block.len() >= layout::BLOCK_SIZE {
            self.flush_block()
        } else {
            Ok(())
        }
    }

    /// Closes the block that is being filled.
    fn flush_block(&mut self) -> (r: Result<(), StorageError>)
        requires
            old(self).inv(),
        ensures
            final(self).inv(),
            match old(self)@.flushed() {
                Some(next) => r == Ok::<(), StorageError>(()) && final(self)@ == next,
                None => r == Err::<(), StorageError>(StorageError::Compression) && final(self)@
                    == old(self)@,
            },
    {
        proof {
            lemma_block_bytes_empty(self.open@);
        }
        if self.current_block.is_empty() {
            return Ok(());
        }
        let ghost before = self@;
        let compressed = match compress::compress_data(
            self.current_block.as_slice(),
            self.compression,
        ) {
            Ok(p) => p,
            Err(e) => return Err(e),
        };
        let first_key = match self.block_first_key.take() {
            Some(k) => k,
            None => Vec::new(),
        };
        self.index_entries.push(
            IndexEntry {
                key: first_key,
                offset: self.image.len() as u64,
                size: compressed.len() as u32,
            },
        );
        codec::put_bytes(&mut self.image, compressed.as_slice());
        self.current_block.clear();
        self.blocks = Ghost(self.blocks@.push(self.open@));
        let ghost intact = self.intact@ && compressed@.len() <= u32::MAX;
        self.intact = Ghost(intact);
        self.open = Ghost(Seq::empty());
        proof {
            let next = self@;
            assert(next.index =~= before.index.push(
                layout::IndexEntryView {
                    key: before.open[0].key,
                    offset: before.image.len() as u64,
                    size: compressed@.len() as u32,
                },
            ));
            assert(Some(next) == before.flushed());
            assert(next.image.len() == self.image.len());
            lemma_flushed_wf(before, next, compressed@);
        }
        Ok(())
    }
}

impl WriterView {
    /// Whether the finished table can be read back: no record, block, index or
    /// number is beyond the range of its field.
    #[verifier::opaque]
    pub open spec fn readable(self) -> bool {
        &&& reader::all_storable(self.records)
        &&& self.flushed() matches Some(done) && done.intact && done.index.len() <= u32::MAX && (
        compress::packed(index_bytes(done.index), self.compression) matches Some(p) && p.len()
            <= u32::MAX)
    }

    /// Whether `meta` describes the finished table.
    pub open spec fn described_by(self, meta: SSTableMeta, file: Seq<u8>) -> bool {
        &&& meta.path@ == self.path
        &&& meta.compression == self.compression
        &&& meta.record_count == self.records.len()
        &&& meta.file_size == file.len()
        &&& meta.min_key@ == first_key(self.records).unwrap_or(Seq::empty())
        &&& meta.max_key@ == last_key(self.records).unwrap_or(Seq::empty())
        &&& meta.level == self.level
    }
}

impl SSTableWriter {
    /// The index block.
    fn encode_index(&self) -> (r: Vec<u8>)
        ensures
            r@ == index_bytes(self@.index),
    {
        let ghost all = self@.index;
        let mut buf: Vec<u8> = Vec::new();
        codec::put_u32(&mut buf, self.index_entries.len() as u32);
        let ghost head = buf@;
        assert(head =~= codec::u32_le(all.len() as u32));
        let mut i: usize = 0;
        assert(buf@ =~= head + entry_bytes(all.take(0)));
        while i < self.index_entries.len()
            invariant
                i <= self.index_entries@.len(),
                all == entry_views(self.index_entries@),
                buf@ == head + entry_bytes(all.take(i as int)),
            decreases self.index_entries@.len() - i,
        {
            let encoded = self.index_entries[i].encode();
            codec::put_bytes(&mut buf, encoded.as_slice());
            proof {
                let next = all.take(i + 1);
                assert(next.drop_last() =~= all.take(i as int));
                assert(buf@ =~= head + entry_bytes(next));
            }
            i = i + 1;
        }
        assert(all.take(i as int) =~= all);
        buf
    }

    /// The header of the finished table.
    fn final_header(&self) -> (r: SSTableHeader)
        requires
            self.inv(),
        ensures
            r@ == self@.header(),
    {
        let mut header = SSTableHeader::new(self.compression);
        header.record_count = self.record_count;
        if let Some(key) = &self.min_key {
            header.set_min_key(key.as_slice());
        }
        if let Some(key) = &self.max_key {
            header.set_max_key(key.as_slice());
        }
        assert(header@ =~= self@.header());
        header
    }

    /// Finishes the table: the rest is closed, and index, filter, header and
    /// footer are put in their places. A table that is within the range of the
    /// fields of a file holds, when it is opened, the records that were added.
    pub fn finish(self) -> (r: Result<(Vec<u8>, SSTableMeta), StorageError>)
        requires
            self.inv(),
        ensures
            match self@.file() {
                Some(file) => r matches Ok((image, meta)) && image@ == file
                    && self@.described_by(meta, file),
                None => r matches Err(e) && e == StorageError::Compression,
            },
            r matches Ok((image, _)) ==> self@.readable() ==> forall|path: Seq<char>, level: usize|
                #[trigger] reader::is_table_of(path, level, image@, self@.records),
    {
        reveal(WriterView::readable);
        reveal(WriterView::file);
        let ghost start = self@;
        let mut w = self;
        if let Err(e) = w.flush_block() {
            return Err(e);
        }
        let ghost done = w@;
        assert(done.open.len() == 0);
        assert(done.records == start.records);
        let index_data = w.encode_index();
        let packed = match compress::compress_data(index_data.as_slice(), w.compression) {
            Ok(p) => p,
            Err(e) => return Err(e),
        };
        let header = w.final_header().encode();
        let filter = w.bloom.encode();
        let index_offset: u64 = w.image.len() as u64;
        let mut file: Vec<u8> = Vec::new();
        codec::put_bytes(&mut file, header.as_slice());
        codec::put_bytes(
            &mut file,
            vstd::slice::slice_subrange(w.image.as_slice(), layout::HEADER_SIZE, w.image.len()),
        );
        codec::put_bytes(&mut file, packed.as_slice());
        let bloom_offset: u64 = file.len() as u64;
        codec::put_bytes(&mut file, filter.as_slice());
        assert(file@ =~= done.body(packed@));
        assert(bloom_offset == done.image.len() + packed@.len());
        let sum: u32 = crc32fast::hash(file.as_slice());
        let footer = SSTableFooter {
            index_offset,
            index_size: packed.len() as u32,
            bloom_offset,
            bloom_size: filter.len() as u32,
            checksum: sum,
        };
        assert(footer == done.footer(packed@, done.body(packed@)));
        let footer_bytes = footer.encode();
        codec::put_bytes(&mut file, footer_bytes.as_slice());
        let file_size: u64 = file.len() as u64;
        let meta = SSTableMeta {
            path: w.path,
            compression: w.compression,
            record_count: w.record_count,
            file_size,
            min_key: match w.min_key {
                Some(k) => k,
                None => Vec::new(),
            },
            max_key: match w.max_key {
                Some(k) => k,
                None => Vec::new(),
            },
            level: w.level,
        };
        proof {
            assert(Some(file@) == start.file());
            if start.readable() {
                assert forall|path: Seq<char>, level: usize|
                    #[trigger] reader::is_table_of(path, level, file@, start.records) by {
                    reader::lemma_file_holds(done, packed@, file@, path, level);
                }
            }
        }
        Ok((file, meta))
    }

    /// Adds a memtable's entry.
    pub fn add_entry(&mut self, key: Vec<u8>, value: &Option<Vec<u8>>, timestamp: u64) -> (r: Result<
        (),
        StorageError,
    >)
        requires
            old(self).inv(),
            old(self)@.records.len() < u64::MAX,
        ensures
            final(self).inv(),
            ({
                let record = layout::RecordView {
                    key: key@,
                    value: layout::value_view(*value),
                    timestamp,
                };
                &&& final(self)@.bloom.is_inserted(old(self)@.bloom, key@)
                &&& match old(self)@.added(record) {
                    Some(next) => r == Ok::<(), StorageError>(()) && final(self)@ == (WriterView {
                        bloom: final(self)@.bloom,
                        ..next
                    }),
                    None => r == Err::<(), StorageError>(StorageError::Compression)
                        && final(self)@ == (WriterView {
                        bloom: final(self)@.bloom,
                        ..old(self)@.appended(record)
                    }),
                }
            }),
    {
        self.add(key, layout::copy_value(value), timestamp)
    }

    /// The size of the file so far, without index and filter.
    pub fn estimated_size(&self) -> (r: u64)
        requires
            self.inv(),
        ensures
            r == (if self@.size_so_far() <= u64::MAX {
                self@.size_so_far()
            } else {
                u64::MAX as int
            }),
    {
        (self.image.len() as u64).saturating_add(self.current_block.len() as u64)
    }

    /// The number of records that were added.
    pub fn record_count(&self) -> (r: u64)
        requires
            self.inv(),
        ensures
            r == self@.records.len(),
    {
        self.record_count
    }
}

/// Only no records have no bytes.
proof fn lemma_block_bytes_empty(records: Seq<layout::RecordView>)
    ensures
        block_bytes(records).len() == 0 <==> records.len() == 0,
{
    if records.len() > 0 {
        assert(records.last().bytes().len() >= 14);
    }
}

/// A record that is appended, and inserted into the filter, keeps the state
/// well-formed.
proof fn lemma_appended_wf(before: WriterView, next: WriterView, record: layout::RecordView)
    requires
        before.wf(),
        next == (WriterView { bloom: next.bloom, ..before.appended(record) }),
        next.bloom.is_inserted(before.bloom, record.key),
        next.bloom.usable(),
    ensures
        next.wf(),
{
    assert(next.records =~= flattened(next.blocks) + next.open);
    assert forall|i: int| 0 <= i < next.records.len() implies next.bloom.contains(
        (#[trigger] next.records[i]).key,
    ) by {
        bloom::law_no_false_negatives(before.bloom, next.bloom, record.key, next.records[i].key);
        if i < before.records.len() {
            assert(next.records[i] == before.records[i]);
        }
    }
    if next.intact {
        assert forall|i: int| 0 <= i < next.blocks.len() implies #[trigger] next.block_stands(i) by {
            assert(before.block_stands(i));
        }
    }
}

/// Closing a block keeps the state well-formed.
proof fn lemma_flushed_wf(before: WriterView, next: WriterView, p: Seq<u8>)
    requires
        before.wf(),
        before.open.len() > 0,
        Some(next) == before.flushed(),
        compress::packed(block_bytes(before.open), before.compression) == Some(p),
        compress::unpacked(p, before.compression) == Some(block_bytes(before.open)),
        next.image.len() <= u64::MAX,
    ensures
        next.wf(),
{
    let n = before.blocks.len() as int;
    assert(next.blocks.drop_last() =~= before.blocks);
    assert(flattened(next.blocks) + next.open =~= before.records);
    if next.intact {
        assert forall|i: int| 0 <= i < next.blocks.len() implies #[trigger] next.block_stands(i) by {
            let e = next.index[i];
            if i < n {
                assert(before.block_stands(i));
                assert(e == before.index[i]);
                assert(next.blocks[i] == before.blocks[i]);
                assert(next.image.subrange(e.offset as int, e.offset + e.size)
                    =~= before.image.subrange(e.offset as int, e.offset + e.size));
            } else {
                assert(next.image.subrange(e.offset as int, e.offset + e.size) =~= p);
            }
        }
    }
}

/// Whether two states differ in path, level and filter at most.
pub open spec fn alike(a: WriterView, b: WriterView) -> bool {
    a == (WriterView { path: a.path, level: a.level, bloom: a.bloom, ..b })
}

/// The state after some records were added, but for path, level and filter, if
/// every block could be compressed.
pub open spec fn built(records: Seq<layout::RecordView>, compression: Compression) -> Option<
    WriterView,
>
    decreases records.len(),
{
    if records.len() == 0 {
        Some(new_writer(Seq::empty(), compression, 0))
    } else {
        match built(records.drop_last(), compression) {
            Some(w) => w.added(records.last()),
            None => None,
        }
    }
}

/// Whether a table of some records can be written and read back.
#[verifier::opaque]
pub open spec fn table_fits(records: Seq<layout::RecordView>, compression: Compression) -> bool {
    built(records, compression) matches Some(w) && w.readable()
}

/// Whether a table of some records can be written: everything can be compressed.
#[verifier::opaque]
pub open spec fn writable(records: Seq<layout::RecordView>, compression: Compression) -> bool {
    built(records, compression) matches Some(w) && w.file() is Some
}

/// The size from which on a table is closed is reached.
#[verifier::opaque]
pub open spec fn is_full(
    records: Seq<layout::RecordView>,
    compression: Compression,
    target: u64,
) -> bool {
    built(records, compression) matches Some(w) && w.size_so_far() >= target
}

/// Adding a record to alike states gives alike states.
pub proof fn lemma_added_alike(a: WriterView, b: WriterView, record: layout::RecordView)
    requires
        alike(a, b),
    ensures
        a.added(record) is Some <==> b.added(record) is Some,
        a.added(record) matches Some(x) ==> alike(x, b.added(record)->Some_0),
{
}

/// A writer that some records were added to can be finished, and its table read
/// back, as the records say.
pub proof fn lemma_finishes(w: WriterView, records: Seq<layout::RecordView>)
    requires
        built(records, w.compression) matches Some(b) && alike(w, b),
    ensures
        w.records == records,
        w.readable() == table_fits(records, w.compression),
        w.file() is Some <==> writable(records, w.compression),
        w.readable() ==> w.file() is Some,
        forall|target: u64| #[trigger]
            is_full(records, w.compression, target) <==> w.size_so_far() >= target,
{
    reveal(WriterView::readable);
    reveal(WriterView::file);
    reveal(table_fits);
    reveal(writable);
    reveal(is_full);
    lemma_built_records(records, w.compression);
}

/// The state of a writer after some records were added is the one that was built.
pub proof fn lemma_built_step(
    before: WriterView,
    records: Seq<layout::RecordView>,
    compression: Compression,
    record: layout::RecordView,
)
    requires
        built(records, compression) matches Some(w) && alike(before, w),
    ensures
        before.added(record) is Some <==> built(records.push(record), compression) is Some,
        before.added(record) matches Some(x) ==> alike(
            x,
            built(records.push(record), compression)->Some_0,
        ),
{
    assert(records.push(record).drop_last() =~= records);
    lemma_added_alike(before, built(records, compression)->Some_0, record);
}

/// The records of a state that was built are those that were added.
pub proof fn lemma_built_records(records: Seq<layout::RecordView>, compression: Compression)
    ensures
        built(records, compression) matches Some(w) ==> w.records == records && w.compression
            == compression,
    decreases records.len(),
{
    if records.len() > 0 {
        lemma_built_records(records.drop_last(), compression);
        assert(records.drop_last().push(records.last()) =~= records);
    } else {
        assert(records =~= Seq::empty());
    }
}

/// The bytes of a block are those of its records, one behind the other.
pub proof fn law_block_bytes(records: Seq<layout::RecordView>, record: layout::RecordView)
    ensures
        block_bytes(Seq::<layout::RecordView>::empty()).len() == 0,
        block_bytes(records.push(record)) == block_bytes(records) + record.bytes(),
{
    assert(records.push(record).drop_last() =~= records);
}

/// The index starts with the number of its entries, and each follows those before it.
pub proof fn law_index_bytes(entries: Seq<layout::IndexEntryView>, entry: layout::IndexEntryView)
    requires
        entries.len() < u32::MAX,
    ensures
        codec::u32_at(index_bytes(entries), 0) == entries.len(),
        index_bytes(entries.push(entry)).skip(4) == index_bytes(entries).skip(4) + entry.bytes(),
        index_bytes(Seq::<layout::IndexEntryView>::empty()).len() == 4,
{
    let more = entries.push(entry);
    assert(more.drop_last() =~= entries);
    assert(index_bytes(entries).subrange(0, 4) =~= codec::u32_le(entries.len() as u32));
    codec::lemma_u32_at(index_bytes(entries), 0, entries.len() as u32);
    assert(index_bytes(entries).skip(4) =~= entry_bytes(entries));
    assert(index_bytes(more).skip(4) =~= entry_bytes(more));
}

/// The records of some blocks, one block behind the other.
pub proof fn law_flattened(blocks: Seq<Seq<layout::RecordView>>, last: Seq<layout::RecordView>)
    ensures
        flattened(Seq::<Seq<layout::RecordView>>::empty()).len() == 0,
        flattened(blocks.push(last)) == flattened(blocks) + last,
{
    assert(blocks.push(last).drop_last() =~= blocks);
}

/// A writer that nothing was added to: a header without records, and an empty filter of
/// 95872 bits and 7 hash functions.
pub proof fn law_new_writer(path: Seq<char>, compression: Compression, level: usize)
    ensures
        ({
            let w = new_writer(path, compression, level);
            &&& w.path == path
            &&& w.level == level
            &&& w.compression == compression
            &&& w.records.len() == 0
            &&& w.blocks.len() == 0
            &&& w.open.len() == 0
            &&& w.index.len() == 0
            &&& w.image.len() == 64
            &&& w.bloom.num_bits == 95872
            &&& w.bloom.num_hashes == 7
            &&& w.bloom.words.len() == 1498
            &&& forall|i: int| 0 <= i < 1498 ==> #[trigger] w.bloom.words[i] == 0
            &&& w.intact
        }),
{
}

/// A record that is added comes behind those before it. As long as the block that is
/// being filled has less than 4096 bytes, nothing else changes; from that size on it is
/// closed: it comes behind the other blocks, compressed, and gets an entry in the index
/// with its first key, where it starts and its size.
pub proof fn law_added(w: WriterView, record: layout::RecordView)
    requires
        w.image.len() <= u64::MAX,
    ensures
        ({
            let all = w.open.push(record);
            let bytes = block_bytes(w.open) + record.bytes();
            &&& bytes.len() < 4096 ==> (w.added(record) matches Some(n) && {
                &&& n.records == w.records.push(record)
                &&& n.open == all
                &&& n.blocks == w.blocks
                &&& n.image == w.image
                &&& n.index == w.index
            })
            &&& bytes.len() >= 4096 ==> match compress::packed(bytes, w.compression) {
                Some(p) => w.added(record) matches Some(n) && {
                    &&& n.records == w.records.push(record)
                    &&& n.open.len() == 0
                    &&& n.blocks == w.blocks.push(all)
                    &&& n.image == w.image + p
                    &&& n.index.drop_last() == w.index
                    &&& n.index.last().key == all[0].key
                    &&& n.index.last().offset == w.image.len()
                    &&& p.len() <= u32::MAX ==> n.index.last().size == p.len()
                },
                None => w.added(record) is None,
            }
            &&& w.added(record) matches Some(n) ==> {
                &&& n.path == w.path
                &&& n.level == w.level
                &&& n.compression == w.compression
                &&& n.bloom == w.bloom
            }
        }),
{
    let all = w.open.push(record);
    assert(all.drop_last() =~= w.open);
    let next = w.appended(record);
    assert(next.open == all);
    if let Some(n) = w.added(record) {
        if block_bytes(all).len() >= 4096 {
            assert(n.index.drop_last() =~= w.index);
        }
    }
}

/// The header of a table: how many records it has, and the first 16 bytes of its first
/// and its last key.
pub proof fn law_header(w: WriterView)
    requires
        w.records.len() <= u64::MAX,
    ensures
        ({
            let h = w.header();
            let n = w.records.len() as int;
            &&& h.record_count == n
            &&& h.compression == w.compression
            &&& h.magic == layout::magic()
            &&& h.version == 1
            &&& n > 0 ==> {
                &&& h.min_key == crate::engine::order::padded(w.records[0].key, 16)
                &&& h.max_key == crate::engine::order::padded(w.records[n - 1].key, 16)
            }
            &&& n == 0 ==> forall|i: int|
                0 <= i < 16 ==> #[trigger] h.min_key[i] == 0 && #[trigger] h.max_key[i] == 0
        }),
{
}

/// A finished file: the header, the blocks, the index, the filter, and the footer, which
/// says where the index and the filter stand and what the checksum of all before it is.
pub proof fn law_closed_file(w: WriterView, index: Seq<u8>) -> (f: SSTableFooter)
    requires
        compress::packed(index_bytes(w.index), w.compression) == Some(index),
        w.image.len() + index.len() <= u64::MAX,
        index.len() <= u32::MAX,
        w.bloom.bytes().len() <= u32::MAX,
    ensures
        w.closed_file() == Some(
            w.header().bytes() + w.image.skip(64) + index + w.bloom.bytes() + layout::footer_bytes(
                f,
            ),
        ),
        f.index_offset == w.image.len(),
        f.index_size == index.len(),
        f.bloom_offset == w.image.len() + index.len(),
        f.bloom_size == w.bloom.bytes().len(),
        f.checksum == checksum::crc32(
            w.header().bytes() + w.image.skip(64) + index + w.bloom.bytes(),
        ),
{
    w.footer(index, w.body(index))
}

/// What is said of a finished table: its path, level and compression, the number of its
/// records, the size of its file, and its first and last key.
pub proof fn law_described(w: WriterView, meta: SSTableMeta, file: Seq<u8>)
    requires
        w.described_by(meta, file),
    ensures
        meta.path@ == w.path,
        meta.level == w.level,
        meta.compression == w.compression,
        meta.record_count == w.records.len(),
        meta.file_size == file.len(),
        w.records.len() > 0 ==> meta.min_key@ == w.records[0].key && meta.max_key@
            == w.records[w.records.len() - 1].key,
        w.records.len() == 0 ==> meta.min_key@.len() == 0 && meta.max_key@.len() == 0,
{
}

/// A table is full once its blocks and what is being filled reach the target size.
pub proof fn law_full(
    records: Seq<layout::RecordView>,
    compression: Compression,
    target: u64,
    smaller: u64,
)
    requires
        smaller <= target,
    ensures
        is_full(records, compression, target) <==> (built(records, compression) matches Some(w)
            && w.image.len() + block_bytes(w.open).len() >= target),
        is_full(records, compression, target) ==> is_full(records, compression, smaller),
{
    reveal(is_full);
}

} // verus!
