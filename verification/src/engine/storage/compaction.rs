//! Leveled compaction.
//!
//! Level 0 takes the tables that memtables are written out to; their key ranges may
//! overlap. Each level above holds tables whose key ranges do not overlap, and is
//! larger than the one below. Compaction merges tables of a level into the next:
//! of each key the newest version stays.
use crate::engine::error::StorageError;
use crate::engine::order;
use crate::engine::storage::merge;
use crate::engine::storage::sstable::block;
use crate::engine::storage::sstable::block::BlockCache;
use crate::engine::storage::sstable::layout;
use crate::engine::storage::sstable::layout::{Compression, Record};
use crate::engine::storage::sstable::reader;
use crate::engine::storage::sstable::reader::SSTableReader;
use crate::engine::storage::sstable::writer;
use crate::engine::storage::sstable::writer::SSTableWriter;
use crate::engine::text;
use crate::engine::util::share;
use std::sync::Arc;
use vstd::arithmetic::power;
use vstd::prelude::*;
use vstd::string::StringExecFns;

verus! {

/// How levels are kept.
#[derive(Clone, Copy, PartialEq, Eq, Structural, Debug)]
pub struct CompactionConfig {
    /// The number of level-0 tables that triggers a compaction.
    pub l0_compaction_trigger: usize,
    /// How many times larger a level is than the one below.
    pub level_size_multiplier: usize,
    /// The size from which on an output table is closed.
    pub target_file_size: u64,
    /// The number of levels.
    pub max_levels: usize,
    /// The size of level 1.
    pub base_level_size: u64,
    /// The compression of output tables.
    pub compression: Compression,
}

impl Default for CompactionConfig {
    fn default() -> (r: Self)
        ensures
            r == (CompactionConfig {
                l0_compaction_trigger: 4,
                level_size_multiplier: 10,
                target_file_size: 67108864,
                max_levels: 7,
                base_level_size: 268435456,
                compression: Compression::Zstd,
            }),
    {
        CompactionConfig {
            l0_compaction_trigger: 4,
            level_size_multiplier: 10,
            target_file_size: 67108864,
            max_levels: 7,
            base_level_size: 268435456,
            compression: Compression::Zstd,
        }
    }
}

impl CompactionConfig {
    /// The size from which on a level is compacted; level 0 goes by its number of
    /// tables.
    pub open spec fn target_size(self, level: int) -> int {
        if level == 0 {
            u64::MAX as int
        } else {
            self.base_level_size * power::pow(self.level_size_multiplier as int, (level - 1) as nat)
        }
    }

    /// Whether the target size of a level is in range.
    pub open spec fn size_fits(self, level: int) -> bool {
        &&& power::pow(self.level_size_multiplier as int, (level - 1) as nat) <= usize::MAX
        &&& self.target_size(level) <= u64::MAX
    }

    /// Whether the target sizes of all levels that are compacted by size are in range.
    pub open spec fn sizes_fit(self) -> bool {
        forall|level: int| 1 <= level < self.max_levels - 1 ==> #[trigger] self.size_fits(level)
    }

    /// Whether the target sizes of all levels that are compacted by size are in range.
    pub fn has_valid_sizes(&self) -> (r: bool)
        ensures
            r == self.sizes_fit(),
    {
        let factor: usize = self.level_size_multiplier;
        let ghost b = factor as int;
        let mut multiplier: usize = 1;
        let mut level: usize = 1;
        proof {
            power::lemma_pow0(b);
        }
        while self.max_levels >= 1 && level < self.max_levels - 1
            invariant
                1 <= level,
                b == factor as int,
                factor == self.level_size_multiplier,
                level < self.max_levels - 1 ==> multiplier == power::pow(b, (level - 1) as nat),
                forall|l: int| 1 <= l < level ==> #[trigger] self.size_fits(l),
            decreases self.max_levels - level,
        {
            let size = self.base_level_size.checked_mul(multiplier as u64);
            assert(self.target_size(level as int) == self.base_level_size * multiplier);
            if size.is_none() {
                assert(!self.size_fits(level as int));
                return false;
            }
            assert(self.size_fits(level as int));
            proof {
                power::lemma_pow_adds(b, (level - 1) as nat, 1);
                power::lemma_pow1(b);
            }
            match multiplier.checked_mul(factor) {
                Some(m) => {
                    multiplier = m;
                },
                None => {
                    if level + 1 < self.max_levels - 1 {
                        assert(!self.size_fits(level + 1));
                        return false;
                    }
                },
            }
            level = level + 1;
        }
        true
    }
}

/// What a compaction did.
#[derive(Clone, Copy, PartialEq, Eq, Structural, Debug)]
pub struct CompactionResult {
    pub input_count: usize,
    pub output_count: usize,
    pub input_level: usize,
    pub output_level: usize,
}

impl Default for CompactionResult {
    fn default() -> (r: Self)
        ensures
            r == (CompactionResult {
                input_count: 0,
                output_count: 0,
                input_level: 0,
                output_level: 0,
            }),
    {
        CompactionResult { input_count: 0, output_count: 0, input_level: 0, output_level: 0 }
    }
}

/// How large a level is.
#[derive(Clone, Copy, PartialEq, Eq, Structural, Debug)]
pub struct LevelStats {
    pub level: usize,
    pub file_count: usize,
    pub total_size: u64,
}

/// The views of some tables.
pub open spec fn table_views(tables: Seq<Arc<SSTableReader>>) -> Seq<reader::TableView> {
    Seq::new(tables.len(), |i: int| tables[i]@)
}

/// Whether all tables were opened from their files.
pub open spec fn all_open(tables: Seq<Arc<SSTableReader>>) -> bool {
    forall|i: int| 0 <= i < tables.len() ==> (#[trigger] tables[i]).inv()
}

/// The tables without the first one of a given path.
pub open spec fn without_path(tables: Seq<reader::TableView>, path: Seq<char>) -> Seq<
    reader::TableView,
>
    decreases tables.len(),
{
    if tables.len() == 0 {
        tables
    } else if tables[0].path == path {
        tables.skip(1)
    } else {
        seq![tables[0]] + without_path(tables.skip(1), path)
    }
}

/// Whether the key range of a table overlaps with the one from `min_key` to
/// `max_key`.
pub open spec fn overlaps(table: reader::TableView, min_key: Seq<u8>, max_key: Seq<u8>) -> bool {
    order::lex_le(table.header.min_key, max_key) && order::lex_le(min_key, table.header.max_key)
}

/// The tables whose key range overlaps.
pub open spec fn overlapping(
    tables: Seq<reader::TableView>,
    min_key: Seq<u8>,
    max_key: Seq<u8>,
) -> Seq<reader::TableView>
    decreases tables.len(),
{
    if tables.len() == 0 {
        tables
    } else if overlaps(tables.last(), min_key, max_key) {
        overlapping(tables.drop_last(), min_key, max_key).push(tables.last())
    } else {
        overlapping(tables.drop_last(), min_key, max_key)
    }
}

/// The bytes of some tables.
pub open spec fn total_bytes(tables: Seq<reader::TableView>) -> int
    decreases tables.len(),
{
    if tables.len() == 0 {
        0
    } else {
        total_bytes(tables.drop_last()) + tables.last().data.len()
    }
}

/// The bytes of some tables, as far as the range of the counter goes.
pub open spec fn counted_bytes(tables: Seq<reader::TableView>) -> u64 {
    if total_bytes(tables) <= u64::MAX {
        total_bytes(tables) as u64
    } else {
        u64::MAX
    }
}

/// The key range that some tables cover, by their headers.
pub open spec fn key_range(tables: Seq<reader::TableView>) -> (Seq<u8>, Seq<u8>)
    decreases tables.len(),
{
    if tables.len() == 0 {
        (Seq::new(16, |i: int| 0xFFu8), Seq::empty())
    } else {
        let (min_key, max_key) = key_range(tables.drop_last());
        let header = tables.last().header;
        (
            if order::lex_lt(header.min_key, min_key) {
                header.min_key
            } else {
                min_key
            },
            if order::lex_lt(max_key, header.max_key) {
                header.max_key
            } else {
                max_key
            },
        )
    }
}

/// `lex_le` as a test.
fn key_le(a: &[u8], b: &[u8]) -> (r: bool)
    ensures
        r == order::lex_le(a@, b@),
{
    match order::compare_keys(a, b) {
        order::KeyOrder::Greater => {
            proof {
                order::lemma_lex_asymmetric(b@, a@);
            }
            false
        },
        _ => true,
    }
}

/// `lex_lt` as a test.
fn key_lt(a: &[u8], b: &[u8]) -> (r: bool)
    ensures
        r == order::lex_lt(a@, b@),
{
    match order::compare_keys(a, b) {
        order::KeyOrder::Less => true,
        _ => false,
    }
}

/// A level.
pub struct Level {
    /// Its number; 0 is the newest.
    pub level: usize,
    /// Its tables; in level 0 the newest comes last.
    pub sstables: Vec<Arc<SSTableReader>>,
    /// The bytes of its tables, as far as the range of the counter goes.
    pub total_size: u64,
}

/// What a level holds.
#[verifier::ext_equal]
pub struct LevelView {
    pub level: usize,
    pub tables: Seq<reader::TableView>,
    pub total_size: u64,
}

impl View for Level {
    type V = LevelView;

    open spec fn view(&self) -> LevelView {
        LevelView {
            level: self.level,
            tables: table_views(self.sstables@),
            total_size: self.total_size,
        }
    }
}

impl Level {
    /// All tables are open, and their bytes are counted.
    pub open spec fn inv(&self) -> bool {
        all_open(self.sstables@) && self.total_size == counted_bytes(self@.tables)
    }

    /// An empty level.
    pub fn new(level: usize) -> (r: Self)
        ensures
            r.inv(),
            r@ == (LevelView { level, tables: Seq::empty(), total_size: 0 }),
    {
        let r = Level { level, sstables: Vec::new(), total_size: 0 };
        assert(r@.tables =~= Seq::empty());
        r
    }

    /// Adds a table.
    pub fn add_sstable(&mut self, sstable: Arc<SSTableReader>)
        requires
            old(self).inv(),
            sstable.inv(),
        ensures
            final(self).inv(),
            final(self)@.level == old(self)@.level,
            final(self)@.tables == old(self)@.tables.push(sstable@),
    {
        let ghost before = self@.tables;
        let size: u64 = sstable.image().len() as u64;
        self.total_size = self.total_size.saturating_add(size);
        self.sstables.push(sstable);
        proof {
            assert(self@.tables =~= before.push(sstable@));
            assert(self@.tables.drop_last() =~= before);
            lemma_total_nonnegative(before);
        }
    }

    /// Removes the first table of a given path, if there is one.
    pub fn remove_sstable(&mut self, path: &String)
        requires
            old(self).inv(),
        ensures
            final(self).inv(),
            final(self)@.level == old(self)@.level,
            final(self)@.tables == without_path(old(self)@.tables, path@),
    {
        let ghost before = self@.tables;
        let mut i: usize = 0;
        assert(before.skip(0) =~= before);
        assert(before.take(0) + without_path(before.skip(0), path@) =~= without_path(before, path@));
        while i < self.sstables.len()
            invariant
                i <= self.sstables@.len(),
                self.inv(),
                self@.tables == before,
                before == old(self)@.tables,
                self@.level == old(self)@.level,
                without_path(before, path@) == before.take(i as int) + without_path(
                    before.skip(i as int),
                    path@,
                ),
            decreases self.sstables@.len() - i,
        {
            assert(before.skip(i as int)[0] == before[i as int]);
            if *self.sstables[i].path() == *path {
                let ghost tables = self.sstables@;
                self.sstables.remove(i);
                self.total_size = sum_sizes(&self.sstables);
                proof {
                    assert(before.skip(i as int)[0].path == path@);
                    assert(self.sstables@ == tables.remove(i as int));
                    assert(table_views(self.sstables@) =~= before.take(i as int) + before.skip(
                        i as int,
                    ).skip(1));
                    assert(all_open(self.sstables@));
                }
                return;
            }
            proof {
                assert(before.skip(i as int).skip(1) =~= before.skip(i + 1));
                assert(before.take(i as int) + (seq![before[i as int]] + without_path(
                    before.skip(i + 1),
                    path@,
                )) =~= before.take(i + 1) + without_path(before.skip(i + 1), path@));
            }
            i = i + 1;
        }
        assert(before.skip(i as int) =~= Seq::empty());
        assert(before.take(i as int) + before.skip(i as int) =~= before);
    }

    /// The tables whose key range overlaps with a given one.
    pub fn get_overlapping(&self, min_key: &[u8], max_key: &[u8]) -> (r: Vec<Arc<SSTableReader>>)
        requires
            self.inv(),
        ensures
            table_views(r@) == overlapping(self@.tables, min_key@, max_key@),
            all_open(r@),
    {
        let ghost all = self@.tables;
        let mut out: Vec<Arc<SSTableReader>> = Vec::new();
        let mut i: usize = 0;
        assert(table_views(out@) =~= overlapping(all.take(0), min_key@, max_key@));
        while i < self.sstables.len()
            invariant
                i <= self.sstables@.len(),
                self.inv(),
                all == self@.tables,
                all_open(out@),
                table_views(out@) == overlapping(all.take(i as int), min_key@, max_key@),
            decreases self.sstables@.len() - i,
        {
            let ghost before = table_views(out@);
            proof {
                assert(all.take(i + 1).drop_last() =~= all.take(i as int));
                assert(all.take(i + 1).last() == self.sstables@[i as int]@);
            }
            if table_overlaps(&self.sstables[i], min_key, max_key) {
                out.push(share::share(&self.sstables[i]));
                assert(table_views(out@) =~= before.push(all[i as int]));
            }
            i = i + 1;
        }
        assert(all.take(i as int) =~= all);
        out
    }
}

/// Whether the key range of a table overlaps with a given one.
fn table_overlaps(table: &Arc<SSTableReader>, min_key: &[u8], max_key: &[u8]) -> (r: bool)
    ensures
        r == overlaps(table@, min_key@, max_key@),
{
    let meta = table.meta();
    key_le(meta.min_key.as_slice(), max_key) && key_le(min_key, meta.max_key.as_slice())
}

proof fn lemma_total_nonnegative(tables: Seq<reader::TableView>)
    ensures
        0 <= total_bytes(tables),
    decreases tables.len(),
{
    if tables.len() > 0 {
        lemma_total_nonnegative(tables.drop_last());
    }
}

/// The bytes of some tables, as far as the range of the counter goes.
fn sum_sizes(tables: &Vec<Arc<SSTableReader>>) -> (r: u64)
    ensures
        r == counted_bytes(table_views(tables@)),
{
    let ghost all = table_views(tables@);
    let mut sum: u64 = 0;
    let mut i: usize = 0;
    while i < tables.len()
        invariant
            i <= tables@.len(),
            all == table_views(tables@),
            sum == counted_bytes(all.take(i as int)),
        decreases tables@.len() - i,
    {
        let size: u64 = tables[i].image().len() as u64;
        sum = sum.saturating_add(size);
        proof {
            assert(all.take(i + 1).drop_last() =~= all.take(i as int));
            lemma_total_nonnegative(all.take(i as int));
        }
        i = i + 1;
    }
    assert(all.take(i as int) =~= all);
    sum
}

/// All records of some tables, table after table; the first table that cannot be
/// read gives the error.
pub open spec fn gathered(tables: Seq<reader::TableView>) -> Result<
    Seq<layout::RecordView>,
    StorageError,
>
    decreases tables.len(),
{
    if tables.len() == 0 {
        Ok(Seq::empty())
    } else {
        match gathered(tables.drop_last()) {
            Ok(before) => match tables.last().records() {
                Ok(records) => Ok(before + records),
                Err(e) => Err(e),
            },
            Err(e) => Err(e),
        }
    }
}

/// Reads all records of some tables.
fn gather(tables: &Vec<Arc<SSTableReader>>) -> (r: Result<Vec<Record>, StorageError>)
    ensures
        gathered(table_views(tables@)) == (match r {
            Ok(records) => Ok(block::record_views(records@)),
            Err(e) => Err(e),
        }),
{
    let ghost all = table_views(tables@);
    let mut out: Vec<Record> = Vec::new();
    let mut i: usize = 0;
    assert(block::record_views(out@) =~= Seq::empty());
    while i < tables.len()
        invariant
            i <= tables@.len(),
            all == table_views(tables@),
            gathered(all.take(i as int)) == Ok::<Seq<layout::RecordView>, StorageError>(
                block::record_views(out@),
            ),
        decreases tables@.len() - i,
    {
        let ghost before = block::record_views(out@);
        proof {
            assert(all.take(i + 1).drop_last() =~= all.take(i as int));
            assert(all.take(i + 1).last() == tables@[i as int]@);
        }
        let mut records = match tables[i].iter() {
            Ok(records) => records,
            Err(e) => {
                proof {
                    lemma_gathered_error(all, i + 1, e);
                }
                return Err(e);
            },
        };
        let ghost read = records@;
        out.append(&mut records);
        proof {
            assert(block::record_views(out@) =~= before + block::record_views(read));
        }
        i = i + 1;
    }
    assert(all.take(i as int) =~= all);
    Ok(out)
}

/// A table that cannot be read stops the gathering.
proof fn lemma_gathered_error(tables: Seq<reader::TableView>, n: int, e: StorageError)
    requires
        0 <= n <= tables.len(),
        gathered(tables.take(n)) == Err::<Seq<layout::RecordView>, StorageError>(e),
    ensures
        gathered(tables) == Err::<Seq<layout::RecordView>, StorageError>(e),
    decreases tables.len() - n,
{
    if n == tables.len() {
        assert(tables.take(n) =~= tables);
    } else {
        assert(tables.take(n + 1).drop_last() =~= tables.take(n));
        lemma_gathered_error(tables, n + 1, e);
    }
}

/// The records of the tables that `rest` is written out to, `open` being those of
/// the table that is being filled: a table is closed as soon as it is full.
pub open spec fn split(
    open: Seq<layout::RecordView>,
    rest: Seq<layout::RecordView>,
    compression: Compression,
    target: u64,
) -> Seq<Seq<layout::RecordView>>
    decreases rest.len(),
{
    if rest.len() == 0 {
        if open.len() == 0 {
            Seq::empty()
        } else {
            seq![open]
        }
    } else {
        let next = open.push(rest[0]);
        if writer::is_full(next, compression, target) {
            seq![next] + split(Seq::empty(), rest.skip(1), compression, target)
        } else {
            split(next, rest.skip(1), compression, target)
        }
    }
}

/// The path of a table's file.
pub open spec fn table_path(base: Seq<char>, level: usize, now: u64, counter: u64) -> Seq<char> {
    base + "/level"@ + text::decimal(level as nat) + "/"@ + text::decimal(now as nat) + "_"@
        + text::decimal(counter as nat) + ".sst"@
}

/// The path of a table's file.
pub(crate) fn path_of_table(base: &str, level: usize, now: u64, counter: u64) -> (r: String)
    ensures
        r@ == table_path(base@, level, now, counter),
{
    let mut path = String::new();
    path.append(base);
    path.append("/level");
    text::push_number(&mut path, level as u64);
    path.append("/");
    text::push_number(&mut path, now);
    path.append("_");
    text::push_number(&mut path, counter);
    path.append(".sst");
    assert(path@ =~= table_path(base@, level, now, counter));
    path
}

/// Where and how tables are written out.
#[verifier::ext_equal]
pub struct Target {
    /// The directory of all levels.
    pub base: Seq<char>,
    pub level: usize,
    pub now: u64,
    /// The number of the first file.
    pub counter: u64,
    pub compression: Compression,
    /// The size from which on a table is closed.
    pub size: u64,
}

/// The number of the file after `n` others.
pub open spec fn counter_after(counter: u64, n: int) -> u64 {
    ((counter + n) % 0x1_0000_0000_0000_0000) as u64
}

impl Target {
    /// Whether a table is number `i` of those that are written out, and holds
    /// `chunk` if that is within the range of the fields of a file.
    pub open spec fn is_output(
        self,
        table: reader::TableView,
        i: int,
        chunk: Seq<layout::RecordView>,
    ) -> bool {
        &&& table.path == table_path(self.base, self.level, self.now, counter_after(self.counter, i))
        &&& table.level == self.level
        &&& writer::table_fits(chunk, self.compression) ==> reader::holds(table, chunk)
    }

    /// The records of the tables that some records are written out to.
    pub open spec fn chunks(self, records: Seq<layout::RecordView>) -> Seq<
        Seq<layout::RecordView>,
    > {
        split(Seq::empty(), records, self.compression, self.size)
    }

    /// Whether some tables are those that some records are written out to.
    pub open spec fn are_outputs(
        self,
        tables: Seq<reader::TableView>,
        chunks: Seq<Seq<layout::RecordView>>,
    ) -> bool {
        &&& tables.len() == chunks.len()
        &&& forall|i: int|
            0 <= i < tables.len() ==> self.is_output(#[trigger] tables[i], i, chunks[i])
    }

    /// Whether all of some tables can be written and read back.
    pub open spec fn all_fit(self, chunks: Seq<Seq<layout::RecordView>>) -> bool {
        forall|i: int|
            0 <= i < chunks.len() ==> writer::table_fits(#[trigger] chunks[i], self.compression)
    }

    /// Whether writing some tables out fails for certain, since compression fails
    /// for one and those before it can be written and read back.
    pub open spec fn cannot_pack(self, chunks: Seq<Seq<layout::RecordView>>) -> bool {
        exists|n: int|
            0 <= n < chunks.len() && self.all_fit(chunks.take(n)) && !writer::writable(
                #[trigger] chunks[n],
                self.compression,
            )
    }

    /// Whether `r` is what writing some tables out comes to.
    #[verifier::opaque]
    pub open spec fn written(
        self,
        chunks: Seq<Seq<layout::RecordView>>,
        r: Result<Seq<reader::TableView>, StorageError>,
    ) -> bool {
        &&& self.all_fit(chunks) ==> r is Ok
        &&& self.cannot_pack(chunks) ==> r == Err::<Seq<reader::TableView>, StorageError>(
            StorageError::Compression,
        )
        &&& r matches Ok(tables) ==> self.are_outputs(tables, chunks)
    }
}

/// A table whose records cannot be compressed cannot be completed either.
pub proof fn lemma_built_prefix(
    prefix: Seq<layout::RecordView>,
    records: Seq<layout::RecordView>,
    compression: Compression,
    target: u64,
)
    requires
        prefix.is_prefix_of(records),
        writer::built(prefix, compression) is None,
    ensures
        writer::built(records, compression) is None,
        !writer::table_fits(records, compression),
        !writer::writable(records, compression),
        !writer::is_full(records, compression, target),
    decreases records.len(),
{
    reveal(writer::table_fits);
    reveal(writer::writable);
    reveal(writer::is_full);
    if prefix.len() == records.len() {
        assert(prefix =~= records);
    } else {
        assert(prefix.is_prefix_of(records.drop_last()));
        lemma_built_prefix(prefix, records.drop_last(), compression, target);
    }
}

/// The table that is being filled is the first of those to come.
proof fn lemma_split_first(
    open: Seq<layout::RecordView>,
    rest: Seq<layout::RecordView>,
    compression: Compression,
    target: u64,
)
    requires
        open.len() > 0,
    ensures
        split(open, rest, compression, target).len() > 0,
        open.is_prefix_of(split(open, rest, compression, target)[0]),
    decreases rest.len(),
{
    if rest.len() > 0 {
        let next = open.push(rest[0]);
        if !writer::is_full(next, compression, target) {
            lemma_split_first(next, rest.skip(1), compression, target);
        }
    }
}

/// A counter that goes on by one.
proof fn lemma_counter_step(counter: u64, n: int)
    requires
        0 <= n,
    ensures
        counter_after(counter, n).wrapping_add(1) == counter_after(counter, n + 1),
{
}

/// Adds a record to the table that is being filled.
pub(crate) fn add_record(w: &mut SSTableWriter, record: &Record, open: Ghost<Seq<layout::RecordView>>) -> (r:
    Result<(), StorageError>)
    requires
        old(w).inv(),
        old(w)@.records.len() < u64::MAX,
        writer::built(open@, old(w)@.compression) matches Some(b) && writer::alike(old(w)@, b),
    ensures
        final(w).inv(),
        final(w)@.path == old(w)@.path,
        final(w)@.level == old(w)@.level,
        final(w)@.compression == old(w)@.compression,
        match writer::built(open@.push(record@), old(w)@.compression) {
            Some(b) => r == Ok::<(), StorageError>(()) && writer::alike(final(w)@, b),
            None => r == Err::<(), StorageError>(StorageError::Compression),
        },
{
    let ghost before = w@;
    proof {
        writer::lemma_built_step(before, open@, before.compression, record@);
    }
    let r = w.add_entry(
        crate::engine::codec::copy_bytes(&record.key),
        &record.value,
        record.timestamp,
    );
    r
}

/// Closes a table and opens it for reading.
pub(crate) fn close_table(w: SSTableWriter, path: String, level: usize, records: Ghost<
    Seq<layout::RecordView>,
>) -> (r: Result<Arc<SSTableReader>, StorageError>)
    requires
        w.inv(),
        writer::built(records@, w@.compression) matches Some(b) && writer::alike(w@, b),
    ensures
        writer::table_fits(records@, w@.compression) ==> r is Ok,
        !writer::writable(records@, w@.compression) ==> r == Err::<
            Arc<SSTableReader>,
            StorageError,
        >(StorageError::Compression),
        r matches Ok(table) ==> table.inv() && table@.path == path@ && table@.level == level && (
        writer::table_fits(records@, w@.compression) ==> reader::holds(table@, records@)),
{
    let ghost compression = w@.compression;
    proof {
        writer::lemma_finishes(w@, records@);
    }
    let (image, _meta) = match w.finish() {
        Ok(done) => done,
        Err(e) => return Err(e),
    };
    proof {
        if writer::table_fits(records@, compression) {
            assert(reader::is_table_of(path@, level, image@, records@));
        }
    }
    match SSTableReader::open_at_level(path, image, level) {
        Ok(table) => Ok(Arc::new(table)),
        Err(e) => Err(e),
    }
}

/// What is known of writing some tables out before it is through.
spec fn under_way(
    target: Target,
    chunks: Seq<Seq<layout::RecordView>>,
    closed: Seq<Seq<layout::RecordView>>,
    tables: Seq<reader::TableView>,
) -> bool {
    &&& closed.is_prefix_of(chunks)
    &&& target.are_outputs(tables, closed)
    &&& forall|i: int|
        0 <= i < closed.len() ==> writer::writable(#[trigger] closed[i], target.compression)
}

/// Closing one more table.
proof fn lemma_under_way_step(
    target: Target,
    chunks: Seq<Seq<layout::RecordView>>,
    closed: Seq<Seq<layout::RecordView>>,
    tables: Seq<reader::TableView>,
    chunk: Seq<layout::RecordView>,
    table: reader::TableView,
)
    requires
        under_way(target, chunks, closed, tables),
        closed.push(chunk).is_prefix_of(chunks),
        writer::writable(chunk, target.compression),
        target.is_output(table, tables.len() as int, chunk),
    ensures
        under_way(target, chunks, closed.push(chunk), tables.push(table)),
{
}

/// When a table fails, writing out fails.
proof fn lemma_under_way_failed(
    target: Target,
    chunks: Seq<Seq<layout::RecordView>>,
    closed: Seq<Seq<layout::RecordView>>,
    tables: Seq<reader::TableView>,
    e: StorageError,
)
    requires
        under_way(target, chunks, closed, tables),
        closed.len() < chunks.len(),
        !writer::table_fits(chunks[closed.len() as int], target.compression),
        writer::writable(chunks[closed.len() as int], target.compression) || e
            == StorageError::Compression,
    ensures
        target.written(chunks, Err(e)),
{
    reveal(Target::written);
    let c = closed.len() as int;
    if target.cannot_pack(chunks) && e != StorageError::Compression {
        let n = choose|n: int|
            0 <= n < chunks.len() && target.all_fit(chunks.take(n)) && !writer::writable(
                #[trigger] chunks[n],
                target.compression,
            );
        if n < c {
            assert(closed[n] == chunks[n]);
        } else if n > c {
            assert(chunks.take(n)[c] == chunks[c]);
        }
    }
}

/// When all tables are closed, writing out is through.
proof fn lemma_under_way_through(
    target: Target,
    chunks: Seq<Seq<layout::RecordView>>,
    tables: Seq<reader::TableView>,
)
    requires
        under_way(target, chunks, chunks, tables),
    ensures
        target.written(chunks, Ok(tables)),
{
    reveal(Target::written);
}

/// What a result of tables says of them.
pub open spec fn result_views(r: Result<Vec<Arc<SSTableReader>>, StorageError>) -> Result<
    Seq<reader::TableView>,
    StorageError,
> {
    match r {
        Ok(tables) => Ok(table_views(tables@)),
        Err(e) => Err(e),
    }
}

/// Writes records out to tables of a level: a table is closed as soon as it is
/// full.
fn write_tables(
    records: &Vec<Record>,
    base: &str,
    level: usize,
    now: u64,
    counter: &mut u64,
    config: CompactionConfig,
) -> (r: Result<Vec<Arc<SSTableReader>>, StorageError>)
    ensures
        ({
            let target = Target {
                base: base@,
                level,
                now,
                counter: *old(counter),
                compression: config.compression,
                size: config.target_file_size,
            };
            target.written(target.chunks(block::record_views(records@)), result_views(r))
        }),
        r matches Ok(tables) ==> all_open(tables@) && *final(counter) == counter_after(
            *old(counter),
            tables@.len() as int,
        ),
{
    let ghost target = Target {
        base: base@,
        level,
        now,
        counter: *counter,
        compression: config.compression,
        size: config.target_file_size,
    };
    let ghost all = block::record_views(records@);
    let ghost chunks = target.chunks(all);
    let ghost mut closed: Seq<Seq<layout::RecordView>> = Seq::empty();
    let ghost mut open: Seq<layout::RecordView> = Seq::empty();
    let mut outputs: Vec<Arc<SSTableReader>> = Vec::new();
    let mut path = String::new();
    let mut current: Option<SSTableWriter> = None;
    let mut i: usize = 0;
    proof {
        assert(all.skip(0) =~= all);
        assert(closed + chunks =~= chunks);
        assert(table_views(outputs@) =~= Seq::empty());
    }
    while i < records.len()
        invariant
            i <= records@.len(),
            all == block::record_views(records@),
            target == (Target {
                base: base@,
                level,
                now,
                counter: *old(counter),
                compression: config.compression,
                size: config.target_file_size,
            }),
            chunks == target.chunks(all),
            chunks == closed + split(open, all.skip(i as int), target.compression, target.size),
            under_way(target, chunks, closed, table_views(outputs@)),
            all_open(outputs@),
            open.len() <= i,
            match current {
                None => open.len() == 0 && *counter == counter_after(
                    target.counter,
                    closed.len() as int,
                ),
                Some(w) => {
                    &&& open.len() > 0
                    &&& *counter == counter_after(target.counter, 1int + closed.len())
                    &&& w.inv()
                    &&& w@.compression == target.compression
                    &&& path@ == table_path(
                        base@,
                        level,
                        now,
                        counter_after(target.counter, closed.len() as int),
                    )
                    &&& writer::built(open, target.compression) matches Some(b) && writer::alike(
                        w@,
                        b,
                    )
                },
            },
        decreases records@.len() - i,
    {
        let mut w = match current {
            Some(w) => w,
            None => {
                path = path_of_table(base, level, now, *counter);
                proof {
                    lemma_counter_step(target.counter, closed.len() as int);
                    assert(open =~= Seq::empty());
                }
                *counter = counter.wrapping_add(1);
                SSTableWriter::with_level(path.clone(), config.compression, level)
            },
        };
        let ghost record = records@[i as int]@;
        let ghost next = open.push(record);
        proof {
            assert(all.skip(i as int)[0] == record);
            assert(all.skip(i as int).skip(1) =~= all.skip(i + 1));
            writer::lemma_built_records(open, target.compression);
            lemma_split_first(next, all.skip(i + 1), target.compression, target.size);
        }
        if let Err(e) = add_record(&mut w, &records[i], Ghost(open)) {
            proof {
                let chunk = chunks[closed.len() as int];
                lemma_built_prefix(next, next, target.compression, target.size);
                assert(next.is_prefix_of(chunk));
                lemma_built_prefix(next, chunk, target.compression, target.size);
                lemma_under_way_failed(target, chunks, closed, table_views(outputs@), e);
            }
            return Err(e);
        }
        proof {
            writer::lemma_finishes(w@, next);
        }
        if w.estimated_size() >= config.target_file_size {
            assert(writer::is_full(next, target.compression, target.size));
            let ghost rest = split(Seq::empty(), all.skip(i + 1), target.compression, target.size);
            proof {
                assert(chunks =~= closed.push(next) + rest);
                assert(chunks[closed.len() as int] == next);
            }
            let table = match close_table(w, path, level, Ghost(next)) {
                Ok(table) => table,
                Err(e) => {
                    proof {
                        lemma_under_way_failed(target, chunks, closed, table_views(outputs@), e);
                    }
                    return Err(e);
                },
            };
            proof {
                lemma_under_way_step(target, chunks, closed, table_views(outputs@), next, table@);
                assert(table_views(outputs@.push(table)) =~= table_views(outputs@).push(table@));
                closed = closed.push(next);
                open = Seq::empty();
            }
            outputs.push(table);
            path = String::new();
            current = None;
        } else {
            assert(!writer::is_full(next, target.compression, target.size));
            proof {
                open = next;
            }
            current = Some(w);
        }
        i = i + 1;
    }
    assert(all.skip(i as int) =~= Seq::empty());
    if let Some(w) = current {
        proof {
            assert(chunks =~= closed.push(open));
            assert(chunks[closed.len() as int] == open);
        }
        let table = match close_table(w, path, level, Ghost(open)) {
            Ok(table) => table,
            Err(e) => {
                proof {
                    lemma_under_way_failed(target, chunks, closed, table_views(outputs@), e);
                }
                return Err(e);
            },
        };
        proof {
            lemma_under_way_step(target, chunks, closed, table_views(outputs@), open, table@);
            assert(table_views(outputs@.push(table)) =~= table_views(outputs@).push(table@));
            closed = closed.push(open);
        }
        outputs.push(table);
    }
    proof {
        assert(closed =~= chunks);
        lemma_under_way_through(target, chunks, table_views(outputs@));
    }
    Ok(outputs)
}

/// What a compaction manager holds.
#[verifier::ext_equal]
pub struct ManagerView {
    /// The directory of all levels.
    pub base: Seq<char>,
    /// The tables of each level; in level 0 the newest comes last.
    pub levels: Seq<Seq<reader::TableView>>,
    pub config: CompactionConfig,
    /// The number of the next file.
    pub file_counter: u64,
}

/// The tables of each level.
pub open spec fn level_tables(levels: Seq<Level>) -> Seq<Seq<reader::TableView>> {
    Seq::new(levels.len(), |i: int| levels[i]@.tables)
}

/// The tables without those of given paths.
pub open spec fn without_paths(tables: Seq<reader::TableView>, paths: Seq<Seq<char>>) -> Seq<
    reader::TableView,
>
    decreases paths.len(),
{
    if paths.len() == 0 {
        tables
    } else {
        without_path(without_paths(tables, paths.drop_last()), paths.last())
    }
}

/// The paths of some tables.
pub open spec fn paths_of(tables: Seq<reader::TableView>) -> Seq<Seq<char>> {
    Seq::new(tables.len(), |i: int| tables[i].path)
}

/// The tables of some levels whose key range a key is in, level after level.
pub open spec fn deeper(levels: Seq<Seq<reader::TableView>>, key: Seq<u8>) -> Seq<reader::TableView>
    decreases levels.len(),
{
    if levels.len() == 0 {
        Seq::empty()
    } else {
        deeper(levels.drop_last(), key) + covering(levels.last(), key)
    }
}

/// The tables whose key range a key is in.
pub open spec fn covering(tables: Seq<reader::TableView>, key: Seq<u8>) -> Seq<reader::TableView>
    decreases tables.len(),
{
    if tables.len() == 0 {
        tables
    } else {
        let last = tables.last();
        if layout::in_prefix_range(last.header.min_key, last.header.max_key, key) {
            covering(tables.drop_last(), key).push(last)
        } else {
            covering(tables.drop_last(), key)
        }
    }
}

/// Whether `r` is what looking a key up in some tables, one after the other, comes
/// to: the first table that knows the key, or cannot be read, decides.
pub open spec fn answered(
    tables: Seq<reader::TableView>,
    key: Seq<u8>,
    r: Result<Option<layout::RecordView>, StorageError>,
) -> bool
    decreases tables.len(),
{
    if tables.len() == 0 {
        r == Ok::<Option<layout::RecordView>, StorageError>(None)
    } else {
        exists|a: Result<Option<layout::RecordView>, StorageError>| #[trigger]
            tables[0].answers(key, a) && if a == Ok::<Option<layout::RecordView>, StorageError>(
                None,
            ) {
                answered(tables.skip(1), key, r)
            } else {
                r == a
            }
    }
}

impl ManagerView {
    /// The tables in which a key is looked up, in this order.
    pub open spec fn candidates(self, key: Seq<u8>) -> Seq<reader::TableView> {
        self.levels[0].reverse() + deeper(self.levels.skip(1), key)
    }

    /// The tables of a level that are compacted together: all of level 0, else the
    /// first one.
    pub open spec fn upper(self, level: int) -> Seq<reader::TableView> {
        if level == 0 || self.levels[level].len() == 0 {
            self.levels[level]
        } else {
            self.levels[level].take(1)
        }
    }

    /// The key range that is compacted.
    pub open spec fn range(self, level: int) -> (Seq<u8>, Seq<u8>) {
        if level == 0 {
            key_range(self.levels[0])
        } else {
            (self.levels[level][0].header.min_key, self.levels[level][0].header.max_key)
        }
    }

    /// The tables of the next level that are compacted with them.
    pub open spec fn lower(self, level: int) -> Seq<reader::TableView> {
        overlapping(self.levels[level + 1], self.range(level).0, self.range(level).1)
    }

    /// All tables that are compacted.
    pub open spec fn inputs(self, level: int) -> Seq<reader::TableView> {
        self.upper(level) + self.lower(level)
    }

    /// Where the tables of a compaction are written out to.
    pub open spec fn target(self, level: usize, now: u64) -> Target {
        Target {
            base: self.base,
            level,
            now,
            counter: self.file_counter,
            compression: self.config.compression,
            size: self.config.target_file_size,
        }
    }

    /// Whether `r` are the tables that some tables are merged into.
    pub open spec fn merges(
        self,
        inputs: Seq<reader::TableView>,
        level: usize,
        now: u64,
        r: Result<Seq<reader::TableView>, StorageError>,
    ) -> bool {
        match gathered(inputs) {
            Ok(all) => exists|merged: Seq<layout::RecordView>| #[trigger]
                merge::is_merge(all, merged) && self.target(level, now).written(
                    self.target(level, now).chunks(merged),
                    r,
                ),
            Err(e) => r == Err::<Seq<reader::TableView>, StorageError>(e),
        }
    }

    /// The first level, of those from `level` on, that is over its target size.
    pub open spec fn over_target(self, level: int) -> Option<int>
        decreases self.config.max_levels - level,
    {
        if level >= self.config.max_levels - 1 {
            None
        } else if counted_bytes(self.levels[level]) > self.config.target_size(level) {
            Some(level)
        } else {
            self.over_target(level + 1)
        }
    }

    /// Whether the target sizes are in range up to the first level that is over its
    /// own.
    pub open spec fn sizes_reached_fit(self) -> bool {
        forall|level: int|
            1 <= level < self.config.max_levels - 1 && (self.over_target(1) is Some ==> level
                <= self.over_target(1)->Some_0) ==> #[trigger] self.config.size_fits(level)
    }

    /// Whether level 0 has as many tables as trigger a compaction.
    pub open spec fn level0_full(self) -> bool {
        self.levels[0].len() >= self.config.l0_compaction_trigger
    }

    /// The levels after a compaction was installed.
    pub open spec fn installed(self, plan: PlanView) -> ManagerView {
        let level = plan.level as int;
        ManagerView {
            levels: self.levels.update(
                level,
                without_paths(self.levels[level], plan.upper),
            ).update(
                level + 1,
                without_paths(self.levels[level + 1], plan.lower) + plan.outputs,
            ),
            ..self
        }
    }
}

impl ManagerView {
    /// The levels after a compaction whose new tables are `outputs`.
    pub open spec fn after_compaction(self, level: int, outputs: Seq<reader::TableView>) -> ManagerView {
        ManagerView {
            file_counter: counter_after(self.file_counter, outputs.len() as int),
            ..self.installed(
                PlanView {
                    level: level as usize,
                    upper: paths_of(self.upper(level)),
                    lower: paths_of(self.lower(level)),
                    outputs,
                },
            )
        }
    }
}

/// A compaction that is ready to be installed.
pub struct CompactionPlan {
    /// The level that is compacted into the next.
    pub level: usize,
    /// The paths of its tables that leave.
    pub upper: Vec<String>,
    /// The paths of the next level's tables that leave.
    pub lower: Vec<String>,
    /// The tables that come into the next level.
    pub outputs: Vec<Arc<SSTableReader>>,
}

/// What a plan says.
#[verifier::ext_equal]
pub struct PlanView {
    pub level: usize,
    pub upper: Seq<Seq<char>>,
    pub lower: Seq<Seq<char>>,
    pub outputs: Seq<reader::TableView>,
}

impl View for CompactionPlan {
    type V = PlanView;

    open spec fn view(&self) -> PlanView {
        PlanView {
            level: self.level,
            upper: text::texts(self.upper@),
            lower: text::texts(self.lower@),
            outputs: table_views(self.outputs@),
        }
    }
}

impl CompactionPlan {
    /// All tables that come in are open, and those that leave can be counted.
    pub open spec fn inv(&self) -> bool {
        all_open(self.outputs@) && self.upper@.len() + self.lower@.len() <= usize::MAX
    }
}

/// The levels and what compacts them.
pub struct CompactionManager {
    base_path: String,
    levels: Vec<Level>,
    config: CompactionConfig,
    file_counter: u64,
}

impl View for CompactionManager {
    type V = ManagerView;

    closed spec fn view(&self) -> ManagerView {
        ManagerView {
            base: self.base_path@,
            levels: level_tables(self.levels@),
            config: self.config,
            file_counter: self.file_counter,
        }
    }
}

/// Whether every level is in order and in its place.
pub open spec fn all_levels(levels: Seq<Level>) -> bool {
    forall|i: int|
        0 <= i < levels.len() ==> (#[trigger] levels[i]).inv() && levels[i].level == i
}

impl CompactionManager {
    /// There are as many levels as configured, all of them in order.
    pub closed spec fn inv(&self) -> bool {
        self.levels@.len() == self.config.max_levels && all_levels(self.levels@)
    }

    /// Empty levels under a directory.
    pub fn new(base_path: String, config: CompactionConfig) -> (r: Self)
        ensures
            r.inv(),
            r@ == (ManagerView {
                base: base_path@,
                levels: Seq::new(config.max_levels as nat, |i: int| Seq::empty()),
                config,
                file_counter: 0,
            }),
    {
        let mut levels: Vec<Level> = Vec::new();
        let mut i: usize = 0;
        while i < config.max_levels
            invariant
                i <= config.max_levels,
                levels@.len() == i,
                all_levels(levels@),
                forall|j: int|
                    0 <= j < i ==> (#[trigger] levels@[j])@.tables == Seq::<
                        reader::TableView,
                    >::empty(),
            decreases config.max_levels - i,
        {
            levels.push(Level::new(i));
            i = i + 1;
        }
        let r = CompactionManager { base_path, levels, config, file_counter: 0 };
        assert(r@.levels =~= Seq::new(config.max_levels as nat, |i: int| Seq::empty()));
        r
    }

    /// The configuration.
    pub fn config(&self) -> (r: CompactionConfig)
        ensures
            r == self@.config,
    {
        self.config
    }

    /// Adds a table to a level.
    fn add_to_level(&mut self, level: usize, sstable: Arc<SSTableReader>)
        requires
            old(self).inv(),
            level < old(self)@.config.max_levels,
            sstable.inv(),
        ensures
            final(self).inv(),
            final(self)@ == (ManagerView {
                levels: old(self)@.levels.update(
                    level as int,
                    old(self)@.levels[level as int].push(sstable@),
                ),
                ..old(self)@
            }),
    {
        let ghost before = self@;
        let ghost levels = self.levels@;
        self.levels[level].add_sstable(sstable);
        proof {
            assert(self@.levels =~= before.levels.update(
                level as int,
                before.levels[level as int].push(sstable@),
            ));
            assert forall|i: int| 0 <= i < self.levels@.len() implies (
            #[trigger] self.levels@[i]).inv() && self.levels@[i].level == i by {
                assert(levels[i].inv() && levels[i].level == i);
            }
        }
    }

    /// Adds a new table to level 0.
    pub fn add_l0_sstable(&mut self, sstable: Arc<SSTableReader>)
        requires
            old(self).inv(),
            old(self)@.config.max_levels >= 1,
            sstable.inv(),
        ensures
            final(self).inv(),
            final(self)@ == (ManagerView {
                levels: old(self)@.levels.update(0, old(self)@.levels[0].push(sstable@)),
                ..old(self)@
            }),
    {
        self.add_to_level(0, sstable);
    }

    /// Opens a table's file and adds it to its level. A file that cannot be opened
    /// is left out.
    pub fn load_sstable(&mut self, level: usize, path: String, data: Vec<u8>) -> (r: Result<
        (),
        StorageError,
    >)
        requires
            old(self).inv(),
            level < old(self)@.config.max_levels,
        ensures
            final(self).inv(),
            match reader::opened(path@, level, data@) {
                Ok(table) => r == Ok::<(), StorageError>(()) && final(self)@ == (ManagerView {
                    levels: old(self)@.levels.update(
                        level as int,
                        old(self)@.levels[level as int].push(table),
                    ),
                    ..old(self)@
                }),
                Err(e) => r == Err::<(), StorageError>(e) && final(self)@ == old(self)@,
            },
    {
        match SSTableReader::open_at_level(path, data, level) {
            Ok(table) => {
                self.add_to_level(level, Arc::new(table));
                Ok(())
            },
            Err(e) => Err(e),
        }
    }
}

/// The key range that some tables cover, by their headers.
fn find_key_range(tables: &Vec<Arc<SSTableReader>>) -> (r: (Vec<u8>, Vec<u8>))
    ensures
        (r.0@, r.1@) == key_range(table_views(tables@)),
{
    let ghost all = table_views(tables@);
    let mut min_key: Vec<u8> = vec![0xFFu8; 16];
    let mut max_key: Vec<u8> = Vec::new();
    let mut i: usize = 0;
    assert(min_key@ =~= Seq::new(16, |i: int| 0xFFu8));
    while i < tables.len()
        invariant
            i <= tables@.len(),
            all == table_views(tables@),
            (min_key@, max_key@) == key_range(all.take(i as int)),
        decreases tables@.len() - i,
    {
        let meta = tables[i].meta();
        proof {
            assert(all.take(i + 1).drop_last() =~= all.take(i as int));
            assert(all.take(i + 1).last() == tables@[i as int]@);
        }
        if key_lt(meta.min_key.as_slice(), min_key.as_slice()) {
            min_key = meta.min_key;
        }
        if key_lt(max_key.as_slice(), meta.max_key.as_slice()) {
            max_key = meta.max_key;
        }
        i = i + 1;
    }
    assert(all.take(i as int) =~= all);
    (min_key, max_key)
}

/// Handles on the same tables.
fn share_all(tables: &Vec<Arc<SSTableReader>>) -> (r: Vec<Arc<SSTableReader>>)
    ensures
        r@ == tables@,
{
    let mut out: Vec<Arc<SSTableReader>> = Vec::new();
    let mut i: usize = 0;
    while i < tables.len()
        invariant
            i <= tables@.len(),
            out@ == tables@.take(i as int),
        decreases tables@.len() - i,
    {
        out.push(share::share(&tables[i]));
        assert(out@ =~= tables@.take(i + 1));
        i = i + 1;
    }
    assert(tables@.take(i as int) =~= tables@);
    out
}

/// The paths of some tables.
fn table_paths(tables: &Vec<Arc<SSTableReader>>) -> (r: Vec<String>)
    ensures
        text::texts(r@) == paths_of(table_views(tables@)),
{
    let mut out: Vec<String> = Vec::new();
    let mut i: usize = 0;
    while i < tables.len()
        invariant
            i <= tables@.len(),
            out@.len() == i,
            forall|j: int| 0 <= j < i ==> (#[trigger] out@[j])@ == tables@[j]@.path,
        decreases tables@.len() - i,
    {
        out.push(tables[i].path().clone());
        i = i + 1;
    }
    assert(text::texts(out@) =~= paths_of(table_views(tables@)));
    out
}

/// A level that is over its target size is none of those before.
proof fn lemma_over_target(view: ManagerView, level: int)
    ensures
        view.over_target(level) matches Some(m) ==> level <= m,
    decreases view.config.max_levels - level,
{
    if level < view.config.max_levels - 1 {
        lemma_over_target(view, level + 1);
    }
}

impl CompactionManager {
    /// The size from which on a level is compacted.
    fn target_size_for_level(&self, level: usize) -> (r: u64)
        requires
            level > 0 ==> power::pow(
                self@.config.level_size_multiplier as int,
                (level - 1) as nat,
            ) <= usize::MAX,
            self@.config.target_size(level as int) <= u64::MAX,
        ensures
            r == self@.config.target_size(level as int),
    {
        if level == 0 {
            return u64::MAX;
        }
        let factor: usize = self.config.level_size_multiplier;
        let mut multiplier: usize = 1;
        let mut i: usize = 1;
        proof {
            power::lemma_pow0(factor as int);
        }
        while i < level
            invariant
                1 <= i <= level,
                multiplier == power::pow(factor as int, (i - 1) as nat),
                power::pow(factor as int, (level - 1) as nat) <= usize::MAX,
            decreases level - i,
        {
            proof {
                let b = factor as int;
                power::lemma_pow_adds(b, 1, (i - 1) as nat);
                power::lemma_pow1(b);
                if factor > 0 {
                    power::lemma_pow_increases(factor as nat, i as nat, (level - 1) as nat);
                } else {
                    power::lemma0_pow(i as nat);
                }
                assert(b * multiplier == multiplier * b) by (nonlinear_arith);
            }
            multiplier = multiplier * factor;
            i = i + 1;
        }
        self.config.base_level_size * multiplier as u64
    }

    /// Which level is to be compacted: level 0 when it has enough tables, else the
    /// first level that is over its target size. The last level is never compacted.
    pub fn needs_compaction(&self) -> (r: Option<usize>)
        requires
            self.inv(),
            self@.config.max_levels >= 1,
            self@.level0_full() || self@.sizes_reached_fit(),
        ensures
            match r {
                Some(level) => if self@.level0_full() {
                    level == 0
                } else {
                    self@.over_target(1) == Some(level as int)
                },
                None => !self@.level0_full() && self@.over_target(1) is None,
            },
    {
        if self.levels[0].sstables.len() >= self.config.l0_compaction_trigger {
            return Some(0);
        }
        let mut level: usize = 1;
        while level < self.config.max_levels - 1
            invariant
                self.inv(),
                1 <= level,
                self@.config.max_levels >= 1,
                self@.sizes_reached_fit(),
                !self@.level0_full(),
                self@.over_target(1) == self@.over_target(level as int),
            decreases self@.config.max_levels - level,
        {
            proof {
                lemma_over_target(self@, level as int);
                assert(self@.config.size_fits(level as int));
            }
            let target_size: u64 = self.target_size_for_level(level);
            assert(self.levels@[level as int].inv());
            if self.levels[level].total_size > target_size {
                return Some(level);
            }
            level = level + 1;
        }
        None
    }

    /// Merges tables into new ones of a level.
    fn merge_sstables(
        &mut self,
        inputs: &Vec<Arc<SSTableReader>>,
        output_level: usize,
        now: u64,
    ) -> (r: Result<Vec<Arc<SSTableReader>>, StorageError>)
        requires
            old(self).inv(),
        ensures
            final(self).inv(),
            old(self)@.merges(table_views(inputs@), output_level, now, result_views(r)),
            r matches Ok(tables) ==> all_open(tables@) && final(self)@ == (ManagerView {
                file_counter: counter_after(old(self)@.file_counter, tables@.len() as int),
                ..old(self)@
            }),
            r is Err ==> final(self)@ == (ManagerView {
                file_counter: final(self)@.file_counter,
                ..old(self)@
            }),
    {
        let all = match gather(inputs) {
            Ok(all) => all,
            Err(e) => return Err(e),
        };
        let ghost gathered_records = block::record_views(all@);
        let merged = merge::newest_versions(all);
        let ghost newest = block::record_views(merged@);
        assert(merge::is_merge(gathered_records, newest));
        let mut counter: u64 = self.file_counter;
        let r = write_tables(
            &merged,
            self.base_path.as_str(),
            output_level,
            now,
            &mut counter,
            self.config,
        );
        self.file_counter = counter;
        proof {
            let target = old(self)@.target(output_level, now);
            assert(target.written(target.chunks(newest), result_views(r)));
            assert(gathered(table_views(inputs@))->Ok_0 == gathered_records);
        }
        r
    }

    /// Prepares the compaction of a level into the next: the tables that come in
    /// are made, and the levels stay as they are. There is nothing to do for a
    /// level without tables.
    pub fn plan_compaction(&mut self, level: usize, now: u64) -> (r: Result<
        Option<CompactionPlan>,
        StorageError,
    >)
        requires
            old(self).inv(),
            old(self)@.config.max_levels >= 1,
        ensures
            final(self).inv(),
            final(self)@ == (ManagerView {
                file_counter: final(self)@.file_counter,
                ..old(self)@
            }),
            if level >= old(self)@.config.max_levels - 1 {
                &&& r == Err::<Option<CompactionPlan>, StorageError>(
                    StorageError::Compaction {
                        level,
                        max: (old(self)@.config.max_levels - 1) as usize,
                    },
                )
                &&& final(self)@ == old(self)@
            } else if old(self)@.levels[level as int].len() == 0 {
                &&& r == Ok::<Option<CompactionPlan>, StorageError>(None)
                &&& final(self)@ == old(self)@
            } else {
                &&& r matches Ok(plan) ==> plan is Some
                &&& old(self)@.merges(
                    old(self)@.inputs(level as int),
                    (level + 1) as usize,
                    now,
                    planned_outputs(r),
                )
            },
            r matches Ok(Some(plan)) ==> {
                &&& plan.inv()
                &&& plan@.level == level
                &&& plan@.upper == paths_of(old(self)@.upper(level as int))
                &&& plan@.lower == paths_of(old(self)@.lower(level as int))
                &&& final(self)@.file_counter == counter_after(
                    old(self)@.file_counter,
                    plan@.outputs.len() as int,
                )
            },
    {
        if level >= self.config.max_levels - 1 {
            return Err(
                StorageError::Compaction { level, max: self.config.max_levels - 1 },
            );
        }
        assert(self.levels@[level as int].inv());
        assert(self.levels@[level + 1].inv());
        if self.levels[level].sstables.len() == 0 {
            return Ok(None);
        }
        let upper: Vec<Arc<SSTableReader>>;
        let lower: Vec<Arc<SSTableReader>>;
        if level == 0 {
            upper = share_all(&self.levels[0].sstables);
            let (min_key, max_key) = find_key_range(&upper);
            lower = self.levels[1].get_overlapping(min_key.as_slice(), max_key.as_slice());
        } else {
            let first = share::share(&self.levels[level].sstables[0]);
            let meta = first.meta();
            lower =
            self.levels[level + 1].get_overlapping(meta.min_key.as_slice(), meta.max_key.as_slice());
            upper = vec![first];
        }
        proof {
            assert(table_views(upper@) =~= self@.upper(level as int));
            assert(table_views(lower@) == self@.lower(level as int));
        }
        let upper_paths = table_paths(&upper);
        let lower_paths = table_paths(&lower);
        let ghost above = table_views(upper@);
        let ghost below = table_views(lower@);
        let mut inputs = upper;
        let mut more = lower;
        inputs.append(&mut more);
        assert(table_views(inputs@) =~= above + below);
        let count: usize = inputs.len();
        proof {
            assert(text::texts(upper_paths@).len() == above.len());
            assert(text::texts(lower_paths@).len() == below.len());
            assert(count == above.len() + below.len());
        }
        match self.merge_sstables(&inputs, level + 1, now) {
            Ok(outputs) => Ok(
                Some(CompactionPlan { level, upper: upper_paths, lower: lower_paths, outputs }),
            ),
            Err(e) => Err(e),
        }
    }
}

/// What planning comes to, as far as the tables that come in are concerned.
pub open spec fn planned_outputs(r: Result<Option<CompactionPlan>, StorageError>) -> Result<
    Seq<reader::TableView>,
    StorageError,
> {
    match r {
        Ok(Some(plan)) => Ok(plan@.outputs),
        Ok(None) => Ok(Seq::empty()),
        Err(e) => Err(e),
    }
}

impl Level {
    /// Removes the tables of given paths.
    fn remove_all(&mut self, paths: &Vec<String>)
        requires
            old(self).inv(),
        ensures
            final(self).inv(),
            final(self).level == old(self).level,
            final(self)@.tables == without_paths(old(self)@.tables, text::texts(paths@)),
    {
        let ghost all = text::texts(paths@);
        let mut i: usize = 0;
        assert(all.take(0) =~= Seq::empty());
        while i < paths.len()
            invariant
                i <= paths@.len(),
                all == text::texts(paths@),
                self.inv(),
                self.level == old(self).level,
                self@.tables == without_paths(old(self)@.tables, all.take(i as int)),
            decreases paths@.len() - i,
        {
            self.remove_sstable(&paths[i]);
            proof {
                assert(all.take(i + 1).drop_last() =~= all.take(i as int));
                assert(all.take(i + 1).last() == paths@[i as int]@);
            }
            i = i + 1;
        }
        assert(all.take(i as int) =~= all);
    }

    /// Adds some tables.
    fn add_all(&mut self, tables: &Vec<Arc<SSTableReader>>)
        requires
            old(self).inv(),
            all_open(tables@),
        ensures
            final(self).inv(),
            final(self).level == old(self).level,
            final(self)@.tables == old(self)@.tables + table_views(tables@),
    {
        let ghost all = table_views(tables@);
        let mut i: usize = 0;
        assert(self@.tables =~= old(self)@.tables + all.take(0));
        while i < tables.len()
            invariant
                i <= tables@.len(),
                all == table_views(tables@),
                all_open(tables@),
                self.inv(),
                self.level == old(self).level,
                self@.tables == old(self)@.tables + all.take(i as int),
            decreases tables@.len() - i,
        {
            self.add_sstable(share::share(&tables[i]));
            assert(self@.tables =~= old(self)@.tables + all.take(i + 1));
            i = i + 1;
        }
        assert(all.take(i as int) =~= all);
    }
}

impl CompactionManager {
    /// Installs a compaction: the merged tables leave, by their paths, and the new
    /// ones come into the next level. Tables that have come in meanwhile stay.
    pub fn install(&mut self, plan: CompactionPlan) -> (r: CompactionResult)
        requires
            old(self).inv(),
            plan.inv(),
            plan.level + 1 < old(self)@.config.max_levels,
        ensures
            final(self).inv(),
            final(self)@ == old(self)@.installed(plan@),
            r == (CompactionResult {
                input_count: (plan.upper@.len() + plan.lower@.len()) as usize,
                output_count: plan.outputs@.len() as usize,
                input_level: plan.level,
                output_level: (plan.level + 1) as usize,
            }),
    {
        let ghost before = self.levels@;
        let level: usize = plan.level;
        assert(before[level as int].inv());
        assert(before[level + 1].inv());
        self.levels[level].remove_all(&plan.upper);
        let ghost middle = self.levels@;
        assert(middle[level + 1] == before[level + 1]);
        self.levels[level + 1].remove_all(&plan.lower);
        self.levels[level + 1].add_all(&plan.outputs);
        proof {
            assert forall|i: int| 0 <= i < self.levels@.len() implies (
            #[trigger] self.levels@[i]).inv() && self.levels@[i].level == i by {
                assert(before[i].inv() && before[i].level == i);
            }
            assert(self@.levels =~= old(self)@.installed(plan@).levels);
        }
        CompactionResult {
            input_count: plan.upper.len() + plan.lower.len(),
            output_count: plan.outputs.len(),
            input_level: level,
            output_level: level + 1,
        }
    }

    /// Compacts a level into the next.
    pub fn compact_level(&mut self, level: usize, now: u64) -> (r: Result<
        CompactionResult,
        StorageError,
    >)
        requires
            old(self).inv(),
            old(self)@.config.max_levels >= 1,
        ensures
            final(self).inv(),
            if level >= old(self)@.config.max_levels - 1 {
                &&& r == Err::<CompactionResult, StorageError>(
                    StorageError::Compaction {
                        level,
                        max: (old(self)@.config.max_levels - 1) as usize,
                    },
                )
                &&& final(self)@ == old(self)@
            } else if old(self)@.levels[level as int].len() == 0 {
                &&& r matches Ok(done) && done == (CompactionResult {
                    input_count: 0,
                    output_count: 0,
                    input_level: 0,
                    output_level: 0,
                })
                &&& final(self)@ == old(self)@
            } else {
                &&& r matches Ok(done) ==> exists|outputs: Seq<reader::TableView>|
                    #![trigger old(self)@.after_compaction(level as int, outputs)]
                    {
                        &&& old(self)@.merges(
                            old(self)@.inputs(level as int),
                            (level + 1) as usize,
                            now,
                            Ok(outputs),
                        )
                        &&& final(self)@ == old(self)@.after_compaction(level as int, outputs)
                        &&& done == (CompactionResult {
                            input_count: old(self)@.inputs(level as int).len() as usize,
                            output_count: outputs.len() as usize,
                            input_level: level,
                            output_level: (level + 1) as usize,
                        })
                    }
                &&& r matches Err(e) ==> old(self)@.merges(
                    old(self)@.inputs(level as int),
                    (level + 1) as usize,
                    now,
                    Err(e),
                ) && final(self)@ == (ManagerView {
                    file_counter: final(self)@.file_counter,
                    ..old(self)@
                })
            },
    {
        match self.plan_compaction(level, now) {
            Ok(Some(plan)) => {
                let ghost outputs = plan@.outputs;
                let ghost upper = old(self)@.upper(level as int);
                let ghost lower = old(self)@.lower(level as int);
                proof {
                    assert(plan@.upper.len() == upper.len());
                    assert(plan@.lower.len() == lower.len());
                    assert((upper + lower).len() == upper.len() + lower.len());
                }
                let done = self.install(plan);
                assert(self@ =~= old(self)@.after_compaction(level as int, outputs));
                Ok(done)
            },
            Ok(None) => Ok(CompactionResult::default()),
            Err(e) => Err(e),
        }
    }
}

/// Appends the tables whose key range a key is in.
fn push_covering(out: &mut Vec<Arc<SSTableReader>>, tables: &Vec<Arc<SSTableReader>>, key: &[u8])
    requires
        all_open(old(out)@),
        all_open(tables@),
    ensures
        all_open(final(out)@),
        table_views(final(out)@) == table_views(old(out)@) + covering(table_views(tables@), key@),
{
    let ghost all = table_views(tables@);
    let mut i: usize = 0;
    assert(table_views(out@) =~= table_views(old(out)@) + covering(all.take(0), key@));
    while i < tables.len()
        invariant
            i <= tables@.len(),
            all == table_views(tables@),
            all_open(out@),
            all_open(tables@),
            table_views(out@) == table_views(old(out)@) + covering(all.take(i as int), key@),
        decreases tables@.len() - i,
    {
        let ghost before = table_views(out@);
        let meta = tables[i].meta();
        proof {
            assert(all.take(i + 1).drop_last() =~= all.take(i as int));
            assert(all.take(i + 1).last() == tables@[i as int]@);
        }
        if meta.may_contain_key(key) {
            out.push(share::share(&tables[i]));
            assert(table_views(out@) =~= before.push(all[i as int]));
            assert(table_views(out@) =~= table_views(old(out)@) + covering(
                all.take(i + 1),
                key@,
            ));
        }
        i = i + 1;
    }
    assert(all.take(i as int) =~= all);
}

/// Looks a key up in some tables, one after the other.
fn search(tables: &Vec<Arc<SSTableReader>>, key: &[u8]) -> (r: Result<Option<Record>, StorageError>)
    requires
        all_open(tables@),
    ensures
        answered(table_views(tables@), key@, reader::looked_up(r)),
{
    let ghost all = table_views(tables@);
    let mut i: usize = 0;
    assert(all.skip(0) =~= all);
    while i < tables.len()
        invariant
            i <= tables@.len(),
            all == table_views(tables@),
            all_open(tables@),
            forall|r: Result<Option<layout::RecordView>, StorageError>|
                answered(all.skip(i as int), key@, r) ==> #[trigger] answered(all, key@, r),
        decreases tables@.len() - i,
    {
        let ghost rest = all.skip(i as int);
        let r = tables[i].get(key);
        let ghost a = reader::looked_up(r);
        proof {
            assert(rest[0] == tables@[i as int]@);
            assert(rest[0].answers(key@, a));
            assert(rest.skip(1) =~= all.skip(i + 1));
        }
        match r {
            Ok(None) => {},
            other => {
                assert(answered(rest, key@, a));
                assert(answered(all, key@, a));
                return other;
            },
        }
        proof {
            assert forall|r: Result<Option<layout::RecordView>, StorageError>|
                answered(all.skip(i + 1), key@, r) implies #[trigger] answered(all, key@, r) by {
                assert(answered(rest, key@, r));
            }
        }
        i = i + 1;
    }
    assert(answered(all.skip(i as int), key@, Ok(None)));
    Ok(None)
}

/// Whether `r` is what looking a key up in some tables through a cache, one after the
/// other, comes to, and `after` what the cache then holds.
pub open spec fn answered_through(
    tables: Seq<reader::TableView>,
    key: Seq<u8>,
    cache: block::CacheView,
    r: Result<Option<layout::RecordView>, StorageError>,
    after: block::CacheView,
) -> bool
    decreases tables.len(),
{
    if tables.len() == 0 {
        r == Ok::<Option<layout::RecordView>, StorageError>(None) && after == cache
    } else {
        exists|a: Result<Option<layout::RecordView>, StorageError>, then: block::CacheView|
            #[trigger] tables[0].answers_through(key, cache, a, then) && then.wf() && if a == Ok::<
                Option<layout::RecordView>,
                StorageError,
            >(None) {
                answered_through(tables.skip(1), key, then, r, after)
            } else {
                r == a && after == then
            }
    }
}

/// Looks a key up in some tables through a cache, one after the other.
fn search_cached(tables: &Vec<Arc<SSTableReader>>, key: &[u8], cache: &mut BlockCache) -> (r: Result<
    Option<Record>,
    StorageError,
>)
    requires
        all_open(tables@),
        old(cache).inv(),
    ensures
        final(cache).inv(),
        answered_through(
            table_views(tables@),
            key@,
            old(cache)@,
            reader::looked_up(r),
            final(cache)@,
        ),
{
    let ghost all = table_views(tables@);
    let ghost start = cache@;
    let mut i: usize = 0;
    assert(all.skip(0) =~= all);
    while i < tables.len()
        invariant
            i <= tables@.len(),
            all == table_views(tables@),
            all_open(tables@),
            start == old(cache)@,
            cache.inv(),
            forall|r: Result<Option<layout::RecordView>, StorageError>, after: block::CacheView|
                answered_through(all.skip(i as int), key@, cache@, r, after)
                    ==> #[trigger] answered_through(all, key@, start, r, after),
        decreases tables@.len() - i,
    {
        let ghost rest = all.skip(i as int);
        let ghost before = cache@;
        let r = tables[i].get_cached(key, cache);
        let ghost a = reader::looked_up(r);
        proof {
            assert(rest[0] == tables@[i as int]@);
            assert(rest[0].answers_through(key@, before, a, cache@));
            assert(rest.skip(1) =~= all.skip(i + 1));
        }
        match r {
            Ok(None) => {},
            other => {
                assert(answered_through(rest, key@, before, a, cache@));
                assert(answered_through(all, key@, start, a, cache@));
                return other;
            },
        }
        proof {
            assert forall|
                r: Result<Option<layout::RecordView>, StorageError>,
                after: block::CacheView,
            |
                answered_through(all.skip(i + 1), key@, cache@, r, after) implies #[trigger] answered_through(
                all,
                key@,
                start,
                r,
                after,
            ) by {
                assert(answered_through(rest, key@, before, r, after));
            }
        }
        i = i + 1;
    }
    assert(answered_through(all.skip(i as int), key@, cache@, Ok(None), cache@));
    Ok(None)
}

/// Whether a cache agrees with some tables.
pub open spec fn agrees_with_all(cache: block::CacheView, tables: Seq<reader::TableView>) -> bool {
    forall|i: int| 0 <= i < tables.len() ==> reader::agrees(cache, #[trigger] tables[i])
}

/// Whether a path names one of some tables at most.
pub open spec fn paths_name_tables(tables: Seq<reader::TableView>) -> bool {
    forall|i: int, j: int|
        0 <= i < tables.len() && 0 <= j < tables.len() && (#[trigger] tables[i]).path == (
        #[trigger] tables[j]).path ==> tables[i] == tables[j]
}

/// Looking a key up through a cache that agrees with all tables comes to the same as
/// looking it up without, and the cache goes on to agree with them.
pub proof fn law_cached_search(
    all: Seq<reader::TableView>,
    tables: Seq<reader::TableView>,
    key: Seq<u8>,
    cache: block::CacheView,
    r: Result<Option<layout::RecordView>, StorageError>,
    after: block::CacheView,
)
    requires
        cache.wf(),
        paths_name_tables(all),
        agrees_with_all(cache, all),
        forall|i: int| 0 <= i < tables.len() ==> all.contains(#[trigger] tables[i]),
        answered_through(tables, key, cache, r, after),
    ensures
        answered(tables, key, r),
        agrees_with_all(after, all),
    decreases tables.len(),
{
    if tables.len() > 0 {
        let (a, then) = choose|
            a: Result<Option<layout::RecordView>, StorageError>,
            then: block::CacheView,
        | #[trigger]
            tables[0].answers_through(key, cache, a, then) && then.wf() && if a == Ok::<
                Option<layout::RecordView>,
                StorageError,
            >(None) {
                answered_through(tables.skip(1), key, then, r, after)
            } else {
                r == a && after == then
            };
        let table = tables[0];
        assert(all.contains(table));
        let n = choose|n: int| 0 <= n < all.len() && all[n] == table;
        assert(reader::agrees(cache, all[n]));
        reader::law_cached_reads(cache, table, key, a, then);
        assert forall|i: int| 0 <= i < all.len() implies reader::agrees(
            then,
            #[trigger] all[i],
        ) by {
            assert(reader::agrees(cache, all[i]));
            if all[i].path != table.path {
                assert(reader::cache_agrees(then, all[i]));
            } else {
                assert(all[i] == all[n]);
            }
        }
        assert(table.answers(key, a));
        if a == Ok::<Option<layout::RecordView>, StorageError>(None) {
            let rest = tables.skip(1);
            assert forall|i: int| 0 <= i < rest.len() implies all.contains(#[trigger] rest[i]) by {
                assert(rest[i] == tables[i + 1]);
            }
            law_cached_search(all, rest, key, then, r, after);
        }
    }
}

impl CompactionManager {
    /// Looks a key up through a cache.
    pub fn get_cached(&self, key: &[u8], cache: &mut BlockCache) -> (r: Result<
        Option<Record>,
        StorageError,
    >)
        requires
            self.inv(),
            self@.config.max_levels >= 1,
            old(cache).inv(),
        ensures
            final(cache).inv(),
            answered_through(
                self@.candidates(key@),
                key@,
                old(cache)@,
                reader::looked_up(r),
                final(cache)@,
            ),
    {
        let tables = self.candidates(key);
        search_cached(&tables, key, cache)
    }

    /// The tables in which a key is looked up, in this order.
    fn candidates(&self, key: &[u8]) -> (r: Vec<Arc<SSTableReader>>)
        requires
            self.inv(),
            self@.config.max_levels >= 1,
        ensures
            all_open(r@),
            table_views(r@) == self@.candidates(key@),
    {
        let ghost levels = self@.levels;
        let mut out: Vec<Arc<SSTableReader>> = Vec::new();
        assert(self.levels@[0].inv());
        let mut n: usize = self.levels[0].sstables.len();
        let ghost newest = levels[0].reverse();
        assert(table_views(out@) =~= newest.take(0));
        while n > 0
            invariant
                n <= self.levels@[0].sstables@.len(),
                self.levels@.len() >= 1,
                self.levels@[0].inv(),
                all_open(out@),
                newest == table_views(self.levels@[0].sstables@).reverse(),
                table_views(out@) == newest.take(newest.len() - n),
            decreases n,
        {
            n = n - 1;
            let ghost before = table_views(out@);
            out.push(share::share(&self.levels[0].sstables[n]));
            assert(table_views(out@) =~= before.push(newest[newest.len() - n - 1]));
            assert(table_views(out@) =~= newest.take(newest.len() - n));
        }
        let ghost deep = levels.skip(1);
        let mut level: usize = 1;
        proof {
            assert(newest.take(newest.len() as int) =~= newest);
            assert(deep.take(0) =~= Seq::empty());
            assert(table_views(out@) =~= newest + deeper(deep.take(0), key@));
        }
        while level < self.levels.len()
            invariant
                self.inv(),
                1 <= level <= self.levels@.len(),
                levels == self@.levels,
                deep == levels.skip(1),
                all_open(out@),
                table_views(out@) == newest + deeper(deep.take(level - 1), key@),
            decreases self.levels@.len() - level,
        {
            assert(self.levels@[level as int].inv());
            push_covering(&mut out, &self.levels[level].sstables, key);
            proof {
                assert(deep.take(level as int).drop_last() =~= deep.take(level - 1));
                assert(deep.take(level as int).last() == levels[level as int]);
                assert(table_views(out@) =~= newest + deeper(deep.take(level as int), key@));
            }
            level = level + 1;
        }
        assert(deep.take(level - 1) =~= deep);
        out
    }

    /// Looks a key up in all levels: level 0 from the newest table on, and then each
    /// level's tables whose key range the key is in.
    pub fn get(&self, key: &[u8]) -> (r: Result<Option<Record>, StorageError>)
        requires
            self.inv(),
            self@.config.max_levels >= 1,
        ensures
            answered(self@.candidates(key@), key@, reader::looked_up(r)),
    {
        let tables = self.candidates(key);
        search(&tables, key)
    }

    /// How large the levels are.
    pub fn stats(&self) -> (r: Vec<LevelStats>)
        requires
            self.inv(),
        ensures
            r@ == Seq::new(
                self@.levels.len(),
                |i: int|
                    LevelStats {
                        level: i as usize,
                        file_count: self@.levels[i].len() as usize,
                        total_size: counted_bytes(self@.levels[i]),
                    },
            ),
    {
        let mut out: Vec<LevelStats> = Vec::new();
        let mut i: usize = 0;
        while i < self.levels.len()
            invariant
                self.inv(),
                i <= self.levels@.len(),
                out@.len() == i,
                forall|j: int|
                    0 <= j < i ==> #[trigger] out@[j] == (LevelStats {
                        level: j as usize,
                        file_count: self@.levels[j].len() as usize,
                        total_size: counted_bytes(self@.levels[j]),
                    }),
            decreases self.levels@.len() - i,
        {
            assert(self.levels@[i as int].inv());
            out.push(
                LevelStats {
                    level: self.levels[i].level,
                    file_count: self.levels[i].sstables.len(),
                    total_size: self.levels[i].total_size,
                },
            );
            i = i + 1;
        }
        proof {
            assert(out@ =~= Seq::new(
                self@.levels.len(),
                |i: int|
                    LevelStats {
                        level: i as usize,
                        file_count: self@.levels[i].len() as usize,
                        total_size: counted_bytes(self@.levels[i]),
                    },
            ));
        }
        out
    }
}

/// The newest timestamp of some records, or 0.
pub open spec fn newest_record(records: Seq<layout::RecordView>) -> u64
    decreases records.len(),
{
    if records.len() == 0 {
        0
    } else {
        larger(newest_record(records.drop_last()), records.last().timestamp)
    }
}

/// The larger of two numbers.
pub open spec fn larger(a: u64, b: u64) -> u64 {
    if a < b {
        b
    } else {
        a
    }
}

/// The newest timestamp of a table's records; 0 if it cannot be read.
pub open spec fn table_stamp(table: reader::TableView) -> u64 {
    match table.records() {
        Ok(records) => newest_record(records),
        Err(_) => 0,
    }
}

/// The newest timestamp in some tables, or 0.
pub open spec fn newest_stamp(tables: Seq<reader::TableView>) -> u64
    decreases tables.len(),
{
    if tables.len() == 0 {
        0
    } else {
        larger(newest_stamp(tables.drop_last()), table_stamp(tables.last()))
    }
}

/// The newest timestamp in all levels, or 0.
pub open spec fn high_mark(levels: Seq<Seq<reader::TableView>>) -> u64
    decreases levels.len(),
{
    if levels.len() == 0 {
        0
    } else {
        larger(high_mark(levels.drop_last()), newest_stamp(levels.last()))
    }
}

/// The newest timestamp of a table's records.
fn stamp_of(table: &Arc<SSTableReader>) -> (r: u64)
    ensures
        r == table_stamp(table@),
{
    let records = match table.iter() {
        Ok(records) => records,
        Err(_) => return 0,
    };
    let ghost all = block::record_views(records@);
    let mut newest: u64 = 0;
    let mut i: usize = 0;
    while i < records.len()
        invariant
            i <= records@.len(),
            all == block::record_views(records@),
            newest == newest_record(all.take(i as int)),
        decreases records@.len() - i,
    {
        proof {
            assert(all.take(i + 1).drop_last() =~= all.take(i as int));
            assert(all.take(i + 1).last() == records@[i as int]@);
        }
        if newest < records[i].timestamp {
            newest = records[i].timestamp;
        }
        i = i + 1;
    }
    assert(all.take(i as int) =~= all);
    newest
}

/// The newest timestamp in some tables.
fn newest_of(tables: &Vec<Arc<SSTableReader>>) -> (r: u64)
    ensures
        r == newest_stamp(table_views(tables@)),
{
    let ghost all = table_views(tables@);
    let mut newest: u64 = 0;
    let mut i: usize = 0;
    while i < tables.len()
        invariant
            i <= tables@.len(),
            all == table_views(tables@),
            newest == newest_stamp(all.take(i as int)),
        decreases tables@.len() - i,
    {
        let stamp: u64 = stamp_of(&tables[i]);
        proof {
            assert(all.take(i + 1).drop_last() =~= all.take(i as int));
            assert(all.take(i + 1).last() == tables@[i as int]@);
        }
        if newest < stamp {
            newest = stamp;
        }
        i = i + 1;
    }
    assert(all.take(i as int) =~= all);
    newest
}

/// Whether tables stand in the order of their newest timestamps.
pub open spec fn by_age(tables: Seq<reader::TableView>) -> bool {
    forall|i: int, j: int|
        0 <= i < j < tables.len() ==> table_stamp(#[trigger] tables[i]) <= table_stamp(
            #[trigger] tables[j],
        )
}

/// Puts tables into the order of their newest timestamps.
fn sort_by_age(tables: &Vec<Arc<SSTableReader>>) -> (r: Vec<Arc<SSTableReader>>)
    requires
        all_open(tables@),
    ensures
        all_open(r@),
        r@.to_multiset() == tables@.to_multiset(),
        by_age(table_views(r@)),
{
    let mut out: Vec<Arc<SSTableReader>> = Vec::new();
    let mut stamps: Vec<u64> = Vec::new();
    let mut i: usize = 0;
    assert(tables@.take(0) =~= Seq::empty());
    while i < tables.len()
        invariant
            i <= tables@.len(),
            all_open(tables@),
            all_open(out@),
            out@.to_multiset() == tables@.take(i as int).to_multiset(),
            stamps@.len() == out@.len(),
            out@.len() == i,
            forall|j: int| 0 <= j < out@.len() ==> stamps@[j] == table_stamp((#[trigger] out@[j])@),
            forall|j: int, k: int| 0 <= j < k < stamps@.len() ==> stamps@[j] <= stamps@[k],
        decreases tables@.len() - i,
    {
        let stamp: u64 = stamp_of(&tables[i]);
        let mut at: usize = out.len();
        while at > 0 && stamps[at - 1] > stamp
            invariant
                at <= stamps@.len(),
                forall|k: int| at <= k < stamps@.len() ==> stamp < stamps@[k],
            decreases at,
        {
            at = at - 1;
        }
        let ghost before = out@;
        let ghost table = tables@[i as int];
        out.insert(at, share::share(&tables[i]));
        stamps.insert(at, stamp);
        proof {
            assert(out@ == before.insert(at as int, table));
            vstd::seq_lib::to_multiset_insert(before, at as int, table);
            assert(tables@.take(i + 1) =~= tables@.take(i as int).push(table));
            vstd::seq_lib::to_multiset_build(tables@.take(i as int), table);
        }
        i = i + 1;
    }
    proof {
        assert(tables@.take(i as int) =~= tables@);
        assert forall|a: int, b: int| 0 <= a < b < out@.len() implies table_stamp(
            #[trigger] table_views(out@)[a],
        ) <= table_stamp(#[trigger] table_views(out@)[b]) by {
            assert(stamps@[a] == table_stamp(out@[a]@));
            assert(stamps@[b] == table_stamp(out@[b]@));
        }
    }
    out
}

impl CompactionManager {
    /// The newest timestamp in all levels, or 0.
    pub fn newest_timestamp(&self) -> (r: u64)
        requires
            self.inv(),
        ensures
            r == high_mark(self@.levels),
    {
        let ghost all = self@.levels;
        let mut newest: u64 = 0;
        let mut i: usize = 0;
        while i < self.levels.len()
            invariant
                i <= self.levels@.len(),
                all == self@.levels,
                newest == high_mark(all.take(i as int)),
            decreases self.levels@.len() - i,
        {
            let stamp: u64 = newest_of(&self.levels[i].sstables);
            proof {
                assert(all.take(i + 1).drop_last() =~= all.take(i as int));
                assert(all.take(i + 1).last() == all[i as int]);
            }
            if newest < stamp {
                newest = stamp;
            }
            i = i + 1;
        }
        assert(all.take(i as int) =~= all);
        newest
    }

    /// Puts the tables of level 0 into the order of their newest timestamps, after
    /// they were loaded in any order.
    pub fn order_level0(&mut self)
        requires
            old(self).inv(),
            old(self)@.config.max_levels >= 1,
        ensures
            final(self).inv(),
            final(self)@ == (ManagerView {
                levels: old(self)@.levels.update(0, final(self)@.levels[0]),
                ..old(self)@
            }),
            final(self)@.levels[0].to_multiset() == old(self)@.levels[0].to_multiset(),
            by_age(final(self)@.levels[0]),
    {
        let ghost before = self.levels@;
        assert(before[0].inv());
        let sorted = sort_by_age(&self.levels[0].sstables);
        let total: u64 = sum_sizes(&sorted);
        let ghost old_tables = before[0].sstables@;
        let ghost new_tables = sorted@;
        self.levels[0].sstables = sorted;
        self.levels[0].total_size = total;
        proof {
            lemma_views_multiset(old_tables, new_tables);
            assert forall|i: int| 0 <= i < self.levels@.len() implies (
            #[trigger] self.levels@[i]).inv() && self.levels@[i].level == i by {
                assert(before[i].inv() && before[i].level == i);
            }
            assert(self@.levels =~= old(self)@.levels.update(0, self@.levels[0]));
        }
    }
}

/// The views of the same tables are the same views.
proof fn lemma_views_multiset(a: Seq<Arc<SSTableReader>>, b: Seq<Arc<SSTableReader>>)
    requires
        a.to_multiset() == b.to_multiset(),
    ensures
        table_views(a).to_multiset() == table_views(b).to_multiset(),
    decreases a.len(),
{
    broadcast use vstd::seq_lib::group_to_multiset_ensures;

    if a.len() == 0 {
        a.to_multiset_ensures();
        b.to_multiset_ensures();
        assert(table_views(a) =~= table_views(b));
    } else {
        let t = a.last();
        let init = a.drop_last();
        assert(a.to_multiset().count(t) > 0) by {
            assert(a.contains(a[a.len() - 1]));
        }
        assert(b.contains(t));
        let k = choose|k: int| 0 <= k < b.len() && b[k] == t;
        let rest = b.remove(k);
        assert(b.to_multiset().remove(t) =~= rest.to_multiset());
        assert(a =~= init.push(t));
        assert(a.to_multiset().remove(t) =~= init.to_multiset());
        lemma_views_multiset(init, rest);
        assert(table_views(a) =~= table_views(init).push(t@));
        assert(table_views(rest) =~= table_views(b).remove(k));
        assert(table_views(b).to_multiset().remove(t@) =~= table_views(rest).to_multiset());
        assert(table_views(b).to_multiset().count(t@) > 0) by {
            assert(table_views(b)[k] == t@);
            assert(table_views(b).contains(t@));
        }
        assert(table_views(b).to_multiset() =~= table_views(rest).to_multiset().insert(t@));
        assert(table_views(a).to_multiset() =~= table_views(init).to_multiset().insert(t@));
    }
}

/// The size of a level: level 1 has the base size, and each level is as many times
/// larger than the one below as configured.
pub proof fn law_target_size(config: CompactionConfig, level: int)
    requires
        level >= 1,
    ensures
        config.target_size(1) == config.base_level_size,
        config.target_size(level + 1) == config.target_size(level) * config.level_size_multiplier,
        config.target_size(0) == u64::MAX,
{
    let b = config.level_size_multiplier as int;
    let base = config.base_level_size as int;
    power::lemma_pow0(b);
    power::lemma_pow1(b);
    power::lemma_pow_adds(b, (level - 1) as nat, 1);
    let p = power::pow(b, (level - 1) as nat);
    assert(base * (p * b) == (base * p) * b) by (nonlinear_arith);
}

/// The bytes of some tables are those of their files, counted as far as the counter goes.
pub proof fn law_table_bytes(tables: Seq<reader::TableView>, table: reader::TableView)
    ensures
        total_bytes(Seq::<reader::TableView>::empty()) == 0,
        total_bytes(tables.push(table)) == total_bytes(tables) + table.data.len(),
        total_bytes(tables) <= u64::MAX ==> counted_bytes(tables) == total_bytes(tables),
        total_bytes(tables) > u64::MAX ==> counted_bytes(tables) == u64::MAX,
{
    assert(tables.push(table).drop_last() =~= tables);
    lemma_total_nonnegative(tables);
}

/// Two key ranges overlap exactly if neither ends before the other begins.
pub proof fn law_overlaps(table: reader::TableView, min_key: Seq<u8>, max_key: Seq<u8>)
    ensures
        overlaps(table, min_key, max_key) <==> {
            &&& !order::lex_lt(max_key, table.header.min_key)
            &&& !order::lex_lt(table.header.max_key, min_key)
        },
{
    order::lemma_lex_total(max_key, table.header.min_key);
    order::lemma_lex_total(table.header.max_key, min_key);
    order::lemma_lex_irreflexive(max_key);
    order::lemma_lex_irreflexive(min_key);
    if order::lex_lt(max_key, table.header.min_key) {
        order::lemma_lex_asymmetric(max_key, table.header.min_key);
    }
    if order::lex_lt(table.header.max_key, min_key) {
        order::lemma_lex_asymmetric(table.header.max_key, min_key);
    }
}

/// The tables whose key range overlaps are all of those, in their order, and no others.
pub proof fn law_overlapping(tables: Seq<reader::TableView>, min_key: Seq<u8>, max_key: Seq<u8>)
    ensures
        overlapping(tables, min_key, max_key) == tables.filter(
            |t: reader::TableView|
                !order::lex_lt(max_key, t.header.min_key) && !order::lex_lt(
                    t.header.max_key,
                    min_key,
                ),
        ),
    decreases tables.len(),
{
    reveal(Seq::filter);
    if tables.len() > 0 {
        law_overlapping(tables.drop_last(), min_key, max_key);
        law_overlaps(tables.last(), min_key, max_key);
    }
}

/// The tables in which a key may be are all whose range its first bytes lie in, in their
/// order, and no others.
pub proof fn law_covering(tables: Seq<reader::TableView>, key: Seq<u8>)
    ensures
        covering(tables, key) == tables.filter(
            |t: reader::TableView|
                layout::in_prefix_range(t.header.min_key, t.header.max_key, key),
        ),
    decreases tables.len(),
{
    reveal(Seq::filter);
    if tables.len() > 0 {
        law_covering(tables.drop_last(), key);
    }
}

/// Taking out a path takes the first table of that path out, and no other.
pub proof fn law_without_path(tables: Seq<reader::TableView>, path: Seq<char>, i: int)
    requires
        0 <= i <= tables.len(),
        forall|j: int| 0 <= j < i ==> (#[trigger] tables[j]).path != path,
        i < tables.len() ==> tables[i].path == path,
    ensures
        i < tables.len() ==> without_path(tables, path) == tables.remove(i),
        i == tables.len() ==> without_path(tables, path) == tables,
    decreases tables.len(),
{
    if i > 0 {
        let rest = tables.skip(1);
        assert(tables[0].path != path);
        assert forall|j: int| 0 <= j < i - 1 implies (#[trigger] rest[j]).path != path by {
            assert(rest[j] == tables[j + 1]);
        }
        if i < tables.len() {
            assert(rest[i - 1] == tables[i]);
        }
        law_without_path(rest, path, i - 1);
        if i < tables.len() {
            assert(seq![tables[0]] + rest.remove(i - 1) =~= tables.remove(i));
        } else {
            assert(seq![tables[0]] + rest =~= tables);
        }
    } else if tables.len() > 0 {
        assert(tables.skip(1) =~= tables.remove(0));
    }
}

/// The key range that is compacted begins with no later key than any of the tables, and
/// ends with no earlier one.
pub proof fn law_key_range(tables: Seq<reader::TableView>, i: int)
    requires
        0 <= i < tables.len(),
    ensures
        order::lex_le(key_range(tables).0, tables[i].header.min_key),
        order::lex_le(tables[i].header.max_key, key_range(tables).1),
    decreases tables.len(),
{
    let init = tables.drop_last();
    let (min_key, max_key) = key_range(init);
    let header = tables.last().header;
    order::lemma_lex_total(header.min_key, min_key);
    order::lemma_lex_total(max_key, header.max_key);
    if i < init.len() {
        law_key_range(init, i);
        if order::lex_lt(header.min_key, min_key) {
            order::lemma_lex_le_transitive(header.min_key, min_key, init[i].header.min_key);
        }
        if order::lex_lt(max_key, header.max_key) {
            order::lemma_lex_le_transitive(init[i].header.max_key, max_key, header.max_key);
        }
    }
}

/// The records of some tables are those of each, one table behind the other; one that
/// cannot be read makes all unreadable.
pub proof fn law_gathered(tables: Seq<reader::TableView>, table: reader::TableView)
    ensures
        gathered(Seq::<reader::TableView>::empty()) == Ok::<
            Seq<layout::RecordView>,
            StorageError,
        >(Seq::empty()),
        gathered(tables) matches Ok(before) ==> (table.records() matches Ok(records)
            ==> gathered(tables.push(table)) == Ok::<Seq<layout::RecordView>, StorageError>(
            before + records,
        )),
        gathered(tables) is Ok ==> (table.records() matches Err(e) ==> gathered(tables.push(table))
            == Err::<Seq<layout::RecordView>, StorageError>(e)),
        gathered(tables) matches Err(e) ==> gathered(tables.push(table)) == Err::<
            Seq<layout::RecordView>,
            StorageError,
        >(e),
{
    assert(tables.push(table).drop_last() =~= tables);
}

/// Records that are written out fill one table after the other: a table is closed with
/// the record that makes it full, not before, and only the last may be closed earlier.
pub proof fn law_split(
    open: Seq<layout::RecordView>,
    rest: Seq<layout::RecordView>,
    compression: Compression,
    target: u64,
    i: int,
    n: int,
)
    requires
        forall|k: int|
            0 < k <= open.len() ==> !writer::is_full(#[trigger] open.take(k), compression, target),
        0 <= i < split(open, rest, compression, target).len(),
    ensures
        ({
            let chunks = split(open, rest, compression, target);
            &&& chunks[i].len() > 0
            &&& i + 1 < chunks.len() ==> writer::is_full(chunks[i], compression, target)
            &&& 0 < n < chunks[i].len() ==> !writer::is_full(
                chunks[i].take(n),
                compression,
                target,
            )
        }),
    decreases rest.len(),
{
    if rest.len() > 0 {
        let next = open.push(rest[0]);
        if writer::is_full(next, compression, target) {
            let others = split(Seq::empty(), rest.skip(1), compression, target);
            if i > 0 {
                law_split(Seq::empty(), rest.skip(1), compression, target, i - 1, n);
                assert(others[i - 1] == (seq![next] + others)[i]);
            } else if 0 < n < next.len() {
                assert(next.take(n) =~= open.take(n));
            }
        } else {
            assert forall|k: int| 0 < k <= next.len() implies !writer::is_full(
                #[trigger] next.take(k),
                compression,
                target,
            ) by {
                if k <= open.len() {
                    assert(next.take(k) =~= open.take(k));
                } else {
                    assert(next.take(k) =~= next);
                }
            }
            law_split(next, rest.skip(1), compression, target, i, n);
        }
    }
}

/// The file of a table lies in the directory of its level, under the base directory, and
/// has the extension of tables; tables of one level and time with different numbers have
/// different files.
pub proof fn law_table_path(base: Seq<char>, level: usize, now: u64, a: u64, b: u64)
    ensures
        (base + "/level"@ + text::decimal(level as nat) + "/"@).is_prefix_of(
            table_path(base, level, now, a),
        ),
        ".sst"@.is_suffix_of(table_path(base, level, now, a)),
        table_path(base, level, now, a) == table_path(base, level, now, b) ==> a == b,
{
    let front = base + "/level"@ + text::decimal(level as nat) + "/"@;
    let head = front + text::decimal(now as nat) + "_"@;
    let x = text::decimal(a as nat);
    let y = text::decimal(b as nat);
    let pa = table_path(base, level, now, a);
    let pb = table_path(base, level, now, b);
    assert(pa =~= head + x + ".sst"@);
    assert(pb =~= head + y + ".sst"@);
    assert(pa.subrange(0, front.len() as int) =~= front);
    assert(pa.subrange(pa.len() - ".sst"@.len(), pa.len() as int) =~= ".sst"@);
    if pa == pb {
        assert(x.len() == y.len());
        assert(pa.subrange(head.len() as int, head.len() + x.len() as int) =~= x);
        assert(pb.subrange(head.len() as int, head.len() + y.len() as int) =~= y);
        text::law_decimal(a as nat);
        text::law_decimal(b as nat);
    }
}

/// The numbers of the files go up one by one, and start again after the last.
pub proof fn law_file_numbers(counter: u64, n: int)
    requires
        0 <= n,
    ensures
        counter + n <= u64::MAX ==> counter_after(counter, n) == counter + n,
        counter_after(counter, 0) == counter,
        counter_after(counter, n + 1) == counter_after(counter_after(counter, n), 1),
{
    let m: int = 0x1_0000_0000_0000_0000;
    vstd::arithmetic::div_mod::lemma_mod_bound(counter + n, m);
    vstd::arithmetic::div_mod::lemma_add_mod_noop(counter + n, 1, m);
}

/// The tables that are searched for a key: those of level 0, the newest first, and then
/// those of the other levels whose range the key may be in.
pub proof fn law_candidates(view: ManagerView, key: Seq<u8>, i: int)
    requires
        view.levels.len() > 0,
    ensures
        ({
            let all = view.candidates(key);
            let n = view.levels[0].len() as int;
            &&& all.len() >= n
            &&& 0 <= i < n ==> all[i] == view.levels[0][n - 1 - i]
            &&& all.skip(n) == deeper(view.levels.skip(1), key)
        }),
{
    let n = view.levels[0].len() as int;
    assert(view.candidates(key).skip(n) =~= deeper(view.levels.skip(1), key));
}

/// The levels are searched one after the other, each for the tables that a key may be in.
pub proof fn law_deeper(
    levels: Seq<Seq<reader::TableView>>,
    level: Seq<reader::TableView>,
    key: Seq<u8>,
)
    ensures
        deeper(Seq::<Seq<reader::TableView>>::empty(), key).len() == 0,
        deeper(levels.push(level), key) == deeper(levels, key) + covering(level, key),
{
    assert(levels.push(level).drop_last() =~= levels);
}

/// What a compaction takes in: all tables of level 0, or the first table of another
/// level, and the tables of the next level whose range overlaps with theirs.
pub proof fn law_inputs(view: ManagerView, level: int)
    requires
        0 <= level,
        level + 1 < view.levels.len(),
    ensures
        level == 0 ==> view.upper(level) == view.levels[0] && view.range(level) == key_range(
            view.levels[0],
        ),
        level > 0 && view.levels[level].len() > 0 ==> {
            &&& view.upper(level) == seq![view.levels[level][0]]
            &&& view.range(level).0 == view.levels[level][0].header.min_key
            &&& view.range(level).1 == view.levels[level][0].header.max_key
        },
        view.levels[level].len() == 0 ==> view.upper(level).len() == 0,
        view.lower(level) == overlapping(
            view.levels[level + 1],
            view.range(level).0,
            view.range(level).1,
        ),
        view.inputs(level) == view.upper(level) + view.lower(level),
{
    if level > 0 && view.levels[level].len() > 0 {
        assert(view.upper(level) =~= seq![view.levels[level][0]]);
    }
}

/// Where the tables of a compaction go: the base directory, the level, the numbers that
/// are next, and the configured compression and size.
pub proof fn law_target(view: ManagerView, level: usize, now: u64)
    ensures
        view.target(level, now).base == view.base,
        view.target(level, now).level == level,
        view.target(level, now).now == now,
        view.target(level, now).counter == view.file_counter,
        view.target(level, now).compression == view.config.compression,
        view.target(level, now).size == view.config.target_file_size,
{
}

/// Level 0 is compacted once it has as many tables as configured.
pub proof fn law_level0_full(view: ManagerView)
    ensures
        view.level0_full() <==> view.levels[0].len() >= view.config.l0_compaction_trigger,
{
}

/// The level that is found to be over its size is over it, it is not the last one, and
/// none before it is; none is found only where none is over its size.
pub proof fn law_over_target(view: ManagerView, level: int, other: int)
    ensures
        match view.over_target(level) {
            Some(m) => {
                &&& level <= m < view.config.max_levels - 1
                &&& counted_bytes(view.levels[m]) > view.config.target_size(m)
                &&& level <= other < m ==> counted_bytes(view.levels[other])
                    <= view.config.target_size(other)
            },
            None => level <= other < view.config.max_levels - 1 ==> counted_bytes(
                view.levels[other],
            ) <= view.config.target_size(other),
        },
    decreases view.config.max_levels - level,
{
    if level < view.config.max_levels - 1 && counted_bytes(view.levels[level])
        <= view.config.target_size(level) {
        law_over_target(view, level + 1, other);
    }
}

/// A compaction that is installed takes the tables that leave out of its two levels, and
/// puts the new ones behind those that stay in the next level; nothing else changes.
pub proof fn law_installed(view: ManagerView, plan: PlanView, other: int)
    requires
        plan.level + 1 < view.levels.len(),
        0 <= other < view.levels.len(),
    ensures
        ({
            let after = view.installed(plan);
            let level = plan.level as int;
            &&& after.base == view.base
            &&& after.config == view.config
            &&& after.file_counter == view.file_counter
            &&& after.levels.len() == view.levels.len()
            &&& after.levels[level] == without_paths(view.levels[level], plan.upper)
            &&& after.levels[level + 1] == without_paths(view.levels[level + 1], plan.lower)
                + plan.outputs
            &&& other != level && other != level + 1 ==> after.levels[other] == view.levels[other]
        }),
{
}

/// Paths are taken out one after the other.
pub proof fn law_without_paths(
    tables: Seq<reader::TableView>,
    paths: Seq<Seq<char>>,
    path: Seq<char>,
)
    ensures
        without_paths(tables, Seq::<Seq<char>>::empty()) == tables,
        without_paths(tables, paths.push(path)) == without_path(without_paths(tables, paths), path),
{
    assert(paths.push(path).drop_last() =~= paths);
}

/// The newest timestamp of some records: none of them has a newer one, and one of them
/// has it, unless it is 0.
pub proof fn law_newest_record(records: Seq<layout::RecordView>, i: int)
    ensures
        0 <= i < records.len() ==> records[i].timestamp <= newest_record(records),
        newest_record(records) == 0 || exists|j: int|
            0 <= j < records.len() && (#[trigger] records[j]).timestamp == newest_record(records),
    decreases records.len(),
{
    if records.len() > 0 {
        let init = records.drop_last();
        law_newest_record(init, i);
        if newest_record(init) < records.last().timestamp {
            assert(records[records.len() - 1].timestamp == newest_record(records));
        } else if newest_record(init) != 0 {
            let j = choose|j: int|
                0 <= j < init.len() && (#[trigger] init[j]).timestamp == newest_record(init);
            assert(records[j].timestamp == newest_record(records));
        }
    }
}

/// The newest timestamp of some tables and of all levels is not below that of any.
pub proof fn law_high_mark(
    levels: Seq<Seq<reader::TableView>>,
    tables: Seq<reader::TableView>,
    i: int,
    j: int,
)
    ensures
        0 <= i < tables.len() ==> table_stamp(tables[i]) <= newest_stamp(tables),
        0 <= j < levels.len() ==> newest_stamp(levels[j]) <= high_mark(levels),
        newest_stamp(tables) == 0 || exists|k: int|
            0 <= k < tables.len() && table_stamp(#[trigger] tables[k]) == newest_stamp(tables),
        high_mark(levels) == 0 || exists|k: int|
            0 <= k < levels.len() && newest_stamp(#[trigger] levels[k]) == high_mark(levels),
    decreases tables.len() + levels.len(),
{
    if tables.len() > 0 {
        let init = tables.drop_last();
        law_high_mark(levels, init, i, j);
        if newest_stamp(init) < table_stamp(tables.last()) {
            assert(table_stamp(tables[tables.len() - 1]) == newest_stamp(tables));
        } else if newest_stamp(init) != 0 {
            let k = choose|k: int|
                0 <= k < init.len() && table_stamp(#[trigger] init[k]) == newest_stamp(init);
            assert(table_stamp(tables[k]) == newest_stamp(tables));
        }
    } else if levels.len() > 0 {
        let init = levels.drop_last();
        law_high_mark(init, tables, i, j);
        if high_mark(init) < newest_stamp(levels.last()) {
            assert(newest_stamp(levels[levels.len() - 1]) == high_mark(levels));
        } else if high_mark(init) != 0 {
            let k = choose|k: int|
                0 <= k < init.len() && newest_stamp(#[trigger] init[k]) == high_mark(init);
            assert(newest_stamp(levels[k]) == high_mark(levels));
        }
    }
}

/// Tables in the order of their age: each has no newer record than the newest of those
/// behind it.
pub proof fn law_by_age(tables: Seq<reader::TableView>, i: int, j: int)
    requires
        by_age(tables),
        0 <= i <= j < tables.len(),
    ensures
        table_stamp(tables[i]) <= table_stamp(tables[j]),
{
}

/// The timestamp of a table is the newest of its records, and 0 if it cannot be read.
pub proof fn law_table_stamp(table: reader::TableView)
    ensures
        table.records() matches Ok(records) ==> table_stamp(table) == newest_record(records),
        table.records() is Err ==> table_stamp(table) == 0,
{
}

/// What tables and levels are is what each of them is, in their order.
pub proof fn law_table_views(tables: Seq<Arc<SSTableReader>>, levels: Seq<Level>, i: int)
    ensures
        table_views(tables).len() == tables.len(),
        0 <= i < tables.len() ==> table_views(tables)[i] == tables[i]@ && paths_of(
            table_views(tables),
        )[i] == tables[i]@.path,
        paths_of(table_views(tables)).len() == tables.len(),
        level_tables(levels).len() == levels.len(),
        0 <= i < levels.len() ==> level_tables(levels)[i] == table_views(levels[i].sstables@),
{
}

/// A table that is written out has its place in the names of files, its level, and holds
/// its records.
pub proof fn law_outputs(
    target: Target,
    tables: Seq<reader::TableView>,
    chunks: Seq<Seq<layout::RecordView>>,
    i: int,
)
    requires
        target.are_outputs(tables, chunks),
        0 <= i < chunks.len(),
    ensures
        tables.len() == chunks.len(),
        tables[i].level == target.level,
        tables[i].path == table_path(
            target.base,
            target.level,
            target.now,
            counter_after(target.counter, i),
        ),
        writer::table_fits(chunks[i], target.compression) ==> reader::holds(tables[i], chunks[i]),
{
}

/// The sizes of the levels are in range exactly if each level but the first and the last
/// has a size that its counter can hold, and a factor that a machine word can hold.
pub proof fn law_sizes_fit(config: CompactionConfig)
    ensures
        config.sizes_fit() <==> forall|level: int|
            0 < level && level + 1 < config.max_levels ==> #[trigger] config.target_size(level)
                <= u64::MAX && power::pow(
                config.level_size_multiplier as int,
                (level - 1) as nat,
            ) <= usize::MAX,
{
    if config.sizes_fit() {
        assert forall|level: int| 0 < level && level + 1 < config.max_levels implies (
        #[trigger] config.target_size(level)) <= u64::MAX && power::pow(
            config.level_size_multiplier as int,
            (level - 1) as nat,
        ) <= usize::MAX by {
            assert(config.size_fits(level));
        }
    }
    if forall|level: int|
        0 < level && level + 1 < config.max_levels ==> #[trigger] config.target_size(level)
            <= u64::MAX && power::pow(
            config.level_size_multiplier as int,
            (level - 1) as nat,
        ) <= usize::MAX {
        assert forall|level: int|
            1 <= level < config.max_levels - 1 implies #[trigger] config.size_fits(level) by {
            assert(config.target_size(level) <= u64::MAX);
        }
    }
}

/// Sizes that are all in range are in range as far as they are needed.
pub proof fn law_sizes_reached(view: ManagerView)
    ensures
        view.config.sizes_fit() ==> view.sizes_reached_fit(),
        view.over_target(1) is None ==> (view.sizes_reached_fit() <==> view.config.sizes_fit()),
{
    if view.over_target(1) is None && view.sizes_reached_fit() {
        assert forall|level: int|
            1 <= level < view.config.max_levels - 1 implies #[trigger] view.config.size_fits(
            level,
        ) by {}
    }
}

} // verus!
