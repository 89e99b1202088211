//! The engine: log, memtables and tables together.
//!
//! A write is logged before it is applied. Its timestamp is reserved together with
//! its log record, and the entry that it leaves carries the same timestamp. Full
//! memtables are set aside and written out to tables in the order of their age.
use crate::engine::codec;
use crate::engine::error::{Disabled, StorageError};
use crate::engine::storage::compaction;
use crate::engine::storage::compaction::{CompactionManager, CompactionPlan, LevelStats};
use crate::engine::storage::config::{EngineConfig, TagIndexConfig};
use crate::engine::storage::flush;
use crate::engine::storage::index;
use crate::engine::storage::index::{IndexAction, IndexSet};
use crate::engine::storage::log;
use crate::engine::storage::memtable;
use crate::engine::storage::memtable::{ImmutableMemTable, MemTable};
use crate::engine::storage::recovery;
use crate::engine::storage::recovery::Recovery;
use crate::engine::storage::sstable::block;
use crate::engine::storage::sstable::block::{BlockCache, BlockCacheStats};
use crate::engine::storage::sstable::layout;
use crate::engine::storage::sstable::reader;
use crate::engine::storage::sstable::reader::SSTableReader;
use crate::engine::storage::wal;
use crate::engine::storage::wal::{WalRecord, WalRecordType};
use crate::engine::text;
use std::sync::Arc;
use vstd::prelude::*;
use vstd::string::StringExecFns;

verus! {

/// The number of full memtables that may wait to be written out before writes are
/// refused.
pub const MAX_PENDING_IMMUTABLE_MEMTABLES: usize = 4;

/// A write of a key.
pub struct Write {
    key: Vec<u8>,
    /// The value; without one the key is deleted.
    value: Option<Vec<u8>>,
    embedding: Option<Vec<u32>>,
    placed: Option<(u64, Vec<String>)>,
}

/// What a write says.
#[verifier::ext_equal]
pub struct WriteView {
    pub key: Seq<u8>,
    pub value: Option<Seq<u8>>,
    pub embedding: Option<Seq<u32>>,
    /// The time and the tags under which the key is to be found.
    pub placed: Option<(u64, Seq<Seq<char>>)>,
}

impl View for Write {
    type V = WriteView;

    closed spec fn view(&self) -> WriteView {
        WriteView {
            key: self.key@,
            value: layout::value_view(self.value),
            embedding: match self.embedding {
                Some(e) => Some(e@),
                None => None,
            },
            placed: match self.placed {
                Some((t, tags)) => Some((t, text::texts(tags@))),
                None => None,
            },
        }
    }
}

impl WriteView {
    /// The entry that the write leaves.
    pub open spec fn entry(self, timestamp: u64) -> memtable::EntryView {
        memtable::EntryView { value: self.value, timestamp }
    }

    /// The log record of the key and its value.
    pub open spec fn key_record(self, timestamp: u64) -> wal::WalRecordView {
        match self.value {
            Some(value) => match self.embedding {
                Some(embedding) => wal::WalRecordView {
                    embedding: Some(embedding),
                    ..wal::plain_record(
                        WalRecordType::InsertWithEmbedding,
                        self.key,
                        value,
                        timestamp,
                    )
                },
                None => wal::plain_record(WalRecordType::Insert, self.key, value, timestamp),
            },
            None => wal::plain_record(WalRecordType::Delete, self.key, Seq::empty(), timestamp),
        }
    }

    /// The log records of the write.
    pub open spec fn records(self, timestamp: u64) -> Seq<wal::WalRecordView> {
        match self.placed {
            Some((time, tags)) => seq![
                self.key_record(timestamp),
                wal::WalRecordView {
                    ts_timestamp: Some(time),
                    ..wal::plain_record(
                        WalRecordType::SetTimestamp,
                        self.key,
                        Seq::empty(),
                        timestamp,
                    )
                },
                wal::WalRecordView {
                    tags: Some(tags),
                    ..wal::plain_record(WalRecordType::AddTags, self.key, Seq::empty(), timestamp)
                },
            ],
            None => seq![self.key_record(timestamp)],
        }
    }
}

impl Write {
    /// A key gets a value.
    pub fn put(key: Vec<u8>, value: Vec<u8>) -> (r: Self)
        ensures
            r@ == (WriteView { key: key@, value: Some(value@), embedding: None, placed: None }),
    {
        Write { key, value: Some(value), embedding: None, placed: None }
    }

    /// A key gets a value and, if there is one, an embedding.
    pub fn put_with_embedding(key: Vec<u8>, value: Vec<u8>, embedding: Option<Vec<u32>>) -> (r: Self)
        ensures
            r@ == (WriteView {
                key: key@,
                value: Some(value@),
                embedding: match embedding {
                    Some(e) => Some(e@),
                    None => None,
                },
                placed: None,
            }),
    {
        Write { key, value: Some(value), embedding, placed: None }
    }

    /// A key is deleted.
    pub fn delete(key: Vec<u8>) -> (r: Self)
        ensures
            r@ == (WriteView { key: key@, value: None, embedding: None, placed: None }),
    {
        Write { key, value: None, embedding: None, placed: None }
    }

    /// A key gets a value, a time, tags and, if there is one, an embedding, all with
    /// one log write.
    pub fn store_memory_core(
        key: Vec<u8>,
        value: Vec<u8>,
        embedding: Option<Vec<u32>>,
        timestamp: u64,
        tags: Vec<String>,
    ) -> (r: Self)
        ensures
            r@ == (WriteView {
                key: key@,
                value: Some(value@),
                embedding: match embedding {
                    Some(e) => Some(e@),
                    None => None,
                },
                placed: Some((timestamp, text::texts(tags@))),
            }),
    {
        Write { key, value: Some(value), embedding, placed: Some((timestamp, tags)) }
    }

    /// The log records of the write.
    fn log_records(&self, timestamp: u64) -> (r: Vec<WalRecord>)
        ensures
            log::record_views(r@) == self@.records(timestamp),
    {
        let key = codec::copy_bytes(&self.key);
        let first = match &self.value {
            Some(value) => match &self.embedding {
                Some(e) => WalRecord::insert_with_embedding(
                    key,
                    codec::copy_bytes(value),
                    timestamp,
                    index::copy_words(e),
                ),
                None => WalRecord::insert(key, codec::copy_bytes(value), timestamp),
            },
            None => WalRecord::delete(key, timestamp),
        };
        let mut out: Vec<WalRecord> = Vec::new();
        out.push(first);
        if let Some((time, tags)) = &self.placed {
            out.push(WalRecord::set_timestamp(codec::copy_bytes(&self.key), *time, timestamp));
            out.push(
                WalRecord::add_tags(
                    codec::copy_bytes(&self.key),
                    index::copy_texts(tags),
                    timestamp,
                ),
            );
        }
        assert(log::record_views(out@) =~= self@.records(timestamp));
        out
    }
}

/// The state of the engine.
#[verifier::ext_equal]
pub struct EngineView {
    /// The configuration.
    pub config: EngineConfig,
    /// The memtable that takes the writes.
    pub mem: memtable::MemView,
    /// The memtables that wait to be written out, the oldest first.
    pub pending: Seq<memtable::MemView>,
    /// The tables.
    pub tree: compaction::ManagerView,
    /// The number of the next table that a memtable is written out to.
    pub flush_counter: u64,
}

/// The entry of a key in the newest of some memtables that has one.
pub open spec fn newest_entry(mems: Seq<memtable::MemView>, key: Seq<u8>) -> Option<
    memtable::EntryView,
>
    decreases mems.len(),
{
    if mems.len() == 0 {
        None
    } else if mems.last().lookup(key) is Some {
        mems.last().lookup(key)
    } else {
        newest_entry(mems.drop_last(), key)
    }
}

/// The value of a record that was looked up: a deleted key has none.
pub open spec fn found_value(r: Result<Option<layout::RecordView>, StorageError>) -> Result<
    Option<Seq<u8>>,
    StorageError,
> {
    match r {
        Ok(Some(record)) => Ok(record.value),
        Ok(None) => Ok(None),
        Err(e) => Err(e),
    }
}

impl EngineView {
    /// The indexes that there are.
    pub open spec fn indexes(self) -> IndexSet {
        IndexSet::of(self.config)
    }

    /// All memtables, the newest last.
    pub open spec fn memtables(self) -> Seq<memtable::MemView> {
        self.pending.push(self.mem)
    }

    /// The entry of a key in memory.
    pub open spec fn in_memory(self, key: Seq<u8>) -> Option<memtable::EntryView> {
        newest_entry(self.memtables(), key)
    }

    /// Whether `r` is what reading a key comes to: memory decides, and else the
    /// tables.
    pub open spec fn reads(self, key: Seq<u8>, r: Result<Option<Seq<u8>>, StorageError>) -> bool {
        match self.in_memory(key) {
            Some(entry) => r == Ok::<Option<Seq<u8>>, StorageError>(entry.value),
            None => exists|a: Result<Option<layout::RecordView>, StorageError>| #[trigger]
                compaction::answered(self.tree.candidates(key), key, a) && r == found_value(a),
        }
    }

    /// Whether reading a key through a cache may give `r` and leave `after` in the
    /// cache.
    pub open spec fn reads_through(
        self,
        key: Seq<u8>,
        cache: block::CacheView,
        r: Result<Option<Seq<u8>>, StorageError>,
        after: block::CacheView,
    ) -> bool {
        match self.in_memory(key) {
            Some(entry) => r == Ok::<Option<Seq<u8>>, StorageError>(entry.value) && after == cache,
            None => exists|a: Result<Option<layout::RecordView>, StorageError>| #[trigger]
                compaction::answered_through(self.tree.candidates(key), key, cache, a, after) && r
                    == found_value(a),
        }
    }

    /// The memtable is set aside and an empty one takes its place. Timestamps go on
    /// where they were.
    pub open spec fn set_aside(self) -> EngineView {
        EngineView {
            mem: memtable::MemView {
                entries: Map::empty(),
                max_size: self.config.memtable_size,
                next_timestamp: self.mem.next_timestamp,
            },
            pending: self.pending.push(self.mem),
            ..self
        }
    }

    /// Whether too many memtables wait to be written out.
    pub open spec fn backed_up(self) -> bool {
        self.pending.len() >= MAX_PENDING_IMMUTABLE_MEMTABLES
    }

    /// The error of a write that is refused because too many memtables wait.
    pub open spec fn backlog(self) -> StorageError {
        StorageError::FlushBacklog {
            pending: self.pending.len() as usize,
            max: MAX_PENDING_IMMUTABLE_MEMTABLES,
        }
    }

    /// The state after a timestamp was reserved.
    pub open spec fn reserved(self) -> EngineView {
        EngineView {
            mem: memtable::MemView {
                next_timestamp: (self.mem.next_timestamp + 1) as u64,
                ..self.mem
            },
            ..self
        }
    }

    /// Whether the memtable has no room for a write.
    pub open spec fn lacks_room(self, write: WriteView, timestamp: u64) -> bool {
        self.mem.lacks_room(write.key, write.entry(timestamp))
    }

    /// The state after a write was applied, before a full memtable is set aside.
    pub open spec fn applied(self, write: WriteView, timestamp: u64) -> EngineView {
        EngineView { mem: self.mem.applied(write.key, write.entry(timestamp)), ..self }
    }

    /// Whether the memtable is full.
    pub open spec fn mem_full(self) -> bool {
        self.mem.size() >= self.mem.max_size
    }
}

/// A write that is to be logged.
pub struct BegunWrite {
    /// The timestamp that was reserved for it.
    pub timestamp: u64,
    /// The bytes that go to the end of the log.
    pub log: Vec<u8>,
}

/// What applying a write comes to.
pub enum WriteOutcome {
    /// The write has been applied; these changes of the indexes are to be made.
    Done(Vec<IndexAction>),
    /// The memtable was full and has been set aside: the write is to be begun anew.
    Retry,
}

/// Changes of the indexes that are to be logged and then made.
pub struct LoggedChange {
    /// The bytes that go to the end of the log.
    pub log: Vec<u8>,
    pub actions: Vec<IndexAction>,
}

impl LoggedChange {
    /// Whether this logs some records and makes the changes that they stand for.
    pub open spec fn is_of(&self, records: Seq<wal::WalRecordView>, indexes: IndexSet) -> bool {
        &&& self.log@ == log::log_bytes(records)
        &&& index::action_views(self.actions@) == index::effects(records, indexes)
    }
}

/// The storage engine without its files.
pub struct StorageEngine {
    config: EngineConfig,
    memtable: MemTable,
    immutable_memtables: Vec<ImmutableMemTable>,
    compaction: CompactionManager,
    flush_counter: u64,
}

/// The views of some memtables.
pub open spec fn mem_views(mems: Seq<ImmutableMemTable>) -> Seq<memtable::MemView> {
    Seq::new(mems.len(), |i: int| mems[i]@)
}

/// Whether all memtables are in order.
pub open spec fn all_mems(mems: Seq<ImmutableMemTable>) -> bool {
    forall|i: int| 0 <= i < mems.len() ==> (#[trigger] mems[i]).inv()
}

impl View for StorageEngine {
    type V = EngineView;

    closed spec fn view(&self) -> EngineView {
        EngineView {
            config: self.config,
            mem: self.memtable@,
            pending: mem_views(self.immutable_memtables@),
            tree: self.compaction@,
            flush_counter: self.flush_counter,
        }
    }
}

impl StorageEngine {
    /// What holds of every engine.
    pub closed spec fn inv(&self) -> bool {
        &&& self.memtable.inv()
        &&& all_mems(self.immutable_memtables@)
        &&& self.compaction.inv()
        &&& self.compaction@.config == self.config.compaction
        &&& self.config.compaction.max_levels >= 1
    }

    /// An engine with given tables, whose log is replayed. Timestamps go on behind
    /// those of the tables and of the log.
    pub fn new(config: EngineConfig, compaction: CompactionManager, log_data: Vec<u8>) -> (r: Result<
        (Self, Recovery),
        StorageError,
    >)
        requires
            compaction.inv(),
            compaction@.config == config.compaction,
            config.compaction.max_levels >= 1,
        ensures
            ({
                let empty = memtable::MemView {
                    entries: Map::empty(),
                    max_size: config.memtable_size,
                    next_timestamp: memtable::after(compaction::high_mark(compaction@.levels)),
                };
                let scan = log::scan(log_data@, 0);
                let (mem, error) = recovery::replayed(empty, scan.records);
                match error {
                    Some(e) => r == Err::<(StorageEngine, Recovery), StorageError>(e),
                    None => {
                        &&& r matches Ok((engine, recovery))
                        &&& engine.inv()
                        &&& engine@ == (EngineView {
                            config,
                            mem,
                            pending: Seq::empty(),
                            tree: compaction@,
                            flush_counter: 0,
                        })
                        &&& recovery.is_of(scan, IndexSet::of(config))
                        &&& recovery.valid <= log_data@.len()
                    },
                }
            }),
    {
        let newest: u64 = compaction.newest_timestamp();
        let mut memtable = MemTable::starting_at(config.memtable_size, newest.saturating_add(1));
        let set = IndexSet::enabled_by(&config);
        match recovery::replay_wal(&mut memtable, log_data, set) {
            Ok(recovery) => {
                let engine = StorageEngine {
                    config,
                    memtable,
                    immutable_memtables: Vec::new(),
                    compaction,
                    flush_counter: 0,
                };
                assert(engine@.pending =~= Seq::empty());
                Ok((engine, recovery))
            },
            Err(e) => Err(e),
        }
    }

    /// The configuration.
    pub fn config(&self) -> (r: &EngineConfig)
        ensures
            *r == self@.config,
    {
        &self.config
    }

    /// The directory of all files.
    pub fn data_dir(&self) -> (r: &String)
        ensures
            *r == self@.config.data_dir,
    {
        &self.config.data_dir
    }

    /// Whether there is a timestamp left for a write.
    pub fn can_write(&self) -> (r: bool)
        ensures
            r == (self@.mem.next_timestamp < u64::MAX),
    {
        self.memtable.current_timestamp() < u64::MAX
    }

    /// Begins a write: its timestamp is reserved, and what is to be logged is made.
    pub fn begin_write(&mut self, write: &Write) -> (r: BegunWrite)
        requires
            old(self).inv(),
            old(self)@.mem.next_timestamp < u64::MAX,
        ensures
            final(self).inv(),
            final(self)@ == old(self)@.reserved(),
            r.timestamp == old(self)@.mem.next_timestamp,
            r.log@ == log::log_bytes(write@.records(r.timestamp)),
    {
        let timestamp: u64 = self.memtable.reserve_timestamp();
        let records = write.log_records(timestamp);
        BegunWrite { timestamp, log: log::encode_batch(&records) }
    }

    /// Sets the memtable aside, unless too many wait to be written out already.
    pub fn rotate_memtable(&mut self) -> (r: Result<(), StorageError>)
        requires
            old(self).inv(),
        ensures
            final(self).inv(),
            if old(self)@.backed_up() {
                r == Err::<(), StorageError>(old(self)@.backlog()) && final(self)@ == old(self)@
            } else {
                r == Ok::<(), StorageError>(()) && final(self)@ == old(self)@.set_aside()
            },
    {
        let pending: usize = self.immutable_memtables.len();
        if pending >= MAX_PENDING_IMMUTABLE_MEMTABLES {
            return Err(
                StorageError::FlushBacklog { pending, max: MAX_PENDING_IMMUTABLE_MEMTABLES },
            );
        }
        self.put_aside();
        Ok(())
    }

    /// Sets the memtable aside.
    fn put_aside(&mut self)
        requires
            old(self).inv(),
        ensures
            final(self).inv(),
            final(self)@ == old(self)@.set_aside(),
    {
        let ghost before = self@;
        let mut fresh = MemTable::starting_at(
            self.config.memtable_size,
            self.memtable.current_timestamp(),
        );
        std::mem::swap(&mut self.memtable, &mut fresh);
        self.immutable_memtables.push(ImmutableMemTable::from_memtable(fresh));
        assert(self@.pending =~= before.pending.push(before.mem));
    }

    /// Applies a write that has been logged. A write that the memtable has no room
    /// for is to be begun anew after the memtable was set aside. A memtable that
    /// the write has filled is set aside.
    pub fn apply_write(&mut self, write: &Write, timestamp: u64) -> (r: Result<
        WriteOutcome,
        StorageError,
    >)
        requires
            old(self).inv(),
        ensures
            final(self).inv(),
            ({
                let before = old(self)@;
                let applied = before.applied(write@, timestamp);
                if before.lacks_room(write@, timestamp) {
                    if before.backed_up() {
                        r == Err::<WriteOutcome, StorageError>(before.backlog()) && final(self)@
                            == before
                    } else {
                        r == Ok::<WriteOutcome, StorageError>(WriteOutcome::Retry) && final(self)@
                            == before.set_aside()
                    }
                } else if applied.mem_full() && before.backed_up() {
                    r == Err::<WriteOutcome, StorageError>(before.backlog()) && final(self)@
                        == applied
                } else {
                    &&& r matches Ok(WriteOutcome::Done(actions)) && index::action_views(actions@)
                        == index::effects(write@.records(timestamp), before.indexes())
                    &&& final(self)@ == (if applied.mem_full() {
                        applied.set_aside()
                    } else {
                        applied
                    })
                }
            }),
    {
        let key = codec::copy_bytes(&write.key);
        let result = match &write.value {
            Some(value) => self.memtable.insert_with_timestamp(
                key,
                codec::copy_bytes(value),
                timestamp,
            ),
            None => self.memtable.delete_with_timestamp(key, timestamp),
        };
        if result.is_err() {
            return match self.rotate_memtable() {
                Ok(()) => Ok(WriteOutcome::Retry),
                Err(e) => Err(e),
            };
        }
        if self.memtable.is_full() {
            if let Err(e) = self.rotate_memtable() {
                return Err(e);
            }
        }
        let records = write.log_records(timestamp);
        let set = IndexSet::enabled_by(&self.config);
        Ok(WriteOutcome::Done(index::effects_of(&records, set)))
    }

    /// The newest entry of a key in memory.
    fn lookup_in_memory(&self, key: &[u8]) -> (r: Option<memtable::Entry>)
        requires
            self.inv(),
        ensures
            match r {
                Some(entry) => self@.in_memory(key@) == Some(entry@),
                None => self@.in_memory(key@) is None,
            },
    {
        let ghost all = self@.memtables();
        assert(all.drop_last() =~= self@.pending);
        if let Some(entry) = self.memtable.get(key) {
            return Some(entry);
        }
        let mut n: usize = self.immutable_memtables.len();
        assert(self@.pending.take(n as int) =~= self@.pending);
        while n > 0
            invariant
                n <= self.immutable_memtables@.len(),
                self@.pending == mem_views(self.immutable_memtables@),
                self@.in_memory(key@) == newest_entry(self@.pending.take(n as int), key@),
            decreases n,
        {
            n = n - 1;
            proof {
                let some = self@.pending.take(n + 1);
                assert(some.drop_last() =~= self@.pending.take(n as int));
                assert(some.last() == self.immutable_memtables@[n as int]@);
            }
            if let Some(entry) = self.immutable_memtables[n].get(key) {
                return Some(entry);
            }
        }
        None
    }

    /// Reads a key.
    pub fn get(&self, key: &[u8]) -> (r: Result<Option<Vec<u8>>, StorageError>)
        requires
            self.inv(),
        ensures
            self@.reads(
                key@,
                match r {
                    Ok(v) => Ok(layout::value_view(v)),
                    Err(e) => Err(e),
                },
            ),
    {
        if let Some(entry) = self.lookup_in_memory(key) {
            return Ok(entry.value);
        }
        let found = self.compaction.get(key);
        let ghost a = reader::looked_up(found);
        assert(compaction::answered(self@.tree.candidates(key@), key@, a));
        match found {
            Ok(Some(record)) => Ok(record.value),
            Ok(None) => Ok(None),
            Err(e) => Err(e),
        }
    }

    /// Reads a key, through a cache of the blocks of tables.
    pub fn get_cached(&self, key: &[u8], cache: &mut BlockCache) -> (r: Result<
        Option<Vec<u8>>,
        StorageError,
    >)
        requires
            self.inv(),
            old(cache).inv(),
        ensures
            final(cache).inv(),
            self@.reads_through(
                key@,
                old(cache)@,
                match r {
                    Ok(v) => Ok(layout::value_view(v)),
                    Err(e) => Err(e),
                },
                final(cache)@,
            ),
    {
        if let Some(entry) = self.lookup_in_memory(key) {
            return Ok(entry.value);
        }
        let ghost before = cache@;
        let found = self.compaction.get_cached(key, cache);
        let ghost a = reader::looked_up(found);
        assert(compaction::answered_through(
            self@.tree.candidates(key@),
            key@,
            before,
            a,
            cache@,
        ));
        match found {
            Ok(Some(record)) => Ok(record.value),
            Ok(None) => Ok(None),
            Err(e) => Err(e),
        }
    }
}

/// A waiting memtable as a table that is ready to be installed.
pub struct FlushPlan {
    /// The place of the memtable among those that wait.
    pub place: usize,
    /// The table; a memtable without entries gives none.
    pub table: Option<Arc<SSTableReader>>,
}

impl FlushPlan {
    /// The table is open.
    pub open spec fn inv(&self) -> bool {
        self.table matches Some(table) ==> table.inv()
    }
}

/// The directory of all tables.
pub open spec fn tables_dir(data_dir: Seq<char>) -> Seq<char> {
    data_dir + "/sstables"@
}

/// The directory of all tables.
pub fn sstables_dir(data_dir: &str) -> (r: String)
    ensures
        r@ == tables_dir(data_dir@),
{
    let mut out = String::new();
    out.append(data_dir);
    out.append("/sstables");
    assert(out@ =~= tables_dir(data_dir@));
    out
}

impl EngineView {
    /// The path of the next table that a memtable is written out to.
    pub open spec fn flush_path(self, now: u64) -> Seq<char> {
        compaction::table_path(tables_dir(self.config.data_dir@), 0, now, self.flush_counter)
    }

    /// Whether a memtable waits at a place and no older one that waits has a key of it:
    /// that one's entry would be read in place of the table's. The oldest one is always
    /// free.
    pub open spec fn free(self, place: int) -> bool {
        &&& 0 <= place < self.pending.len()
        &&& forall|i: int|
            0 <= i < place ==> memtable::apart(
                (#[trigger] self.pending[i]).entries,
                self.pending[place].entries,
            )
    }

    /// The state after a waiting memtable was replaced by its table.
    pub open spec fn flushed(self, place: int, table: Option<reader::TableView>) -> EngineView {
        EngineView {
            pending: self.pending.remove(place),
            tree: match table {
                Some(t) => compaction::ManagerView {
                    levels: self.tree.levels.update(0, self.tree.levels[0].push(t)),
                    ..self.tree
                },
                None => self.tree,
            },
            ..self
        }
    }
}

/// The table of a plan.
pub open spec fn plan_table(plan: FlushPlan) -> Option<reader::TableView> {
    match plan.table {
        Some(t) => Some(t@),
        None => None,
    }
}

/// What planning a flush comes to, as far as the table is concerned.
pub open spec fn planned_table(r: Result<Option<FlushPlan>, StorageError>) -> Result<
    reader::TableView,
    StorageError,
> {
    match r {
        Ok(plan) => Ok(plan_table(plan->Some_0)->Some_0),
        Err(e) => Err(e),
    }
}

impl StorageEngine {
    /// Makes the table of a waiting memtable; the oldest one is at place 0. There is
    /// nothing to do if none waits there.
    pub fn plan_flush(&mut self, place: usize, now: u64) -> (r: Result<
        Option<FlushPlan>,
        StorageError,
    >)
        requires
            old(self).inv(),
        ensures
            final(self).inv(),
            ({
                let before = old(self)@;
                if place >= before.pending.len() {
                    r == Ok::<Option<FlushPlan>, StorageError>(None) && final(self)@ == before
                } else if before.pending[place as int].entries == memtable::Entries::empty() {
                    &&& final(self)@ == before
                    &&& r matches Ok(Some(plan)) && plan.place == place && plan.table is None
                } else {
                    &&& final(self)@ == (EngineView {
                        flush_counter: compaction::counter_after(before.flush_counter, 1),
                        ..before
                    })
                    &&& r matches Ok(plan) ==> plan is Some && plan->Some_0.inv()
                        && plan->Some_0.place == place && plan->Some_0.table is Some
                    &&& exists|pairs: Seq<(Seq<u8>, memtable::EntryView)>| #[trigger]
                        memtable::lists(pairs, before.pending[place as int].entries) && flush::table_made(
                            flush::records_of(pairs),
                            before.tree.config.compression,
                            before.flush_path(now),
                            planned_table(r),
                        )
                }
            }),
            r matches Ok(Some(plan)) ==> plan.inv(),
    {
        if place >= self.immutable_memtables.len() {
            return Ok(None);
        }
        assert(self.immutable_memtables@[place as int].inv());
        assert(self@.pending[place as int] == self.immutable_memtables@[place as int]@);
        if self.immutable_memtables[place].is_empty() {
            return Ok(Some(FlushPlan { place, table: None }));
        }
        let dir = sstables_dir(self.config.data_dir.as_str());
        let path = compaction::path_of_table(dir.as_str(), 0, now, self.flush_counter);
        assert(path@ == self@.flush_path(now));
        self.flush_counter = self.flush_counter.wrapping_add(1);
        match flush::flush_memtable(
            &self.immutable_memtables[place],
            path,
            self.config.compaction.compression,
        ) {
            Ok(table) => Ok(Some(FlushPlan { place, table: Some(table) })),
            Err(e) => Err(e),
        }
    }

    /// Puts the table of a waiting memtable in its place.
    pub fn install_flush(&mut self, plan: FlushPlan)
        requires
            old(self).inv(),
            plan.place < old(self)@.pending.len(),
            plan.inv(),
        ensures
            final(self).inv(),
            final(self)@ == old(self)@.flushed(plan.place as int, plan_table(plan)),
    {
        let ghost before = self.immutable_memtables@;
        if let Some(table) = plan.table {
            self.compaction.add_l0_sstable(table);
        }
        let place: usize = plan.place;
        self.immutable_memtables.remove(place);
        proof {
            assert(self.immutable_memtables@ =~= before.remove(place as int));
            assert(self@.pending =~= old(self)@.pending.remove(place as int));
            assert forall|i: int| 0 <= i < self.immutable_memtables@.len() implies (
            #[trigger] self.immutable_memtables@[i]).inv() by {
                assert(before[i].inv());
                assert(before[i + 1].inv());
            }
        }
    }

    /// Sets the memtable aside for a checkpoint, however many wait already. One
    /// without entries stays.
    pub fn seal_memtable(&mut self) -> (r: bool)
        requires
            old(self).inv(),
        ensures
            final(self).inv(),
            r == (old(self)@.mem.entries != memtable::Entries::empty()),
            final(self)@ == (if r {
                old(self)@.set_aside()
            } else {
                old(self)@
            }),
    {
        if self.memtable.is_empty() {
            return false;
        }
        self.put_aside();
        true
    }

    /// The number of memtables that wait to be written out.
    pub fn pending_memtables(&self) -> (r: usize)
        ensures
            r == self@.pending.len(),
    {
        self.immutable_memtables.len()
    }

    /// Whether the memtable has no entries.
    pub fn memtable_is_empty(&self) -> (r: bool)
        requires
            self.inv(),
        ensures
            r == (self@.mem.entries == memtable::Entries::empty()),
    {
        self.memtable.is_empty()
    }

    /// Which level is to be compacted.
    pub fn needs_compaction(&self) -> (r: Option<usize>)
        requires
            self.inv(),
            self@.tree.level0_full() || self@.tree.sizes_reached_fit(),
        ensures
            match r {
                Some(level) => if self@.tree.level0_full() {
                    level == 0
                } else {
                    self@.tree.over_target(1) == Some(level as int)
                },
                None => !self@.tree.level0_full() && self@.tree.over_target(1) is None,
            },
    {
        self.compaction.needs_compaction()
    }

    /// Prepares the compaction of a level into the next.
    pub fn plan_compaction(&mut self, level: usize, now: u64) -> (r: Result<
        Option<CompactionPlan>,
        StorageError,
    >)
        requires
            old(self).inv(),
        ensures
            final(self).inv(),
            final(self)@ == (EngineView {
                tree: compaction::ManagerView {
                    file_counter: final(self)@.tree.file_counter,
                    ..old(self)@.tree
                },
                ..old(self)@
            }),
            ({
                let tree = old(self)@.tree;
                if level >= tree.config.max_levels - 1 {
                    &&& r == Err::<Option<CompactionPlan>, StorageError>(
                        StorageError::Compaction {
                            level,
                            max: (tree.config.max_levels - 1) as usize,
                        },
                    )
                    &&& final(self)@ == old(self)@
                } else if tree.levels[level as int].len() == 0 {
                    &&& r == Ok::<Option<CompactionPlan>, StorageError>(None)
                    &&& final(self)@ == old(self)@
                } else {
                    &&& r matches Ok(plan) ==> plan is Some
                    &&& tree.merges(
                        tree.inputs(level as int),
                        (level + 1) as usize,
                        now,
                        compaction::planned_outputs(r),
                    )
                }
            }),
            r matches Ok(Some(plan)) ==> {
                &&& plan.inv()
                &&& plan@.level == level
                &&& plan@.upper == compaction::paths_of(old(self)@.tree.upper(level as int))
                &&& plan@.lower == compaction::paths_of(old(self)@.tree.lower(level as int))
                &&& final(self)@.tree.file_counter == compaction::counter_after(
                    old(self)@.tree.file_counter,
                    plan@.outputs.len() as int,
                )
            },
    {
        self.compaction.plan_compaction(level, now)
    }

    /// Installs a compaction.
    pub fn install_compaction(&mut self, plan: CompactionPlan) -> (r: compaction::CompactionResult)
        requires
            old(self).inv(),
            plan.inv(),
            plan.level + 1 < old(self)@.tree.config.max_levels,
        ensures
            final(self).inv(),
            final(self)@ == (EngineView { tree: old(self)@.tree.installed(plan@), ..old(self)@ }),
            r == (compaction::CompactionResult {
                input_count: (plan.upper@.len() + plan.lower@.len()) as usize,
                output_count: plan.outputs@.len() as usize,
                input_level: plan.level,
                output_level: (plan.level + 1) as usize,
            }),
    {
        self.compaction.install(plan)
    }
}

/// An edge that is to be added.
pub struct Edge {
    pub source: Vec<u8>,
    pub target: Vec<u8>,
    pub edge_type: Option<String>,
    pub weight: Option<u32>,
}

/// The log records of some edges that are added.
pub open spec fn edge_records(edges: Seq<Edge>, timestamp: u64) -> Seq<wal::WalRecordView> {
    Seq::new(
        edges.len(),
        |i: int|
            wal::edge_record(
                WalRecordType::AddEdge,
                edges[i].source@,
                edges[i].target@,
                index::text_view(edges[i].edge_type),
                edges[i].weight,
                timestamp,
            ),
    )
}

/// The log records of some edges that are removed.
pub open spec fn edge_removals(edges: Seq<(Vec<u8>, Vec<u8>)>, timestamp: u64) -> Seq<
    wal::WalRecordView,
> {
    Seq::new(
        edges.len(),
        |i: int|
            wal::edge_record(
                WalRecordType::RemoveEdge,
                edges[i].0@,
                edges[i].1@,
                None,
                None,
                timestamp,
            ),
    )
}

/// The log records of some times that are set.
pub open spec fn time_records(items: Seq<(Vec<u8>, u64)>, timestamp: u64) -> Seq<
    wal::WalRecordView,
> {
    Seq::new(
        items.len(),
        |i: int|
            wal::WalRecordView {
                ts_timestamp: Some(items[i].1),
                ..wal::plain_record(
                    WalRecordType::SetTimestamp,
                    items[i].0@,
                    Seq::empty(),
                    timestamp,
                )
            },
    )
}

/// The log records of a key's removal from all indexes.
pub open spec fn removal_records(
    key: Seq<u8>,
    edges: Seq<(Vec<u8>, Vec<u8>)>,
    indexes: IndexSet,
    timestamp: u64,
) -> Seq<wal::WalRecordView> {
    let vector = if indexes.vector {
        seq![wal::plain_record(WalRecordType::RemoveVector, key, Seq::empty(), timestamp)]
    } else {
        Seq::empty()
    };
    let time = if indexes.time_series {
        seq![wal::plain_record(WalRecordType::RemoveTimestamp, key, Seq::empty(), timestamp)]
    } else {
        Seq::empty()
    };
    let tag = if indexes.tag {
        seq![wal::plain_record(WalRecordType::RemoveTags, key, Seq::empty(), timestamp)]
    } else {
        Seq::empty()
    };
    let graph = if indexes.graph {
        edge_removals(edges, timestamp)
    } else {
        Seq::empty()
    };
    vector + time + tag + graph
}

/// The token that a word becomes.
pub open spec fn token(word: Seq<char>, config: TagIndexConfig) -> Seq<char> {
    if config.lowercase {
        text::lowered(word)
    } else {
        word
    }
}

/// The tokens of a text: its words, in lower case where that is wanted, without those
/// that are too short.
pub open spec fn tokens(words: Seq<Seq<char>>, config: TagIndexConfig) -> Seq<Seq<char>>
    decreases words.len(),
{
    if words.len() == 0 {
        Seq::empty()
    } else {
        let word = token(words.last(), config);
        if vstd::utf8::encode_utf8(word).len() >= config.min_token_length {
            tokens(words.drop_last(), config).push(word)
        } else {
            tokens(words.drop_last(), config)
        }
    }
}

/// The tokens of a text that was split into words.
pub fn tokens_of(words: &Vec<String>, config: TagIndexConfig) -> (r: Vec<String>)
    ensures
        text::texts(r@) == tokens(text::texts(words@), config),
{
    let ghost all = text::texts(words@);
    let mut out: Vec<String> = Vec::new();
    let mut i: usize = 0;
    assert(text::texts(out@) =~= tokens(all.take(0), config));
    while i < words.len()
        invariant
            i <= words@.len(),
            all == text::texts(words@),
            text::texts(out@) == tokens(all.take(i as int), config),
        decreases words@.len() - i,
    {
        let ghost before = text::texts(out@);
        let word = if config.lowercase {
            text::to_lower(words[i].as_str())
        } else {
            words[i].as_str().to_owned()
        };
        proof {
            assert(all.take(i + 1).drop_last() =~= all.take(i as int));
            assert(all.take(i + 1).last() == words@[i as int]@);
        }
        if word.as_str().as_bytes().len() >= config.min_token_length {
            let ghost view = word@;
            out.push(word);
            assert(text::texts(out@) =~= before.push(view));
        }
        i = i + 1;
    }
    assert(all.take(i as int) =~= all);
    out
}

impl StorageEngine {
    /// Logs some records and gives the changes that they stand for.
    fn logged(&self, records: Vec<WalRecord>) -> (r: LoggedChange)
        ensures
            r.is_of(log::record_views(records@), self@.indexes()),
    {
        let set = IndexSet::enabled_by(&self.config);
        LoggedChange {
            log: log::encode_batch(&records),
            actions: index::effects_of(&records, set),
        }
    }

    /// Logs one record.
    fn logged_one(&self, record: WalRecord) -> (r: LoggedChange)
        ensures
            r.is_of(seq![record@], self@.indexes()),
    {
        let mut records: Vec<WalRecord> = Vec::new();
        records.push(record);
        assert(log::record_views(records@) =~= seq![record@]);
        self.logged(records)
    }

    /// Adds an edge. An edge of the same source, target and type gets the weight.
    pub fn add_edge(&self, edge: Edge) -> (r: Result<LoggedChange, StorageError>)
        ensures
            if self@.indexes().graph {
                r matches Ok(change) && change.is_of(
                    edge_records(seq![edge], self@.mem.next_timestamp),
                    self@.indexes(),
                )
            } else {
                r == Err::<LoggedChange, StorageError>(
                    StorageError::InvalidArgument(Disabled::Graph),
                )
            },
    {
        if !self.config.graph.enabled {
            return Err(StorageError::InvalidArgument(Disabled::Graph));
        }
        let ghost expected = edge_records(seq![edge], self@.mem.next_timestamp);
        let record = WalRecord::add_edge(
            edge.source,
            edge.target,
            edge.edge_type,
            edge.weight,
            self.memtable.current_timestamp(),
        );
        assert(seq![record@] =~= expected);
        Ok(self.logged_one(record))
    }

    /// Adds edges with one log write.
    pub fn add_edges_batch(&self, edges: &Vec<Edge>) -> (r: Result<LoggedChange, StorageError>)
        ensures
            if self@.indexes().graph {
                r matches Ok(change) && change.is_of(
                    edge_records(edges@, self@.mem.next_timestamp),
                    self@.indexes(),
                )
            } else {
                r == Err::<LoggedChange, StorageError>(
                    StorageError::InvalidArgument(Disabled::Graph),
                )
            },
    {
        if !self.config.graph.enabled {
            return Err(StorageError::InvalidArgument(Disabled::Graph));
        }
        let timestamp: u64 = self.memtable.current_timestamp();
        let mut records: Vec<WalRecord> = Vec::new();
        let mut i: usize = 0;
        while i < edges.len()
            invariant
                i <= edges@.len(),
                records@.len() == i,
                forall|j: int|
                    0 <= j < i ==> (#[trigger] records@[j])@ == edge_records(edges@, timestamp)[j],
            decreases edges@.len() - i,
        {
            let edge = &edges[i];
            records.push(
                WalRecord::add_edge(
                    codec::copy_bytes(&edge.source),
                    codec::copy_bytes(&edge.target),
                    index::copy_text(&edge.edge_type),
                    edge.weight,
                    timestamp,
                ),
            );
            i = i + 1;
        }
        assert(log::record_views(records@) =~= edge_records(edges@, timestamp));
        Ok(self.logged(records))
    }

    /// Removes the edges from a source to a target.
    pub fn remove_edge(&self, source: Vec<u8>, target: Vec<u8>) -> (r: Result<
        LoggedChange,
        StorageError,
    >)
        ensures
            if self@.indexes().graph {
                r matches Ok(change) && change.is_of(
                    seq![
                        wal::edge_record(
                            WalRecordType::RemoveEdge,
                            source@,
                            target@,
                            None,
                            None,
                            self@.mem.next_timestamp,
                        ),
                    ],
                    self@.indexes(),
                )
            } else {
                r == Err::<LoggedChange, StorageError>(
                    StorageError::InvalidArgument(Disabled::Graph),
                )
            },
    {
        if !self.config.graph.enabled {
            return Err(StorageError::InvalidArgument(Disabled::Graph));
        }
        let record = WalRecord::remove_edge(source, target, self.memtable.current_timestamp());
        Ok(self.logged_one(record))
    }

    /// Puts a key at a time.
    pub fn add_timestamp(&self, key: Vec<u8>, timestamp: u64) -> (r: Result<
        LoggedChange,
        StorageError,
    >)
        ensures
            if self@.indexes().time_series {
                r matches Ok(change) && change.is_of(
                    seq![
                        wal::WalRecordView {
                            ts_timestamp: Some(timestamp),
                            ..wal::plain_record(
                                WalRecordType::SetTimestamp,
                                key@,
                                Seq::empty(),
                                self@.mem.next_timestamp,
                            )
                        },
                    ],
                    self@.indexes(),
                )
            } else {
                r == Err::<LoggedChange, StorageError>(
                    StorageError::InvalidArgument(Disabled::TimeSeries),
                )
            },
    {
        if !self.config.time_series.enabled {
            return Err(StorageError::InvalidArgument(Disabled::TimeSeries));
        }
        let record = WalRecord::set_timestamp(key, timestamp, self.memtable.current_timestamp());
        Ok(self.logged_one(record))
    }

    /// Puts keys at times with one log write.
    pub fn add_timestamps_batch(&self, items: &Vec<(Vec<u8>, u64)>) -> (r: Result<
        LoggedChange,
        StorageError,
    >)
        ensures
            if self@.indexes().time_series {
                r matches Ok(change) && change.is_of(
                    time_records(items@, self@.mem.next_timestamp),
                    self@.indexes(),
                )
            } else {
                r == Err::<LoggedChange, StorageError>(
                    StorageError::InvalidArgument(Disabled::TimeSeries),
                )
            },
    {
        if !self.config.time_series.enabled {
            return Err(StorageError::InvalidArgument(Disabled::TimeSeries));
        }
        let timestamp: u64 = self.memtable.current_timestamp();
        let mut records: Vec<WalRecord> = Vec::new();
        let mut i: usize = 0;
        while i < items.len()
            invariant
                i <= items@.len(),
                records@.len() == i,
                forall|j: int|
                    0 <= j < i ==> (#[trigger] records@[j])@ == time_records(items@, timestamp)[j],
            decreases items@.len() - i,
        {
            let item = &items[i];
            records.push(
                WalRecord::set_timestamp(codec::copy_bytes(&item.0), item.1, timestamp),
            );
            i = i + 1;
        }
        assert(log::record_views(records@) =~= time_records(items@, timestamp));
        Ok(self.logged(records))
    }

    /// Adds tags to a key.
    pub fn add_tags(&self, key: Vec<u8>, tags: Vec<String>) -> (r: Result<
        LoggedChange,
        StorageError,
    >)
        ensures
            if self@.indexes().tag {
                r matches Ok(change) && change.is_of(
                    seq![
                        wal::WalRecordView {
                            tags: Some(text::texts(tags@)),
                            ..wal::plain_record(
                                WalRecordType::AddTags,
                                key@,
                                Seq::empty(),
                                self@.mem.next_timestamp,
                            )
                        },
                    ],
                    self@.indexes(),
                )
            } else {
                r == Err::<LoggedChange, StorageError>(
                    StorageError::InvalidArgument(Disabled::Tag),
                )
            },
    {
        if !self.config.tag_index.enabled {
            return Err(StorageError::InvalidArgument(Disabled::Tag));
        }
        let record = WalRecord::add_tags(key, tags, self.memtable.current_timestamp());
        Ok(self.logged_one(record))
    }

    /// Replaces the tags of a key.
    pub fn set_tags(&self, key: Vec<u8>, tags: Vec<String>) -> (r: Result<
        LoggedChange,
        StorageError,
    >)
        ensures
            if self@.indexes().tag {
                r matches Ok(change) && change.is_of(
                    seq![
                        wal::WalRecordView {
                            tags: Some(text::texts(tags@)),
                            ..wal::plain_record(
                                WalRecordType::SetTags,
                                key@,
                                Seq::empty(),
                                self@.mem.next_timestamp,
                            )
                        },
                    ],
                    self@.indexes(),
                )
            } else {
                r == Err::<LoggedChange, StorageError>(
                    StorageError::InvalidArgument(Disabled::Tag),
                )
            },
    {
        if !self.config.tag_index.enabled {
            return Err(StorageError::InvalidArgument(Disabled::Tag));
        }
        let record = WalRecord::set_tags(key, tags, self.memtable.current_timestamp());
        Ok(self.logged_one(record))
    }

    /// Adds given tokens to a key. Without tokens there is nothing to log.
    pub fn index_tokens(&self, key: Vec<u8>, tokens: Vec<String>) -> (r: Result<
        LoggedChange,
        StorageError,
    >)
        ensures
            if self@.indexes().tag {
                r matches Ok(change) && change.is_of(
                    token_records(key@, text::texts(tokens@), self@.mem.next_timestamp),
                    self@.indexes(),
                )
            } else {
                r == Err::<LoggedChange, StorageError>(
                    StorageError::InvalidArgument(Disabled::Tag),
                )
            },
    {
        if tokens.len() == 0 && self.config.tag_index.enabled {
            let none: Vec<WalRecord> = Vec::new();
            assert(log::record_views(none@) =~= token_records(
                key@,
                text::texts(tokens@),
                self@.mem.next_timestamp,
            ));
            return Ok(self.logged(none));
        }
        self.add_tags(key, tokens)
    }

    /// Indexes a text under a key: its tokens become tags. The log holds the tokens,
    /// so that a replay gives the same index.
    pub fn index_text(&self, key: Vec<u8>, content: &str) -> (r: Result<LoggedChange, StorageError>)
        ensures
            if self@.indexes().tag {
                r matches Ok(change) && change.is_of(
                    token_records(
                        key@,
                        tokens(text::whitespace_words(content@), self@.config.tag_index),
                        self@.mem.next_timestamp,
                    ),
                    self@.indexes(),
                )
            } else {
                r == Err::<LoggedChange, StorageError>(
                    StorageError::InvalidArgument(Disabled::Tag),
                )
            },
    {
        let words = text::split_words(content);
        let found = tokens_of(&words, self.config.tag_index);
        self.index_tokens(key, found)
    }

    /// Removes a key from all indexes. `edges` are the edges from and to the key.
    pub fn remove_from_indexes(&mut self, key: &Vec<u8>, edges: &Vec<(Vec<u8>, Vec<u8>)>) -> (r:
        LoggedChange)
        requires
            old(self).inv(),
            old(self)@.mem.next_timestamp < u64::MAX,
        ensures
            final(self).inv(),
            final(self)@ == old(self)@.reserved(),
            r.is_of(
                removal_records(
                    key@,
                    edges@,
                    old(self)@.indexes(),
                    old(self)@.mem.next_timestamp,
                ),
                old(self)@.indexes(),
            ),
    {
        let timestamp: u64 = self.memtable.reserve_timestamp();
        let mut records: Vec<WalRecord> = Vec::new();
        if self.config.vector.enabled {
            records.push(WalRecord::remove_vector(codec::copy_bytes(key), timestamp));
        }
        if self.config.time_series.enabled {
            records.push(WalRecord::remove_timestamp(codec::copy_bytes(key), timestamp));
        }
        if self.config.tag_index.enabled {
            records.push(WalRecord::remove_tags(codec::copy_bytes(key), timestamp));
        }
        if self.config.graph.enabled {
            push_removals(&mut records, edges, timestamp);
        }
        proof {
            assert(log::record_views(records@) =~= removal_records(
                key@,
                edges@,
                self@.indexes(),
                timestamp,
            ));
        }
        self.logged(records)
    }

    /// Removes given edges, which are all from and to a key.
    pub fn remove_all_edges(&mut self, edges: &Vec<(Vec<u8>, Vec<u8>)>) -> (r: LoggedChange)
        requires
            old(self).inv(),
            old(self)@.mem.next_timestamp < u64::MAX,
        ensures
            final(self).inv(),
            if old(self)@.indexes().graph && edges@.len() > 0 {
                &&& final(self)@ == old(self)@.reserved()
                &&& r.is_of(
                    edge_removals(edges@, old(self)@.mem.next_timestamp),
                    old(self)@.indexes(),
                )
            } else {
                &&& final(self)@ == old(self)@
                &&& r.is_of(Seq::empty(), old(self)@.indexes())
            },
    {
        let mut records: Vec<WalRecord> = Vec::new();
        assert(log::record_views(records@) =~= Seq::empty());
        if !self.config.graph.enabled || edges.len() == 0 {
            return self.logged(records);
        }
        let timestamp: u64 = self.memtable.reserve_timestamp();
        push_removals(&mut records, edges, timestamp);
        assert(log::record_views(records@) =~= edge_removals(edges@, timestamp));
        self.logged(records)
    }
}

/// The log records of a key's tokens.
pub open spec fn token_records(key: Seq<u8>, found: Seq<Seq<char>>, timestamp: u64) -> Seq<
    wal::WalRecordView,
> {
    if found.len() == 0 {
        Seq::empty()
    } else {
        seq![
            wal::WalRecordView {
                tags: Some(found),
                ..wal::plain_record(WalRecordType::AddTags, key, Seq::empty(), timestamp)
            },
        ]
    }
}

/// Appends the records of edges that are removed.
fn push_removals(records: &mut Vec<WalRecord>, edges: &Vec<(Vec<u8>, Vec<u8>)>, timestamp: u64)
    ensures
        log::record_views(final(records)@) == log::record_views(old(records)@) + edge_removals(
            edges@,
            timestamp,
        ),
{
    let ghost all = edge_removals(edges@, timestamp);
    let mut i: usize = 0;
    assert(log::record_views(records@) =~= log::record_views(old(records)@) + all.take(0));
    while i < edges.len()
        invariant
            i <= edges@.len(),
            all == edge_removals(edges@, timestamp),
            log::record_views(records@) == log::record_views(old(records)@) + all.take(i as int),
        decreases edges@.len() - i,
    {
        let ghost before = log::record_views(records@);
        let edge = &edges[i];
        let record = WalRecord::remove_edge(
            codec::copy_bytes(&edge.0),
            codec::copy_bytes(&edge.1),
            timestamp,
        );
        let ghost view = record@;
        records.push(record);
        assert(log::record_views(records@) =~= before.push(view));
        assert(log::record_views(records@) =~= log::record_views(old(records)@) + all.take(i + 1));
        i = i + 1;
    }
    assert(all.take(i as int) =~= all);
}

/// What the indexes hold.
#[derive(Clone, Copy, PartialEq, Eq, Structural, Debug)]
pub struct IndexStats {
    pub vector_count: usize,
    pub graph_node_count: usize,
    pub graph_edge_count: usize,
    pub time_series_count: usize,
    pub tag_doc_count: usize,
    pub tag_token_count: usize,
}

/// What the engine holds.
#[derive(Debug)]
pub struct StorageStats {
    /// The bytes of the memtable.
    pub memtable_size: usize,
    /// The number of memtables that wait to be written out.
    pub immutable_memtables: usize,
    pub level_stats: Vec<LevelStats>,
    /// The number of blocks in the cache.
    pub cache_entries: usize,
    /// The bytes of the blocks in the cache.
    pub cache_size: usize,
    pub vector_count: usize,
    pub vector_enabled: bool,
    pub graph_node_count: usize,
    pub graph_edge_count: usize,
    pub graph_enabled: bool,
    pub time_series_count: usize,
    pub time_series_enabled: bool,
    pub tag_doc_count: usize,
    pub tag_token_count: usize,
    pub tag_enabled: bool,
}

/// A count of an index, which is 0 if the index is not there.
pub open spec fn counted(enabled: bool, n: usize) -> usize {
    if enabled {
        n
    } else {
        0
    }
}

/// A count of an index, which is 0 if the index is not there.
fn count_if(enabled: bool, n: usize) -> (r: usize)
    ensures
        r == counted(enabled, n),
{
    if enabled {
        n
    } else {
        0
    }
}

impl StorageEngine {
    /// What the engine and its indexes hold.
    pub fn stats(&self, indexes: IndexStats, cache: BlockCacheStats) -> (r: StorageStats)
        requires
            self.inv(),
        ensures
            r.memtable_size == self@.mem.size(),
            r.immutable_memtables == self@.pending.len(),
            r.level_stats@ == Seq::new(
                self@.tree.levels.len(),
                |i: int|
                    LevelStats {
                        level: i as usize,
                        file_count: self@.tree.levels[i].len() as usize,
                        total_size: compaction::counted_bytes(self@.tree.levels[i]),
                    },
            ),
            r.cache_entries == cache.entries,
            r.cache_size == cache.size_bytes,
            r.vector_enabled == self@.indexes().vector,
            r.graph_enabled == self@.indexes().graph,
            r.time_series_enabled == self@.indexes().time_series,
            r.tag_enabled == self@.indexes().tag,
            r.vector_count == counted(self@.indexes().vector, indexes.vector_count),
            r.graph_node_count == counted(self@.indexes().graph, indexes.graph_node_count),
            r.graph_edge_count == counted(self@.indexes().graph, indexes.graph_edge_count),
            r.time_series_count == counted(self@.indexes().time_series, indexes.time_series_count),
            r.tag_doc_count == counted(self@.indexes().tag, indexes.tag_doc_count),
            r.tag_token_count == counted(self@.indexes().tag, indexes.tag_token_count),
    {
        let set = IndexSet::enabled_by(&self.config);
        StorageStats {
            memtable_size: self.memtable.size(),
            immutable_memtables: self.immutable_memtables.len(),
            level_stats: self.compaction.stats(),
            cache_entries: cache.entries,
            cache_size: cache.size_bytes,
            vector_count: count_if(set.vector, indexes.vector_count),
            vector_enabled: set.vector,
            graph_node_count: count_if(set.graph, indexes.graph_node_count),
            graph_edge_count: count_if(set.graph, indexes.graph_edge_count),
            graph_enabled: set.graph,
            time_series_count: count_if(set.time_series, indexes.time_series_count),
            time_series_enabled: set.time_series,
            tag_doc_count: count_if(set.tag, indexes.tag_doc_count),
            tag_token_count: count_if(set.tag, indexes.tag_token_count),
            tag_enabled: set.tag,
        }
    }
}

/// What a vector search has found.
#[derive(Debug)]
pub struct VectorSearchResult {
    pub key: Vec<u8>,
    pub distance: u32,
    /// The value of the key, if it was asked for.
    pub value: Option<Vec<u8>>,
}

impl IndexSet {
    /// Whether the index that a request needs is there.
    pub open spec fn has(self, index: Disabled) -> bool {
        match index {
            Disabled::Vector => self.vector,
            Disabled::Graph => self.graph,
            Disabled::TimeSeries => self.time_series,
            Disabled::Tag => self.tag,
        }
    }
}

impl EngineView {
    /// Whether a read of a key can succeed.
    pub open spec fn readable(self, key: Seq<u8>) -> bool {
        exists|v: Option<Seq<u8>>| #[trigger] self.reads(key, Ok(v))
    }

    /// Whether the read for a search result can fail so, and those for the results
    /// before it can succeed.
    pub open spec fn fails_at(
        self,
        results: Seq<VectorSearchResult>,
        n: int,
        e: StorageError,
    ) -> bool {
        &&& 0 <= n < results.len()
        &&& self.reads(results[n].key@, Err(e))
        &&& forall|i: int| 0 <= i < n ==> self.readable((#[trigger] results[i]).key@)
    }
}

impl StorageEngine {
    /// Whether vectors can be searched for.
    pub fn vector_enabled(&self) -> (r: bool)
        ensures
            r == self@.indexes().vector,
    {
        self.config.vector.enabled
    }

    /// Whether there is a graph.
    pub fn graph_enabled(&self) -> (r: bool)
        ensures
            r == self@.indexes().graph,
    {
        self.config.graph.enabled
    }

    /// Whether keys are indexed by time.
    pub fn time_series_enabled(&self) -> (r: bool)
        ensures
            r == self@.indexes().time_series,
    {
        self.config.time_series.enabled
    }

    /// Whether keys are indexed by tags.
    pub fn tag_enabled(&self) -> (r: bool)
        ensures
            r == self@.indexes().tag,
    {
        self.config.tag_index.enabled
    }

    /// Refuses a request that needs an index that is not there.
    pub fn needs_index(&self, index: Disabled) -> (r: Result<(), StorageError>)
        ensures
            r == (if self@.indexes().has(index) {
                Ok::<(), StorageError>(())
            } else {
                Err::<(), StorageError>(StorageError::InvalidArgument(index))
            }),
    {
        let there = match index {
            Disabled::Vector => self.vector_enabled(),
            Disabled::Graph => self.graph_enabled(),
            Disabled::TimeSeries => self.time_series_enabled(),
            Disabled::Tag => self.tag_enabled(),
        };
        if there {
            Ok(())
        } else {
            Err(StorageError::InvalidArgument(index))
        }
    }

    /// Search results without values, from what a vector index has found.
    pub fn vector_search(&self, found: Vec<(Vec<u8>, u32)>) -> (r: Result<
        Vec<VectorSearchResult>,
        StorageError,
    >)
        ensures
            match r {
                Ok(results) => self@.indexes().vector && results@.len() == found@.len() && forall|
                    i: int,
                |
                    0 <= i < found@.len() ==> (#[trigger] results@[i]).key@ == found@[i].0@
                        && results@[i].distance == found@[i].1 && results@[i].value is None,
                Err(e) => !self@.indexes().vector && e == StorageError::InvalidArgument(
                    Disabled::Vector,
                ),
            },
    {
        if !self.config.vector.enabled {
            return Err(StorageError::InvalidArgument(Disabled::Vector));
        }
        let mut results: Vec<VectorSearchResult> = Vec::new();
        let mut i: usize = 0;
        while i < found.len()
            invariant
                i <= found@.len(),
                results@.len() == i,
                forall|j: int|
                    0 <= j < i ==> (#[trigger] results@[j]).key@ == found@[j].0@
                        && results@[j].distance == found@[j].1 && results@[j].value is None,
            decreases found@.len() - i,
        {
            results.push(
                VectorSearchResult {
                    key: codec::copy_bytes(&found[i].0),
                    distance: found[i].1,
                    value: None,
                },
            );
            i = i + 1;
        }
        Ok(results)
    }

    /// Gives search results the values of their keys; the first read that fails is
    /// the error.
    pub fn vector_search_with_values(&self, results: Vec<VectorSearchResult>) -> (r: Result<
        Vec<VectorSearchResult>,
        StorageError,
    >)
        requires
            self.inv(),
        ensures
            match r {
                Ok(filled) => filled@.len() == results@.len() && forall|i: int|
                    0 <= i < filled@.len() ==> (#[trigger] filled@[i]).key == results@[i].key
                        && filled@[i].distance == results@[i].distance && self@.reads(
                        results@[i].key@,
                        Ok(layout::value_view(filled@[i].value)),
                    ),
                Err(e) => exists|n: int| #[trigger] self@.fails_at(results@, n, e),
            },
    {
        let ghost all = results@;
        let mut filled = results;
        let mut i: usize = 0;
        while i < filled.len()
            invariant
                self.inv(),
                all == results@,
                i <= filled@.len(),
                filled@.len() == all.len(),
                forall|j: int|
                    0 <= j < i ==> (#[trigger] filled@[j]).key == all[j].key
                        && filled@[j].distance == all[j].distance && self@.reads(
                        all[j].key@,
                        Ok(layout::value_view(filled@[j].value)),
                    ),
                forall|j: int| i <= j < filled@.len() ==> #[trigger] filled@[j] == all[j],
            decreases filled@.len() - i,
        {
            match self.get(filled[i].key.as_slice()) {
                Ok(value) => {
                    filled[i].value = value;
                },
                Err(e) => {
                    proof {
                        assert forall|j: int| 0 <= j < i implies self@.readable(
                            (#[trigger] all[j]).key@,
                        ) by {
                            assert(filled@[j].key == all[j].key);
                        }
                        assert(self@.fails_at(all, i as int, e));
                    }
                    return Err(e);
                },
            }
            i = i + 1;
        }
        Ok(filled)
    }
}

/// The tokens of a text are all its words that are long enough, in their order, in lower
/// case where that is wanted.
pub proof fn law_tokens(words: Seq<Seq<char>>, config: TagIndexConfig)
    ensures
        tokens(words, config) == words.map_values(
            |w: Seq<char>|
                if config.lowercase {
                    text::lowered(w)
                } else {
                    w
                },
        ).filter(
            |t: Seq<char>| vstd::utf8::encode_utf8(t).len() >= config.min_token_length,
        ),
    decreases words.len(),
{
    let cased = |w: Seq<char>|
        if config.lowercase {
            text::lowered(w)
        } else {
            w
        };
    reveal(Seq::filter);
    if words.len() > 0 {
        law_tokens(words.drop_last(), config);
        assert(words.map_values(cased).drop_last() =~= words.drop_last().map_values(cased));
        assert(words.map_values(cased).last() == token(words.last(), config));
    }
}

/// The tokens of a key are logged as one set of tags of the key, all of them; without
/// tokens nothing is logged.
pub proof fn law_token_records(key: Seq<u8>, found: Seq<Seq<char>>, timestamp: u64)
    ensures
        found.len() == 0 ==> token_records(key, found, timestamp).len() == 0,
        found.len() > 0 ==> {
            let records = token_records(key, found, timestamp);
            &&& records.len() == 1
            &&& records[0].record_type == WalRecordType::AddTags
            &&& records[0].key == key
            &&& records[0].tags == Some(found)
            &&& records[0].timestamp == timestamp
        },
{
}

/// A change is logged as its records, and makes the changes of the indexes that they
/// stand for.
pub proof fn law_logged_change(
    change: LoggedChange,
    records: Seq<wal::WalRecordView>,
    indexes: IndexSet,
)
    requires
        change.is_of(records, indexes),
    ensures
        change.log@ == log::log_bytes(records),
        change.actions@.len() == index::effects(records, indexes).len(),
        forall|i: int|
            0 <= i < change.actions@.len() ==> (#[trigger] change.actions@[i])@ == index::effects(
                records,
                indexes,
            )[i],
{
    let views = index::action_views(change.actions@);
    assert forall|i: int| 0 <= i < change.actions@.len() implies (#[trigger] change.actions@[i])@
        == index::effects(records, indexes)[i] by {
        assert(views[i] == change.actions@[i]@);
    }
}

/// The log of a write has its key, its value and its embedding, and the time and the tags
/// under which it is to be found; a deletion has the key.
pub proof fn law_write_records(write: WriteView, timestamp: u64)
    ensures
        ({
            let records = write.records(timestamp);
            let first = records[0];
            &&& first.key == write.key
            &&& first.timestamp == timestamp
            &&& write.value is None ==> first.record_type == WalRecordType::Delete
            &&& write.value matches Some(v) ==> first.value == v && (first.record_type
                == WalRecordType::Insert || first.record_type
                == WalRecordType::InsertWithEmbedding)
            &&& write.value is Some && write.embedding is Some ==> first.record_type
                == WalRecordType::InsertWithEmbedding && first.embedding == write.embedding
            &&& write.placed is None ==> records.len() == 1
            &&& write.placed matches Some((time, tags)) ==> {
                &&& records.len() == 3
                &&& records[1].record_type == WalRecordType::SetTimestamp
                &&& records[1].key == write.key
                &&& records[1].ts_timestamp == Some(time)
                &&& records[2].record_type == WalRecordType::AddTags
                &&& records[2].key == write.key
                &&& records[2].tags == Some(tags)
            }
            &&& write.entry(timestamp).value == write.value
            &&& write.entry(timestamp).timestamp == timestamp
        }),
{
}

/// A write is refused when four memtables wait, and not before; the error says so.
pub proof fn law_backlog(e: EngineView)
    ensures
        e.backed_up() <==> e.pending.len() >= 4,
        e.pending.len() <= usize::MAX ==> e.backlog() == (StorageError::FlushBacklog {
            pending: e.pending.len() as usize,
            max: 4,
        }),
{
}

/// Setting the memtable aside makes it the last of those that wait; the new one is empty,
/// has the size that is configured, and goes on with the timestamps.
pub proof fn law_set_aside(e: EngineView)
    ensures
        ({
            let after = e.set_aside();
            &&& after.pending.len() == e.pending.len() + 1
            &&& after.pending.last() == e.mem
            &&& after.pending.drop_last() == e.pending
            &&& after.mem.entries == memtable::Entries::empty()
            &&& after.mem.max_size == e.config.memtable_size
            &&& after.mem.next_timestamp == e.mem.next_timestamp
            &&& after.tree == e.tree
            &&& after.config == e.config
            &&& after.flush_counter == e.flush_counter
        }),
{
    assert(e.set_aside().pending.drop_last() =~= e.pending);
}

/// A memtable that is written out waits no longer, and its table is the newest of level
/// 0; everything else stays.
pub proof fn law_flushed(e: EngineView, place: int, table: reader::TableView)
    requires
        0 <= place < e.pending.len(),
        e.tree.levels.len() > 0,
    ensures
        ({
            let after = e.flushed(place, Some(table));
            &&& after.pending == e.pending.remove(place)
            &&& after.tree.levels[0] == e.tree.levels[0].push(table)
            &&& after.tree.levels.len() == e.tree.levels.len()
            &&& forall|l: int|
                1 <= l < e.tree.levels.len() ==> #[trigger] after.tree.levels[l] == e.tree.levels[l]
            &&& after.mem == e.mem
            &&& e.flushed(place, None).tree == e.tree
            &&& e.flushed(place, None).pending == e.pending.remove(place)
        }),
{
}

/// A count of an index is the count that the index gives, if it is there.
pub proof fn law_counted(n: usize)
    ensures
        counted(true, n) == n,
        counted(false, n) == 0,
{
}

/// A request that needs an index is answered exactly if that index is enabled.
pub proof fn law_has_index(set: IndexSet)
    ensures
        set.has(Disabled::Vector) == set.vector,
        set.has(Disabled::Graph) == set.graph,
        set.has(Disabled::TimeSeries) == set.time_series,
        set.has(Disabled::Tag) == set.tag,
{
}

/// Memory is looked through from the newest memtable to the oldest: an entry in a newer
/// one is found before one in an older one, and a key that none has is not found.
pub proof fn law_newest_entry(
    older: Seq<memtable::MemView>,
    newer: Seq<memtable::MemView>,
    key: Seq<u8>,
)
    ensures
        newest_entry(older + newer, key) == (if newest_entry(newer, key) is Some {
            newest_entry(newer, key)
        } else {
            newest_entry(older, key)
        }),
        newest_entry(Seq::empty(), key) is None,
    decreases newer.len(),
{
    if newer.len() == 0 {
        assert(older + newer =~= older);
    } else {
        assert((older + newer).drop_last() =~= older + newer.drop_last());
        law_newest_entry(older, newer.drop_last(), key);
    }
}

/// A deleted key has no value, and neither has one that is not found; an error stays one.
pub proof fn law_found_value(r: Result<Option<layout::RecordView>, StorageError>)
    ensures
        r matches Ok(Some(record)) ==> found_value(r) == Ok::<Option<Seq<u8>>, StorageError>(
            record.value,
        ),
        r matches Ok(None) ==> found_value(r) == Ok::<Option<Seq<u8>>, StorageError>(None),
        r matches Err(e) ==> found_value(r) == Err::<Option<Seq<u8>>, StorageError>(e),
{
}

/// All memtables: those that wait, in their order, and the one that is written to.
pub proof fn law_memtables(e: EngineView, i: int)
    ensures
        e.memtables().len() == e.pending.len() + 1,
        e.memtables().last() == e.mem,
        0 <= i < e.pending.len() ==> e.memtables()[i] == e.pending[i],
{
}

/// What is read of a key that is in memory is the value of its newest entry there, also
/// where that is none.
pub proof fn law_memory_is_read_first(
    e: EngineView,
    key: Seq<u8>,
    r: Result<Option<Seq<u8>>, StorageError>,
)
    requires
        e.reads(key, r),
    ensures
        e.mem.lookup(key) matches Some(entry) ==> r == Ok::<Option<Seq<u8>>, StorageError>(
            entry.value,
        ),
{
    assert(e.memtables().last() == e.mem);
}

/// Applying a write changes the memtable as the write says and nothing else: the key has
/// the value and the timestamp of the write, if it had no newer one.
pub proof fn law_applied(e: EngineView, write: WriteView, timestamp: u64, other: Seq<u8>)
    requires
        e.mem.lookup(write.key) matches Some(entry) ==> entry.timestamp < timestamp,
    ensures
        ({
            let after = e.applied(write, timestamp);
            &&& after.mem.lookup(write.key) matches Some(entry) && entry.value == write.value
                && entry.timestamp == timestamp
            &&& other != write.key ==> after.mem.lookup(other) == e.mem.lookup(other)
            &&& after.pending == e.pending
            &&& after.tree == e.tree
            &&& after.config == e.config
            &&& after.flush_counter == e.flush_counter
        }),
{
}

/// Reserving a timestamp moves the next one on by one, and changes nothing else.
pub proof fn law_reserved(e: EngineView)
    requires
        e.mem.next_timestamp < u64::MAX,
    ensures
        e.reserved().mem.next_timestamp == e.mem.next_timestamp + 1,
        e.reserved().mem.entries == e.mem.entries,
        e.reserved().mem.max_size == e.mem.max_size,
        e.reserved().pending == e.pending,
        e.reserved().tree == e.tree,
        e.reserved().config == e.config,
        e.reserved().flush_counter == e.flush_counter,
{
}

/// A write has no room if its key, its value and the bytes of an entry do not fit beside
/// what the memtable holds; the memtable is full once it holds as much as it may.
pub proof fn law_memtable_room(e: EngineView, write: WriteView, timestamp: u64)
    ensures
        write.value matches Some(v) ==> (e.lacks_room(write, timestamp) <==> e.mem.size()
            + write.key.len() + v.len() + 40 > e.mem.max_size),
        write.value is None ==> (e.lacks_room(write, timestamp) <==> e.mem.size()
            + write.key.len() + 40 > e.mem.max_size),
        e.mem_full() <==> e.mem.size() >= e.mem.max_size,
{
}

/// A memtable that waits may be written out once no older one that waits has a key of it.
pub proof fn law_free(e: EngineView, place: int, older: int, key: Seq<u8>)
    requires
        e.free(place),
        0 <= older < place,
    ensures
        place < e.pending.len(),
        e.pending[older].entries.dom().contains(key) ==> !e.pending[place].entries.dom().contains(
            key,
        ),
{
    assert(memtable::apart(e.pending[older].entries, e.pending[place].entries));
}

/// The tables that memtables are written out to lie in the directory of level 0 under
/// that of all tables.
pub proof fn law_flush_path(e: EngineView, now: u64)
    ensures
        tables_dir(e.config.data_dir@) == e.config.data_dir@ + "/sstables"@,
        e.flush_path(now) == compaction::table_path(
            e.config.data_dir@ + "/sstables"@,
            0,
            now,
            e.flush_counter,
        ),
{
}

/// What memtables are is what each of them is, in their order.
pub proof fn law_mem_views(mems: Seq<ImmutableMemTable>, i: int)
    ensures
        mem_views(mems).len() == mems.len(),
        0 <= i < mems.len() ==> mem_views(mems)[i] == mems[i]@,
{
}

/// The log has a record for each edge and each time, in their order, with what the edge
/// or the time is.
pub proof fn law_batch_records(
    edges: Seq<Edge>,
    items: Seq<(Vec<u8>, u64)>,
    timestamp: u64,
    i: int,
)
    ensures
        edge_records(edges, timestamp).len() == edges.len(),
        0 <= i < edges.len() ==> {
            let r = edge_records(edges, timestamp)[i];
            &&& r.record_type is AddEdge
            &&& r.timestamp == timestamp
            &&& r.edge_source == Some(edges[i].source@)
            &&& r.edge_target == Some(edges[i].target@)
            &&& edges[i].edge_type is None <==> r.edge_type is None
            &&& edges[i].edge_type matches Some(t) ==> r.edge_type == Some(t@)
            &&& r.edge_weight == edges[i].weight
        },
        time_records(items, timestamp).len() == items.len(),
        0 <= i < items.len() ==> {
            let r = time_records(items, timestamp)[i];
            &&& r.record_type is SetTimestamp
            &&& r.timestamp == timestamp
            &&& r.key == items[i].0@
            &&& r.ts_timestamp == Some(items[i].1)
        },
{
}

} // verus!
