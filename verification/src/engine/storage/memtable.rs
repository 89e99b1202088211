//! The memtable: the newest writes, sorted in memory.
//!
//! All writes go to the memtable first, after they were logged. When it is full it
//! becomes immutable and is written out as a table.
use crate::engine::error::StorageError;
use crate::engine::order;
use crate::engine::storage::sstable::layout;
use crate::engine::util::share;
use crossbeam_skiplist::SkipMap;
use std::sync::Arc;
use vstd::prelude::*;

verus! {

/// The largest size of a memtable unless another is given: 256 MiB.
pub const DEFAULT_MEMTABLE_SIZE: usize = 268435456;

/// The bytes that an entry counts besides its key and its value.
pub const ENTRY_OVERHEAD: usize = 40;

/// An entry of the memtable.
#[derive(Debug)]
pub struct Entry {
    /// The value; an entry without one is a tombstone.
    pub value: Option<Vec<u8>>,
    /// The order of the write among all writes.
    pub timestamp: u64,
}

/// What an entry says.
#[verifier::ext_equal]
pub struct EntryView {
    pub value: Option<Seq<u8>>,
    pub timestamp: u64,
}

impl View for Entry {
    type V = EntryView;

    open spec fn view(&self) -> EntryView {
        EntryView { value: layout::value_view(self.value), timestamp: self.timestamp }
    }
}

impl EntryView {
    /// The bytes that the entry counts, without its key.
    pub open spec fn size(self) -> int {
        ENTRY_OVERHEAD + match self.value {
            Some(v) => v.len() as int,
            None => 0,
        }
    }
}

impl Clone for Entry {
    fn clone(&self) -> (r: Self)
        ensures
            r@ == self@,
    {
        Entry { value: layout::copy_value(&self.value), timestamp: self.timestamp }
    }
}

impl Entry {
    /// An entry with a value.
    pub fn new(value: Vec<u8>, timestamp: u64) -> (r: Self)
        ensures
            r@ == (EntryView { value: Some(value@), timestamp }),
    {
        Entry { value: Some(value), timestamp }
    }

    /// A tombstone.
    pub fn tombstone(timestamp: u64) -> (r: Self)
        ensures
            r@ == (EntryView { value: None, timestamp }),
    {
        Entry { value: None, timestamp }
    }

    /// Whether the entry is a tombstone.
    pub fn is_tombstone(&self) -> (r: bool)
        ensures
            r == (self@.value is None),
    {
        self.value.is_none()
    }

    /// The bytes that the entry counts, without its key.
    pub fn size(&self) -> (r: usize)
        requires
            self@.size() <= usize::MAX,
        ensures
            r == self@.size(),
    {
        match &self.value {
            Some(v) => ENTRY_OVERHEAD + v.len(),
            None => ENTRY_OVERHEAD,
        }
    }
}

/// The entries of a memtable, by key.
pub type Entries = Map<Seq<u8>, EntryView>;

/// A `crossbeam_skiplist::SkipMap`: a map sorted by its keys.
#[verifier::external_type_specification]
#[verifier::external_body]
#[verifier::reject_recursive_types(K)]
#[verifier::reject_recursive_types(V)]
pub struct ExSkipMap<K, V>(crossbeam_skiplist::SkipMap<K, V>);

/// The entries of a skip list.
pub uninterp spec fn skip_entries(map: SkipMap<Vec<u8>, Entry>) -> Map<Seq<u8>, EntryView>;

/// Calls `SkipMap::new`: the list is empty.
#[verifier::external_body]
fn skip_new() -> (r: SkipMap<Vec<u8>, Entry>)
    ensures
        skip_entries(r) == Entries::empty(),
{
    SkipMap::new()
}

/// Calls `SkipMap::get`: the entry with the key, if there is one.
#[verifier::external_body]
fn skip_get(map: &SkipMap<Vec<u8>, Entry>, key: &[u8]) -> (r: Option<Entry>)
    ensures
        match r {
            Some(entry) => skip_entries(*map).dom().contains(key@) && entry@ == skip_entries(
                *map,
            )[key@],
            None => !skip_entries(*map).dom().contains(key@),
        },
{
    map.get(key).map(|e| e.value().clone())
}

/// Calls `SkipMap::insert`: the key gets the entry, in place of the one that it had.
#[verifier::external_body]
fn skip_insert(map: &mut SkipMap<Vec<u8>, Entry>, key: Vec<u8>, entry: Entry)
    ensures
        skip_entries(*final(map)) == skip_entries(*old(map)).insert(key@, entry@),
{
    map.insert(key, entry);
}

/// Calls `SkipMap::iter`: every entry comes once, in the order of the keys.
#[verifier::external_body]
fn skip_list(map: &SkipMap<Vec<u8>, Entry>) -> (r: Vec<(Vec<u8>, Entry)>)
    ensures
        lists(pair_views(r@), skip_entries(*map)),
{
    map.iter().map(|e| (e.key().clone(), e.value().clone())).collect()
}

/// The views of some keys and entries.
pub open spec fn pair_views(pairs: Seq<(Vec<u8>, Entry)>) -> Seq<(Seq<u8>, EntryView)> {
    Seq::new(pairs.len(), |i: int| (pairs[i].0@, pairs[i].1@))
}

/// Whether `pairs` are the entries in the order of their keys.
pub open spec fn lists(pairs: Seq<(Seq<u8>, EntryView)>, entries: Entries) -> bool {
    &&& order::strictly_sorted(Seq::new(pairs.len(), |i: int| pairs[i].0))
    &&& forall|i: int|
        0 <= i < pairs.len() ==> entries.dom().contains((#[trigger] pairs[i]).0)
            && entries[pairs[i].0] == pairs[i].1
    &&& forall|key: Seq<u8>|
        entries.dom().contains(key) ==> exists|i: int|
            0 <= i < pairs.len() && (#[trigger] pairs[i]).0 == key
}

/// The bytes that some entries count.
pub open spec fn total_size(entries: Entries) -> int
    decreases entries.dom().len(),
    when entries.dom().finite()
{
    if entries.dom().len() == 0 {
        0
    } else {
        let key = entries.dom().choose();
        total_size(entries.remove(key)) + key.len() + entries[key].size()
    }
}

/// An entry counts its own bytes, whichever it is.
proof fn lemma_total_remove(entries: Entries, key: Seq<u8>)
    requires
        entries.dom().finite(),
        entries.dom().contains(key),
    ensures
        total_size(entries) == total_size(entries.remove(key)) + key.len() + entries[key].size(),
    decreases entries.dom().len(),
{
    let first = entries.dom().choose();
    assert(entries.dom().contains(first));
    if first != key {
        lemma_total_remove(entries.remove(first), key);
        lemma_total_remove(entries.remove(key), first);
        assert(entries.remove(first).remove(key) =~= entries.remove(key).remove(first));
    }
}

proof fn lemma_total_nonnegative(entries: Entries)
    requires
        entries.dom().finite(),
    ensures
        0 <= total_size(entries),
    decreases entries.dom().len(),
{
    if entries.dom().len() > 0 {
        let first = entries.dom().choose();
        lemma_total_nonnegative(entries.remove(first));
    }
}

/// How an insert changes the bytes.
proof fn lemma_total_insert(entries: Entries, key: Seq<u8>, entry: EntryView)
    requires
        entries.dom().finite(),
    ensures
        total_size(entries.insert(key, entry)) == total_size(entries.remove(key)) + key.len()
            + entry.size(),
        entries.dom().contains(key) ==> total_size(entries) == total_size(entries.remove(key))
            + key.len() + entries[key].size(),
        !entries.dom().contains(key) ==> entries.remove(key) == entries,
        0 <= total_size(entries.remove(key)),
{
    let next = entries.insert(key, entry);
    lemma_total_remove(next, key);
    assert(next.remove(key) =~= entries.remove(key));
    if entries.dom().contains(key) {
        lemma_total_remove(entries, key);
    } else {
        assert(entries.remove(key) =~= entries);
    }
    lemma_total_nonnegative(entries.remove(key));
}

/// What a memtable holds.
#[verifier::ext_equal]
pub struct MemView {
    pub entries: Entries,
    pub max_size: usize,
    /// The timestamp that the next write gets.
    pub next_timestamp: u64,
}

/// The timestamp after another; there is none after the last.
pub open spec fn after(timestamp: u64) -> u64 {
    if timestamp == u64::MAX {
        u64::MAX
    } else {
        (timestamp + 1) as u64
    }
}

impl MemView {
    /// The bytes that the entries count.
    pub open spec fn size(self) -> int {
        total_size(self.entries)
    }

    /// Finitely many entries, and no more bytes than allowed.
    pub open spec fn wf(self) -> bool {
        self.entries.dom().finite() && self.size() <= self.max_size
    }

    /// Whether an entry has no room any more. Room is needed for the whole entry,
    /// also where it replaces another one.
    pub open spec fn lacks_room(self, key: Seq<u8>, entry: EntryView) -> bool {
        self.size() + key.len() + entry.size() > self.max_size
    }

    /// The error of a write that has no room.
    pub open spec fn full(self) -> StorageError {
        StorageError::MemTableFull { current: self.size() as usize, max: self.max_size }
    }

    /// The memtable with an entry for a key.
    pub open spec fn with_entry(self, key: Seq<u8>, entry: EntryView) -> MemView {
        MemView { entries: self.entries.insert(key, entry), ..self }
    }

    /// The memtable after a write that takes the next timestamp.
    pub open spec fn written(self, key: Seq<u8>, value: Option<Seq<u8>>) -> MemView {
        MemView {
            next_timestamp: (self.next_timestamp + 1) as u64,
            ..self.with_entry(key, EntryView { value, timestamp: self.next_timestamp })
        }
    }

    /// The memtable after a write that has its timestamp: it takes effect unless
    /// the key has an entry that is as new or newer.
    pub open spec fn applied(self, key: Seq<u8>, entry: EntryView) -> MemView {
        if self.entries.dom().contains(key) && self.entries[key].timestamp >= entry.timestamp {
            self
        } else {
            MemView {
                next_timestamp: if self.next_timestamp <= entry.timestamp {
                    after(entry.timestamp)
                } else {
                    self.next_timestamp
                },
                ..self.with_entry(key, entry)
            }
        }
    }

    /// The entry of a key.
    pub open spec fn lookup(self, key: Seq<u8>) -> Option<EntryView> {
        if self.entries.dom().contains(key) {
            Some(self.entries[key])
        } else {
            None
        }
    }
}

impl MemView {
    /// Whether the next write is newer than every entry.
    pub open spec fn fresh(self) -> bool {
        forall|key: Seq<u8>| #[trigger]
            self.entries.dom().contains(key) ==> self.entries[key].timestamp < self.next_timestamp
    }
}

/// Applying a write again changes nothing.
pub proof fn law_apply_twice(mem: MemView, key: Seq<u8>, entry: EntryView)
    ensures
        mem.applied(key, entry).applied(key, entry) == mem.applied(key, entry),
{
}

/// Two writes come to the same in either order, unless both are of one key and have
/// the same timestamp.
pub proof fn law_apply_in_any_order(
    mem: MemView,
    key_a: Seq<u8>,
    a: EntryView,
    key_b: Seq<u8>,
    b: EntryView,
)
    requires
        key_a == key_b ==> a.timestamp != b.timestamp,
    ensures
        mem.applied(key_a, a).applied(key_b, b) == mem.applied(key_b, b).applied(key_a, a),
{
    assert(mem.applied(key_a, a).applied(key_b, b).entries =~= mem.applied(key_b, b).applied(
        key_a,
        a,
    ).entries);
}

/// The next timestamp stays above those of all entries.
pub proof fn law_apply_keeps_fresh(mem: MemView, key: Seq<u8>, entry: EntryView)
    requires
        mem.fresh(),
        entry.timestamp < u64::MAX,
    ensures
        mem.applied(key, entry).fresh(),
        mem.applied(key, entry).next_timestamp >= mem.next_timestamp,
{
}

/// The newest writes, sorted in memory.
pub struct MemTable {
    data: SkipMap<Vec<u8>, Entry>,
    size: usize,
    max_size: usize,
    next_timestamp: u64,
    entry_count: usize,
}

impl View for MemTable {
    type V = MemView;

    closed spec fn view(&self) -> MemView {
        MemView {
            entries: skip_entries(self.data),
            max_size: self.max_size,
            next_timestamp: self.next_timestamp,
        }
    }
}

impl MemTable {
    /// The counters are those of the entries.
    pub closed spec fn counted(&self) -> bool {
        self.size == total_size(self@.entries) && self.entry_count == self@.entries.dom().len()
    }

    /// What holds of every memtable.
    pub open spec fn inv(&self) -> bool {
        self@.wf() && self.counted()
    }

    /// An empty memtable of the default size.
    pub fn new() -> (r: Self)
        ensures
            r.inv(),
            r@ == (MemView {
                entries: Map::empty(),
                max_size: DEFAULT_MEMTABLE_SIZE,
                next_timestamp: 1,
            }),
    {
        Self::with_capacity(DEFAULT_MEMTABLE_SIZE)
    }

    /// An empty memtable of a given size, whose first write gets timestamp 1.
    pub fn with_capacity(max_size: usize) -> (r: Self)
        ensures
            r.inv(),
            r@ == (MemView { entries: Map::empty(), max_size, next_timestamp: 1 }),
    {
        Self::starting_at(max_size, 1)
    }

    /// An empty memtable whose first write gets a given timestamp.
    pub fn starting_at(max_size: usize, next_timestamp: u64) -> (r: Self)
        ensures
            r.inv(),
            r@ == (MemView { entries: Map::empty(), max_size, next_timestamp }),
    {
        MemTable { data: skip_new(), size: 0, max_size, next_timestamp, entry_count: 0 }
    }

    /// Whether an entry of `key_len + value_len` bytes has no room any more.
    fn lacks(&self, key_len: usize, value_len: usize) -> (r: bool)
        requires
            self.inv(),
        ensures
            r == (self@.size() + key_len + value_len + ENTRY_OVERHEAD > self@.max_size),
    {
        let room: usize = self.max_size - self.size;
        key_len > room || value_len > room - key_len || ENTRY_OVERHEAD > room - key_len - value_len
    }

    /// Puts an entry that has room in its place.
    fn place(&mut self, key: Vec<u8>, entry: Entry)
        requires
            old(self).inv(),
            !old(self)@.lacks_room(key@, entry@),
        ensures
            final(self).inv(),
            final(self)@ == old(self)@.with_entry(key@, entry@),
    {
        let ghost before = self@.entries;
        let key_len: usize = key.len();
        proof {
            lemma_total_insert(before, key@, entry@);
        }
        let added: usize = key_len + entry.size();
        match skip_get(&self.data, key.as_slice()) {
            Some(old_entry) => {
                let removed: usize = old_entry.size() + key_len;
                self.size = self.size - removed;
            },
            None => {
                assert(before.dom().len() < self.max_size) by {
                    lemma_count_bound(before);
                }
                self.entry_count = self.entry_count + 1;
            },
        }
        skip_insert(&mut self.data, key, entry);
        self.size = self.size + added;
    }

    /// Writes a key; the write gets the next timestamp, which is returned.
    pub fn insert(&mut self, key: Vec<u8>, value: Vec<u8>) -> (r: Result<u64, StorageError>)
        requires
            old(self).inv(),
            old(self)@.next_timestamp < u64::MAX,
        ensures
            final(self).inv(),
            ({
                let entry = EntryView {
                    value: Some(value@),
                    timestamp: old(self)@.next_timestamp,
                };
                if old(self)@.lacks_room(key@, entry) {
                    r == Err::<u64, StorageError>(old(self)@.full()) && final(self)@ == old(self)@
                } else {
                    r == Ok::<u64, StorageError>(old(self)@.next_timestamp) && final(self)@
                        == old(self)@.written(key@, Some(value@))
                }
            }),
    {
        if self.lacks(key.len(), value.len()) {
            return Err(StorageError::MemTableFull { current: self.size, max: self.max_size });
        }
        let timestamp: u64 = self.next_timestamp;
        self.place(key, Entry::new(value, timestamp));
        self.next_timestamp = timestamp + 1;
        Ok(timestamp)
    }

    /// Deletes a key; the tombstone gets the next timestamp, which is returned.
    pub fn delete(&mut self, key: Vec<u8>) -> (r: Result<u64, StorageError>)
        requires
            old(self).inv(),
            old(self)@.next_timestamp < u64::MAX,
        ensures
            final(self).inv(),
            ({
                let entry = EntryView { value: None, timestamp: old(self)@.next_timestamp };
                if old(self)@.lacks_room(key@, entry) {
                    r == Err::<u64, StorageError>(old(self)@.full()) && final(self)@ == old(self)@
                } else {
                    r == Ok::<u64, StorageError>(old(self)@.next_timestamp) && final(self)@
                        == old(self)@.written(key@, None)
                }
            }),
    {
        if self.lacks(key.len(), 0) {
            return Err(StorageError::MemTableFull { current: self.size, max: self.max_size });
        }
        let timestamp: u64 = self.next_timestamp;
        self.place(key, Entry::tombstone(timestamp));
        self.next_timestamp = timestamp + 1;
        Ok(timestamp)
    }

    /// Applies an entry that has its timestamp.
    fn apply(&mut self, key: Vec<u8>, entry: Entry) -> (r: Result<(), StorageError>)
        requires
            old(self).inv(),
        ensures
            final(self).inv(),
            if old(self)@.lacks_room(key@, entry@) {
                r == Err::<(), StorageError>(old(self)@.full()) && final(self)@ == old(self)@
            } else {
                r == Ok::<(), StorageError>(()) && final(self)@ == old(self)@.applied(
                    key@,
                    entry@,
                )
            },
    {
        let value_len: usize = match &entry.value {
            Some(v) => v.len(),
            None => 0,
        };
        if self.lacks(key.len(), value_len) {
            return Err(StorageError::MemTableFull { current: self.size, max: self.max_size });
        }
        let timestamp: u64 = entry.timestamp;
        if let Some(old_entry) = skip_get(&self.data, key.as_slice()) {
            if old_entry.timestamp >= timestamp {
                return Ok(());
            }
        }
        self.place(key, entry);
        if self.next_timestamp <= timestamp {
            self.next_timestamp = timestamp.saturating_add(1);
        }
        Ok(())
    }

    /// Applies a write that has its timestamp.
    pub fn insert_with_timestamp(&mut self, key: Vec<u8>, value: Vec<u8>, timestamp: u64) -> (r: Result<
        (),
        StorageError,
    >)
        requires
            old(self).inv(),
        ensures
            final(self).inv(),
            ({
                let entry = EntryView { value: Some(value@), timestamp };
                if old(self)@.lacks_room(key@, entry) {
                    r == Err::<(), StorageError>(old(self)@.full()) && final(self)@ == old(self)@
                } else {
                    r == Ok::<(), StorageError>(()) && final(self)@ == old(self)@.applied(
                        key@,
                        entry,
                    )
                }
            }),
    {
        self.apply(key, Entry::new(value, timestamp))
    }

    /// Applies a delete that has its timestamp.
    pub fn delete_with_timestamp(&mut self, key: Vec<u8>, timestamp: u64) -> (r: Result<
        (),
        StorageError,
    >)
        requires
            old(self).inv(),
        ensures
            final(self).inv(),
            ({
                let entry = EntryView { value: None, timestamp };
                if old(self)@.lacks_room(key@, entry) {
                    r == Err::<(), StorageError>(old(self)@.full()) && final(self)@ == old(self)@
                } else {
                    r == Ok::<(), StorageError>(()) && final(self)@ == old(self)@.applied(
                        key@,
                        entry,
                    )
                }
            }),
    {
        self.apply(key, Entry::tombstone(timestamp))
    }

    /// Reserves the next timestamp: no other write gets it.
    pub fn reserve_timestamp(&mut self) -> (r: u64)
        requires
            old(self).inv(),
            old(self)@.next_timestamp < u64::MAX,
        ensures
            final(self).inv(),
            r == old(self)@.next_timestamp,
            final(self)@ == (MemView { next_timestamp: (r + 1) as u64, ..old(self)@ }),
    {
        let timestamp: u64 = self.next_timestamp;
        self.next_timestamp = timestamp + 1;
        timestamp
    }

    /// The entry of a key; it may be a tombstone.
    pub fn get(&self, key: &[u8]) -> (r: Option<Entry>)
        ensures
            self@.lookup(key@) == (match r {
                Some(entry) => Some(entry@),
                None => None,
            }),
    {
        skip_get(&self.data, key)
    }

    /// Whether the memtable is full.
    pub fn is_full(&self) -> (r: bool)
        requires
            self.inv(),
        ensures
            r == (self@.size() >= self@.max_size),
    {
        self.size >= self.max_size
    }

    /// The bytes that the entries count.
    pub fn size(&self) -> (r: usize)
        requires
            self.inv(),
        ensures
            r == self@.size(),
    {
        self.size
    }

    /// The bytes that the entries may count.
    pub fn max_size(&self) -> (r: usize)
        ensures
            r == self@.max_size,
    {
        self.max_size
    }

    /// The number of entries.
    pub fn len(&self) -> (r: usize)
        requires
            self.inv(),
        ensures
            r == self@.entries.dom().len(),
    {
        self.entry_count
    }

    /// Whether there are no entries.
    pub fn is_empty(&self) -> (r: bool)
        requires
            self.inv(),
        ensures
            r == (self@.entries == Map::<Seq<u8>, EntryView>::empty()),
    {
        proof {
            if self@.entries.dom().len() == 0 {
                assert(self@.entries.dom() =~= Set::empty());
                assert(self@.entries =~= Map::empty());
            }
        }
        self.entry_count == 0
    }

    /// All entries in the order of their keys.
    pub fn iter(&self) -> (r: Vec<(Vec<u8>, Entry)>)
        ensures
            lists(pair_views(r@), self@.entries),
    {
        skip_list(&self.data)
    }

    /// The timestamp that the next write gets.
    pub fn current_timestamp(&self) -> (r: u64)
        ensures
            r == self@.next_timestamp,
    {
        self.next_timestamp
    }
}

impl Default for MemTable {
    fn default() -> (r: Self)
        ensures
            r.inv(),
            r@ == (MemView {
                entries: Map::empty(),
                max_size: DEFAULT_MEMTABLE_SIZE,
                next_timestamp: 1,
            }),
    {
        Self::new()
    }
}

/// There are no more entries than bytes.
proof fn lemma_count_bound(entries: Entries)
    requires
        entries.dom().finite(),
    ensures
        ENTRY_OVERHEAD * entries.dom().len() <= total_size(entries),
    decreases entries.dom().len(),
{
    if entries.dom().len() > 0 {
        let first = entries.dom().choose();
        lemma_count_bound(entries.remove(first));
    }
}

/// A memtable that is not written to any more.
pub struct ImmutableMemTable {
    inner: Arc<MemTable>,
}

impl View for ImmutableMemTable {
    type V = MemView;

    closed spec fn view(&self) -> MemView {
        self.inner@
    }
}

impl ImmutableMemTable {
    /// What holds of every immutable memtable.
    pub closed spec fn inv(&self) -> bool {
        self.inner.inv()
    }

    /// Makes a memtable immutable.
    pub fn from_memtable(memtable: MemTable) -> (r: Self)
        requires
            memtable.inv(),
        ensures
            r.inv(),
            r@ == memtable@,
    {
        ImmutableMemTable { inner: Arc::new(memtable) }
    }

    /// The entry of a key; it may be a tombstone.
    pub fn get(&self, key: &[u8]) -> (r: Option<Entry>)
        ensures
            self@.lookup(key@) == (match r {
                Some(entry) => Some(entry@),
                None => None,
            }),
    {
        self.inner.get(key)
    }

    /// All entries in the order of their keys.
    pub fn iter(&self) -> (r: Vec<(Vec<u8>, Entry)>)
        ensures
            lists(pair_views(r@), self@.entries),
    {
        self.inner.iter()
    }

    /// The bytes that the entries count.
    pub fn size(&self) -> (r: usize)
        requires
            self.inv(),
        ensures
            r == self@.size(),
    {
        self.inner.size()
    }

    /// The number of entries.
    pub fn len(&self) -> (r: usize)
        requires
            self.inv(),
        ensures
            r == self@.entries.dom().len(),
    {
        self.inner.len()
    }

    /// Whether there are no entries.
    pub fn is_empty(&self) -> (r: bool)
        requires
            self.inv(),
        ensures
            r == (self@.entries == Map::<Seq<u8>, EntryView>::empty()),
    {
        self.inner.is_empty()
    }
}

/// Whether two memtables have no key in common.
pub open spec fn apart(a: Entries, b: Entries) -> bool {
    forall|key: Seq<u8>| #[trigger] a.dom().contains(key) ==> !b.dom().contains(key)
}

impl Clone for ImmutableMemTable {
    fn clone(&self) -> (r: Self)
        ensures
            r@ == self@,
            self.inv() ==> r.inv(),
    {
        ImmutableMemTable { inner: share::share(&self.inner) }
    }
}

/// What an entry says is what its fields hold.
pub proof fn law_entry_view(e: Entry)
    ensures
        e@.timestamp == e.timestamp,
        e.value is None <==> e@.value is None,
        e.value matches Some(v) ==> e@.value == Some(v@),
{
}

/// An entry counts 40 bytes and those of its value.
pub proof fn law_entry_size(e: EntryView)
    ensures
        e.value is None ==> e.size() == 40,
        e.value matches Some(v) ==> e.size() == 40 + v.len(),
{
}

/// What is found of a key is what the memtable holds for it.
pub proof fn law_lookup(mem: MemView, key: Seq<u8>)
    ensures
        mem.lookup(key) is Some <==> mem.entries.dom().contains(key),
        mem.lookup(key) matches Some(e) ==> mem.entries[key] == e,
{
}

/// After a write the key has its value and the timestamp that was next, the next one is
/// one larger, and every other key has what it had.
pub proof fn law_written(mem: MemView, key: Seq<u8>, value: Option<Seq<u8>>, other: Seq<u8>)
    requires
        mem.next_timestamp < u64::MAX,
    ensures
        ({
            let after = mem.written(key, value);
            &&& after.lookup(key) matches Some(e) && e.value == value && e.timestamp
                == mem.next_timestamp
            &&& after.next_timestamp == mem.next_timestamp + 1
            &&& after.max_size == mem.max_size
            &&& other != key ==> after.lookup(other) == mem.lookup(other)
        }),
{
}

/// A write that has its timestamp takes effect if and only if the key has no entry that
/// is as new or newer. Every other key has what it had, and the next timestamp is
/// larger than that of a write that took effect, as far as there is a larger one.
pub proof fn law_applied(mem: MemView, key: Seq<u8>, entry: EntryView, other: Seq<u8>)
    ensures
        ({
            let after = mem.applied(key, entry);
            &&& (mem.lookup(key) matches Some(e) ==> e.timestamp < entry.timestamp)
                ==> after.lookup(key) == Some(entry)
            &&& (mem.lookup(key) matches Some(e) && e.timestamp >= entry.timestamp) ==> after
                == mem
            &&& other != key ==> after.lookup(other) == mem.lookup(other)
            &&& after.max_size == mem.max_size
            &&& after.next_timestamp >= mem.next_timestamp
            &&& mem.lookup(key) is None && mem.next_timestamp > entry.timestamp
                ==> after.next_timestamp == mem.next_timestamp
            &&& mem.lookup(key) is None && mem.next_timestamp <= entry.timestamp < u64::MAX
                ==> after.next_timestamp == entry.timestamp + 1
        }),
{
}

/// A write has room as long as its key, its value and 40 bytes fit beside what is there;
/// the error of one that has none names both sizes.
pub proof fn law_room(mem: MemView, key: Seq<u8>, entry: EntryView)
    requires
        mem.wf(),
    ensures
        entry.value matches Some(v) ==> (mem.lacks_room(key, entry) <==> total_size(mem.entries)
            + key.len() + v.len() + 40 > mem.max_size),
        entry.value is None ==> (mem.lacks_room(key, entry) <==> total_size(mem.entries)
            + key.len() + 40 > mem.max_size),
        mem.full() matches StorageError::MemTableFull { current, max } && current == total_size(
            mem.entries,
        ) && max == mem.max_size,
{
    lemma_total_nonnegative(mem.entries);
}

/// The size of a memtable: nothing without entries, and with each new key the bytes of
/// that key and of its entry. An entry that takes the place of another counts instead of
/// it.
pub proof fn law_size(entries: Entries, key: Seq<u8>, entry: EntryView)
    requires
        entries.dom().finite(),
    ensures
        total_size(Entries::empty()) == 0,
        !entries.dom().contains(key) ==> total_size(entries.insert(key, entry)) == total_size(
            entries,
        ) + key.len() + entry.size(),
        entries.dom().contains(key) ==> total_size(entries.insert(key, entry)) == total_size(
            entries,
        ) - entries[key].size() + entry.size(),
{
    lemma_total_insert(entries, key, entry);
}

/// The list of a memtable's entries has each key of it once, with its entry, in the
/// order of the keys.
pub proof fn law_lists(pairs: Seq<(Seq<u8>, EntryView)>, entries: Entries, key: Seq<u8>, i: int, j: int)
    requires
        lists(pairs, entries),
        0 <= i < j < pairs.len(),
    ensures
        order::lex_lt(pairs[i].0, pairs[j].0),
        entries.dom().contains(pairs[i].0) && entries[pairs[i].0] == pairs[i].1,
        entries.dom().contains(pairs[j].0) && entries[pairs[j].0] == pairs[j].1,
        entries.dom().contains(key) ==> pairs.contains((key, entries[key])),
{
    let keys = Seq::new(pairs.len(), |k: int| pairs[k].0);
    assert(order::lex_lt(keys[i], keys[j]));
    if entries.dom().contains(key) {
        let k = choose|k: int| 0 <= k < pairs.len() && (#[trigger] pairs[k]).0 == key;
        assert(pairs[k] == (key, entries[key]));
    }
}

/// What keys and entries are is what each pair of them is, in their order.
pub proof fn law_pair_views(pairs: Seq<(Vec<u8>, Entry)>, i: int)
    ensures
        pair_views(pairs).len() == pairs.len(),
        0 <= i < pairs.len() ==> pair_views(pairs)[i].0 == pairs[i].0@ && pair_views(pairs)[i].1
            == pairs[i].1@,
{
}

} // verus!
