//! Data blocks and the cache that keeps recently read ones.
use crate::engine::order;
use crate::engine::storage::sstable::layout;
use crate::engine::storage::sstable::layout::Record;
use crate::engine::util::share;
use lru::LruCache;
use std::sync::Arc;
use vstd::prelude::*;

verus! {

/// The records that stand one behind the other from `at` on, up to the first
/// bytes that are no record.
pub open spec fn parsed(data: Seq<u8>, at: int) -> Seq<layout::RecordView>
    decreases data.len() - at,
{
    if at < 0 || at >= data.len() {
        Seq::empty()
    } else {
        match layout::decoded_record(data.skip(at)) {
            Some((record, size)) => if size <= 0 {
                Seq::empty()
            } else {
                seq![record] + parsed(data, at + size)
            },
            None => Seq::empty(),
        }
    }
}

/// The first record with a given key.
pub open spec fn find_key(records: Seq<layout::RecordView>, key: Seq<u8>) -> Option<
    layout::RecordView,
>
    decreases records.len(),
{
    if records.len() == 0 {
        None
    } else if records[0].key == key {
        Some(records[0])
    } else {
        find_key(records.skip(1), key)
    }
}

/// The views of some records.
pub open spec fn record_views(records: Seq<Record>) -> Seq<layout::RecordView> {
    Seq::new(records.len(), |i: int| records[i]@)
}

/// A data block and the records in it.
#[derive(Debug)]
pub struct Block {
    /// The bytes of the block.
    pub data: Vec<u8>,
    records: Vec<Record>,
}

/// What a block holds.
#[verifier::ext_equal]
pub struct BlockView {
    pub data: Seq<u8>,
    pub records: Seq<layout::RecordView>,
}

impl View for Block {
    type V = BlockView;

    closed spec fn view(&self) -> BlockView {
        BlockView { data: self.data@, records: record_views(self.records@) }
    }
}

/// The block that some bytes are.
pub open spec fn block_of(data: Seq<u8>) -> BlockView {
    BlockView { data, records: parsed(data, 0) }
}

impl Block {
    /// Reads the records of a block; bytes behind them are kept but not read.
    pub fn parse(data: Vec<u8>) -> (r: Option<Self>)
        ensures
            r matches Some(block) && block@ == block_of(data@),
    {
        let mut records: Vec<Record> = Vec::new();
        let mut offset: usize = 0;
        assert(record_views(records@) + parsed(data@, 0) =~= parsed(data@, 0));
        while offset < data.len()
            invariant_except_break
                parsed(data@, 0) == record_views(records@) + parsed(data@, offset as int),
            invariant
                offset <= data@.len(),
            ensures
                parsed(data@, 0) == record_views(records@),
            decreases data@.len() - offset,
        {
            let rest = vstd::slice::slice_subrange(data.as_slice(), offset, data.len());
            assert(rest@ =~= data@.skip(offset as int));
            let ghost before = record_views(records@);
            match Record::decode(rest) {
                Some((record, size)) => {
                    proof {
                        let tail = parsed(data@, offset + size);
                        assert(before + (seq![record@] + tail) =~= before.push(record@) + tail);
                    }
                    records.push(record);
                    assert(record_views(records@) =~= before.push(record@));
                    offset = offset + size;
                },
                None => {
                    assert(before + Seq::<layout::RecordView>::empty() =~= before);
                    break;
                },
            }
        }
        Some(Block { data, records })
    }

    /// The records of the block.
    pub fn iter(&self) -> (r: &Vec<Record>)
        ensures
            record_views(r@) == self@.records,
    {
        &self.records
    }

    /// The first record with a given key.
    pub fn get(&self, key: &[u8]) -> (r: Option<&Record>)
        ensures
            find_key(self@.records, key@) == (match r {
                Some(record) => Some(record@),
                None => None,
            }),
    {
        let ghost all = self@.records;
        let mut i: usize = 0;
        assert(all.skip(0) =~= all);
        while i < self.records.len()
            invariant
                i <= self.records@.len(),
                all == record_views(self.records@),
                find_key(all, key@) == find_key(all.skip(i as int), key@),
            decreases self.records@.len() - i,
        {
            let record = &self.records[i];
            assert(all.skip(i as int)[0] == record@);
            if order::bytes_equal(record.key.as_slice(), key) {
                return Some(record);
            }
            assert(all.skip(i as int).skip(1) =~= all.skip(i + 1));
            i = i + 1;
        }
        None
    }

    /// The number of records.
    pub fn len(&self) -> (r: usize)
        ensures
            r == self@.records.len(),
    {
        self.records.len()
    }

    /// Whether the block has no records.
    pub fn is_empty(&self) -> (r: bool)
        ensures
            r == (self@.records.len() == 0),
    {
        self.records.is_empty()
    }

    /// The size of the block's bytes.
    pub fn data_size(&self) -> (r: usize)
        ensures
            r == self@.data.len(),
    {
        self.data.len()
    }
}

/// What names a block: the path of its table and its offset there.
#[derive(Clone, Debug, PartialEq, Eq, Hash)]
pub struct BlockCacheKey {
    pub path: String,
    pub offset: u64,
}

impl View for BlockCacheKey {
    type V = (Seq<char>, u64);

    open spec fn view(&self) -> (Seq<char>, u64) {
        (self.path@, self.offset)
    }
}

/// An entry of the cache: its key and its block.
pub type CacheEntry = ((Seq<char>, u64), BlockView);

/// The hasher of a `lru::LruCache`.
#[verifier::external_type_specification]
#[verifier::external_body]
pub struct ExLruHasher(lru::DefaultHasher);

/// A `lru::LruCache`: a map that drops its least recently used entry when it is
/// full.
#[verifier::external_type_specification]
#[verifier::external_body]
#[verifier::reject_recursive_types(K)]
#[verifier::reject_recursive_types(V)]
#[verifier::reject_recursive_types(S)]
pub struct ExLruCache<K, V, S>(lru::LruCache<K, V, S>);

/// The entries of a cache, the most recently used first.
pub uninterp spec fn lru_entries(cache: LruCache<(String, u64), Arc<Block>>) -> Seq<CacheEntry>;

/// The number of entries that a cache holds at most.
pub uninterp spec fn lru_capacity(cache: LruCache<(String, u64), Arc<Block>>) -> nat;

/// Whether an entry has a given key.
pub open spec fn has_key(entries: Seq<CacheEntry>, key: (Seq<char>, u64)) -> bool {
    exists|i: int| 0 <= i < entries.len() && (#[trigger] entries[i]).0 == key
}

/// The place of an entry with a given key.
pub open spec fn place_of(entries: Seq<CacheEntry>, key: (Seq<char>, u64)) -> int {
    choose|i: int| 0 <= i < entries.len() && (#[trigger] entries[i]).0 == key
}

/// Calls `LruCache::new`: the cache is empty and holds at most `capacity` entries.
#[verifier::external_body]
fn lru_new(capacity: usize) -> (r: LruCache<(String, u64), Arc<Block>>)
    requires
        capacity > 0,
    ensures
        lru_entries(r) == Seq::<CacheEntry>::empty(),
        lru_capacity(r) == capacity,
{
    LruCache::new(std::num::NonZeroUsize::new(capacity).unwrap())
}

/// Calls `LruCache::get`: the entry with the key, where there is one, becomes the
/// most recently used one and its block is returned.
#[verifier::external_body]
fn lru_get(cache: &mut LruCache<(String, u64), Arc<Block>>, key: &(String, u64)) -> (r: Option<
    Arc<Block>,
>)
    ensures
        lru_capacity(*final(cache)) == lru_capacity(*old(cache)),
        match r {
            Some(block) => exists|i: int|
                0 <= i < lru_entries(*old(cache)).len() && #[trigger] lru_entries(*old(cache))[i]
                    == ((key.0@, key.1), block@) && lru_entries(*final(cache)) == seq![
                    lru_entries(*old(cache))[i],
                ] + lru_entries(*old(cache)).remove(i),
            None => !has_key(lru_entries(*old(cache)), (key.0@, key.1)) && lru_entries(
                *final(cache),
            ) == lru_entries(*old(cache)),
        },
{
    cache.get(key).cloned()
}

/// Calls `LruCache::push`: the new entry becomes the most recently used one. An
/// entry with the same key leaves, or else, where the cache is full, the least
/// recently used one; the entry that left is returned.
#[verifier::external_body]
fn lru_push(
    cache: &mut LruCache<(String, u64), Arc<Block>>,
    key: (String, u64),
    block: Arc<Block>,
) -> (r: Option<((String, u64), Arc<Block>)>)
    ensures
        lru_capacity(*final(cache)) == lru_capacity(*old(cache)),
        has_key(lru_entries(*old(cache)), (key.0@, key.1)) ==> (r matches Some((k, b))
            && exists|i: int|
            0 <= i < lru_entries(*old(cache)).len() && #[trigger] lru_entries(*old(cache))[i] == (
                (key.0@, key.1),
                b@,
            ) && (k.0@, k.1) == (key.0@, key.1) && lru_entries(*final(cache)) == seq![
                ((key.0@, key.1), block@),
            ] + lru_entries(*old(cache)).remove(i)),
        !has_key(lru_entries(*old(cache)), (key.0@, key.1)) && lru_entries(*old(cache)).len()
            == lru_capacity(*old(cache)) ==> (r matches Some((k, b)) && ((k.0@, k.1), b@)
            == lru_entries(*old(cache)).last() && lru_entries(*final(cache)) == seq![
            ((key.0@, key.1), block@),
        ] + lru_entries(*old(cache)).drop_last()),
        !has_key(lru_entries(*old(cache)), (key.0@, key.1)) && lru_entries(*old(cache)).len()
            != lru_capacity(*old(cache)) ==> (r is None && lru_entries(*final(cache)) == seq![
            ((key.0@, key.1), block@),
        ] + lru_entries(*old(cache))),
{
    cache.push(key, block)
}

/// Calls `LruCache::pop_lru`: the least recently used entry leaves and is returned.
#[verifier::external_body]
fn lru_pop(cache: &mut LruCache<(String, u64), Arc<Block>>) -> (r: Option<
    ((String, u64), Arc<Block>),
>)
    ensures
        lru_capacity(*final(cache)) == lru_capacity(*old(cache)),
        match r {
            Some((k, b)) => lru_entries(*old(cache)).len() > 0 && ((k.0@, k.1), b@)
                == lru_entries(*old(cache)).last() && lru_entries(*final(cache)) == lru_entries(
                *old(cache),
            ).drop_last(),
            None => lru_entries(*old(cache)).len() == 0 && lru_entries(*final(cache))
                == lru_entries(*old(cache)),
        },
{
    cache.pop_lru()
}

/// Calls `LruCache::clear`: all entries leave.
#[verifier::external_body]
fn lru_clear(cache: &mut LruCache<(String, u64), Arc<Block>>)
    ensures
        lru_capacity(*final(cache)) == lru_capacity(*old(cache)),
        lru_entries(*final(cache)) == Seq::<CacheEntry>::empty(),
{
    cache.clear()
}

/// Calls `LruCache::len`: the number of entries.
#[verifier::external_body]
fn lru_len(cache: &LruCache<(String, u64), Arc<Block>>) -> (r: usize)
    ensures
        r == lru_entries(*cache).len(),
{
    cache.len()
}

/// The bytes of the cached blocks.
pub open spec fn total_size(entries: Seq<CacheEntry>) -> int
    decreases entries.len(),
{
    if entries.len() == 0 {
        0
    } else {
        total_size(entries.drop_last()) + entries.last().1.data.len()
    }
}

/// Whether no two entries have the same key.
pub open spec fn distinct_keys(entries: Seq<CacheEntry>) -> bool {
    forall|i: int, j: int|
        0 <= i < j < entries.len() ==> (#[trigger] entries[i]).0 != (#[trigger] entries[j]).0
}

/// The entries that stay when room for `size` bytes is made: least recently used
/// ones leave until there is room, or until none is left.
pub open spec fn fitted(entries: Seq<CacheEntry>, size: int, max: int) -> Seq<CacheEntry>
    decreases entries.len(),
{
    if entries.len() == 0 || total_size(entries) + size <= max {
        entries
    } else {
        fitted(entries.drop_last(), size, max)
    }
}

/// The entries without the one that has a given key.
pub open spec fn without_key(entries: Seq<CacheEntry>, key: (Seq<char>, u64)) -> Seq<CacheEntry>
    decreases entries.len(),
{
    if entries.len() == 0 {
        entries
    } else if entries.last().0 == key {
        without_key(entries.drop_last(), key)
    } else {
        without_key(entries.drop_last(), key).push(entries.last())
    }
}

/// What a cache holds.
#[verifier::ext_equal]
pub struct CacheView {
    /// The most recently used first.
    pub entries: Seq<CacheEntry>,
    /// The number of entries that the cache holds at most.
    pub capacity: nat,
    /// The number of bytes that the cached blocks have at most.
    pub max_size: int,
}

impl CacheView {
    /// No key twice, and no more entries and bytes than allowed.
    pub open spec fn wf(self) -> bool {
        &&& distinct_keys(self.entries)
        &&& self.entries.len() <= self.capacity
        &&& self.capacity > 0
        &&& total_size(self.entries) <= self.max_size
    }

    /// The block with a given key.
    pub open spec fn lookup(self, key: (Seq<char>, u64)) -> Option<BlockView> {
        if has_key(self.entries, key) {
            Some(self.entries[place_of(self.entries, key)].1)
        } else {
            None
        }
    }

    /// The cache after a block was looked up: it is the most recently used one.
    pub open spec fn touched(self, key: (Seq<char>, u64)) -> CacheView {
        match self.lookup(key) {
            Some(block) => CacheView {
                entries: seq![(key, block)] + without_key(self.entries, key),
                ..self
            },
            None => self,
        }
    }

    /// The cache after a block was offered. Room is made for it in any case; it
    /// is taken in if it is not larger than the whole cache.
    pub open spec fn inserted(self, key: (Seq<char>, u64), block: BlockView) -> CacheView {
        let kept = fitted(self.entries, block.data.len() as int, self.max_size);
        let others = if !has_key(kept, key) && kept.len() == self.capacity {
            kept.drop_last()
        } else {
            without_key(kept, key)
        };
        CacheView {
            entries: if block.data.len() <= self.max_size {
                seq![(key, block)] + others
            } else {
                kept
            },
            ..self
        }
    }
}

proof fn lemma_without_absent(entries: Seq<CacheEntry>, key: (Seq<char>, u64))
    requires
        !has_key(entries, key),
    ensures
        without_key(entries, key) == entries,
    decreases entries.len(),
{
    if entries.len() > 0 {
        let init = entries.drop_last();
        assert(entries[entries.len() - 1].0 != key);
        assert forall|i: int| 0 <= i < init.len() implies (#[trigger] init[i]).0 != key by {
            assert(entries[i].0 != key);
        }
        lemma_without_absent(init, key);
        assert(init.push(entries.last()) =~= entries);
    }
}

proof fn lemma_without_at(entries: Seq<CacheEntry>, i: int)
    requires
        distinct_keys(entries),
        0 <= i < entries.len(),
    ensures
        without_key(entries, entries[i].0) == entries.remove(i),
    decreases entries.len(),
{
    let key = entries[i].0;
    let init = entries.drop_last();
    assert forall|a: int, b: int| 0 <= a < b < init.len() implies (#[trigger] init[a]).0 != (
    #[trigger] init[b]).0 by {
        assert(entries[a].0 != entries[b].0);
    }
    if i == entries.len() - 1 {
        assert forall|a: int| 0 <= a < init.len() implies (#[trigger] init[a]).0 != key by {
            assert(entries[a].0 != entries[i].0);
        }
        lemma_without_absent(init, key);
        assert(entries.remove(i) =~= init);
    } else {
        assert(entries[i].0 != entries[entries.len() - 1].0);
        assert(init[i] == entries[i]);
        lemma_without_at(init, i);
        assert(init.remove(i).push(entries.last()) =~= entries.remove(i));
    }
}

proof fn lemma_total_nonnegative(entries: Seq<CacheEntry>)
    ensures
        0 <= total_size(entries),
    decreases entries.len(),
{
    if entries.len() > 0 {
        lemma_total_nonnegative(entries.drop_last());
    }
}

proof fn lemma_total_remove(entries: Seq<CacheEntry>, i: int)
    requires
        0 <= i < entries.len(),
    ensures
        total_size(entries.remove(i)) == total_size(entries) - entries[i].1.data.len(),
    decreases entries.len(),
{
    let init = entries.drop_last();
    if i == entries.len() - 1 {
        assert(entries.remove(i) =~= init);
    } else {
        lemma_total_remove(init, i);
        assert(entries.remove(i).drop_last() =~= init.remove(i));
        assert(entries.remove(i).last() == entries.last());
    }
}

proof fn lemma_total_front(e: CacheEntry, entries: Seq<CacheEntry>)
    ensures
        total_size(seq![e] + entries) == total_size(entries) + e.1.data.len(),
    decreases entries.len(),
{
    let all = seq![e] + entries;
    if entries.len() == 0 {
        assert(all.drop_last() =~= entries);
        assert(all.last() == e);
        assert(total_size(all) == total_size(all.drop_last()) + e.1.data.len());
    } else {
        lemma_total_front(e, entries.drop_last());
        assert(all.drop_last() =~= seq![e] + entries.drop_last());
        assert(all.last() == entries.last());
    }
}

/// Putting an entry in front keeps the keys distinct if its key is new.
proof fn lemma_distinct_front(e: CacheEntry, entries: Seq<CacheEntry>)
    requires
        distinct_keys(entries),
        !has_key(entries, e.0),
    ensures
        distinct_keys(seq![e] + entries),
{
    let all = seq![e] + entries;
    assert forall|i: int, j: int| 0 <= i < j < all.len() implies (#[trigger] all[i]).0 != (
    #[trigger] all[j]).0 by {
        assert(all[j] == entries[j - 1]);
        if i > 0 {
            assert(all[i] == entries[i - 1]);
        }
    }
}

/// Taking an entry out keeps the keys distinct, and its key is gone.
proof fn lemma_distinct_remove(entries: Seq<CacheEntry>, i: int)
    requires
        distinct_keys(entries),
        0 <= i < entries.len(),
    ensures
        distinct_keys(entries.remove(i)),
        !has_key(entries.remove(i), entries[i].0),
{
    let rest = entries.remove(i);
    assert forall|a: int| 0 <= a < rest.len() implies (#[trigger] rest[a]) == entries[if a < i {
        a
    } else {
        a + 1
    }] by {}
}

/// Making room leaves a prefix of the entries.
proof fn lemma_fitted(entries: Seq<CacheEntry>, size: int, max: int)
    requires
        total_size(entries) <= max,
    ensures
        exists|n: int| 0 <= n <= entries.len() && fitted(entries, size, max) == entries.take(n),
        total_size(fitted(entries, size, max)) <= max,
        size <= max ==> total_size(fitted(entries, size, max)) + size <= max,
        distinct_keys(entries) ==> distinct_keys(fitted(entries, size, max)),
    decreases entries.len(),
{
    if entries.len() == 0 || total_size(entries) + size <= max {
        assert(entries.take(entries.len() as int) =~= entries);
    } else {
        let init = entries.drop_last();
        lemma_fitted(init, size, max);
        let n = choose|n: int| 0 <= n <= init.len() && fitted(init, size, max) == init.take(n);
        assert(init.take(n) =~= entries.take(n));
        if distinct_keys(entries) {
            assert forall|a: int, b: int| 0 <= a < b < init.len() implies (#[trigger] init[a]).0
                != (#[trigger] init[b]).0 by {
                assert(entries[a].0 != entries[b].0);
            }
        }
    }
}

/// The entry with a key is the one that `lookup` finds.
proof fn lemma_lookup_at(view: CacheView, i: int)
    requires
        distinct_keys(view.entries),
        0 <= i < view.entries.len(),
    ensures
        view.lookup(view.entries[i].0) == Some(view.entries[i].1),
{
    let key = view.entries[i].0;
    let j = place_of(view.entries, key);
    assert(view.entries[i].0 == key);
    assert(view.entries[j].0 == key);
    if i < j {
        assert(view.entries[i].0 != view.entries[j].0);
    } else if j < i {
        assert(view.entries[j].0 != view.entries[i].0);
    }
}

proof fn lemma_without_subset(entries: Seq<CacheEntry>, key: (Seq<char>, u64), i: int)
    requires
        0 <= i < without_key(entries, key).len(),
    ensures
        entries.contains(without_key(entries, key)[i]),
    decreases entries.len(),
{
    if entries.len() > 0 {
        let init = entries.drop_last();
        let kept = without_key(init, key);
        if i < kept.len() {
            lemma_without_subset(init, key, i);
            let j = choose|j: int| 0 <= j < init.len() && init[j] == kept[i];
            assert(entries[j] == kept[i]);
        } else {
            assert(entries[entries.len() - 1] == without_key(entries, key)[i]);
        }
    }
}

/// Looking a block up brings no entry in.
pub proof fn lemma_touched_entries(view: CacheView, key: (Seq<char>, u64), i: int)
    requires
        0 <= i < view.touched(key).entries.len(),
    ensures
        view.entries.contains(view.touched(key).entries[i]),
{
    if let Some(block) = view.lookup(key) {
        let k = place_of(view.entries, key);
        assert(has_key(view.entries, key));
        assert(view.entries[k].0 == key && view.entries[k].1 == block);
        if i > 0 {
            lemma_without_subset(view.entries, key, i - 1);
        }
    } else {
        assert(view.entries[i] == view.touched(key).entries[i]);
    }
}

/// Offering a block brings no other entry in.
pub proof fn lemma_inserted_entries(
    view: CacheView,
    key: (Seq<char>, u64),
    block: BlockView,
    i: int,
)
    requires
        view.wf(),
        0 <= i < view.inserted(key, block).entries.len(),
    ensures
        view.inserted(key, block).entries[i] == (key, block) || view.entries.contains(
            view.inserted(key, block).entries[i],
        ),
{
    let size = block.data.len() as int;
    let kept = fitted(view.entries, size, view.max_size);
    lemma_fitted(view.entries, size, view.max_size);
    let n = choose|n: int| 0 <= n <= view.entries.len() && kept == view.entries.take(n);
    let entry = view.inserted(key, block).entries[i];
    assert forall|j: int| 0 <= j < kept.len() implies view.entries.contains(#[trigger] kept[j]) by {
        assert(view.entries[j] == kept[j]);
    }
    if block.data.len() <= view.max_size {
        if i > 0 {
            if !has_key(kept, key) && kept.len() == view.capacity {
                assert(entry == kept[i - 1]);
            } else {
                lemma_without_subset(kept, key, i - 1);
                let j = choose|j: int| 0 <= j < kept.len() && kept[j] == entry;
                assert(kept[j] == entry);
            }
        }
    } else {
        assert(entry == kept[i]);
    }
}

/// The cached blocks never have more bytes than allowed, and a block that is not
/// larger than the whole cache is found right after it was offered.
pub proof fn law_cache_bounded(view: CacheView, key: (Seq<char>, u64), block: BlockView)
    requires
        view.wf(),
    ensures
        total_size(view.inserted(key, block).entries) <= view.max_size,
        block.data.len() <= view.max_size ==> view.inserted(key, block).lookup(key) == Some(block),
{
    let size = block.data.len() as int;
    let kept = fitted(view.entries, size, view.max_size);
    lemma_fitted(view.entries, size, view.max_size);
    if size <= view.max_size {
        let next = view.inserted(key, block);
        if has_key(kept, key) {
            let i = choose|i: int| 0 <= i < kept.len() && (#[trigger] kept[i]).0 == key;
            lemma_without_at(kept, i);
            lemma_distinct_remove(kept, i);
            lemma_distinct_front((key, block), kept.remove(i));
            lemma_total_remove(kept, i);
            lemma_total_front((key, block), kept.remove(i));
        } else if kept.len() == view.capacity {
            let last = kept.len() - 1;
            assert(kept.drop_last() =~= kept.remove(last));
            lemma_distinct_remove(kept, last);
            assert forall|a: int| 0 <= a < last implies (#[trigger] kept.drop_last()[a]).0
                != key by {
                assert(kept[a].0 != key);
            }
            lemma_distinct_front((key, block), kept.drop_last());
            lemma_total_remove(kept, last);
            lemma_total_front((key, block), kept.drop_last());
        } else {
            lemma_without_absent(kept, key);
            lemma_distinct_front((key, block), kept);
            lemma_total_front((key, block), kept);
        }
        assert(next.entries[0] == (key, block));
        lemma_lookup_at(next, 0);
    }
}

/// How full a cache is.
#[derive(Clone, Copy, PartialEq, Eq, Structural, Debug)]
pub struct BlockCacheStats {
    pub entries: usize,
    pub size_bytes: usize,
    pub max_size_bytes: usize,
}

/// A cache of data blocks, bounded in bytes; the least recently used blocks leave
/// first.
pub struct BlockCache {
    cache: LruCache<(String, u64), Arc<Block>>,
    max_size: usize,
    current_size: usize,
}

impl View for BlockCache {
    type V = CacheView;

    closed spec fn view(&self) -> CacheView {
        CacheView {
            entries: lru_entries(self.cache),
            capacity: lru_capacity(self.cache),
            max_size: self.max_size as int,
        }
    }
}

impl BlockCache {
    /// The recorded size is that of the cached blocks.
    pub closed spec fn counted(&self) -> bool {
        self.current_size == total_size(self@.entries)
    }

    /// What holds of every cache.
    pub open spec fn inv(&self) -> bool {
        self@.wf() && self.counted()
    }

    /// An empty cache for `capacity_bytes` bytes. It has room for as many entries
    /// as there would be blocks of 4 KiB, but for 16 at least.
    pub fn new(capacity_bytes: usize) -> (r: Self)
        ensures
            r.inv(),
            r@ == (CacheView {
                entries: Seq::empty(),
                capacity: if capacity_bytes / 4096 > 16 {
                    (capacity_bytes / 4096) as nat
                } else {
                    16nat
                },
                max_size: capacity_bytes as int,
            }),
    {
        let estimated: usize = capacity_bytes / 4096;
        let entries: usize = if estimated > 16 {
            estimated
        } else {
            16
        };
        BlockCache { cache: lru_new(entries), max_size: capacity_bytes, current_size: 0 }
    }

    /// Looks a block up, which makes it the most recently used one.
    pub fn get(&mut self, key: &BlockCacheKey) -> (r: Option<Arc<Block>>)
        requires
            old(self).inv(),
        ensures
            final(self).inv(),
            old(self)@.lookup(key@) == (match r {
                Some(block) => Some(block@),
                None => None,
            }),
            final(self)@ == old(self)@.touched(key@),
    {
        let ghost before = self@;
        let lru_key = (key.path.clone(), key.offset);
        let r = lru_get(&mut self.cache, &lru_key);
        proof {
            if r is Some {
                let found = r->Some_0@;
                let i = choose|i: int|
                    0 <= i < before.entries.len() && #[trigger] before.entries[i] == (
                        key@,
                        found,
                    ) && self@.entries == seq![before.entries[i]] + before.entries.remove(i);
                lemma_lookup_at(before, i);
                lemma_without_at(before.entries, i);
                lemma_distinct_remove(before.entries, i);
                lemma_distinct_front(before.entries[i], before.entries.remove(i));
                lemma_total_remove(before.entries, i);
                lemma_total_front(before.entries[i], before.entries.remove(i));
            }
        }
        r
    }

    /// Offers a block to the cache.
    pub fn insert(&mut self, key: BlockCacheKey, block: Arc<Block>)
        requires
            old(self).inv(),
        ensures
            final(self).inv(),
            final(self)@ == old(self)@.inserted(key@, block@),
    {
        let ghost before = self@;
        let ghost size = block@.data.len() as int;
        let block_size: usize = block.data_size();
        while (block_size > self.max_size || self.current_size > self.max_size - block_size)
            && lru_len(&self.cache) > 0
            invariant
                self.inv(),
                block_size == size,
                self@.capacity == before.capacity,
                self@.max_size == before.max_size,
                fitted(self@.entries, size, before.max_size) == fitted(
                    before.entries,
                    size,
                    before.max_size,
                ),
            decreases self@.entries.len(),
        {
            let ghost entries = self@.entries;
            if let Some((_, evicted)) = lru_pop(&mut self.cache) {
                proof {
                    lemma_total_nonnegative(entries.drop_last());
                    assert(entries.drop_last() =~= entries.remove(entries.len() - 1));
                    lemma_distinct_remove(entries, entries.len() - 1);
                }
                self.current_size = self.current_size - evicted.data_size();
            }
        }
        let ghost kept = self@.entries;
        assert(kept == fitted(before.entries, size, before.max_size));
        if block_size <= self.max_size {
            proof {
                if kept.len() == 0 {
                    assert(kept =~= Seq::empty());
                }
            }
            let left = lru_push(&mut self.cache, (key.path, key.offset), block);
            match left {
                Some((_, old_block)) => {
                    proof {
                        if has_key(kept, key@) {
                            let i = choose|i: int|
                                0 <= i < kept.len() && #[trigger] kept[i] == (key@, old_block@)
                                    && self@.entries == seq![(key@, block@)] + kept.remove(i);
                            lemma_without_at(kept, i);
                            lemma_distinct_remove(kept, i);
                            lemma_distinct_front((key@, block@), kept.remove(i));
                            lemma_total_remove(kept, i);
                            lemma_total_nonnegative(kept.remove(i));
                            lemma_total_front((key@, block@), kept.remove(i));
                        } else {
                            let n = kept.len() - 1;
                            assert(kept.drop_last() =~= kept.remove(n));
                            lemma_distinct_remove(kept, n);
                            assert forall|a: int| 0 <= a < n implies (
                            #[trigger] kept.drop_last()[a]).0 != key@ by {
                                assert(kept[a].0 != key@);
                            }
                            lemma_distinct_front((key@, block@), kept.drop_last());
                            lemma_total_remove(kept, n);
                            lemma_total_nonnegative(kept.drop_last());
                            lemma_total_front((key@, block@), kept.drop_last());
                        }
                    }
                    self.current_size = self.current_size - old_block.data_size() + block_size;
                },
                None => {
                    proof {
                        lemma_without_absent(kept, key@);
                        lemma_distinct_front((key@, block@), kept);
                        lemma_total_front((key@, block@), kept);
                    }
                    self.current_size = self.current_size + block_size;
                },
            }
        }
    }

    /// Looks a block up, or loads it and offers it to the cache.
    pub fn get_or_load<F>(&mut self, key: BlockCacheKey, loader: F) -> (r: Option<Arc<Block>>)
        where F: FnOnce() -> Option<Block>,
        requires
            old(self).inv(),
            old(self)@.lookup(key@) is None ==> loader.requires(()),
        ensures
            final(self).inv(),
            match old(self)@.lookup(key@) {
                Some(cached) => {
                    &&& r matches Some(block) && block@ == cached
                    &&& final(self)@ == old(self)@.touched(key@)
                },
                None => match r {
                    Some(block) => exists|loaded: Block|
                        loader.ensures((), Some(loaded)) && block@ == #[trigger] loaded@
                            && final(self)@ == old(self)@.inserted(key@, loaded@),
                    None => loader.ensures((), None) && final(self)@ == old(self)@,
                },
            },
    {
        if let Some(block) = self.get(&key) {
            return Some(block);
        }
        match loader() {
            Some(loaded) => {
                let block = Arc::new(loaded);
                self.insert(key, share::share(&block));
                Some(block)
            },
            None => None,
        }
    }

    /// Drops all blocks.
    pub fn clear(&mut self)
        requires
            old(self).inv(),
        ensures
            final(self).inv(),
            final(self)@ == (CacheView { entries: Seq::empty(), ..old(self)@ }),
    {
        lru_clear(&mut self.cache);
        self.current_size = 0;
    }

    /// The bytes of the cached blocks.
    pub fn size(&self) -> (r: usize)
        requires
            self.inv(),
        ensures
            r == total_size(self@.entries),
            r <= self@.max_size,
    {
        self.current_size
    }

    /// The number of cached blocks.
    pub fn len(&self) -> (r: usize)
        ensures
            r == self@.entries.len(),
    {
        lru_len(&self.cache)
    }

    /// Whether no block is cached.
    pub fn is_empty(&self) -> (r: bool)
        ensures
            r == (self@.entries.len() == 0),
    {
        lru_len(&self.cache) == 0
    }

    /// How full the cache is.
    pub fn stats(&self) -> (r: BlockCacheStats)
        requires
            self.inv(),
        ensures
            r.entries == self@.entries.len(),
            r.size_bytes == total_size(self@.entries),
            r.max_size_bytes == self@.max_size,
    {
        BlockCacheStats {
            entries: lru_len(&self.cache),
            size_bytes: self.current_size,
            max_size_bytes: self.max_size,
        }
    }
}

impl Default for BlockCache {
    /// A cache of 64 MiB.
    fn default() -> (r: Self)
        ensures
            r.inv(),
            r@.entries.len() == 0,
            r@.capacity == 16384,
            r@.max_size == 67108864,
    {
        Self::new(67108864)
    }
}

/// The record that is found for a key is one of that key, and the first one; none is
/// found only where there is none.
pub proof fn law_find_key(records: Seq<layout::RecordView>, key: Seq<u8>)
    ensures
        match find_key(records, key) {
            Some(r) => r.key == key && exists|i: int|
                0 <= i < records.len() && #[trigger] records[i] == r && forall|j: int|
                    0 <= j < i ==> (#[trigger] records[j]).key != key,
            None => forall|i: int| 0 <= i < records.len() ==> (#[trigger] records[i]).key != key,
        },
    decreases records.len(),
{
    if records.len() > 0 && records[0].key != key {
        let rest = records.skip(1);
        law_find_key(rest, key);
        match find_key(rest, key) {
            Some(r) => {
                let i = choose|i: int|
                    0 <= i < rest.len() && #[trigger] rest[i] == r && forall|j: int|
                        0 <= j < i ==> (#[trigger] rest[j]).key != key;
                assert(records[i + 1] == r);
                assert forall|j: int| 0 <= j < i + 1 implies (#[trigger] records[j]).key != key by {
                    if j > 0 {
                        assert(rest[j - 1] == records[j]);
                    }
                }
            },
            None => {
                assert forall|i: int| 0 <= i < records.len() implies (#[trigger] records[i]).key
                    != key by {
                    if i > 0 {
                        assert(rest[i - 1] == records[i]);
                    }
                }
            },
        }
    } else if records.len() > 0 {
        assert(records[0] == find_key(records, key)->Some_0);
    }
}

/// The bytes of cached blocks add up.
pub proof fn law_cached_bytes(entries: Seq<CacheEntry>, e: CacheEntry)
    ensures
        total_size(Seq::<CacheEntry>::empty()) == 0,
        total_size(entries.push(e)) == total_size(entries) + e.1.data.len(),
        total_size(seq![e] + entries) == e.1.data.len() + total_size(entries),
{
    assert(entries.push(e).drop_last() =~= entries);
    lemma_total_front(e, entries);
}

/// Without a key the other entries are left, in their order.
pub proof fn law_without_key(entries: Seq<CacheEntry>, key: (Seq<char>, u64))
    ensures
        without_key(entries, key) == entries.filter(|e: CacheEntry| e.0 != key),
    decreases entries.len(),
{
    reveal(Seq::filter);
    if entries.len() > 0 {
        law_without_key(entries.drop_last(), key);
    }
}

/// To make room the least recently used entries leave, and no more of them than needed.
pub proof fn law_room_is_made(entries: Seq<CacheEntry>, size: int, max: int)
    requires
        size <= max,
    ensures
        ({
            let kept = fitted(entries, size, max);
            let n = kept.len() as int;
            &&& n <= entries.len()
            &&& kept == entries.take(n)
            &&& total_size(kept) + size <= max
            &&& n < entries.len() ==> total_size(entries.take(n + 1)) + size > max
        }),
    decreases entries.len(),
{
    if entries.len() == 0 || total_size(entries) + size <= max {
        assert(entries.take(entries.len() as int) =~= entries);
    } else {
        let init = entries.drop_last();
        law_room_is_made(init, size, max);
        let n = fitted(init, size, max).len() as int;
        assert(init.take(n) =~= entries.take(n));
        if n < init.len() {
            assert(init.take(n + 1) =~= entries.take(n + 1));
        } else {
            assert(entries.take(n + 1) =~= entries);
        }
    }
}

/// A block that is looked up becomes the most recently used one; the others keep their
/// order, and a block that is not there changes nothing.
pub proof fn law_looked_up(view: CacheView, key: (Seq<char>, u64))
    requires
        view.wf(),
    ensures
        view.touched(key).capacity == view.capacity,
        view.touched(key).max_size == view.max_size,
        view.lookup(key) is Some <==> has_key(view.entries, key),
        view.lookup(key) is None ==> view.touched(key) == view,
        forall|i: int|
            0 <= i < view.entries.len() && (#[trigger] view.entries[i]).0 == key ==> view.lookup(key)
                == Some(view.entries[i].1) && view.touched(key).entries == seq![view.entries[i]]
                + view.entries.remove(i),
{
    assert forall|i: int|
        0 <= i < view.entries.len() && (#[trigger] view.entries[i]).0 == key implies view.lookup(key)
        == Some(view.entries[i].1) && view.touched(key).entries == seq![view.entries[i]]
        + view.entries.remove(i) by {
        lemma_lookup_at(view, i);
        lemma_without_at(view.entries, i);
    }
}

/// A block that is offered while there is room comes in front of all others, and none
/// leaves. One that is larger than the whole cache is not taken in.
pub proof fn law_offered(view: CacheView, key: (Seq<char>, u64), block: BlockView)
    requires
        view.wf(),
    ensures
        view.inserted(key, block).capacity == view.capacity,
        view.inserted(key, block).max_size == view.max_size,
        !has_key(view.entries, key) && view.entries.len() < view.capacity && total_size(
            view.entries,
        ) + block.data.len() <= view.max_size ==> view.inserted(key, block).entries == seq![
            (key, block),
        ] + view.entries,
        !has_key(view.entries, key) && view.entries.len() == view.capacity && total_size(
            view.entries,
        ) + block.data.len() <= view.max_size ==> view.inserted(key, block).entries == seq![
            (key, block),
        ] + view.entries.drop_last(),
        forall|i: int|
            0 <= i < view.entries.len() && (#[trigger] view.entries[i]).0 == key && total_size(
                view.entries,
            ) + block.data.len() <= view.max_size ==> view.inserted(key, block).entries == seq![
                (key, block),
            ] + view.entries.remove(i),
        block.data.len() > view.max_size ==> view.inserted(key, block).entries.len() == 0,
{
    lemma_total_nonnegative(view.entries);
    if !has_key(view.entries, key) {
        lemma_without_absent(view.entries, key);
    }
    assert forall|i: int|
        0 <= i < view.entries.len() && (#[trigger] view.entries[i]).0 == key && total_size(
            view.entries,
        ) + block.data.len() <= view.max_size implies view.inserted(key, block).entries == seq![
        (key, block),
    ] + view.entries.remove(i) by {
        assert(has_key(view.entries, key));
        lemma_without_at(view.entries, i);
    }
    if block.data.len() > view.max_size {
        lemma_nothing_fits(view.entries, block.data.len() as int, view.max_size);
    }
}

/// Nothing is left where there can be no room.
proof fn lemma_nothing_fits(entries: Seq<CacheEntry>, size: int, max: int)
    requires
        size > max,
    ensures
        fitted(entries, size, max).len() == 0,
    decreases entries.len(),
{
    if entries.len() > 0 {
        lemma_total_nonnegative(entries);
        lemma_nothing_fits(entries.drop_last(), size, max);
    }
}

/// What records are is what each of them is, in their order.
pub proof fn law_record_views(records: Seq<Record>, i: int)
    ensures
        record_views(records).len() == records.len(),
        0 <= i < records.len() ==> record_views(records)[i] == records[i]@,
{
}

/// A block of some bytes keeps them, and has the records that stand in them.
pub proof fn law_block_of(data: Seq<u8>, record: layout::RecordView, size: int)
    requires
        layout::decoded_record(data) == Some((record, size)),
    ensures
        block_of(data).data == data,
        block_of(data).records == seq![record] + parsed(data, size),
        block_of(Seq::<u8>::empty()).records.len() == 0,
{
    assert(data.skip(0) =~= data);
}

} // verus!
