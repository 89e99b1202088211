//! What reads give back of writes, through rotation, flushes, compaction and
//! recovery.
use crate::engine::error::StorageError;
use crate::engine::storage::compaction;
use crate::engine::storage::engine;
use crate::engine::storage::flush;
use crate::engine::storage::index;
use crate::engine::storage::index::IndexSet;
use crate::engine::storage::log;
use crate::engine::storage::memtable;
use crate::engine::storage::recovery;
use crate::engine::storage::sstable::block;
use crate::engine::storage::sstable::layout;
use crate::engine::storage::sstable::reader;
use crate::engine::storage::sstable::writer;
use crate::engine::storage::tree;
use crate::engine::storage::wal;
use vstd::prelude::*;

verus! {

/// Whether no entry of a key in `a` is older than that in `b`.
pub open spec fn entries_above(a: memtable::Entries, b: memtable::Entries) -> bool {
    forall|key: Seq<u8>|
        #![trigger a.dom().contains(key), b.dom().contains(key)]
        a.dom().contains(key) && b.dom().contains(key) ==> a[key].timestamp > b[key].timestamp
            || a[key] == b[key]
}

/// Whether no entry of a key is older than its version in a table.
pub open spec fn entries_above_table(a: memtable::Entries, table: reader::TableView) -> bool {
    forall|key: Seq<u8>|
        #![trigger a.dom().contains(key), tree::version(table, key)]
        a.dom().contains(key) && tree::version(table, key) is Some ==> tree::newer_or_same(
            flush::record_of(key, a[key]),
            tree::version(table, key)->Some_0,
        )
}

/// Whether all entries are older than the next write.
pub open spec fn entries_before(a: memtable::Entries, next: u64) -> bool {
    forall|key: Seq<u8>| #[trigger] a.dom().contains(key) ==> a[key].timestamp < next
}

/// Whether all versions of a table are older than the next write.
pub open spec fn table_before(table: reader::TableView, next: u64) -> bool {
    forall|key: Seq<u8>|
        #![trigger tree::version(table, key)]
        tree::version(table, key) is Some ==> tree::version(table, key)->Some_0.timestamp < next
}

/// Whether versions become older from the memtable over the waiting memtables to
/// the tables, the tree of tables is tidy, and the next write is newer than all.
pub open spec fn ordered(e: engine::EngineView) -> bool {
    let mems = e.memtables();
    let next = e.mem.next_timestamp;
    &&& e.tree.levels.len() > 0
    &&& tree::tidy(e.tree.levels)
    &&& forall|i: int, j: int|
        0 <= i < j < mems.len() ==> entries_above(
            (#[trigger] mems[j]).entries,
            (#[trigger] mems[i]).entries,
        )
    &&& forall|i: int| 0 <= i < mems.len() ==> entries_before((#[trigger] mems[i]).entries, next)
    &&& forall|i: int, l: int, k: int|
        #![trigger mems[i], e.tree.levels[l][k]]
        0 <= i < mems.len() && 0 <= l < e.tree.levels.len() && 0 <= k < e.tree.levels[l].len()
            ==> entries_above_table(mems[i].entries, e.tree.levels[l][k])
    &&& forall|l: int, k: int|
        #![trigger e.tree.levels[l][k]]
        0 <= l < e.tree.levels.len() && 0 <= k < e.tree.levels[l].len() ==> table_before(
            e.tree.levels[l][k],
            next,
        )
}

/// Whether `v` is the current value of a key: that of its newest version.
pub open spec fn current(e: engine::EngineView, key: Seq<u8>, v: Option<Seq<u8>>) -> bool {
    match e.in_memory(key) {
        Some(entry) => v == entry.value,
        None => exists|r: Option<layout::RecordView>| #[trigger]
            tree::newest(e.tree.levels, key, r) && v == (match r {
                Some(record) => record.value,
                None => None,
            }),
    }
}

/// Reading a key of an ordered engine gives its current value.
pub proof fn law_read_is_current(
    e: engine::EngineView,
    key: Seq<u8>,
    r: Result<Option<Seq<u8>>, StorageError>,
)
    requires
        ordered(e),
        e.reads(key, r),
    ensures
        r matches Ok(v) && current(e, key, v),
{
    if e.in_memory(key) is None {
        let a = choose|a: Result<Option<layout::RecordView>, StorageError>| #[trigger]
            compaction::answered(e.tree.candidates(key), key, a) && r == engine::found_value(a);
        tree::law_get_newest(e.tree, key, a);
        assert(tree::newest(e.tree.levels, key, a->Ok_0));
    }
}

/// All tables in which a key may be looked up are tables of the tree.
proof fn lemma_deeper(levels: Seq<Seq<reader::TableView>>, key: Seq<u8>, i: int)
    requires
        0 <= i < compaction::deeper(levels, key).len(),
    ensures
        tree::joined(levels).contains(compaction::deeper(levels, key)[i]),
    decreases levels.len(),
{
    let init = levels.drop_last();
    let before = compaction::deeper(init, key);
    let last = levels.last();
    let t = compaction::deeper(levels, key)[i];
    tree::lemma_joined(levels);
    if i < before.len() {
        lemma_deeper(init, key, i);
        tree::lemma_joined(init);
        let l = choose|l: int| 0 <= l < init.len() && #[trigger] init[l].contains(t);
        assert(levels[l] == init[l]);
        assert(levels[l].contains(t));
    } else {
        lemma_covering(last, key, i - before.len());
        assert(levels[levels.len() - 1].contains(t));
    }
}

/// The tables whose key range a key is in are among the tables.
proof fn lemma_covering(tables: Seq<reader::TableView>, key: Seq<u8>, i: int)
    requires
        0 <= i < compaction::covering(tables, key).len(),
    ensures
        tables.contains(compaction::covering(tables, key)[i]),
    decreases tables.len(),
{
    let init = tables.drop_last();
    let before = compaction::covering(init, key);
    let t = compaction::covering(tables, key)[i];
    if i < before.len() {
        lemma_covering(init, key, i);
        let k = choose|k: int| 0 <= k < init.len() && init[k] == t;
        assert(tables[k] == t);
    } else {
        assert(tables[tables.len() - 1] == t);
    }
}

/// Reading a key through a cache that agrees with all tables comes to the same as
/// reading it without, and the cache goes on to agree with them. A path names one
/// table at most.
pub proof fn law_cached_read(
    e: engine::EngineView,
    key: Seq<u8>,
    cache: block::CacheView,
    r: Result<Option<Seq<u8>>, StorageError>,
    after: block::CacheView,
)
    requires
        e.tree.levels.len() > 0,
        cache.wf(),
        compaction::paths_name_tables(tree::joined(e.tree.levels)),
        compaction::agrees_with_all(cache, tree::joined(e.tree.levels)),
        e.reads_through(key, cache, r, after),
    ensures
        e.reads(key, r),
        compaction::agrees_with_all(after, tree::joined(e.tree.levels)),
{
    if e.in_memory(key) is None {
        let a = choose|a: Result<Option<layout::RecordView>, StorageError>| #[trigger]
            compaction::answered_through(e.tree.candidates(key), key, cache, a, after) && r
                == engine::found_value(a);
        let levels = e.tree.levels;
        let all = tree::joined(levels);
        let tables = e.tree.candidates(key);
        let first = levels[0].reverse();
        let rest = levels.skip(1);
        tree::lemma_joined(levels);
        assert forall|i: int| 0 <= i < tables.len() implies all.contains(#[trigger] tables[i]) by {
            if i < first.len() {
                assert(tables[i] == levels[0][first.len() - 1 - i]);
                assert(levels[0].contains(tables[i]));
            } else {
                lemma_deeper(rest, key, i - first.len());
                tree::lemma_joined(rest);
                let t = tables[i];
                let l = choose|l: int| 0 <= l < rest.len() && #[trigger] rest[l].contains(t);
                assert(levels[l + 1].contains(t));
            }
        }
        compaction::law_cached_search(all, tables, key, cache, a, after);
    }
}

/// The newest of some memtables decides what is in memory.
pub proof fn lemma_newest_entry(mems: Seq<memtable::MemView>, last: memtable::MemView, key: Seq<u8>)
    ensures
        engine::newest_entry(mems.push(last), key) == (if last.lookup(key) is Some {
            last.lookup(key)
        } else {
            engine::newest_entry(mems, key)
        }),
{
    assert(mems.push(last).drop_last() =~= mems);
}

/// A write that is begun and applied is current, every other key keeps its value,
/// and the engine stays ordered.
pub proof fn law_write_is_current(e: engine::EngineView, write: engine::WriteView)
    requires
        ordered(e),
        e.mem.next_timestamp < u64::MAX - 1,
    ensures
        ({
            let timestamp = e.mem.next_timestamp;
            let after = e.reserved().applied(write, timestamp);
            &&& ordered(after)
            &&& current(after, write.key, write.value)
            &&& forall|key: Seq<u8>, v: Option<Seq<u8>>|
                key != write.key && current(e, key, v) ==> #[trigger] current(after, key, v)
        }),
{
    let timestamp = e.mem.next_timestamp;
    let after = e.reserved().applied(write, timestamp);
    let mems = e.memtables();
    let now = after.memtables();
    let n = e.pending.len() as int;
    assert(mems[n] == e.mem);
    assert(now[n] == after.mem);
    assert(entries_before(mems[n].entries, timestamp));
    assert(after.mem.entries == e.mem.entries.insert(write.key, write.entry(timestamp)));
    assert(after.mem.next_timestamp == timestamp + 1);
    assert forall|i: int, j: int| 0 <= i < j < now.len() implies entries_above(
        (#[trigger] now[j]).entries,
        (#[trigger] now[i]).entries,
    ) by {
        assert(now[i] == mems[i]);
        assert(entries_above(mems[j].entries, mems[i].entries));
        assert(entries_before(mems[i].entries, timestamp));
    }
    assert forall|i: int| 0 <= i < now.len() implies entries_before(
        (#[trigger] now[i]).entries,
        after.mem.next_timestamp,
    ) by {
        assert(entries_before(mems[i].entries, timestamp));
    }
    assert forall|i: int, l: int, k: int|
        #![trigger now[i], after.tree.levels[l][k]]
        0 <= i < now.len() && 0 <= l < after.tree.levels.len() && 0 <= k
            < after.tree.levels[l].len() implies entries_above_table(
        now[i].entries,
        after.tree.levels[l][k],
    ) by {
        assert(entries_above_table(mems[i].entries, e.tree.levels[l][k]));
        assert(table_before(e.tree.levels[l][k], timestamp));
    }
    assert forall|l: int, k: int|
        #![trigger after.tree.levels[l][k]]
        0 <= l < after.tree.levels.len() && 0 <= k < after.tree.levels[l].len() implies table_before(
        after.tree.levels[l][k],
        after.mem.next_timestamp,
    ) by {
        assert(table_before(e.tree.levels[l][k], timestamp));
    }
    lemma_newest_entry(e.pending, after.mem, write.key);
    assert forall|key: Seq<u8>, v: Option<Seq<u8>>|
        key != write.key && current(e, key, v) implies #[trigger] current(after, key, v) by {
        lemma_newest_entry(e.pending, after.mem, key);
        lemma_newest_entry(e.pending, e.mem, key);
    }
}

/// Setting the memtable aside changes no value and keeps the engine ordered.
pub proof fn law_rotation_keeps_values(e: engine::EngineView, key: Seq<u8>, v: Option<Seq<u8>>)
    requires
        ordered(e),
    ensures
        ordered(e.set_aside()),
        current(e, key, v) <==> current(e.set_aside(), key, v),
{
    let after = e.set_aside();
    let mems = e.memtables();
    let now = after.memtables();
    let n = mems.len() as int;
    assert(now =~= mems.push(after.mem));
    assert forall|i: int, j: int| 0 <= i < j < now.len() implies entries_above(
        (#[trigger] now[j]).entries,
        (#[trigger] now[i]).entries,
    ) by {
        if j < n {
            assert(entries_above(mems[j].entries, mems[i].entries));
        }
    }
    assert forall|i: int| 0 <= i < now.len() implies entries_before(
        (#[trigger] now[i]).entries,
        after.mem.next_timestamp,
    ) by {
        if i < n {
            assert(entries_before(mems[i].entries, e.mem.next_timestamp));
        }
    }
    assert forall|i: int, l: int, k: int|
        #![trigger now[i], after.tree.levels[l][k]]
        0 <= i < now.len() && 0 <= l < after.tree.levels.len() && 0 <= k
            < after.tree.levels[l].len() implies entries_above_table(
        now[i].entries,
        after.tree.levels[l][k],
    ) by {
        if i < n {
            assert(entries_above_table(mems[i].entries, e.tree.levels[l][k]));
        }
    }
    lemma_newest_entry(mems, after.mem, key);
}

/// Whether the table of a waiting memtable may come into the tree: no older
/// memtable that still waits has a key of it. The oldest one may always come.
pub open spec fn may_flush(e: engine::EngineView, place: int, table: reader::TableView) -> bool {
    &&& e.free(place)
    &&& flush::carries(table, e.pending[place].entries)
    &&& tree::distinct_paths(e.tree.levels[0].push(table))
}

/// A flush that was planned for a memtable that is free may come into the tree: its
/// table carries its entries. The table must be within the range of the fields of a
/// file, and its path must be new.
pub proof fn law_planned_flush(
    e: engine::EngineView,
    place: int,
    now: u64,
    table: reader::TableView,
    pairs: Seq<(Seq<u8>, memtable::EntryView)>,
)
    requires
        e.free(place),
        memtable::lists(pairs, e.pending[place].entries),
        flush::table_made(
            flush::records_of(pairs),
            e.tree.config.compression,
            e.flush_path(now),
            Ok(table),
        ),
        writer::table_fits(flush::records_of(pairs), e.tree.config.compression),
        tree::distinct_paths(e.tree.levels[0].push(table)),
    ensures
        may_flush(e, place, table),
{
    flush::law_flush_carries(table, pairs, e.pending[place].entries);
}

/// A key that no memtable has is not in memory.
proof fn lemma_in_none(mems: Seq<memtable::MemView>, key: Seq<u8>)
    requires
        forall|i: int| 0 <= i < mems.len() ==> !(#[trigger] mems[i]).entries.dom().contains(key),
    ensures
        engine::newest_entry(mems, key) is None,
    decreases mems.len(),
{
    if mems.len() > 0 {
        lemma_in_none(mems.drop_last(), key);
    }
}

/// What is in memory without a memtable whose keys no older one has.
pub proof fn lemma_without_one(mems: Seq<memtable::MemView>, place: int, key: Seq<u8>)
    requires
        0 <= place < mems.len(),
        forall|i: int|
            0 <= i < place ==> memtable::apart((#[trigger] mems[i]).entries, mems[place].entries),
    ensures
        engine::newest_entry(mems, key) == (if engine::newest_entry(
            mems.remove(place),
            key,
        ) is Some {
            engine::newest_entry(mems.remove(place), key)
        } else {
            mems[place].lookup(key)
        }),
    decreases mems.len(),
{
    let init = mems.drop_last();
    if place == mems.len() - 1 {
        assert(mems.remove(place) =~= init);
        if mems[place].lookup(key) is Some {
            assert forall|i: int| 0 <= i < init.len() implies !(
            #[trigger] init[i]).entries.dom().contains(key) by {
                assert(memtable::apart(mems[i].entries, mems[place].entries));
            }
            lemma_in_none(init, key);
        }
    } else {
        lemma_without_one(init, place, key);
        assert(init.remove(place) =~= mems.remove(place).drop_last());
        assert(mems.remove(place).last() == mems.last());
    }
}

/// The table of a memtable may come into the tree.
pub proof fn lemma_may_come(e: engine::EngineView, place: int, table: reader::TableView)
    requires
        ordered(e),
        may_flush(e, place, table),
    ensures
        tree::may_come(e.tree, table),
{
    let mems = e.memtables();
    assert(mems[place] == e.pending[place]);
    assert forall|l: int, i: int|
        0 <= l < e.tree.levels.len() && 0 <= i < e.tree.levels[l].len() implies tree::may_stand_above(
    table, #[trigger] e.tree.levels[l][i]) by {
        let t = e.tree.levels[l][i];
        assert(entries_above_table(mems[place].entries, e.tree.levels[l][i]));
        assert forall|key: Seq<u8>|
            #![trigger tree::version(table, key), tree::version(t, key)]
            tree::version(table, key) is Some && tree::version(t, key) is Some implies tree::newer_or_same(
            tree::version(table, key)->Some_0,
            tree::version(t, key)->Some_0,
        ) by {
            assert(mems[place].entries.dom().contains(key));
        }
    }
}

/// Writing a waiting memtable out changes no value and keeps the engine ordered, if
/// no older memtable that still waits has a key of it; so it is for the oldest one.
#[verifier::spinoff_prover]
pub proof fn law_flush_keeps_values(
    e: engine::EngineView,
    place: int,
    table: reader::TableView,
    key: Seq<u8>,
    v: Option<Seq<u8>>,
)
    requires
        ordered(e),
        may_flush(e, place, table),
        current(e, key, v),
    ensures
        ordered(e.flushed(place, Some(table))),
        current(e.flushed(place, Some(table)), key, v),
{
    let after = e.flushed(place, Some(table));
    let mems = e.memtables();
    let now = after.memtables();
    let gone = e.pending[place].entries;
    assert(mems[place] == e.pending[place]);
    assert(now =~= mems.remove(place));
    assert forall|i: int| 0 <= i < place implies memtable::apart(
        (#[trigger] mems[i]).entries,
        mems[place].entries,
    ) by {
        assert(mems[i] == e.pending[i]);
    }
    lemma_may_come(e, place, table);
    assert(after.tree == tree::with_table(e.tree, table));
    tree::lemma_some_newest(e.tree.levels, key);
    let r0 = choose|r: Option<layout::RecordView>| tree::newest(e.tree.levels, key, r);
    tree::law_new_table(e.tree, table, key, r0);
    lemma_ordered_after_flush(e, place, table);
    lemma_without_one(mems, place, key);
    if after.in_memory(key) is None {
        if e.in_memory(key) is Some {
            assert(gone.dom().contains(key));
            assert(tree::newest(after.tree.levels, key, tree::version(table, key)));
        } else {
            let r = choose|r: Option<layout::RecordView>| #[trigger]
                tree::newest(e.tree.levels, key, r) && v == (match r {
                    Some(record) => record.value,
                    None => None,
                });
            tree::law_new_table(e.tree, table, key, r);
            assert(tree::version(table, key) is None);
            assert(tree::newest(after.tree.levels, key, r));
        }
    }
}

/// A flush that may come keeps the engine ordered.
pub proof fn lemma_ordered_after_flush_of(
    e: engine::EngineView,
    place: int,
    table: reader::TableView,
)
    requires
        ordered(e),
        may_flush(e, place, table),
    ensures
        ordered(e.flushed(place, Some(table))),
{
    lemma_may_come(e, place, table);
    tree::lemma_some_newest(e.tree.levels, Seq::empty());
    let r = choose|r: Option<layout::RecordView>| tree::newest(e.tree.levels, Seq::empty(), r);
    tree::law_new_table(e.tree, table, Seq::empty(), r);
    lemma_ordered_after_flush(e, place, table);
}

/// Where a memtable stood before one was taken out.
spec fn place_before(i: int, place: int) -> int {
    if i < place {
        i
    } else {
        i + 1
    }
}

/// The order of the engine after a waiting memtable was written out.
proof fn lemma_ordered_after_flush(e: engine::EngineView, place: int, table: reader::TableView)
    requires
        ordered(e),
        may_flush(e, place, table),
        tree::tidy(tree::with_table(e.tree, table).levels),
    ensures
        ordered(e.flushed(place, Some(table))),
{
    let after = e.flushed(place, Some(table));
    let mems = e.memtables();
    let now = after.memtables();
    let next = e.mem.next_timestamp;
    let n = e.tree.levels[0].len() as int;
    assert(mems[place] == e.pending[place]);
    assert(now =~= mems.remove(place));
    assert forall|i: int, j: int| 0 <= i < j < now.len() implies entries_above(
        (#[trigger] now[j]).entries,
        (#[trigger] now[i]).entries,
    ) by {
        let a = place_before(i, place);
        let b = place_before(j, place);
        assert(now[i] == mems[a] && now[j] == mems[b]);
        assert(entries_above(mems[b].entries, mems[a].entries));
    }
    assert forall|i: int| 0 <= i < now.len() implies entries_before(
        (#[trigger] now[i]).entries,
        next,
    ) by {
        let a = place_before(i, place);
        assert(now[i] == mems[a]);
        assert(entries_before(mems[a].entries, next));
    }
    assert forall|i: int, l: int, k: int|
        #![trigger now[i], after.tree.levels[l][k]]
        0 <= i < now.len() && 0 <= l < after.tree.levels.len() && 0 <= k
            < after.tree.levels[l].len() implies entries_above_table(
        now[i].entries,
        after.tree.levels[l][k],
    ) by {
        let q = place_before(i, place);
        assert(now[i] == mems[q]);
        if l == 0 && k == n {
            let a = now[i].entries;
            assert(after.tree.levels[l][k] == table);
            if q < place {
                assert(mems[q] == e.pending[q]);
                assert(memtable::apart(mems[q].entries, mems[place].entries));
            } else {
                assert(entries_above(mems[q].entries, mems[place].entries));
            }
            assert forall|key: Seq<u8>|
                #![trigger a.dom().contains(key), tree::version(table, key)]
                a.dom().contains(key) && tree::version(table, key) is Some implies tree::newer_or_same(
                flush::record_of(key, a[key]),
                tree::version(table, key)->Some_0,
            ) by {
                assert(mems[place].entries.dom().contains(key));
            }
        } else {
            assert(after.tree.levels[l][k] == e.tree.levels[l][k]);
            assert(entries_above_table(mems[q].entries, e.tree.levels[l][k]));
        }
    }
    assert forall|l: int, k: int|
        #![trigger after.tree.levels[l][k]]
        0 <= l < after.tree.levels.len() && 0 <= k < after.tree.levels[l].len() implies table_before(
        after.tree.levels[l][k],
        next,
    ) by {
        if l == 0 && k == n {
            assert(after.tree.levels[l][k] == table);
            assert(entries_before(mems[place].entries, next));
            assert forall|key: Seq<u8>|
                #![trigger tree::version(table, key)]
                tree::version(table, key) is Some implies tree::version(
                table,
                key,
            )->Some_0.timestamp < next by {
                assert(mems[place].entries.dom().contains(key));
            }
        } else {
            assert(after.tree.levels[l][k] == e.tree.levels[l][k]);
            assert(table_before(e.tree.levels[l][k], next));
        }
    }
}

/// The state after a level was compacted.
pub open spec fn compacted(
    e: engine::EngineView,
    level: int,
    outputs: Seq<reader::TableView>,
) -> engine::EngineView {
    engine::EngineView { tree: e.tree.after_compaction(level, outputs), ..e }
}

/// Where a table of a compacted tree comes from: it was there, or has only versions
/// that some table had.
proof fn lemma_compacted_table(
    tree_before: compaction::ManagerView,
    level: int,
    outputs: Seq<reader::TableView>,
    l: int,
    k: int,
    key: Seq<u8>,
)
    requires
        tree::tidy(tree_before.levels),
        tree::compactable(tree_before, level, outputs),
        tree::replaces(outputs, tree_before.inputs(level)),
        0 <= l < tree_before.levels.len(),
        0 <= k < tree_before.after_compaction(level, outputs).levels[l].len(),
        tree::version(
            tree_before.after_compaction(level, outputs).levels[l][k],
            key,
        ) is Some,
    ensures
        exists|a: int, b: int|
            #![trigger tree_before.levels[a][b]]
            0 <= a < tree_before.levels.len() && 0 <= b < tree_before.levels[a].len()
                && tree::version(tree_before.levels[a][b], key) == tree::version(
                tree_before.after_compaction(level, outputs).levels[l][k],
                key,
            ),
{
    let levels = tree_before.levels;
    let t = tree_before.after_compaction(level, outputs).levels[l][k];
    tree::lemma_after(tree_before, level, outputs, l, k);
    if tree::stayed(tree_before, level, l, t) {
        let here = levels[l];
        let b = choose|b: int| 0 <= b < here.len() && here[b] == t;
        assert(levels[l][b] == t);
    } else {
        let inputs = tree_before.inputs(level);
        let o = choose|o: int| 0 <= o < outputs.len() && outputs[o] == t;
        let x = tree::version(outputs[o], key)->Some_0;
        assert(tree::has_version(inputs, key, x));
        let i = choose|i: int|
            0 <= i < inputs.len() && tree::version(#[trigger] inputs[i], key) == Some(x);
        tree::lemma_input_place(tree_before, level, outputs, i);
        let upper = tree_before.upper(level);
        if i < upper.len() {
            assert(levels[level][i] == inputs[i]);
        } else {
            let next = levels[level + 1];
            let b = choose|b: int| 0 <= b < next.len() && next[b] == inputs[i];
            assert(levels[level + 1][b] == inputs[i]);
        }
    }
}

/// Compaction changes no value and keeps the engine ordered.
pub proof fn law_compaction_keeps_values(
    e: engine::EngineView,
    level: int,
    outputs: Seq<reader::TableView>,
    key: Seq<u8>,
    v: Option<Seq<u8>>,
)
    requires
        ordered(e),
        tree::compactable(e.tree, level, outputs),
        tree::replaces(outputs, e.tree.inputs(level)),
        current(e, key, v),
    ensures
        ordered(compacted(e, level, outputs)),
        current(compacted(e, level, outputs), key, v),
{
    let after = compacted(e, level, outputs);
    let mems = e.memtables();
    let next = e.mem.next_timestamp;
    tree::law_compaction_keeps_tidy(e.tree, level, outputs);
    assert(after.memtables() == mems);
    assert forall|i: int, l: int, k: int|
        #![trigger mems[i], after.tree.levels[l][k]]
        0 <= i < mems.len() && 0 <= l < after.tree.levels.len() && 0 <= k
            < after.tree.levels[l].len() implies entries_above_table(
        mems[i].entries,
        after.tree.levels[l][k],
    ) by {
        let a = mems[i].entries;
        let t = after.tree.levels[l][k];
        assert forall|q: Seq<u8>|
            #![trigger a.dom().contains(q), tree::version(t, q)]
            a.dom().contains(q) && tree::version(t, q) is Some implies tree::newer_or_same(
            flush::record_of(q, a[q]),
            tree::version(t, q)->Some_0,
        ) by {
            lemma_compacted_table(e.tree, level, outputs, l, k, q);
            let (x, y) = choose|x: int, y: int|
                #![trigger e.tree.levels[x][y]]
                0 <= x < e.tree.levels.len() && 0 <= y < e.tree.levels[x].len() && tree::version(
                    e.tree.levels[x][y],
                    q,
                ) == tree::version(t, q);
            assert(entries_above_table(mems[i].entries, e.tree.levels[x][y]));
        }
    }
    assert forall|l: int, k: int|
        #![trigger after.tree.levels[l][k]]
        0 <= l < after.tree.levels.len() && 0 <= k < after.tree.levels[l].len() implies table_before(
        after.tree.levels[l][k],
        next,
    ) by {
        let t = after.tree.levels[l][k];
        assert forall|q: Seq<u8>|
            #![trigger tree::version(t, q)]
            tree::version(t, q) is Some implies tree::version(t, q)->Some_0.timestamp < next by {
            lemma_compacted_table(e.tree, level, outputs, l, k, q);
            let (x, y) = choose|x: int, y: int|
                #![trigger e.tree.levels[x][y]]
                0 <= x < e.tree.levels.len() && 0 <= y < e.tree.levels[x].len() && tree::version(
                    e.tree.levels[x][y],
                    q,
                ) == tree::version(t, q);
            assert(table_before(e.tree.levels[x][y], next));
        }
    }
    if e.in_memory(key) is None {
        let r = choose|r: Option<layout::RecordView>| #[trigger]
            tree::newest(e.tree.levels, key, r) && v == (match r {
                Some(record) => record.value,
                None => None,
            });
        tree::law_compaction_keeps_newest(e.tree, level, outputs, key, r);
        assert(tree::newest(after.tree.levels, key, r));
    }
}

/// Replaying one list of records after another.
pub proof fn lemma_replayed_concat(
    mem: memtable::MemView,
    a: Seq<wal::WalRecordView>,
    b: Seq<wal::WalRecordView>,
)
    requires
        recovery::replayed(mem, a).1 is None,
    ensures
        recovery::replayed(mem, a + b) == recovery::replayed(recovery::replayed(mem, a).0, b),
    decreases a.len(),
{
    if a.len() == 0 {
        assert(a + b =~= b);
    } else {
        let next = recovery::replay_step(mem, a[0])->Ok_0;
        assert((a + b)[0] == a[0]);
        assert((a + b).skip(1) =~= a.skip(1) + b);
        lemma_replayed_concat(next, a.skip(1), b);
    }
}

/// The changes of one list of records after those of another.
proof fn lemma_effects_concat(
    a: Seq<wal::WalRecordView>,
    b: Seq<wal::WalRecordView>,
    set: IndexSet,
)
    ensures
        index::effects(a + b, set) == index::effects(a, set) + index::effects(b, set),
    decreases b.len(),
{
    if b.len() == 0 {
        assert(a + b =~= a);
        assert(index::effects(a, set) + index::effects(b, set) =~= index::effects(a, set));
    } else {
        assert((a + b).drop_last() =~= a + b.drop_last());
        assert((a + b).last() == b.last());
        lemma_effects_concat(a, b.drop_last(), set);
        assert(index::effects(a + b, set) =~= index::effects(a, set) + index::effects(b, set));
    }
}

/// The records of a write are read back as they were.
pub proof fn lemma_write_canonical(write: engine::WriteView, timestamp: u64)
    ensures
        log::canonicals(write.records(timestamp)) == write.records(timestamp),
{
    reveal(wal::canonical);
    assert(log::canonicals(write.records(timestamp)) =~= write.records(timestamp));
}

/// Replaying the records of a write leaves the entry that applying it leaves.
proof fn lemma_write_replayed(mem: memtable::MemView, write: engine::WriteView, timestamp: u64)
    requires
        !mem.lacks_room(write.key, write.entry(timestamp)),
    ensures
        recovery::replayed(mem, write.records(timestamp)) == (
            mem.applied(write.key, write.entry(timestamp)),
            None::<StorageError>,
        ),
{
    let records = write.records(timestamp);
    let next = mem.applied(write.key, write.entry(timestamp));
    assert(recovery::replay_step(mem, records[0]) == Ok::<memtable::MemView, StorageError>(next));
    let rest = records.skip(1);
    if write.placed is Some {
        assert(rest[0] == records[1]);
        assert(rest.skip(1)[0] == records[2]);
        assert(recovery::replay_step(next, rest[0]) == Ok::<memtable::MemView, StorageError>(next));
        assert(recovery::replay_step(next, rest.skip(1)[0]) == Ok::<
            memtable::MemView,
            StorageError,
        >(next));
        assert(rest.skip(1).skip(1) =~= Seq::empty());
        assert(recovery::replayed(next, rest.skip(1).skip(1)) == (next, None::<StorageError>));
        assert(recovery::replayed(next, rest.skip(1)) == (next, None::<StorageError>));
    } else {
        assert(rest =~= Seq::empty());
    }
    assert(recovery::replayed(next, rest) == (next, None::<StorageError>));
    assert(recovery::replayed(mem, records) == recovery::replayed(next, rest));
}

/// A write that was logged survives a crash: replaying the log leaves the entry that
/// the write leaves, and makes the same changes of the indexes. What was torn off
/// behind the log before does not matter.
pub proof fn law_logged_write_survives(
    image: Seq<u8>,
    write: engine::WriteView,
    timestamp: u64,
    mem: memtable::MemView,
    set: IndexSet,
)
    requires
        log::all_loggable(write.records(timestamp)),
        recovery::replayed(mem, log::scan(image, 0).records).1 is None,
        !recovery::replayed(mem, log::scan(image, 0).records).0.lacks_room(
            write.key,
            write.entry(timestamp),
        ),
    ensures
        ({
            let before = log::scan(image, 0);
            let after = log::scan(
                image.take(before.valid) + log::log_bytes(write.records(timestamp)),
                0,
            );
            &&& after.fault is None
            &&& recovery::replayed(mem, after.records) == (
                recovery::replayed(mem, before.records).0.applied(
                    write.key,
                    write.entry(timestamp),
                ),
                None::<StorageError>,
            )
            &&& index::effects(after.records, set) == index::effects(before.records, set)
                + index::effects(write.records(timestamp), set)
        }),
{
    let records = write.records(timestamp);
    let before = log::scan(image, 0);
    let m = recovery::replayed(mem, before.records).0;
    log::law_append_after_cut(image, records);
    lemma_write_canonical(write, timestamp);
    lemma_replayed_concat(mem, before.records, records);
    lemma_write_replayed(m, write, timestamp);
    lemma_effects_concat(before.records, records, set);
}

/// No record is newer than the newest.
pub proof fn lemma_newest_record(records: Seq<layout::RecordView>, i: int)
    requires
        0 <= i < records.len(),
    ensures
        records[i].timestamp <= compaction::newest_record(records),
    decreases records.len(),
{
    if i < records.len() - 1 {
        lemma_newest_record(records.drop_last(), i);
    }
}

/// No table has a newer record than the newest of some tables.
pub proof fn lemma_newest_stamp(tables: Seq<reader::TableView>, k: int)
    requires
        0 <= k < tables.len(),
    ensures
        compaction::table_stamp(tables[k]) <= compaction::newest_stamp(tables),
    decreases tables.len(),
{
    if k < tables.len() - 1 {
        lemma_newest_stamp(tables.drop_last(), k);
    }
}

/// No level has a newer record than the newest of all.
pub proof fn lemma_high_mark(levels: Seq<Seq<reader::TableView>>, l: int)
    requires
        0 <= l < levels.len(),
    ensures
        compaction::newest_stamp(levels[l]) <= compaction::high_mark(levels),
    decreases levels.len(),
{
    if l < levels.len() - 1 {
        lemma_high_mark(levels.drop_last(), l);
    }
}

/// Whether the records of a log that leave entries are older than a timestamp.
pub open spec fn stamped(records: Seq<wal::WalRecordView>, next: u64) -> bool {
    forall|i: int|
        0 <= i < records.len() && recovery::entry_of(#[trigger] records[i]) is Some
            ==> records[i].timestamp < next
}

/// Replaying log records keeps the next timestamp above those of all entries.
pub proof fn lemma_replayed_fresh(mem: memtable::MemView, records: Seq<wal::WalRecordView>)
    requires
        mem.fresh(),
        stamped(records, u64::MAX),
    ensures
        recovery::replayed(mem, records).0.fresh(),
        recovery::replayed(mem, records).0.next_timestamp >= mem.next_timestamp,
    decreases records.len(),
{
    if records.len() > 0 {
        if let Ok(next) = recovery::replay_step(mem, records[0]) {
            if let Some(entry) = recovery::entry_of(records[0]) {
                memtable::law_apply_keeps_fresh(mem, records[0].key, entry);
            }
            let rest = records.skip(1);
            assert forall|i: int|
                0 <= i < rest.len() && recovery::entry_of(#[trigger] rest[i]) is Some implies rest[i].timestamp
                < u64::MAX by {
                assert(rest[i] == records[i + 1]);
            }
            lemma_replayed_fresh(next, rest);
        }
    }
}

/// An engine that was opened over a tidy tree is ordered: no later write gets a
/// timestamp that a table or the log has. Asked of the log is that it has not fallen
/// behind the tables: no entry it leaves is older than a table's version of its key.
pub proof fn law_recovery_is_ordered(
    e: engine::EngineView,
    records: Seq<wal::WalRecordView>,
    max_size: usize,
)
    requires
        e.tree.levels.len() > 0,
        tree::tidy(e.tree.levels),
        compaction::high_mark(e.tree.levels) < u64::MAX,
        e.pending.len() == 0,
        ({
            let empty = memtable::MemView {
                entries: Map::empty(),
                max_size,
                next_timestamp: memtable::after(compaction::high_mark(e.tree.levels)),
            };
            recovery::replayed(empty, records) == (e.mem, None::<StorageError>)
        }),
        stamped(records, u64::MAX),
        forall|l: int, k: int|
            #![trigger e.tree.levels[l][k]]
            0 <= l < e.tree.levels.len() && 0 <= k < e.tree.levels[l].len()
                ==> entries_above_table(e.mem.entries, e.tree.levels[l][k]),
    ensures
        ordered(e),
{
    let levels = e.tree.levels;
    let next = e.mem.next_timestamp;
    let mark = compaction::high_mark(levels);
    let empty = memtable::MemView {
        entries: Map::empty(),
        max_size,
        next_timestamp: memtable::after(mark),
    };
    lemma_replayed_fresh(empty, records);
    assert(next > mark);
    let mems = e.memtables();
    assert(mems =~= seq![e.mem]);
    assert(entries_before(e.mem.entries, next));
    assert forall|l: int, k: int|
        #![trigger levels[l][k]]
        0 <= l < levels.len() && 0 <= k < levels[l].len() implies table_before(
        levels[l][k],
        next,
    ) by {
        let table = levels[l][k];
        lemma_high_mark(levels, l);
        lemma_newest_stamp(levels[l], k);
        assert(tree::all_sound(levels[l]));
        assert(tree::sound(table));
        assert forall|key: Seq<u8>|
            #![trigger tree::version(table, key)]
            tree::version(table, key) is Some implies tree::version(table, key)->Some_0.timestamp
            < next by {
            reveal(tree::version);
            let all = tree::contents(table);
            reader::lemma_find_some(all, key);
            let r = tree::version(table, key)->Some_0;
            let i = choose|i: int| 0 <= i < all.len() && all[i] == r;
            lemma_newest_record(all, i);
        }
    }
}

/// A key has one current value.
pub proof fn law_one_current_value(
    e: engine::EngineView,
    key: Seq<u8>,
    a: Option<Seq<u8>>,
    b: Option<Seq<u8>>,
)
    requires
        current(e, key, a),
        current(e, key, b),
    ensures
        a == b,
{
    if e.in_memory(key) is None {
        let x = choose|r: Option<layout::RecordView>| #[trigger]
            tree::newest(e.tree.levels, key, r) && a == (match r {
                Some(record) => record.value,
                None => None,
            });
        let y = choose|r: Option<layout::RecordView>| #[trigger]
            tree::newest(e.tree.levels, key, r) && b == (match r {
                Some(record) => record.value,
                None => None,
            });
        tree::lemma_newest_unique(tree::joined(e.tree.levels), key, x, y);
    }
}

/// Reading the key of a write that was applied gives the value that was written, or
/// nothing if the key was deleted; reading any other key gives what it gave before.
pub proof fn law_read_gives_what_was_written(
    e: engine::EngineView,
    write: engine::WriteView,
    key: Seq<u8>,
    r: Result<Option<Seq<u8>>, StorageError>,
)
    requires
        ordered(e),
        e.mem.next_timestamp < u64::MAX - 1,
    ensures
        ({
            let after = e.reserved().applied(write, e.mem.next_timestamp);
            &&& after.reads(write.key, r) <==> r == Ok::<Option<Seq<u8>>, StorageError>(write.value)
            &&& key != write.key ==> (after.reads(key, r) <==> e.reads(key, r))
        }),
{
    let after = e.reserved().applied(write, e.mem.next_timestamp);
    assert(e.memtables()[e.pending.len() as int] == e.mem);
    assert(entries_before(e.mem.entries, e.mem.next_timestamp));
    lemma_newest_entry(e.pending, after.mem, write.key);
    lemma_newest_entry(e.pending, after.mem, key);
    lemma_newest_entry(e.pending, e.mem, key);
    assert(after.tree.candidates(key) == e.tree.candidates(key));
}

/// Two reads of a key give the same, and no read of an ordered engine fails.
pub proof fn law_reads_agree(
    e: engine::EngineView,
    key: Seq<u8>,
    a: Result<Option<Seq<u8>>, StorageError>,
    b: Result<Option<Seq<u8>>, StorageError>,
)
    requires
        ordered(e),
        e.reads(key, a),
        e.reads(key, b),
    ensures
        a is Ok,
        a == b,
{
    law_read_is_current(e, key, a);
    law_read_is_current(e, key, b);
    law_one_current_value(e, key, a->Ok_0, b->Ok_0);
}

/// A read gives the same before and after the memtable is set aside, and before and
/// after a waiting memtable is written out.
pub proof fn law_reads_through_flush(
    e: engine::EngineView,
    place: int,
    table: reader::TableView,
    key: Seq<u8>,
    a: Result<Option<Seq<u8>>, StorageError>,
    b: Result<Option<Seq<u8>>, StorageError>,
)
    requires
        ordered(e),
        e.reads(key, a),
        e.set_aside().reads(key, b) || may_flush(e, place, table) && e.flushed(
            place,
            Some(table),
        ).reads(key, b),
    ensures
        a == b,
{
    law_read_is_current(e, key, a);
    if e.set_aside().reads(key, b) {
        law_rotation_keeps_values(e, key, a->Ok_0);
        law_read_is_current(e.set_aside(), key, b);
        law_one_current_value(e.set_aside(), key, a->Ok_0, b->Ok_0);
    } else {
        let after = e.flushed(place, Some(table));
        law_flush_keeps_values(e, place, table, key, a->Ok_0);
        law_read_is_current(after, key, b);
        law_one_current_value(after, key, a->Ok_0, b->Ok_0);
    }
}

/// A read gives the same before and after a compaction.
pub proof fn law_reads_through_compaction(
    e: engine::EngineView,
    level: int,
    outputs: Seq<reader::TableView>,
    key: Seq<u8>,
    a: Result<Option<Seq<u8>>, StorageError>,
    b: Result<Option<Seq<u8>>, StorageError>,
)
    requires
        ordered(e),
        tree::compactable(e.tree, level, outputs),
        tree::replaces(outputs, e.tree.inputs(level)),
        e.reads(key, a),
        compacted(e, level, outputs).reads(key, b),
    ensures
        a == b,
{
    law_read_is_current(e, key, a);
    law_compaction_keeps_values(e, level, outputs, key, a->Ok_0);
    law_read_is_current(compacted(e, level, outputs), key, b);
    law_one_current_value(compacted(e, level, outputs), key, a->Ok_0, b->Ok_0);
}

/// The changes of the indexes that a write makes, both when it is applied and when it is
/// replayed: the vector index gets the embedding, the time-series index the time and the
/// tag index the tags that the write has, each if it is there, and nothing else changes.
pub proof fn law_write_reaches_the_indexes(
    image: Seq<u8>,
    write: engine::WriteView,
    timestamp: u64,
    set: IndexSet,
)
    ensures
        ({
            let vector = if set.vector && write.value is Some && write.embedding is Some {
                seq![
                    index::ActionView::InsertVector {
                        key: write.key,
                        embedding: write.embedding->Some_0,
                    },
                ]
            } else {
                Seq::empty()
            };
            let time = if set.time_series && write.placed is Some {
                seq![
                    index::ActionView::SetTimestamp {
                        key: write.key,
                        timestamp: write.placed->Some_0.0,
                    },
                ]
            } else {
                Seq::empty()
            };
            let tags = if set.tag && write.placed is Some {
                seq![
                    index::ActionView::AddTags { key: write.key, tags: write.placed->Some_0.1 },
                ]
            } else {
                Seq::empty()
            };
            let all = vector + time + tags;
            let log = image.take(log::scan(image, 0).valid) + log::log_bytes(
                write.records(timestamp),
            );
            &&& index::effects(write.records(timestamp), set) == all
            &&& log::all_loggable(write.records(timestamp)) ==> index::effects(
                log::scan(log, 0).records,
                set,
            ) == index::effects(log::scan(image, 0).records, set) + all
        }),
{
    let records = write.records(timestamp);
    let first = seq![write.key_record(timestamp)];
    lemma_effects_of_one(records[0], set);
    assert(first =~= seq![records[0]]);
    if write.placed is Some {
        let second = seq![records[1]];
        let third = seq![records[2]];
        assert(records =~= first + second + third);
        lemma_effects_of_one(records[1], set);
        lemma_effects_of_one(records[2], set);
        lemma_effects_concat(first + second, third, set);
        lemma_effects_concat(first, second, set);
    } else {
        assert(records =~= first);
    }
    let vector = if set.vector && write.value is Some && write.embedding is Some {
        seq![
            index::ActionView::InsertVector {
                key: write.key,
                embedding: write.embedding->Some_0,
            },
        ]
    } else {
        Seq::empty()
    };
    let time = if set.time_series && write.placed is Some {
        seq![
            index::ActionView::SetTimestamp {
                key: write.key,
                timestamp: write.placed->Some_0.0,
            },
        ]
    } else {
        Seq::empty()
    };
    let tags = if set.tag && write.placed is Some {
        seq![index::ActionView::AddTags { key: write.key, tags: write.placed->Some_0.1 }]
    } else {
        Seq::empty()
    };
    assert(index::effects(records, set) =~= vector + time + tags);
    if log::all_loggable(records) {
        log::law_append_after_cut(image, records);
        lemma_write_canonical(write, timestamp);
        lemma_effects_concat(log::scan(image, 0).records, records, set);
    }
}

/// The changes of one record.
proof fn lemma_effects_of_one(record: wal::WalRecordView, set: IndexSet)
    ensures
        index::effects(seq![record], set) == (match index::effect(record, set) {
            Some(a) => seq![a],
            None => Seq::empty(),
        }),
{
    let one = seq![record];
    assert(one.drop_last() =~= Seq::empty());
    assert(index::effects(one.drop_last(), set) =~= Seq::empty());
    match index::effect(record, set) {
        Some(a) => {
            assert(index::effects(one, set) =~= seq![a]);
        },
        None => {},
    }
}

/// The changes of two lists of records are those of one and then those of the other.
pub proof fn law_effects_of_parts(
    a: Seq<wal::WalRecordView>,
    b: Seq<wal::WalRecordView>,
    set: IndexSet,
)
    ensures
        index::effects(a + b, set) == index::effects(a, set) + index::effects(b, set),
{
    lemma_effects_concat(a, b, set);
}

/// Every edge that is added reaches the graph as it is, and so does every one that is
/// removed; every time that is set reaches the time-series index.
pub proof fn law_changes_reach_the_indexes(
    edges: Seq<engine::Edge>,
    removals: Seq<(Vec<u8>, Vec<u8>)>,
    times: Seq<(Vec<u8>, u64)>,
    timestamp: u64,
    set: IndexSet,
)
    ensures
        set.graph ==> index::effects(engine::edge_records(edges, timestamp), set) == Seq::new(
            edges.len(),
            |i: int|
                index::ActionView::AddEdge {
                    source: edges[i].source@,
                    target: edges[i].target@,
                    edge_type: index::text_view(edges[i].edge_type),
                    weight: edges[i].weight,
                },
        ),
        set.graph ==> index::effects(engine::edge_removals(removals, timestamp), set) == Seq::new(
            removals.len(),
            |i: int|
                index::ActionView::RemoveEdge { source: removals[i].0@, target: removals[i].1@ },
        ),
        set.time_series ==> index::effects(engine::time_records(times, timestamp), set) == Seq::new(
            times.len(),
            |i: int|
                index::ActionView::SetTimestamp { key: times[i].0@, timestamp: times[i].1 },
        ),
{
    if set.graph {
        let records = engine::edge_records(edges, timestamp);
        let wanted = Seq::new(
            edges.len(),
            |i: int|
                index::ActionView::AddEdge {
                    source: edges[i].source@,
                    target: edges[i].target@,
                    edge_type: index::text_view(edges[i].edge_type),
                    weight: edges[i].weight,
                },
        );
        lemma_effects_each(records, wanted, set);
        let records = engine::edge_removals(removals, timestamp);
        let wanted = Seq::new(
            removals.len(),
            |i: int|
                index::ActionView::RemoveEdge { source: removals[i].0@, target: removals[i].1@ },
        );
        lemma_effects_each(records, wanted, set);
    }
    if set.time_series {
        let records = engine::time_records(times, timestamp);
        let wanted = Seq::new(
            times.len(),
            |i: int|
                index::ActionView::SetTimestamp { key: times[i].0@, timestamp: times[i].1 },
        );
        lemma_effects_each(records, wanted, set);
    }
}

/// The changes of records each of which makes one.
proof fn lemma_effects_each(
    records: Seq<wal::WalRecordView>,
    wanted: Seq<index::ActionView>,
    set: IndexSet,
)
    requires
        records.len() == wanted.len(),
        forall|i: int|
            0 <= i < records.len() ==> index::effect(#[trigger] records[i], set) == Some(wanted[i]),
    ensures
        index::effects(records, set) == wanted,
    decreases records.len(),
{
    if records.len() > 0 {
        let init = records.drop_last();
        let some = wanted.drop_last();
        assert forall|i: int| 0 <= i < init.len() implies index::effect(
            #[trigger] init[i],
            set,
        ) == Some(some[i]) by {
            assert(init[i] == records[i]);
        }
        lemma_effects_each(init, some, set);
        let n = records.len() - 1;
        assert(index::effect(records[n], set) == Some(wanted[n]));
    }
    assert(index::effects(records, set) =~= wanted);
}

/// A replay makes the changes that were made when the records were logged: each tag set,
/// time, embedding and edge comes back as it was. An edge without a weight comes back
/// with the weight 1, which it has in the graph. The empty name is left out: an edge of
/// that name comes back without one.
pub proof fn law_replay_makes_the_same_change(record: wal::WalRecordView, set: IndexSet)
    requires
        record.edge_type != Some(Seq::<char>::empty()),
    ensures
        ({
            let first = index::effect(record, set);
            let again = index::effect(wal::canonical(record), set);
            &&& first is Some && !(record.record_type is AddEdge) ==> again == first
            &&& first matches Some(index::ActionView::AddEdge { source, target, edge_type, weight })
                ==> again == Some(
                index::ActionView::AddEdge {
                    source,
                    target,
                    edge_type,
                    weight: Some(
                        match weight {
                            Some(w) => w,
                            None => 0x3F800000,
                        },
                    ),
                },
            )
        }),
{
    reveal(wal::canonical);
}

/// A key that is removed is removed from every index that is there, and so are all the
/// edges that were given.
pub proof fn law_removal_reaches_all_indexes(
    key: Seq<u8>,
    edges: Seq<(Vec<u8>, Vec<u8>)>,
    set: IndexSet,
    timestamp: u64,
)
    ensures
        ({
            let actions = index::effects(
                engine::removal_records(key, edges, set, timestamp),
                set,
            );
            &&& set.vector ==> actions.contains(index::ActionView::RemoveVector { key })
            &&& set.time_series ==> actions.contains(index::ActionView::RemoveTimestamp { key })
            &&& set.tag ==> actions.contains(index::ActionView::RemoveTags { key })
            &&& set.graph ==> forall|i: int|
                0 <= i < edges.len() ==> actions.contains(
                    index::ActionView::RemoveEdge {
                        source: (#[trigger] edges[i]).0@,
                        target: edges[i].1@,
                    },
                )
            &&& actions.len() == (if set.vector {
                1int
            } else {
                0
            }) + (if set.time_series {
                1int
            } else {
                0
            }) + (if set.tag {
                1int
            } else {
                0
            }) + (if set.graph {
                edges.len() as int
            } else {
                0
            })
        }),
{
    let records = engine::removal_records(key, edges, set, timestamp);
    let vector = if set.vector {
        seq![index::ActionView::RemoveVector { key }]
    } else {
        Seq::empty()
    };
    let time = if set.time_series {
        seq![index::ActionView::RemoveTimestamp { key }]
    } else {
        Seq::empty()
    };
    let tag = if set.tag {
        seq![index::ActionView::RemoveTags { key }]
    } else {
        Seq::empty()
    };
    let graph = if set.graph {
        Seq::new(
            edges.len(),
            |i: int|
                index::ActionView::RemoveEdge { source: edges[i].0@, target: edges[i].1@ },
        )
    } else {
        Seq::empty()
    };
    let wanted = vector + time + tag + graph;
    lemma_effects_each(records, wanted, set);
    let v = vector.len() as int;
    let t = v + time.len();
    let g = t + tag.len();
    if set.vector {
        assert(wanted[0] == index::ActionView::RemoveVector { key });
    }
    if set.time_series {
        assert(wanted[v] == index::ActionView::RemoveTimestamp { key });
    }
    if set.tag {
        assert(wanted[t] == index::ActionView::RemoveTags { key });
    }
    if set.graph {
        assert forall|i: int| 0 <= i < edges.len() implies wanted.contains(
            index::ActionView::RemoveEdge {
                source: (#[trigger] edges[i]).0@,
                target: edges[i].1@,
            },
        ) by {
            assert(wanted[g + i] == index::ActionView::RemoveEdge {
                source: edges[i].0@,
                target: edges[i].1@,
            });
        }
    }
}

} // verus!
