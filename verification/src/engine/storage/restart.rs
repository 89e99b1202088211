//! What a restart finds: the tables that were written out and the log give back the
//! value of every key.
use crate::engine::error::StorageError;
use crate::engine::storage::compaction;
use crate::engine::storage::consistency;
use crate::engine::storage::engine;
use crate::engine::storage::flush;
use crate::engine::storage::log;
use crate::engine::storage::memtable;
use crate::engine::storage::recovery;
use crate::engine::storage::sstable::layout;
use crate::engine::storage::sstable::reader;
use crate::engine::storage::tasks;
use crate::engine::storage::tree;
use crate::engine::storage::wal;
use vstd::prelude::*;

verus! {

/// The entries after one more record of a log.
pub open spec fn with_record(
    entries: memtable::Entries,
    record: wal::WalRecordView,
) -> memtable::Entries {
    match recovery::entry_of(record) {
        Some(entry) => if entries.dom().contains(record.key) && entries[record.key].timestamp
            >= entry.timestamp {
            entries
        } else {
            entries.insert(record.key, entry)
        },
        None => entries,
    }
}

/// The newest entry of every key that the records of a log leave.
pub open spec fn latest(records: Seq<wal::WalRecordView>) -> memtable::Entries
    decreases records.len(),
{
    if records.len() == 0 {
        Map::empty()
    } else {
        with_record(latest(records.drop_last()), records.last())
    }
}

/// Whether an entry that is newer than a table's version of its key is newer than
/// everything in the table.
pub open spec fn mem_passes(m: memtable::Entries, t: reader::TableView) -> bool {
    forall|key: Seq<u8>|
        #![trigger m.dom().contains(key), tree::version(t, key)]
        m.dom().contains(key) && tree::version(t, key) is Some && m[key].timestamp
            > tree::version(t, key)->Some_0.timestamp ==> m[key].timestamp
            > compaction::table_stamp(t)
}

/// Whether a version of a table that is newer than another table's version of its key
/// is newer than everything in the other table.
pub open spec fn table_passes(a: reader::TableView, t: reader::TableView) -> bool {
    forall|key: Seq<u8>|
        #![trigger tree::version(a, key), tree::version(t, key)]
        tree::version(a, key) is Some && tree::version(t, key) is Some && tree::version(
            a,
            key,
        )->Some_0.timestamp > tree::version(t, key)->Some_0.timestamp ==> tree::version(
            a,
            key,
        )->Some_0.timestamp > compaction::table_stamp(t)
}

/// Whether an entry of a memtable that is newer than another memtable's entry of its
/// key is newer than all entries of the other.
pub open spec fn mem_passes_mem(m: memtable::Entries, b: memtable::Entries) -> bool {
    forall|key: Seq<u8>, q: Seq<u8>|
        #![trigger m.dom().contains(key), b.dom().contains(q)]
        m.dom().contains(key) && b.dom().contains(key) && b.dom().contains(q) && m[key].timestamp
            > b[key].timestamp ==> m[key].timestamp > b[q].timestamp
}

/// Whether timestamps rise from the tables of level 0 over the waiting memtables to
/// the memtable, as far as they have keys in common.
pub open spec fn dated(e: engine::EngineView) -> bool {
    let mems = e.memtables();
    let top = e.tree.levels[0];
    &&& forall|i: int, k: int|
        #![trigger mems[i], top[k]]
        0 <= i < mems.len() && 0 <= k < top.len() ==> mem_passes(mems[i].entries, top[k])
    &&& forall|a: int, b: int|
        0 <= a < top.len() && 0 <= b < top.len() ==> table_passes(
            #[trigger] top[a],
            #[trigger] top[b],
        )
    &&& forall|i: int, j: int|
        0 <= i < j < mems.len() ==> mem_passes_mem(
            (#[trigger] mems[j]).entries,
            (#[trigger] mems[i]).entries,
        )
}

/// Whether the newest entry of a key in the log is what memory has of it, or, where
/// memory has nothing, the newest version in the tables; and whether memory has
/// nothing that the log has not.
pub open spec fn tied(e: engine::EngineView, logged: memtable::Entries, key: Seq<u8>) -> bool {
    if logged.dom().contains(key) {
        ||| e.in_memory(key) == Some(logged[key])
        ||| e.in_memory(key) is None && tree::newest(
            e.tree.levels,
            key,
            Some(flush::record_of(key, logged[key])),
        )
    } else {
        e.in_memory(key) is None
    }
}

/// Whether all that is in memory alone is in the log, and the log has nothing that is
/// newer.
pub open spec fn in_log(e: engine::EngineView, records: Seq<wal::WalRecordView>) -> bool {
    &&& consistency::stamped(records, e.mem.next_timestamp)
    &&& forall|key: Seq<u8>| #[trigger] tied(e, latest(records), key)
}

/// Whether a restart with this log finds the state that there is.
pub open spec fn durable(e: engine::EngineView, image: Seq<u8>) -> bool {
    &&& consistency::ordered(e)
    &&& dated(e)
    &&& in_log(e, log::scan(image, 0).records)
}

/// A part of a log can be replayed if the whole can.
proof fn lemma_replayed_prefix(
    mem: memtable::MemView,
    a: Seq<wal::WalRecordView>,
    b: Seq<wal::WalRecordView>,
)
    requires
        recovery::replayed(mem, a + b).1 is None,
    ensures
        recovery::replayed(mem, a).1 is None,
    decreases a.len(),
{
    if a.len() > 0 {
        assert((a + b)[0] == a[0]);
        assert((a + b).skip(1) =~= a.skip(1) + b);
        lemma_replayed_prefix(recovery::replay_step(mem, a[0])->Ok_0, a.skip(1), b);
    }
}

/// Replaying a log leaves the newest entry of every key.
proof fn lemma_replayed_latest(mem: memtable::MemView, records: Seq<wal::WalRecordView>)
    requires
        mem.entries == memtable::Entries::empty(),
        recovery::replayed(mem, records).1 is None,
    ensures
        recovery::replayed(mem, records).0.entries == latest(records),
    decreases records.len(),
{
    if records.len() > 0 {
        let init = records.drop_last();
        let last = seq![records.last()];
        assert(records =~= init + last);
        lemma_replayed_prefix(mem, init, last);
        lemma_replayed_latest(mem, init);
        consistency::lemma_replayed_concat(mem, init, last);
        let before = recovery::replayed(mem, init).0;
        assert(last.skip(1) =~= Seq::empty());
        assert(recovery::replay_step(before, last[0]) is Ok);
        let next = recovery::replay_step(before, last[0])->Ok_0;
        assert(recovery::replayed(next, last.skip(1)) == (next, None::<StorageError>));
        assert(recovery::replayed(before, last) == (next, None::<StorageError>));
    }
}

/// The newest entries are no newer than the records.
proof fn lemma_latest_stamped(records: Seq<wal::WalRecordView>, next: u64)
    requires
        consistency::stamped(records, next),
    ensures
        consistency::entries_before(latest(records), next),
    decreases records.len(),
{
    if records.len() > 0 {
        let init = records.drop_last();
        assert forall|i: int|
            0 <= i < init.len() && recovery::entry_of(
                #[trigger] init[i],
            ) is Some implies init[i].timestamp < next by {
            assert(init[i] == records[i]);
        }
        lemma_latest_stamped(init, next);
        assert(records[records.len() - 1] == records.last());
    }
}

/// No version of a table is newer than the newest record of the table.
proof fn lemma_stamp(table: reader::TableView, key: Seq<u8>)
    requires
        tree::sound(table),
        tree::version(table, key) is Some,
    ensures
        tree::version(table, key)->Some_0.timestamp <= compaction::table_stamp(table),
{
    tree::lemma_version(table, key);
    let all = tree::contents(table);
    let r = tree::version(table, key)->Some_0;
    let i = choose|i: int| 0 <= i < all.len() && all[i] == r;
    consistency::lemma_newest_record(all, i);
}

/// The newest record is below what all records are below.
proof fn lemma_newest_below(records: Seq<layout::RecordView>, bound: u64)
    requires
        bound > 0,
        forall|i: int| 0 <= i < records.len() ==> (#[trigger] records[i]).timestamp < bound,
    ensures
        compaction::newest_record(records) < bound,
    decreases records.len(),
{
    if records.len() > 0 {
        let init = records.drop_last();
        assert forall|i: int| 0 <= i < init.len() implies (#[trigger] init[i]).timestamp < bound by {
            assert(init[i] == records[i]);
        }
        lemma_newest_below(init, bound);
        assert(records[records.len() - 1] == records.last());
    }
}

/// The newest record of a table is below what all versions are below.
proof fn lemma_stamp_below(table: reader::TableView, bound: u64)
    requires
        tree::sound(table),
        bound > 0,
        consistency::table_before(table, bound),
    ensures
        compaction::table_stamp(table) < bound,
{
    let all = tree::contents(table);
    assert forall|i: int| 0 <= i < all.len() implies (#[trigger] all[i]).timestamp < bound by {
        assert(all.contains(all[i]));
        tree::lemma_record_is_version(table, all[i]);
        assert(tree::version(table, all[i].key) is Some);
    }
    lemma_newest_below(all, bound);
}

/// The newest records of some tables are below what all versions are below.
proof fn lemma_stamps_below(tables: Seq<reader::TableView>, bound: u64)
    requires
        bound > 0,
        forall|k: int|
            0 <= k < tables.len() ==> tree::sound(#[trigger] tables[k]) && consistency::table_before(
                tables[k],
                bound,
            ),
    ensures
        compaction::newest_stamp(tables) < bound,
    decreases tables.len(),
{
    if tables.len() > 0 {
        let init = tables.drop_last();
        assert forall|k: int| 0 <= k < init.len() implies tree::sound(#[trigger] init[k])
            && consistency::table_before(init[k], bound) by {
            assert(init[k] == tables[k]);
        }
        lemma_stamps_below(init, bound);
        assert(tables[tables.len() - 1] == tables.last());
        lemma_stamp_below(tables.last(), bound);
    }
}

/// The newest timestamp of a tree is below what all versions are below.
proof fn lemma_mark_below(levels: Seq<Seq<reader::TableView>>, bound: u64)
    requires
        bound > 0,
        forall|l: int, k: int|
            #![trigger levels[l][k]]
            0 <= l < levels.len() && 0 <= k < levels[l].len() ==> tree::sound(levels[l][k])
                && consistency::table_before(levels[l][k], bound),
    ensures
        compaction::high_mark(levels) < bound,
    decreases levels.len(),
{
    if levels.len() > 0 {
        let init = levels.drop_last();
        assert forall|l: int, k: int|
            #![trigger init[l][k]]
            0 <= l < init.len() && 0 <= k < init[l].len() implies tree::sound(init[l][k])
            && consistency::table_before(init[l][k], bound) by {
            assert(init[l] == levels[l]);
            assert(levels[l][k] == init[l][k]);
        }
        lemma_mark_below(init, bound);
        let last = levels.last();
        assert forall|k: int| 0 <= k < last.len() implies tree::sound(#[trigger] last[k])
            && consistency::table_before(last[k], bound) by {
            assert(levels[levels.len() - 1][k] == last[k]);
        }
        lemma_stamps_below(last, bound);
    }
}

/// A table that was flushed is no newer than what is newer than all its entries.
proof fn lemma_carried_stamp(table: reader::TableView, entries: memtable::Entries, bound: u64)
    requires
        flush::carries(table, entries),
        bound > 0,
        consistency::entries_before(entries, bound),
    ensures
        compaction::table_stamp(table) < bound,
{
    lemma_stamp_below(table, bound);
}

/// The log after some records were appended to what of it can be read.
pub open spec fn appended(image: Seq<u8>, records: Seq<wal::WalRecordView>) -> Seq<u8> {
    image.take(log::scan(image, 0).valid) + log::log_bytes(records)
}

/// One more record.
proof fn lemma_latest_push(records: Seq<wal::WalRecordView>, r: wal::WalRecordView)
    ensures
        latest(records.push(r)) == with_record(latest(records), r),
{
    assert(records.push(r).drop_last() =~= records);
}

/// Records that leave no entries change nothing.
proof fn lemma_latest_without_entries(
    records: Seq<wal::WalRecordView>,
    more: Seq<wal::WalRecordView>,
)
    requires
        forall|i: int| 0 <= i < more.len() ==> recovery::entry_of(#[trigger] more[i]) is None,
    ensures
        latest(records + more) == latest(records),
    decreases more.len(),
{
    if more.len() == 0 {
        assert(records + more =~= records);
    } else {
        let init = more.drop_last();
        assert forall|i: int| 0 <= i < init.len() implies recovery::entry_of(
            #[trigger] init[i],
        ) is None by {
            assert(init[i] == more[i]);
        }
        lemma_latest_without_entries(records, init);
        assert(records + more =~= (records + init).push(more.last()));
        lemma_latest_push(records + init, more.last());
        assert(more[more.len() - 1] == more.last());
    }
}

/// The records of a write leave its entry, if it is newer than what there was.
proof fn lemma_latest_write(
    records: Seq<wal::WalRecordView>,
    write: engine::WriteView,
    timestamp: u64,
)
    requires
        latest(records).dom().contains(write.key) ==> latest(records)[write.key].timestamp
            < timestamp,
    ensures
        latest(records + write.records(timestamp)) == latest(records).insert(
            write.key,
            write.entry(timestamp),
        ),
{
    let own = write.records(timestamp);
    let first = own[0];
    let rest = own.skip(1);
    assert(recovery::entry_of(first) == Some(write.entry(timestamp)));
    lemma_latest_push(records, first);
    assert forall|i: int| 0 <= i < rest.len() implies recovery::entry_of(
        #[trigger] rest[i],
    ) is None by {
        assert(rest[i] == own[i + 1]);
    }
    lemma_latest_without_entries(records.push(first), rest);
    assert(records + own =~= records.push(first) + rest);
}

/// The records of a write are no newer than the write.
proof fn lemma_stamped_write(
    records: Seq<wal::WalRecordView>,
    write: engine::WriteView,
    timestamp: u64,
)
    requires
        consistency::stamped(records, timestamp),
        timestamp < u64::MAX,
    ensures
        consistency::stamped(records + write.records(timestamp), (timestamp + 1) as u64),
{
    let own = write.records(timestamp);
    let all = records + own;
    assert forall|i: int|
        0 <= i < all.len() && recovery::entry_of(#[trigger] all[i]) is Some implies all[i].timestamp
        < (timestamp + 1) as u64 by {
        if i < records.len() {
            assert(all[i] == records[i]);
        } else {
            assert(all[i] == own[i - records.len()]);
        }
    }
}

/// Timestamps go on to rise with a write.
proof fn lemma_write_dated(e: engine::EngineView, write: engine::WriteView)
    requires
        consistency::ordered(e),
        dated(e),
        e.mem.next_timestamp < u64::MAX - 1,
    ensures
        dated(e.reserved().applied(write, e.mem.next_timestamp)),
{
    let next = e.mem.next_timestamp;
    let after = e.reserved().applied(write, next);
    let mems = e.memtables();
    let now = after.memtables();
    let n = e.pending.len() as int;
    let top = e.tree.levels[0];
    assert(mems[n] == e.mem);
    assert(now[n] == after.mem);
    assert(consistency::entries_before(mems[n].entries, next));
    assert(after.mem.entries == e.mem.entries.insert(write.key, write.entry(next)));
    assert forall|i: int, k: int|
        #![trigger now[i], top[k]]
        0 <= i < now.len() && 0 <= k < top.len() implies mem_passes(now[i].entries, top[k]) by {
        assert(mem_passes(mems[i].entries, top[k]));
        if i < n {
            assert(now[i] == mems[i]);
        } else if next > 0 {
            assert(consistency::table_before(e.tree.levels[0][k], next));
            assert(tree::all_sound(e.tree.levels[0]));
            lemma_stamp_below(top[k], next);
        }
    }
    assert forall|i: int, j: int| 0 <= i < j < now.len() implies mem_passes_mem(
        (#[trigger] now[j]).entries,
        (#[trigger] now[i]).entries,
    ) by {
        assert(now[i] == mems[i]);
        assert(mem_passes_mem(mems[j].entries, mems[i].entries));
        assert(consistency::entries_before(mems[i].entries, next));
    }
}

/// An entry of the log is older than the next write.
proof fn lemma_write_tied(
    e: engine::EngineView,
    records: Seq<wal::WalRecordView>,
    write: engine::WriteView,
)
    requires
        consistency::ordered(e),
        dated(e),
        e.mem.next_timestamp < u64::MAX - 1,
        consistency::stamped(records, e.mem.next_timestamp),
        forall|key: Seq<u8>|
            key != write.key ==> #[trigger] tied(e, latest(records), key),
    ensures
        ({
            let next = e.mem.next_timestamp;
            let after = e.reserved().applied(write, next);
            &&& consistency::ordered(after)
            &&& dated(after)
            &&& in_log(after, records + write.records(next))
        }),
{
    let next = e.mem.next_timestamp;
    let after = e.reserved().applied(write, next);
    consistency::law_write_is_current(e, write);
    lemma_write_dated(e, write);
    lemma_latest_stamped(records, next);
    lemma_latest_write(records, write, next);
    lemma_stamped_write(records, write, next);
    assert(e.memtables()[e.pending.len() as int] == e.mem);
    assert(consistency::entries_before(e.mem.entries, next));
    assert(after.mem.next_timestamp == next + 1);
    let logged = latest(records + write.records(next));
    assert forall|key: Seq<u8>| #[trigger] tied(after, logged, key) by {
        consistency::lemma_newest_entry(e.pending, after.mem, key);
        consistency::lemma_newest_entry(e.pending, e.mem, key);
        if key != write.key {
            assert(tied(e, latest(records), key));
        }
    }
}

/// A write that is logged and applied is found by a restart.
pub proof fn law_write_is_durable(
    e: engine::EngineView,
    image: Seq<u8>,
    write: engine::WriteView,
)
    requires
        durable(e, image),
        e.mem.next_timestamp < u64::MAX - 1,
        log::all_loggable(write.records(e.mem.next_timestamp)),
    ensures
        durable(
            e.reserved().applied(write, e.mem.next_timestamp),
            appended(image, write.records(e.mem.next_timestamp)),
        ),
{
    let next = e.mem.next_timestamp;
    let own = write.records(next);
    log::law_append_after_cut(image, own);
    consistency::lemma_write_canonical(write, next);
    lemma_write_tied(e, log::scan(image, 0).records, write);
}

/// A write for which there was no room is found by a restart when it was begun anew:
/// it was logged a first time, the memtable was set aside, and it was logged again and
/// applied.
pub proof fn law_retried_write_is_durable(
    e: engine::EngineView,
    image: Seq<u8>,
    write: engine::WriteView,
)
    requires
        durable(e, image),
        e.mem.next_timestamp < u64::MAX - 2,
        log::all_loggable(write.records(e.mem.next_timestamp)),
        log::all_loggable(write.records((e.mem.next_timestamp + 1) as u64)),
    ensures
        ({
            let first = e.mem.next_timestamp;
            let again = (first + 1) as u64;
            durable(
                e.reserved().set_aside().reserved().applied(write, again),
                appended(appended(image, write.records(first)), write.records(again)),
            )
        }),
{
    let first = e.mem.next_timestamp;
    let again = (first + 1) as u64;
    let records = log::scan(image, 0).records;
    let image1 = appended(image, write.records(first));
    log::law_append_after_cut(image, write.records(first));
    consistency::lemma_write_canonical(write, first);
    let records1 = log::scan(image1, 0).records;
    assert(records1 == records + write.records(first));
    law_reservation_is_durable(e, image);
    law_rotation_is_durable(e.reserved(), image);
    let aside = e.reserved().set_aside();
    lemma_latest_stamped(records, first);
    lemma_latest_write(records, write, first);
    lemma_stamped_write(records, write, first);
    assert forall|key: Seq<u8>| key != write.key implies #[trigger] tied(
        aside,
        latest(records1),
        key,
    ) by {
        assert(tied(aside, latest(records), key));
    }
    log::law_append_after_cut(image1, write.records(again));
    consistency::lemma_write_canonical(write, again);
    lemma_write_tied(aside, records1, write);
}

/// Reserving a timestamp changes nothing that a restart finds.
pub proof fn law_reservation_is_durable(e: engine::EngineView, image: Seq<u8>)
    requires
        durable(e, image),
        e.mem.next_timestamp < u64::MAX,
    ensures
        durable(e.reserved(), image),
{
    let after = e.reserved();
    let mems = e.memtables();
    let now = after.memtables();
    let n = e.pending.len() as int;
    let next = e.mem.next_timestamp;
    assert forall|i: int| 0 <= i < now.len() implies (#[trigger] now[i]).entries
        == mems[i].entries by {
        if i == n {
            assert(now[n] == after.mem && mems[n] == e.mem);
        }
    }
    assert forall|i: int, j: int| 0 <= i < j < now.len() implies consistency::entries_above(
        (#[trigger] now[j]).entries,
        (#[trigger] now[i]).entries,
    ) by {
        assert(consistency::entries_above(mems[j].entries, mems[i].entries));
    }
    assert forall|i: int| 0 <= i < now.len() implies consistency::entries_before(
        (#[trigger] now[i]).entries,
        after.mem.next_timestamp,
    ) by {
        assert(consistency::entries_before(mems[i].entries, next));
    }
    assert forall|i: int, l: int, k: int|
        #![trigger now[i], after.tree.levels[l][k]]
        0 <= i < now.len() && 0 <= l < after.tree.levels.len() && 0 <= k
            < after.tree.levels[l].len() implies consistency::entries_above_table(
        now[i].entries,
        after.tree.levels[l][k],
    ) by {
        assert(consistency::entries_above_table(mems[i].entries, e.tree.levels[l][k]));
    }
    assert forall|l: int, k: int|
        #![trigger after.tree.levels[l][k]]
        0 <= l < after.tree.levels.len() && 0 <= k
            < after.tree.levels[l].len() implies consistency::table_before(
        after.tree.levels[l][k],
        after.mem.next_timestamp,
    ) by {
        assert(consistency::table_before(e.tree.levels[l][k], next));
    }
    let top = e.tree.levels[0];
    assert forall|i: int, k: int|
        #![trigger now[i], top[k]]
        0 <= i < now.len() && 0 <= k < top.len() implies mem_passes(now[i].entries, top[k]) by {
        assert(mem_passes(mems[i].entries, top[k]));
    }
    assert forall|i: int, j: int| 0 <= i < j < now.len() implies mem_passes_mem(
        (#[trigger] now[j]).entries,
        (#[trigger] now[i]).entries,
    ) by {
        assert(mem_passes_mem(mems[j].entries, mems[i].entries));
    }
    let records = log::scan(image, 0).records;
    assert forall|key: Seq<u8>| #[trigger] tied(after, latest(records), key) by {
        assert(tied(e, latest(records), key));
        consistency::lemma_newest_entry(e.pending, after.mem, key);
        consistency::lemma_newest_entry(e.pending, e.mem, key);
    }
}

/// Changes of the indexes that are logged change nothing that a restart finds of
/// values.
pub proof fn law_change_is_durable(
    e: engine::EngineView,
    image: Seq<u8>,
    records: Seq<wal::WalRecordView>,
)
    requires
        durable(e, image),
        log::all_loggable(records),
        forall|i: int| 0 <= i < records.len() ==> recovery::entry_of(#[trigger] records[i]) is None,
    ensures
        durable(e, appended(image, records)),
{
    let before = log::scan(image, 0).records;
    let more = log::canonicals(records);
    log::law_append_after_cut(image, records);
    assert forall|i: int| 0 <= i < more.len() implies recovery::entry_of(
        #[trigger] more[i],
    ) is None by {
        reveal(wal::canonical);
        assert(more[i] == wal::canonical(records[i]));
        assert(recovery::entry_of(records[i]) is None);
    }
    lemma_latest_without_entries(before, more);
    let all = before + more;
    assert forall|i: int|
        0 <= i < all.len() && recovery::entry_of(#[trigger] all[i]) is Some implies all[i].timestamp
        < e.mem.next_timestamp by {
        if i < before.len() {
            assert(all[i] == before[i]);
        } else {
            assert(all[i] == more[i - before.len()]);
        }
    }
    assert forall|key: Seq<u8>| #[trigger] tied(e, latest(all), key) by {
        assert(tied(e, latest(before), key));
    }
}

/// Setting the memtable aside changes nothing that a restart finds.
pub proof fn law_rotation_is_durable(e: engine::EngineView, image: Seq<u8>)
    requires
        durable(e, image),
    ensures
        durable(e.set_aside(), image),
{
    let after = e.set_aside();
    let mems = e.memtables();
    let now = after.memtables();
    let n = mems.len() as int;
    let top = e.tree.levels[0];
    consistency::law_rotation_keeps_values(e, Seq::empty(), None);
    assert(now =~= mems.push(after.mem));
    assert forall|i: int, k: int|
        #![trigger now[i], top[k]]
        0 <= i < now.len() && 0 <= k < top.len() implies mem_passes(now[i].entries, top[k]) by {
        if i < n {
            assert(mem_passes(mems[i].entries, top[k]));
        }
    }
    assert forall|i: int, j: int| 0 <= i < j < now.len() implies mem_passes_mem(
        (#[trigger] now[j]).entries,
        (#[trigger] now[i]).entries,
    ) by {
        if j < n {
            assert(mem_passes_mem(mems[j].entries, mems[i].entries));
        }
    }
    let records = log::scan(image, 0).records;
    assert forall|key: Seq<u8>| #[trigger] tied(after, latest(records), key) by {
        assert(tied(e, latest(records), key));
        consistency::lemma_newest_entry(mems, after.mem, key);
    }
}

/// Where a memtable stood before one was taken out.
spec fn before_removal(i: int, place: int) -> int {
    if i < place {
        i
    } else {
        i + 1
    }
}

/// Timestamps go on to rise when a waiting memtable is written out.
proof fn lemma_flush_dated(e: engine::EngineView, place: int, table: reader::TableView)
    requires
        consistency::ordered(e),
        dated(e),
        consistency::may_flush(e, place, table),
    ensures
        dated(e.flushed(place, Some(table))),
{
    let after = e.flushed(place, Some(table));
    let mems = e.memtables();
    let now = after.memtables();
    let top = e.tree.levels[0];
    let higher = after.tree.levels[0];
    let gone = e.pending[place].entries;
    let n = top.len() as int;
    assert(mems[place] == e.pending[place]);
    assert(now =~= mems.remove(place));
    assert(higher =~= top.push(table));
    assert forall|i: int, k: int|
        #![trigger now[i], higher[k]]
        0 <= i < now.len() && 0 <= k < higher.len() implies mem_passes(
        now[i].entries,
        higher[k],
    ) by {
        let a = before_removal(i, place);
        assert(now[i] == mems[a]);
        if k < n {
            assert(higher[k] == top[k]);
            assert(mem_passes(mems[a].entries, top[k]));
        } else if a < place {
            assert(mems[a] == e.pending[a]);
            assert(memtable::apart(e.pending[a].entries, gone));
        } else {
            let m = mems[a].entries;
            assert(mem_passes_mem(m, mems[place].entries));
            assert forall|key: Seq<u8>|
                #![trigger m.dom().contains(key), tree::version(table, key)]
                m.dom().contains(key) && tree::version(table, key) is Some && m[key].timestamp
                    > tree::version(table, key)->Some_0.timestamp implies m[key].timestamp
                > compaction::table_stamp(table) by {
                assert(gone.dom().contains(key));
                lemma_carried_stamp(table, gone, m[key].timestamp);
            }
        }
    }
    assert forall|a: int, b: int|
        0 <= a < higher.len() && 0 <= b < higher.len() implies table_passes(
        #[trigger] higher[a],
        #[trigger] higher[b],
    ) by {
        if a < n && b < n {
            assert(higher[a] == top[a] && higher[b] == top[b]);
        } else if a == n && b < n {
            assert(higher[b] == top[b]);
            assert(mem_passes(mems[place].entries, top[b]));
            assert forall|key: Seq<u8>|
                #![trigger tree::version(table, key), tree::version(top[b], key)]
                tree::version(table, key) is Some && tree::version(top[b], key) is Some
                    && tree::version(table, key)->Some_0.timestamp > tree::version(
                    top[b],
                    key,
                )->Some_0.timestamp implies tree::version(table, key)->Some_0.timestamp
                > compaction::table_stamp(top[b]) by {
                assert(gone.dom().contains(key));
            }
        } else if a < n && b == n {
            assert(higher[a] == top[a]);
            assert(consistency::entries_above_table(mems[place].entries, e.tree.levels[0][a]));
            assert forall|key: Seq<u8>|
                #![trigger tree::version(top[a], key), tree::version(table, key)]
                tree::version(top[a], key) is Some && tree::version(table, key) is Some
                    && tree::version(top[a], key)->Some_0.timestamp > tree::version(
                    table,
                    key,
                )->Some_0.timestamp implies tree::version(top[a], key)->Some_0.timestamp
                > compaction::table_stamp(table) by {
                assert(gone.dom().contains(key));
            }
        }
    }
    assert forall|i: int, j: int| 0 <= i < j < now.len() implies mem_passes_mem(
        (#[trigger] now[j]).entries,
        (#[trigger] now[i]).entries,
    ) by {
        let a = before_removal(i, place);
        let b = before_removal(j, place);
        assert(now[i] == mems[a] && now[j] == mems[b]);
        assert(mem_passes_mem(mems[b].entries, mems[a].entries));
    }
}

/// Writing a waiting memtable out changes nothing that a restart finds.
pub proof fn law_flush_is_durable(
    e: engine::EngineView,
    image: Seq<u8>,
    place: int,
    table: reader::TableView,
)
    requires
        durable(e, image),
        consistency::may_flush(e, place, table),
    ensures
        durable(e.flushed(place, Some(table)), image),
{
    let after = e.flushed(place, Some(table));
    let mems = e.memtables();
    let records = log::scan(image, 0).records;
    let gone = e.pending[place].entries;
    assert(mems[place] == e.pending[place]);
    assert(after.memtables() =~= mems.remove(place));
    assert forall|i: int| 0 <= i < place implies memtable::apart(
        (#[trigger] mems[i]).entries,
        mems[place].entries,
    ) by {
        assert(mems[i] == e.pending[i]);
    }
    consistency::lemma_may_come(e, place, table);
    consistency::lemma_ordered_after_flush_of(e, place, table);
    lemma_flush_dated(e, place, table);
    assert(after.tree == tree::with_table(e.tree, table));
    assert forall|key: Seq<u8>| #[trigger] tied(after, latest(records), key) by {
        assert(tied(e, latest(records), key));
        consistency::lemma_without_one(mems, place, key);
        tree::lemma_some_newest(e.tree.levels, key);
        let r = choose|r: Option<layout::RecordView>| tree::newest(e.tree.levels, key, r);
        tree::law_new_table(e.tree, table, key, r);
        if after.in_memory(key) is None {
            if e.in_memory(key) is Some {
                assert(gone.dom().contains(key));
            } else if latest(records).dom().contains(key) {
                let x = Some(flush::record_of(key, latest(records)[key]));
                tree::lemma_newest_unique(tree::joined(e.tree.levels), key, r, x);
                assert(!gone.dom().contains(key));
            }
        }
    }
}

/// A waiting memtable without entries can be dropped: that changes nothing that a
/// restart finds.
pub proof fn law_empty_flush_is_durable(e: engine::EngineView, image: Seq<u8>, place: int)
    requires
        durable(e, image),
        0 <= place < e.pending.len(),
        e.pending[place].entries == memtable::Entries::empty(),
    ensures
        durable(e.flushed(place, None), image),
        forall|key: Seq<u8>| e.flushed(place, None).in_memory(key) == #[trigger] e.in_memory(key),
{
    let after = e.flushed(place, None);
    let mems = e.memtables();
    let now = after.memtables();
    let next = e.mem.next_timestamp;
    let top = e.tree.levels[0];
    let records = log::scan(image, 0).records;
    assert(mems[place] == e.pending[place]);
    assert(now =~= mems.remove(place));
    assert forall|i: int, j: int| 0 <= i < j < now.len() implies consistency::entries_above(
        (#[trigger] now[j]).entries,
        (#[trigger] now[i]).entries,
    ) && mem_passes_mem(now[j].entries, now[i].entries) by {
        let a = before_removal(i, place);
        let b = before_removal(j, place);
        assert(now[i] == mems[a] && now[j] == mems[b]);
        assert(consistency::entries_above(mems[b].entries, mems[a].entries));
        assert(mem_passes_mem(mems[b].entries, mems[a].entries));
    }
    assert forall|i: int| 0 <= i < now.len() implies consistency::entries_before(
        (#[trigger] now[i]).entries,
        next,
    ) by {
        assert(now[i] == mems[before_removal(i, place)]);
    }
    assert forall|i: int, l: int, k: int|
        #![trigger now[i], after.tree.levels[l][k]]
        0 <= i < now.len() && 0 <= l < after.tree.levels.len() && 0 <= k
            < after.tree.levels[l].len() implies consistency::entries_above_table(
        now[i].entries,
        after.tree.levels[l][k],
    ) by {
        let a = before_removal(i, place);
        assert(now[i] == mems[a]);
        assert(consistency::entries_above_table(mems[a].entries, e.tree.levels[l][k]));
    }
    assert forall|i: int, k: int|
        #![trigger now[i], top[k]]
        0 <= i < now.len() && 0 <= k < top.len() implies mem_passes(now[i].entries, top[k]) by {
        let a = before_removal(i, place);
        assert(now[i] == mems[a]);
        assert(mem_passes(mems[a].entries, top[k]));
    }
    assert forall|key: Seq<u8>| after.in_memory(key) == #[trigger] e.in_memory(key) by {
        consistency::lemma_without_one(mems, place, key);
    }
    assert forall|key: Seq<u8>| #[trigger] tied(after, latest(records), key) by {
        assert(tied(e, latest(records), key));
        assert(after.in_memory(key) == e.in_memory(key));
    }
}

/// Compaction changes nothing that a restart finds.
pub proof fn law_compaction_is_durable(
    e: engine::EngineView,
    image: Seq<u8>,
    level: int,
    outputs: Seq<reader::TableView>,
)
    requires
        durable(e, image),
        tree::compactable(e.tree, level, outputs),
        tree::replaces(outputs, e.tree.inputs(level)),
    ensures
        durable(consistency::compacted(e, level, outputs), image),
{
    let after = consistency::compacted(e, level, outputs);
    let records = log::scan(image, 0).records;
    let top = after.tree.levels[0];
    tree::lemma_some_newest(e.tree.levels, Seq::empty());
    let r = choose|r: Option<layout::RecordView>|
        tree::newest(e.tree.levels, Seq::empty(), r);
    let v = match e.in_memory(Seq::empty()) {
        Some(entry) => entry.value,
        None => match r {
            Some(record) => record.value,
            None => None,
        },
    };
    assert(consistency::current(e, Seq::empty(), v));
    consistency::law_compaction_keeps_values(e, level, outputs, Seq::empty(), v);
    assert(after.memtables() == e.memtables());
    if level == 0 {
        assert(top.len() == 0) by {
            if top.len() > 0 {
                tree::lemma_after(e.tree, level, outputs, 0, 0);
            }
        }
    } else {
        assert(top == e.tree.levels[0]);
    }
    assert(dated(after));
    assert forall|key: Seq<u8>| #[trigger] tied(after, latest(records), key) by {
        assert(tied(e, latest(records), key));
        assert(after.in_memory(key) == e.in_memory(key));
        if latest(records).dom().contains(key) && e.in_memory(key) is None {
            tree::law_compaction_keeps_newest(
                e.tree,
                level,
                outputs,
                key,
                Some(flush::record_of(key, latest(records)[key])),
            );
        }
    }
}

/// The log can be emptied when nothing is in memory alone: a restart finds the same
/// without it.
pub proof fn law_emptied_log_is_durable(e: engine::EngineView, image: Seq<u8>)
    requires
        durable(e, image),
        tasks::all_on_disk(e),
    ensures
        durable(e, Seq::empty()),
{
    let records = log::scan(Seq::<u8>::empty(), 0).records;
    assert(records =~= Seq::empty());
    let mems = e.memtables();
    assert(mems =~= seq![e.mem]);
    assert forall|key: Seq<u8>| #[trigger] tied(e, latest(records), key) by {
        consistency::lemma_newest_entry(e.pending, e.mem, key);
    }
}

/// Whether the tables of one tree are those of another, loaded again in any order and
/// level 0 then ordered by age.
pub open spec fn reloaded(
    before: Seq<Seq<reader::TableView>>,
    after: Seq<Seq<reader::TableView>>,
) -> bool {
    &&& before.len() == after.len()
    &&& forall|l: int|
        0 <= l < before.len() ==> (#[trigger] before[l]).to_multiset() == after[l].to_multiset()
    &&& before.len() > 0 ==> compaction::by_age(after[0])
}

/// The tables of a level that was loaded again are the same, each once.
proof fn lemma_reloaded_level(before: Seq<reader::TableView>, after: Seq<reader::TableView>)
    requires
        tree::distinct_paths(before),
        before.to_multiset() == after.to_multiset(),
    ensures
        forall|t: reader::TableView| #[trigger] after.contains(t) <==> before.contains(t),
        after.no_duplicates(),
        tree::distinct_paths(after),
{
    broadcast use vstd::seq_lib::group_to_multiset_ensures;

    assert(before.no_duplicates()) by {
        assert forall|i: int, j: int|
            0 <= i < before.len() && 0 <= j < before.len() && i != j implies before[i]
            != before[j] by {
            if i < j {
                assert(before[i].path != before[j].path);
            } else {
                assert(before[j].path != before[i].path);
            }
        }
    }
    before.lemma_multiset_has_no_duplicates();
    after.lemma_multiset_has_no_duplicates_conv();
    assert forall|t: reader::TableView| #[trigger] after.contains(t) <==> before.contains(t) by {
        vstd::seq_lib::to_multiset_contains(after, t);
        vstd::seq_lib::to_multiset_contains(before, t);
    }
    assert forall|i: int, j: int| 0 <= i < j < after.len() implies (#[trigger] after[i]).path != (
    #[trigger] after[j]).path by {
        assert(after.contains(after[i]) && after.contains(after[j]));
        let a = choose|a: int| 0 <= a < before.len() && before[a] == after[i];
        let b = choose|b: int| 0 <= b < before.len() && before[b] == after[j];
        assert(after[i] != after[j]);
        if a < b {
            assert(before[a].path != before[b].path);
        } else {
            assert(before[b].path != before[a].path);
        }
    }
}

/// Two different tables of level 0 stand in the order of their newest timestamps.
proof fn lemma_older_stands_below(
    levels: Seq<Seq<reader::TableView>>,
    t: reader::TableView,
    u: reader::TableView,
)
    requires
        levels.len() > 0,
        tree::tidy(levels),
        levels[0].contains(t),
        levels[0].contains(u),
        table_passes(t, u),
        compaction::table_stamp(t) <= compaction::table_stamp(u),
    ensures
        tree::may_stand_above(u, t),
{
    let top = levels[0];
    let back = top.reverse();
    let a = choose|a: int| 0 <= a < top.len() && top[a] == t;
    let b = choose|b: int| 0 <= b < top.len() && top[b] == u;
    let n = top.len() as int;
    assert(back[n - 1 - a] == t && back[n - 1 - b] == u);
    assert(tree::all_sound(levels[0]));
    assert(tree::sound(top[a]) && tree::sound(top[b]));
    assert forall|key: Seq<u8>|
        #![trigger tree::version(u, key), tree::version(t, key)]
        tree::version(u, key) is Some && tree::version(t, key) is Some implies tree::newer_or_same(
        tree::version(u, key)->Some_0,
        tree::version(t, key)->Some_0,
    ) by {
        lemma_stamp(t, key);
        if a < b {
            assert(tree::may_stand_above(back[n - 1 - b], back[n - 1 - a]));
        } else if b < a {
            assert(tree::may_stand_above(back[n - 1 - a], back[n - 1 - b]));
        }
    }
}

/// A tree whose timestamps rise in level 0 is tidy again after it was loaded again.
proof fn lemma_reloaded_tidy(
    before: Seq<Seq<reader::TableView>>,
    after: Seq<Seq<reader::TableView>>,
)
    requires
        before.len() > 0,
        tree::tidy(before),
        forall|a: int, b: int|
            0 <= a < before[0].len() && 0 <= b < before[0].len() ==> table_passes(
                #[trigger] before[0][a],
                #[trigger] before[0][b],
            ),
        reloaded(before, after),
    ensures
        tree::tidy(after),
        forall|l: int, t: reader::TableView|
            0 <= l < after.len() ==> (#[trigger] after[l].contains(t) <==> before[l].contains(t)),
        forall|a: int, b: int|
            0 <= a < after[0].len() && 0 <= b < after[0].len() ==> table_passes(
                #[trigger] after[0][a],
                #[trigger] after[0][b],
            ),
{
    assert forall|l: int, t: reader::TableView| 0 <= l < after.len() implies (
    #[trigger] after[l].contains(t) <==> before[l].contains(t)) by {
        assert(tree::distinct_paths(before[l]));
        lemma_reloaded_level(before[l], after[l]);
    }
    assert forall|l: int| 0 <= l < after.len() implies tree::all_sound(#[trigger] after[l])
        && tree::distinct_paths(after[l]) by {
        assert(tree::all_sound(before[l]) && tree::distinct_paths(before[l]));
        lemma_reloaded_level(before[l], after[l]);
        assert forall|i: int| 0 <= i < after[l].len() implies tree::sound(
            #[trigger] after[l][i],
        ) by {
            assert(after[l].contains(after[l][i]));
            let k = choose|k: int| 0 <= k < before[l].len() && before[l][k] == after[l][i];
            assert(tree::sound(before[l][k]));
        }
    }
    assert forall|l: int, m: int| 0 <= l < m < after.len() implies tree::all_above(
        #[trigger] after[l],
        #[trigger] after[m],
    ) by {
        assert(tree::all_above(before[l], before[m]));
        assert forall|i: int, j: int|
            0 <= i < after[l].len() && 0 <= j < after[m].len() implies tree::may_stand_above(
            #[trigger] after[l][i],
            #[trigger] after[m][j],
        ) by {
            assert(after[l].contains(after[l][i]) && after[m].contains(after[m][j]));
            let a = choose|a: int| 0 <= a < before[l].len() && before[l][a] == after[l][i];
            let b = choose|b: int| 0 <= b < before[m].len() && before[m][b] == after[m][j];
            assert(tree::may_stand_above(before[l][a], before[m][b]));
        }
    }
    assert forall|l: int| 1 <= l < after.len() implies tree::disjoint(#[trigger] after[l]) by {
        assert(tree::disjoint(before[l]) && tree::distinct_paths(before[l]));
        lemma_reloaded_level(before[l], after[l]);
        assert forall|i: int, j: int|
            0 <= i < after[l].len() && 0 <= j < after[l].len() && i != j implies tree::share_no_key(
            #[trigger] after[l][i],
            #[trigger] after[l][j],
        ) by {
            assert(after[l].contains(after[l][i]) && after[l].contains(after[l][j]));
            let a = choose|a: int| 0 <= a < before[l].len() && before[l][a] == after[l][i];
            let b = choose|b: int| 0 <= b < before[l].len() && before[l][b] == after[l][j];
            assert(after[l][i] != after[l][j]);
            assert(tree::share_no_key(before[l][a], before[l][b]));
        }
    }
    let top = after[0];
    assert forall|a: int, b: int| 0 <= a < top.len() && 0 <= b < top.len() implies table_passes(
        #[trigger] top[a],
        #[trigger] top[b],
    ) by {
        assert(after[0].contains(top[a]) && after[0].contains(top[b]));
        let x = choose|x: int| 0 <= x < before[0].len() && before[0][x] == top[a];
        let y = choose|y: int| 0 <= y < before[0].len() && before[0][y] == top[b];
        assert(table_passes(before[0][x], before[0][y]));
    }
    let back = top.reverse();
    let n = top.len() as int;
    assert forall|i: int, j: int| 0 <= i < j < back.len() implies tree::may_stand_above(
        #[trigger] back[i],
        #[trigger] back[j],
    ) by {
        let t = top[n - 1 - j];
        let u = top[n - 1 - i];
        assert(back[i] == u && back[j] == t);
        assert(after[0].contains(t) && after[0].contains(u));
        assert(compaction::table_stamp(t) <= compaction::table_stamp(u));
        lemma_older_stands_below(before, t, u);
    }
}

/// The newest version of a key is the same in a tree that was loaded again.
proof fn lemma_reloaded_newest(
    before: Seq<Seq<reader::TableView>>,
    after: Seq<Seq<reader::TableView>>,
    key: Seq<u8>,
    r: Option<layout::RecordView>,
)
    requires
        before.len() == after.len(),
        forall|l: int, t: reader::TableView|
            0 <= l < after.len() ==> (#[trigger] after[l].contains(t) <==> before[l].contains(t)),
        tree::newest(before, key, r),
    ensures
        tree::newest(after, key, r),
{
    tree::lemma_joined(before);
    tree::lemma_joined(after);
    let all = tree::joined(before);
    let same = tree::joined(after);
    assert forall|t: reader::TableView| #[trigger] all.contains(t) implies same.contains(t) by {
        let l = choose|l: int| 0 <= l < before.len() && #[trigger] before[l].contains(t);
        assert(after[l].contains(t));
    }
    assert forall|t: reader::TableView| #[trigger]
        same.contains(t) && tree::version(t, key) is Some implies all.contains(t) by {
        let l = choose|l: int| 0 <= l < after.len() && #[trigger] after[l].contains(t);
        assert(before[l].contains(t));
    }
    tree::lemma_newest_among(all, same, key, r);
}

/// After a replay the next write is newer than all records that left entries.
proof fn lemma_replayed_stamped(mem: memtable::MemView, records: Seq<wal::WalRecordView>)
    requires
        mem.fresh(),
        consistency::stamped(records, u64::MAX),
        recovery::replayed(mem, records).1 is None,
    ensures
        consistency::stamped(records, recovery::replayed(mem, records).0.next_timestamp),
    decreases records.len(),
{
    if records.len() > 0 {
        let next = recovery::replay_step(mem, records[0])->Ok_0;
        let rest = records.skip(1);
        assert forall|i: int|
            0 <= i < rest.len() && recovery::entry_of(
                #[trigger] rest[i],
            ) is Some implies rest[i].timestamp < u64::MAX by {
            assert(rest[i] == records[i + 1]);
        }
        if let Some(entry) = recovery::entry_of(records[0]) {
            memtable::law_apply_keeps_fresh(mem, records[0].key, entry);
            assert(next.entries.dom().contains(records[0].key));
            assert(next.entries[records[0].key].timestamp >= entry.timestamp);
        }
        consistency::lemma_replayed_fresh(next, rest);
        lemma_replayed_stamped(next, rest);
        let end = recovery::replayed(mem, records).0.next_timestamp;
        assert forall|i: int|
            0 <= i < records.len() && recovery::entry_of(
                #[trigger] records[i],
            ) is Some implies records[i].timestamp < end by {
            if i > 0 {
                assert(rest[i - 1] == records[i]);
            }
        }
    }
}

/// Whether an engine was opened with the tables and the log of another.
pub open spec fn reopened(
    e: engine::EngineView,
    image: Seq<u8>,
    after: engine::EngineView,
) -> bool {
    &&& reloaded(e.tree.levels, after.tree.levels)
    &&& after.pending.len() == 0
    &&& recovery::replayed(
        memtable::MemView {
            entries: Map::empty(),
            max_size: after.config.memtable_size,
            next_timestamp: memtable::after(compaction::high_mark(after.tree.levels)),
        },
        log::scan(image, 0).records,
    ) == (after.mem, None::<StorageError>)
}

/// What the log leaves is no older than what the tables have, and passes the tables of
/// level 0.
proof fn lemma_logged_above(
    e: engine::EngineView,
    records: Seq<wal::WalRecordView>,
    l: int,
    k: int,
)
    requires
        consistency::ordered(e),
        dated(e),
        in_log(e, records),
        0 <= l < e.tree.levels.len(),
        0 <= k < e.tree.levels[l].len(),
    ensures
        consistency::entries_above_table(latest(records), e.tree.levels[l][k]),
        l == 0 ==> mem_passes(latest(records), e.tree.levels[l][k]),
{
    let logged = latest(records);
    let levels = e.tree.levels;
    let t = levels[l][k];
    let all = tree::joined(levels);
    let mems = e.memtables();
    tree::lemma_joined(levels);
    assert(levels[l].contains(t));
    let at = choose|i: int| 0 <= i < all.len() && all[i] == t;
    assert forall|key: Seq<u8>|
        #![trigger logged.dom().contains(key), tree::version(t, key)]
        logged.dom().contains(key) && tree::version(t, key) is Some implies tree::newer_or_same(
        flush::record_of(key, logged[key]),
        tree::version(t, key)->Some_0,
    ) && (l == 0 && logged[key].timestamp > tree::version(t, key)->Some_0.timestamp
        ==> logged[key].timestamp > compaction::table_stamp(t)) by {
        assert(tied(e, logged, key));
        if e.in_memory(key) is Some {
            lemma_in_some_memtable(mems, key);
            let i = choose|i: int|
                0 <= i < mems.len() && (#[trigger] mems[i]).lookup(key) == e.in_memory(key);
            assert(consistency::entries_above_table(mems[i].entries, levels[l][k]));
            if l == 0 {
                assert(mem_passes(mems[i].entries, levels[0][k]));
            }
        } else {
            let r = flush::record_of(key, logged[key]);
            assert(tree::version(all[at], key) is Some);
            if l == 0 && r.timestamp > tree::version(t, key)->Some_0.timestamp {
                let b = choose|b: int|
                    0 <= b < all.len() && tree::version(#[trigger] all[b], key) == Some(r);
                assert(all.contains(all[b]));
                let m = choose|m: int| 0 <= m < levels.len() && #[trigger] levels[m].contains(
                    all[b],
                );
                let c = choose|c: int| 0 <= c < levels[m].len() && levels[m][c] == all[b];
                if m == 0 {
                    assert(table_passes(levels[0][c], levels[0][k]));
                } else {
                    assert(tree::all_above(levels[0], levels[m]));
                    assert(tree::may_stand_above(levels[0][k], levels[m][c]));
                }
            }
        }
    }
}

/// What is in memory is in one of the memtables.
proof fn lemma_in_some_memtable(mems: Seq<memtable::MemView>, key: Seq<u8>)
    requires
        engine::newest_entry(mems, key) is Some,
    ensures
        exists|i: int|
            0 <= i < mems.len() && (#[trigger] mems[i]).lookup(key) == engine::newest_entry(
                mems,
                key,
            ),
    decreases mems.len(),
{
    if mems.len() > 0 {
        if mems.last().lookup(key) is Some {
            assert(mems[mems.len() - 1].lookup(key) == engine::newest_entry(mems, key));
        } else {
            let init = mems.drop_last();
            lemma_in_some_memtable(init, key);
            let i = choose|i: int|
                0 <= i < init.len() && (#[trigger] init[i]).lookup(key) == engine::newest_entry(
                    init,
                    key,
                );
            assert(mems[i].lookup(key) == engine::newest_entry(mems, key));
        }
    }
}

/// A restart finds the value of every key: an engine that was opened with the tables
/// and the log of another has the same current values, and is as durable. What was
/// torn off behind the readable part of the log does not matter.
#[verifier::spinoff_prover]
pub proof fn law_restart_keeps_values(
    e: engine::EngineView,
    image: Seq<u8>,
    after: engine::EngineView,
)
    requires
        durable(e, image),
        reopened(e, image, after),
    ensures
        durable(after, image.take(log::scan(image, 0).valid)),
        forall|key: Seq<u8>, v: Option<Seq<u8>>|
            consistency::current(e, key, v) <==> #[trigger] consistency::current(after, key, v),
{
    let records = log::scan(image, 0).records;
    let logged = latest(records);
    let before = e.tree.levels;
    let levels = after.tree.levels;
    let next = e.mem.next_timestamp;
    lemma_restart_ordered(e, image, after);
    log::law_cut_log(image);
    assert(after.mem.entries == logged);
    assert(after.memtables() =~= seq![after.mem]);
    assert forall|key: Seq<u8>| after.in_memory(key) == #[trigger] after.mem.lookup(key) by {
        consistency::lemma_newest_entry(after.pending, after.mem, key);
    }
    assert forall|key: Seq<u8>| #[trigger] tied(after, logged, key) by {
        assert(after.in_memory(key) == after.mem.lookup(key));
    }
    assert forall|key: Seq<u8>, v: Option<Seq<u8>>|
        consistency::current(e, key, v) <==> #[trigger] consistency::current(after, key, v) by {
        assert(tied(e, logged, key));
        assert(after.in_memory(key) == after.mem.lookup(key));
        lemma_reloaded_tidy(before, levels);
        if logged.dom().contains(key) {
            if e.in_memory(key) is None {
                let x = Some(flush::record_of(key, logged[key]));
                if consistency::current(e, key, v) {
                    let r = choose|r: Option<layout::RecordView>| #[trigger]
                        tree::newest(before, key, r) && v == (match r {
                            Some(record) => record.value,
                            None => None,
                        });
                    tree::lemma_newest_unique(tree::joined(before), key, r, x);
                }
            }
        } else {
            if consistency::current(e, key, v) {
                let r = choose|r: Option<layout::RecordView>| #[trigger]
                    tree::newest(before, key, r) && v == (match r {
                        Some(record) => record.value,
                        None => None,
                    });
                lemma_reloaded_newest(before, levels, key, r);
                assert(tree::newest(levels, key, r));
            }
            if consistency::current(after, key, v) {
                let r = choose|r: Option<layout::RecordView>| #[trigger]
                    tree::newest(levels, key, r) && v == (match r {
                        Some(record) => record.value,
                        None => None,
                    });
                assert forall|l: int, t: reader::TableView| 0 <= l < before.len() implies (
                #[trigger] before[l].contains(t) <==> levels[l].contains(t)) by {
                    assert(levels[l].contains(t) <==> before[l].contains(t));
                }
                lemma_reloaded_newest(levels, before, key, r);
                assert(tree::newest(before, key, r));
            }
        }
    }
}

/// The order of an engine that was opened again.
proof fn lemma_restart_ordered(
    e: engine::EngineView,
    image: Seq<u8>,
    after: engine::EngineView,
)
    requires
        durable(e, image),
        reopened(e, image, after),
    ensures
        consistency::ordered(after),
        dated(after),
        consistency::stamped(log::scan(image, 0).records, after.mem.next_timestamp),
        after.mem.entries == latest(log::scan(image, 0).records),
{
    let records = log::scan(image, 0).records;
    let logged = latest(records);
    let before = e.tree.levels;
    let levels = after.tree.levels;
    let next = e.mem.next_timestamp;
    let top = before[0];
    assert forall|a: int, b: int|
        0 <= a < before[0].len() && 0 <= b < before[0].len() implies table_passes(
        #[trigger] before[0][a],
        #[trigger] before[0][b],
    ) by {
        assert(table_passes(top[a], top[b]));
    }
    lemma_reloaded_tidy(before, levels);
    assert forall|l: int, k: int|
        #![trigger levels[l][k]]
        0 <= l < levels.len() && 0 <= k < levels[l].len() implies tree::sound(levels[l][k])
        && consistency::table_before(levels[l][k], u64::MAX)
        && consistency::entries_above_table(logged, levels[l][k]) && (l == 0 ==> mem_passes(
        logged,
        levels[l][k],
    )) by {
        assert(levels[l].contains(levels[l][k]));
        let j = choose|j: int| 0 <= j < before[l].len() && before[l][j] == levels[l][k];
        assert(consistency::table_before(before[l][j], next));
        assert(tree::all_sound(levels[l]));
        lemma_logged_above(e, records, l, j);
    }
    lemma_mark_below(levels, u64::MAX);
    let empty = memtable::MemView {
        entries: Map::empty(),
        max_size: after.config.memtable_size,
        next_timestamp: memtable::after(compaction::high_mark(levels)),
    };
    assert(consistency::stamped(records, u64::MAX));
    lemma_replayed_latest(empty, records);
    consistency::law_recovery_is_ordered(after, records, after.config.memtable_size);
    lemma_replayed_stamped(empty, records);
    let mems = after.memtables();
    assert(mems =~= seq![after.mem]);
}

/// An engine without tables and without a log is durable.
pub proof fn law_new_engine_is_durable(e: engine::EngineView)
    requires
        e.tree.levels.len() > 0,
        forall|l: int| 0 <= l < e.tree.levels.len() ==> (#[trigger] e.tree.levels[l]).len() == 0,
        e.pending.len() == 0,
        e.mem.entries == memtable::Entries::empty(),
    ensures
        durable(e, Seq::empty()),
{
    let records = log::scan(Seq::<u8>::empty(), 0).records;
    assert(records =~= Seq::empty());
    let mems = e.memtables();
    assert(mems =~= seq![e.mem]);
    assert forall|key: Seq<u8>| #[trigger] tied(e, latest(records), key) by {
        consistency::lemma_newest_entry(e.pending, e.mem, key);
    }
}

/// A write that was logged and then refused, since too many memtables waited, is found
/// by a restart as if it had been applied; all other keys have the values that they
/// had.
pub proof fn law_refused_write_is_found(
    e: engine::EngineView,
    image: Seq<u8>,
    write: engine::WriteView,
    after: engine::EngineView,
)
    requires
        durable(e, image),
        e.mem.next_timestamp < u64::MAX - 1,
        log::all_loggable(write.records(e.mem.next_timestamp)),
        reopened(e.reserved(), appended(image, write.records(e.mem.next_timestamp)), after),
    ensures
        consistency::ordered(after),
        consistency::current(after, write.key, write.value),
        forall|key: Seq<u8>, v: Option<Seq<u8>>|
            key != write.key && consistency::current(e, key, v)
                ==> #[trigger] consistency::current(after, key, v),
{
    let next = e.mem.next_timestamp;
    let applied = e.reserved().applied(write, next);
    let image1 = appended(image, write.records(next));
    law_write_is_durable(e, image, write);
    consistency::law_write_is_current(e, write);
    assert(reopened(applied, image1, after));
    law_restart_keeps_values(applied, image1, after);
    assert forall|key: Seq<u8>, v: Option<Seq<u8>>|
        key != write.key && consistency::current(
            e,
            key,
            v,
        ) implies #[trigger] consistency::current(after, key, v) by {
        assert(consistency::current(applied, key, v));
    }
    assert(consistency::current(applied, write.key, write.value));
}

/// A read gives the same before and after a restart.
pub proof fn law_reads_through_restart(
    e: engine::EngineView,
    image: Seq<u8>,
    after: engine::EngineView,
    key: Seq<u8>,
    a: Result<Option<Seq<u8>>, StorageError>,
    b: Result<Option<Seq<u8>>, StorageError>,
)
    requires
        durable(e, image),
        reopened(e, image, after),
        e.reads(key, a),
        after.reads(key, b),
    ensures
        a == b,
{
    law_restart_keeps_values(e, image, after);
    consistency::law_read_is_current(e, key, a);
    consistency::law_read_is_current(after, key, b);
    assert(consistency::current(after, key, a->Ok_0));
    consistency::law_one_current_value(after, key, a->Ok_0, b->Ok_0);
}

/// What was written is read back after a restart.
pub proof fn law_written_is_read_after_restart(
    e: engine::EngineView,
    image: Seq<u8>,
    write: engine::WriteView,
    after: engine::EngineView,
    r: Result<Option<Seq<u8>>, StorageError>,
)
    requires
        durable(e, image),
        e.mem.next_timestamp < u64::MAX - 1,
        log::all_loggable(write.records(e.mem.next_timestamp)),
        reopened(
            e.reserved().applied(write, e.mem.next_timestamp),
            appended(image, write.records(e.mem.next_timestamp)),
            after,
        ),
        after.reads(write.key, r),
    ensures
        r == Ok::<Option<Seq<u8>>, StorageError>(write.value),
{
    let next = e.mem.next_timestamp;
    let applied = e.reserved().applied(write, next);
    let written = Ok::<Option<Seq<u8>>, StorageError>(write.value);
    law_write_is_durable(e, image, write);
    consistency::law_read_gives_what_was_written(e, write, write.key, written);
    law_reads_through_restart(
        applied,
        appended(image, write.records(next)),
        after,
        write.key,
        written,
        r,
    );
}

} // verus!
