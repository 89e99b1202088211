//! Recovery: the log is replayed into the memtable and the indexes, so that a
//! restart after a crash finds the state that there was.
use crate::engine::codec;
use crate::engine::error::StorageError;
use crate::engine::storage::index;
use crate::engine::storage::index::{IndexAction, IndexSet};
use crate::engine::storage::log;
use crate::engine::storage::memtable;
use crate::engine::storage::memtable::MemTable;
use crate::engine::storage::wal;
use crate::engine::storage::wal::{WalRecord, WalRecordType};
use vstd::prelude::*;

verus! {

/// The entry that a log record puts into the memtable.
pub open spec fn entry_of(record: wal::WalRecordView) -> Option<memtable::EntryView> {
    match record.record_type {
        WalRecordType::Insert => Some(
            memtable::EntryView { value: Some(record.value), timestamp: record.timestamp },
        ),
        WalRecordType::InsertWithEmbedding => Some(
            memtable::EntryView { value: Some(record.value), timestamp: record.timestamp },
        ),
        WalRecordType::Delete => Some(
            memtable::EntryView { value: None, timestamp: record.timestamp },
        ),
        _ => None,
    }
}

/// The memtable after a log record was replayed, unless there is no room for it.
pub open spec fn replay_step(mem: memtable::MemView, record: wal::WalRecordView) -> Result<
    memtable::MemView,
    StorageError,
> {
    match entry_of(record) {
        Some(entry) => if mem.lacks_room(record.key, entry) {
            Err(mem.full())
        } else {
            Ok(mem.applied(record.key, entry))
        },
        None => Ok(mem),
    }
}

/// The memtable after some log records were replayed, and the error at which the
/// replay stopped.
pub open spec fn replayed(mem: memtable::MemView, records: Seq<wal::WalRecordView>) -> (
    memtable::MemView,
    Option<StorageError>,
)
    decreases records.len(),
{
    if records.len() == 0 {
        (mem, None)
    } else {
        match replay_step(mem, records[0]) {
            Ok(next) => replayed(next, records.skip(1)),
            Err(e) => (mem, Some(e)),
        }
    }
}

/// How many changes of a kind there are.
pub open spec fn count(actions: Seq<index::ActionView>, kind: spec_fn(index::ActionView) -> bool) -> nat
    decreases actions.len(),
{
    if actions.len() == 0 {
        0
    } else {
        count(actions.drop_last(), kind) + if kind(actions.last()) {
            1nat
        } else {
            0
        }
    }
}

/// What a replay comes to.
pub struct Recovery {
    /// The changes of the indexes that are to be made, in this order.
    pub actions: Vec<IndexAction>,
    /// The number of bytes of the log that hold records. What is behind them is
    /// to be cut off, so that the next record starts clean.
    pub valid: usize,
    /// Why the log could not be read to its end.
    pub fault: Option<StorageError>,
    /// The number of records.
    pub records: usize,
    /// The number of embeddings among the changes.
    pub embeddings: usize,
    /// The number of timestamps among the changes.
    pub timestamps: usize,
    /// The number of tag sets among the changes.
    pub tags: usize,
    /// The number of new edges among the changes.
    pub edges: usize,
}

impl Recovery {
    /// Whether this is what a replay of a log comes to.
    pub open spec fn is_of(&self, scan: log::LogView, set: IndexSet) -> bool {
        let actions = index::effects(scan.records, set);
        &&& index::action_views(self.actions@) == actions
        &&& self.valid == scan.valid
        &&& self.fault is Some <==> scan.fault is Some
        &&& self.fault matches Some(e) ==> e == (StorageError::WalReplay {
            offset: self.valid as u64,
            fault: scan.fault->Some_0,
        })
        &&& self.records == scan.records.len()
        &&& self.embeddings == count(actions, |a: index::ActionView| a is InsertVector)
        &&& self.timestamps == count(actions, |a: index::ActionView| a is SetTimestamp)
        &&& self.tags == count(actions, |a: index::ActionView| a is AddTags || a is SetTags)
        &&& self.edges == count(actions, |a: index::ActionView| a is AddEdge)
    }
}

/// Replays one log record into the memtable.
fn replay_record(mem: &mut MemTable, record: &WalRecord) -> (r: Result<(), StorageError>)
    requires
        old(mem).inv(),
    ensures
        final(mem).inv(),
        match replay_step(old(mem)@, record@) {
            Ok(next) => r == Ok::<(), StorageError>(()) && final(mem)@ == next,
            Err(e) => r == Err::<(), StorageError>(e) && final(mem)@ == old(mem)@,
        },
{
    match record.record_type {
        WalRecordType::Insert => mem.insert_with_timestamp(
            codec::copy_bytes(&record.key),
            codec::copy_bytes(&record.value),
            record.timestamp,
        ),
        WalRecordType::InsertWithEmbedding => mem.insert_with_timestamp(
            codec::copy_bytes(&record.key),
            codec::copy_bytes(&record.value),
            record.timestamp,
        ),
        WalRecordType::Delete => mem.delete_with_timestamp(
            codec::copy_bytes(&record.key),
            record.timestamp,
        ),
        _ => Ok(()),
    }
}

/// Replays log records into the memtable.
fn replay_records(mem: &mut MemTable, records: &Vec<WalRecord>) -> (r: Result<(), StorageError>)
    requires
        old(mem).inv(),
    ensures
        final(mem).inv(),
        ({
            let (next, error) = replayed(old(mem)@, log::record_views(records@));
            &&& final(mem)@ == next
            &&& error == (match r {
                Ok(_) => None,
                Err(e) => Some(e),
            })
        }),
{
    let ghost all = log::record_views(records@);
    let ghost start = mem@;
    let mut i: usize = 0;
    assert(all.skip(0) =~= all);
    while i < records.len()
        invariant
            i <= records@.len(),
            all == log::record_views(records@),
            start == old(mem)@,
            mem.inv(),
            replayed(start, all) == replayed(mem@, all.skip(i as int)),
        decreases records@.len() - i,
    {
        proof {
            assert(all.skip(i as int)[0] == records@[i as int]@);
            assert(all.skip(i as int).skip(1) =~= all.skip(i + 1));
        }
        if let Err(e) = replay_record(mem, &records[i]) {
            return Err(e);
        }
        i = i + 1;
    }
    Ok(())
}

/// Counts the changes of each kind: embeddings, timestamps, tag sets and edges.
fn tally(actions: &Vec<IndexAction>) -> (r: (usize, usize, usize, usize))
    ensures
        r.0 == count(index::action_views(actions@), |a: index::ActionView| a is InsertVector),
        r.1 == count(index::action_views(actions@), |a: index::ActionView| a is SetTimestamp),
        r.2 == count(
            index::action_views(actions@),
            |a: index::ActionView| a is AddTags || a is SetTags,
        ),
        r.3 == count(index::action_views(actions@), |a: index::ActionView| a is AddEdge),
{
    let ghost all = index::action_views(actions@);
    let ghost vector = |a: index::ActionView| a is InsertVector;
    let ghost time = |a: index::ActionView| a is SetTimestamp;
    let ghost tag = |a: index::ActionView| a is AddTags || a is SetTags;
    let ghost edge = |a: index::ActionView| a is AddEdge;
    let mut embeddings: usize = 0;
    let mut timestamps: usize = 0;
    let mut tags: usize = 0;
    let mut edges: usize = 0;
    let mut i: usize = 0;
    while i < actions.len()
        invariant
            i <= actions@.len(),
            all == index::action_views(actions@),
            vector == (|a: index::ActionView| a is InsertVector),
            time == (|a: index::ActionView| a is SetTimestamp),
            tag == (|a: index::ActionView| a is AddTags || a is SetTags),
            edge == (|a: index::ActionView| a is AddEdge),
            embeddings == count(all.take(i as int), vector),
            timestamps == count(all.take(i as int), time),
            tags == count(all.take(i as int), tag),
            edges == count(all.take(i as int), edge),
            embeddings <= i,
            timestamps <= i,
            tags <= i,
            edges <= i,
        decreases actions@.len() - i,
    {
        proof {
            assert(all.take(i + 1).drop_last() =~= all.take(i as int));
            assert(all.take(i + 1).last() == actions@[i as int]@);
        }
        match &actions[i] {
            IndexAction::InsertVector { .. } => {
                embeddings = embeddings + 1;
            },
            IndexAction::SetTimestamp { .. } => {
                timestamps = timestamps + 1;
            },
            IndexAction::AddTags { .. } => {
                tags = tags + 1;
            },
            IndexAction::SetTags { .. } => {
                tags = tags + 1;
            },
            IndexAction::AddEdge { .. } => {
                edges = edges + 1;
            },
            _ => {},
        }
        i = i + 1;
    }
    assert(all.take(i as int) =~= all);
    (embeddings, timestamps, tags, edges)
}

/// Replays a log into a memtable, and gives the changes of the indexes that are to
/// be made. A torn or damaged tail ends the log; a record that the memtable has no
/// room for is an error.
pub fn replay_wal(mem: &mut MemTable, log_data: Vec<u8>, set: IndexSet) -> (r: Result<
    Recovery,
    StorageError,
>)
    requires
        old(mem).inv(),
    ensures
        final(mem).inv(),
        ({
            let (next, error) = replayed(old(mem)@, log::scan(log_data@, 0).records);
            &&& final(mem)@ == next
            &&& match error {
                Some(e) => r == Err::<Recovery, StorageError>(e),
                None => r matches Ok(recovery) && recovery.is_of(log::scan(log_data@, 0), set)
                    && recovery.valid <= log_data@.len(),
            }
        }),
{
    let scan = log::read_log(log_data);
    if let Err(e) = replay_records(mem, &scan.records) {
        return Err(e);
    }
    let actions = index::effects_of(&scan.records, set);
    let (embeddings, timestamps, tags, edges) = tally(&actions);
    Ok(
        Recovery {
            actions,
            valid: scan.valid,
            fault: scan.fault,
            records: scan.records.len(),
            embeddings,
            timestamps,
            tags,
            edges,
        },
    )
}

/// As many changes are counted as there are of their kind.
pub proof fn law_count(actions: Seq<index::ActionView>, kind: spec_fn(index::ActionView) -> bool)
    ensures
        count(actions, kind) == actions.filter(kind).len(),
    decreases actions.len(),
{
    reveal(Seq::filter);
    if actions.len() > 0 {
        law_count(actions.drop_last(), kind);
    }
}

/// What a replay of a log comes to: the changes that its records make, as many records
/// as it has, and where and why it ended.
pub proof fn law_recovery(recovery: Recovery, scan: log::LogView, set: IndexSet)
    requires
        recovery.is_of(scan, set),
    ensures
        index::action_views(recovery.actions@) == index::effects(scan.records, set),
        recovery.actions@.len() == index::effects(scan.records, set).len(),
        forall|i: int|
            0 <= i < recovery.actions@.len() ==> (#[trigger] recovery.actions@[i])@
                == index::effects(scan.records, set)[i],
        recovery.valid == scan.valid,
        recovery.records == scan.records.len(),
        recovery.fault is None <==> scan.fault is None,
        scan.fault matches Some(fault) ==> recovery.fault == Some(
            StorageError::WalReplay { offset: scan.valid as u64, fault },
        ),
        recovery.embeddings == index::effects(scan.records, set).filter(
            |a: index::ActionView| a is InsertVector,
        ).len(),
        recovery.timestamps == index::effects(scan.records, set).filter(
            |a: index::ActionView| a is SetTimestamp,
        ).len(),
        recovery.tags == index::effects(scan.records, set).filter(
            |a: index::ActionView| a is AddTags || a is SetTags,
        ).len(),
        recovery.edges == index::effects(scan.records, set).filter(
            |a: index::ActionView| a is AddEdge,
        ).len(),
{
    let actions = index::effects(scan.records, set);
    law_count(actions, |a: index::ActionView| a is InsertVector);
    law_count(actions, |a: index::ActionView| a is SetTimestamp);
    law_count(actions, |a: index::ActionView| a is AddTags || a is SetTags);
    law_count(actions, |a: index::ActionView| a is AddEdge);
    let views = index::action_views(recovery.actions@);
    assert forall|i: int| 0 <= i < recovery.actions@.len() implies (
    #[trigger] recovery.actions@[i])@ == actions[i] by {
        assert(views[i] == recovery.actions@[i]@);
    }
}

/// What a record leaves in the memtable: the value of a write, nothing of a value that
/// was deleted, and no entry of a change of an index.
pub proof fn law_entry_of(record: wal::WalRecordView)
    ensures
        record.record_type == WalRecordType::Insert || record.record_type
            == WalRecordType::InsertWithEmbedding ==> entry_of(record) == Some(
            memtable::EntryView { value: Some(record.value), timestamp: record.timestamp },
        ),
        record.record_type == WalRecordType::Delete ==> entry_of(record) == Some(
            memtable::EntryView { value: None, timestamp: record.timestamp },
        ),
        entry_of(record) is Some ==> record.record_type == WalRecordType::Insert
            || record.record_type == WalRecordType::InsertWithEmbedding || record.record_type
            == WalRecordType::Delete,
{
}

/// A record of the log that is replayed: one that writes or deletes a key is applied, if
/// there is room for it, and any other leaves the memtable as it is.
pub proof fn law_replay_step(mem: memtable::MemView, record: wal::WalRecordView)
    ensures
        ({
            let entry = entry_of(record);
            &&& entry is None ==> replay_step(mem, record) == Ok::<memtable::MemView, StorageError>(
                mem,
            )
            &&& entry is Some && mem.lacks_room(record.key, entry->Some_0) ==> replay_step(
                mem,
                record,
            ) == Err::<memtable::MemView, StorageError>(mem.full())
            &&& entry is Some && !mem.lacks_room(record.key, entry->Some_0) ==> replay_step(
                mem,
                record,
            ) == Ok::<memtable::MemView, StorageError>(mem.applied(record.key, entry->Some_0))
        }),
{
}

} // verus!
