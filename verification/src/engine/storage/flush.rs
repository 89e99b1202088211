//! Writing memtables out to tables of level 0.
use crate::engine::error::StorageError;
use crate::engine::storage::compaction;
use crate::engine::storage::memtable;
use crate::engine::storage::memtable::{Entry, ImmutableMemTable};
use crate::engine::storage::sstable::layout;
use crate::engine::storage::sstable::layout::{Compression, Record};
use crate::engine::storage::sstable::reader;
use crate::engine::storage::sstable::reader::SSTableReader;
use crate::engine::storage::sstable::writer;
use crate::engine::storage::sstable::writer::SSTableWriter;
use crate::engine::storage::tree;
use std::sync::Arc;
use vstd::prelude::*;

verus! {

/// The record of a memtable's entry.
pub open spec fn record_of(key: Seq<u8>, entry: memtable::EntryView) -> layout::RecordView {
    layout::RecordView { key, value: entry.value, timestamp: entry.timestamp }
}

/// The records of some keys and entries.
pub open spec fn records_of(pairs: Seq<(Seq<u8>, memtable::EntryView)>) -> Seq<
    layout::RecordView,
> {
    Seq::new(pairs.len(), |i: int| record_of(pairs[i].0, pairs[i].1))
}

/// Whether `r` is what writing some records out to a table comes to.
pub open spec fn table_made(
    records: Seq<layout::RecordView>,
    compression: Compression,
    path: Seq<char>,
    r: Result<reader::TableView, StorageError>,
) -> bool {
    &&& writer::table_fits(records, compression) ==> r is Ok
    &&& !writer::writable(records, compression) ==> r == Err::<reader::TableView, StorageError>(
        StorageError::Compression,
    )
    &&& r matches Ok(table) ==> table.path == path && table.level == 0 && (writer::table_fits(
        records,
        compression,
    ) ==> reader::holds(table, records))
}

/// Whether a table has the version of every key that some entries have, and no
/// other.
pub open spec fn carries(table: reader::TableView, entries: memtable::Entries) -> bool {
    &&& tree::sound(table)
    &&& forall|key: Seq<u8>| #[trigger]
        tree::version(table, key) == (if entries.dom().contains(key) {
            Some(record_of(key, entries[key]))
        } else {
            None
        })
}

/// A table of a memtable's records carries its entries.
pub proof fn law_flush_carries(
    table: reader::TableView,
    pairs: Seq<(Seq<u8>, memtable::EntryView)>,
    entries: memtable::Entries,
)
    requires
        memtable::lists(pairs, entries),
        reader::holds(table, records_of(pairs)),
    ensures
        carries(table, entries),
{
    let records = records_of(pairs);
    reader::law_table_iter(table, records);
    assert(reader::record_keys(records) =~= Seq::new(pairs.len(), |i: int| pairs[i].0));
    assert(reader::sorted_records(records));
    assert forall|key: Seq<u8>| #[trigger]
        tree::version(table, key) == (if entries.dom().contains(key) {
            Some(record_of(key, entries[key]))
        } else {
            None
        }) by {
        reveal(tree::version);
        reader::lemma_find_some(records, key);
        if entries.dom().contains(key) {
            let i = choose|i: int| 0 <= i < pairs.len() && (#[trigger] pairs[i]).0 == key;
            assert(records[i].key == key);
            reader::lemma_find_at(records, i);
        } else {
            assert forall|i: int| 0 <= i < records.len() implies (#[trigger] records[i]).key
                != key by {
                assert(entries.dom().contains(pairs[i].0));
            }
            reader::lemma_find_absent(records, key);
        }
    }
}

/// What a result of one table says of it.
pub open spec fn made_view(r: Result<Arc<SSTableReader>, StorageError>) -> Result<
    reader::TableView,
    StorageError,
> {
    match r {
        Ok(table) => Ok(table@),
        Err(e) => Err(e),
    }
}

/// Writes the entries of a memtable out to a table of level 0.
pub fn flush_memtable(mem: &ImmutableMemTable, path: String, compression: Compression) -> (r: Result<
    Arc<SSTableReader>,
    StorageError,
>)
    ensures
        exists|pairs: Seq<(Seq<u8>, memtable::EntryView)>| #[trigger]
            memtable::lists(pairs, mem@.entries) && table_made(
                records_of(pairs),
                compression,
                path@,
                made_view(r),
            ),
        r matches Ok(table) ==> table.inv(),
{
    let pairs = mem.iter();
    let ghost listed = memtable::pair_views(pairs@);
    let ghost records = records_of(listed);
    assert(memtable::lists(listed, mem@.entries));
    let mut w = SSTableWriter::with_level(path.clone(), compression, 0);
    let mut i: usize = 0;
    assert(records.take(0) =~= Seq::empty());
    while i < pairs.len()
        invariant
            i <= pairs@.len(),
            listed == memtable::pair_views(pairs@),
            records == records_of(listed),
            memtable::lists(listed, mem@.entries),
            w.inv(),
            w@.compression == compression,
            writer::built(records.take(i as int), compression) matches Some(b) && writer::alike(
                w@,
                b,
            ),
        decreases pairs@.len() - i,
    {
        let record = record_from(&pairs[i]);
        proof {
            assert(records.take(i + 1) =~= records.take(i as int).push(record@));
            writer::lemma_finishes(w@, records.take(i as int));
        }
        if let Err(e) = compaction::add_record(&mut w, &record, Ghost(records.take(i as int))) {
            proof {
                compaction::lemma_built_prefix(records.take(i + 1), records, compression, 0);
                assert(table_made(records, compression, path@, Err(e)));
            }
            return Err(e);
        }
        i = i + 1;
    }
    assert(records.take(i as int) =~= records);
    let ghost view = path@;
    let r = compaction::close_table(w, path, 0, Ghost(records));
    assert(table_made(records, compression, view, made_view(r)));
    r
}

/// The record of a memtable's entry.
fn record_from(pair: &(Vec<u8>, Entry)) -> (r: Record)
    ensures
        r@ == record_of(pair.0@, pair.1@),
{
    Record {
        key: crate::engine::codec::copy_bytes(&pair.0),
        value: layout::copy_value(&pair.1.value),
        timestamp: pair.1.timestamp,
    }
}

/// Each entry becomes a record with its key, value and timestamp, in the order of the
/// entries.
pub proof fn law_records_of(pairs: Seq<(Seq<u8>, memtable::EntryView)>, i: int)
    requires
        0 <= i < pairs.len(),
    ensures
        records_of(pairs).len() == pairs.len(),
        records_of(pairs)[i].key == pairs[i].0,
        records_of(pairs)[i].value == pairs[i].1.value,
        records_of(pairs)[i].timestamp == pairs[i].1.timestamp,
{
}

/// A table that a memtable is written out to has its path and level 0, and holds the
/// records; writing fails for certain only where compression does.
pub proof fn law_table_made(
    records: Seq<layout::RecordView>,
    compression: Compression,
    path: Seq<char>,
    r: Result<reader::TableView, StorageError>,
)
    requires
        table_made(records, compression, path, r),
    ensures
        writer::table_fits(records, compression) ==> (r matches Ok(table) && reader::holds(
            table,
            records,
        )),
        r matches Ok(table) ==> table.path == path && table.level == 0,
        !writer::writable(records, compression) ==> r matches Err(StorageError::Compression),
{
}

} // verus!
