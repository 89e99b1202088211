//! What a tree of levels holds, and what compaction keeps of it.
//!
//! A key may have versions in many tables. A tree is tidy when a version that is
//! found first is never older than one that is found later; looking a key up then
//! gives its newest version. Compaction keeps a tree tidy, and keeps the newest
//! version of every key.
use crate::engine::error::StorageError;
use crate::engine::order;
use crate::engine::storage::compaction;
use crate::engine::storage::merge;
use crate::engine::storage::sstable::block;
use crate::engine::storage::sstable::layout;
use crate::engine::storage::sstable::reader;
use crate::engine::storage::sstable::writer;
use vstd::prelude::*;

verus! {

/// The records of a table that can be read.
pub open spec fn contents(table: reader::TableView) -> Seq<layout::RecordView> {
    table.records()->Ok_0
}

/// Whether a table holds its records, in key order.
pub open spec fn sound(table: reader::TableView) -> bool {
    &&& table.records() is Ok
    &&& reader::holds(table, contents(table))
    &&& reader::sorted_records(contents(table))
}

/// The version of a key that a table has.
#[verifier::opaque]
pub open spec fn version(table: reader::TableView, key: Seq<u8>) -> Option<layout::RecordView> {
    block::find_key(contents(table), key)
}

/// Whether `a` is newer than `b` or is `b`.
pub open spec fn newer_or_same(a: layout::RecordView, b: layout::RecordView) -> bool {
    a.timestamp > b.timestamp || a == b
}

/// Whether no version of a key in `a` is older than that in `b`.
pub open spec fn may_stand_above(a: reader::TableView, b: reader::TableView) -> bool {
    forall|key: Seq<u8>|
        #![trigger version(a, key), version(b, key)]
        version(a, key) is Some && version(b, key) is Some ==> newer_or_same(
            version(a, key)->Some_0,
            version(b, key)->Some_0,
        )
}

/// Whether no key is in both tables.
pub open spec fn share_no_key(a: reader::TableView, b: reader::TableView) -> bool {
    forall|key: Seq<u8>|
        #![trigger version(a, key), version(b, key)]
        version(a, key) is None || version(b, key) is None
}

/// Whether every table has a path of its own.
pub open spec fn distinct_paths(tables: Seq<reader::TableView>) -> bool {
    forall|i: int, j: int|
        0 <= i < j < tables.len() ==> (#[trigger] tables[i]).path != (#[trigger] tables[j]).path
}

/// Whether every table is sound.
pub open spec fn all_sound(tables: Seq<reader::TableView>) -> bool {
    forall|i: int| 0 <= i < tables.len() ==> sound(#[trigger] tables[i])
}

/// Whether no table has an older version of a key than a table behind it.
pub open spec fn in_order(tables: Seq<reader::TableView>) -> bool {
    forall|i: int, j: int|
        0 <= i < j < tables.len() ==> may_stand_above(#[trigger] tables[i], #[trigger] tables[j])
}

/// Whether no key is in two of the tables.
pub open spec fn disjoint(tables: Seq<reader::TableView>) -> bool {
    forall|i: int, j: int|
        0 <= i < tables.len() && 0 <= j < tables.len() && i != j ==> share_no_key(
            #[trigger] tables[i],
            #[trigger] tables[j],
        )
}

/// Whether no table of the one group has an older version of a key than a table of
/// the other.
pub open spec fn all_above(upper: Seq<reader::TableView>, lower: Seq<reader::TableView>) -> bool {
    forall|i: int, j: int|
        0 <= i < upper.len() && 0 <= j < lower.len() ==> may_stand_above(
            #[trigger] upper[i],
            #[trigger] lower[j],
        )
}

/// Whether every table is sound and has a path of its own in its level, whether
/// versions become older from level to level and from the end of level 0 to its
/// beginning, and whether no key is in two tables of another level.
pub open spec fn tidy(levels: Seq<Seq<reader::TableView>>) -> bool {
    &&& forall|l: int|
        0 <= l < levels.len() ==> all_sound(#[trigger] levels[l]) && distinct_paths(levels[l])
    &&& forall|l: int, m: int|
        0 <= l < m < levels.len() ==> all_above(#[trigger] levels[l], #[trigger] levels[m])
    &&& levels.len() > 0 ==> in_order(levels[0].reverse())
    &&& forall|l: int| 1 <= l < levels.len() ==> disjoint(#[trigger] levels[l])
}

/// Whether `r` is the newest version of a key in some tables.
pub open spec fn newest_in(
    tables: Seq<reader::TableView>,
    key: Seq<u8>,
    r: Option<layout::RecordView>,
) -> bool {
    &&& forall|i: int|
        0 <= i < tables.len() && version(#[trigger] tables[i], key) is Some ==> r is Some
            && newer_or_same(r->Some_0, version(tables[i], key)->Some_0)
    &&& r is Some ==> has_version(tables, key, r->Some_0)
}

/// Whether one of some tables has a given version of a key.
pub open spec fn has_version(
    tables: Seq<reader::TableView>,
    key: Seq<u8>,
    r: layout::RecordView,
) -> bool {
    exists|i: int| 0 <= i < tables.len() && version(#[trigger] tables[i], key) == Some(r)
}

/// All tables of some levels.
pub open spec fn joined(levels: Seq<Seq<reader::TableView>>) -> Seq<reader::TableView>
    decreases levels.len(),
{
    if levels.len() == 0 {
        Seq::empty()
    } else {
        joined(levels.drop_last()) + levels.last()
    }
}

/// Whether `r` is the newest version of a key in all levels.
pub open spec fn newest(
    levels: Seq<Seq<reader::TableView>>,
    key: Seq<u8>,
    r: Option<layout::RecordView>,
) -> bool {
    newest_in(joined(levels), key, r)
}

/// A key has one newest version at most.
pub proof fn lemma_newest_unique(
    tables: Seq<reader::TableView>,
    key: Seq<u8>,
    a: Option<layout::RecordView>,
    b: Option<layout::RecordView>,
)
    requires
        newest_in(tables, key, a),
        newest_in(tables, key, b),
    ensures
        a == b,
{
    if a is Some {
        let i = choose|i: int|
            0 <= i < tables.len() && version(#[trigger] tables[i], key) == Some(a->Some_0);
        assert(version(tables[i], key) is Some);
    }
    if b is Some {
        let i = choose|i: int|
            0 <= i < tables.len() && version(#[trigger] tables[i], key) == Some(b->Some_0);
        assert(version(tables[i], key) is Some);
    }
}

/// Looking a key up in sound tables that are in order gives its newest version.
pub proof fn law_search_newest(
    tables: Seq<reader::TableView>,
    key: Seq<u8>,
    r: Result<Option<layout::RecordView>, StorageError>,
)
    requires
        all_sound(tables),
        in_order(tables),
        compaction::answered(tables, key, r),
    ensures
        r matches Ok(v) && newest_in(tables, key, v),
    decreases tables.len(),
{
    if tables.len() > 0 {
        let a = choose|a: Result<Option<layout::RecordView>, StorageError>| #[trigger]
            tables[0].answers(key, a) && if a == Ok::<Option<layout::RecordView>, StorageError>(
                None,
            ) {
                compaction::answered(tables.skip(1), key, r)
            } else {
                r == a
            };
        let first = tables[0];
        assert(sound(first));
        reader::law_table_get(first, contents(first), key, a);
        assert(a == Ok::<Option<layout::RecordView>, StorageError>(version(first, key))) by {
            reveal(version);
        }
        if version(first, key) is None {
            let rest = tables.skip(1);
            assert forall|i: int| 0 <= i < rest.len() implies sound(#[trigger] rest[i]) by {
                assert(rest[i] == tables[i + 1]);
            }
            assert forall|i: int, j: int| 0 <= i < j < rest.len() implies may_stand_above(
                #[trigger] rest[i],
                #[trigger] rest[j],
            ) by {
                assert(rest[i] == tables[i + 1] && rest[j] == tables[j + 1]);
            }
            law_search_newest(rest, key, r);
            let v = r->Ok_0;
            assert forall|i: int|
                0 <= i < tables.len() && version(#[trigger] tables[i], key) is Some implies v is Some
                && newer_or_same(v->Some_0, version(tables[i], key)->Some_0) by {
                assert(tables[i] == rest[i - 1]);
            }
            if v is Some {
                let k = choose|k: int|
                    0 <= k < rest.len() && version(#[trigger] rest[k], key) == Some(v->Some_0);
                assert(tables[k + 1] == rest[k]);
            }
        } else {
            let x = version(first, key)->Some_0;
            assert forall|i: int|
                0 <= i < tables.len() && version(#[trigger] tables[i], key) is Some implies newer_or_same(
                x, version(tables[i], key)->Some_0) by {
                if i > 0 {
                    assert(may_stand_above(tables[0], tables[i]));
                }
            }
            assert(version(tables[0], key) == Some(x));
        }
    }
}

/// A version of a key is a record of that key, and a table's key range covers it.
pub proof fn lemma_version(table: reader::TableView, key: Seq<u8>)
    requires
        sound(table),
        version(table, key) is Some,
    ensures
        contents(table).contains(version(table, key)->Some_0),
        version(table, key)->Some_0.key == key,
        layout::in_prefix_range(table.header.min_key, table.header.max_key, key),
        order::lex_le(table.header.min_key, order::padded(key, 16)),
        order::lex_le(order::padded(key, 16), table.header.max_key),
{
    reveal(version);
    let records = contents(table);
    let r = version(table, key)->Some_0;
    reader::lemma_find_some(records, key);
    let k = choose|k: int| 0 <= k < records.len() && records[k] == r;
    let keys = reader::record_keys(records);
    let n = records.len() - 1;
    assert(order::strictly_sorted(keys));
    if k > 0 {
        assert(order::lex_lt(keys[0], keys[k]));
    }
    if k < n {
        assert(order::lex_lt(keys[k], keys[n]));
    }
    layout::law_prefix_range_covers(records[0].key, records[n].key, key);
    assert(order::padded(table.header.min_key, 16) =~= table.header.min_key);
    assert(order::padded(table.header.max_key, 16) =~= table.header.max_key);
}

/// A record of a sound table is the version of its key.
pub proof fn lemma_record_is_version(table: reader::TableView, r: layout::RecordView)
    requires
        sound(table),
        contents(table).contains(r),
    ensures
        version(table, r.key) == Some(r),
{
    reveal(version);
    let records = contents(table);
    let k = choose|k: int| 0 <= k < records.len() && records[k] == r;
    reader::lemma_find_at(records, k);
}

/// The tables whose key range covers a key are all that may have it.
proof fn lemma_covering(tables: Seq<reader::TableView>, key: Seq<u8>)
    requires
        all_sound(tables),
    ensures
        forall|t: reader::TableView|
            compaction::covering(tables, key).contains(t) ==> #[trigger] tables.contains(t),
        forall|t: reader::TableView|
            tables.contains(t) && version(t, key) is Some ==> #[trigger] compaction::covering(
                tables,
                key,
            ).contains(t),
        disjoint(tables) ==> in_order(compaction::covering(tables, key)),
    decreases tables.len(),
{
    let all = compaction::covering(tables, key);
    if tables.len() > 0 {
        let init = tables.drop_last();
        let last = tables.last();
        let before = compaction::covering(init, key);
        assert forall|i: int| 0 <= i < init.len() implies sound(#[trigger] init[i]) by {
            assert(init[i] == tables[i]);
        }
        lemma_covering(init, key);
        let n = tables.len() - 1;
        assert(tables[n] == last);
        assert(sound(tables[n]));
        assert forall|t: reader::TableView| all.contains(t) implies #[trigger] tables.contains(
            t,
        ) by {
            if t != last {
                let k = choose|k: int| 0 <= k < all.len() && all[k] == t;
                assert(before[k] == t);
                assert(before.contains(t));
                assert(init.contains(t));
                let m = choose|m: int| 0 <= m < init.len() && init[m] == t;
                assert(tables[m] == t);
            }
        }
        assert forall|t: reader::TableView|
            tables.contains(t) && version(t, key) is Some implies #[trigger] all.contains(t) by {
            if t == last {
                lemma_version(last, key);
                assert(all[before.len() as int] == last);
            } else {
                let m = choose|m: int| 0 <= m < tables.len() && tables[m] == t;
                assert(init[m] == t);
                assert(init.contains(t));
                assert(before.contains(t));
                let k = choose|k: int| 0 <= k < before.len() && before[k] == t;
                assert(all[k] == t);
            }
        }
        if disjoint(tables) {
            assert forall|i: int, j: int|
                0 <= i < init.len() && 0 <= j < init.len() && i != j implies share_no_key(
                #[trigger] init[i],
                #[trigger] init[j],
            ) by {
                assert(share_no_key(tables[i], tables[j]));
            }
            assert forall|i: int, j: int| 0 <= i < j < all.len() implies may_stand_above(
                #[trigger] all[i],
                #[trigger] all[j],
            ) by {
                if j < before.len() {
                    assert(may_stand_above(before[i], before[j]));
                } else {
                    assert(before.contains(before[i]));
                    assert(init.contains(before[i]));
                    let m = choose|m: int| 0 <= m < init.len() && init[m] == before[i];
                    assert(share_no_key(tables[m], tables[n]));
                }
            }
        }
    }
}

/// The tables of a level are among those of all levels.
pub proof fn lemma_joined(levels: Seq<Seq<reader::TableView>>)
    ensures
        forall|l: int, t: reader::TableView|
            #![trigger levels[l].contains(t)]
            0 <= l < levels.len() && levels[l].contains(t) ==> joined(levels).contains(t),
        forall|t: reader::TableView| #[trigger]
            joined(levels).contains(t) ==> exists|l: int|
                0 <= l < levels.len() && #[trigger] levels[l].contains(t),
    decreases levels.len(),
{
    if levels.len() > 0 {
        let init = levels.drop_last();
        let n = levels.len() - 1;
        lemma_joined(init);
        let all = joined(levels);
        assert forall|l: int, t: reader::TableView|
            #![trigger levels[l].contains(t)]
            0 <= l < levels.len() && levels[l].contains(t) implies all.contains(t) by {
            if l < n {
                assert(init[l].contains(t));
                let k = choose|k: int| 0 <= k < joined(init).len() && joined(init)[k] == t;
                assert(all[k] == t);
            } else {
                let k = choose|k: int| 0 <= k < levels[l].len() && levels[l][k] == t;
                assert(all[joined(init).len() + k] == t);
            }
        }
        assert forall|t: reader::TableView| #[trigger] all.contains(t) implies exists|l: int|
            0 <= l < levels.len() && #[trigger] levels[l].contains(t) by {
            let k = choose|k: int| 0 <= k < all.len() && all[k] == t;
            if k < joined(init).len() {
                assert(joined(init)[k] == t);
                assert(joined(init).contains(t));
                let l = choose|l: int| 0 <= l < init.len() && #[trigger] init[l].contains(t);
                assert(levels[l].contains(t));
            } else {
                assert(levels[n][k - joined(init).len()] == t);
                assert(levels[n].contains(t));
            }
        }
    }
}

/// The tables of deeper levels in which a key is looked up.
proof fn lemma_deeper(levels: Seq<Seq<reader::TableView>>, key: Seq<u8>)
    requires
        forall|l: int|
            0 <= l < levels.len() ==> all_sound(#[trigger] levels[l]) && disjoint(levels[l]),
        forall|l: int, m: int|
            0 <= l < m < levels.len() ==> all_above(#[trigger] levels[l], #[trigger] levels[m]),
    ensures
        in_order(compaction::deeper(levels, key)),
        forall|t: reader::TableView| #[trigger]
            compaction::deeper(levels, key).contains(t) ==> exists|l: int|
                0 <= l < levels.len() && #[trigger] levels[l].contains(t),
        forall|l: int, t: reader::TableView|
            #![trigger levels[l].contains(t)]
            0 <= l < levels.len() && levels[l].contains(t) && version(t, key) is Some
                ==> compaction::deeper(levels, key).contains(t),
    decreases levels.len(),
{
    if levels.len() > 0 {
        let init = levels.drop_last();
        let n = levels.len() - 1;
        let before = compaction::deeper(init, key);
        let last = compaction::covering(levels[n], key);
        let all = compaction::deeper(levels, key);
        assert(all == before + last);
        assert forall|l: int| 0 <= l < init.len() implies all_sound(#[trigger] init[l]) && disjoint(
            init[l],
        ) by {
            assert(init[l] == levels[l]);
        }
        assert forall|l: int, m: int| 0 <= l < m < init.len() implies all_above(
            #[trigger] init[l],
            #[trigger] init[m],
        ) by {
            assert(init[l] == levels[l] && init[m] == levels[m]);
        }
        lemma_deeper(init, key);
        assert(all_sound(levels[n]));
        lemma_covering(levels[n], key);
        assert forall|i: int, j: int| 0 <= i < j < all.len() implies may_stand_above(
            #[trigger] all[i],
            #[trigger] all[j],
        ) by {
            if j < before.len() {
                assert(may_stand_above(before[i], before[j]));
            } else if i >= before.len() {
                assert(may_stand_above(last[i - before.len()], last[j - before.len()]));
            } else {
                assert(before.contains(before[i]));
                let l = choose|l: int|
                    0 <= l < init.len() && #[trigger] init[l].contains(before[i]);
                let a = choose|a: int| 0 <= a < init[l].len() && init[l][a] == before[i];
                let t = last[j - before.len()];
                assert(last.contains(t));
                assert(levels[n].contains(t));
                let b = choose|b: int| 0 <= b < levels[n].len() && levels[n][b] == t;
                assert(all_above(levels[l], levels[n]));
                assert(may_stand_above(levels[l][a], levels[n][b]));
            }
        }
        assert forall|t: reader::TableView| #[trigger] all.contains(t) implies exists|l: int|
            0 <= l < levels.len() && #[trigger] levels[l].contains(t) by {
            let k = choose|k: int| 0 <= k < all.len() && all[k] == t;
            if k < before.len() {
                assert(before.contains(before[k]));
                let l = choose|l: int| 0 <= l < init.len() && #[trigger] init[l].contains(t);
                assert(levels[l].contains(t));
            } else {
                assert(last.contains(last[k - before.len()]));
                assert(levels[n].contains(t));
            }
        }
        assert forall|l: int, t: reader::TableView|
            #![trigger levels[l].contains(t)]
            0 <= l < levels.len() && levels[l].contains(t) && version(t, key) is Some implies all.contains(
        t) by {
            if l < n {
                assert(init[l].contains(t));
                let k = choose|k: int| 0 <= k < before.len() && before[k] == t;
                assert(all[k] == t);
            } else {
                assert(last.contains(t));
                let k = choose|k: int| 0 <= k < last.len() && last[k] == t;
                assert(all[before.len() + k] == t);
            }
        }
    }
}

/// The newest version of a key is the same in tables that lack only tables without
/// the key.
pub proof fn lemma_newest_among(
    few: Seq<reader::TableView>,
    many: Seq<reader::TableView>,
    key: Seq<u8>,
    r: Option<layout::RecordView>,
)
    requires
        newest_in(few, key, r),
        forall|t: reader::TableView| #[trigger] few.contains(t) ==> many.contains(t),
        forall|t: reader::TableView| #[trigger]
            many.contains(t) && version(t, key) is Some ==> few.contains(t),
    ensures
        newest_in(many, key, r),
{
    assert forall|i: int|
        0 <= i < many.len() && version(#[trigger] many[i], key) is Some implies r is Some
        && newer_or_same(r->Some_0, version(many[i], key)->Some_0) by {
        assert(many.contains(many[i]));
        let k = choose|k: int| 0 <= k < few.len() && few[k] == many[i];
        assert(version(few[k], key) is Some);
    }
    if r is Some {
        let k = choose|k: int|
            0 <= k < few.len() && version(#[trigger] few[k], key) == Some(r->Some_0);
        assert(few.contains(few[k]));
        let i = choose|i: int| 0 <= i < many.len() && many[i] == few[k];
        assert(version(many[i], key) == Some(r->Some_0));
    }
}

/// The tables in which a key is looked up are in order, and are all that have it.
proof fn lemma_search_order(levels: Seq<Seq<reader::TableView>>, key: Seq<u8>)
    requires
        levels.len() > 0,
        tidy(levels),
    ensures
        ({
            let all = levels[0].reverse() + compaction::deeper(levels.skip(1), key);
            &&& all_sound(all)
            &&& in_order(all)
            &&& forall|t: reader::TableView| #[trigger] all.contains(t) ==> joined(levels).contains(t)
            &&& forall|t: reader::TableView| #[trigger]
                joined(levels).contains(t) && version(t, key) is Some ==> all.contains(t)
        }),
{
    let top = levels[0].reverse();
    let rest = levels.skip(1);
    let deep = compaction::deeper(rest, key);
    let all = top + deep;
    assert forall|l: int| 0 <= l < rest.len() implies all_sound(#[trigger] rest[l]) && disjoint(
        rest[l],
    ) by {
        assert(rest[l] == levels[l + 1]);
    }
    assert forall|l: int, m: int| 0 <= l < m < rest.len() implies all_above(
        #[trigger] rest[l],
        #[trigger] rest[m],
    ) by {
        assert(rest[l] == levels[l + 1] && rest[m] == levels[m + 1]);
    }
    lemma_deeper(rest, key);
    assert(all_sound(levels[0]));
    assert forall|i: int| 0 <= i < all.len() implies sound(#[trigger] all[i]) by {
        if i < top.len() {
            assert(top[i] == levels[0][levels[0].len() - 1 - i]);
        } else {
            let t = deep[i - top.len()];
            assert(deep.contains(t));
            let l = choose|l: int| 0 <= l < rest.len() && #[trigger] rest[l].contains(t);
            let k = choose|k: int| 0 <= k < rest[l].len() && rest[l][k] == t;
            assert(sound(rest[l][k]));
        }
    }
    assert forall|i: int, j: int| 0 <= i < j < all.len() implies may_stand_above(
        #[trigger] all[i],
        #[trigger] all[j],
    ) by {
        if j < top.len() {
            assert(may_stand_above(top[i], top[j]));
        } else if i >= top.len() {
            assert(may_stand_above(deep[i - top.len()], deep[j - top.len()]));
        } else {
            let t = deep[j - top.len()];
            assert(deep.contains(t));
            let l = choose|l: int| 0 <= l < rest.len() && #[trigger] rest[l].contains(t);
            let k = choose|k: int| 0 <= k < rest[l].len() && rest[l][k] == t;
            assert(all_above(levels[0], levels[l + 1]));
            assert(top[i] == levels[0][levels[0].len() - 1 - i]);
            assert(may_stand_above(levels[0][levels[0].len() - 1 - i], levels[l + 1][k]));
        }
    }
    lemma_joined(levels);
    assert forall|t: reader::TableView| #[trigger] all.contains(t) implies joined(levels).contains(
        t,
    ) by {
        let i = choose|i: int| 0 <= i < all.len() && all[i] == t;
        if i < top.len() {
            assert(levels[0][levels[0].len() - 1 - i] == t);
            assert(levels[0].contains(t));
        } else {
            assert(deep.contains(deep[i - top.len()]));
            let l = choose|l: int| 0 <= l < rest.len() && #[trigger] rest[l].contains(t);
            assert(levels[l + 1].contains(t));
        }
    }
    assert forall|t: reader::TableView| #[trigger]
        joined(levels).contains(t) && version(t, key) is Some implies all.contains(t) by {
        let l = choose|l: int| 0 <= l < levels.len() && #[trigger] levels[l].contains(t);
        if l == 0 {
            let k = choose|k: int| 0 <= k < levels[0].len() && levels[0][k] == t;
            assert(all[levels[0].len() - 1 - k] == t);
        } else {
            assert(rest[l - 1].contains(t));
            let k = choose|k: int| 0 <= k < deep.len() && deep[k] == t;
            assert(all[top.len() + k] == t);
        }
    }
}

/// Looking a key up in a tidy tree gives its newest version.
pub proof fn law_get_newest(
    tree: compaction::ManagerView,
    key: Seq<u8>,
    r: Result<Option<layout::RecordView>, StorageError>,
)
    requires
        tree.levels.len() > 0,
        tidy(tree.levels),
        compaction::answered(tree.candidates(key), key, r),
    ensures
        r matches Ok(v) && newest(tree.levels, key, v),
{
    let levels = tree.levels;
    let all = tree.candidates(key);
    lemma_search_order(levels, key);
    law_search_newest(all, key, r);
    lemma_newest_among(all, joined(levels), key, r->Ok_0);
}

/// The first of some groups comes first.
proof fn lemma_flattened_front(first: Seq<layout::RecordView>, rest: Seq<Seq<layout::RecordView>>)
    ensures
        writer::flattened(seq![first] + rest) == first + writer::flattened(rest),
    decreases rest.len(),
{
    let all = seq![first] + rest;
    if rest.len() == 0 {
        assert(all.drop_last() =~= Seq::empty());
        assert(writer::flattened(all.drop_last()) == Seq::<layout::RecordView>::empty());
        assert(writer::flattened(all) =~= first + writer::flattened(rest));
    } else {
        assert(all.drop_last() =~= seq![first] + rest.drop_last());
        lemma_flattened_front(first, rest.drop_last());
        assert(writer::flattened(all) =~= first + writer::flattened(rest));
    }
}

/// Splitting records up loses none and keeps their order.
pub proof fn law_split_keeps_records(
    open: Seq<layout::RecordView>,
    rest: Seq<layout::RecordView>,
    compression: layout::Compression,
    target: u64,
)
    ensures
        writer::flattened(compaction::split(open, rest, compression, target)) == open + rest,
    decreases rest.len(),
{
    if rest.len() == 0 {
        assert(open + rest =~= open);
        if open.len() == 0 {
            assert(open =~= Seq::empty());
        } else {
            let all = seq![open];
            assert(all.drop_last() =~= Seq::empty());
            assert(writer::flattened(all.drop_last()) == Seq::<layout::RecordView>::empty());
            assert(writer::flattened(all) =~= open);
        }
    } else {
        let next = open.push(rest[0]);
        assert(next + rest.skip(1) =~= open + rest);
        if writer::is_full(next, compression, target) {
            let others = compaction::split(Seq::empty(), rest.skip(1), compression, target);
            law_split_keeps_records(Seq::empty(), rest.skip(1), compression, target);
            lemma_flattened_front(next, others);
            assert(Seq::<layout::RecordView>::empty() + rest.skip(1) =~= rest.skip(1));
        } else {
            law_split_keeps_records(next, rest.skip(1), compression, target);
        }
    }
}

/// Whether some tables hold the newest version of every key of other tables, and
/// nothing else, and whether no key is in two of them.
pub open spec fn replaces(outputs: Seq<reader::TableView>, inputs: Seq<reader::TableView>) -> bool {
    &&& all_sound(outputs)
    &&& disjoint(outputs)
    &&& forall|i: int, key: Seq<u8>|
        #![trigger version(outputs[i], key)]
        0 <= i < outputs.len() && version(outputs[i], key) is Some ==> has_version(
            inputs,
            key,
            version(outputs[i], key)->Some_0,
        )
    &&& forall|i: int, key: Seq<u8>|
        #![trigger version(inputs[i], key)]
        0 <= i < inputs.len() && version(inputs[i], key) is Some ==> exists|j: int|
            0 <= j < outputs.len() && version(#[trigger] outputs[j], key) is Some && version(
                outputs[j],
                key,
            )->Some_0.timestamp >= version(inputs[i], key)->Some_0.timestamp
}

/// All records of sound tables can be gathered.
proof fn lemma_gathered(tables: Seq<reader::TableView>)
    requires
        all_sound(tables),
    ensures
        compaction::gathered(tables) matches Ok(all) && forall|r: layout::RecordView| #[trigger]
            all.contains(r) <==> has_version(tables, r.key, r),
    decreases tables.len(),
{
    if tables.len() > 0 {
        let init = tables.drop_last();
        let n = tables.len() - 1;
        let last = tables[n];
        assert(sound(last));
        assert forall|i: int| 0 <= i < init.len() implies sound(#[trigger] init[i]) by {
            assert(init[i] == tables[i]);
        }
        lemma_gathered(init);
        let before = compaction::gathered(init)->Ok_0;
        let all = compaction::gathered(tables)->Ok_0;
        assert(all == before + contents(last));
        assert forall|r: layout::RecordView| #[trigger] all.contains(r) <==> has_version(
            tables,
            r.key,
            r,
        ) by {
            lemma_gathered_step(tables, before, r);
        }
    }
}

/// One more table is gathered.
#[verifier::spinoff_prover]
proof fn lemma_gathered_step(
    tables: Seq<reader::TableView>,
    before: Seq<layout::RecordView>,
    r: layout::RecordView,
)
    requires
        tables.len() > 0,
        sound(tables.last()),
        before.contains(r) <==> has_version(tables.drop_last(), r.key, r),
    ensures
        (before + contents(tables.last())).contains(r) <==> has_version(tables, r.key, r),
{
    let init = tables.drop_last();
    let n = tables.len() - 1;
    let last = tables.last();
    let all = before + contents(last);
    if all.contains(r) {
        let k = choose|k: int| 0 <= k < all.len() && all[k] == r;
        if k < before.len() {
            assert(before[k] == r);
            assert(before.contains(r));
            let i = choose|i: int|
                0 <= i < init.len() && version(#[trigger] init[i], r.key) == Some(r);
            assert(version(tables[i], r.key) == Some(r));
        } else {
            assert(contents(last)[k - before.len()] == r);
            lemma_record_is_version(last, r);
            assert(version(tables[n], r.key) == Some(r));
        }
    }
    if has_version(tables, r.key, r) {
        let i = choose|i: int|
            0 <= i < tables.len() && version(#[trigger] tables[i], r.key) == Some(r);
        if i < n {
            assert(version(init[i], r.key) == Some(r));
            let k = choose|k: int| 0 <= k < before.len() && before[k] == r;
            assert(all[k] == r);
        } else {
            lemma_version(last, r.key);
            let k = choose|k: int| 0 <= k < contents(last).len() && contents(last)[k] == r;
            assert(all[before.len() + k] == r);
        }
    }
}

/// The tables that sound tables are merged into replace them, if all are within the
/// range of the fields of a file.
pub proof fn law_merge_replaces(
    tree: compaction::ManagerView,
    inputs: Seq<reader::TableView>,
    level: usize,
    now: u64,
    merged: Seq<layout::RecordView>,
    outputs: Seq<reader::TableView>,
)
    requires
        all_sound(inputs),
        compaction::gathered(inputs) matches Ok(all) && merge::is_merge(all, merged),
        tree.target(level, now).are_outputs(outputs, tree.target(level, now).chunks(merged)),
        tree.target(level, now).all_fit(tree.target(level, now).chunks(merged)),
    ensures
        replaces(outputs, inputs),
{
    let target = tree.target(level, now);
    let chunks = target.chunks(merged);
    let all = compaction::gathered(inputs)->Ok_0;
    lemma_gathered(inputs);
    law_split_keeps_records(Seq::empty(), merged, target.compression, target.size);
    assert(Seq::<layout::RecordView>::empty() + merged =~= merged);
    assert(writer::flattened(chunks) == merged);
    assert forall|i: int| 0 <= i < outputs.len() implies sound(#[trigger] outputs[i]) && contents(
        outputs[i],
    ) == chunks[i] by {
        assert(target.is_output(outputs[i], i, chunks[i]));
        assert(writer::table_fits(chunks[i], target.compression));
        reader::law_table_iter(outputs[i], chunks[i]);
        reader::lemma_block_sorted(chunks, i);
    }
    assert forall|i: int, key: Seq<u8>|
        #![trigger version(outputs[i], key)]
        0 <= i < outputs.len() && version(outputs[i], key) is Some implies merged.contains(
        version(outputs[i], key)->Some_0,
    ) && version(outputs[i], key)->Some_0.key == key by {
        assert(sound(outputs[i]));
        lemma_version(outputs[i], key);
        let r = version(outputs[i], key)->Some_0;
        let j = choose|j: int| 0 <= j < chunks[i].len() && chunks[i][j] == r;
        reader::lemma_flattened_contains(chunks, i, j);
    }
    assert forall|i: int, j: int|
        0 <= i < outputs.len() && 0 <= j < outputs.len() && i != j implies share_no_key(
        #[trigger] outputs[i],
        #[trigger] outputs[j],
    ) by {
        assert forall|key: Seq<u8>|
            #![trigger version(outputs[i], key), version(outputs[j], key)]
            version(outputs[i], key) is None || version(outputs[j], key) is None by {
            if version(outputs[i], key) is Some && version(outputs[j], key) is Some {
                assert(sound(outputs[i]) && sound(outputs[j]));
                lemma_version(outputs[i], key);
                lemma_version(outputs[j], key);
                let a = choose|a: int|
                    0 <= a < chunks[i].len() && chunks[i][a] == version(outputs[i], key)->Some_0;
                let b = choose|b: int|
                    0 <= b < chunks[j].len() && chunks[j][b] == version(outputs[j], key)->Some_0;
                if i < j {
                    reader::lemma_blocks_sorted(chunks, i, a, j, b);
                } else {
                    reader::lemma_blocks_sorted(chunks, j, b, i, a);
                }
                order::lemma_lex_irreflexive(key);
            }
        }
    }
    assert forall|i: int, key: Seq<u8>|
        #![trigger version(outputs[i], key)]
        0 <= i < outputs.len() && version(outputs[i], key) is Some implies has_version(
        inputs,
        key,
        version(outputs[i], key)->Some_0,
    ) by {
        let r = version(outputs[i], key)->Some_0;
        assert(merged.contains(r));
        let k = choose|k: int| 0 <= k < merged.len() && merged[k] == r;
        assert(all.contains(merged[k]));
    }
    assert forall|i: int, key: Seq<u8>|
        #![trigger version(inputs[i], key)]
        0 <= i < inputs.len() && version(inputs[i], key) is Some implies exists|j: int|
        0 <= j < outputs.len() && version(#[trigger] outputs[j], key) is Some && version(
            outputs[j],
            key,
        )->Some_0.timestamp >= version(inputs[i], key)->Some_0.timestamp by {
        let r = version(inputs[i], key)->Some_0;
        assert(sound(inputs[i]));
        lemma_version(inputs[i], key);
        assert(has_version(inputs, r.key, r));
        assert(all.contains(r));
        let a = choose|a: int| 0 <= a < all.len() && all[a] == r;
        assert(merge::covers(merged, all[a]));
        let k = choose|k: int|
            0 <= k < merged.len() && (#[trigger] merged[k]).key == r.key && merged[k].timestamp
                >= r.timestamp;
        let (j, b) = reader::lemma_flattened_split(chunks, k);
        assert(sound(outputs[j]));
        assert(contents(outputs[j])[b] == merged[k]);
        assert(contents(outputs[j]).contains(merged[k]));
        lemma_record_is_version(outputs[j], merged[k]);
        assert(version(outputs[j], key) == Some(merged[k]));
    }
}

/// Removing a path removes the table of that path and no other.
proof fn lemma_without_path(tables: Seq<reader::TableView>, path: Seq<char>)
    requires
        distinct_paths(tables),
    ensures
        distinct_paths(compaction::without_path(tables, path)),
        forall|t: reader::TableView| #[trigger]
            compaction::without_path(tables, path).contains(t) <==> tables.contains(t) && t.path
                != path,
    decreases tables.len(),
{
    let out = compaction::without_path(tables, path);
    if tables.len() == 0 {
        assert forall|t: reader::TableView| #[trigger] out.contains(t) <==> tables.contains(t)
            && t.path != path by {}
    } else {
        let rest = tables.skip(1);
        assert forall|i: int, j: int| 0 <= i < j < rest.len() implies (
        #[trigger] rest[i]).path != (#[trigger] rest[j]).path by {
            assert(rest[i] == tables[i + 1] && rest[j] == tables[j + 1]);
        }
        lemma_without_path(rest, path);
        let others = compaction::without_path(rest, path);
        assert forall|t: reader::TableView| #[trigger] tables.contains(t) <==> t == tables[0]
            || rest.contains(t) by {
            if tables.contains(t) && t != tables[0] {
                let k = choose|k: int| 0 <= k < tables.len() && tables[k] == t;
                assert(rest[k - 1] == t);
            }
            if rest.contains(t) {
                let k = choose|k: int| 0 <= k < rest.len() && rest[k] == t;
                assert(tables[k + 1] == t);
            }
        }
        assert forall|t: reader::TableView| rest.contains(t) implies t.path != tables[0].path by {
            let k = choose|k: int| 0 <= k < rest.len() && rest[k] == t;
            assert(tables[0].path != tables[k + 1].path);
        }
        if tables[0].path == path {
            assert forall|t: reader::TableView| #[trigger] out.contains(t) <==> tables.contains(t)
                && t.path != path by {}
        } else {
            assert(out == seq![tables[0]] + others);
            assert forall|t: reader::TableView| #[trigger] out.contains(t) <==> t == tables[0]
                || others.contains(t) by {
                if out.contains(t) && t != tables[0] {
                    let k = choose|k: int| 0 <= k < out.len() && out[k] == t;
                    assert(others[k - 1] == t);
                }
                if others.contains(t) {
                    let k = choose|k: int| 0 <= k < others.len() && others[k] == t;
                    assert(out[k + 1] == t);
                }
                assert(out[0] == tables[0]);
            }
            assert forall|i: int, j: int| 0 <= i < j < out.len() implies (
            #[trigger] out[i]).path != (#[trigger] out[j]).path by {
                if i > 0 {
                    assert(others[i - 1].path != others[j - 1].path);
                } else {
                    assert(others.contains(others[j - 1]));
                    assert(rest.contains(others[j - 1]));
                }
            }
        }
    }
}

/// Removing paths removes the tables of those paths and no others.
proof fn lemma_without_paths(tables: Seq<reader::TableView>, paths: Seq<Seq<char>>)
    requires
        distinct_paths(tables),
    ensures
        distinct_paths(compaction::without_paths(tables, paths)),
        forall|t: reader::TableView| #[trigger]
            compaction::without_paths(tables, paths).contains(t) <==> tables.contains(t)
                && !paths.contains(t.path),
    decreases paths.len(),
{
    if paths.len() > 0 {
        let init = paths.drop_last();
        let last = paths.last();
        lemma_without_paths(tables, init);
        lemma_without_path(compaction::without_paths(tables, init), last);
        assert forall|p: Seq<char>| #[trigger] paths.contains(p) <==> p == last || init.contains(
            p,
        ) by {
            if paths.contains(p) && p != last {
                let k = choose|k: int| 0 <= k < paths.len() && paths[k] == p;
                assert(init[k] == p);
            }
            if init.contains(p) {
                let k = choose|k: int| 0 <= k < init.len() && init[k] == p;
                assert(paths[k] == p);
            }
            assert(paths[paths.len() - 1] == last);
        }
    }
}

/// The overlapping tables are those that overlap.
proof fn lemma_overlapping(tables: Seq<reader::TableView>, min_key: Seq<u8>, max_key: Seq<u8>)
    ensures
        forall|t: reader::TableView| #[trigger]
            compaction::overlapping(tables, min_key, max_key).contains(t) <==> tables.contains(t)
                && compaction::overlaps(t, min_key, max_key),
    decreases tables.len(),
{
    let out = compaction::overlapping(tables, min_key, max_key);
    if tables.len() > 0 {
        let init = tables.drop_last();
        let last = tables.last();
        let before = compaction::overlapping(init, min_key, max_key);
        lemma_overlapping(init, min_key, max_key);
        assert forall|t: reader::TableView| #[trigger] tables.contains(t) <==> t == last
            || init.contains(t) by {
            if tables.contains(t) && t != last {
                let k = choose|k: int| 0 <= k < tables.len() && tables[k] == t;
                assert(init[k] == t);
            }
            if init.contains(t) {
                let k = choose|k: int| 0 <= k < init.len() && init[k] == t;
                assert(tables[k] == t);
            }
            assert(tables[tables.len() - 1] == last);
        }
        if compaction::overlaps(last, min_key, max_key) {
            assert forall|t: reader::TableView| #[trigger] out.contains(t) <==> t == last
                || before.contains(t) by {
                if out.contains(t) && t != last {
                    let k = choose|k: int| 0 <= k < out.len() && out[k] == t;
                    assert(before[k] == t);
                }
                if before.contains(t) {
                    let k = choose|k: int| 0 <= k < before.len() && before[k] == t;
                    assert(out[k] == t);
                }
                assert(out[before.len() as int] == last);
            }
        }
    }
}

/// A table's range is within the range of all tables.
proof fn lemma_key_range(tables: Seq<reader::TableView>, i: int)
    requires
        0 <= i < tables.len(),
    ensures
        order::lex_le(compaction::key_range(tables).0, tables[i].header.min_key),
        order::lex_le(tables[i].header.max_key, compaction::key_range(tables).1),
    decreases tables.len(),
{
    let init = tables.drop_last();
    let (min_key, max_key) = compaction::key_range(init);
    let last = tables.last().header;
    order::lemma_lex_total(last.min_key, min_key);
    order::lemma_lex_total(max_key, last.max_key);
    if i < init.len() {
        lemma_key_range(init, i);
        assert(init[i] == tables[i]);
        if order::lex_lt(last.min_key, min_key) {
            order::lemma_lex_le_transitive(last.min_key, min_key, tables[i].header.min_key);
        }
        if order::lex_lt(max_key, last.max_key) {
            order::lemma_lex_le_transitive(tables[i].header.max_key, max_key, last.max_key);
        }
    }
}

/// The tables that leave a level are those whose paths are given.
proof fn lemma_leave(tables: Seq<reader::TableView>, leaving: Seq<reader::TableView>)
    requires
        distinct_paths(tables),
        forall|t: reader::TableView| #[trigger] leaving.contains(t) ==> tables.contains(t),
    ensures
        distinct_paths(compaction::without_paths(tables, compaction::paths_of(leaving))),
        forall|t: reader::TableView| #[trigger]
            compaction::without_paths(tables, compaction::paths_of(leaving)).contains(t)
                <==> tables.contains(t) && !leaving.contains(t),
{
    let paths = compaction::paths_of(leaving);
    lemma_without_paths(tables, paths);
    assert forall|t: reader::TableView| tables.contains(t) implies (paths.contains(t.path)
        <==> #[trigger] leaving.contains(t)) by {
        if leaving.contains(t) {
            let k = choose|k: int| 0 <= k < leaving.len() && leaving[k] == t;
            assert(paths[k] == t.path);
        }
        if paths.contains(t.path) {
            let k = choose|k: int| 0 <= k < paths.len() && paths[k] == t.path;
            assert(leaving.contains(leaving[k]));
            let a = choose|a: int| 0 <= a < tables.len() && tables[a] == leaving[k];
            let b = choose|b: int| 0 <= b < tables.len() && tables[b] == t;
            if a < b {
                assert(tables[a].path != tables[b].path);
            } else if b < a {
                assert(tables[b].path != tables[a].path);
            }
        }
    }
}

/// A table that no input is above of is not above an output either; one that shares
/// no key with any input shares none with an output.
proof fn lemma_output_relations(
    outputs: Seq<reader::TableView>,
    inputs: Seq<reader::TableView>,
    t: reader::TableView,
    o: int,
)
    requires
        replaces(outputs, inputs),
        0 <= o < outputs.len(),
    ensures
        (forall|i: int| 0 <= i < inputs.len() ==> may_stand_above(t, #[trigger] inputs[i]))
            ==> may_stand_above(t, outputs[o]),
        (forall|i: int| 0 <= i < inputs.len() ==> may_stand_above(#[trigger] inputs[i], t))
            ==> may_stand_above(outputs[o], t),
        (forall|i: int| 0 <= i < inputs.len() ==> share_no_key(t, #[trigger] inputs[i]))
            ==> share_no_key(t, outputs[o]) && share_no_key(outputs[o], t),
{
    assert forall|key: Seq<u8>| version(outputs[o], key) is Some implies has_version(
        inputs,
        key,
        #[trigger] version(outputs[o], key)->Some_0,
    ) by {}
    if forall|i: int| 0 <= i < inputs.len() ==> may_stand_above(t, #[trigger] inputs[i]) {
        assert forall|key: Seq<u8>|
            #![trigger version(t, key), version(outputs[o], key)]
            version(t, key) is Some && version(outputs[o], key) is Some implies newer_or_same(
            version(t, key)->Some_0,
            version(outputs[o], key)->Some_0,
        ) by {
            let i = choose|i: int|
                0 <= i < inputs.len() && version(#[trigger] inputs[i], key) == Some(
                    version(outputs[o], key)->Some_0,
                );
            assert(may_stand_above(t, inputs[i]));
        }
    }
    if forall|i: int| 0 <= i < inputs.len() ==> may_stand_above(#[trigger] inputs[i], t) {
        assert forall|key: Seq<u8>|
            #![trigger version(outputs[o], key), version(t, key)]
            version(outputs[o], key) is Some && version(t, key) is Some implies newer_or_same(
            version(outputs[o], key)->Some_0,
            version(t, key)->Some_0,
        ) by {
            let i = choose|i: int|
                0 <= i < inputs.len() && version(#[trigger] inputs[i], key) == Some(
                    version(outputs[o], key)->Some_0,
                );
            assert(may_stand_above(inputs[i], t));
        }
    }
    if forall|i: int| 0 <= i < inputs.len() ==> share_no_key(t, #[trigger] inputs[i]) {
        assert forall|key: Seq<u8>|
            #![trigger version(t, key), version(outputs[o], key)]
            version(t, key) is None || version(outputs[o], key) is None by {
            if version(outputs[o], key) is Some {
                let i = choose|i: int|
                    0 <= i < inputs.len() && version(#[trigger] inputs[i], key) == Some(
                        version(outputs[o], key)->Some_0,
                    );
                assert(share_no_key(t, inputs[i]));
            }
        }
    }
}

/// Whether a level can be compacted into the next, and whether the new tables have
/// paths of their own.
pub open spec fn compactable(
    tree: compaction::ManagerView,
    level: int,
    outputs: Seq<reader::TableView>,
) -> bool {
    &&& 0 <= level < tree.levels.len() - 1
    &&& level <= usize::MAX
    &&& tree.levels[level].len() > 0
    &&& distinct_paths(tree.levels[level + 1] + outputs)
}

/// What stays of the two levels of a compaction.
proof fn lemma_what_stays(tree: compaction::ManagerView, level: int, outputs: Seq<reader::TableView>)
    requires
        tidy(tree.levels),
        compactable(tree, level, outputs),
    ensures
        ({
            let upper = compaction::without_paths(
                tree.levels[level],
                compaction::paths_of(tree.upper(level)),
            );
            let lower = compaction::without_paths(
                tree.levels[level + 1],
                compaction::paths_of(tree.lower(level)),
            );
            &&& distinct_paths(upper)
            &&& distinct_paths(lower)
            &&& forall|t: reader::TableView| #[trigger]
                upper.contains(t) <==> tree.levels[level].contains(t) && !tree.upper(
                    level,
                ).contains(t)
            &&& forall|t: reader::TableView| #[trigger]
                lower.contains(t) <==> tree.levels[level + 1].contains(t) && !tree.lower(
                    level,
                ).contains(t)
            &&& tree.after_compaction(level, outputs).levels == tree.levels.update(
                level,
                upper,
            ).update(level + 1, lower + outputs)
        }),
        forall|t: reader::TableView| #[trigger]
            tree.upper(level).contains(t) ==> tree.levels[level].contains(t),
        forall|t: reader::TableView| #[trigger]
            tree.lower(level).contains(t) <==> tree.levels[level + 1].contains(t)
                && compaction::overlaps(t, tree.range(level).0, tree.range(level).1),
{
    let levels = tree.levels;
    assert(distinct_paths(levels[level]));
    assert(distinct_paths(levels[level + 1]));
    assert forall|t: reader::TableView| #[trigger] tree.upper(level).contains(t) implies levels[
    level].contains(t) by {
        let k = choose|k: int| 0 <= k < tree.upper(level).len() && tree.upper(level)[k] == t;
        assert(levels[level][k] == t);
    }
    lemma_overlapping(levels[level + 1], tree.range(level).0, tree.range(level).1);
    lemma_leave(levels[level], tree.upper(level));
    lemma_leave(levels[level + 1], tree.lower(level));
}

/// A table of the next level that stays shares no key with a table that leaves.
proof fn lemma_stays_apart(
    tree: compaction::ManagerView,
    level: int,
    t: reader::TableView,
    i: int,
)
    requires
        tidy(tree.levels),
        0 <= level < tree.levels.len() - 1,
        tree.levels[level].len() > 0,
        tree.levels[level + 1].contains(t),
        !tree.lower(level).contains(t),
        0 <= i < tree.inputs(level).len(),
    ensures
        share_no_key(t, tree.inputs(level)[i]),
{
    let levels = tree.levels;
    let next = levels[level + 1];
    let upper = tree.upper(level);
    let lower = tree.lower(level);
    let (min_key, max_key) = tree.range(level);
    lemma_overlapping(levels[level + 1], min_key, max_key);
    assert(!compaction::overlaps(t, min_key, max_key));
    let a = choose|a: int| 0 <= a < next.len() && next[a] == t;
    assert(all_sound(levels[level + 1]) && all_sound(levels[level]));
    assert(sound(next[a]));
    if i < upper.len() {
        let u = upper[i];
        assert(u == levels[level][i]);
        assert(sound(levels[level][i]));
        if level == 0 {
            lemma_key_range(levels[0], i);
        }
        assert(order::lex_le(min_key, u.header.min_key));
        assert(order::lex_le(u.header.max_key, max_key));
        assert forall|key: Seq<u8>|
            #![trigger version(t, key), version(u, key)]
            version(t, key) is None || version(u, key) is None by {
            if version(t, key) is Some && version(u, key) is Some {
                lemma_version(t, key);
                lemma_version(u, key);
                let p = order::padded(key, 16);
                order::lemma_lex_le_transitive(t.header.min_key, p, u.header.max_key);
                order::lemma_lex_le_transitive(t.header.min_key, u.header.max_key, max_key);
                order::lemma_lex_le_transitive(min_key, u.header.min_key, p);
                order::lemma_lex_le_transitive(min_key, p, t.header.max_key);
            }
        }
        assert(tree.inputs(level)[i] == u);
    } else {
        let d = lower[i - upper.len()];
        assert(tree.inputs(level)[i] == d);
        assert(lower.contains(d));
        assert(levels[level + 1].contains(d));
        let b = choose|b: int| 0 <= b < next.len() && next[b] == d;
        assert(a != b);
        assert(disjoint(levels[level + 1]));
        assert(share_no_key(next[a], next[b]));
    }
}

/// Where a table of a tree after a compaction comes from.
pub open spec fn stayed(
    tree: compaction::ManagerView,
    level: int,
    l: int,
    t: reader::TableView,
) -> bool {
    &&& tree.levels[l].contains(t)
    &&& l == level ==> !tree.upper(level).contains(t)
    &&& l == level + 1 ==> !tree.lower(level).contains(t)
}

/// Every table after a compaction stayed where it was, or is a new one in the next
/// level.
pub proof fn lemma_after(
    tree: compaction::ManagerView,
    level: int,
    outputs: Seq<reader::TableView>,
    l: int,
    k: int,
)
    requires
        tidy(tree.levels),
        compactable(tree, level, outputs),
        0 <= l < tree.levels.len(),
        0 <= k < tree.after_compaction(level, outputs).levels[l].len(),
    ensures
        ({
            let t = tree.after_compaction(level, outputs).levels[l][k];
            stayed(tree, level, l, t) || (l == level + 1 && outputs.contains(t))
        }),
{
    lemma_what_stays(tree, level, outputs);
    let after = tree.after_compaction(level, outputs).levels;
    let t = after[l][k];
    if l == level {
        assert(after[l].contains(t));
    } else if l == level + 1 {
        let lower = compaction::without_paths(
            tree.levels[level + 1],
            compaction::paths_of(tree.lower(level)),
        );
        if k < lower.len() {
            assert(lower.contains(lower[k]));
        } else {
            assert(outputs[k - lower.len()] == t);
        }
    } else {
        assert(tree.levels[l][k] == t);
    }
}

/// A table that is compacted is a table of one of the two levels.
pub proof fn lemma_input_place(
    tree: compaction::ManagerView,
    level: int,
    outputs: Seq<reader::TableView>,
    i: int,
)
    requires
        tidy(tree.levels),
        compactable(tree, level, outputs),
        0 <= i < tree.inputs(level).len(),
    ensures
        i < tree.upper(level).len() ==> i < tree.levels[level].len() && tree.inputs(level)[i]
            == tree.levels[level][i],
        i >= tree.upper(level).len() ==> tree.levels[level + 1].contains(tree.inputs(level)[i]),
{
    lemma_what_stays(tree, level, outputs);
    let upper = tree.upper(level);
    if i >= upper.len() {
        let lower = tree.lower(level);
        assert(lower.contains(lower[i - upper.len()]));
    }
}

/// A table that stayed above the next level may stand above every input, one that
/// stayed below it may stand below, and one that stayed in it shares no key with any.
proof fn lemma_stayed_relations(
    tree: compaction::ManagerView,
    level: int,
    outputs: Seq<reader::TableView>,
    l: int,
    t: reader::TableView,
    o: int,
)
    requires
        tidy(tree.levels),
        compactable(tree, level, outputs),
        replaces(outputs, tree.inputs(level)),
        0 <= l < tree.levels.len(),
        stayed(tree, level, l, t),
        0 <= o < outputs.len(),
    ensures
        l <= level ==> may_stand_above(t, outputs[o]),
        l == level + 1 ==> share_no_key(t, outputs[o]) && share_no_key(outputs[o], t),
        l > level + 1 ==> may_stand_above(outputs[o], t),
{
    let levels = tree.levels;
    let inputs = tree.inputs(level);
    let upper = tree.upper(level);
    let here = levels[l];
    let a = choose|a: int| 0 <= a < here.len() && here[a] == t;
    lemma_what_stays(tree, level, outputs);
    assert forall|i: int| 0 <= i < inputs.len() implies {
        &&& l <= level ==> may_stand_above(t, #[trigger] inputs[i])
        &&& l == level + 1 ==> share_no_key(t, inputs[i])
        &&& l > level + 1 ==> may_stand_above(inputs[i], t)
    } by {
        if l == level + 1 {
            lemma_stays_apart(tree, level, t, i);
        } else if i < upper.len() {
            assert(inputs[i] == levels[level][i]);
            if l < level {
                assert(all_above(levels[l], levels[level]));
                assert(may_stand_above(levels[l][a], levels[level][i]));
            } else if l > level + 1 {
                assert(all_above(levels[level], levels[l]));
                assert(may_stand_above(levels[level][i], levels[l][a]));
            } else {
                assert(upper.contains(upper[i]));
                assert(level != 0) by {
                    if level == 0 {
                        assert(upper == levels[0]);
                        assert(upper.contains(t));
                    }
                }
                assert(disjoint(levels[level]));
                assert(i != a);
                assert(share_no_key(levels[level][a], levels[level][i]));
            }
        } else {
            let d = tree.lower(level)[i - upper.len()];
            assert(inputs[i] == d);
            assert(tree.lower(level).contains(d));
            let next = levels[level + 1];
            let b = choose|b: int| 0 <= b < next.len() && next[b] == d;
            if l <= level {
                assert(all_above(levels[l], levels[level + 1]));
                assert(may_stand_above(levels[l][a], levels[level + 1][b]));
            } else {
                assert(all_above(levels[level + 1], levels[l]));
                assert(may_stand_above(levels[level + 1][b], levels[l][a]));
            }
        }
    }
    lemma_output_relations(outputs, inputs, t, o);
}

/// Compaction keeps a tree tidy.
#[verifier::spinoff_prover]
pub proof fn law_compaction_keeps_tidy(
    tree: compaction::ManagerView,
    level: int,
    outputs: Seq<reader::TableView>,
)
    requires
        tidy(tree.levels),
        compactable(tree, level, outputs),
        replaces(outputs, tree.inputs(level)),
    ensures
        tidy(tree.after_compaction(level, outputs).levels),
{
    let levels = tree.levels;
    let after = tree.after_compaction(level, outputs).levels;
    lemma_what_stays(tree, level, outputs);
    let lower = compaction::without_paths(
        levels[level + 1],
        compaction::paths_of(tree.lower(level)),
    );
    assert forall|l: int| 0 <= l < after.len() implies all_sound(#[trigger] after[l]) by {
        assert forall|k: int| 0 <= k < after[l].len() implies sound(#[trigger] after[l][k]) by {
            lemma_after(tree, level, outputs, l, k);
            let t = after[l][k];
            if stayed(tree, level, l, t) {
                let here = levels[l];
                let a = choose|a: int| 0 <= a < here.len() && here[a] == t;
                assert(all_sound(levels[l]));
                assert(sound(here[a]));
            } else {
                let o = choose|o: int| 0 <= o < outputs.len() && outputs[o] == t;
                assert(sound(outputs[o]));
            }
        }
    }
    assert forall|l: int| 0 <= l < after.len() implies distinct_paths(#[trigger] after[l]) by {
        if l == level + 1 {
            lemma_distinct_after(levels[level + 1], lower, outputs);
        } else if l != level {
            assert(distinct_paths(levels[l]));
        }
    }
    assert forall|l: int, m: int| 0 <= l < m < after.len() implies all_above(
        #[trigger] after[l],
        #[trigger] after[m],
    ) by {
        assert forall|i: int, j: int|
            0 <= i < after[l].len() && 0 <= j < after[m].len() implies may_stand_above(
            #[trigger] after[l][i],
            #[trigger] after[m][j],
        ) by {
            lemma_pair_after(tree, level, outputs, l, i, m, j);
        }
    }
    assert(in_order(after[0].reverse())) by {
        if level == 0 {
            assert forall|t: reader::TableView| !(#[trigger] after[0].contains(t)) by {
                assert(tree.upper(0) == levels[0]);
            }
            if after[0].len() > 0 {
                assert(after[0].contains(after[0][0]));
            }
        } else {
            assert(after[0] == levels[0]);
        }
    }
    assert forall|l: int| 1 <= l < after.len() implies disjoint(#[trigger] after[l]) by {
        assert forall|i: int, j: int|
            0 <= i < after[l].len() && 0 <= j < after[l].len() && i != j implies share_no_key(
            #[trigger] after[l][i],
            #[trigger] after[l][j],
        ) by {
            assert(distinct_paths(after[l]));
            lemma_pair_in_level(tree, level, outputs, l, i, j);
        }
    }
}

/// What stays and what comes in have paths of their own.
proof fn lemma_distinct_after(
    tables: Seq<reader::TableView>,
    lower: Seq<reader::TableView>,
    outputs: Seq<reader::TableView>,
)
    requires
        distinct_paths(tables + outputs),
        distinct_paths(lower),
        forall|t: reader::TableView| #[trigger] lower.contains(t) ==> tables.contains(t),
    ensures
        distinct_paths(lower + outputs),
{
    let all = tables + outputs;
    let kept = lower + outputs;
    assert forall|i: int, j: int| 0 <= i < j < kept.len() implies (#[trigger] kept[i]).path != (
    #[trigger] kept[j]).path by {
        if j < lower.len() {
            assert(lower[i].path != lower[j].path);
        } else {
            let b = tables.len() + (j - lower.len());
            assert(all[b] == kept[j]);
            if i < lower.len() {
                assert(lower.contains(lower[i]));
                let a = choose|a: int| 0 <= a < tables.len() && tables[a] == lower[i];
                assert(all[a] == kept[i]);
            } else {
                assert(all[tables.len() + (i - lower.len())] == kept[i]);
            }
        }
    }
}

/// Two tables of different levels after a compaction.
proof fn lemma_pair_after(
    tree: compaction::ManagerView,
    level: int,
    outputs: Seq<reader::TableView>,
    l: int,
    i: int,
    m: int,
    j: int,
)
    requires
        tidy(tree.levels),
        compactable(tree, level, outputs),
        replaces(outputs, tree.inputs(level)),
        0 <= l < m < tree.levels.len(),
        0 <= i < tree.after_compaction(level, outputs).levels[l].len(),
        0 <= j < tree.after_compaction(level, outputs).levels[m].len(),
    ensures
        may_stand_above(
            tree.after_compaction(level, outputs).levels[l][i],
            tree.after_compaction(level, outputs).levels[m][j],
        ),
{
    let levels = tree.levels;
    let after = tree.after_compaction(level, outputs).levels;
    let a = after[l][i];
    let b = after[m][j];
    lemma_after(tree, level, outputs, l, i);
    lemma_after(tree, level, outputs, m, j);
    if stayed(tree, level, l, a) && stayed(tree, level, m, b) {
        let x = levels[l];
        let y = levels[m];
        let p = choose|p: int| 0 <= p < x.len() && x[p] == a;
        let q = choose|q: int| 0 <= q < y.len() && y[q] == b;
        assert(all_above(levels[l], levels[m]));
        assert(may_stand_above(x[p], y[q]));
    } else if stayed(tree, level, l, a) {
        let o = choose|o: int| 0 <= o < outputs.len() && outputs[o] == b;
        lemma_stayed_relations(tree, level, outputs, l, a, o);
    } else {
        let o = choose|o: int| 0 <= o < outputs.len() && outputs[o] == a;
        assert(stayed(tree, level, m, b));
        lemma_stayed_relations(tree, level, outputs, m, b, o);
    }
}

/// Two tables of a level after a compaction.
proof fn lemma_pair_in_level(
    tree: compaction::ManagerView,
    level: int,
    outputs: Seq<reader::TableView>,
    l: int,
    i: int,
    j: int,
)
    requires
        tidy(tree.levels),
        compactable(tree, level, outputs),
        replaces(outputs, tree.inputs(level)),
        1 <= l < tree.levels.len(),
        0 <= i < tree.after_compaction(level, outputs).levels[l].len(),
        0 <= j < tree.after_compaction(level, outputs).levels[l].len(),
        i != j,
        distinct_paths(tree.after_compaction(level, outputs).levels[l]),
    ensures
        share_no_key(
            tree.after_compaction(level, outputs).levels[l][i],
            tree.after_compaction(level, outputs).levels[l][j],
        ),
{
    let levels = tree.levels;
    let here = tree.after_compaction(level, outputs).levels[l];
    let a = here[i];
    let b = here[j];
    assert(a.path != b.path) by {
        if i < j {
            assert(here[i].path != here[j].path);
        } else {
            assert(here[j].path != here[i].path);
        }
    }
    lemma_after(tree, level, outputs, l, i);
    lemma_after(tree, level, outputs, l, j);
    if stayed(tree, level, l, a) && stayed(tree, level, l, b) {
        let x = levels[l];
        let p = choose|p: int| 0 <= p < x.len() && x[p] == a;
        let q = choose|q: int| 0 <= q < x.len() && x[q] == b;
        assert(disjoint(levels[l]));
        assert(share_no_key(x[p], x[q]));
    } else if stayed(tree, level, l, a) {
        let o = choose|o: int| 0 <= o < outputs.len() && outputs[o] == b;
        lemma_stayed_relations(tree, level, outputs, l, a, o);
    } else if stayed(tree, level, l, b) {
        let o = choose|o: int| 0 <= o < outputs.len() && outputs[o] == a;
        lemma_stayed_relations(tree, level, outputs, l, b, o);
    } else {
        let o = choose|o: int| 0 <= o < outputs.len() && outputs[o] == a;
        let p = choose|p: int| 0 <= p < outputs.len() && outputs[p] == b;
        assert(share_no_key(outputs[o], outputs[p]));
    }
}

/// The tables that a compaction reads are tables of the tree.
proof fn lemma_inputs_are_tables(
    tree: compaction::ManagerView,
    level: int,
    outputs: Seq<reader::TableView>,
    i: int,
)
    requires
        tidy(tree.levels),
        compactable(tree, level, outputs),
        0 <= i < tree.inputs(level).len(),
    ensures
        joined(tree.levels).contains(tree.inputs(level)[i]),
{
    let levels = tree.levels;
    let inputs = tree.inputs(level);
    let upper = tree.upper(level);
    lemma_joined(levels);
    lemma_what_stays(tree, level, outputs);
    if i < upper.len() {
        assert(upper.contains(upper[i]));
        assert(levels[level].contains(inputs[i]));
    } else {
        let lower = tree.lower(level);
        assert(lower.contains(lower[i - upper.len()]));
        assert(levels[level + 1].contains(inputs[i]));
    }
}

/// No table has a newer version of a key after a compaction.
#[verifier::spinoff_prover]
proof fn lemma_none_newer(
    tree: compaction::ManagerView,
    level: int,
    outputs: Seq<reader::TableView>,
    key: Seq<u8>,
    r: Option<layout::RecordView>,
    i: int,
)
    requires
        tidy(tree.levels),
        compactable(tree, level, outputs),
        replaces(outputs, tree.inputs(level)),
        newest(tree.levels, key, r),
        0 <= i < joined(tree.after_compaction(level, outputs).levels).len(),
        version(joined(tree.after_compaction(level, outputs).levels)[i], key) is Some,
    ensures
        r is Some,
        newer_or_same(
            r->Some_0,
            version(joined(tree.after_compaction(level, outputs).levels)[i], key)->Some_0,
        ),
{
    let levels = tree.levels;
    let after = tree.after_compaction(level, outputs).levels;
    let old_tables = joined(levels);
    let new_tables = joined(after);
    let inputs = tree.inputs(level);
    lemma_joined(levels);
    lemma_joined(after);
    let t = new_tables[i];
    assert(new_tables.contains(t));
    let l = choose|l: int| 0 <= l < after.len() && #[trigger] after[l].contains(t);
    let here = after[l];
    let k = choose|k: int| 0 <= k < here.len() && here[k] == t;
    lemma_after(tree, level, outputs, l, k);
    if stayed(tree, level, l, t) {
        assert(levels[l].contains(t));
        let b = choose|b: int| 0 <= b < old_tables.len() && old_tables[b] == t;
        assert(version(old_tables[b], key) is Some);
    } else {
        let o = choose|o: int| 0 <= o < outputs.len() && outputs[o] == t;
        let x = version(outputs[o], key)->Some_0;
        assert(version(outputs[o], key) is Some);
        assert(has_version(inputs, key, x));
        let a = choose|a: int|
            0 <= a < inputs.len() && version(#[trigger] inputs[a], key) == Some(x);
        lemma_inputs_are_tables(tree, level, outputs, a);
        let b = choose|b: int| 0 <= b < old_tables.len() && old_tables[b] == inputs[a];
        assert(version(old_tables[b], key) is Some);
    }
}

/// A table that stays is a table of the tree after a compaction.
proof fn lemma_stays_in_tables(
    tree: compaction::ManagerView,
    level: int,
    outputs: Seq<reader::TableView>,
    l: int,
    t: reader::TableView,
)
    requires
        tidy(tree.levels),
        compactable(tree, level, outputs),
        0 <= l < tree.levels.len(),
        tree.levels[l].contains(t),
        stayed(tree, level, l, t),
    ensures
        joined(tree.after_compaction(level, outputs).levels).contains(t),
{
    let levels = tree.levels;
    let after = tree.after_compaction(level, outputs).levels;
    lemma_joined(after);
    lemma_what_stays(tree, level, outputs);
    let next = after[level + 1];
    let lower = compaction::without_paths(
        levels[level + 1],
        compaction::paths_of(tree.lower(level)),
    );
    assert(after[l].contains(t)) by {
        if l == level + 1 {
            assert(lower.contains(t));
            let k = choose|k: int| 0 <= k < lower.len() && lower[k] == t;
            assert(next[k] == t);
        } else if l != level {
            assert(after[l] == levels[l]);
        }
    }
}

/// A table that does not stay is read by the compaction.
proof fn lemma_gone_is_input(
    tree: compaction::ManagerView,
    level: int,
    outputs: Seq<reader::TableView>,
    l: int,
    t: reader::TableView,
)
    requires
        tidy(tree.levels),
        compactable(tree, level, outputs),
        0 <= l < tree.levels.len(),
        tree.levels[l].contains(t),
        !stayed(tree, level, l, t),
    ensures
        tree.inputs(level).contains(t),
{
    let inputs = tree.inputs(level);
    lemma_what_stays(tree, level, outputs);
    if l == level {
        let upper = tree.upper(level);
        let k = choose|k: int| 0 <= k < upper.len() && upper[k] == t;
        assert(inputs[k] == t);
    } else {
        let lows = tree.lower(level);
        let k = choose|k: int| 0 <= k < lows.len() && lows[k] == t;
        assert(inputs[tree.upper(level).len() + k] == t);
    }
}

/// The newest version of a key is in a table after a compaction.
#[verifier::spinoff_prover]
proof fn lemma_newest_is_kept(
    tree: compaction::ManagerView,
    level: int,
    outputs: Seq<reader::TableView>,
    key: Seq<u8>,
    x: layout::RecordView,
)
    requires
        tidy(tree.levels),
        compactable(tree, level, outputs),
        replaces(outputs, tree.inputs(level)),
        newest(tree.levels, key, Some(x)),
    ensures
        has_version(joined(tree.after_compaction(level, outputs).levels), key, x),
{
    let levels = tree.levels;
    let after = tree.after_compaction(level, outputs).levels;
    let old_tables = joined(levels);
    let new_tables = joined(after);
    let inputs = tree.inputs(level);
    lemma_joined(levels);
    lemma_joined(after);
    let b = choose|b: int|
        0 <= b < old_tables.len() && version(#[trigger] old_tables[b], key) == Some(x);
    let t = old_tables[b];
    assert(old_tables.contains(t));
    let l = choose|l: int| 0 <= l < levels.len() && #[trigger] levels[l].contains(t);
    if stayed(tree, level, l, t) {
        lemma_stays_in_tables(tree, level, outputs, l, t);
        let n = choose|n: int| 0 <= n < new_tables.len() && new_tables[n] == t;
        assert(version(new_tables[n], key) == Some(x));
    } else {
        lemma_gone_is_input(tree, level, outputs, l, t);
        let i = choose|i: int| 0 <= i < inputs.len() && inputs[i] == t;
        assert(version(inputs[i], key) is Some);
        let o = choose|o: int|
            0 <= o < outputs.len() && version(#[trigger] outputs[o], key) is Some && version(
                outputs[o],
                key,
            )->Some_0.timestamp >= version(inputs[i], key)->Some_0.timestamp;
        let lower = compaction::without_paths(
            levels[level + 1],
            compaction::paths_of(tree.lower(level)),
        );
        let next = after[level + 1];
        lemma_what_stays(tree, level, outputs);
        assert(next[lower.len() + o] == outputs[o]);
        assert(after[level + 1].contains(outputs[o]));
        let n = choose|n: int| 0 <= n < new_tables.len() && new_tables[n] == outputs[o];
        lemma_none_newer(tree, level, outputs, key, Some(x), n);
        assert(version(new_tables[n], key) == Some(x));
    }
}

/// Compaction keeps the newest version of every key.
pub proof fn law_compaction_keeps_newest(
    tree: compaction::ManagerView,
    level: int,
    outputs: Seq<reader::TableView>,
    key: Seq<u8>,
    r: Option<layout::RecordView>,
)
    requires
        tidy(tree.levels),
        compactable(tree, level, outputs),
        replaces(outputs, tree.inputs(level)),
        newest(tree.levels, key, r),
    ensures
        newest(tree.after_compaction(level, outputs).levels, key, r),
{
    let new_tables = joined(tree.after_compaction(level, outputs).levels);
    assert forall|i: int|
        0 <= i < new_tables.len() && version(#[trigger] new_tables[i], key) is Some implies r is Some
        && newer_or_same(r->Some_0, version(new_tables[i], key)->Some_0) by {
        lemma_none_newer(tree, level, outputs, key, r, i);
    }
    if r is Some {
        lemma_newest_is_kept(tree, level, outputs, key, r->Some_0);
    }
}

/// Looking a key up in a tidy tree gives the same before and after a compaction
/// whose tables are within the range of the fields of a file.
pub proof fn law_compaction_is_transparent(
    tree: compaction::ManagerView,
    level: usize,
    now: u64,
    merged: Seq<layout::RecordView>,
    outputs: Seq<reader::TableView>,
    key: Seq<u8>,
    before: Result<Option<layout::RecordView>, StorageError>,
    after: Result<Option<layout::RecordView>, StorageError>,
)
    requires
        tidy(tree.levels),
        compactable(tree, level as int, outputs),
        compaction::gathered(tree.inputs(level as int)) matches Ok(all) && merge::is_merge(
            all,
            merged,
        ),
        ({
            let target = tree.target((level + 1) as usize, now);
            &&& target.written(target.chunks(merged), Ok(outputs))
            &&& target.all_fit(target.chunks(merged))
        }),
        compaction::answered(tree.candidates(key), key, before),
        compaction::answered(
            tree.after_compaction(level as int, outputs).candidates(key),
            key,
            after,
        ),
    ensures
        after == before,
{
    let n = level as int;
    let inputs = tree.inputs(n);
    let done = tree.after_compaction(n, outputs);
    lemma_what_stays(tree, n, outputs);
    assert forall|i: int| 0 <= i < inputs.len() implies sound(#[trigger] inputs[i]) by {
        let upper = tree.upper(n);
        if i < upper.len() {
            assert(all_sound(tree.levels[n]));
            assert(inputs[i] == tree.levels[n][i]);
        } else {
            let lower = tree.lower(n);
            let next = tree.levels[n + 1];
            assert(lower.contains(lower[i - upper.len()]));
            let b = choose|b: int| 0 <= b < next.len() && next[b] == inputs[i];
            assert(all_sound(tree.levels[n + 1]));
            assert(sound(next[b]));
        }
    }
    reveal(compaction::Target::written);
    law_merge_replaces(tree, inputs, (level + 1) as usize, now, merged, outputs);
    law_get_newest(tree, key, before);
    law_compaction_keeps_tidy(tree, n, outputs);
    law_compaction_keeps_newest(tree, n, outputs, key, before->Ok_0);
    law_get_newest(done, key, after);
    lemma_newest_unique(joined(done.levels), key, before->Ok_0, after->Ok_0);
}

/// The tree with one more table in level 0.
pub open spec fn with_table(tree: compaction::ManagerView, table: reader::TableView) -> compaction::ManagerView {
    compaction::ManagerView {
        levels: tree.levels.update(0, tree.levels[0].push(table)),
        ..tree
    }
}

/// Whether a table can come into level 0: it is sound, has a path of its own and
/// has no version older than one that is there.
pub open spec fn may_come(tree: compaction::ManagerView, table: reader::TableView) -> bool {
    &&& tree.levels.len() > 0
    &&& sound(table)
    &&& distinct_paths(tree.levels[0].push(table))
    &&& forall|l: int, i: int|
        0 <= l < tree.levels.len() && 0 <= i < tree.levels[l].len() ==> may_stand_above(
            table,
            #[trigger] tree.levels[l][i],
        )
}

/// A new table keeps a tree tidy, and its versions are the newest.
pub proof fn law_new_table(
    tree: compaction::ManagerView,
    table: reader::TableView,
    key: Seq<u8>,
    r: Option<layout::RecordView>,
)
    requires
        tidy(tree.levels),
        may_come(tree, table),
        newest(tree.levels, key, r),
    ensures
        tidy(with_table(tree, table).levels),
        newest(
            with_table(tree, table).levels,
            key,
            if version(table, key) is Some {
                version(table, key)
            } else {
                r
            },
        ),
{
    let levels = tree.levels;
    let after = with_table(tree, table).levels;
    let top = levels[0].push(table);
    let n = levels[0].len() as int;
    assert forall|l: int| 0 <= l < after.len() implies all_sound(#[trigger] after[l])
        && distinct_paths(after[l]) by {
        assert(all_sound(levels[l]) && distinct_paths(levels[l]));
    }
    assert forall|l: int, m: int| 0 <= l < m < after.len() implies all_above(
        #[trigger] after[l],
        #[trigger] after[m],
    ) by {
        assert(all_above(levels[l], levels[m]));
        assert forall|i: int, j: int|
            0 <= i < after[l].len() && 0 <= j < after[m].len() implies may_stand_above(
            #[trigger] after[l][i],
            #[trigger] after[m][j],
        ) by {
            assert(after[m][j] == levels[m][j]);
            if !(l == 0 && i == n) {
                assert(after[l][i] == levels[l][i]);
                assert(may_stand_above(levels[l][i], levels[m][j]));
            }
        }
    }
    let newer = top.reverse();
    let older = levels[0].reverse();
    assert forall|i: int, j: int| 0 <= i < j < newer.len() implies may_stand_above(
        #[trigger] newer[i],
        #[trigger] newer[j],
    ) by {
        assert(newer[j] == older[j - 1]);
        if i > 0 {
            assert(newer[i] == older[i - 1]);
            assert(may_stand_above(older[i - 1], older[j - 1]));
        } else {
            assert(newer[0] == table);
            assert(newer[j] == levels[0][n - j]);
        }
    }
    assert(after[0] == top);
    assert forall|l: int| 1 <= l < after.len() implies disjoint(#[trigger] after[l]) by {
        assert(disjoint(levels[l]));
    }
    lemma_joined(levels);
    lemma_joined(after);
    let old_tables = joined(levels);
    let new_tables = joined(after);
    let v = if version(table, key) is Some {
        version(table, key)
    } else {
        r
    };
    assert forall|i: int|
        0 <= i < new_tables.len() && version(#[trigger] new_tables[i], key) is Some implies v is Some
        && newer_or_same(v->Some_0, version(new_tables[i], key)->Some_0) by {
        let t = new_tables[i];
        assert(new_tables.contains(t));
        let l = choose|l: int| 0 <= l < after.len() && #[trigger] after[l].contains(t);
        let here = after[l];
        let k = choose|k: int| 0 <= k < here.len() && here[k] == t;
        if !(l == 0 && k == n) {
            assert(levels[l][k] == t);
            assert(levels[l].contains(t));
            let b = choose|b: int| 0 <= b < old_tables.len() && old_tables[b] == t;
            assert(version(old_tables[b], key) is Some);
            assert(may_stand_above(table, levels[l][k]));
        }
    }
    if version(table, key) is Some {
        assert(top[n] == table);
        assert(after[0].contains(table));
        assert(new_tables.contains(table));
        let m = choose|m: int| 0 <= m < new_tables.len() && new_tables[m] == table;
        assert(version(new_tables[m], key) == Some(v->Some_0));
    } else if r is Some {
        let b = choose|b: int|
            0 <= b < old_tables.len() && version(#[trigger] old_tables[b], key) == Some(r->Some_0);
        let t = old_tables[b];
        assert(old_tables.contains(t));
        let l = choose|l: int| 0 <= l < levels.len() && #[trigger] levels[l].contains(t);
        let here = levels[l];
        let k = choose|k: int| 0 <= k < here.len() && here[k] == t;
        assert(after[l][k] == t);
        assert(after[l].contains(t));
        assert(new_tables.contains(t));
        let m = choose|m: int| 0 <= m < new_tables.len() && new_tables[m] == t;
        assert(version(new_tables[m], key) == Some(v->Some_0));
    }
}

/// The first version of a key in some tables.
spec fn first_version(tables: Seq<reader::TableView>, key: Seq<u8>) -> Option<layout::RecordView>
    decreases tables.len(),
{
    if tables.len() == 0 {
        None
    } else if version(tables[0], key) is Some {
        version(tables[0], key)
    } else {
        first_version(tables.skip(1), key)
    }
}

/// Some tables in order have a newest version of every key, or none.
proof fn lemma_first_is_newest(tables: Seq<reader::TableView>, key: Seq<u8>)
    requires
        in_order(tables),
    ensures
        newest_in(tables, key, first_version(tables, key)),
    decreases tables.len(),
{
    if tables.len() > 0 {
        let first = tables[0];
        if version(first, key) is Some {
            let x = version(first, key)->Some_0;
            assert forall|i: int|
                0 <= i < tables.len() && version(#[trigger] tables[i], key) is Some implies newer_or_same(
            x, version(tables[i], key)->Some_0) by {
                if i > 0 {
                    assert(may_stand_above(tables[0], tables[i]));
                }
            }
            assert(version(tables[0], key) == Some(x));
        } else {
            let rest = tables.skip(1);
            assert forall|i: int, j: int| 0 <= i < j < rest.len() implies may_stand_above(
                #[trigger] rest[i],
                #[trigger] rest[j],
            ) by {
                assert(rest[i] == tables[i + 1] && rest[j] == tables[j + 1]);
            }
            lemma_first_is_newest(rest, key);
            let v = first_version(rest, key);
            assert forall|i: int|
                0 <= i < tables.len() && version(#[trigger] tables[i], key) is Some implies v is Some
                && newer_or_same(v->Some_0, version(tables[i], key)->Some_0) by {
                assert(tables[i] == rest[i - 1]);
            }
            if v is Some {
                let k = choose|k: int|
                    0 <= k < rest.len() && version(#[trigger] rest[k], key) == Some(v->Some_0);
                assert(tables[k + 1] == rest[k]);
            }
        }
    }
}

/// A tidy tree has a newest version of every key, or none.
pub proof fn lemma_some_newest(levels: Seq<Seq<reader::TableView>>, key: Seq<u8>)
    requires
        levels.len() > 0,
        tidy(levels),
    ensures
        exists|r: Option<layout::RecordView>| newest(levels, key, r),
{
    let top = levels[0].reverse();
    let rest = levels.skip(1);
    let deep = compaction::deeper(rest, key);
    let all = top + deep;
    lemma_search_order(levels, key);
    lemma_first_is_newest(all, key);
    lemma_newest_among(all, joined(levels), key, first_version(all, key));
    assert(newest(levels, key, first_version(all, key)));
}

} // verus!
