//! Merging records: all versions of all keys go in, the newest version of each key
//! comes out, in key order.
use crate::engine::order;
use crate::engine::storage::sstable::block;
use crate::engine::storage::sstable::layout;
use crate::engine::storage::sstable::layout::Record;
use crate::engine::storage::sstable::reader;
use vstd::multiset::Multiset;
use vstd::prelude::*;

verus! {

/// Whether `a` may stand before `b`: keys ascend, and versions of one key come
/// newest first.
pub open spec fn may_precede(a: layout::RecordView, b: layout::RecordView) -> bool {
    order::lex_lt(a.key, b.key) || (a.key == b.key && a.timestamp >= b.timestamp)
}

/// Whether every record may stand before those behind it.
pub open spec fn in_merge_order(records: Seq<layout::RecordView>) -> bool {
    forall|i: int, j: int|
        0 <= i < j < records.len() ==> may_precede(#[trigger] records[i], #[trigger] records[j])
}

/// Whether one of some records has the key of `r` and is as new or newer.
pub open spec fn covers(records: Seq<layout::RecordView>, r: layout::RecordView) -> bool {
    exists|j: int|
        0 <= j < records.len() && (#[trigger] records[j]).key == r.key && records[j].timestamp
            >= r.timestamp
}

/// Whether `merged` has the newest version of every key of `inputs`, in key order
/// and nothing else.
pub open spec fn is_merge(inputs: Seq<layout::RecordView>, merged: Seq<layout::RecordView>) -> bool {
    &&& reader::sorted_records(merged)
    &&& forall|i: int| 0 <= i < merged.len() ==> inputs.contains(#[trigger] merged[i])
    &&& forall|i: int| 0 <= i < inputs.len() ==> #[trigger] covers(merged, inputs[i])
}

proof fn lemma_may_precede_transitive(
    a: layout::RecordView,
    b: layout::RecordView,
    c: layout::RecordView,
)
    requires
        may_precede(a, b),
        may_precede(b, c),
    ensures
        may_precede(a, c),
{
    if order::lex_lt(a.key, b.key) && order::lex_lt(b.key, c.key) {
        order::lemma_lex_transitive(a.key, b.key, c.key);
    }
}

/// Whether `a` may stand before `b`; of two records one may always.
fn precedes(a: &Record, b: &Record) -> (r: bool)
    ensures
        r == may_precede(a@, b@),
        !r ==> may_precede(b@, a@),
{
    match order::compare_keys(a.key.as_slice(), b.key.as_slice()) {
        order::KeyOrder::Less => true,
        order::KeyOrder::Equal => {
            proof {
                order::lemma_lex_irreflexive(a.key@);
            }
            a.timestamp >= b.timestamp
        },
        order::KeyOrder::Greater => {
            proof {
                order::lemma_lex_asymmetric(b.key@, a.key@);
            }
            false
        },
    }
}

/// The views of some records in reverse order.
spec fn reversed_views(records: Seq<Record>) -> Seq<layout::RecordView> {
    block::record_views(records).reverse()
}

/// The records in reverse order.
fn reversed(records: Vec<Record>) -> (r: Vec<Record>)
    ensures
        block::record_views(r@) == block::record_views(records@).reverse(),
{
    let ghost all = block::record_views(records@);
    let mut from = records;
    let mut out: Vec<Record> = Vec::new();
    let ghost n = all.len() as int;
    while from.len() > 0
        invariant
            n == all.len(),
            from@.len() + out@.len() == n,
            block::record_views(from@) == all.take(from@.len() as int),
            block::record_views(out@) == all.reverse().take(out@.len() as int),
        decreases from@.len(),
    {
        let ghost before_from = block::record_views(from@);
        let ghost before_out = block::record_views(out@);
        if let Some(record) = from.pop() {
            proof {
                assert(record@ == before_from.last());
                assert(block::record_views(from@) =~= before_from.drop_last());
                assert(all.take(from@.len() as int + 1).drop_last() =~= all.take(
                    from@.len() as int,
                ));
            }
            out.push(record);
            proof {
                assert(block::record_views(out@) =~= before_out.push(record@));
                let k = before_out.len() as int;
                assert(all.reverse().take(k + 1) =~= all.reverse().take(k).push(
                    all.reverse()[k],
                ));
                assert(all.reverse()[k] == all[n - 1 - k]);
            }
        }
    }
    assert(all.reverse().take(n) =~= all.reverse());
    out
}

/// Merges two lists in merge order.
fn merge_two(a: Vec<Record>, b: Vec<Record>) -> (r: Vec<Record>)
    requires
        in_merge_order(block::record_views(a@)),
        in_merge_order(block::record_views(b@)),
    ensures
        in_merge_order(block::record_views(r@)),
        block::record_views(r@).to_multiset() == block::record_views(a@).to_multiset().add(
            block::record_views(b@).to_multiset(),
        ),
{
    let ghost va = block::record_views(a@);
    let ghost vb = block::record_views(b@);
    let mut a = a;
    let mut b = b;
    // Filled from the back: the last record first.
    let mut out: Vec<Record> = Vec::new();
    proof {
        assert(block::record_views(out@).reverse() =~= Seq::empty());
        lemma_no_records();
        assert(va.to_multiset().add(vb.to_multiset()).add(Multiset::empty())
            =~= va.to_multiset().add(vb.to_multiset()));
    }
    while a.len() > 0 || b.len() > 0
        invariant
            in_merge_order(block::record_views(a@)),
            in_merge_order(block::record_views(b@)),
            in_merge_order(reversed_views(out@)),
            precede_all(block::record_views(a@), reversed_views(out@)),
            precede_all(block::record_views(b@), reversed_views(out@)),
            block::record_views(a@).to_multiset().add(
                block::record_views(b@).to_multiset(),
            ).add(reversed_views(out@).to_multiset()) == va.to_multiset().add(vb.to_multiset()),
        decreases a@.len() + b@.len(),
    {
        let from_a: bool = if a.len() == 0 {
            false
        } else if b.len() == 0 {
            true
        } else {
            !precedes(&a[a.len() - 1], &b[b.len() - 1])
        };
        let ghost sa = block::record_views(a@);
        let ghost sb = block::record_views(b@);
        let ghost so = reversed_views(out@);
        if from_a {
            if let Some(record) = a.pop() {
                proof {
                    assert(block::record_views(a@) =~= sa.drop_last());
                    assert(record@ == sa.last());
                    lemma_take_last(sa, sb, so);
                    lemma_multiset_move(sa, sb, so);
                }
                out.push(record);
                assert(reversed_views(out@) =~= seq![record@] + so);
            }
        } else {
            if let Some(record) = b.pop() {
                proof {
                    assert(block::record_views(b@) =~= sb.drop_last());
                    assert(record@ == sb.last());
                    lemma_take_last(sb, sa, so);
                    lemma_multiset_move(sb, sa, so);
                    assert(sa.to_multiset().add(sb.to_multiset()) =~= sb.to_multiset().add(
                        sa.to_multiset(),
                    ));
                    assert(sa.to_multiset().add(sb.drop_last().to_multiset())
                        =~= sb.drop_last().to_multiset().add(sa.to_multiset()));
                }
                out.push(record);
                assert(reversed_views(out@) =~= seq![record@] + so);
            }
        }
    }
    proof {
        let so = reversed_views(out@);
        assert(block::record_views(a@) =~= Seq::empty());
        assert(block::record_views(b@) =~= Seq::empty());
        lemma_no_records();
        assert(Multiset::<layout::RecordView>::empty().add(Multiset::empty()).add(so.to_multiset())
            =~= so.to_multiset());
    }
    reversed(out)
}

/// Whether every record of `a` may stand before every record of `b`.
spec fn precede_all(a: Seq<layout::RecordView>, b: Seq<layout::RecordView>) -> bool {
    forall|i: int, j: int|
        0 <= i < a.len() && 0 <= j < b.len() ==> may_precede(#[trigger] a[i], #[trigger] b[j])
}

/// Taking the last of `x`, where that of `y` may stand before it, and putting it in
/// front of `out`.
proof fn lemma_take_last(
    x: Seq<layout::RecordView>,
    y: Seq<layout::RecordView>,
    out: Seq<layout::RecordView>,
)
    requires
        x.len() > 0,
        in_merge_order(x),
        in_merge_order(y),
        in_merge_order(out),
        precede_all(x, out),
        precede_all(y, out),
        y.len() > 0 ==> may_precede(y.last(), x.last()),
    ensures
        in_merge_order(x.drop_last()),
        in_merge_order(seq![x.last()] + out),
        precede_all(x.drop_last(), seq![x.last()] + out),
        precede_all(y, seq![x.last()] + out),
{
    let next = seq![x.last()] + out;
    let n = x.len() - 1;
    assert forall|i: int, j: int| 0 <= i < j < next.len() implies may_precede(
        #[trigger] next[i],
        #[trigger] next[j],
    ) by {
        if i == 0 {
            assert(may_precede(x[n], out[j - 1]));
        } else {
            assert(may_precede(out[i - 1], out[j - 1]));
        }
    }
    assert forall|i: int, j: int| 0 <= i < n && 0 <= j < next.len() implies may_precede(
        #[trigger] x.drop_last()[i],
        #[trigger] next[j],
    ) by {
        if j == 0 {
            assert(may_precede(x[i], x[n]));
        } else {
            assert(may_precede(x[i], out[j - 1]));
        }
    }
    assert forall|i: int, j: int| 0 <= i < y.len() && 0 <= j < next.len() implies may_precede(
        #[trigger] y[i],
        #[trigger] next[j],
    ) by {
        if j == 0 {
            if i < y.len() - 1 {
                assert(may_precede(y[i], y[y.len() - 1]));
                lemma_may_precede_transitive(y[i], y.last(), x.last());
            }
        } else {
            assert(may_precede(y[i], out[j - 1]));
        }
    }
}

/// Moving the last of `x` to the front of `out` keeps the records.
proof fn lemma_multiset_move(
    x: Seq<layout::RecordView>,
    y: Seq<layout::RecordView>,
    out: Seq<layout::RecordView>,
)
    requires
        x.len() > 0,
    ensures
        x.drop_last().to_multiset().add(y.to_multiset()).add(
            (seq![x.last()] + out).to_multiset(),
        ) == x.to_multiset().add(y.to_multiset()).add(out.to_multiset()),
{
    broadcast use vstd::seq_lib::group_to_multiset_ensures;

    let last = x.last();
    assert(x =~= x.drop_last().push(last));
    assert(x.to_multiset() =~= x.drop_last().to_multiset().insert(last));
    vstd::seq_lib::lemma_multiset_commutative(seq![last], out);
    assert(seq![last] =~= Seq::<layout::RecordView>::empty().push(last));
    assert(seq![last].to_multiset() =~= Multiset::singleton(last));
    assert(x.drop_last().to_multiset().add(y.to_multiset()).add((seq![last] + out).to_multiset())
        =~= x.to_multiset().add(y.to_multiset()).add(out.to_multiset()));
}

/// No records are the empty multiset.
proof fn lemma_no_records()
    ensures
        Seq::<layout::RecordView>::empty().to_multiset() == Multiset::<
            layout::RecordView,
        >::empty(),
{
    broadcast use vstd::seq_lib::group_to_multiset_ensures;

    assert(Seq::<layout::RecordView>::empty().to_multiset() =~= Multiset::empty());
}

/// Brings records into merge order.
fn sort_records(records: Vec<Record>) -> (r: Vec<Record>)
    ensures
        in_merge_order(block::record_views(r@)),
        block::record_views(r@).to_multiset() == block::record_views(records@).to_multiset(),
    decreases records@.len(),
{
    let n: usize = records.len();
    if n <= 1 {
        return records;
    }
    let ghost all = block::record_views(records@);
    let mut left = records;
    let right = left.split_off(n / 2);
    proof {
        let l = block::record_views(left@);
        let r = block::record_views(right@);
        assert(l + r =~= all);
        vstd::seq_lib::lemma_multiset_commutative(l, r);
    }
    merge_two(sort_records(left), sort_records(right))
}

/// The same records in another order.
proof fn lemma_same_members(a: Seq<layout::RecordView>, b: Seq<layout::RecordView>, r: layout::RecordView)
    requires
        a.to_multiset() == b.to_multiset(),
    ensures
        a.contains(r) == b.contains(r),
{
    broadcast use vstd::seq_lib::group_to_multiset_ensures;

    assert(a.contains(r) <==> a.to_multiset().count(r) > 0);
    assert(b.contains(r) <==> b.to_multiset().count(r) > 0);
}

/// The newest version of every key, in key order. Of two versions with the same
/// timestamp either may stay.
pub fn newest_versions(records: Vec<Record>) -> (r: Vec<Record>)
    ensures
        is_merge(block::record_views(records@), block::record_views(r@)),
{
    let ghost inputs = block::record_views(records@);
    let sorted = sort_records(records);
    let ghost all = block::record_views(sorted@);
    let mut out: Vec<Record> = Vec::new();
    let mut i: usize = 0;
    while i < sorted.len()
        invariant
            i <= sorted@.len(),
            all == block::record_views(sorted@),
            in_merge_order(all),
            merged_so_far(all, i as int, block::record_views(out@)),
        decreases sorted@.len() - i,
    {
        let ghost before = block::record_views(out@);
        let repeated: bool = if out.len() == 0 {
            false
        } else {
            order::bytes_equal(out[out.len() - 1].key.as_slice(), sorted[i].key.as_slice())
        };
        if !repeated {
            let record = sorted[i].clone();
            out.push(record);
            proof {
                assert(block::record_views(out@) =~= before.push(all[i as int]));
            }
        }
        proof {
            lemma_merge_step(all, i as int, before);
        }
        i = i + 1;
    }
    proof {
        lemma_merge_done(inputs, all, block::record_views(out@));
    }
    out
}

/// What holds after the first `i` of some records in merge order were merged.
spec fn merged_so_far(
    all: Seq<layout::RecordView>,
    i: int,
    out: Seq<layout::RecordView>,
) -> bool {
    &&& reader::sorted_records(out)
    &&& forall|j: int| 0 <= j < out.len() ==> all.contains(#[trigger] out[j])
    &&& i == 0 ==> out.len() == 0
    &&& i > 0 ==> out.len() > 0 && out.last().key == all[i - 1].key
    &&& forall|k: int| 0 <= k < i ==> #[trigger] covers(out, all[k])
}

/// One more record: it is passed over if its key was the last one.
proof fn lemma_merge_step(all: Seq<layout::RecordView>, i: int, out: Seq<layout::RecordView>)
    requires
        0 <= i < all.len(),
        in_merge_order(all),
        merged_so_far(all, i, out),
    ensures
        out.len() > 0 && out.last().key == all[i].key ==> merged_so_far(all, i + 1, out),
        !(out.len() > 0 && out.last().key == all[i].key) ==> merged_so_far(
            all,
            i + 1,
            out.push(all[i]),
        ),
{
    if out.len() > 0 && out.last().key == all[i].key {
        assert(may_precede(all[i - 1], all[i]));
        order::lemma_lex_irreflexive(all[i].key);
        assert forall|k: int| 0 <= k < i + 1 implies #[trigger] covers(out, all[k]) by {
            if k == i {
                assert(covers(out, all[i - 1]));
                let j = choose|j: int|
                    0 <= j < out.len() && (#[trigger] out[j]).key == all[i - 1].key
                        && out[j].timestamp >= all[i - 1].timestamp;
                assert(out[j].key == all[k].key && out[j].timestamp >= all[k].timestamp);
            }
        }
    } else {
        let next = out.push(all[i]);
        let keys = reader::record_keys(next);
        assert forall|a: int, b: int| 0 <= a < b < keys.len() implies order::lex_lt(
            #[trigger] keys[a],
            #[trigger] keys[b],
        ) by {
            let old_keys = reader::record_keys(out);
            if b < out.len() {
                assert(order::lex_lt(old_keys[a], old_keys[b]));
            } else {
                assert(may_precede(all[i - 1], all[i]));
                assert(out.last().key == all[i - 1].key);
                if a < out.len() - 1 {
                    assert(order::lex_lt(old_keys[a], old_keys[out.len() - 1]));
                    order::lemma_lex_transitive(keys[a], out.last().key, keys[b]);
                }
            }
        }
        assert forall|j: int| 0 <= j < next.len() implies all.contains(#[trigger] next[j]) by {
            if j < out.len() {
                assert(next[j] == out[j]);
            } else {
                assert(all[i] == next[j]);
            }
        }
        assert forall|k: int| 0 <= k < i + 1 implies #[trigger] covers(next, all[k]) by {
            if k < i {
                assert(covers(out, all[k]));
                let j = choose|j: int|
                    0 <= j < out.len() && (#[trigger] out[j]).key == all[k].key
                        && out[j].timestamp >= all[k].timestamp;
                assert(next[j] == out[j]);
            } else {
                assert(next[out.len() as int] == all[k]);
            }
        }
    }
}

/// After the last record the merge is complete.
proof fn lemma_merge_done(
    inputs: Seq<layout::RecordView>,
    all: Seq<layout::RecordView>,
    out: Seq<layout::RecordView>,
)
    requires
        all.to_multiset() == inputs.to_multiset(),
        merged_so_far(all, all.len() as int, out),
    ensures
        is_merge(inputs, out),
{
    assert forall|j: int| 0 <= j < out.len() implies inputs.contains(#[trigger] out[j]) by {
        assert(all.contains(out[j]));
        lemma_same_members(all, inputs, out[j]);
    }
    assert forall|k: int| 0 <= k < inputs.len() implies #[trigger] covers(out, inputs[k]) by {
        assert(inputs.contains(inputs[k]));
        lemma_same_members(all, inputs, inputs[k]);
        let m = choose|m: int| 0 <= m < all.len() && all[m] == inputs[k];
        assert(covers(out, all[m]));
    }
}

/// A merge has one version of each key, and no version that went in is newer.
pub proof fn law_merge_newest(
    inputs: Seq<layout::RecordView>,
    merged: Seq<layout::RecordView>,
    key: Seq<u8>,
)
    requires
        is_merge(inputs, merged),
    ensures
        match block::find_key(merged, key) {
            Some(r) => inputs.contains(r) && r.key == key && forall|i: int|
                0 <= i < inputs.len() && (#[trigger] inputs[i]).key == key ==> r.timestamp
                    >= inputs[i].timestamp,
            None => forall|i: int| 0 <= i < inputs.len() ==> (#[trigger] inputs[i]).key != key,
        },
{
    reader::lemma_find_some(merged, key);
    let found = block::find_key(merged, key);
    if found is Some {
        let r = found->Some_0;
        let k = choose|k: int| 0 <= k < merged.len() && merged[k] == r;
        assert(inputs.contains(merged[k]));
        assert forall|i: int| 0 <= i < inputs.len() && (#[trigger] inputs[i]).key == key implies
            r.timestamp >= inputs[i].timestamp by {
            assert(covers(merged, inputs[i]));
            let j = choose|j: int|
                0 <= j < merged.len() && (#[trigger] merged[j]).key == inputs[i].key
                    && merged[j].timestamp >= inputs[i].timestamp;
            reader::lemma_find_at(merged, j);
        }
    } else {
        assert forall|i: int| 0 <= i < inputs.len() implies (#[trigger] inputs[i]).key != key by {
            assert(covers(merged, inputs[i]));
            let j = choose|j: int|
                0 <= j < merged.len() && (#[trigger] merged[j]).key == inputs[i].key
                    && merged[j].timestamp >= inputs[i].timestamp;
            assert(merged[j].key != key);
        }
    }
}

/// A merge has, of each key of its inputs, exactly one record, which is one of theirs,
/// and none of theirs with that key is newer; its keys are in order.
pub proof fn law_merge(
    inputs: Seq<layout::RecordView>,
    merged: Seq<layout::RecordView>,
    i: int,
    j: int,
)
    requires
        is_merge(inputs, merged),
        0 <= i < inputs.len(),
    ensures
        exists|k: int|
            0 <= k < merged.len() && (#[trigger] merged[k]).key == inputs[i].key
                && merged[k].timestamp >= inputs[i].timestamp,
        0 <= j < merged.len() ==> inputs.contains(merged[j]),
        0 <= j < merged.len() && merged[j].key == inputs[i].key ==> merged[j].timestamp
            >= inputs[i].timestamp,
        forall|a: int, b: int|
            0 <= a < b < merged.len() ==> order::lex_lt(
                (#[trigger] merged[a]).key,
                (#[trigger] merged[b]).key,
            ),
{
    let keys = reader::record_keys(merged);
    assert(covers(merged, inputs[i]));
    let k = choose|k: int|
        0 <= k < merged.len() && (#[trigger] merged[k]).key == inputs[i].key && merged[k].timestamp
            >= inputs[i].timestamp;
    assert forall|a: int, b: int| 0 <= a < b < merged.len() implies order::lex_lt(
        (#[trigger] merged[a]).key,
        (#[trigger] merged[b]).key,
    ) by {
        assert(order::lex_lt(keys[a], keys[b]));
    }
    if 0 <= j < merged.len() && merged[j].key == inputs[i].key {
        assert(keys[j] == merged[j].key && keys[k] == merged[k].key);
        order::law_strictly_sorted(keys, j, k);
    }
}

} // verus!
