//! What the engine asks of its secondary indexes.
use crate::engine::codec;
use crate::engine::storage::config::EngineConfig;
use crate::engine::storage::wal;
use crate::engine::storage::wal::{WalRecord, WalRecordType};
use crate::engine::text;
use vstd::prelude::*;

verus! {

/// The indexes that there are.
#[derive(Clone, Copy, PartialEq, Eq, Structural, Debug)]
pub struct IndexSet {
    pub vector: bool,
    pub graph: bool,
    pub time_series: bool,
    pub tag: bool,
}

impl IndexSet {
    /// The indexes that a configuration enables.
    pub open spec fn of(config: EngineConfig) -> IndexSet {
        IndexSet {
            vector: config.vector.enabled,
            graph: config.graph.enabled,
            time_series: config.time_series.enabled,
            tag: config.tag_index.enabled,
        }
    }

    /// The indexes that a configuration enables.
    pub fn enabled_by(config: &EngineConfig) -> (r: IndexSet)
        ensures
            r == IndexSet::of(*config),
    {
        IndexSet {
            vector: config.vector.enabled,
            graph: config.graph.enabled,
            time_series: config.time_series.enabled,
            tag: config.tag_index.enabled,
        }
    }
}

/// A change of an index.
#[derive(Debug)]
pub enum IndexAction {
    InsertVector { key: Vec<u8>, embedding: Vec<u32> },
    RemoveVector { key: Vec<u8> },
    SetTimestamp { key: Vec<u8>, timestamp: u64 },
    RemoveTimestamp { key: Vec<u8> },
    AddTags { key: Vec<u8>, tags: Vec<String> },
    SetTags { key: Vec<u8>, tags: Vec<String> },
    RemoveTags { key: Vec<u8> },
    AddEdge {
        source: Vec<u8>,
        target: Vec<u8>,
        edge_type: Option<String>,
        weight: Option<u32>,
    },
    RemoveEdge { source: Vec<u8>, target: Vec<u8> },
}

/// What a change of an index says.
#[verifier::ext_equal]
pub enum ActionView {
    InsertVector { key: Seq<u8>, embedding: Seq<u32> },
    RemoveVector { key: Seq<u8> },
    SetTimestamp { key: Seq<u8>, timestamp: u64 },
    RemoveTimestamp { key: Seq<u8> },
    AddTags { key: Seq<u8>, tags: Seq<Seq<char>> },
    SetTags { key: Seq<u8>, tags: Seq<Seq<char>> },
    RemoveTags { key: Seq<u8> },
    AddEdge {
        source: Seq<u8>,
        target: Seq<u8>,
        edge_type: Option<Seq<char>>,
        weight: Option<u32>,
    },
    RemoveEdge { source: Seq<u8>, target: Seq<u8> },
}

/// The text, if there is one.
pub open spec fn text_view(t: Option<String>) -> Option<Seq<char>> {
    match t {
        Some(s) => Some(s@),
        None => None,
    }
}

impl View for IndexAction {
    type V = ActionView;

    open spec fn view(&self) -> ActionView {
        match self {
            IndexAction::InsertVector { key, embedding } => ActionView::InsertVector {
                key: key@,
                embedding: embedding@,
            },
            IndexAction::RemoveVector { key } => ActionView::RemoveVector { key: key@ },
            IndexAction::SetTimestamp { key, timestamp } => ActionView::SetTimestamp {
                key: key@,
                timestamp: *timestamp,
            },
            IndexAction::RemoveTimestamp { key } => ActionView::RemoveTimestamp { key: key@ },
            IndexAction::AddTags { key, tags } => ActionView::AddTags {
                key: key@,
                tags: text::texts(tags@),
            },
            IndexAction::SetTags { key, tags } => ActionView::SetTags {
                key: key@,
                tags: text::texts(tags@),
            },
            IndexAction::RemoveTags { key } => ActionView::RemoveTags { key: key@ },
            IndexAction::AddEdge { source, target, edge_type, weight } => ActionView::AddEdge {
                source: source@,
                target: target@,
                edge_type: text_view(*edge_type),
                weight: *weight,
            },
            IndexAction::RemoveEdge { source, target } => ActionView::RemoveEdge {
                source: source@,
                target: target@,
            },
        }
    }
}

/// The views of some changes.
pub open spec fn action_views(actions: Seq<IndexAction>) -> Seq<ActionView> {
    Seq::new(actions.len(), |i: int| actions[i]@)
}

impl ActionView {
    /// Whether a failure of the change while a log is replayed is an error. The
    /// other changes are made as well as possible.
    pub open spec fn must_succeed(self) -> bool {
        self is InsertVector || self is SetTimestamp || self is AddTags || self is SetTags
    }
}

impl IndexAction {
    /// Whether a failure of the change while a log is replayed is an error.
    pub fn must_succeed(&self) -> (r: bool)
        ensures
            r == self@.must_succeed(),
    {
        match self {
            IndexAction::InsertVector { .. } => true,
            IndexAction::SetTimestamp { .. } => true,
            IndexAction::AddTags { .. } => true,
            IndexAction::SetTags { .. } => true,
            _ => false,
        }
    }
}

/// The change that a log record makes to an index, if its index is there and the
/// record has what the change needs.
pub open spec fn effect(record: wal::WalRecordView, set: IndexSet) -> Option<ActionView> {
    let key = record.key;
    match record.record_type {
        WalRecordType::Insert => None,
        WalRecordType::Delete => None,
        WalRecordType::InsertWithEmbedding => if set.vector && record.embedding is Some {
            Some(ActionView::InsertVector { key, embedding: record.embedding->Some_0 })
        } else {
            None
        },
        WalRecordType::SetTimestamp => if set.time_series && record.ts_timestamp is Some {
            Some(ActionView::SetTimestamp { key, timestamp: record.ts_timestamp->Some_0 })
        } else {
            None
        },
        WalRecordType::AddTags => if set.tag && record.tags is Some {
            Some(ActionView::AddTags { key, tags: record.tags->Some_0 })
        } else {
            None
        },
        WalRecordType::SetTags => if set.tag && record.tags is Some {
            Some(ActionView::SetTags { key, tags: record.tags->Some_0 })
        } else {
            None
        },
        WalRecordType::AddEdge => if set.graph && record.edge_source is Some
            && record.edge_target is Some {
            Some(
                ActionView::AddEdge {
                    source: record.edge_source->Some_0,
                    target: record.edge_target->Some_0,
                    edge_type: record.edge_type,
                    weight: record.edge_weight,
                },
            )
        } else {
            None
        },
        WalRecordType::RemoveEdge => if set.graph && record.edge_source is Some
            && record.edge_target is Some {
            Some(
                ActionView::RemoveEdge {
                    source: record.edge_source->Some_0,
                    target: record.edge_target->Some_0,
                },
            )
        } else {
            None
        },
        WalRecordType::RemoveTimestamp => if set.time_series {
            Some(ActionView::RemoveTimestamp { key })
        } else {
            None
        },
        WalRecordType::RemoveTags => if set.tag {
            Some(ActionView::RemoveTags { key })
        } else {
            None
        },
        WalRecordType::RemoveVector => if set.vector {
            Some(ActionView::RemoveVector { key })
        } else {
            None
        },
    }
}

/// The changes that some log records make to the indexes, in order.
pub open spec fn effects(records: Seq<wal::WalRecordView>, set: IndexSet) -> Seq<ActionView>
    decreases records.len(),
{
    if records.len() == 0 {
        Seq::empty()
    } else {
        match effect(records.last(), set) {
            Some(a) => effects(records.drop_last(), set).push(a),
            None => effects(records.drop_last(), set),
        }
    }
}

/// A copy of some words.
pub fn copy_words(words: &Vec<u32>) -> (r: Vec<u32>)
    ensures
        r@ == words@,
{
    vstd::slice::slice_to_vec(words.as_slice())
}

/// A copy of some texts.
pub fn copy_texts(v: &Vec<String>) -> (r: Vec<String>)
    ensures
        text::texts(r@) == text::texts(v@),
{
    let mut out: Vec<String> = Vec::new();
    let mut i: usize = 0;
    while i < v.len()
        invariant
            i <= v@.len(),
            out@.len() == i,
            forall|j: int| 0 <= j < i ==> (#[trigger] out@[j])@ == v@[j]@,
        decreases v@.len() - i,
    {
        out.push(v[i].clone());
        i = i + 1;
    }
    assert(text::texts(out@) =~= text::texts(v@));
    out
}

/// A copy of a text, if there is one.
pub fn copy_text(t: &Option<String>) -> (r: Option<String>)
    ensures
        text_view(r) == text_view(*t),
{
    match t {
        Some(s) => Some(s.clone()),
        None => None,
    }
}

/// The change that a log record makes to an index.
pub fn effect_of(record: &WalRecord, set: IndexSet) -> (r: Option<IndexAction>)
    ensures
        effect(record@, set) == (match r {
            Some(a) => Some(a@),
            None => None,
        }),
{
    let key = codec::copy_bytes(&record.key);
    match record.record_type {
        WalRecordType::Insert => None,
        WalRecordType::Delete => None,
        WalRecordType::InsertWithEmbedding => match &record.embedding {
            Some(e) if set.vector => Some(
                IndexAction::InsertVector { key, embedding: copy_words(e) },
            ),
            _ => None,
        },
        WalRecordType::SetTimestamp => match record.ts_timestamp {
            Some(timestamp) if set.time_series => Some(
                IndexAction::SetTimestamp { key, timestamp },
            ),
            _ => None,
        },
        WalRecordType::AddTags => match &record.tags {
            Some(t) if set.tag => Some(IndexAction::AddTags { key, tags: copy_texts(t) }),
            _ => None,
        },
        WalRecordType::SetTags => match &record.tags {
            Some(t) if set.tag => Some(IndexAction::SetTags { key, tags: copy_texts(t) }),
            _ => None,
        },
        WalRecordType::AddEdge => match (&record.edge_source, &record.edge_target) {
            (Some(s), Some(t)) if set.graph => Some(
                IndexAction::AddEdge {
                    source: codec::copy_bytes(s),
                    target: codec::copy_bytes(t),
                    edge_type: copy_text(&record.edge_type),
                    weight: record.edge_weight,
                },
            ),
            _ => None,
        },
        WalRecordType::RemoveEdge => match (&record.edge_source, &record.edge_target) {
            (Some(s), Some(t)) if set.graph => Some(
                IndexAction::RemoveEdge {
                    source: codec::copy_bytes(s),
                    target: codec::copy_bytes(t),
                },
            ),
            _ => None,
        },
        WalRecordType::RemoveTimestamp => if set.time_series {
            Some(IndexAction::RemoveTimestamp { key })
        } else {
            None
        },
        WalRecordType::RemoveTags => if set.tag {
            Some(IndexAction::RemoveTags { key })
        } else {
            None
        },
        WalRecordType::RemoveVector => if set.vector {
            Some(IndexAction::RemoveVector { key })
        } else {
            None
        },
    }
}

/// The changes that some log records make to the indexes, in order.
pub fn effects_of(records: &Vec<WalRecord>, set: IndexSet) -> (r: Vec<IndexAction>)
    ensures
        action_views(r@) == effects(crate::engine::storage::log::record_views(records@), set),
{
    let ghost all = crate::engine::storage::log::record_views(records@);
    let mut out: Vec<IndexAction> = Vec::new();
    let mut i: usize = 0;
    assert(action_views(out@) =~= effects(all.take(0), set));
    while i < records.len()
        invariant
            i <= records@.len(),
            all == crate::engine::storage::log::record_views(records@),
            action_views(out@) == effects(all.take(i as int), set),
        decreases records@.len() - i,
    {
        let ghost before = action_views(out@);
        proof {
            assert(all.take(i + 1).drop_last() =~= all.take(i as int));
            assert(all.take(i + 1).last() == records@[i as int]@);
        }
        if let Some(a) = effect_of(&records[i], set) {
            let ghost view = a@;
            out.push(a);
            assert(action_views(out@) =~= before.push(view));
        }
        i = i + 1;
    }
    assert(all.take(i as int) =~= all);
    out
}

/// What a record changes in an index is what the record says: the embedding, the time,
/// the tags or the edge in it, as they are, under its key; and a record changes nothing
/// else.
pub proof fn law_effect(record: wal::WalRecordView, set: IndexSet)
    ensures
        ({
            let change = effect(record, set);
            let kind = record.record_type;
            &&& kind == WalRecordType::InsertWithEmbedding && set.vector ==> (
            record.embedding matches Some(e) ==> change == Some(
                ActionView::InsertVector { key: record.key, embedding: e },
            ))
            &&& kind == WalRecordType::SetTimestamp && set.time_series ==> (
            record.ts_timestamp matches Some(t) ==> change == Some(
                ActionView::SetTimestamp { key: record.key, timestamp: t },
            ))
            &&& kind == WalRecordType::AddTags && set.tag ==> (record.tags matches Some(t)
                ==> change == Some(ActionView::AddTags { key: record.key, tags: t }))
            &&& kind == WalRecordType::SetTags && set.tag ==> (record.tags matches Some(t)
                ==> change == Some(ActionView::SetTags { key: record.key, tags: t }))
            &&& kind == WalRecordType::RemoveVector && set.vector ==> change == Some(
                ActionView::RemoveVector { key: record.key },
            )
            &&& kind == WalRecordType::RemoveTimestamp && set.time_series ==> change == Some(
                ActionView::RemoveTimestamp { key: record.key },
            )
            &&& kind == WalRecordType::RemoveTags && set.tag ==> change == Some(
                ActionView::RemoveTags { key: record.key },
            )
            &&& set.graph && record.edge_source is Some && record.edge_target is Some ==> {
                &&& kind == WalRecordType::AddEdge ==> change == Some(
                    ActionView::AddEdge {
                        source: record.edge_source->Some_0,
                        target: record.edge_target->Some_0,
                        edge_type: record.edge_type,
                        weight: record.edge_weight,
                    },
                )
                &&& kind == WalRecordType::RemoveEdge ==> change == Some(
                    ActionView::RemoveEdge {
                        source: record.edge_source->Some_0,
                        target: record.edge_target->Some_0,
                    },
                )
            }
            &&& kind == WalRecordType::Insert || kind == WalRecordType::Delete ==> change is None
            &&& change is Some ==> set.vector || set.graph || set.time_series || set.tag
        }),
{
}

/// No index is changed that is not there.
pub proof fn law_missing_indexes_are_left_alone(record: wal::WalRecordView, set: IndexSet)
    ensures
        effect(record, set) matches Some(a) ==> match a {
            ActionView::InsertVector { .. } | ActionView::RemoveVector { .. } => set.vector,
            ActionView::SetTimestamp { .. } | ActionView::RemoveTimestamp { .. } => set.time_series,
            ActionView::AddTags { .. } | ActionView::SetTags { .. } | ActionView::RemoveTags { .. }
                => set.tag,
            ActionView::AddEdge { .. } | ActionView::RemoveEdge { .. } => set.graph,
        },
{
}

/// What is seen of a change is all that it says.
pub proof fn law_action_view(a: IndexAction)
    ensures
        a matches IndexAction::InsertVector { key, embedding } ==> a@ == (ActionView::InsertVector {
            key: key@,
            embedding: embedding@,
        }),
        a matches IndexAction::RemoveVector { key } ==> a@ == (ActionView::RemoveVector {
            key: key@,
        }),
        a matches IndexAction::SetTimestamp { key, timestamp } ==> a@ == (
        ActionView::SetTimestamp { key: key@, timestamp }),
        a matches IndexAction::RemoveTimestamp { key } ==> a@ == (ActionView::RemoveTimestamp {
            key: key@,
        }),
        a matches IndexAction::AddTags { key, tags } ==> (a@ matches ActionView::AddTags {
            key: k,
            tags: t,
        } && k == key@ && t.len() == tags@.len() && forall|i: int|
            0 <= i < t.len() ==> #[trigger] t[i] == tags@[i]@),
        a matches IndexAction::SetTags { key, tags } ==> (a@ matches ActionView::SetTags {
            key: k,
            tags: t,
        } && k == key@ && t.len() == tags@.len() && forall|i: int|
            0 <= i < t.len() ==> #[trigger] t[i] == tags@[i]@),
        a matches IndexAction::RemoveTags { key } ==> a@ == (ActionView::RemoveTags { key: key@ }),
        a matches IndexAction::AddEdge { source, target, edge_type, weight } ==> (
        a@ matches ActionView::AddEdge { source: s, target: t, edge_type: e, weight: w } && s
            == source@ && t == target@ && w == weight && (e is Some <==> edge_type is Some) && (
        edge_type is Some ==> e->Some_0 == edge_type->Some_0@)),
        a matches IndexAction::RemoveEdge { source, target } ==> a@ == (ActionView::RemoveEdge {
            source: source@,
            target: target@,
        }),
{
}

/// The indexes that there are are those that the configuration enables.
pub proof fn law_enabled_indexes(config: EngineConfig)
    ensures
        IndexSet::of(config).vector == config.vector.enabled,
        IndexSet::of(config).graph == config.graph.enabled,
        IndexSet::of(config).time_series == config.time_series.enabled,
        IndexSet::of(config).tag == config.tag_index.enabled,
{
}

/// The changes of an index that must succeed are those that put something in.
pub proof fn law_must_succeed(a: ActionView)
    ensures
        a.must_succeed() <==> a is InsertVector || a is SetTimestamp || a is AddTags
            || a is SetTags,
{
}

/// The changes that records stand for are those of each that stands for one, in their
/// order.
pub proof fn law_effects(records: Seq<wal::WalRecordView>, set: IndexSet)
    ensures
        effects(records, set) == records.filter(
            |r: wal::WalRecordView| effect(r, set) is Some,
        ).map_values(|r: wal::WalRecordView| effect(r, set)->Some_0),
    decreases records.len(),
{
    reveal(Seq::filter);
    let has = |r: wal::WalRecordView| effect(r, set) is Some;
    let what = |r: wal::WalRecordView| effect(r, set)->Some_0;
    if records.len() > 0 {
        let init = records.drop_last();
        law_effects(init, set);
        if has(records.last()) {
            assert(init.filter(has).push(records.last()).map_values(what) =~= init.filter(
                has,
            ).map_values(what).push(what(records.last())));
        }
    } else {
        assert(records.filter(has).map_values(what) =~= Seq::empty());
    }
}

/// What changes are is what each of them is, in their order.
pub proof fn law_action_views(actions: Seq<IndexAction>, i: int)
    ensures
        action_views(actions).len() == actions.len(),
        0 <= i < actions.len() ==> action_views(actions)[i] == actions[i]@,
{
}

} // verus!
