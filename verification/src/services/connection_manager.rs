//! Connections between memories.
use crate::engine::order;
use crate::engine::storage::engine::Edge;
use crate::engine::text;
use crate::engine::util::float;
use crate::error::AppError;
use crate::services::memory_manager;
use crate::services::memory_manager::Neighbor;
use crate::services::types;
use crate::services::types::{
    Connection, DateTime, Memory, RelationshipType, StoredMemory,
};
use vstd::prelude::*;

verus! {

/// A request to look for connections of a memory.
#[derive(Debug)]
pub struct DiscoveryTask {
    pub memory_id: u128,
    pub embedding: Vec<u32>,
    /// The score that a connection needs.
    pub threshold: u32,
    /// The candidates for connections that are looked at; one at least.
    pub top_k: usize,
}

/// Whether a memory can be connected: it was loaded and is not put away.
pub open spec fn is_there(loaded: Option<StoredMemory>) -> bool {
    loaded matches Some(stored) && !stored.archived
}

/// The strength of a connection.
pub open spec fn strength_of(strength: u32) -> u32 {
    float::clamped(strength, float::ZERO, float::ONE)
}

/// A new connection, and its edge in the graph.
pub struct NewConnection {
    pub connection: Connection,
    pub edge: Edge,
}

/// Whether an edge leads from one memory to another.
pub open spec fn is_edge(
    edge: Edge,
    source: u128,
    target: u128,
    relationship: RelationshipType,
    weight: u32,
) -> bool {
    &&& edge.source@ == vstd::utf8::encode_utf8(types::key_text(source))
    &&& edge.target@ == vstd::utf8::encode_utf8(types::key_text(target))
    &&& edge.edge_type matches Some(t) && t@ == relationship.name()
    &&& edge.weight == Some(weight)
}

/// The edge from one memory to another.
fn edge_between(source: u128, target: u128, relationship: RelationshipType, weight: u32) -> (r:
    Edge)
    ensures
        is_edge(r, source, target, relationship, weight),
{
    Edge {
        source: types::memory_key_bytes(source),
        target: types::memory_key_bytes(target),
        edge_type: Some(relationship.to_string()),
        weight: Some(weight),
    }
}

/// Connects two different memories that are there.
pub fn create(
    source_id: u128,
    source: &Option<StoredMemory>,
    target_id: u128,
    target: &Option<StoredMemory>,
    relationship: RelationshipType,
    strength: u32,
    now: DateTime,
) -> (r: Result<NewConnection, AppError>)
    ensures
        if source_id == target_id {
            r matches Err(AppError::Validation(m)) && m@ == "source_id and target_id must differ"@
        } else if !is_there(*source) {
            r == Err::<NewConnection, AppError>(AppError::NotFound(source_id))
        } else if !is_there(*target) {
            r == Err::<NewConnection, AppError>(AppError::NotFound(target_id))
        } else {
            &&& r matches Ok(new)
            &&& new.connection == (Connection {
                target_id,
                relationship_type: relationship,
                strength: strength_of(strength),
                created_at: now,
            })
            &&& is_edge(new.edge, source_id, target_id, relationship, strength_of(strength))
        },
        r is Ok <==> source_id != target_id && *source is Some && !(*source)->Some_0.archived
            && *target is Some && !(*target)->Some_0.archived,
        r matches Ok(new) ==> {
            &&& new.connection.target_id == target_id
            &&& new.connection.relationship_type == relationship
            &&& new.connection.created_at == now
            &&& new.edge.source@ == vstd::utf8::encode_utf8(types::key_text(source_id))
            &&& new.edge.target@ == vstd::utf8::encode_utf8(types::key_text(target_id))
            &&& new.edge.edge_type is Some && new.edge.edge_type->Some_0@ == relationship.name()
            &&& new.edge.weight == Some(new.connection.strength)
            &&& float::within(strength, float::ZERO, float::ONE) ==> new.connection.strength
                == strength
        },
{
    if source_id == target_id {
        return Err(AppError::Validation("source_id and target_id must differ".to_owned()));
    }
    match source {
        Some(stored) if !stored.archived => {},
        _ => {
            return Err(AppError::NotFound(source_id));
        },
    }
    match target {
        Some(stored) if !stored.archived => {},
        _ => {
            return Err(AppError::NotFound(target_id));
        },
    }
    let weight: u32 = float::clamp(strength, float::ZERO, float::ONE);
    Ok(
        NewConnection {
            connection: Connection {
                target_id,
                relationship_type: relationship,
                strength: weight,
                created_at: now,
            },
            edge: edge_between(source_id, target_id, relationship, weight),
        },
    )
}

/// A memory that a search has found.
pub struct ScoredKey {
    pub key: Vec<u8>,
    pub score: u32,
}

/// The candidate for a connection that a search result is: it has the score that is
/// needed, and its key is that of another memory.
pub open spec fn candidate(own: u128, item: ScoredKey, threshold: u32) -> Option<(u128, u32)> {
    let key = text::lossy_text(item.key@);
    if key == types::key_text(own) || float::less(item.score, threshold) {
        None
    } else {
        match types::id_in(key) {
            Some(id) => Some((id, float::clamped(item.score, float::ZERO, float::ONE))),
            None => None,
        }
    }
}

/// The candidates among some search results, in order.
pub open spec fn candidates(own: u128, items: Seq<ScoredKey>, threshold: u32) -> Seq<(u128, u32)>
    decreases items.len(),
{
    if items.len() == 0 {
        Seq::empty()
    } else {
        match candidate(own, items.last(), threshold) {
            Some(c) => candidates(own, items.drop_last(), threshold).push(c),
            None => candidates(own, items.drop_last(), threshold),
        }
    }
}

/// The number of candidates after which the search for more stops. The number is
/// looked at only when a candidate was found.
pub open spec fn most(top_k: usize) -> int {
    if top_k == 0 {
        1
    } else {
        top_k as int
    }
}

/// The first `n` of a list, or all of it.
pub open spec fn first_of<T>(all: Seq<T>, n: int) -> Seq<T> {
    if n < all.len() {
        all.take(n)
    } else {
        all
    }
}

/// The candidates for connections among some search results: the first ones, up to
/// the number that is wanted.
pub fn pick_candidates(own: u128, items: &Vec<ScoredKey>, threshold: u32, top_k: usize) -> (r: Vec<
    (u128, u32),
>)
    ensures
        r@ == first_of(candidates(own, items@, threshold), most(top_k)),
{
    let own_key = types::memory_key(own);
    let mut out: Vec<(u128, u32)> = Vec::new();
    let mut i: usize = 0;
    assert(out@ =~= candidates(own, items@.take(0), threshold));
    while i < items.len()
        invariant
            i <= items@.len(),
            own_key@ == types::key_text(own),
            out@ == candidates(own, items@.take(i as int), threshold),
            out@.len() < most(top_k),
        decreases items@.len() - i,
    {
        let item = &items[i];
        proof {
            assert(items@.take(i + 1).drop_last() =~= items@.take(i as int));
            assert(items@.take(i + 1).last() == items@[i as int]);
        }
        i = i + 1;
        let key = text::text_of(item.key.as_slice());
        if key == own_key || float::lt(item.score, threshold) {
            continue;
        }
        if let Some(id) = types::id_in_text(key.as_str()) {
            out.push((id, float::clamp(item.score, float::ZERO, float::ONE)));
            if out.len() >= top_k {
                proof {
                    lemma_candidates_prefix(own, items@, threshold, i as int);
                    assert(out@ =~= first_of(candidates(own, items@, threshold), most(top_k)));
                }
                return out;
            }
        }
    }
    assert(items@.take(i as int) =~= items@);
    out
}

/// The candidates among the first search results are the first candidates.
proof fn lemma_candidates_prefix(own: u128, items: Seq<ScoredKey>, threshold: u32, n: int)
    requires
        0 <= n <= items.len(),
    ensures
        candidates(own, items.take(n), threshold).is_prefix_of(candidates(own, items, threshold)),
    decreases items.len() - n,
{
    if n == items.len() {
        assert(items.take(n) =~= items);
    } else {
        lemma_candidates_prefix(own, items, threshold, n + 1);
        assert(items.take(n + 1).drop_last() =~= items.take(n));
        let a = candidates(own, items.take(n), threshold);
        let b = candidates(own, items.take(n + 1), threshold);
        let c = candidates(own, items, threshold);
        assert(a.is_prefix_of(b));
        assert(a =~= c.take(a.len() as int)) by {
            assert(b =~= c.take(b.len() as int));
        }
    }
}

/// Whether a key is among some keys.
pub open spec fn has_key(keys: Seq<Vec<u8>>, key: Seq<u8>) -> bool {
    exists|i: int| 0 <= i < keys.len() && (#[trigger] keys[i])@ == key
}

/// Whether a key is among some keys.
fn contains_key(keys: &Vec<Vec<u8>>, key: &Vec<u8>) -> (r: bool)
    ensures
        r == has_key(keys@, key@),
{
    let mut i: usize = 0;
    while i < keys.len()
        invariant
            i <= keys@.len(),
            forall|j: int| 0 <= j < i ==> (#[trigger] keys@[j])@ != key@,
        decreases keys@.len() - i,
    {
        if order::bytes_equal(keys[i].as_slice(), key.as_slice()) {
            return true;
        }
        i = i + 1;
    }
    false
}

/// The candidates that are not connected yet, in order.
pub open spec fn unconnected(found: Seq<(u128, u32)>, existing: Seq<Vec<u8>>) -> Seq<(u128, u32)>
    decreases found.len(),
{
    if found.len() == 0 {
        Seq::empty()
    } else if has_key(existing, vstd::utf8::encode_utf8(types::key_text(found.last().0))) {
        unconnected(found.drop_last(), existing)
    } else {
        unconnected(found.drop_last(), existing).push(found.last())
    }
}

/// The candidates that are not connected yet. `existing` are the keys of the memories
/// that are.
pub fn filter_connected(found: &Vec<(u128, u32)>, existing: &Vec<Vec<u8>>) -> (r: Vec<(u128, u32)>)
    ensures
        r@ == unconnected(found@, existing@),
{
    let mut out: Vec<(u128, u32)> = Vec::new();
    let mut i: usize = 0;
    assert(out@ =~= unconnected(found@.take(0), existing@));
    while i < found.len()
        invariant
            i <= found@.len(),
            out@ == unconnected(found@.take(i as int), existing@),
        decreases found@.len() - i,
    {
        proof {
            assert(found@.take(i + 1).drop_last() =~= found@.take(i as int));
            assert(found@.take(i + 1).last() == found@[i as int]);
        }
        let (id, score) = found[i];
        let key = types::memory_key_bytes(id);
        if !contains_key(existing, &key) {
            out.push((id, score));
        }
        i = i + 1;
    }
    assert(found@.take(i as int) =~= found@);
    out
}

/// The connections that are made to memories that were found.
pub open spec fn similar(found: Seq<(u128, u32)>, now: DateTime) -> Seq<Connection> {
    Seq::new(
        found.len(),
        |i: int|
            Connection {
                target_id: found[i].0,
                relationship_type: RelationshipType::SimilarTo,
                strength: found[i].1,
                created_at: now,
            },
    )
}

/// New connections of a memory, and their edges in the graph.
pub struct Discovered {
    pub connections: Vec<Connection>,
    pub edges: Vec<Edge>,
}

/// Connects a memory to similar ones that it is not connected to yet.
pub fn auto_discover(
    id: u128,
    items: &Vec<ScoredKey>,
    existing: &Vec<Vec<u8>>,
    threshold: u32,
    top_k: usize,
    now: DateTime,
) -> (r: Discovered)
    ensures
        ({
            let found = unconnected(
                first_of(candidates(id, items@, threshold), most(top_k)),
                existing@,
            );
            &&& r.connections@ == similar(found, now)
            &&& r.edges@.len() == found.len()
            &&& forall|i: int|
                0 <= i < found.len() ==> is_edge(
                    #[trigger] r.edges@[i],
                    id,
                    found[i].0,
                    RelationshipType::SimilarTo,
                    found[i].1,
                )
        }),
        r.edges@.len() == r.connections@.len(),
        forall|i: int|
            0 <= i < r.connections@.len() ==> {
                let c = #[trigger] r.connections@[i];
                let key = vstd::utf8::encode_utf8(types::key_text(c.target_id));
                &&& c.relationship_type == RelationshipType::SimilarTo
                &&& c.created_at == now
                &&& r.edges@[i].source@ == vstd::utf8::encode_utf8(types::key_text(id))
                &&& r.edges@[i].target@ == key
                &&& r.edges@[i].weight == Some(c.strength)
                &&& forall|j: int| 0 <= j < existing@.len() ==> (#[trigger] existing@[j])@ != key
            },
{
    let picked = pick_candidates(id, items, threshold, top_k);
    let found = filter_connected(&picked, existing);
    let mut connections: Vec<Connection> = Vec::new();
    let mut edges: Vec<Edge> = Vec::new();
    let mut i: usize = 0;
    while i < found.len()
        invariant
            i <= found@.len(),
            connections@.len() == i,
            edges@.len() == i,
            forall|j: int|
                0 <= j < i ==> #[trigger] connections@[j] == similar(found@, now)[j],
            forall|j: int|
                0 <= j < i ==> is_edge(
                    #[trigger] edges@[j],
                    id,
                    found@[j].0,
                    RelationshipType::SimilarTo,
                    found@[j].1,
                ),
        decreases found@.len() - i,
    {
        let (target_id, score) = found[i];
        connections.push(
            Connection {
                target_id,
                relationship_type: RelationshipType::SimilarTo,
                strength: score,
                created_at: now,
            },
        );
        edges.push(edge_between(id, target_id, RelationshipType::SimilarTo, score));
        i = i + 1;
    }
    assert(connections@ =~= similar(found@, now));
    proof {
        assert forall|i: int| 0 <= i < connections@.len() implies forall|j: int|
            0 <= j < existing@.len() ==> (#[trigger] existing@[j])@ != vstd::utf8::encode_utf8(
                types::key_text((#[trigger] connections@[i]).target_id),
            ) by {
            law_discovery_adds_new_only(picked@, existing@, i);
        }
    }
    Discovered { connections, edges }
}

/// No memory is connected to a memory that it is connected to already, nor to one
/// that the search has not found with the score that is needed.
pub proof fn law_discovery_adds_new_only(
    found: Seq<(u128, u32)>,
    existing: Seq<Vec<u8>>,
    i: int,
)
    requires
        0 <= i < unconnected(found, existing).len(),
    ensures
        !has_key(
            existing,
            vstd::utf8::encode_utf8(types::key_text(unconnected(found, existing)[i].0)),
        ),
        found.contains(unconnected(found, existing)[i]),
    decreases found.len(),
{
    let init = found.drop_last();
    let rest = unconnected(init, existing);
    if i < rest.len() {
        law_discovery_adds_new_only(init, existing, i);
        let k = choose|k: int| 0 <= k < init.len() && init[k] == rest[i];
        assert(found[k] == rest[i]);
    } else {
        assert(found[found.len() - 1] == found.last());
    }
}

/// An edge over which a memory was reached.
pub struct Reached {
    pub edge_type: String,
    pub weight: u32,
}

/// The relationship that an edge stands for; an unknown name is some relationship.
pub open spec fn relationship_or_related(name: Seq<char>) -> RelationshipType {
    match memory_manager::relationship_named(name) {
        Some(t) => t,
        None => RelationshipType::RelatedTo,
    }
}

/// The relationship that an edge stands for.
fn relationship_else_related(name: &str) -> (r: RelationshipType)
    ensures
        r == relationship_or_related(name@),
{
    match memory_manager::relationship_of(name) {
        Some(t) => t,
        None => RelationshipType::RelatedTo,
    }
}

/// The connection over which a memory was reached.
pub open spec fn reached_by(target_id: u128, edge: Option<Reached>, now: DateTime) -> Connection {
    Connection {
        target_id,
        relationship_type: match edge {
            Some(e) => relationship_or_related(e.edge_type@),
            None => RelationshipType::RelatedTo,
        },
        strength: match edge {
            Some(e) => e.weight,
            None => float::ONE,
        },
        created_at: now,
    }
}

/// A memory that a walk through the graph has reached, and the connection over which
/// it was reached. The start of the walk, and memories that are not there, are left
/// out.
pub fn related(
    own: u128,
    node: &Vec<u8>,
    edge: &Option<Reached>,
    loaded: Option<StoredMemory>,
    now: DateTime,
) -> (r: Option<(Memory, Connection)>)
    ensures
        if text::lossy_text(node@) == types::key_text(own) || !is_there(loaded) {
            r is None
        } else {
            &&& r matches Some((memory, connection))
            &&& memory.is_of(loaded->Some_0@, Seq::empty(), now.millis)
            &&& connection == reached_by(loaded->Some_0.id, *edge, now)
        },
        r is Some <==> text::lossy_text(node@) != types::key_text(own) && loaded is Some
            && !loaded->Some_0.archived,
        r matches Some((memory, connection)) ==> {
            &&& memory.id == loaded->Some_0.id
            &&& memory.content@ == loaded->Some_0.content@
            &&& connection.target_id == loaded->Some_0.id
            &&& connection.strength == (match *edge {
                Some(e) => e.weight,
                None => float::ONE,
            })
            &&& connection.created_at == now
        },
{
    let own_key = types::memory_key(own);
    let key = text::text_of(node.as_slice());
    if key == own_key {
        return None;
    }
    match loaded {
        Some(stored) => {
            if stored.archived {
                return None;
            }
            let (relationship_type, strength): (RelationshipType, u32) = match edge {
                Some(e) => (relationship_else_related(e.edge_type.as_str()), e.weight),
                None => (RelationshipType::RelatedTo, float::ONE),
            };
            let connection = Connection {
                target_id: stored.id,
                relationship_type,
                strength,
                created_at: now,
            };
            let none: Vec<Connection> = Vec::new();
            assert(none@ =~= Seq::empty());
            Some((stored.into_api_at(none, now.millis), connection))
        },
        None => None,
    }
}

/// The names of the relationships that a walk follows; without any it follows all.
pub fn followed_types(types: &Vec<RelationshipType>) -> (r: Option<Vec<String>>)
    ensures
        match r {
            Some(names) => types@.len() > 0 && text::texts(names@) == Seq::new(
                types@.len(),
                |i: int| types@[i].name(),
            ),
            None => types@.len() == 0,
        },
{
    if types.len() == 0 {
        return None;
    }
    let mut names: Vec<String> = Vec::new();
    let mut i: usize = 0;
    while i < types.len()
        invariant
            i <= types@.len(),
            names@.len() == i,
            forall|j: int| 0 <= j < i ==> (#[trigger] names@[j])@ == types@[j].name(),
        decreases types@.len() - i,
    {
        names.push(types[i].to_string());
        i = i + 1;
    }
    assert(text::texts(names@) =~= Seq::new(types@.len(), |i: int| types@[i].name()));
    Some(names)
}

/// A neighbour, and whether it is put away; there may be no such memory.
pub struct LoadedNeighbor {
    pub neighbor: Neighbor,
    pub archived: Option<bool>,
}

/// The connection to a neighbour that is a memory that is there.
pub open spec fn listed_connection(item: LoadedNeighbor, now: DateTime) -> Option<Connection> {
    if item.archived != Some(false) {
        None
    } else {
        match types::id_in(text::lossy_text(item.neighbor.key@)) {
            Some(target_id) => Some(
                Connection {
                    target_id,
                    relationship_type: relationship_or_related(item.neighbor.edge_type@),
                    strength: item.neighbor.weight,
                    created_at: now,
                },
            ),
            None => None,
        }
    }
}

/// The connections of a memory to memories that are there.
pub open spec fn listed_connections(
    source: u128,
    items: Seq<LoadedNeighbor>,
    now: DateTime,
) -> Seq<(u128, Connection)>
    decreases items.len(),
{
    if items.len() == 0 {
        Seq::empty()
    } else {
        match listed_connection(items.last(), now) {
            Some(c) => listed_connections(source, items.drop_last(), now).push((source, c)),
            None => listed_connections(source, items.drop_last(), now),
        }
    }
}

/// Appends the connections of a memory to those of a list. A memory that is not
/// there, or whose key is no memory's, has none.
pub fn list_connections(
    out: &mut Vec<(u128, Connection)>,
    source_key: &[u8],
    source_archived: Option<bool>,
    items: &Vec<LoadedNeighbor>,
    now: DateTime,
)
    ensures
        final(out)@ == (match types::id_of_key(source_key@) {
            Some(source) if source_archived == Some(false) => old(out)@ + listed_connections(
                source,
                items@,
                now,
            ),
            _ => old(out)@,
        }),
{
    let source: u128 = match types::parse_memory_id(source_key) {
        Some(id) => id,
        None => {
            return;
        },
    };
    match source_archived {
        Some(false) => {},
        _ => {
            return;
        },
    }
    let ghost start = out@;
    let mut i: usize = 0;
    assert(out@ =~= start + listed_connections(source, items@.take(0), now));
    while i < items.len()
        invariant
            i <= items@.len(),
            out@ == start + listed_connections(source, items@.take(i as int), now),
        decreases items@.len() - i,
    {
        let item = &items[i];
        let ghost before = out@;
        proof {
            assert(items@.take(i + 1).drop_last() =~= items@.take(i as int));
            assert(items@.take(i + 1).last() == items@[i as int]);
        }
        i = i + 1;
        match item.archived {
            Some(false) => {},
            _ => {
                continue;
            },
        }
        let key = text::text_of(item.neighbor.key.as_slice());
        if let Some(target_id) = types::id_in_text(key.as_str()) {
            let connection = Connection {
                target_id,
                relationship_type: relationship_else_related(item.neighbor.edge_type.as_str()),
                strength: item.neighbor.weight,
                created_at: now,
            };
            out.push((source, connection));
            assert(out@ =~= start + listed_connections(source, items@.take(i as int), now));
        }
    }
    assert(items@.take(i as int) =~= items@);
}

/// A page of a list of connections, and the number of all.
pub fn page(all: &Vec<(u128, Connection)>, limit: usize, offset: usize) -> (r: (
    Vec<(u128, Connection)>,
    usize,
))
    ensures
        r.1 == all@.len(),
        r.0@ == (if offset < all@.len() {
            first_of(all@.skip(offset as int), limit as int)
        } else {
            Seq::empty()
        }),
        r.0@.len() <= limit,
        forall|i: int| 0 <= i < r.0@.len() ==> #[trigger] r.0@[i] == all@[offset + i],
        offset + limit <= all@.len() ==> r.0@.len() == limit,
        offset <= all@.len() <= offset + limit ==> r.0@.len() == all@.len() - offset,
{
    let mut out: Vec<(u128, Connection)> = Vec::new();
    let mut i: usize = offset;
    while i < all.len() && out.len() < limit
        invariant
            offset <= i,
            i <= all@.len() || i == offset,
            out@.len() == i - offset,
            out@.len() <= limit,
            forall|j: int| 0 <= j < out@.len() ==> #[trigger] out@[j] == all@[offset + j],
        decreases all@.len() - i,
    {
        out.push(all[i]);
        i = i + 1;
    }
    proof {
        if offset < all@.len() {
            assert(out@ =~= first_of(all@.skip(offset as int), limit as int));
        }
    }
    (out, all.len())
}

/// Every candidate that is not connected yet is connected, each as often as it was
/// found and in the order in which it was found, and no other.
pub proof fn law_discovery_leaves_none_out(found: Seq<(u128, u32)>, existing: Seq<Vec<u8>>)
    ensures
        unconnected(found, existing) == found.filter(
            |c: (u128, u32)|
                forall|j: int|
                    0 <= j < existing.len() ==> (#[trigger] existing[j])@ != vstd::utf8::encode_utf8(
                        types::key_text(c.0),
                    ),
        ),
    decreases found.len(),
{
    reveal(Seq::filter);
    if found.len() > 0 {
        law_discovery_leaves_none_out(found.drop_last(), existing);
    }
}

/// The first of a list are as many as are wanted, if there are so many, and they stand
/// as they stood.
pub proof fn law_first_of<T>(all: Seq<T>, n: int)
    requires
        0 <= n,
    ensures
        n <= all.len() ==> first_of(all, n).len() == n,
        all.len() <= n ==> first_of(all, n).len() == all.len(),
        forall|i: int|
            0 <= i < first_of(all, n).len() ==> #[trigger] first_of(all, n)[i] == all[i],
{
}

/// The candidates are the search results for other memories that reach the threshold,
/// all of them, in their order, each with its score brought between 0 and 1.
pub proof fn law_candidates(own: u128, items: Seq<ScoredKey>, threshold: u32)
    ensures
        candidates(own, items, threshold) == items.filter(
            |item: ScoredKey|
                {
                    let key = text::lossy_text(item.key@);
                    &&& key != types::key_text(own)
                    &&& !float::less(item.score, threshold)
                    &&& types::id_in(key) is Some
                },
        ).map_values(
            |item: ScoredKey|
                (
                    types::id_in(text::lossy_text(item.key@))->Some_0,
                    float::clamped(item.score, float::ZERO, float::ONE),
                ),
        ),
    decreases items.len(),
{
    reveal(Seq::filter);
    if items.len() > 0 {
        law_candidates(own, items.drop_last(), threshold);
        assert(candidates(own, items, threshold) =~= items.filter(
            |item: ScoredKey|
                {
                    let key = text::lossy_text(item.key@);
                    &&& key != types::key_text(own)
                    &&& !float::less(item.score, threshold)
                    &&& types::id_in(key) is Some
                },
        ).map_values(
            |item: ScoredKey|
                (
                    types::id_in(text::lossy_text(item.key@))->Some_0,
                    float::clamped(item.score, float::ZERO, float::ONE),
                ),
        ));
    }
}

/// So many candidates are looked at as are wanted, and one at least.
pub proof fn law_candidates_looked_at(top_k: usize)
    ensures
        top_k >= 1 ==> most(top_k) == top_k,
        most(0) == 1,
{
}

/// Whether some memory that was found is connected depends on nothing that was found
/// beside it.
pub proof fn law_discovery_of_parts(
    a: Seq<(u128, u32)>,
    b: Seq<(u128, u32)>,
    existing: Seq<Vec<u8>>,
    now: DateTime,
)
    ensures
        similar(unconnected(a + b, existing), now) == similar(unconnected(a, existing), now)
            + similar(unconnected(b, existing), now),
        unconnected(a, existing).len() + unconnected(b, existing).len() == unconnected(
            a + b,
            existing,
        ).len(),
{
    lemma_unconnected_parts(a, b, existing);
    assert(similar(unconnected(a + b, existing), now) =~= similar(unconnected(a, existing), now)
        + similar(unconnected(b, existing), now));
}

/// The candidates of two lists that are not connected yet are those of one and those of
/// the other.
proof fn lemma_unconnected_parts(
    a: Seq<(u128, u32)>,
    b: Seq<(u128, u32)>,
    existing: Seq<Vec<u8>>,
)
    ensures
        unconnected(a + b, existing) == unconnected(a, existing) + unconnected(b, existing),
    decreases b.len(),
{
    if b.len() == 0 {
        assert(a + b =~= a);
        assert(unconnected(a, existing) + unconnected(b, existing) =~= unconnected(a, existing));
    } else {
        assert((a + b).drop_last() =~= a + b.drop_last());
        lemma_unconnected_parts(a, b.drop_last(), existing);
        assert(unconnected(a + b, existing) =~= unconnected(a, existing) + unconnected(b, existing));
    }
}

/// A connection to a similar memory leads to that memory, with the score as its
/// strength.
pub proof fn law_similar(found: Seq<(u128, u32)>, now: DateTime)
    ensures
        similar(found, now).len() == found.len(),
        forall|i: int|
            0 <= i < found.len() ==> {
                let c = #[trigger] similar(found, now)[i];
                &&& c.target_id == found[i].0
                &&& c.relationship_type == RelationshipType::SimilarTo
                &&& c.strength == found[i].1
                &&& c.created_at == now
            },
{
}

/// A memory can be connected if it was loaded and is not put away.
pub proof fn law_connectable(loaded: Option<StoredMemory>)
    ensures
        is_there(loaded) <==> loaded is Some && !loaded->Some_0.archived,
{
}

/// The strength of a connection is the one that was wanted, if that is between 0 and 1,
/// and else the nearer of the two.
pub proof fn law_strength(wanted: u32)
    requires
        !float::is_nan(wanted),
    ensures
        float::rank(wanted) < 0 ==> strength_of(wanted) == 0,
        0 <= float::rank(wanted) <= 0x3F800000 ==> strength_of(wanted) == wanted,
        float::rank(wanted) > 0x3F800000 ==> strength_of(wanted) == 0x3F800000,
{
}

/// The edge of a connection has the keys of the two memories, the name of the
/// relationship and the strength.
pub proof fn law_edge(
    edge: Edge,
    source: u128,
    target: u128,
    relationship: RelationshipType,
    weight: u32,
)
    requires
        is_edge(edge, source, target, relationship, weight),
    ensures
        text::lossy_text(edge.source@) == types::key_text(source),
        text::lossy_text(edge.target@) == types::key_text(target),
        edge.edge_type is Some && edge.edge_type->Some_0@ == relationship.name(),
        edge.weight == Some(weight),
{
    text::lemma_text_roundtrip(types::key_text(source));
    text::lemma_text_roundtrip(types::key_text(target));
}

/// An edge of a known name stands for the relationship of that name, and one of another
/// name for some relationship.
pub proof fn law_relationship_of_edge(name: Seq<char>, t: RelationshipType)
    ensures
        relationship_or_related(t.name()) == t,
        (forall|u: RelationshipType| name != #[trigger] u.name()) ==> relationship_or_related(name)
            == RelationshipType::RelatedTo,
{
    types::law_names_differ();
    assert(types::names_relationship(t.name()));
}

/// A memory is reached over the connection that its edge says: to it, with the weight of
/// the edge; without an edge with full strength.
pub proof fn law_reached(target: u128, edge: Reached, t: RelationshipType, now: DateTime)
    requires
        edge.edge_type@ == t.name(),
    ensures
        reached_by(target, Some(edge), now) == (Connection {
            target_id: target,
            relationship_type: t,
            strength: edge.weight,
            created_at: now,
        }),
        reached_by(target, None, now).target_id == target,
        reached_by(target, None, now).strength == 0x3F800000,
        reached_by(target, None, now).relationship_type == RelationshipType::RelatedTo,
        reached_by(target, None, now).created_at == now,
{
    law_relationship_of_edge(t.name(), t);
}

/// The connections of a memory that are listed are those to all neighbours that are
/// memories and are there, in their order.
pub proof fn law_listed_connections(source: u128, items: Seq<LoadedNeighbor>, now: DateTime)
    ensures
        listed_connections(source, items, now) == items.filter(
            |item: LoadedNeighbor|
                item.archived is Some && !item.archived->Some_0 && types::id_in(
                    text::lossy_text(item.neighbor.key@),
                ) is Some,
        ).map_values(
            |item: LoadedNeighbor|
                (
                    source,
                    Connection {
                        target_id: types::id_in(
                            text::lossy_text(item.neighbor.key@),
                        )->Some_0,
                        relationship_type: relationship_or_related(item.neighbor.edge_type@),
                        strength: item.neighbor.weight,
                        created_at: now,
                    },
                ),
        ),
    decreases items.len(),
{
    reveal(Seq::filter);
    if items.len() > 0 {
        law_listed_connections(source, items.drop_last(), now);
        assert(listed_connections(source, items, now) =~= items.filter(
            |item: LoadedNeighbor|
                item.archived is Some && !item.archived->Some_0 && types::id_in(
                    text::lossy_text(item.neighbor.key@),
                ) is Some,
        ).map_values(
            |item: LoadedNeighbor|
                (
                    source,
                    Connection {
                        target_id: types::id_in(
                            text::lossy_text(item.neighbor.key@),
                        )->Some_0,
                        relationship_type: relationship_or_related(item.neighbor.edge_type@),
                        strength: item.neighbor.weight,
                        created_at: now,
                    },
                ),
        ));
    }
}

} // verus!
