//! Searching memories by meaning, by words, or by both.
use crate::engine::order;
use crate::engine::text;
use crate::engine::util::float;
use crate::services::connection_manager;
use crate::services::memory_manager;
use crate::services::types;
use crate::services::types::{Connection, MemoryFilters, SearchResult, SearchType, StoredMemory};
use vstd::prelude::*;

verus! {

/// What is searched.
pub struct SearchQuery {
    pub query: String,
    pub search_type: SearchType,
    pub filters: MemoryFilters,
    /// The memories that are wanted at most.
    pub limit: usize,
    /// A memory whose neighbours are preferred.
    pub related_to: Option<u128>,
}

/// The steps through the graph that are taken from a memory whose neighbours are
/// preferred.
pub const CONTEXT_DEPTH: usize = 2;

/// The part that tags have in the score of a search by words: 0.5. The content has
/// the rest.
pub const TAG_WEIGHT: u32 = 0x3F000000;

/// The vectors that are looked at first for a number of memories that are wanted:
/// three times as many, and at least 20.
pub open spec fn width_of(limit: usize) -> int {
    if limit * 3 > 20 {
        limit * 3
    } else {
        20
    }
}

/// The vectors that are looked at first for a number of memories that are wanted:
/// some of them lead to memories that are not shown.
pub fn search_width(limit: usize) -> (r: usize)
    requires
        limit * 3 <= usize::MAX,
    ensures
        r == width_of(limit),
{
    let wide: usize = limit * 3;
    if wide > 20 {
        wide
    } else {
        20
    }
}

/// The vectors that are looked at after too few memories were found among `width`:
/// twice as many, but no more than there are. Nothing more is looked at when enough
/// memories were found or all vectors were looked at.
pub open spec fn wider(width: usize, found: usize, limit: usize, vectors: usize) -> Option<int> {
    let all = if vectors > 1 {
        vectors as int
    } else {
        1
    };
    if found >= limit || width >= all {
        None
    } else if width * 2 < all {
        Some(width * 2)
    } else {
        Some(all)
    }
}

/// The vectors that are looked at next, if any.
pub fn next_width(width: usize, found: usize, limit: usize, vectors: usize) -> (r: Option<usize>)
    ensures
        match r {
            Some(w) => wider(width, found, limit, vectors) == Some(w as int),
            None => wider(width, found, limit, vectors) is None,
        },
{
    let all: usize = if vectors > 1 {
        vectors
    } else {
        1
    };
    if found >= limit || width >= all {
        None
    } else if width < all - width {
        Some(width * 2)
    } else {
        Some(all)
    }
}

/// Widening comes to an end: each width is larger than the one before, and none is
/// larger than the number of vectors.
pub proof fn law_widening_ends(width: usize, found: usize, limit: usize, vectors: usize)
    requires
        width >= 1,
    ensures
        wider(width, found, limit, vectors) matches Some(w) ==> w > width && w <= vectors,
{
}

/// A memory that was found, and how well it fits.
pub struct Hit {
    pub stored: StoredMemory,
    pub score: u32,
}

/// What was found.
#[verifier::ext_equal]
pub struct HitView {
    pub stored: types::StoredView,
    pub score: u32,
}

impl View for Hit {
    type V = HitView;

    open spec fn view(&self) -> HitView {
        HitView { stored: self.stored@, score: self.score }
    }
}

/// The views of some hits.
pub open spec fn hit_views(hits: Seq<Hit>) -> Seq<HitView> {
    Seq::new(hits.len(), |i: int| hits[i]@)
}

/// The hit that a loaded memory is, if it is shown.
pub open spec fn hit_of(
    loaded: Option<types::StoredView>,
    score: u32,
    filters: MemoryFilters,
) -> Option<HitView> {
    match loaded {
        Some(stored) => if memory_manager::shown(stored, filters) {
            Some(HitView { stored, score })
        } else {
            None
        },
        None => None,
    }
}

/// The view of a memory that may have been loaded.
pub open spec fn loaded_view(loaded: Option<StoredMemory>) -> Option<types::StoredView> {
    match loaded {
        Some(stored) => Some(stored@),
        None => None,
    }
}

/// What was found after one more hit, up to a number that is wanted.
pub open spec fn with_hit(hits: Seq<HitView>, limit: usize, hit: Option<HitView>) -> Seq<HitView> {
    match hit {
        Some(h) => if hits.len() < limit {
            hits.push(h)
        } else {
            hits
        },
        None => hits,
    }
}

/// The memories after which a search by vectors stops. The number is looked at only
/// when a memory was found.
pub open spec fn vectors_most(limit: usize) -> usize {
    if limit == 0 {
        1
    } else {
        limit
    }
}

/// The memories that a search has found, up to the number that is wanted.
pub struct Collector {
    limit: usize,
    hits: Vec<Hit>,
}

impl Collector {
    /// The memories that were found.
    pub closed spec fn hits(&self) -> Seq<HitView> {
        hit_views(self.hits@)
    }

    /// The memories that are wanted at most.
    pub closed spec fn limit(&self) -> usize {
        self.limit
    }

    /// Never more memories are found than are wanted, but for the first one.
    pub open spec fn inv(&self) -> bool {
        self.hits().len() <= vectors_most(self.limit())
    }

    /// Nothing was found yet.
    pub fn new(limit: usize) -> (r: Self)
        ensures
            r.inv(),
            r.hits() == Seq::<HitView>::empty(),
            r.limit() == limit,
    {
        let r = Collector { limit, hits: Vec::new() };
        assert(r.hits() =~= Seq::empty());
        r
    }

    /// The number of memories that were found.
    pub fn len(&self) -> (r: usize)
        ensures
            r == self.hits().len(),
    {
        self.hits.len()
    }

    /// A memory that was loaded for a vector that was found. It is taken if it is
    /// shown and not enough were found. The search is to stop when the result is
    /// `true`: enough were found.
    pub fn offer(&mut self, loaded: Option<StoredMemory>, score: u32, filters: &MemoryFilters) -> (r:
        bool)
        requires
            old(self).inv(),
        ensures
            final(self).inv(),
            final(self).limit() == old(self).limit(),
            final(self).hits() == with_hit(
                old(self).hits(),
                vectors_most(old(self).limit()),
                hit_of(loaded_view(loaded), score, *filters),
            ),
            r == (final(self).hits().len() == vectors_most(final(self).limit())),
            loaded is None || loaded->Some_0.archived ==> final(self).hits() == old(self).hits(),
            final(self).hits() != old(self).hits() ==> final(self).hits() == old(self).hits().push(
                HitView { stored: loaded->Some_0@, score },
            ) && !loaded->Some_0.archived && memory_manager::matching(loaded->Some_0@, *filters),
            loaded is Some && !loaded->Some_0.archived && memory_manager::matching(
                loaded->Some_0@,
                *filters,
            ) && old(self).hits().len() < old(self).limit() ==> final(self).hits().len() == old(
                self,
            ).hits().len() + 1,
    {
        let ghost before = self.hits();
        let most: usize = if self.limit == 0 {
            1
        } else {
            self.limit
        };
        if let Some(stored) = loaded {
            let shown = !stored.archived && memory_manager::matches_filters(&stored, filters);
            if shown && self.hits.len() < most {
                self.hits.push(Hit { stored, score });
                assert(self.hits() =~= before.push(HitView { stored: loaded->Some_0@, score }));
            }
        }
        self.hits.len() >= most
    }

    /// A memory that was loaded for a result of a combined search, whose key must be
    /// that of a memory.
    pub fn offer_keyed(
        &mut self,
        key: &Vec<u8>,
        loaded: Option<StoredMemory>,
        score: u32,
        filters: &MemoryFilters,
    ) -> (r: bool)
        requires
            old(self).inv(),
        ensures
            final(self).inv(),
            final(self).limit() == old(self).limit(),
            final(self).hits() == with_hit(
                old(self).hits(),
                old(self).limit(),
                (ResultView { key: key@, loaded: loaded_view(loaded), score }).hit(*filters),
            ),
            r == (final(self).hits().len() >= final(self).limit()),
            loaded is None || loaded->Some_0.archived ==> final(self).hits() == old(self).hits(),
    {
        if names_memory(key) && self.hits.len() < self.limit {
            self.offer(loaded, score, filters);
        }
        self.hits.len() >= self.limit
    }

    /// The memories as callers get them.
    pub fn finish(self, now: i64) -> (r: Vec<SearchResult>)
        requires
            self.inv(),
        ensures
            results_of(r@, self.hits(), now),
            r@.len() <= vectors_most(self.limit()),
    {
        to_results(self.hits, now)
    }
}

/// A result of a combined search: its key, what was loaded for it, and its score.
#[verifier::ext_equal]
pub struct ResultView {
    pub key: Seq<u8>,
    pub loaded: Option<types::StoredView>,
    pub score: u32,
}

impl ResultView {
    /// The hit that the result is, if it is one.
    pub open spec fn hit(self, filters: MemoryFilters) -> Option<HitView> {
        if is_memory_key(self.key) {
            hit_of(self.loaded, self.score, filters)
        } else {
            None
        }
    }
}

/// What a search by vectors finds among some results: those that are shown, in their
/// order, up to the first that makes enough.
pub open spec fn found_by_vectors(
    results: Seq<ResultView>,
    filters: MemoryFilters,
    limit: usize,
) -> Seq<HitView> {
    connection_manager::first_of(shown_among(results, filters), vectors_most(limit) as int)
}

/// The hits among some results, whatever their keys are, in their order.
pub open spec fn shown_among(results: Seq<ResultView>, filters: MemoryFilters) -> Seq<HitView>
    decreases results.len(),
{
    if results.len() == 0 {
        Seq::empty()
    } else {
        let init = shown_among(results.drop_last(), filters);
        match hit_of(results.last().loaded, results.last().score, filters) {
            Some(h) => init.push(h),
            None => init,
        }
    }
}

/// A collector to which the results of a search by vectors are offered one by one
/// holds at any time what such a search finds among all of them; once that is enough,
/// further results change nothing.
pub proof fn law_found_by_vectors(
    results: Seq<ResultView>,
    next: ResultView,
    filters: MemoryFilters,
    limit: usize,
)
    ensures
        found_by_vectors(Seq::empty(), filters, limit) == Seq::<HitView>::empty(),
        found_by_vectors(results.push(next), filters, limit) == with_hit(
            found_by_vectors(results, filters, limit),
            vectors_most(limit),
            hit_of(next.loaded, next.score, filters),
        ),
        found_by_vectors(results, filters, limit).len() <= vectors_most(limit),
        found_by_vectors(results, filters, limit).len() == vectors_most(limit)
            ==> found_by_vectors(results.push(next), filters, limit) == found_by_vectors(
            results,
            filters,
            limit,
        ),
{
    assert(results.push(next).drop_last() =~= results);
    assert(results.push(next).last() == next);
    let most = vectors_most(limit) as int;
    let before = shown_among(results, filters);
    let after = shown_among(results.push(next), filters);
    assert(found_by_vectors(Seq::empty(), filters, limit) =~= Seq::empty());
    assert(connection_manager::first_of(after, most) =~= with_hit(
        connection_manager::first_of(before, most),
        vectors_most(limit),
        hit_of(next.loaded, next.score, filters),
    ));
}

/// The hits among some results, in their order.
pub open spec fn hits_among(results: Seq<ResultView>, filters: MemoryFilters) -> Seq<HitView>
    decreases results.len(),
{
    if results.len() == 0 {
        Seq::empty()
    } else {
        let init = hits_among(results.drop_last(), filters);
        match results.last().hit(filters) {
            Some(h) => init.push(h),
            None => init,
        }
    }
}

/// What a search collects from the results of the query engine: the hits among them,
/// in their order and with their scores, cut to the number that is wanted.
pub open spec fn collected(
    results: Seq<ResultView>,
    filters: MemoryFilters,
    limit: usize,
) -> Seq<HitView> {
    connection_manager::first_of(hits_among(results, filters), limit as int)
}

/// A collector to which results are offered one by one holds at any time what is
/// collected from all of them. It never holds more than is wanted, and once it holds
/// as much, further results change nothing.
pub proof fn law_collected(
    results: Seq<ResultView>,
    next: ResultView,
    filters: MemoryFilters,
    limit: usize,
)
    ensures
        collected(Seq::empty(), filters, limit) == Seq::<HitView>::empty(),
        collected(results.push(next), filters, limit) == with_hit(
            collected(results, filters, limit),
            limit,
            next.hit(filters),
        ),
        collected(results, filters, limit).len() <= limit,
        collected(results, filters, limit).len() == limit ==> collected(
            results.push(next),
            filters,
            limit,
        ) == collected(results, filters, limit),
{
    assert(results.push(next).drop_last() =~= results);
    assert(results.push(next).last() == next);
    let before = hits_among(results, filters);
    let after = hits_among(results.push(next), filters);
    assert(collected(Seq::empty(), filters, limit) =~= Seq::empty());
    assert(connection_manager::first_of(after, limit as int) =~= with_hit(
        connection_manager::first_of(before, limit as int),
        limit,
        next.hit(filters),
    ));
}

/// Whether some results are what callers get of hits.
pub open spec fn results_of(results: Seq<SearchResult>, hits: Seq<HitView>, now: i64) -> bool {
    &&& results.len() == hits.len()
    &&& forall|i: int|
        0 <= i < results.len() ==> (#[trigger] results[i]).score == hits[i].score
            && results[i].memory.is_of(hits[i].stored, Seq::empty(), now)
}

/// The hits as callers get them.
fn to_results(hits: Vec<Hit>, now: i64) -> (r: Vec<SearchResult>)
    ensures
        results_of(r@, hit_views(hits@), now),
{
    let ghost all = hit_views(hits@);
    let mut rest = hits;
    let mut out: Vec<SearchResult> = Vec::new();
    while rest.len() > 0
        invariant
            out@.len() + rest@.len() == all.len(),
            hit_views(rest@) == all.skip(out@.len() as int),
            results_of(out@, all.take(out@.len() as int), now),
        decreases rest@.len(),
    {
        let ghost n = out@.len() as int;
        assert(hit_views(rest@)[0] == all[n]);
        let ghost before = rest@;
        let hit = rest.remove(0);
        let none: Vec<Connection> = Vec::new();
        assert(none@ =~= Seq::empty());
        let score: u32 = hit.score;
        out.push(SearchResult { memory: hit.stored.into_api_at(none, now), score });
        proof {
            lemma_rest(before, rest@, all, n);
            assert(all.take(n + 1) =~= all.take(n).push(all[n]));
        }
    }
    assert(all.take(out@.len() as int) =~= all);
    out
}

/// What is left of a list after its first element was taken.
proof fn lemma_rest(before: Seq<Hit>, rest: Seq<Hit>, all: Seq<HitView>, n: int)
    requires
        0 <= n < all.len(),
        hit_views(before) == all.skip(n),
        before.len() == all.len() - n,
        rest == before.remove(0),
    ensures
        hit_views(rest) == all.skip(n + 1),
{
    assert forall|i: int| 0 <= i < rest.len() implies #[trigger] hit_views(rest)[i] == all.skip(
        n + 1,
    )[i] by {
        assert(rest[i] == before[i + 1]);
        assert(hit_views(before)[i + 1] == all.skip(n)[i + 1]);
    }
    assert(hit_views(rest) =~= all.skip(n + 1));
}

/// Whether a key begins like that of a memory.
pub open spec fn is_memory_key(key: Seq<u8>) -> bool {
    "memory:"@.is_prefix_of(text::lossy_text(key))
}

/// Whether a key begins like that of a memory.
fn names_memory(key: &Vec<u8>) -> (r: bool)
    ensures
        r == is_memory_key(key@),
{
    let s = text::text_of(key.as_slice());
    match text::without_prefix(s.as_str(), "memory:") {
        Some(rest) => {
            assert("memory:"@.is_prefix_of(s@));
            true
        },
        None => false,
    }
}

/// Whether some bytes occur in others.
pub open spec fn occurs(needle: Seq<u8>, hay: Seq<u8>) -> bool {
    exists|i: int|
        0 <= i && i + needle.len() <= hay.len() && #[trigger] hay.subrange(i, i + needle.len())
            == needle
}

/// Whether some bytes occur in others.
fn contains_bytes(hay: &[u8], needle: &[u8]) -> (r: bool)
    ensures
        r == occurs(needle@, hay@),
{
    if needle.len() > hay.len() {
        return false;
    }
    let last: usize = hay.len() - needle.len();
    let mut i: usize = 0;
    loop
        invariant
            last + needle@.len() == hay@.len(),
            hay@.len() <= usize::MAX,
            i <= last,
            forall|j: int|
                0 <= j < i ==> #[trigger] hay@.subrange(j, j + needle@.len()) != needle@,
        decreases last - i,
    {
        let part = vstd::slice::slice_subrange(hay, i, i + needle.len());
        if order::bytes_equal(part, needle) {
            assert(hay@.subrange(i as int, i + needle@.len()) == needle@);
            return true;
        }
        if i == last {
            return false;
        }
        i = i + 1;
    }
}

/// The words of a query, in lower case.
pub open spec fn query_tokens(words: Seq<Seq<char>>) -> Seq<Seq<char>> {
    Seq::new(words.len(), |i: int| text::lowered(words[i]))
}

/// The words of a query that was split, in lower case.
pub fn lower_all(words: &Vec<String>) -> (r: Vec<String>)
    ensures
        text::texts(r@) == query_tokens(text::texts(words@)),
{
    let mut out: Vec<String> = Vec::new();
    let mut i: usize = 0;
    while i < words.len()
        invariant
            i <= words@.len(),
            out@.len() == i,
            forall|j: int| 0 <= j < i ==> (#[trigger] out@[j])@ == text::lowered(words@[j]@),
        decreases words@.len() - i,
    {
        out.push(text::to_lower(words[i].as_str()));
        i = i + 1;
    }
    assert(text::texts(out@) =~= query_tokens(text::texts(words@)));
    out
}

/// The words of a query, in lower case.
pub fn tokenize(query: &str) -> (r: Vec<String>)
    ensures
        text::texts(r@) == query_tokens(text::whitespace_words(query@)),
{
    let words = text::split_words(query);
    lower_all(&words)
}

/// How many of some tokens occur in a text that is in lower case.
pub open spec fn matches_in(tokens: Seq<Seq<char>>, content: Seq<char>) -> nat
    decreases tokens.len(),
{
    if tokens.len() == 0 {
        0
    } else {
        matches_in(tokens.drop_last(), content) + if occurs(
            vstd::utf8::encode_utf8(tokens.last()),
            vstd::utf8::encode_utf8(content),
        ) {
            1nat
        } else {
            0
        }
    }
}

/// How many of some tokens occur in a text that is in lower case.
pub fn count_matches(tokens: &Vec<String>, content: &str) -> (r: usize)
    ensures
        r == matches_in(text::texts(tokens@), content@),
        r <= tokens@.len(),
{
    let ghost all = text::texts(tokens@);
    let hay = content.as_bytes();
    let mut count: usize = 0;
    let mut i: usize = 0;
    while i < tokens.len()
        invariant
            i <= tokens@.len(),
            all == text::texts(tokens@),
            hay@ == vstd::utf8::encode_utf8(content@),
            count == matches_in(all.take(i as int), content@),
            count <= i,
        decreases tokens@.len() - i,
    {
        proof {
            assert(all.take(i + 1).drop_last() =~= all.take(i as int));
            assert(all.take(i + 1).last() == tokens@[i as int]@);
        }
        if contains_bytes(hay, tokens[i].as_str().as_bytes()) {
            count = count + 1;
        }
        i = i + 1;
    }
    assert(all.take(i as int) =~= all);
    count
}

/// A hit that is put into a list in the order of scores, behind those of the same
/// score.
pub open spec fn placed(sorted: Seq<HitView>, hit: HitView) -> Seq<HitView>
    decreases sorted.len(),
{
    if sorted.len() > 0 && float::less(sorted.last().score, hit.score) {
        placed(sorted.drop_last(), hit).push(sorted.last())
    } else {
        sorted.push(hit)
    }
}

/// Hits in the order of their scores, the best first; hits of the same score stay in
/// their order.
pub open spec fn ranked(hits: Seq<HitView>) -> Seq<HitView>
    decreases hits.len(),
{
    if hits.len() == 0 {
        hits
    } else {
        placed(ranked(hits.drop_last()), hits.last())
    }
}

/// Puts hits into the order of their scores.
fn rank(hits: Vec<Hit>) -> (r: Vec<Hit>)
    ensures
        hit_views(r@) == ranked(hit_views(hits@)),
{
    let ghost all = hit_views(hits@);
    let mut rest = hits;
    let mut out: Vec<Hit> = Vec::new();
    let ghost mut n: int = 0;
    assert(all.skip(0) =~= all);
    assert(hit_views(out@) =~= ranked(all.take(0)));
    while rest.len() > 0
        invariant
            0 <= n <= all.len(),
            n + rest@.len() == all.len(),
            hit_views(rest@) == all.skip(n),
            hit_views(out@) == ranked(all.take(n)),
        decreases rest@.len(),
    {
        proof {
            assert(hit_views(rest@)[0] == all[n]);
            assert(all.take(n + 1).drop_last() =~= all.take(n));
            assert(all.take(n + 1).last() == all[n]);
        }
        let ghost before = rest@;
        let hit = rest.remove(0);
        place(&mut out, hit);
        proof {
            lemma_rest(before, rest@, all, n);
            n = n + 1;
        }
    }
    assert(all.take(n) =~= all);
    out
}

/// Puts a hit into a list in the order of scores.
fn place(out: &mut Vec<Hit>, hit: Hit)
    ensures
        hit_views(final(out)@) == placed(hit_views(old(out)@), hit@),
{
    let ghost sorted = hit_views(out@);
    let ghost view = hit@;
    let mut at: usize = out.len();
    assert(sorted.take(at as int) =~= sorted);
    assert(placed(sorted.take(at as int), view) + sorted.skip(at as int) =~= placed(sorted, view));
    while at > 0 && float::lt(out[at - 1].score, hit.score)
        invariant
            at <= out@.len(),
            sorted == hit_views(out@),
            view == hit@,
            placed(sorted, view) == placed(sorted.take(at as int), view) + sorted.skip(at as int),
        decreases at,
    {
        proof {
            let head = sorted.take(at as int);
            assert(head.drop_last() =~= sorted.take(at - 1));
            assert(head.last() == sorted[at - 1]);
            assert(placed(head.drop_last(), view).push(head.last()) + sorted.skip(at as int)
                =~= placed(sorted.take(at - 1), view) + sorted.skip(at - 1));
        }
        at = at - 1;
    }
    proof {
        let head = sorted.take(at as int);
        if at > 0 {
            assert(head.last() == sorted[at - 1]);
        }
        assert(placed(head, view) == head.push(view));
        assert(sorted.insert(at as int, view) =~= head.push(view) + sorted.skip(at as int));
    }
    let ghost before = out@;
    out.insert(at, hit);
    assert(hit_views(out@) =~= sorted.insert(at as int, view));
}

/// A search by words.
pub struct KeywordSearch {
    tokens: Vec<String>,
    limit: usize,
    seen: Vec<Vec<u8>>,
    hits: Vec<Hit>,
}

/// The state of a search by words.
#[verifier::ext_equal]
pub struct KeywordView {
    pub tokens: Seq<Seq<char>>,
    pub limit: usize,
    /// The keys of the memories that were found by their tags.
    pub seen: Seq<Seq<u8>>,
    pub hits: Seq<HitView>,
}

/// The views of some keys.
pub open spec fn key_views(keys: Seq<Vec<u8>>) -> Seq<Seq<u8>> {
    Seq::new(keys.len(), |i: int| keys[i]@)
}

impl View for KeywordSearch {
    type V = KeywordView;

    closed spec fn view(&self) -> KeywordView {
        KeywordView {
            tokens: text::texts(self.tokens@),
            limit: self.limit,
            seen: key_views(self.seen@),
            hits: hit_views(self.hits@),
        }
    }
}

impl KeywordView {
    /// Whether as many memories were found as are looked for.
    pub open spec fn full(self) -> bool {
        self.hits.len() >= self.limit * 3
    }

    /// How many tokens the content of a memory has.
    pub open spec fn matches(self, stored: types::StoredView) -> nat {
        matches_in(self.tokens, text::lowered(stored.content))
    }

    /// The state in which a search for tokens begins.
    pub open spec fn begun(tokens: Seq<Seq<char>>, limit: usize) -> KeywordView {
        KeywordView { tokens, limit, seen: Seq::empty(), hits: Seq::empty() }
    }

    /// The state after a result of the search by tags was offered: it is taken if its
    /// key is that of a memory that is shown.
    pub open spec fn after_tagged(self, result: ResultView, filters: MemoryFilters) -> KeywordView {
        match result.hit(filters) {
            Some(h) => KeywordView {
                seen: self.seen.push(result.key),
                hits: self.hits.push(h),
                ..self
            },
            None => self,
        }
    }

    /// The hit that a memory is that is looked through: one that was not found by its
    /// tags, is shown, and has a token in its content.
    pub open spec fn scanned_hit(self, result: ResultView, filters: MemoryFilters) -> Option<
        HitView,
    > {
        match hit_of(result.loaded, result.score, filters) {
            Some(h) => if !self.seen.contains(result.key) && self.matches(h.stored) > 0 {
                Some(h)
            } else {
                None
            },
            None => None,
        }
    }

    /// The state after a memory that is looked through was offered.
    pub open spec fn after_scanned(self, result: ResultView, filters: MemoryFilters) -> KeywordView {
        match self.scanned_hit(result, filters) {
            Some(h) => KeywordView { hits: self.hits.push(h), ..self },
            None => self,
        }
    }
}

impl KeywordSearch {
    /// A search for given tokens.
    pub fn new(tokens: Vec<String>, limit: usize) -> (r: Self)
        ensures
            r@ == KeywordView::begun(text::texts(tokens@), limit),
    {
        let r = KeywordSearch { tokens, limit, seen: Vec::new(), hits: Vec::new() };
        assert(r@.seen =~= Seq::empty());
        assert(r@.hits =~= Seq::empty());
        r
    }

    /// Whether there is nothing to search for.
    pub fn is_empty(&self) -> (r: bool)
        ensures
            r == (self@.tokens.len() == 0),
    {
        self.tokens.len() == 0
    }

    /// How many tokens the content of a memory has. The part of the tokens that it
    /// has is half of the score of a memory that was found by its tags, and the
    /// whole score of one that was not.
    pub fn content_matches(&self, stored: &StoredMemory) -> (r: usize)
        ensures
            r == self@.matches(stored@),
    {
        let lower = text::to_lower(stored.content.as_str());
        count_matches(&self.tokens, lower.as_str())
    }

    /// A memory that was loaded for a key that was found by its tags. The search by
    /// tags is to stop when the result is `true`.
    pub fn offer_tagged(
        &mut self,
        key: &Vec<u8>,
        loaded: Option<StoredMemory>,
        score: u32,
        filters: &MemoryFilters,
    ) -> (r: bool)
        requires
            old(self)@.limit * 3 <= usize::MAX,
        ensures
            ({
                let result = ResultView { key: key@, loaded: loaded_view(loaded), score };
                &&& final(self)@ == old(self)@.after_tagged(result, *filters)
                &&& r == (result.hit(*filters) is Some && final(self)@.full())
            }),
            loaded is None || loaded->Some_0.archived ==> final(self)@ == old(self)@ && !r,
            final(self)@ != old(self)@ ==> final(self)@.hits == old(self)@.hits.push(
                HitView { stored: loaded->Some_0@, score },
            ),
    {
        let ghost before = self@;
        if !names_memory(key) {
            return false;
        }
        match loaded {
            Some(stored) => {
                if stored.archived || !memory_manager::matches_filters(&stored, filters) {
                    return false;
                }
                self.seen.push(crate::engine::codec::copy_bytes(key));
                self.hits.push(Hit { stored, score });
                proof {
                    assert(self@.seen =~= before.seen.push(key@));
                    assert(self@.hits =~= before.hits.push(
                        HitView { stored: loaded->Some_0@, score },
                    ));
                }
                self.hits.len() >= self.limit * 3
            },
            None => false,
        }
    }

    /// Whether all memories are to be looked through, since their tags have not led
    /// to enough of them.
    pub fn needs_scan(&self) -> (r: bool)
        ensures
            r == (self@.hits.len() < self@.limit),
    {
        self.hits.len() < self.limit
    }

    /// A memory that was loaded when all memories are looked through. It is taken if
    /// it was not found by its tags, is shown, and has a token in its content. The
    /// scan is to stop when the result is `true`.
    pub fn offer_scanned(
        &mut self,
        key: &Vec<u8>,
        loaded: Option<StoredMemory>,
        score: u32,
        filters: &MemoryFilters,
    ) -> (r: bool)
        requires
            old(self)@.limit * 3 <= usize::MAX,
        ensures
            ({
                let result = ResultView { key: key@, loaded: loaded_view(loaded), score };
                &&& final(self)@ == old(self)@.after_scanned(result, *filters)
                &&& r == (old(self)@.scanned_hit(result, *filters) is Some && final(self)@.full())
            }),
            loaded is None || loaded->Some_0.archived ==> final(self)@ == old(self)@ && !r,
            final(self)@ != old(self)@ ==> final(self)@.hits == old(self)@.hits.push(
                HitView { stored: loaded->Some_0@, score },
            ),
    {
        let ghost before = self@;
        if self.has_seen(key) {
            return false;
        }
        match loaded {
            Some(stored) => {
                if stored.archived || !memory_manager::matches_filters(&stored, filters) {
                    return false;
                }
                if self.content_matches(&stored) == 0 {
                    return false;
                }
                self.hits.push(Hit { stored, score });
                assert(self@.hits =~= before.hits.push(
                    HitView { stored: loaded->Some_0@, score },
                ));
                self.hits.len() >= self.limit * 3
            },
            None => false,
        }
    }

    /// Whether a key was found by its tags.
    fn has_seen(&self, key: &Vec<u8>) -> (r: bool)
        ensures
            r == self@.seen.contains(key@),
    {
        let mut i: usize = 0;
        while i < self.seen.len()
            invariant
                i <= self.seen@.len(),
                forall|j: int| 0 <= j < i ==> self@.seen[j] != key@,
            decreases self.seen@.len() - i,
        {
            if order::bytes_equal(self.seen[i].as_slice(), key.as_slice()) {
                assert(self@.seen[i as int] == key@);
                return true;
            }
            i = i + 1;
        }
        false
    }

    /// The best of the memories that were found, the best first.
    pub fn finish(self, now: i64) -> (r: Vec<SearchResult>)
        ensures
            results_of(
                r@,
                connection_manager::first_of(ranked(self@.hits), self@.limit as int),
                now,
            ),
    {
        let limit: usize = self.limit;
        let mut best = rank(self.hits);
        let ghost all = hit_views(best@);
        if best.len() > limit {
            best.truncate(limit);
        }
        assert(hit_views(best@) =~= connection_manager::first_of(all, limit as int));
        to_results(best, now)
    }
}

/// Whether no hit is worse than one behind it.
pub open spec fn best_first(hits: Seq<HitView>) -> bool {
    forall|i: int, j: int|
        0 <= i < j < hits.len() ==> !float::less(
            (#[trigger] hits[i]).score,
            (#[trigger] hits[j]).score,
        )
}

/// Whether all scores are numbers.
pub open spec fn scored(hits: Seq<HitView>) -> bool {
    forall|i: int| 0 <= i < hits.len() ==> !float::is_nan((#[trigger] hits[i]).score)
}

/// Putting a hit into a sorted list keeps it sorted and loses nothing.
proof fn lemma_placed(sorted: Seq<HitView>, hit: HitView)
    requires
        best_first(sorted),
        scored(sorted),
        !float::is_nan(hit.score),
    ensures
        best_first(placed(sorted, hit)),
        scored(placed(sorted, hit)),
        placed(sorted, hit).to_multiset() == sorted.to_multiset().insert(hit),
        forall|i: int|
            0 <= i < placed(sorted, hit).len() ==> (#[trigger] placed(sorted, hit)[i]) == hit
                || sorted.contains(placed(sorted, hit)[i]),
    decreases sorted.len(),
{
    broadcast use vstd::seq_lib::group_to_multiset_ensures;

    let out = placed(sorted, hit);
    if sorted.len() > 0 && float::less(sorted.last().score, hit.score) {
        let init = sorted.drop_last();
        let last = sorted.last();
        let n = sorted.len() - 1;
        assert forall|i: int, j: int| 0 <= i < j < init.len() implies !float::less(
            (#[trigger] init[i]).score,
            (#[trigger] init[j]).score,
        ) by {
            assert(init[i] == sorted[i] && init[j] == sorted[j]);
        }
        assert forall|i: int| 0 <= i < init.len() implies !float::is_nan(
            (#[trigger] init[i]).score,
        ) by {
            assert(init[i] == sorted[i]);
        }
        lemma_placed(init, hit);
        let inner = placed(init, hit);
        assert(out == inner.push(last));
        assert(sorted =~= init.push(last));
        assert(out.to_multiset() =~= sorted.to_multiset().insert(hit));
        assert forall|i: int| 0 <= i < out.len() implies (#[trigger] out[i]) == hit
            || sorted.contains(out[i]) by {
            if i < inner.len() {
                if inner[i] != hit {
                    assert(init.contains(inner[i]));
                    let k = choose|k: int| 0 <= k < init.len() && init[k] == inner[i];
                    assert(sorted[k] == out[i]);
                }
            } else {
                assert(sorted[n] == last);
            }
        }
        assert forall|i: int, j: int| 0 <= i < j < out.len() implies !float::less(
            (#[trigger] out[i]).score,
            (#[trigger] out[j]).score,
        ) by {
            if j < inner.len() {
                assert(!float::less(inner[i].score, inner[j].score));
            } else if inner[i] != hit {
                assert(init.contains(inner[i]));
                let k = choose|k: int| 0 <= k < init.len() && init[k] == inner[i];
                assert(!float::less(sorted[k].score, sorted[n].score));
            }
        }
    } else {
        assert forall|i: int| 0 <= i < out.len() implies (#[trigger] out[i]) == hit
            || sorted.contains(out[i]) by {
            if i < sorted.len() {
                assert(sorted[i] == out[i]);
            }
        }
        assert forall|i: int, j: int| 0 <= i < j < out.len() implies !float::less(
            (#[trigger] out[i]).score,
            (#[trigger] out[j]).score,
        ) by {
            if j < sorted.len() {
                assert(!float::less(sorted[i].score, sorted[j].score));
            } else {
                let n = sorted.len() - 1;
                if i < n {
                    assert(!float::less(sorted[i].score, sorted[n].score));
                }
            }
        }
    }
}

/// Ranking hits whose scores are numbers puts the best first, and loses nothing and
/// adds nothing.
pub proof fn law_ranked(hits: Seq<HitView>)
    requires
        scored(hits),
    ensures
        best_first(ranked(hits)),
        scored(ranked(hits)),
        ranked(hits).to_multiset() == hits.to_multiset(),
    decreases hits.len(),
{
    broadcast use vstd::seq_lib::group_to_multiset_ensures;

    if hits.len() > 0 {
        let init = hits.drop_last();
        assert forall|i: int| 0 <= i < init.len() implies !float::is_nan(
            (#[trigger] init[i]).score,
        ) by {
            assert(init[i] == hits[i]);
        }
        law_ranked(init);
        assert(!float::is_nan(hits[hits.len() - 1].score));
        lemma_placed(ranked(init), hits.last());
        assert(hits =~= init.push(hits.last()));
    }
}

/// The number of memories after which a search by words stops looking for more. The
/// number is looked at only when a memory was found.
pub open spec fn words_most(limit: usize) -> int {
    if limit == 0 {
        1
    } else {
        limit * 3
    }
}

impl KeywordView {
    /// Whether the search stops looking for more.
    pub open spec fn stopped(self) -> bool {
        self.hits.len() > 0 && self.full()
    }

    /// The state after some results of the search by tags were offered, up to the one
    /// after which it stops.
    pub open spec fn tagged(self, results: Seq<ResultView>, filters: MemoryFilters) -> KeywordView
        decreases results.len(),
    {
        if results.len() == 0 {
            self
        } else {
            let before = self.tagged(results.drop_last(), filters);
            if before.stopped() {
                before
            } else {
                before.after_tagged(results.last(), filters)
            }
        }
    }

    /// The state after some memories that are looked through were offered, up to the
    /// one after which the search stops.
    pub open spec fn scanned(self, results: Seq<ResultView>, filters: MemoryFilters) -> KeywordView
        decreases results.len(),
    {
        if results.len() == 0 {
            self
        } else {
            let before = self.scanned(results.drop_last(), filters);
            if before.stopped() {
                before
            } else {
                before.after_scanned(results.last(), filters)
            }
        }
    }
}

/// The state in which a search by words ends: all memories are looked through only if
/// the tags have led to too few.
pub open spec fn keyword_run(
    tokens: Seq<Seq<char>>,
    tagged: Seq<ResultView>,
    scanned: Seq<ResultView>,
    filters: MemoryFilters,
    limit: usize,
) -> KeywordView {
    let by_tags = KeywordView::begun(tokens, limit).tagged(tagged, filters);
    if by_tags.hits.len() < limit {
        by_tags.scanned(scanned, filters)
    } else {
        by_tags
    }
}

/// The results that are hits of the search by tags, in their order.
pub open spec fn tagged_among(results: Seq<ResultView>, filters: MemoryFilters) -> Seq<ResultView>
    decreases results.len(),
{
    if results.len() == 0 {
        Seq::empty()
    } else if results.last().hit(filters) is Some {
        tagged_among(results.drop_last(), filters).push(results.last())
    } else {
        tagged_among(results.drop_last(), filters)
    }
}

/// The memories that are hits when all are looked through, in their order.
pub open spec fn scanned_among(
    search: KeywordView,
    results: Seq<ResultView>,
    filters: MemoryFilters,
) -> Seq<ResultView>
    decreases results.len(),
{
    if results.len() == 0 {
        Seq::empty()
    } else if search.scanned_hit(results.last(), filters) is Some {
        scanned_among(search, results.drop_last(), filters).push(results.last())
    } else {
        scanned_among(search, results.drop_last(), filters)
    }
}

/// The keys of some results.
pub open spec fn result_keys(results: Seq<ResultView>) -> Seq<Seq<u8>> {
    Seq::new(results.len(), |i: int| results[i].key)
}

/// The hits that some results are.
pub open spec fn result_hits(results: Seq<ResultView>) -> Seq<HitView> {
    Seq::new(
        results.len(),
        |i: int| HitView { stored: results[i].loaded->Some_0, score: results[i].score },
    )
}

/// A search that has found some results by their tags.
pub open spec fn found_by_tags(
    tokens: Seq<Seq<char>>,
    limit: usize,
    results: Seq<ResultView>,
) -> KeywordView {
    KeywordView { tokens, limit, seen: result_keys(results), hits: result_hits(results) }
}

/// What a search by words finds: the first hits of the search by tags, and behind them,
/// where they are too few, the first hits among all other memories.
pub open spec fn keyword_found(
    tokens: Seq<Seq<char>>,
    tagged: Seq<ResultView>,
    scanned: Seq<ResultView>,
    filters: MemoryFilters,
    limit: usize,
) -> Seq<ResultView> {
    let first = connection_manager::first_of(tagged_among(tagged, filters), words_most(limit));
    if first.len() < limit {
        connection_manager::first_of(
            first + scanned_among(found_by_tags(tokens, limit, first), scanned, filters),
            words_most(limit),
        )
    } else {
        first
    }
}

/// What a search by words comes to: the best of what it finds. A search for nothing
/// finds nothing.
pub open spec fn keyword_results(
    tokens: Seq<Seq<char>>,
    tagged: Seq<ResultView>,
    scanned: Seq<ResultView>,
    filters: MemoryFilters,
    limit: usize,
) -> Seq<HitView> {
    if tokens.len() == 0 {
        Seq::empty()
    } else {
        connection_manager::first_of(
            ranked(result_hits(keyword_found(tokens, tagged, scanned, filters, limit))),
            limit as int,
        )
    }
}

/// The steps of the search by tags come to its first hits.
proof fn lemma_tagged_run(
    tokens: Seq<Seq<char>>,
    limit: usize,
    results: Seq<ResultView>,
    filters: MemoryFilters,
)
    ensures
        KeywordView::begun(tokens, limit).tagged(results, filters) == found_by_tags(
            tokens,
            limit,
            connection_manager::first_of(tagged_among(results, filters), words_most(limit)),
        ),
    decreases results.len(),
{
    let most = words_most(limit);
    let begun = KeywordView::begun(tokens, limit);
    let all = tagged_among(results, filters);
    if results.len() == 0 {
        assert(connection_manager::first_of(all, most) =~= Seq::empty());
        assert(begun =~= found_by_tags(tokens, limit, Seq::empty()));
    } else {
        let init = results.drop_last();
        let last = results.last();
        lemma_tagged_run(tokens, limit, init, filters);
        let some = tagged_among(init, filters);
        let first = connection_manager::first_of(some, most);
        let before = begun.tagged(init, filters);
        assert(before.hits.len() == first.len());
        if before.stopped() {
            assert(first.len() == most);
            assert(connection_manager::first_of(all, most) =~= first);
        } else {
            assert(first.len() < most);
            assert(first == some);
            assert(connection_manager::first_of(all, most) =~= all);
            if last.hit(filters) is Some {
                assert(result_keys(all) =~= result_keys(some).push(last.key));
                assert(result_hits(all) =~= result_hits(some).push(last.hit(filters)->Some_0));
            }
            assert(before.after_tagged(last, filters) =~= found_by_tags(tokens, limit, all));
        }
    }
}

/// The steps of looking through all memories come to their first hits.
proof fn lemma_scanned_run(
    search: KeywordView,
    found: Seq<ResultView>,
    results: Seq<ResultView>,
    filters: MemoryFilters,
)
    requires
        search.hits == result_hits(found),
        found.len() < search.limit,
    ensures
        ({
            let all = connection_manager::first_of(
                found + scanned_among(search, results, filters),
                words_most(search.limit),
            );
            search.scanned(results, filters) == (KeywordView { hits: result_hits(all), ..search })
        }),
    decreases results.len(),
{
    let most = words_most(search.limit);
    let more = scanned_among(search, results, filters);
    if results.len() == 0 {
        assert(connection_manager::first_of(found + more, most) =~= found);
    } else {
        let init = results.drop_last();
        let last = results.last();
        lemma_scanned_run(search, found, init, filters);
        let some = found + scanned_among(search, init, filters);
        let first = connection_manager::first_of(some, most);
        let before = search.scanned(init, filters);
        let all = found + more;
        assert(before.hits.len() == first.len());
        if before.stopped() {
            assert(first.len() == most);
            assert(connection_manager::first_of(all, most) =~= first);
        } else {
            assert(first.len() < most);
            assert(first == some);
            assert(before.scanned_hit(last, filters) == search.scanned_hit(last, filters));
            if search.scanned_hit(last, filters) is Some {
                assert(all =~= some.push(last));
                assert(result_hits(all) =~= result_hits(some).push(
                    search.scanned_hit(last, filters)->Some_0,
                ));
            } else {
                assert(all =~= some);
            }
            assert(connection_manager::first_of(all, most) =~= all);
        }
    }
}

/// The steps of a search by words come to what it is to find.
pub proof fn law_keyword_search(
    tokens: Seq<Seq<char>>,
    tagged: Seq<ResultView>,
    scanned: Seq<ResultView>,
    filters: MemoryFilters,
    limit: usize,
)
    ensures
        keyword_run(tokens, tagged, scanned, filters, limit).hits == result_hits(
            keyword_found(tokens, tagged, scanned, filters, limit),
        ),
        tokens.len() > 0 ==> keyword_results(tokens, tagged, scanned, filters, limit)
            == connection_manager::first_of(
            ranked(keyword_run(tokens, tagged, scanned, filters, limit).hits),
            limit as int,
        ),
{
    let first = connection_manager::first_of(tagged_among(tagged, filters), words_most(limit));
    lemma_tagged_run(tokens, limit, tagged, filters);
    if first.len() < limit {
        lemma_scanned_run(found_by_tags(tokens, limit, first), first, scanned, filters);
    }
}

/// The hits of the search by tags are among its results; no key is twice among them
/// unless it is twice among the results.
proof fn lemma_tagged_among(results: Seq<ResultView>, filters: MemoryFilters)
    ensures
        forall|i: int|
            0 <= i < tagged_among(results, filters).len() ==> results.contains(
                #[trigger] tagged_among(results, filters)[i],
            ) && tagged_among(results, filters)[i].hit(filters) is Some,
        result_keys(results).no_duplicates() ==> result_keys(
            tagged_among(results, filters),
        ).no_duplicates(),
    decreases results.len(),
{
    if results.len() > 0 {
        let init = results.drop_last();
        let n = results.len() - 1;
        lemma_tagged_among(init, filters);
        let some = tagged_among(init, filters);
        let all = tagged_among(results, filters);
        let distinct = result_keys(results).no_duplicates();
        assert forall|i: int| 0 <= i < some.len() implies results.contains(#[trigger] some[i]) && (
        distinct ==> some[i].key != results[n].key) by {
            let k = choose|k: int| 0 <= k < init.len() && init[k] == some[i];
            assert(results[k] == some[i]);
            if distinct {
                assert(result_keys(results)[k] != result_keys(results)[n]);
            }
        }
        assert forall|i: int| 0 <= i < all.len() implies results.contains(#[trigger] all[i])
            && all[i].hit(filters) is Some by {
            if i < some.len() {
                assert(all[i] == some[i]);
            } else {
                assert(results[n] == all[i]);
            }
        }
        if distinct {
            assert forall|i: int, j: int|
                0 <= i < init.len() && 0 <= j < init.len() && i != j implies result_keys(init)[i]
                != result_keys(init)[j] by {
                assert(result_keys(results)[i] != result_keys(results)[j]);
            }
            assert forall|i: int, j: int|
                0 <= i < all.len() && 0 <= j < all.len() && i != j implies result_keys(all)[i]
                != result_keys(all)[j] by {
                if i < some.len() && j < some.len() {
                    assert(result_keys(some)[i] != result_keys(some)[j]);
                } else if i < some.len() {
                    assert(some[i].key != results[n].key);
                } else {
                    assert(some[j].key != results[n].key);
                }
            }
        }
    }
}

/// The hits among all memories are memories that are shown, were not found by their
/// tags and have a token; no key is twice among them unless it is twice among all.
proof fn lemma_scanned_among(search: KeywordView, results: Seq<ResultView>, filters: MemoryFilters)
    ensures
        forall|i: int|
            0 <= i < scanned_among(search, results, filters).len() ==> results.contains(
                #[trigger] scanned_among(search, results, filters)[i],
            ) && search.scanned_hit(
                scanned_among(search, results, filters)[i],
                filters,
            ) is Some,
        result_keys(results).no_duplicates() ==> result_keys(
            scanned_among(search, results, filters),
        ).no_duplicates(),
    decreases results.len(),
{
    if results.len() > 0 {
        let init = results.drop_last();
        let n = results.len() - 1;
        lemma_scanned_among(search, init, filters);
        let some = scanned_among(search, init, filters);
        let all = scanned_among(search, results, filters);
        let distinct = result_keys(results).no_duplicates();
        assert forall|i: int| 0 <= i < some.len() implies results.contains(#[trigger] some[i]) && (
        distinct ==> some[i].key != results[n].key) by {
            let k = choose|k: int| 0 <= k < init.len() && init[k] == some[i];
            assert(results[k] == some[i]);
            if distinct {
                assert(result_keys(results)[k] != result_keys(results)[n]);
            }
        }
        assert forall|i: int| 0 <= i < all.len() implies results.contains(#[trigger] all[i])
            && search.scanned_hit(all[i], filters) is Some by {
            if i < some.len() {
                assert(all[i] == some[i]);
            } else {
                assert(results[n] == all[i]);
            }
        }
        if distinct {
            assert forall|i: int, j: int|
                0 <= i < init.len() && 0 <= j < init.len() && i != j implies result_keys(init)[i]
                != result_keys(init)[j] by {
                assert(result_keys(results)[i] != result_keys(results)[j]);
            }
            assert forall|i: int, j: int|
                0 <= i < all.len() && 0 <= j < all.len() && i != j implies result_keys(all)[i]
                != result_keys(all)[j] by {
                if i < some.len() && j < some.len() {
                    assert(result_keys(some)[i] != result_keys(some)[j]);
                } else if i < some.len() {
                    assert(some[i].key != results[n].key);
                } else {
                    assert(some[j].key != results[n].key);
                }
            }
        }
    }
}

/// What a search by words finds: every find is a memory that is shown and was found by
/// its tags or has a token in its content, no key is found twice if the tags and the
/// memories are listed once each, no more results come than are wanted, and, where all
/// scores are numbers, the best come first.
pub proof fn law_keyword_results(
    tokens: Seq<Seq<char>>,
    tagged: Seq<ResultView>,
    scanned: Seq<ResultView>,
    filters: MemoryFilters,
    limit: usize,
)
    ensures
        ({
            let found = keyword_found(tokens, tagged, scanned, filters, limit);
            let results = keyword_results(tokens, tagged, scanned, filters, limit);
            &&& forall|i: int|
                0 <= i < found.len() ==> {
                    ||| tagged.contains(#[trigger] found[i]) && found[i].hit(filters) is Some
                    ||| scanned.contains(found[i]) && hit_of(
                        found[i].loaded,
                        found[i].score,
                        filters,
                    ) is Some && matches_in(
                        tokens,
                        text::lowered(found[i].loaded->Some_0.content),
                    ) > 0
                }
            &&& result_keys(tagged).no_duplicates() && result_keys(scanned).no_duplicates()
                ==> result_keys(found).no_duplicates()
            &&& results.len() <= limit
            &&& scored(result_hits(found)) ==> best_first(results) && ranked(
                result_hits(found),
            ).to_multiset() == result_hits(found).to_multiset()
        }),
{
    let found = keyword_found(tokens, tagged, scanned, filters, limit);
    let all = tagged_among(tagged, filters);
    let first = connection_manager::first_of(all, words_most(limit));
    let search = found_by_tags(tokens, limit, first);
    let more = scanned_among(search, scanned, filters);
    lemma_tagged_among(tagged, filters);
    lemma_scanned_among(search, scanned, filters);
    assert forall|i: int| 0 <= i < found.len() implies {
        ||| tagged.contains(#[trigger] found[i]) && found[i].hit(filters) is Some
        ||| scanned.contains(found[i]) && hit_of(
            found[i].loaded,
            found[i].score,
            filters,
        ) is Some && matches_in(tokens, text::lowered(found[i].loaded->Some_0.content)) > 0
    } by {
        if i < first.len() {
            assert(found[i] == all[i]);
        } else {
            assert(found[i] == more[i - first.len()]);
        }
    }
    if result_keys(tagged).no_duplicates() && result_keys(scanned).no_duplicates() {
        assert forall|i: int, j: int|
            0 <= i < found.len() && 0 <= j < found.len() && i != j implies result_keys(found)[i]
            != result_keys(found)[j] by {
            lemma_found_apart(first, all, more, search, found, filters, i, j);
        }
    }
    if scored(result_hits(found)) {
        law_ranked(result_hits(found));
    }
}

/// Two finds of a search by words have different keys.
proof fn lemma_found_apart(
    first: Seq<ResultView>,
    all: Seq<ResultView>,
    more: Seq<ResultView>,
    search: KeywordView,
    found: Seq<ResultView>,
    filters: MemoryFilters,
    i: int,
    j: int,
)
    requires
        0 <= i < found.len(),
        0 <= j < found.len(),
        i != j,
        first.len() <= all.len(),
        forall|k: int| 0 <= k < first.len() ==> #[trigger] first[k] == all[k],
        search.seen == result_keys(first),
        found.len() <= first.len() + more.len(),
        forall|k: int|
            0 <= k < found.len() ==> #[trigger] found[k] == (if k < first.len() {
                first[k]
            } else {
                more[k - first.len()]
            }),
        forall|k: int|
            0 <= k < more.len() ==> search.scanned_hit(#[trigger] more[k], filters) is Some,
        result_keys(all).no_duplicates(),
        result_keys(more).no_duplicates(),
    ensures
        found[i].key != found[j].key,
{
    let n = first.len() as int;
    if i < n && j < n {
        assert(first[i] == all[i] && first[j] == all[j]);
        assert(result_keys(all)[i] != result_keys(all)[j]);
    } else if i >= n && j >= n {
        assert(result_keys(more)[i - n] != result_keys(more)[j - n]);
    } else if i < n {
        assert(search.scanned_hit(more[j - n], filters) is Some);
        assert(result_keys(first)[i] == found[i].key);
        assert(search.seen.contains(found[i].key));
    } else {
        assert(search.scanned_hit(more[i - n], filters) is Some);
        assert(result_keys(first)[j] == found[j].key);
        assert(search.seen.contains(found[j].key));
    }
}

/// What a combined search looks for.
pub struct HybridPlan {
    /// The vectors that are looked at, and the results that are wanted.
    pub width: usize,
    /// The tags of which any is wanted; without any, tags play no part.
    pub tags: Vec<String>,
    /// The key of a memory whose neighbours are preferred, and how far they are.
    pub context: Option<(String, usize)>,
}

impl HybridPlan {
    /// Whether this is the plan for given tokens, a limit and a preferred memory.
    pub open spec fn is_for(
        &self,
        tokens: Seq<Seq<char>>,
        limit: usize,
        related_to: Option<u128>,
    ) -> bool {
        &&& self.width == width_of(limit)
        &&& text::texts(self.tags@) == tokens
        &&& match self.context {
            Some((key, depth)) => related_to is Some && key@ == types::key_text(
                related_to->Some_0,
            ) && depth == CONTEXT_DEPTH,
            None => related_to is None,
        }
    }
}

/// What a combined search for given tokens looks for.
pub fn plan_hybrid(tokens: Vec<String>, limit: usize, related_to: Option<u128>) -> (r: HybridPlan)
    requires
        limit * 3 <= usize::MAX,
    ensures
        r.is_for(text::texts(tokens@), limit, related_to),
{
    let context = match related_to {
        Some(id) => Some((types::memory_key(id), CONTEXT_DEPTH)),
        None => None,
    };
    HybridPlan { width: search_width(limit), tags: tokens, context }
}

/// How a query is answered.
pub enum SearchPlan {
    /// By the vectors alone, of which so many are looked at first.
    Vectors { width: usize },
    /// By the tags and contents of memories, for these words.
    Words { tokens: Vec<String> },
    /// By all that is known of memories at once.
    Combined(HybridPlan),
}

/// Decides how a query is answered: one by meaning needs nothing but vectors, unless
/// the neighbours of a memory are preferred.
pub fn plan_search(query: &SearchQuery) -> (r: SearchPlan)
    requires
        query.limit * 3 <= usize::MAX,
    ensures
        ({
            let tokens = query_tokens(text::whitespace_words(query.query@));
            match query.search_type {
                SearchType::Semantic => if query.related_to is Some {
                    r is Combined && r->Combined_0.is_for(
                        Seq::empty(),
                        query.limit,
                        query.related_to,
                    )
                } else {
                    r is Vectors && r->width == width_of(query.limit)
                },
                SearchType::Keyword => r is Words && text::texts(r->tokens@) == tokens,
                SearchType::Hybrid => r is Combined && r->Combined_0.is_for(
                    tokens,
                    query.limit,
                    query.related_to,
                ),
            }
        }),
{
    match query.search_type {
        SearchType::Semantic => {
            if query.related_to.is_some() {
                let none: Vec<String> = Vec::new();
                assert(text::texts(none@) =~= Seq::empty());
                SearchPlan::Combined(plan_hybrid(none, query.limit, query.related_to))
            } else {
                SearchPlan::Vectors { width: search_width(query.limit) }
            }
        },
        SearchType::Keyword => SearchPlan::Words { tokens: tokenize(query.query.as_str()) },
        SearchType::Hybrid => {
            let tokens = tokenize(query.query.as_str());
            SearchPlan::Combined(plan_hybrid(tokens, query.limit, query.related_to))
        },
    }
}

/// A memory is a hit exactly if it was loaded, is not put away and is wanted; the hit is
/// that memory, with the score that it was given.
pub proof fn law_hit(loaded: Option<types::StoredView>, score: u32, filters: MemoryFilters)
    ensures
        hit_of(loaded, score, filters) is Some <==> loaded is Some && !loaded->Some_0.archived
            && memory_manager::matching(loaded->Some_0, filters),
        hit_of(loaded, score, filters) matches Some(h) ==> loaded == Some(h.stored) && h.score
            == score && !h.stored.archived,
{
}

/// The hits among the results of a search by vectors are all memories among them that are
/// wanted and not put away, in their order and with their scores.
pub proof fn law_shown_among(results: Seq<ResultView>, filters: MemoryFilters)
    ensures
        shown_among(results, filters) == results.filter(
            |r: ResultView|
                r.loaded is Some && !r.loaded->Some_0.archived && memory_manager::matching(
                    r.loaded->Some_0,
                    filters,
                ),
        ).map_values(|r: ResultView| HitView { stored: r.loaded->Some_0, score: r.score }),
    decreases results.len(),
{
    reveal(Seq::filter);
    if results.len() > 0 {
        law_shown_among(results.drop_last(), filters);
        assert(shown_among(results, filters) =~= results.filter(
            |r: ResultView|
                r.loaded is Some && !r.loaded->Some_0.archived && memory_manager::matching(
                    r.loaded->Some_0,
                    filters,
                ),
        ).map_values(|r: ResultView| HitView { stored: r.loaded->Some_0, score: r.score }));
    }
}

/// The hits among the results of a combined search are all results whose key is that of
/// a memory that is wanted and not put away, in their order and with their scores.
pub proof fn law_hits_among(results: Seq<ResultView>, filters: MemoryFilters)
    ensures
        hits_among(results, filters) == results.filter(
            |r: ResultView|
                is_memory_key(r.key) && r.loaded is Some && !r.loaded->Some_0.archived
                    && memory_manager::matching(r.loaded->Some_0, filters),
        ).map_values(|r: ResultView| HitView { stored: r.loaded->Some_0, score: r.score }),
    decreases results.len(),
{
    reveal(Seq::filter);
    if results.len() > 0 {
        law_hits_among(results.drop_last(), filters);
        assert(hits_among(results, filters) =~= results.filter(
            |r: ResultView|
                is_memory_key(r.key) && r.loaded is Some && !r.loaded->Some_0.archived
                    && memory_manager::matching(r.loaded->Some_0, filters),
        ).map_values(|r: ResultView| HitView { stored: r.loaded->Some_0, score: r.score }));
    }
}

/// The results of the search by tags that are hits are all those whose key is that of a
/// memory that is wanted and not put away, in their order.
pub proof fn law_tagged_among(results: Seq<ResultView>, filters: MemoryFilters)
    ensures
        tagged_among(results, filters) == results.filter(
            |r: ResultView|
                is_memory_key(r.key) && r.loaded is Some && !r.loaded->Some_0.archived
                    && memory_manager::matching(r.loaded->Some_0, filters),
        ),
    decreases results.len(),
{
    reveal(Seq::filter);
    if results.len() > 0 {
        law_tagged_among(results.drop_last(), filters);
    }
}

/// The memories that are hits when all are looked through are all those that were not
/// found by their tags, are wanted, are not put away and have a token in their content,
/// in their order.
pub proof fn law_scanned_among(
    search: KeywordView,
    results: Seq<ResultView>,
    filters: MemoryFilters,
)
    ensures
        scanned_among(search, results, filters) == results.filter(
            |r: ResultView|
                !search.seen.contains(r.key) && r.loaded is Some && !r.loaded->Some_0.archived
                    && memory_manager::matching(r.loaded->Some_0, filters) && matches_in(
                    search.tokens,
                    text::lowered(r.loaded->Some_0.content),
                ) >= 1,
        ),
    decreases results.len(),
{
    reveal(Seq::filter);
    if results.len() > 0 {
        law_scanned_among(search, results.drop_last(), filters);
    }
}

/// Whether no hit is a memory that is put away or is not wanted.
pub open spec fn all_wanted(hits: Seq<HitView>, filters: MemoryFilters) -> bool {
    forall|i: int|
        0 <= i < hits.len() ==> !(#[trigger] hits[i]).stored.archived && memory_manager::matching(
            hits[i].stored,
            filters,
        )
}

/// No search finds a memory that is put away, or one that is not wanted: not by vectors,
/// not by all that is known of memories, and not by words.
pub proof fn law_no_search_finds_what_is_put_away(
    tokens: Seq<Seq<char>>,
    tagged: Seq<ResultView>,
    scanned: Seq<ResultView>,
    filters: MemoryFilters,
    limit: usize,
    i: int,
)
    ensures
        0 <= i < found_by_vectors(tagged, filters, limit).len() ==> {
            let stored = found_by_vectors(tagged, filters, limit)[i].stored;
            !stored.archived && memory_manager::matching(stored, filters)
        },
        0 <= i < collected(tagged, filters, limit).len() ==> {
            let stored = collected(tagged, filters, limit)[i].stored;
            !stored.archived && memory_manager::matching(stored, filters)
        },
        0 <= i < keyword_results(tokens, tagged, scanned, filters, limit).len() ==> {
            let stored = keyword_results(tokens, tagged, scanned, filters, limit)[i].stored;
            !stored.archived && memory_manager::matching(stored, filters)
        },
{
    broadcast use vstd::seq_lib::group_filter_ensures;

    law_shown_among(tagged, filters);
    law_hits_among(tagged, filters);
    let found = keyword_found(tokens, tagged, scanned, filters, limit);
    let hits = result_hits(found);
    law_keyword_results(tokens, tagged, scanned, filters, limit);
    assert forall|k: int| 0 <= k < hits.len() implies !(#[trigger] hits[k]).stored.archived
        && memory_manager::matching(hits[k].stored, filters) by {
        assert(hits[k].stored == found[k].loaded->Some_0);
    }
    lemma_ranked_keeps(hits);
    let results = keyword_results(tokens, tagged, scanned, filters, limit);
    if 0 <= i < results.len() {
        let best = ranked(hits);
        assert(results[i] == best[i]);
        assert(best.contains(best[i]));
        vstd::seq_lib::to_multiset_contains(best, best[i]);
        vstd::seq_lib::to_multiset_contains(hits, best[i]);
        let k = choose|k: int| 0 <= k < hits.len() && hits[k] == best[i];
        assert(hits[k] == best[i]);
    }
}

/// What a search holds stays free of memories that are put away or not wanted, whatever
/// it is offered.
pub proof fn law_searches_stay_free_of_what_is_put_away(
    search: KeywordView,
    hits: Seq<HitView>,
    limit: usize,
    result: ResultView,
    filters: MemoryFilters,
)
    requires
        all_wanted(search.hits, filters),
        all_wanted(hits, filters),
    ensures
        all_wanted(with_hit(hits, limit, hit_of(result.loaded, result.score, filters)), filters),
        all_wanted(with_hit(hits, limit, result.hit(filters)), filters),
        all_wanted(search.after_tagged(result, filters).hits, filters),
        all_wanted(search.after_scanned(result, filters).hits, filters),
        result.loaded is None || result.loaded->Some_0.archived ==> {
            &&& with_hit(hits, limit, hit_of(result.loaded, result.score, filters)) == hits
            &&& search.after_tagged(result, filters) == search
            &&& search.after_scanned(result, filters) == search
        },
{
    law_hit(result.loaded, result.score, filters);
}

/// Putting a hit into a list loses nothing and adds nothing, whatever the scores are.
proof fn lemma_placed_keeps(sorted: Seq<HitView>, hit: HitView)
    ensures
        placed(sorted, hit).to_multiset() == sorted.to_multiset().insert(hit),
    decreases sorted.len(),
{
    broadcast use vstd::seq_lib::group_to_multiset_ensures;

    if sorted.len() > 0 && float::less(sorted.last().score, hit.score) {
        let init = sorted.drop_last();
        lemma_placed_keeps(init, hit);
        assert(sorted =~= init.push(sorted.last()));
        assert(placed(sorted, hit).to_multiset() =~= sorted.to_multiset().insert(hit));
    }
}

/// Ranking loses nothing and adds nothing, whatever the scores are.
proof fn lemma_ranked_keeps(hits: Seq<HitView>)
    ensures
        ranked(hits).to_multiset() == hits.to_multiset(),
    decreases hits.len(),
{
    broadcast use vstd::seq_lib::group_to_multiset_ensures;

    if hits.len() > 0 {
        lemma_ranked_keeps(hits.drop_last());
        lemma_placed_keeps(ranked(hits.drop_last()), hits.last());
        assert(hits =~= hits.drop_last().push(hits.last()));
    }
}

/// A hit that is put into a list comes behind those of the same score.
proof fn lemma_placed_stable(sorted: Seq<HitView>, hit: HitView, rank: int)
    requires
        scored(sorted),
        !float::is_nan(hit.score),
    ensures
        placed(sorted, hit).filter(|h: HitView| float::rank(h.score) == rank) == sorted.push(
            hit,
        ).filter(|h: HitView| float::rank(h.score) == rank),
    decreases sorted.len(),
{
    let at = |h: HitView| float::rank(h.score) == rank;
    reveal(Seq::filter);
    if sorted.len() > 0 && float::less(sorted.last().score, hit.score) {
        let init = sorted.drop_last();
        let last = sorted.last();
        assert forall|i: int| 0 <= i < init.len() implies !float::is_nan(
            (#[trigger] init[i]).score,
        ) by {
            assert(init[i] == sorted[i]);
        }
        lemma_placed_stable(init, hit, rank);
        let inner = placed(init, hit);
        assert(sorted =~= init.push(last));
        assert(!float::is_nan(sorted[sorted.len() - 1].score));
        assert(float::rank(last.score) < float::rank(hit.score));
        lemma_filter_push(inner, last, at);
        lemma_filter_push(init, hit, at);
        lemma_filter_push(init, last, at);
        lemma_filter_push(sorted, hit, at);
        assert(placed(sorted, hit) == inner.push(last));
    }
}

/// What is left of a list with one more hit.
proof fn lemma_filter_push(hits: Seq<HitView>, hit: HitView, wanted: spec_fn(HitView) -> bool)
    ensures
        hits.push(hit).filter(wanted) == (if wanted(hit) {
            hits.filter(wanted).push(hit)
        } else {
            hits.filter(wanted)
        }),
{
    reveal(Seq::filter);
    assert(hits.push(hit).drop_last() =~= hits);
}

/// Hits of the same score keep the order in which they were found.
pub proof fn law_ranking_is_stable(hits: Seq<HitView>, rank: int)
    requires
        scored(hits),
    ensures
        ranked(hits).filter(|h: HitView| float::rank(h.score) == rank) == hits.filter(
            |h: HitView| float::rank(h.score) == rank,
        ),
    decreases hits.len(),
{
    let at = |h: HitView| float::rank(h.score) == rank;
    reveal(Seq::filter);
    if hits.len() > 0 {
        let init = hits.drop_last();
        assert forall|i: int| 0 <= i < init.len() implies !float::is_nan(
            (#[trigger] init[i]).score,
        ) by {
            assert(init[i] == hits[i]);
        }
        law_ranked(init);
        law_ranking_is_stable(init, rank);
        assert(!float::is_nan(hits[hits.len() - 1].score));
        lemma_placed_stable(ranked(init), hits.last(), rank);
        let some = ranked(init);
        assert(some.push(hits.last()).drop_last() =~= some);
        assert(ranked(hits).filter(at) =~= hits.filter(at));
    }
}

/// Of the memories that a search by words finds, the best are returned: as many as are
/// wanted, if so many were found, and none that is left out is better than one of them.
pub proof fn law_best_are_returned(
    tokens: Seq<Seq<char>>,
    tagged: Seq<ResultView>,
    scanned: Seq<ResultView>,
    filters: MemoryFilters,
    limit: usize,
)
    requires
        tokens.len() > 0,
    ensures
        ({
            let hits = result_hits(keyword_found(tokens, tagged, scanned, filters, limit));
            let results = keyword_results(tokens, tagged, scanned, filters, limit);
            &&& hits.len() <= limit ==> results.to_multiset() == hits.to_multiset()
            &&& limit <= hits.len() ==> results.len() == limit
            &&& scored(hits) ==> forall|i: int, j: int|
                0 <= i < results.len() <= j < hits.len() ==> !float::less(
                    (#[trigger] results[i]).score,
                    (#[trigger] ranked(hits)[j]).score,
                )
            &&& scored(hits) ==> best_first(results)
        }),
{
    broadcast use vstd::seq_lib::group_to_multiset_ensures;

    let hits = result_hits(keyword_found(tokens, tagged, scanned, filters, limit));
    lemma_ranked_keeps(hits);
    assert(ranked(hits).len() == ranked(hits).to_multiset().len());
    assert(hits.len() == hits.to_multiset().len());
    if scored(hits) {
        law_ranked(hits);
    }
}

/// A search by words that did not stop early has found every memory that it was to find:
/// each that its tags have led to, and, if these were too few, each other one with a
/// token in its content.
pub proof fn law_words_leave_none_out(
    tokens: Seq<Seq<char>>,
    tagged: Seq<ResultView>,
    scanned: Seq<ResultView>,
    filters: MemoryFilters,
    limit: usize,
    i: int,
)
    requires
        keyword_found(tokens, tagged, scanned, filters, limit).len() < words_most(limit),
    ensures
        ({
            let found = keyword_found(tokens, tagged, scanned, filters, limit);
            &&& 0 <= i < tagged.len() && is_memory_key(tagged[i].key) && tagged[i].loaded is Some
                && !tagged[i].loaded->Some_0.archived && memory_manager::matching(
                tagged[i].loaded->Some_0,
                filters,
            ) ==> found.contains(tagged[i])
            &&& 0 <= i < scanned.len() && found.len() < limit && scanned[i].loaded is Some
                && !scanned[i].loaded->Some_0.archived && memory_manager::matching(
                scanned[i].loaded->Some_0,
                filters,
            ) && matches_in(tokens, text::lowered(scanned[i].loaded->Some_0.content)) >= 1
                ==> result_keys(found).contains(scanned[i].key)
        }),
{
    broadcast use vstd::seq_lib::group_filter_ensures;

    let found = keyword_found(tokens, tagged, scanned, filters, limit);
    let all = tagged_among(tagged, filters);
    let first = connection_manager::first_of(all, words_most(limit));
    let search = found_by_tags(tokens, limit, first);
    let more = scanned_among(search, scanned, filters);
    law_tagged_among(tagged, filters);
    law_scanned_among(search, scanned, filters);
    assert(first == all);
    if 0 <= i < tagged.len() && all.contains(tagged[i]) {
        let k = choose|k: int| 0 <= k < all.len() && all[k] == tagged[i];
        assert(found[k] == tagged[i]);
    }
    if 0 <= i < scanned.len() && found.len() < limit {
        assert(found == first + more);
        if search.seen.contains(scanned[i].key) {
            let k = choose|k: int| 0 <= k < search.seen.len() && search.seen[k] == scanned[i].key;
            assert(result_keys(found)[k] == scanned[i].key);
        } else if more.contains(scanned[i]) {
            let k = choose|k: int| 0 <= k < more.len() && more[k] == scanned[i];
            assert(result_keys(found)[first.len() + k] == scanned[i].key);
        }
    }
}

/// Callers get the hits, one for one, each with its score and what is stored of it.
pub proof fn law_results(results: Seq<SearchResult>, hits: Seq<HitView>, now: i64, i: int)
    requires
        results_of(results, hits, now),
        0 <= i < hits.len(),
    ensures
        results.len() == hits.len(),
        results[i].score == hits[i].score,
        results[i].memory.id == hits[i].stored.id,
        results[i].memory.content@ == hits[i].stored.content,
        results[i].memory.is_of(hits[i].stored, Seq::empty(), now),
{
}

/// Bytes occur in all bytes that have them somewhere, and only there.
pub proof fn law_occurs(needle: Seq<u8>, hay: Seq<u8>, a: Seq<u8>, b: Seq<u8>)
    ensures
        occurs(needle, a + needle + b),
        occurs(needle, hay) ==> exists|i: int|
            0 <= i <= hay.len() - needle.len() && #[trigger] hay.take(i) + needle + hay.skip(
                i + needle.len(),
            ) == hay,
{
    let whole = a + needle + b;
    let n = a.len() as int;
    assert(whole.subrange(n, n + needle.len()) =~= needle);
    if occurs(needle, hay) {
        let i = choose|i: int|
            0 <= i && i + needle.len() <= hay.len() && #[trigger] hay.subrange(
                i,
                i + needle.len(),
            ) == needle;
        assert(hay =~= hay.take(i) + hay.subrange(i, i + needle.len()) + hay.skip(
            i + needle.len(),
        ));
        assert(hay.take(i) + needle + hay.skip(i + needle.len()) == hay);
    }
}

/// As many tokens match as occur in the content.
pub proof fn law_matches(tokens: Seq<Seq<char>>, content: Seq<char>)
    ensures
        matches_in(tokens, content) == tokens.filter(
            |t: Seq<char>|
                occurs(vstd::utf8::encode_utf8(t), vstd::utf8::encode_utf8(content)),
        ).len(),
    decreases tokens.len(),
{
    reveal(Seq::filter);
    if tokens.len() > 0 {
        law_matches(tokens.drop_last(), content);
    }
}

/// The words of a query are its words, one for one, in lower case.
pub proof fn law_query_tokens(words: Seq<Seq<char>>)
    ensures
        query_tokens(words).len() == words.len(),
        forall|i: int|
            0 <= i < words.len() ==> #[trigger] query_tokens(words)[i] == text::lowered(words[i]),
{
}

/// How many vectors and memories are looked at: three vectors for each memory that is
/// wanted, and twenty at least; as many memories as are wanted, and one at least; and
/// three times as many for a search by words.
pub proof fn law_widths(limit: usize, view: KeywordView)
    ensures
        width_of(limit) >= 20,
        width_of(limit) >= limit * 3,
        width_of(limit) == 20 || width_of(limit) == limit * 3,
        limit >= 1 ==> vectors_most(limit) == limit && words_most(limit) == limit * 3,
        vectors_most(0) == 1,
        words_most(0) == 1,
        view.full() <==> view.hits.len() >= view.limit * 3,
{
}

/// A search goes on exactly as long as too few memories were found and vectors are left,
/// with twice as many vectors or all of them.
pub proof fn law_widening(width: usize, found: usize, limit: usize, vectors: usize)
    ensures
        wider(width, found, limit, vectors) is Some <==> found < limit && (width < vectors || width
            == 0),
        wider(width, found, limit, vectors) matches Some(w) ==> {
            &&& width * 2 < vectors && vectors > 1 ==> w == width * 2
            &&& vectors <= width * 2 && vectors > 1 ==> w == vectors
        },
{
}

/// A key begins like that of a memory exactly if its text has the prefix of all keys.
pub proof fn law_memory_key(rest: Seq<char>, other: Seq<char>)
    ensures
        is_memory_key(vstd::utf8::encode_utf8("memory:"@ + rest)),
        is_memory_key(vstd::utf8::encode_utf8(other)) ==> other.len() >= "memory:"@.len()
            && other.take("memory:"@.len() as int) == "memory:"@,
{
    text::lemma_text_roundtrip("memory:"@ + rest);
    text::lemma_text_roundtrip(other);
    assert("memory:"@.is_prefix_of("memory:"@ + rest));
    if is_memory_key(vstd::utf8::encode_utf8(other)) {
        assert(other.take("memory:"@.len() as int) =~= "memory:"@);
    }
}

/// A combined search looks for the tokens of its query and prefers the neighbours of the
/// memory that it was given, two steps far.
pub proof fn law_hybrid_plan(
    plan: HybridPlan,
    tokens: Seq<Seq<char>>,
    limit: usize,
    related_to: Option<u128>,
)
    requires
        plan.is_for(tokens, limit, related_to),
    ensures
        plan.width == width_of(limit),
        plan.tags@.len() == tokens.len(),
        forall|i: int| 0 <= i < tokens.len() ==> (#[trigger] plan.tags@[i])@ == tokens[i],
        related_to is None <==> plan.context is None,
        related_to matches Some(id) ==> plan.context->Some_0.0@ == types::key_text(id)
            && plan.context->Some_0.1 == 2,
{
    assert forall|i: int| 0 <= i < tokens.len() implies (#[trigger] plan.tags@[i])@
        == tokens[i] by {
        assert(text::texts(plan.tags@)[i] == tokens[i]);
    }
}

/// What hits and keys are is what each of them is, in their order.
pub proof fn law_list_views(hits: Seq<Hit>, keys: Seq<Vec<u8>>, i: int)
    ensures
        hit_views(hits).len() == hits.len(),
        0 <= i < hits.len() ==> hit_views(hits)[i] == hits[i]@,
        key_views(keys).len() == keys.len(),
        0 <= i < keys.len() ==> key_views(keys)[i] == keys[i]@,
{
}

/// What was loaded of a memory is what it says, and nothing where there is none.
pub proof fn law_loaded_view(loaded: Option<StoredMemory>)
    ensures
        loaded is None <==> loaded_view(loaded) is None,
        loaded matches Some(stored) ==> loaded_view(loaded) == Some(stored@),
{
}

/// A search by words takes a memory in exactly if it is wanted and can be loaded: it
/// comes behind the hits before it. One that was found by its tags is noted by its key,
/// so that it is not found again by its content.
pub proof fn law_offered_by_words(
    search: KeywordView,
    result: ResultView,
    filters: MemoryFilters,
)
    ensures
        ({
            let there = result.loaded is Some && !result.loaded->Some_0.archived
                && memory_manager::matching(result.loaded->Some_0, filters);
            let hit = HitView { stored: result.loaded->Some_0, score: result.score };
            let tagged = search.after_tagged(result, filters);
            let scanned = search.after_scanned(result, filters);
            &&& there && is_memory_key(result.key) ==> {
                &&& tagged.hits == search.hits.push(hit)
                &&& tagged.seen == search.seen.push(result.key)
            }
            &&& !there || !is_memory_key(result.key) ==> tagged == search
            &&& there && !search.seen.contains(result.key) && matches_in(
                search.tokens,
                text::lowered(result.loaded->Some_0.content),
            ) > 0 ==> scanned.hits == search.hits.push(hit) && scanned.seen == search.seen
            &&& !there || search.seen.contains(result.key) || matches_in(
                search.tokens,
                text::lowered(result.loaded->Some_0.content),
            ) == 0 ==> scanned == search
            &&& tagged.tokens == search.tokens && tagged.limit == search.limit
            &&& scanned.tokens == search.tokens && scanned.limit == search.limit
        }),
{
    law_hit(result.loaded, result.score, filters);
}

} // verus!
