//! How memories age: they expire or are promoted, lose importance and health, are
//! forgotten and finally removed.
use crate::engine::storage::index;
use crate::engine::text;
use crate::engine::util::float;
use crate::error::AppError;
use crate::services::memory_manager;
use crate::services::types;
use crate::services::types::{MemoryType, StoredMemory};
use vstd::prelude::*;

verus! {

/// The milliseconds of a day.
pub const DAY_MS: u64 = 86400000;

/// The accesses from which on an expired memory is promoted.
pub const PROMOTE_THRESHOLD: u32 = 3;

/// What importance is multiplied with per day: 0.995.
pub const DAILY_IMPORTANCE_FACTOR: u32 = 0x3F7EB852;

/// The health that a short-term memory loses per day: 8.
pub const SHORT_TERM_DAILY_LOSS: u32 = 0x41000000;

/// The health that a long-term memory loses per day: 2.
pub const LONG_TERM_DAILY_LOSS: u32 = 0x40000000;

/// The rules by which memories age.
#[derive(Clone, Copy, PartialEq, Eq, Structural, Debug)]
pub struct LifecycleManager {
    /// The accesses from which on an expired memory is promoted.
    pub promote_threshold: u32,
    /// Whether a forgotten memory is removed at once; else it is put away.
    pub hard_delete_on_forgetting: bool,
}

/// What becomes of a memory when short-term memories expire.
#[derive(Clone, Copy, PartialEq, Eq, Structural, Debug)]
pub enum ExpiryAction {
    /// The memory stays as it is.
    Skip,
    /// The memory becomes long-term.
    Promote,
    /// The memory is put away.
    Archive,
}

/// What becomes of a memory when its health ages.
#[derive(Clone, Copy, PartialEq, Eq, Structural, Debug)]
pub enum ForgettingAction {
    /// The memory is stored with its new health.
    Keep,
    /// The memory is put away.
    Archive,
    /// The memory is removed.
    Delete,
}

impl types::StoredView {
    /// The memory after it was promoted.
    pub open spec fn promoted(self, now: u64) -> types::StoredView {
        types::StoredView {
            memory_type: MemoryType::LongTerm,
            metadata: types::MetadataView { ttl: None, updated_at: now, ..self.metadata },
            ..self
        }
    }

    /// Whether the memory is protected from ageing.
    pub open spec fn protected(self, now: u64) -> bool {
        self.metadata.flashbulb_until matches Some(until) && until > now
    }

    /// The whole days since a time.
    pub open spec fn days_since(then: u64, now: u64) -> u64 {
        if now >= then {
            ((now - then) / DAY_MS as int) as u64
        } else {
            0
        }
    }

    /// The whole days for which the importance has not aged.
    pub open spec fn decay_days(self, now: u64) -> u64 {
        types::StoredView::days_since(
            match self.metadata.last_decay_at {
                Some(t) => t,
                None => self.metadata.created_at,
            },
            now,
        )
    }

    /// Whether the importance of the memory ages now.
    pub open spec fn decays(self, now: u64) -> bool {
        &&& !self.archived
        &&& self.memory_type == MemoryType::LongTerm
        &&& !self.protected(now)
        &&& self.decay_days(now) > 0
    }

    /// The memory after its importance has aged to `importance`.
    pub open spec fn decayed(self, now: u64, importance: u32) -> types::StoredView {
        types::StoredView {
            metadata: types::MetadataView {
                importance: float::larger(importance, float::ZERO),
                last_decay_at: Some(now),
                ..self.metadata
            },
            ..self
        }
    }

    /// When the memory was last recalled, or its health last aged: the later of the
    /// two. A change of the memory does not count.
    pub open spec fn last_strong(self) -> u64 {
        let recalled = match self.metadata.last_recalled_at {
            Some(t) => t,
            None => self.metadata.accessed_at,
        };
        let checked = match self.metadata.last_health_check_at {
            Some(t) => t,
            None => self.metadata.created_at,
        };
        if recalled > checked {
            recalled
        } else {
            checked
        }
    }

    /// Whether the health of the memory ages now.
    pub open spec fn weakens(self, now: u64) -> bool {
        &&& !self.archived
        &&& !self.protected(now)
        &&& types::StoredView::days_since(self.last_strong(), now) > 0
    }

    /// The memory after its health has aged to `health`.
    pub open spec fn weakened(self, now: u64, health: u32) -> types::StoredView {
        types::StoredView {
            metadata: types::MetadataView {
                health: float::clamped(health, float::ZERO, float::HUNDRED),
                last_health_check_at: Some(now),
                ..self.metadata
            },
            ..self
        }
    }
}

/// Whether a memory of such a health is forgotten.
pub open spec fn is_forgotten(health: u32) -> bool {
    !float::is_nan(health) && float::rank(health) <= 0
}

/// The whole days from one time to another.
fn days_between(then: u64, now: u64) -> (r: u64)
    ensures
        r == types::StoredView::days_since(then, now),
{
    now.saturating_sub(then) / DAY_MS
}

/// Whether promoting a memory leaves it as `after` and replaces its tags in the index
/// by `tags`.
pub open spec fn promotes(
    before: types::StoredView,
    after: types::StoredView,
    tags: Option<Vec<String>>,
    now: u64,
) -> bool {
    if before.memory_type == MemoryType::LongTerm {
        tags is None && after == before
    } else {
        &&& after == before.promoted(now)
        &&& tags matches Some(t) && text::texts(t@) == before.metadata.tags.push(
            memory_manager::type_tag(MemoryType::LongTerm),
        )
    }
}

impl LifecycleManager {
    /// The usual rules.
    pub fn new(hard_delete_on_forgetting: bool) -> (r: Self)
        ensures
            r == (LifecycleManager {
                promote_threshold: PROMOTE_THRESHOLD,
                hard_delete_on_forgetting,
            }),
            r.promote_threshold == 3,
    {
        LifecycleManager { promote_threshold: PROMOTE_THRESHOLD, hard_delete_on_forgetting }
    }

    /// Promotes a memory that was loaded, and gives the tags that replace those in the
    /// index. A memory that is long-term already stays as it is; one that is not there
    /// or is put away is not found.
    pub fn promote(&self, id: u128, loaded: Option<StoredMemory>, now: u64) -> (r: Result<
        (StoredMemory, Option<Vec<String>>),
        AppError,
    >)
        ensures
            if memory_manager::is_there(loaded) {
                r is Ok && promotes(loaded->Some_0@, r->Ok_0.0@, r->Ok_0.1, now)
            } else {
                r == Err::<(StoredMemory, Option<Vec<String>>), AppError>(AppError::NotFound(id))
            },
            r is Ok <==> loaded is Some && !loaded->Some_0.archived,
            r is Ok ==> {
                let stored = r->Ok_0.0;
                &&& stored.memory_type == MemoryType::LongTerm
                &&& stored.id == loaded->Some_0.id
                &&& stored.content@ == loaded->Some_0.content@
                &&& loaded->Some_0.memory_type == MemoryType::ShortTerm ==> stored.metadata.ttl
                    is None && r->Ok_0.1 is Some
            },
    {
        match memory_manager::found(id, loaded) {
            Ok(mut stored) => {
                let tags = self.make_long_term(&mut stored, now);
                Ok((stored, tags))
            },
            Err(e) => Err(e),
        }
    }

    /// Makes a memory long-term, and gives the tags that replace those in the index. A
    /// memory that is long-term already stays as it is.
    pub fn make_long_term(&self, stored: &mut StoredMemory, now: u64) -> (r: Option<Vec<String>>)
        ensures
            promotes(old(stored)@, final(stored)@, r, now),
    {
        match stored.memory_type {
            MemoryType::LongTerm => None,
            MemoryType::ShortTerm => {
                stored.memory_type = MemoryType::LongTerm;
                stored.metadata.ttl = None;
                stored.metadata.updated_at = now;
                let mut tags = index::copy_texts(&stored.metadata.tags);
                let ghost given = text::texts(tags@);
                tags.push(memory_manager::tag_of_type(MemoryType::LongTerm));
                assert(text::texts(tags@) =~= given.push(
                    memory_manager::type_tag(MemoryType::LongTerm),
                ));
                Some(tags)
            },
        }
    }

    /// What becomes of a memory that may have expired: one that was accessed often
    /// is promoted, another put away.
    pub fn expire_short_term(&self, stored: &StoredMemory, now: u64) -> (r: ExpiryAction)
        ensures
            r == (if stored.archived || !stored@.expired(now) {
                ExpiryAction::Skip
            } else if stored.metadata.access_count >= self.promote_threshold {
                ExpiryAction::Promote
            } else {
                ExpiryAction::Archive
            }),
    {
        if stored.archived || !stored.is_expired_at(now) {
            ExpiryAction::Skip
        } else if stored.metadata.access_count >= self.promote_threshold {
            ExpiryAction::Promote
        } else {
            ExpiryAction::Archive
        }
    }

    /// The days for which the importance of a memory is to age, if it is to age.
    pub fn importance_decay_days(&self, stored: &StoredMemory, now: u64) -> (r: Option<u64>)
        ensures
            r == (if stored@.decays(now) {
                Some(stored@.decay_days(now))
            } else {
                None
            }),
    {
        if stored.archived {
            return None;
        }
        match stored.memory_type {
            MemoryType::ShortTerm => {
                return None;
            },
            MemoryType::LongTerm => {},
        }
        if let Some(until) = stored.metadata.flashbulb_until {
            if until > now {
                return None;
            }
        }
        let last: u64 = match stored.metadata.last_decay_at {
            Some(t) => t,
            None => stored.metadata.created_at,
        };
        let days: u64 = days_between(last, now);
        if days == 0 {
            None
        } else {
            Some(days)
        }
    }

    /// Sets the importance to which a memory has aged.
    pub fn apply_importance_decay(&self, stored: &mut StoredMemory, now: u64, importance: u32)
        ensures
            final(stored)@ == old(stored)@.decayed(now, importance),
            importance <= 0x7F800000 ==> final(stored).metadata.importance == importance,
            0x80000000 < importance <= 0xFF800000 ==> final(stored).metadata.importance == 0,
            final(stored).metadata.last_decay_at == Some(now),
            final(stored).metadata.health == old(stored).metadata.health,
            final(stored).id == old(stored).id,
            final(stored).content == old(stored).content,
    {
        stored.metadata.importance = float::max(importance, float::ZERO);
        stored.metadata.last_decay_at = Some(now);
    }

    /// The days for which the health of a memory is to age, if it is to age.
    pub fn forgetting_days(&self, stored: &StoredMemory, now: u64) -> (r: Option<u64>)
        ensures
            r == (if stored@.weakens(now) {
                Some(types::StoredView::days_since(stored@.last_strong(), now))
            } else {
                None
            }),
    {
        if stored.archived {
            return None;
        }
        if let Some(until) = stored.metadata.flashbulb_until {
            if until > now {
                return None;
            }
        }
        let recalled: u64 = match stored.metadata.last_recalled_at {
            Some(t) => t,
            None => stored.metadata.accessed_at,
        };
        let checked: u64 = match stored.metadata.last_health_check_at {
            Some(t) => t,
            None => stored.metadata.created_at,
        };
        let last: u64 = if recalled > checked {
            recalled
        } else {
            checked
        };
        let days: u64 = days_between(last, now);
        if days == 0 {
            None
        } else {
            Some(days)
        }
    }

    /// The health that a memory loses per day.
    pub fn daily_loss(&self, memory_type: MemoryType) -> (r: u32)
        ensures
            r == (match memory_type {
                MemoryType::ShortTerm => SHORT_TERM_DAILY_LOSS,
                MemoryType::LongTerm => LONG_TERM_DAILY_LOSS,
            }),
            memory_type == MemoryType::ShortTerm ==> r == 0x41000000,
            memory_type == MemoryType::LongTerm ==> r == 0x40000000,
    {
        match memory_type {
            MemoryType::ShortTerm => SHORT_TERM_DAILY_LOSS,
            MemoryType::LongTerm => LONG_TERM_DAILY_LOSS,
        }
    }

    /// Sets the health to which a memory has aged. One that has no health left is
    /// forgotten: it is put away, or removed if the rules say so.
    pub fn active_forgetting(&self, stored: &mut StoredMemory, now: u64, health: u32) -> (r:
        ForgettingAction)
        ensures
            ({
                let weak = old(stored)@.weakened(now, health);
                if !is_forgotten(weak.metadata.health) {
                    r == ForgettingAction::Keep && final(stored)@ == weak
                } else if self.hard_delete_on_forgetting {
                    r == ForgettingAction::Delete && final(stored)@ == weak
                } else {
                    r == ForgettingAction::Archive && final(stored)@ == weak.put_away(now)
                }
            }),
            0 < health <= 0x7F800000 ==> r == ForgettingAction::Keep,
            health == 0 || 0x80000000 <= health <= 0xFF800000 ==> r == (
            if self.hard_delete_on_forgetting {
                ForgettingAction::Delete
            } else {
                ForgettingAction::Archive
            }),
            health <= 0x42C80000 ==> final(stored).metadata.health == health,
            final(stored).archived <==> r == ForgettingAction::Archive || old(stored).archived,
            final(stored).metadata.last_health_check_at == Some(now),
            final(stored).id == old(stored).id,
            final(stored).content == old(stored).content,
    {
        stored.metadata.health = float::clamp(health, float::ZERO, float::HUNDRED);
        stored.metadata.last_health_check_at = Some(now);
        if !float::at_least(float::ZERO, stored.metadata.health) {
            return ForgettingAction::Keep;
        }
        if self.hard_delete_on_forgetting {
            return ForgettingAction::Delete;
        }
        memory_manager::archive(stored, now);
        ForgettingAction::Archive
    }

    /// The places of the memories that are to be put away, since an earlier one has the
    /// same content. As many are put away as there are places.
    pub fn consolidate_similar(&self, loaded: &Vec<StoredMemory>) -> (r: Vec<usize>)
        ensures
            are_repeated(r@, types::stored_views(loaded@)),
    {
        let ghost all = types::stored_views(loaded@);
        let mut out: Vec<usize> = Vec::new();
        let mut i: usize = 0;
        while i < loaded.len()
            invariant
                i <= loaded@.len(),
                all == types::stored_views(loaded@),
                forall|k: int|
                    0 <= k < out@.len() ==> (#[trigger] out@[k]) < i && repeats(
                        all,
                        out@[k] as int,
                    ),
                forall|k: int, l: int|
                    0 <= k < l < out@.len() ==> (#[trigger] out@[k]) < (#[trigger] out@[l]),
                forall|j: int| 0 <= j < i && #[trigger] repeats(all, j) ==> is_place(out@, j),
            decreases loaded@.len() - i,
        {
            let ghost before = out@;
            if repeats_earlier(loaded, i) {
                out.push(i);
                proof {
                    assert forall|j: int|
                        0 <= j < i + 1 && #[trigger] repeats(all, j) implies is_place(out@, j) by {
                        if j == i {
                            assert(out@[before.len() as int] == i);
                        } else {
                            let k = choose|k: int| 0 <= k < before.len() && #[trigger] before[k] == j;
                            assert(out@[k] == j);
                        }
                    }
                }
            }
            i = i + 1;
        }
        out
    }

    /// Whether connections of a memory are looked for.
    pub fn discovers(&self, stored: &StoredMemory) -> (r: bool)
        ensures
            r == !stored.archived,
    {
        !stored.archived
    }

    /// Whether a memory that was put away is removed: it was put away at least so
    /// many days ago.
    pub fn cleanup_archived(&self, stored: &StoredMemory, now: u64, max_age_days: u64) -> (r: bool)
        ensures
            r == (stored.archived && stored.metadata.updated_at <= cutoff(now, max_age_days)),
            r ==> stored.archived,
            stored.archived && now - stored.metadata.updated_at >= max_age_days * 86400000 ==> r,
            r && now >= max_age_days * 86400000 ==> now - stored.metadata.updated_at >= max_age_days
                * 86400000,
    {
        let limit: u64 = match max_age_days.checked_mul(DAY_MS) {
            Some(age) => now.saturating_sub(age),
            None => 0,
        };
        stored.archived && stored.metadata.updated_at <= limit
    }
}

/// Whether a memory that is not put away has the content of an earlier one that is
/// not either.
pub open spec fn repeats(all: Seq<types::StoredView>, i: int) -> bool {
    &&& 0 <= i < all.len()
    &&& !all[i].archived
    &&& exists|j: int| 0 <= j < i && !(#[trigger] all[j]).archived && all[j].content == all[i].content
}

/// Whether `i` is one of some places.
pub open spec fn is_place(places: Seq<usize>, i: int) -> bool {
    exists|k: int| 0 <= k < places.len() && #[trigger] places[k] == i
}

/// Whether `places` are, in order, those of the memories that repeat earlier ones.
pub open spec fn are_repeated(places: Seq<usize>, all: Seq<types::StoredView>) -> bool {
    &&& forall|k: int| 0 <= k < places.len() ==> repeats(all, (#[trigger] places[k]) as int)
    &&& forall|k: int, l: int|
        0 <= k < l < places.len() ==> (#[trigger] places[k]) < (#[trigger] places[l])
    &&& forall|i: int| #[trigger] repeats(all, i) ==> is_place(places, i)
}

/// Whether a memory repeats an earlier one.
fn repeats_earlier(loaded: &Vec<StoredMemory>, i: usize) -> (r: bool)
    requires
        i < loaded@.len(),
    ensures
        r == repeats(types::stored_views(loaded@), i as int),
{
    let ghost all = types::stored_views(loaded@);
    if loaded[i].archived {
        return false;
    }
    let mut j: usize = 0;
    while j < i
        invariant
            j <= i < loaded@.len(),
            all == types::stored_views(loaded@),
            !all[i as int].archived,
            forall|k: int|
                0 <= k < j ==> (#[trigger] all[k]).archived || all[k].content
                    != all[i as int].content,
        decreases i - j,
    {
        if !loaded[j].archived && text::same_text(
            loaded[j].content.as_str(),
            loaded[i].content.as_str(),
        ) {
            assert(!all[j as int].archived);
            return true;
        }
        assert(all[j as int] == loaded@[j as int]@);
        j = j + 1;
    }
    false
}

/// The memories after those that repeat earlier ones were put away.
pub open spec fn consolidated(all: Seq<types::StoredView>, now: u64) -> Seq<types::StoredView> {
    Seq::new(
        all.len(),
        |i: int|
            if repeats(all, i) {
                all[i].put_away(now)
            } else {
                all[i]
            },
    )
}

/// Consolidation leaves at most one memory of each content, and loses no content: the
/// first memory of each that is not put away stays as it is. After it nothing is left
/// to be consolidated.
pub proof fn law_consolidation(all: Seq<types::StoredView>, now: u64, i: int, j: int)
    requires
        0 <= i < j < all.len(),
    ensures
        ({
            let left = consolidated(all, now);
            &&& left[i].content == left[j].content ==> left[i].archived || left[j].archived
            &&& !all[i].archived && (forall|k: int|
                0 <= k < i ==> (#[trigger] all[k]).archived || all[k].content != all[i].content)
                ==> left[i] == all[i]
            &&& !repeats(left, i)
            &&& !repeats(left, j)
        }),
{
    let left = consolidated(all, now);
    assert forall|a: int, b: int|
        0 <= a < b < all.len() && (#[trigger] left[a]).content == (
        #[trigger] left[b]).content implies left[a].archived || left[b].archived by {
        if !left[a].archived && !left[b].archived {
            assert(!all[a].archived && all[a].content == all[b].content);
            assert(repeats(all, b));
        }
    }
}

/// The time some days ago, but not before 1970.
pub open spec fn cutoff(now: u64, days: u64) -> int {
    if now >= days * DAY_MS {
        now - days * DAY_MS
    } else {
        0
    }
}

/// Ageing of the importance does not make a memory stronger or weaker: whether and
/// for how long its health ages stays the same.
pub proof fn law_decay_keeps_forgetting_clock(
    stored: types::StoredView,
    now: u64,
    importance: u32,
    later: u64,
)
    ensures
        stored.decayed(now, importance).last_strong() == stored.last_strong(),
        stored.decayed(now, importance).weakens(later) == stored.weakens(later),
{
}

/// Recalling a memory starts the ageing of its health anew.
pub proof fn law_recall_strengthens(stored: types::StoredView, now: u64, raised: u32, later: u64)
    requires
        later < now + DAY_MS,
    ensures
        !stored.recalled(now, raised).weakens(later),
{
    let s = stored.recalled(now, raised);
    assert(s.last_strong() >= now);
    if later >= s.last_strong() {
        assert((later - s.last_strong()) / DAY_MS as int == 0) by (nonlinear_arith)
            requires
                0 <= later - s.last_strong() < DAY_MS as int,
        ;
    }
}

/// A protected memory does not age, and ageing twice at one time is ageing once.
pub proof fn law_ageing(stored: types::StoredView, now: u64, importance: u32, health: u32)
    ensures
        stored.protected(now) ==> !stored.decays(now) && !stored.weakens(now),
        !stored.decayed(now, importance).decays(now),
        !stored.weakened(now, health).weakens(now),
{
    let s = stored.weakened(now, health);
    assert(s.last_strong() >= now);
    assert(types::StoredView::days_since(now, now) == 0) by {
        assert(0int / DAY_MS as int == 0);
    }
}

/// A memory that was promoted never expires.
pub proof fn law_promoted_never_expires(stored: types::StoredView, now: u64, later: u64)
    ensures
        !stored.promoted(now).expired(later),
{
}

/// The importance that a memory has aged to is its importance afterwards, and never
/// below 0; the ageing is noted, and nothing else of the memory changes.
pub proof fn law_importance_after_ageing(stored: types::StoredView, now: u64, importance: u32)
    ensures
        ({
            let after = stored.decayed(now, importance);
            let m = after.metadata;
            &&& importance <= 0x7F800000 ==> m.importance == importance
            &&& importance > 0x7F800000 ==> float::rank(m.importance) == 0 && !float::is_nan(
                m.importance,
            )
            &&& m.last_decay_at == Some(now)
            &&& after.id == stored.id
            &&& after.content == stored.content
            &&& after.memory_type == stored.memory_type
            &&& after.archived == stored.archived
            &&& m == (types::MetadataView {
                importance: m.importance,
                last_decay_at: Some(now),
                ..stored.metadata
            })
        }),
{
}

/// The health that a memory has aged to is its health afterwards, between 0 and 100; the
/// ageing is noted, and nothing else of the memory changes.
pub proof fn law_health_after_ageing(stored: types::StoredView, now: u64, health: u32)
    ensures
        ({
            let after = stored.weakened(now, health);
            let m = after.metadata;
            &&& health <= 0x42C80000 ==> m.health == health
            &&& 0x42C80000 < health <= 0x7F800000 ==> m.health == 0x42C80000
            &&& 0x80000000 < health <= 0xFF800000 ==> m.health == 0
            &&& m.last_health_check_at == Some(now)
            &&& after.id == stored.id
            &&& after.content == stored.content
            &&& after.memory_type == stored.memory_type
            &&& after.archived == stored.archived
            &&& m == (types::MetadataView {
                health: m.health,
                last_health_check_at: Some(now),
                ..stored.metadata
            })
        }),
{
}

/// A memory is forgotten when it has no health left, and not before.
pub proof fn law_forgotten(stored: types::StoredView, now: u64, health: u32)
    ensures
        ({
            let weak = stored.weakened(now, health).metadata.health;
            &&& 0 < health <= 0x7F800000 ==> !is_forgotten(weak)
            &&& health == 0 || 0x80000000 <= health <= 0xFF800000 ==> is_forgotten(weak)
        }),
{
}

/// Whole days are as many as fit between two times; none do if the second is not behind
/// the first.
pub proof fn law_days(then: u64, now: u64)
    ensures
        now < then ==> types::StoredView::days_since(then, now) == 0,
        now >= then ==> {
            let days = types::StoredView::days_since(then, now) as int;
            days * 86400000 <= now - then < (days + 1) * 86400000
        },
{
    if now >= then {
        let d = now - then;
        vstd::arithmetic::div_mod::lemma_fundamental_div_mod(d, DAY_MS as int);
        assert(0 <= d / DAY_MS as int <= u64::MAX) by {
            vstd::arithmetic::div_mod::lemma_div_is_ordered_by_denominator(d, 1, DAY_MS as int);
        }
    }
}

/// The importance of a memory ages when it is a long-term memory that is there and is
/// not protected, a day or more after it was made or last aged; it ages for the whole
/// days since.
pub proof fn law_importance_ages(stored: types::StoredView, now: u64)
    ensures
        ({
            let m = stored.metadata;
            let last = if m.last_decay_at is Some {
                m.last_decay_at->Some_0
            } else {
                m.created_at
            };
            let safe = m.flashbulb_until is Some && m.flashbulb_until->Some_0 > now;
            let days = stored.decay_days(now) as int;
            &&& stored.decays(now) <==> !stored.archived && stored.memory_type
                == MemoryType::LongTerm && !safe && now - last >= 86400000
            &&& stored.decays(now) ==> days * 86400000 <= now - last < (days + 1) * 86400000
        }),
{
    let m = stored.metadata;
    let last = if m.last_decay_at is Some {
        m.last_decay_at->Some_0
    } else {
        m.created_at
    };
    law_days(last, now);
}

/// The health of a memory ages when it is there and is not protected, a day or more
/// after it was last recalled, or accessed if it never was, and after its health last
/// aged, or it was made; it ages for the whole days since.
pub proof fn law_health_ages(stored: types::StoredView, now: u64)
    ensures
        ({
            let m = stored.metadata;
            let recalled = if m.last_recalled_at is Some {
                m.last_recalled_at->Some_0
            } else {
                m.accessed_at
            };
            let checked = if m.last_health_check_at is Some {
                m.last_health_check_at->Some_0
            } else {
                m.created_at
            };
            let safe = m.flashbulb_until is Some && m.flashbulb_until->Some_0 > now;
            let last = stored.last_strong();
            let days = types::StoredView::days_since(last, now) as int;
            &&& stored.weakens(now) <==> !stored.archived && !safe && now - recalled >= 86400000
                && now - checked >= 86400000
            &&& last >= recalled && last >= checked && (last == recalled || last == checked)
            &&& stored.weakens(now) ==> days * 86400000 <= now - last < (days + 1) * 86400000
        }),
{
    law_days(stored.last_strong(), now);
}

/// Promoting makes a short-term memory long-term and lets it live for ever, and changes
/// nothing else of it but the time of its change; its tags in the index are then its own
/// and the new type. A long-term memory stays as it is.
pub proof fn law_promotion(
    before: types::StoredView,
    after: types::StoredView,
    tags: Option<Vec<String>>,
    now: u64,
)
    requires
        promotes(before, after, tags, now),
    ensures
        after.memory_type == MemoryType::LongTerm,
        after.id == before.id,
        after.content == before.content,
        after.archived == before.archived,
        before.memory_type == MemoryType::LongTerm ==> after == before && tags is None,
        before.memory_type == MemoryType::ShortTerm ==> {
            &&& after.metadata == (types::MetadataView {
                ttl: None,
                updated_at: now,
                ..before.metadata
            })
            &&& tags is Some && text::texts(tags->Some_0@) == before.metadata.tags.push(
                "__type:"@ + "long_term"@,
            )
        },
{
}

/// A memory that was put away is removed from the day on on which it has been put away
/// for so many days.
pub proof fn law_cleanup(now: u64, days: u64, updated_at: u64)
    requires
        now >= days * 86400000,
    ensures
        updated_at <= cutoff(now, days) <==> now - updated_at >= days * 86400000,
{
}

/// What makes a memory a repetition: it is there, and so is an earlier one with the same
/// content.
pub proof fn law_repetition(all: Seq<types::StoredView>, i: int, j: int)
    requires
        0 <= i < j < all.len(),
    ensures
        all[i].content == all[j].content && !all[i].archived && !all[j].archived ==> repeats(all, j),
        all[j].archived ==> !repeats(all, j),
        (forall|k: int|
            0 <= k < j ==> (#[trigger] all[k]).archived || all[k].content != all[j].content)
            ==> !repeats(all, j),
{
}

/// The places of repetitions are all of them, each once, and no others.
pub proof fn law_repeated_places(places: Seq<usize>, all: Seq<types::StoredView>, i: int)
    requires
        are_repeated(places, all),
        0 <= i < all.len(),
        i <= usize::MAX,
    ensures
        places.contains(i as usize) <==> repeats(all, i),
        places.no_duplicates(),
{
    if repeats(all, i) {
        assert(is_place(places, i));
        let k = choose|k: int| 0 <= k < places.len() && #[trigger] places[k] == i;
        assert(places[k] == i as usize);
    }
}

/// A consolidated list has the same memories at the same places; those that repeat
/// earlier ones are put away now, and the others are as they were.
pub proof fn law_consolidated(all: Seq<types::StoredView>, now: u64, i: int)
    requires
        0 <= i < all.len(),
    ensures
        consolidated(all, now).len() == all.len(),
        consolidated(all, now)[i].id == all[i].id,
        consolidated(all, now)[i].content == all[i].content,
        repeats(all, i) ==> consolidated(all, now)[i].archived,
        !repeats(all, i) ==> consolidated(all, now)[i] == all[i],
{
}

} // verus!
