//! What the engine does in the background and when it shuts down.
//!
//! Waiting memtables are written out in rounds. A checkpoint saves the indexes,
//! writes all memtables out and then empties the log. The log is emptied only when
//! everything that it holds is on disk elsewhere.
use crate::engine::error::StorageError;
use crate::engine::storage::config::EngineConfig;
use crate::engine::storage::engine;
use crate::engine::storage::engine::StorageEngine;
use crate::engine::storage::init::IndexKind;
use crate::engine::storage::memtable;
use crate::engine::storage::sstable::reader;
use vstd::prelude::*;

verus! {

/// The seconds that a flush waits at most to be asked for.
pub const FLUSH_POLL_SECS: u64 = 5;

/// The seconds between two looks for levels to compact.
pub const COMPACTION_POLL_SECS: u64 = 10;

/// The seconds between two looks for a checkpoint that is due.
pub const CHECKPOINT_POLL_SECS: u64 = 10;

/// When the last checkpoint succeeded, in milliseconds of a clock that only goes
/// forward.
#[derive(Clone, Copy, PartialEq, Eq, Structural, Debug)]
pub struct CheckpointClock {
    pub last: u64,
}

impl CheckpointClock {
    /// The milliseconds since the last checkpoint.
    pub open spec fn elapsed(self, now: u64) -> int {
        if now >= self.last {
            now - self.last
        } else {
            0
        }
    }

    /// A clock that starts now.
    pub fn new(now: u64) -> (r: Self)
        ensures
            r == (CheckpointClock { last: now }),
    {
        CheckpointClock { last: now }
    }

    /// Whether a checkpoint is due: the log is too large or the last checkpoint too
    /// long ago.
    pub fn should_checkpoint(&self, now: u64, wal_size: u64, config: &EngineConfig) -> (r: bool)
        ensures
            r == (wal_size > config.max_wal_size || self.elapsed(now) > config.checkpoint_interval),
    {
        wal_size > config.max_wal_size || now.saturating_sub(self.last) > config.checkpoint_interval
    }

    /// A checkpoint has ended. After one that failed the next attempt is made as
    /// soon as it is looked for again.
    pub fn finish(&mut self, now: u64, succeeded: bool)
        ensures
            *final(self) == (if succeeded {
                CheckpointClock { last: now }
            } else {
                *old(self)
            }),
    {
        if succeeded {
            self.last = now;
        }
    }
}

/// What a checkpoint does next.
#[derive(Clone, Copy, PartialEq, Eq, Structural, Debug)]
pub enum CheckpointStep {
    /// The indexes that have changed are saved.
    SaveIndexes,
    /// The oldest waiting memtable is written out.
    FlushOldest,
    /// The log is emptied.
    TruncateLog,
    /// The checkpoint has succeeded.
    Finished,
    /// The checkpoint has failed; the log is as it was.
    Aborted,
}

/// Whether nothing is in memory alone.
pub open spec fn all_on_disk(e: engine::EngineView) -> bool {
    e.pending.len() == 0 && e.mem.entries == memtable::Entries::empty()
}

/// The engine with its memtable set aside, if it has entries.
pub open spec fn sealed(e: engine::EngineView) -> engine::EngineView {
    if e.mem.entries == memtable::Entries::empty() {
        e
    } else {
        e.set_aside()
    }
}

/// What follows a step of a checkpoint that has succeeded or failed. After the
/// indexes are saved the memtable is set aside; memtables are written out as long
/// as there are any, and only then the log is emptied.
pub fn next_step(step: CheckpointStep, succeeded: bool, engine: &mut StorageEngine) -> (r:
    CheckpointStep)
    requires
        old(engine).inv(),
    ensures
        final(engine).inv(),
        match step {
            CheckpointStep::SaveIndexes | CheckpointStep::FlushOldest => if succeeded {
                &&& final(engine)@ == sealed(old(engine)@)
                &&& r == (if final(engine)@.pending.len() > 0 {
                    CheckpointStep::FlushOldest
                } else {
                    CheckpointStep::TruncateLog
                })
            } else {
                final(engine)@ == old(engine)@ && r == CheckpointStep::Aborted
            },
            CheckpointStep::TruncateLog => final(engine)@ == old(engine)@ && r == (if succeeded {
                CheckpointStep::Finished
            } else {
                CheckpointStep::Aborted
            }),
            _ => final(engine)@ == old(engine)@ && r == step,
        },
        r == CheckpointStep::TruncateLog ==> all_on_disk(final(engine)@),
{
    match step {
        CheckpointStep::SaveIndexes | CheckpointStep::FlushOldest => {
            if !succeeded {
                return CheckpointStep::Aborted;
            }
            engine.seal_memtable();
            if engine.pending_memtables() > 0 {
                CheckpointStep::FlushOldest
            } else {
                CheckpointStep::TruncateLog
            }
        },
        CheckpointStep::TruncateLog => if succeeded {
            CheckpointStep::Finished
        } else {
            CheckpointStep::Aborted
        },
        CheckpointStep::Finished => CheckpointStep::Finished,
        CheckpointStep::Aborted => CheckpointStep::Aborted,
    }
}

/// Whether all indexes were saved; one that has not changed, or is not there, needs
/// no saving.
pub fn all_saves_ok(saves: &Vec<bool>) -> (r: bool)
    ensures
        r == (forall|i: int| 0 <= i < saves@.len() ==> saves@[i]),
{
    let mut i: usize = 0;
    while i < saves.len()
        invariant
            i <= saves@.len(),
            forall|j: int| 0 <= j < i ==> saves@[j],
        decreases saves@.len() - i,
    {
        if !saves[i] {
            return false;
        }
        i = i + 1;
    }
    true
}

/// A round over the waiting memtables, from the oldest on. Each one that waited when
/// the round began is tried once; one that is not written out goes on waiting, and the
/// round goes on with the next.
#[derive(Clone, Copy, PartialEq, Eq, Structural, Debug)]
pub struct FlushRound {
    /// The place of the memtable that is tried next: so many were tried in vain.
    pub place: usize,
    /// The memtables that are still to be tried.
    pub left: usize,
}

impl FlushRound {
    /// A round over so many waiting memtables.
    pub fn new(pending: usize) -> (r: Self)
        ensures
            r == (FlushRound { place: 0, left: pending }),
    {
        FlushRound { place: 0, left: pending }
    }

    /// The place of the memtable that is to be tried, if any is left.
    pub fn next(&self) -> (r: Option<usize>)
        ensures
            r == (if self.left > 0 {
                Some(self.place)
            } else {
                None
            }),
    {
        if self.left > 0 {
            Some(self.place)
        } else {
            None
        }
    }

    /// The round after a memtable was tried.
    pub open spec fn tried(self, written: bool) -> FlushRound {
        FlushRound {
            place: if written {
                self.place
            } else {
                (self.place + 1) as usize
            },
            left: (self.left - 1) as usize,
        }
    }

    /// A memtable was tried. One that was written out does not wait any longer.
    pub fn on_tried(&mut self, written: bool)
        requires
            old(self).left > 0,
            old(self).place + old(self).left <= usize::MAX,
        ensures
            *final(self) == old(self).tried(written),
    {
        if !written {
            self.place = self.place + 1;
        }
        self.left = self.left - 1;
    }
}

/// A round after some tries.
pub open spec fn round_after(round: FlushRound, outcomes: Seq<bool>) -> FlushRound
    decreases outcomes.len(),
{
    if outcomes.len() == 0 {
        round
    } else {
        round_after(round, outcomes.drop_last()).tried(outcomes.last())
    }
}

/// What waits after some tries.
pub open spec fn waiting_after<T>(waiting: Seq<T>, outcomes: Seq<bool>) -> Seq<T>
    decreases outcomes.len(),
{
    if outcomes.len() == 0 {
        waiting
    } else {
        let before = waiting_after(waiting, outcomes.drop_last());
        if outcomes.last() {
            before.remove(
                round_after(
                    FlushRound { place: 0, left: waiting.len() as usize },
                    outcomes.drop_last(),
                ).place as int,
            )
        } else {
            before
        }
    }
}

/// A round tries each memtable that waited at its beginning once, in their order:
/// after any tries the next one is the one behind those that were tried.
pub proof fn law_round_tries_each<T>(waiting: Seq<T>, outcomes: Seq<bool>)
    requires
        waiting.len() <= usize::MAX,
        outcomes.len() <= waiting.len(),
    ensures
        ({
            let round = round_after(
                FlushRound { place: 0, left: waiting.len() as usize },
                outcomes,
            );
            let rest = waiting_after(waiting, outcomes);
            &&& round.left == waiting.len() - outcomes.len()
            &&& round.place <= outcomes.len()
            &&& rest.len() == round.place + round.left
            &&& rest.skip(round.place as int) == waiting.skip(outcomes.len() as int)
        }),
    decreases outcomes.len(),
{
    if outcomes.len() == 0 {
        assert(waiting.skip(0) =~= waiting);
    } else {
        let init = outcomes.drop_last();
        law_round_tries_each(waiting, init);
        let first = FlushRound { place: 0, left: waiting.len() as usize };
        let before = round_after(first, init);
        let there = waiting_after(waiting, init);
        let p = before.place as int;
        assert(there.skip(p).skip(1) =~= waiting.skip(init.len() as int).skip(1));
        assert(waiting.skip(init.len() as int).skip(1) =~= waiting.skip(outcomes.len() as int));
        if outcomes.last() {
            assert(there.remove(p).skip(p) =~= there.skip(p).skip(1));
        } else {
            assert(there.skip(p + 1) =~= there.skip(p).skip(1));
        }
    }
}

/// As long as no try fails, a round writes out the oldest memtable that waits.
pub proof fn law_round_takes_the_oldest(pending: usize, outcomes: Seq<bool>)
    requires
        forall|i: int| 0 <= i < outcomes.len() ==> #[trigger] outcomes[i],
    ensures
        round_after(FlushRound { place: 0, left: pending }, outcomes).place == 0,
    decreases outcomes.len(),
{
    if outcomes.len() > 0 {
        let init = outcomes.drop_last();
        assert forall|i: int| 0 <= i < init.len() implies #[trigger] init[i] by {
            assert(init[i] == outcomes[i]);
        }
        assert(outcomes[outcomes.len() - 1]);
        law_round_takes_the_oldest(pending, init);
    }
}

/// What a checkpoint does to an index.
#[derive(Clone, Copy, PartialEq, Eq, Structural, Debug)]
pub struct IndexWork {
    pub save: bool,
    /// Whether its segments are merged.
    pub merge: bool,
}

/// What a checkpoint does to an index: one that has changed is saved, and segments
/// of the time-series and the tag index are merged when there are too many.
pub fn index_work(kind: IndexKind, enabled: bool, dirty: bool, fragmented: bool) -> (r: IndexWork)
    ensures
        r == (IndexWork {
            save: enabled && dirty,
            merge: enabled && fragmented && (kind == IndexKind::TimeSeries || kind
                == IndexKind::Tag),
        }),
{
    let mergeable = match kind {
        IndexKind::TimeSeries | IndexKind::Tag => true,
        IndexKind::Vector | IndexKind::Graph => false,
    };
    IndexWork { save: enabled && dirty, merge: enabled && fragmented && mergeable }
}

/// What a shutdown does next.
#[derive(Clone, Copy, PartialEq, Eq, Structural, Debug)]
pub enum ShutdownStep {
    /// The log is synced.
    SyncLog,
    /// The oldest waiting memtable is written out.
    FlushOldest,
    /// The indexes that have changed are saved.
    SaveIndexes,
    /// The log is synced a last time.
    SyncLogAgain,
    /// The log is emptied.
    TruncateLog,
    /// The shutdown is complete.
    Finished,
    /// The shutdown has failed; the log is as it was.
    Failed,
}

/// Begins to shut down: the memtable is set aside, unless too many wait already.
pub fn begin_shutdown(engine: &mut StorageEngine) -> (r: Result<ShutdownStep, StorageError>)
    requires
        old(engine).inv(),
    ensures
        final(engine).inv(),
        if old(engine)@.backed_up() {
            r == Err::<ShutdownStep, StorageError>(old(engine)@.backlog()) && final(engine)@ == old(
                engine,
            )@
        } else {
            r == Ok::<ShutdownStep, StorageError>(ShutdownStep::SyncLog) && final(engine)@ == old(
                engine,
            )@.set_aside()
        },
{
    match engine.rotate_memtable() {
        Ok(()) => Ok(ShutdownStep::SyncLog),
        Err(e) => Err(e),
    }
}

/// What follows a step of a shutdown that has succeeded or failed.
pub open spec fn shutdown_step_after(
    step: ShutdownStep,
    succeeded: bool,
    e: engine::EngineView,
) -> ShutdownStep {
    match step {
        ShutdownStep::SyncLog | ShutdownStep::FlushOldest => if !succeeded {
            ShutdownStep::Failed
        } else if e.pending.len() > 0 {
            ShutdownStep::FlushOldest
        } else {
            ShutdownStep::SaveIndexes
        },
        ShutdownStep::SaveIndexes => if succeeded {
            ShutdownStep::SyncLogAgain
        } else {
            ShutdownStep::Failed
        },
        ShutdownStep::SyncLogAgain => if !succeeded {
            ShutdownStep::Failed
        } else if all_on_disk(e) {
            ShutdownStep::TruncateLog
        } else {
            ShutdownStep::Finished
        },
        ShutdownStep::TruncateLog => ShutdownStep::Finished,
        _ => step,
    }
}

/// What follows a step of a shutdown that has succeeded or failed. The indexes are
/// saved only when no memtable waits any longer, and the log is emptied only when
/// they are saved and nothing is in memory alone: what was written meanwhile stays in
/// the log. It does no harm if the log is not emptied.
pub fn next_shutdown_step(step: ShutdownStep, succeeded: bool, engine: &StorageEngine) -> (r:
    ShutdownStep)
    requires
        engine.inv(),
    ensures
        r == shutdown_step_after(step, succeeded, engine@),
        r == ShutdownStep::TruncateLog ==> all_on_disk(engine@),
{
    match step {
        ShutdownStep::SyncLog | ShutdownStep::FlushOldest => if !succeeded {
            ShutdownStep::Failed
        } else if engine.pending_memtables() > 0 {
            ShutdownStep::FlushOldest
        } else {
            ShutdownStep::SaveIndexes
        },
        ShutdownStep::SaveIndexes => if succeeded {
            ShutdownStep::SyncLogAgain
        } else {
            ShutdownStep::Failed
        },
        ShutdownStep::SyncLogAgain => if !succeeded {
            ShutdownStep::Failed
        } else if engine.pending_memtables() == 0 && engine.memtable_is_empty() {
            ShutdownStep::TruncateLog
        } else {
            ShutdownStep::Finished
        },
        ShutdownStep::TruncateLog => ShutdownStep::Finished,
        ShutdownStep::Finished => ShutdownStep::Finished,
        ShutdownStep::Failed => ShutdownStep::Failed,
    }
}

/// A shutdown empties the log only when everything is on disk. And it does empty it:
/// it begins with a memtable without entries, writing a waiting memtable out changes
/// nothing of that and leaves one less, and once none waits and all steps succeed, the
/// indexes are saved, the log is synced and then emptied.
pub proof fn law_shutdown_empties_log(
    e: engine::EngineView,
    step: ShutdownStep,
    succeeded: bool,
    table: Option<reader::TableView>,
)
    ensures
        shutdown_step_after(step, succeeded, e) == ShutdownStep::TruncateLog ==> all_on_disk(e),
        e.set_aside().mem.entries == memtable::Entries::empty(),
        e.pending.len() > 0 ==> ({
            let after = e.flushed(0, table);
            &&& after.mem == e.mem
            &&& after.pending.len() == e.pending.len() - 1
            &&& shutdown_step_after(ShutdownStep::SyncLog, true, e) == ShutdownStep::FlushOldest
        }),
        e.mem.entries == memtable::Entries::empty() && e.pending.len() == 0 ==> {
            &&& shutdown_step_after(ShutdownStep::FlushOldest, true, e) == ShutdownStep::SaveIndexes
            &&& shutdown_step_after(ShutdownStep::SaveIndexes, true, e)
                == ShutdownStep::SyncLogAgain
            &&& shutdown_step_after(ShutdownStep::SyncLogAgain, true, e)
                == ShutdownStep::TruncateLog
            &&& shutdown_step_after(ShutdownStep::TruncateLog, true, e) == ShutdownStep::Finished
        },
{
}

/// Time passes from the last checkpoint that succeeded on.
pub proof fn law_checkpoint_clock(clock: CheckpointClock, now: u64)
    ensures
        now >= clock.last ==> clock.elapsed(now) == now - clock.last,
        now < clock.last ==> clock.elapsed(now) == 0,
{
}

/// Nothing is in memory alone exactly if no memtable waits and the memtable is empty; a
/// sealed engine has an empty memtable, and one more that waits if it had entries.
pub proof fn law_sealed(e: engine::EngineView)
    ensures
        all_on_disk(e) <==> e.pending.len() == 0 && e.mem.entries == memtable::Entries::empty(),
        sealed(e).mem.entries == memtable::Entries::empty(),
        e.mem.entries == memtable::Entries::empty() ==> sealed(e) == e,
        e.mem.entries != memtable::Entries::empty() ==> {
            &&& sealed(e).pending.len() == e.pending.len() + 1
            &&& sealed(e).pending.last() == e.mem
            &&& sealed(e).tree == e.tree
        },
        sealed(e).mem.next_timestamp == e.mem.next_timestamp,
{
}

/// A shutdown that fails at a step has failed, unless only the emptying of the log did;
/// a shutdown that is over stays so.
pub proof fn law_shutdown_fails(step: ShutdownStep, succeeded: bool, e: engine::EngineView)
    ensures
        !succeeded && (step == ShutdownStep::SyncLog || step == ShutdownStep::FlushOldest || step
            == ShutdownStep::SaveIndexes || step == ShutdownStep::SyncLogAgain)
            ==> shutdown_step_after(step, succeeded, e) == ShutdownStep::Failed,
        shutdown_step_after(ShutdownStep::TruncateLog, succeeded, e) == ShutdownStep::Finished,
        shutdown_step_after(ShutdownStep::Finished, succeeded, e) == ShutdownStep::Finished,
        shutdown_step_after(ShutdownStep::Failed, succeeded, e) == ShutdownStep::Failed,
        shutdown_step_after(step, succeeded, e) == ShutdownStep::SaveIndexes ==> e.pending.len()
            == 0 || step == ShutdownStep::SaveIndexes,
        e.pending.len() > 0 ==> shutdown_step_after(ShutdownStep::FlushOldest, true, e)
            == ShutdownStep::FlushOldest,
        !all_on_disk(e) ==> shutdown_step_after(ShutdownStep::SyncLogAgain, true, e)
            == ShutdownStep::Finished,
{
}

/// A memtable that was written out makes room for the next at its place, and one that was
/// not is passed over; either way one less is to be tried.
pub proof fn law_round_goes_on(round: FlushRound)
    requires
        round.left > 0,
        round.place < usize::MAX,
    ensures
        round.tried(true).place == round.place,
        round.tried(false).place == round.place + 1,
        round.tried(true).left == round.left - 1,
        round.tried(false).left == round.left - 1,
{
}

} // verus!
