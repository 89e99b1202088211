//! How workers that fail are started again.
use vstd::prelude::*;

verus! {

/// The restarts of a discovery worker before it is given up.
pub const MAX_DISCOVERY_RESTARTS: u32 = 5;

/// The restarts from which on the pause before a restart does not grow.
pub const LONGEST_BACKOFF: u32 = 3;

/// How the discovery workers do.
#[derive(Debug)]
pub struct DiscoveryWorkerState {
    /// The workers that run.
    pub alive: usize,
    /// The workers that there are.
    pub total: usize,
    /// The failures of all workers.
    pub restart_count: u32,
    /// What the last failure has said.
    pub last_panic: Option<String>,
}

/// How a worker has ended.
#[derive(Debug)]
pub enum WorkerExit {
    /// It has done its work.
    Clean,
    /// It has failed, and said this.
    Panicked(String),
}

/// What happens to a worker that has ended.
#[derive(Clone, Copy, PartialEq, Eq, Structural, Debug)]
pub enum WorkerStep {
    /// It had done its work.
    Stop,
    /// It has failed too often.
    GiveUp,
    /// It is started again after a pause, unless all workers are to stop.
    RestartAfter { seconds: u64 },
}

/// The place of a worker.
#[derive(Clone, Copy, PartialEq, Eq, Structural, Debug)]
pub struct WorkerSlot {
    /// The failures so far.
    pub restarts: u32,
    pub max_restarts: u32,
}

/// The pause before a restart, in seconds: it doubles, up to a limit.
pub open spec fn backoff(restarts: u32) -> u64 {
    if restarts == 0 {
        1
    } else if restarts == 1 {
        2
    } else if restarts == 2 {
        4
    } else {
        8
    }
}

impl WorkerSlot {
    /// The worker was not given up, and its failures can be counted.
    pub open spec fn inv(self) -> bool {
        self.restarts <= self.max_restarts < u32::MAX
    }

    /// What happens to the worker when it fails.
    pub open spec fn step_on_failure(self) -> WorkerStep {
        if self.restarts >= self.max_restarts {
            WorkerStep::GiveUp
        } else {
            WorkerStep::RestartAfter { seconds: backoff((self.restarts + 1) as u32) }
        }
    }

    /// The place of a worker that has not failed yet.
    pub fn new(max_restarts: u32) -> (r: Self)
        requires
            max_restarts < u32::MAX,
        ensures
            r.inv(),
            r == (WorkerSlot { restarts: 0, max_restarts }),
    {
        WorkerSlot { restarts: 0, max_restarts }
    }

    /// A worker has ended.
    pub fn on_exit(&mut self, state: &mut DiscoveryWorkerState, exit: WorkerExit) -> (r: WorkerStep)
        requires
            old(self).inv(),
            old(state).alive > 0,
        ensures
            r !is GiveUp ==> final(self).inv(),
            final(self).max_restarts == old(self).max_restarts,
            final(state).alive == old(state).alive - 1,
            final(state).total == old(state).total,
            match exit {
                WorkerExit::Clean => {
                    &&& r == WorkerStep::Stop
                    &&& final(self).restarts == old(self).restarts
                    &&& final(state).restart_count == old(state).restart_count
                    &&& final(state).last_panic == old(state).last_panic
                },
                WorkerExit::Panicked(said) => {
                    &&& r == old(self).step_on_failure()
                    &&& final(self).restarts == old(self).restarts + 1
                    &&& final(state).restart_count == (if old(state).restart_count == u32::MAX {
                        0
                    } else {
                        old(state).restart_count + 1
                    })
                    &&& final(state).last_panic == Some(said)
                },
            },
    {
        state.alive = state.alive - 1;
        match exit {
            WorkerExit::Clean => WorkerStep::Stop,
            WorkerExit::Panicked(said) => {
                state.last_panic = Some(said);
                state.restart_count = state.restart_count.wrapping_add(1);
                self.restarts = self.restarts + 1;
                if self.restarts > self.max_restarts {
                    WorkerStep::GiveUp
                } else {
                    WorkerStep::RestartAfter { seconds: backoff_seconds(self.restarts) }
                }
            },
        }
    }
}

/// The pause before a restart, in seconds.
pub fn backoff_seconds(restarts: u32) -> (r: u64)
    ensures
        r == backoff(restarts),
{
    let n: u32 = if restarts < LONGEST_BACKOFF {
        restarts
    } else {
        LONGEST_BACKOFF
    };
    let r: u64 = 1u64 << n;
    assert(1u64 << 0u32 == 1 && 1u64 << 1u32 == 2 && 1u64 << 2u32 == 4 && 1u64 << 3u32 == 8)
        by (bit_vector);
    r
}

impl DiscoveryWorkerState {
    /// The state before any worker was started.
    pub fn new(total: usize) -> (r: Self)
        ensures
            r.alive == 0,
            r.total == total,
            r.restart_count == 0,
            r.last_panic is None,
    {
        DiscoveryWorkerState { alive: 0, total, restart_count: 0, last_panic: None }
    }

    /// A worker was started.
    pub fn on_start(&mut self)
        requires
            old(self).alive < usize::MAX,
        ensures
            *final(self) == (DiscoveryWorkerState {
                alive: (old(self).alive + 1) as usize,
                ..*old(self)
            }),
    {
        self.alive = self.alive + 1;
    }
}

/// The place of a worker that has failed `failures` times in a row.
pub open spec fn after_failures(slot: WorkerSlot, failures: nat) -> WorkerSlot {
    WorkerSlot { restarts: (slot.restarts + failures) as u32, ..slot }
}

/// A worker that always fails is started again exactly as often as its limit says,
/// and then given up.
pub proof fn law_restarts_end(max_restarts: u32, failures: nat)
    requires
        max_restarts < u32::MAX,
        failures <= max_restarts,
    ensures
        ({
            let slot = after_failures(WorkerSlot { restarts: 0, max_restarts }, failures);
            &&& slot.inv()
            &&& slot.step_on_failure() is GiveUp <==> failures == max_restarts
        }),
{
}

/// The pause before a restart does not shrink and is between two and eight seconds.
pub proof fn law_backoff(slot: WorkerSlot)
    requires
        slot.inv(),
        slot.restarts < slot.max_restarts,
    ensures
        slot.step_on_failure() matches WorkerStep::RestartAfter { seconds } && 2 <= seconds <= 8,
        backoff(slot.restarts) <= backoff((slot.restarts + 1) as u32),
{
}

/// The pause before a restart doubles with each failure, from two seconds on, until it is
/// eight seconds.
pub proof fn law_backoff_doubles(restarts: u32)
    ensures
        backoff(1) == 2,
        1 <= restarts < 3 ==> backoff((restarts + 1) as u32) == 2 * backoff(restarts),
        restarts >= 3 ==> backoff(restarts) == 8,
{
}

/// A worker that has failed is started again as long as it has failed no more often than
/// it may, after the pause for that failure.
pub proof fn law_step_on_failure(slot: WorkerSlot)
    requires
        slot.inv(),
    ensures
        slot.restarts < slot.max_restarts ==> slot.step_on_failure() == (WorkerStep::RestartAfter {
            seconds: backoff((slot.restarts + 1) as u32),
        }),
        slot.restarts == slot.max_restarts ==> slot.step_on_failure() == WorkerStep::GiveUp,
{
}

} // verus!
