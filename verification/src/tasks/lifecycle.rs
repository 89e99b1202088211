//! The runs of the background tasks.
use crate::engine::text;
use crate::error::AppError;
use crate::services::memory_manager;
use crate::tasks::registry::{RegistryView, RunLog, TaskRegistry};
use vstd::prelude::*;
use vstd::string::StringExecFns;

verus! {

/// The days after which a memory that was put away is removed.
pub const CLEANUP_AGE_DAYS: u64 = 30;

/// What a task does.
#[derive(Clone, Copy, PartialEq, Eq, Structural, Debug)]
pub enum TaskWork {
    ExpireShortTerm,
    ApplyImportanceDecay,
    ActiveForgetting,
    ConsolidateSimilar,
    CleanupArchived { max_age_days: u64 },
    DiscoverConnections { threshold: u32, top_k: usize },
    Checkpoint,
}

/// What the task of a name does.
pub open spec fn work_named(name: Seq<char>) -> Option<TaskWork> {
    if name == "expire_short_term"@ {
        Some(TaskWork::ExpireShortTerm)
    } else if name == "apply_importance_decay"@ {
        Some(TaskWork::ApplyImportanceDecay)
    } else if name == "active_forgetting"@ {
        Some(TaskWork::ActiveForgetting)
    } else if name == "consolidate_similar"@ {
        Some(TaskWork::ConsolidateSimilar)
    } else if name == "cleanup_archived"@ {
        Some(TaskWork::CleanupArchived { max_age_days: CLEANUP_AGE_DAYS })
    } else if name == "discover_connections"@ {
        Some(
            TaskWork::DiscoverConnections {
                threshold: memory_manager::DISCOVERY_THRESHOLD,
                top_k: memory_manager::DISCOVERY_TOP_K,
            },
        )
    } else if name == "checkpoint"@ {
        Some(TaskWork::Checkpoint)
    } else {
        None
    }
}

/// What the task of a name does.
pub fn work_of(name: &str) -> (r: Result<TaskWork, AppError>)
    ensures
        match work_named(name@) {
            Some(work) => r == Ok::<TaskWork, AppError>(work),
            None => r matches Err(AppError::Validation(m)) && m@ == "unknown task: "@ + name@,
        },
{
    if text::same_text(name, "expire_short_term") {
        Ok(TaskWork::ExpireShortTerm)
    } else if text::same_text(name, "apply_importance_decay") {
        Ok(TaskWork::ApplyImportanceDecay)
    } else if text::same_text(name, "active_forgetting") {
        Ok(TaskWork::ActiveForgetting)
    } else if text::same_text(name, "consolidate_similar") {
        Ok(TaskWork::ConsolidateSimilar)
    } else if text::same_text(name, "cleanup_archived") {
        Ok(TaskWork::CleanupArchived { max_age_days: CLEANUP_AGE_DAYS })
    } else if text::same_text(name, "discover_connections") {
        Ok(
            TaskWork::DiscoverConnections {
                threshold: memory_manager::DISCOVERY_THRESHOLD,
                top_k: memory_manager::DISCOVERY_TOP_K,
            },
        )
    } else if text::same_text(name, "checkpoint") {
        Ok(TaskWork::Checkpoint)
    } else {
        let mut m = String::new();
        m.append("unknown task: ");
        m.append(name);
        assert(m@ =~= "unknown task: "@ + name@);
        Err(AppError::Validation(m))
    }
}

/// Begins a run of a task at a given time: what is to be done.
pub fn begin_task(registry: &mut TaskRegistry, name: &str, now: u64) -> (r: Result<
    TaskWork,
    AppError,
>)
    requires
        old(registry).inv(),
    ensures
        final(registry).inv(),
        final(registry)@ == old(registry)@.running(name@, now),
        match work_named(name@) {
            Some(work) => r == Ok::<TaskWork, AppError>(work),
            None => r matches Err(AppError::Validation(m)) && m@ == "unknown task: "@ + name@,
        },
{
    registry.set_running_at(name, now);
    work_of(name)
}

/// What becomes of a task whose time has come: nothing while it is paused, and else a
/// run of it begins.
pub fn on_tick(registry: &mut TaskRegistry, name: &str, now: u64) -> (r: Option<
    Result<TaskWork, AppError>,
>)
    requires
        old(registry).inv(),
    ensures
        final(registry).inv(),
        if old(registry)@.pauses(name@) {
            r is None && final(registry)@ == old(registry)@
        } else {
            &&& final(registry)@ == old(registry)@.running(name@, now)
            &&& match work_named(name@) {
                Some(work) => r == Some(Ok::<TaskWork, AppError>(work)),
                None => r matches Some(Err(AppError::Validation(m))) && m@ == "unknown task: "@
                    + name@,
            }
        },
{
    if registry.is_paused(name) {
        return None;
    }
    Some(begin_task(registry, name, now))
}

/// What a run counts.
pub open spec fn run_count(result: Result<usize, AppError>) -> i64 {
    match result {
        Ok(n) => n as i64,
        Err(_) => -1i64,
    }
}

/// What is kept of the failure of a run.
pub open spec fn run_error(result: Result<usize, AppError>) -> Option<Seq<char>> {
    match result {
        Ok(_) => None,
        Err(e) => Some(e.wording()),
    }
}

/// Ends a run of a task at a given time. Its log is to be kept.
pub fn finish_task(
    registry: &mut TaskRegistry,
    name: &str,
    result: Result<usize, AppError>,
    now: u64,
) -> (r: RunLog)
    requires
        old(registry).inv(),
    ensures
        final(registry).inv(),
        final(registry)@ == old(registry)@.recorded(
            name@,
            run_count(result),
            run_error(result),
            now,
        ),
        r@ == old(registry)@.log(name@, run_count(result), run_error(result), now),
{
    match result {
        Ok(n) => registry.record_result_at(name, n as i64, None, now),
        Err(e) => {
            let m = e.message();
            registry.record_result_at(name, -1, Some(m), now)
        },
    }
}

/// Every task of the registry can be done, and nothing else can.
pub proof fn law_all_tasks_have_work(view: RegistryView, name: Seq<char>)
    requires
        view.wf(),
    ensures
        work_named(name) is Some <==> view.knows(name),
{
    if view.knows(name) {
        let i = view.place(name);
        assert(view.is_at(name, i));
        assert(view.tasks[i].status.name == crate::tasks::registry::all_tasks()[i].0);
    } else {
        assert forall|i: int| 0 <= i < 7 implies view.tasks[i].status.name != name by {
            assert(!view.is_at(name, i));
        }
        assert(view.tasks[0].status.name == "active_forgetting"@);
        assert(view.tasks[1].status.name == "apply_importance_decay"@);
        assert(view.tasks[2].status.name == "checkpoint"@);
        assert(view.tasks[3].status.name == "cleanup_archived"@);
        assert(view.tasks[4].status.name == "consolidate_similar"@);
        assert(view.tasks[5].status.name == "discover_connections"@);
        assert(view.tasks[6].status.name == "expire_short_term"@);
    }
}

/// Each task does what its name says. Memories that were put away are removed after
/// thirty days, and connections are looked for to the five closest memories from a score
/// of 0.7 on.
pub proof fn law_work_of_each_task()
    ensures
        work_named("expire_short_term"@) == Some(TaskWork::ExpireShortTerm),
        work_named("apply_importance_decay"@) == Some(TaskWork::ApplyImportanceDecay),
        work_named("active_forgetting"@) == Some(TaskWork::ActiveForgetting),
        work_named("consolidate_similar"@) == Some(TaskWork::ConsolidateSimilar),
        work_named("cleanup_archived"@) == Some(TaskWork::CleanupArchived { max_age_days: 30 }),
        work_named("discover_connections"@) == Some(
            TaskWork::DiscoverConnections { threshold: 0x3F333333, top_k: 5 },
        ),
        work_named("checkpoint"@) == Some(TaskWork::Checkpoint),
{
    reveal_strlit("expire_short_term");
    reveal_strlit("apply_importance_decay");
    reveal_strlit("active_forgetting");
    reveal_strlit("consolidate_similar");
    reveal_strlit("cleanup_archived");
    reveal_strlit("discover_connections");
    reveal_strlit("checkpoint");
    assert("expire_short_term"@[0] == 'e');
    assert("apply_importance_decay"@[1] == 'p');
    assert("active_forgetting"@[1] == 'c' && "active_forgetting"@[0] == 'a');
    assert("consolidate_similar"@[1] == 'o');
    assert("cleanup_archived"@[1] == 'l');
    assert("discover_connections"@[0] == 'd');
    assert("checkpoint"@[1] == 'h');
}

/// A run that succeeds counts what it has done and keeps no failure; one that fails
/// counts -1 and keeps what went wrong.
pub proof fn law_run_result(n: usize, e: AppError)
    ensures
        n <= i64::MAX ==> run_count(Ok(n)) == n,
        run_error(Ok(n)) is None,
        run_count(Err(e)) == -1,
        run_error(Err(e)) == Some(e.wording()),
{
}

} // verus!
