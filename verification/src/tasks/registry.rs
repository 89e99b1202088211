//! What is known of the background tasks: whether they run, are paused, and how
//! their runs went.
use crate::engine::storage::index;
use crate::engine::text;
use crate::services::types;
use vstd::prelude::*;
use vstd::string::StringExecFns;

verus! {

/// One run of a task.
#[derive(Debug)]
pub struct RunLog {
    /// When the run began; 0 if that is not known.
    pub started_ms: u64,
    /// When the run ended.
    pub run_ms: u64,
    /// What the run has counted; -1 if it failed.
    pub count: i64,
    pub error: Option<String>,
}

/// What a run's log says.
#[verifier::ext_equal]
pub struct RunView {
    pub started_ms: u64,
    pub run_ms: u64,
    pub count: i64,
    pub error: Option<Seq<char>>,
}

impl View for RunLog {
    type V = RunView;

    open spec fn view(&self) -> RunView {
        RunView {
            started_ms: self.started_ms,
            run_ms: self.run_ms,
            count: self.count,
            error: index::text_view(self.error),
        }
    }
}

impl Clone for RunLog {
    fn clone(&self) -> (r: Self)
        ensures
            r@ == self@,
    {
        RunLog {
            started_ms: self.started_ms,
            run_ms: self.run_ms,
            count: self.count,
            error: index::copy_text(&self.error),
        }
    }
}

/// The views of some logs.
pub open spec fn run_views(logs: Seq<RunLog>) -> Seq<RunView> {
    Seq::new(logs.len(), |i: int| logs[i]@)
}

/// What is known of a task.
#[derive(Debug)]
pub struct TaskStatus {
    pub name: String,
    pub schedule: String,
    pub is_running: bool,
    pub is_paused: bool,
    pub last_started_ms: Option<u64>,
    pub last_run_ms: Option<u64>,
    pub last_count: Option<i64>,
    pub last_error: Option<String>,
}

/// What a status says.
#[verifier::ext_equal]
pub struct StatusView {
    pub name: Seq<char>,
    pub schedule: Seq<char>,
    pub is_running: bool,
    pub is_paused: bool,
    pub last_started_ms: Option<u64>,
    pub last_run_ms: Option<u64>,
    pub last_count: Option<i64>,
    pub last_error: Option<Seq<char>>,
}

impl View for TaskStatus {
    type V = StatusView;

    open spec fn view(&self) -> StatusView {
        StatusView {
            name: self.name@,
            schedule: self.schedule@,
            is_running: self.is_running,
            is_paused: self.is_paused,
            last_started_ms: self.last_started_ms,
            last_run_ms: self.last_run_ms,
            last_count: self.last_count,
            last_error: index::text_view(self.last_error),
        }
    }
}

impl Clone for TaskStatus {
    fn clone(&self) -> (r: Self)
        ensures
            r@ == self@,
    {
        TaskStatus {
            name: self.name.clone(),
            schedule: self.schedule.clone(),
            is_running: self.is_running,
            is_paused: self.is_paused,
            last_started_ms: self.last_started_ms,
            last_run_ms: self.last_run_ms,
            last_count: self.last_count,
            last_error: index::copy_text(&self.last_error),
        }
    }
}

/// The views of some statuses.
pub open spec fn status_views(tasks: Seq<TaskStatus>) -> Seq<StatusView> {
    Seq::new(tasks.len(), |i: int| tasks[i]@)
}

/// A task of the registry.
struct TaskEntry {
    status: TaskStatus,
    current_started_ms: Option<u64>,
    history: Vec<RunLog>,
}

/// A task of the registry.
#[verifier::ext_equal]
pub struct TaskView {
    pub status: StatusView,
    /// When the run that goes on, or the last one, began.
    pub current_started_ms: Option<u64>,
    /// All runs, the oldest first.
    pub history: Seq<RunView>,
}

/// The names and schedules of all tasks, in the order of the names.
pub open spec fn all_tasks() -> Seq<(Seq<char>, Seq<char>)> {
    seq![
        ("active_forgetting"@, "Daily"@),
        ("apply_importance_decay"@, "Daily"@),
        ("checkpoint"@, "On demand"@),
        ("cleanup_archived"@, "Monthly"@),
        ("consolidate_similar"@, "Weekly"@),
        ("discover_connections"@, "Every hour"@),
        ("expire_short_term"@, "Every 5 minutes"@),
    ]
}

/// The state of the registry.
#[verifier::ext_equal]
pub struct RegistryView {
    pub tasks: Seq<TaskView>,
    pub log_dir: Seq<char>,
    pub started_at_ms: u64,
}

/// A task that was never run.
pub open spec fn new_task(name: Seq<char>, schedule: Seq<char>) -> TaskView {
    TaskView {
        status: StatusView {
            name,
            schedule,
            is_running: false,
            is_paused: false,
            last_started_ms: None,
            last_run_ms: None,
            last_count: None,
            last_error: None,
        },
        current_started_ms: None,
        history: Seq::empty(),
    }
}

impl TaskView {
    /// The task after a run of it has begun.
    pub open spec fn begun(self, now: u64) -> TaskView {
        TaskView {
            status: StatusView { is_running: true, last_started_ms: Some(now), ..self.status },
            current_started_ms: Some(now),
            ..self
        }
    }

    /// The log of a run that ends now.
    pub open spec fn log(self, count: i64, error: Option<Seq<char>>, now: u64) -> RunView {
        RunView {
            started_ms: match self.current_started_ms {
                Some(t) => t,
                None => now,
            },
            run_ms: now,
            count,
            error,
        }
    }

    /// The task after a run of it has ended.
    pub open spec fn ended(self, count: i64, error: Option<Seq<char>>, now: u64) -> TaskView {
        TaskView {
            status: StatusView {
                is_running: false,
                last_run_ms: Some(now),
                last_count: Some(count),
                last_error: error,
                ..self.status
            },
            history: self.history.push(self.log(count, error, now)),
            ..self
        }
    }

    /// The task, paused or not.
    pub open spec fn with_pause(self, paused: bool) -> TaskView {
        TaskView { status: StatusView { is_paused: paused, ..self.status }, ..self }
    }

    /// The task with a history that was kept: the last run is what is known of it.
    pub open spec fn with_history(self, history: Seq<RunView>) -> TaskView {
        TaskView {
            status: if history.len() == 0 {
                self.status
            } else {
                let last = history.last();
                StatusView {
                    last_started_ms: if last.started_ms > 0 {
                        Some(last.started_ms)
                    } else {
                        None
                    },
                    last_run_ms: Some(last.run_ms),
                    last_count: Some(last.count),
                    last_error: last.error,
                    ..self.status
                }
            },
            history,
            ..self
        }
    }
}

impl RegistryView {
    /// The task of a name is at this place.
    pub open spec fn is_at(self, name: Seq<char>, i: int) -> bool {
        0 <= i < self.tasks.len() && self.tasks[i].status.name == name
    }

    /// Whether there is a task of a name.
    pub open spec fn knows(self, name: Seq<char>) -> bool {
        exists|i: int| #[trigger] self.is_at(name, i)
    }

    /// The place of the task of a name.
    pub open spec fn place(self, name: Seq<char>) -> int {
        choose|i: int| #[trigger] self.is_at(name, i)
    }

    /// The task of a name.
    pub open spec fn task(self, name: Seq<char>) -> TaskView {
        self.tasks[self.place(name)]
    }

    /// The registry with another state of the task of a name.
    pub open spec fn with_task(self, name: Seq<char>, task: TaskView) -> RegistryView {
        RegistryView { tasks: self.tasks.update(self.place(name), task), ..self }
    }

    /// The tasks are those that there are, in their order.
    pub open spec fn wf(self) -> bool {
        &&& self.tasks.len() == all_tasks().len()
        &&& forall|i: int|
            0 <= i < self.tasks.len() ==> (#[trigger] self.tasks[i]).status.name
                == all_tasks()[i].0 && self.tasks[i].status.schedule == all_tasks()[i].1
    }

    /// The registry after a run of a task has begun.
    pub open spec fn running(self, name: Seq<char>, now: u64) -> RegistryView {
        if self.knows(name) {
            self.with_task(name, self.task(name).begun(now))
        } else {
            self
        }
    }

    /// The registry after a run of a task has ended.
    pub open spec fn recorded(
        self,
        name: Seq<char>,
        count: i64,
        error: Option<Seq<char>>,
        now: u64,
    ) -> RegistryView {
        if self.knows(name) {
            self.with_task(name, self.task(name).ended(count, error, now))
        } else {
            self
        }
    }

    /// The log of a run of a task that ends now; of a task that is not known the
    /// beginning is not known either.
    pub open spec fn log(
        self,
        name: Seq<char>,
        count: i64,
        error: Option<Seq<char>>,
        now: u64,
    ) -> RunView {
        if self.knows(name) {
            self.task(name).log(count, error, now)
        } else {
            RunView { started_ms: 0, run_ms: now, count, error }
        }
    }

    /// Whether a task runs.
    pub open spec fn runs(self, name: Seq<char>) -> bool {
        self.knows(name) && self.task(name).status.is_running
    }

    /// Whether a task is paused.
    pub open spec fn pauses(self, name: Seq<char>) -> bool {
        self.knows(name) && self.task(name).status.is_paused
    }
}

/// The names of the tasks differ.
proof fn lemma_names_differ()
    ensures
        forall|i: int, j: int|
            0 <= i < j < all_tasks().len() ==> (#[trigger] all_tasks()[i]).0 != (
            #[trigger] all_tasks()[j]).0,
{
    reveal_strlit("active_forgetting");
    reveal_strlit("apply_importance_decay");
    reveal_strlit("checkpoint");
    reveal_strlit("cleanup_archived");
    reveal_strlit("consolidate_similar");
    reveal_strlit("discover_connections");
    reveal_strlit("expire_short_term");
    assert forall|i: int, j: int| 0 <= i < j < all_tasks().len() implies (
    #[trigger] all_tasks()[i]).0 != (#[trigger] all_tasks()[j]).0 by {
        let a = all_tasks()[i].0;
        let b = all_tasks()[j].0;
        assert(a.len() != b.len() || a[0] != b[0] || a[1] != b[1]);
    }
}

/// A task has one place.
proof fn lemma_place(view: RegistryView, name: Seq<char>, i: int)
    requires
        view.wf(),
        view.is_at(name, i),
    ensures
        view.knows(name),
        view.place(name) == i,
{
    lemma_names_differ();
    let p = view.place(name);
    assert(view.is_at(name, p));
    if p < i {
        assert(all_tasks()[p].0 != all_tasks()[i].0);
    } else if i < p {
        assert(all_tasks()[i].0 != all_tasks()[p].0);
    }
}

/// What is known of the background tasks.
pub struct TaskRegistry {
    entries: Vec<TaskEntry>,
    log_dir: String,
    started_at_ms: u64,
}

/// The views of some entries.
spec fn entry_views(entries: Seq<TaskEntry>) -> Seq<TaskView> {
    Seq::new(
        entries.len(),
        |i: int|
            TaskView {
                status: entries[i].status@,
                current_started_ms: entries[i].current_started_ms,
                history: run_views(entries[i].history@),
            },
    )
}

impl View for TaskRegistry {
    type V = RegistryView;

    closed spec fn view(&self) -> RegistryView {
        RegistryView {
            tasks: entry_views(self.entries@),
            log_dir: self.log_dir@,
            started_at_ms: self.started_at_ms,
        }
    }
}

/// A task that was never run.
fn fresh_entry(name: &str, schedule: &str) -> (r: TaskEntry)
    ensures
        r.status@ == new_task(name@, schedule@).status,
        r.current_started_ms is None,
        r.history@.len() == 0,
{
    TaskEntry {
        status: TaskStatus {
            name: name.to_owned(),
            schedule: schedule.to_owned(),
            is_running: false,
            is_paused: false,
            last_started_ms: None,
            last_run_ms: None,
            last_count: None,
            last_error: None,
        },
        current_started_ms: None,
        history: Vec::new(),
    }
}

/// The directory of the logs.
pub open spec fn logs_dir(data_dir: Seq<char>) -> Seq<char> {
    data_dir + "/task_logs"@
}

impl TaskRegistry {
    /// The tasks are those that there are.
    pub open spec fn inv(&self) -> bool {
        self@.wf()
    }

    /// A registry of tasks that were never run, at a given time.
    pub fn new_at(data_dir: &str, now: u64) -> (r: Self)
        ensures
            r.inv(),
            r@ == (RegistryView {
                tasks: Seq::new(
                    all_tasks().len(),
                    |i: int| new_task(all_tasks()[i].0, all_tasks()[i].1),
                ),
                log_dir: logs_dir(data_dir@),
                started_at_ms: now,
            }),
    {
        let mut entries: Vec<TaskEntry> = Vec::new();
        entries.push(fresh_entry("active_forgetting", "Daily"));
        entries.push(fresh_entry("apply_importance_decay", "Daily"));
        entries.push(fresh_entry("checkpoint", "On demand"));
        entries.push(fresh_entry("cleanup_archived", "Monthly"));
        entries.push(fresh_entry("consolidate_similar", "Weekly"));
        entries.push(fresh_entry("discover_connections", "Every hour"));
        entries.push(fresh_entry("expire_short_term", "Every 5 minutes"));
        let mut log_dir = String::new();
        log_dir.append(data_dir);
        log_dir.append("/task_logs");
        assert(log_dir@ =~= logs_dir(data_dir@));
        let r = TaskRegistry { entries, log_dir, started_at_ms: now };
        proof {
            assert forall|i: int| 0 <= i < 7 implies #[trigger] r@.tasks[i] == new_task(
                all_tasks()[i].0,
                all_tasks()[i].1,
            ) by {
                assert(run_views(r.entries@[i].history@) =~= Seq::empty());
            }
            assert(r@.tasks =~= Seq::new(
                all_tasks().len(),
                |i: int| new_task(all_tasks()[i].0, all_tasks()[i].1),
            ));
        }
        r
    }

    /// A registry of tasks that were never run.
    pub fn new(data_dir: &str) -> (r: Self)
        ensures
            r.inv(),
            r@.tasks == Seq::new(
                all_tasks().len(),
                |i: int| new_task(all_tasks()[i].0, all_tasks()[i].1),
            ),
            r@.log_dir == logs_dir(data_dir@),
            r@.started_at_ms <= types::LAST_MOMENT,
    {
        let now: u64 = types::now_ms();
        Self::new_at(data_dir, now)
    }

    /// The place of the task of a name.
    fn position(&self, name: &str) -> (r: Option<usize>)
        requires
            self.inv(),
        ensures
            match r {
                Some(i) => self@.knows(name@) && self@.place(name@) == i && i
                    < self.entries@.len(),
                None => !self@.knows(name@),
            },
    {
        let mut i: usize = 0;
        while i < self.entries.len()
            invariant
                self.inv(),
                i <= self.entries@.len(),
                forall|j: int| 0 <= j < i ==> !#[trigger] self@.is_at(name@, j),
            decreases self.entries@.len() - i,
        {
            if text::same_text(self.entries[i].status.name.as_str(), name) {
                proof {
                    assert(self@.is_at(name@, i as int));
                    lemma_place(self@, name@, i as int);
                }
                return Some(i);
            }
            i = i + 1;
        }
        None
    }

    /// Gives a task the history that was kept of it.
    pub fn load_history(&mut self, name: &str, history: Vec<RunLog>)
        requires
            old(self).inv(),
        ensures
            final(self).inv(),
            final(self)@ == (if old(self)@.knows(name@) {
                old(self)@.with_task(
                    name@,
                    old(self)@.task(name@).with_history(run_views(history@)),
                )
            } else {
                old(self)@
            }),
    {
        let ghost before = self@;
        if let Some(i) = self.position(name) {
            let n: usize = history.len();
            if n > 0 {
                let last = &history[n - 1];
                self.entries[i].status.last_started_ms = if last.started_ms > 0 {
                    Some(last.started_ms)
                } else {
                    None
                };
                self.entries[i].status.last_run_ms = Some(last.run_ms);
                self.entries[i].status.last_count = Some(last.count);
                self.entries[i].status.last_error = index::copy_text(&last.error);
                assert(run_views(history@).last() == last@);
            }
            self.entries[i].history = history;
            assert(self@ =~= before.with_task(
                name@,
                before.task(name@).with_history(run_views(history@)),
            ));
        }
    }

    /// A run of a task begins at a given time.
    pub fn set_running_at(&mut self, name: &str, now: u64)
        requires
            old(self).inv(),
        ensures
            final(self).inv(),
            final(self)@ == old(self)@.running(name@, now),
    {
        let ghost before = self@;
        if let Some(i) = self.position(name) {
            self.entries[i].status.is_running = true;
            self.entries[i].status.last_started_ms = Some(now);
            self.entries[i].current_started_ms = Some(now);
            assert(self@ =~= before.with_task(name@, before.task(name@).begun(now)));
        }
    }

    /// A run of a task begins.
    pub fn set_running(&mut self, name: &str)
        requires
            old(self).inv(),
        ensures
            final(self).inv(),
            exists|now: u64|
                now <= types::LAST_MOMENT && final(self)@ == #[trigger] old(self)@.running(
                    name@,
                    now,
                ),
    {
        let now: u64 = types::now_ms();
        self.set_running_at(name, now);
    }

    /// A run of a task ends at a given time. Its log is to be kept.
    pub fn record_result_at(&mut self, name: &str, count: i64, error: Option<String>, now: u64) -> (r:
        RunLog)
        requires
            old(self).inv(),
        ensures
            final(self).inv(),
            final(self)@ == old(self)@.recorded(name@, count, index::text_view(error), now),
            r@ == old(self)@.log(name@, count, index::text_view(error), now),
    {
        let ghost before = self@;
        let ghost said = index::text_view(error);
        match self.position(name) {
            Some(i) => {
                let started_ms: u64 = match self.entries[i].current_started_ms {
                    Some(t) => t,
                    None => now,
                };
                let log = RunLog { started_ms, run_ms: now, count, error };
                let kept = log.clone();
                let ghost old_history = run_views(self.entries@[i as int].history@);
                self.entries[i].status.is_running = false;
                self.entries[i].status.last_run_ms = Some(now);
                self.entries[i].status.last_count = Some(count);
                self.entries[i].status.last_error = index::copy_text(&log.error);
                self.entries[i].history.push(kept);
                proof {
                    assert(run_views(self.entries@[i as int].history@) =~= old_history.push(log@));
                    assert(self@ =~= before.with_task(
                        name@,
                        before.task(name@).ended(count, said, now),
                    ));
                }
                log
            },
            None => RunLog { started_ms: 0, run_ms: now, count, error },
        }
    }

    /// A run of a task ends. Its log is to be kept.
    pub fn record_result(&mut self, name: &str, count: i64, error: Option<String>) -> (r: RunLog)
        requires
            old(self).inv(),
        ensures
            final(self).inv(),
            exists|now: u64|
                now <= types::LAST_MOMENT && final(self)@ == #[trigger] old(self)@.recorded(
                    name@,
                    count,
                    index::text_view(error),
                    now,
                ) && r@ == old(self)@.log(name@, count, index::text_view(error), now),
    {
        let now: u64 = types::now_ms();
        self.record_result_at(name, count, error, now)
    }

    /// Whether there is a task of a name.
    pub fn is_known(&self, name: &str) -> (r: bool)
        requires
            self.inv(),
        ensures
            r == self@.knows(name@),
    {
        self.position(name).is_some()
    }

    /// Pauses a task; a task that is not known stays unknown.
    pub fn pause(&mut self, name: &str)
        requires
            old(self).inv(),
        ensures
            final(self).inv(),
            final(self)@ == (if old(self)@.knows(name@) {
                old(self)@.with_task(name@, old(self)@.task(name@).with_pause(true))
            } else {
                old(self)@
            }),
    {
        let ghost before = self@;
        if let Some(i) = self.position(name) {
            self.entries[i].status.is_paused = true;
            assert(self@ =~= before.with_task(name@, before.task(name@).with_pause(true)));
        }
    }

    /// Lets a task go on.
    pub fn resume(&mut self, name: &str)
        requires
            old(self).inv(),
        ensures
            final(self).inv(),
            final(self)@ == (if old(self)@.knows(name@) {
                old(self)@.with_task(name@, old(self)@.task(name@).with_pause(false))
            } else {
                old(self)@
            }),
    {
        let ghost before = self@;
        if let Some(i) = self.position(name) {
            self.entries[i].status.is_paused = false;
            assert(self@ =~= before.with_task(name@, before.task(name@).with_pause(false)));
        }
    }

    /// Whether a task is paused.
    pub fn is_paused(&self, name: &str) -> (r: bool)
        requires
            self.inv(),
        ensures
            r == self@.pauses(name@),
    {
        match self.position(name) {
            Some(i) => self.entries[i].status.is_paused,
            None => false,
        }
    }

    /// Whether a task runs.
    pub fn is_running_now(&self, name: &str) -> (r: bool)
        requires
            self.inv(),
        ensures
            r == self@.runs(name@),
    {
        match self.position(name) {
            Some(i) => self.entries[i].status.is_running,
            None => false,
        }
    }

    /// A run of a task begins at a given time, unless one goes on already.
    pub fn try_set_running_at(&mut self, name: &str, now: u64) -> (r: bool)
        requires
            old(self).inv(),
        ensures
            final(self).inv(),
            r == (old(self)@.knows(name@) && !old(self)@.runs(name@)),
            final(self)@ == (if r {
                old(self)@.running(name@, now)
            } else {
                old(self)@
            }),
    {
        if !self.is_known(name) || self.is_running_now(name) {
            return false;
        }
        self.set_running_at(name, now);
        true
    }

    /// A run of a task begins, unless one goes on already.
    pub fn try_set_running(&mut self, name: &str) -> (r: bool)
        requires
            old(self).inv(),
        ensures
            final(self).inv(),
            r == (old(self)@.knows(name@) && !old(self)@.runs(name@)),
            r ==> exists|now: u64|
                now <= types::LAST_MOMENT && final(self)@ == #[trigger] old(self)@.running(
                    name@,
                    now,
                ),
            !r ==> final(self)@ == old(self)@,
    {
        let now: u64 = types::now_ms();
        self.try_set_running_at(name, now)
    }

    /// What is known of all tasks, in the order of their names.
    pub fn list(&self) -> (r: Vec<TaskStatus>)
        ensures
            status_views(r@) == Seq::new(self@.tasks.len(), |i: int| self@.tasks[i].status),
    {
        let mut out: Vec<TaskStatus> = Vec::new();
        let mut i: usize = 0;
        while i < self.entries.len()
            invariant
                i <= self.entries@.len(),
                out@.len() == i,
                forall|j: int| 0 <= j < i ==> (#[trigger] out@[j])@ == self@.tasks[j].status,
            decreases self.entries@.len() - i,
        {
            out.push(self.entries[i].status.clone());
            i = i + 1;
        }
        assert(status_views(out@) =~= Seq::new(
            self@.tasks.len(),
            |i: int| self@.tasks[i].status,
        ));
        out
    }

    /// The runs of a task, the last one first.
    pub fn get_history(&self, name: &str) -> (r: Vec<RunLog>)
        requires
            self.inv(),
        ensures
            run_views(r@) == (if self@.knows(name@) {
                self@.task(name@).history.reverse()
            } else {
                Seq::empty()
            }),
    {
        let mut out: Vec<RunLog> = Vec::new();
        match self.position(name) {
            Some(i) => {
                let history = &self.entries[i].history;
                let ghost all = run_views(history@).reverse();
                let mut n: usize = history.len();
                while n > 0
                    invariant
                        n <= history@.len(),
                        all == run_views(history@).reverse(),
                        out@.len() == history@.len() - n,
                        forall|j: int| 0 <= j < out@.len() ==> (#[trigger] out@[j])@ == all[j],
                    decreases n,
                {
                    n = n - 1;
                    out.push(history[n].clone());
                }
                assert(run_views(out@) =~= all);
            },
            None => {
                assert(run_views(out@) =~= Seq::empty());
            },
        }
        out
    }

    /// The milliseconds since the start, at a given time.
    pub fn uptime_ms_at(&self, now: u64) -> (r: u64)
        ensures
            r == (if now >= self@.started_at_ms {
                now - self@.started_at_ms
            } else {
                0
            }),
    {
        now.saturating_sub(self.started_at_ms)
    }

    /// The milliseconds since the start.
    pub fn uptime_ms(&self) -> (r: u64)
        ensures
            exists|now: u64|
                now <= types::LAST_MOMENT && r == #[trigger] since(self@.started_at_ms, now),
    {
        let now: u64 = types::now_ms();
        let r: u64 = self.uptime_ms_at(now);
        assert(r == since(self@.started_at_ms, now));
        r
    }

    /// The path of the logs of a task.
    pub fn log_path(&self, name: &str) -> (r: String)
        ensures
            r@ == self@.log_dir + "/"@ + name@ + ".jsonl"@,
    {
        let mut out = String::new();
        out.append(self.log_dir.as_str());
        out.append("/");
        out.append(name);
        out.append(".jsonl");
        assert(out@ =~= self@.log_dir + "/"@ + name@ + ".jsonl"@);
        out
    }
}

/// The milliseconds from one time to another, if there are any.
pub open spec fn since(then: u64, now: u64) -> int {
    if now >= then {
        now - then
    } else {
        0
    }
}

/// Pausing and resuming a task leaves it as it was, if it was not paused; neither
/// changes another task.
pub proof fn law_pause_resume(view: RegistryView, name: Seq<char>, other: Seq<char>)
    requires
        view.wf(),
        view.knows(name),
        !view.pauses(name),
    ensures
        ({
            let paused = view.with_task(name, view.task(name).with_pause(true));
            let resumed = paused.with_task(name, paused.task(name).with_pause(false));
            &&& paused.pauses(name)
            &&& resumed == view
            &&& other != name && view.knows(other) ==> paused.task(other) == view.task(other)
        }),
{
    let i = view.place(name);
    assert(view.is_at(name, i));
    let paused = view.with_task(name, view.task(name).with_pause(true));
    assert(paused.wf());
    assert(paused.is_at(name, i));
    lemma_place(paused, name, i);
    let resumed = paused.with_task(name, paused.task(name).with_pause(false));
    assert(resumed.tasks =~= view.tasks);
    if other != name && view.knows(other) {
        let j = view.place(other);
        assert(view.is_at(other, j));
        assert(paused.is_at(other, j));
        lemma_place(paused, other, j);
    }
}

/// A run that begins and ends is the last of the task's history, and the task does
/// not run afterwards.
pub proof fn law_run_is_recorded(
    view: RegistryView,
    name: Seq<char>,
    start: u64,
    count: i64,
    error: Option<Seq<char>>,
    end: u64,
)
    requires
        view.wf(),
        view.knows(name),
    ensures
        ({
            let begun = view.running(name, start);
            let ended = begun.recorded(name, count, error, end);
            &&& begun.runs(name)
            &&& !ended.runs(name)
            &&& ended.task(name).history == view.task(name).history.push(
                RunView { started_ms: start, run_ms: end, count, error },
            )
        }),
{
    let i = view.place(name);
    assert(view.is_at(name, i));
    let begun = view.running(name, start);
    assert(begun.wf());
    assert(begun.is_at(name, i));
    lemma_place(begun, name, i);
    let ended = begun.recorded(name, count, error, end);
    assert(ended.wf());
    assert(ended.is_at(name, i));
    lemma_place(ended, name, i);
}

/// Whether one text comes before another.
pub open spec fn text_before(a: Seq<char>, b: Seq<char>) -> bool
    decreases a.len(),
{
    if b.len() == 0 {
        false
    } else if a.len() == 0 {
        true
    } else if a[0] != b[0] {
        a[0] < b[0]
    } else {
        text_before(a.skip(1), b.skip(1))
    }
}

/// The tasks are listed in the order of their names.
pub proof fn law_listed_by_name(view: RegistryView, i: int)
    requires
        view.wf(),
        0 <= i < view.tasks.len() - 1,
    ensures
        text_before(view.tasks[i].status.name, view.tasks[i + 1].status.name),
{
    reveal_strlit("active_forgetting");
    reveal_strlit("apply_importance_decay");
    reveal_strlit("checkpoint");
    reveal_strlit("cleanup_archived");
    reveal_strlit("consolidate_similar");
    reveal_strlit("discover_connections");
    reveal_strlit("expire_short_term");
    reveal_with_fuel(text_before, 3);
    assert(view.tasks[i].status.name == all_tasks()[i].0);
    assert(view.tasks[i + 1].status.name == all_tasks()[i + 1].0);
}

/// A task that was never run has its name and its schedule, and nothing is known of it.
pub proof fn law_new_task(name: Seq<char>, schedule: Seq<char>)
    ensures
        ({
            let task = new_task(name, schedule);
            &&& task.status.name == name
            &&& task.status.schedule == schedule
            &&& !task.status.is_running
            &&& !task.status.is_paused
            &&& task.status.last_started_ms is None
            &&& task.status.last_run_ms is None
            &&& task.status.last_count is None
            &&& task.status.last_error is None
            &&& task.current_started_ms is None
            &&& task.history.len() == 0
        }),
{
}

/// When a run begins the task runs, from that time on; what is known of earlier runs, and
/// whether it is paused, stays.
pub proof fn law_begun(task: TaskView, now: u64)
    ensures
        ({
            let after = task.begun(now);
            &&& after.status.is_running
            &&& after.status.last_started_ms == Some(now)
            &&& after.current_started_ms == Some(now)
            &&& after.history == task.history
            &&& after.status == (StatusView {
                is_running: true,
                last_started_ms: Some(now),
                ..task.status
            })
        }),
{
}

/// When a run ends the task does not run, what the run has counted and its failure are
/// what is known of it, and the run is the last of its history.
pub proof fn law_ended(task: TaskView, count: i64, error: Option<Seq<char>>, now: u64)
    ensures
        ({
            let after = task.ended(count, error, now);
            let run = after.history.last();
            &&& !after.status.is_running
            &&& after.status.last_run_ms == Some(now)
            &&& after.status.last_count == Some(count)
            &&& after.status.last_error == error
            &&& after.status.name == task.status.name
            &&& after.status.schedule == task.status.schedule
            &&& after.status.is_paused == task.status.is_paused
            &&& after.status.last_started_ms == task.status.last_started_ms
            &&& after.history.len() == task.history.len() + 1
            &&& forall|i: int|
                0 <= i < task.history.len() ==> #[trigger] after.history[i] == task.history[i]
            &&& run.run_ms == now
            &&& run.count == count
            &&& run.error == error
            &&& task.current_started_ms matches Some(t) ==> run.started_ms == t
            &&& task.current_started_ms is None ==> run.started_ms == now
            &&& task.log(count, error, now) == run
        }),
{
}

/// A task is paused or not as it is told, and nothing else of it changes.
pub proof fn law_with_pause(task: TaskView, paused: bool)
    ensures
        task.with_pause(paused).status.is_paused == paused,
        task.with_pause(paused).history == task.history,
        task.with_pause(paused).current_started_ms == task.current_started_ms,
        task.with_pause(paused).status == (StatusView { is_paused: paused, ..task.status }),
{
}

/// A history that was kept is the history of the task, and its last run is what is known
/// of it; a beginning that is not known stays unknown. Without runs nothing is known.
pub proof fn law_with_history(task: TaskView, history: Seq<RunView>)
    ensures
        ({
            let after = task.with_history(history);
            &&& after.history == history
            &&& after.status.name == task.status.name
            &&& after.status.schedule == task.status.schedule
            &&& after.status.is_running == task.status.is_running
            &&& after.status.is_paused == task.status.is_paused
            &&& history.len() == 0 ==> after.status == task.status
            &&& history.len() > 0 ==> {
                let last = history[history.len() - 1];
                &&& after.status.last_run_ms == Some(last.run_ms)
                &&& after.status.last_count == Some(last.count)
                &&& after.status.last_error == last.error
                &&& last.started_ms > 0 ==> after.status.last_started_ms == Some(last.started_ms)
                &&& last.started_ms == 0 ==> after.status.last_started_ms is None
            }
        }),
{
}

/// A change of one task leaves all others as they were, and is seen of the task itself.
pub proof fn law_one_task_changes(
    view: RegistryView,
    name: Seq<char>,
    task: TaskView,
    other: Seq<char>,
)
    requires
        view.wf(),
        view.knows(name),
        task.status.name == name,
        task.status.schedule == view.task(name).status.schedule,
    ensures
        ({
            let after = view.with_task(name, task);
            &&& after.wf()
            &&& after.task(name) == task
            &&& after.log_dir == view.log_dir
            &&& after.started_at_ms == view.started_at_ms
            &&& other != name && view.knows(other) ==> after.knows(other) && after.task(other)
                == view.task(other)
        }),
{
    let i = view.place(name);
    assert(view.is_at(name, i));
    let after = view.with_task(name, task);
    assert(after.wf());
    assert(after.is_at(name, i));
    lemma_place(after, name, i);
    if other != name && view.knows(other) {
        let j = view.place(other);
        assert(view.is_at(other, j));
        assert(after.is_at(other, j));
        lemma_place(after, other, j);
    }
}

/// A run that begins and ends is seen of its task alone: the task runs in between, and
/// its status and its last run then say what came of it. Nothing happens to a task that
/// is not known.
pub proof fn law_run_of_a_task(
    view: RegistryView,
    name: Seq<char>,
    other: Seq<char>,
    count: i64,
    error: Option<Seq<char>>,
    now: u64,
)
    requires
        view.wf(),
    ensures
        view.knows(name) ==> {
            let begun = view.running(name, now);
            let ended = view.recorded(name, count, error, now);
            &&& begun.task(name).status.is_running
            &&& begun.task(name).status.last_started_ms == Some(now)
            &&& begun.task(name).history == view.task(name).history
            &&& !ended.task(name).status.is_running
            &&& ended.task(name).status.last_count == Some(count)
            &&& ended.task(name).status.last_error == error
            &&& ended.task(name).status.last_run_ms == Some(now)
            &&& ended.task(name).history.len() == view.task(name).history.len() + 1
            &&& view.log(name, count, error, now) == ended.task(name).history.last()
            &&& other != name && view.knows(other) ==> begun.task(other) == view.task(other)
                && ended.task(other) == view.task(other)
        },
        !view.knows(name) ==> {
            &&& view.running(name, now) == view
            &&& view.recorded(name, count, error, now) == view
            &&& view.log(name, count, error, now).count == count
            &&& view.log(name, count, error, now).error == error
            &&& view.log(name, count, error, now).run_ms == now
            &&& view.log(name, count, error, now).started_ms == 0
        },
{
    if view.knows(name) {
        let i = view.place(name);
        assert(view.is_at(name, i));
        law_one_task_changes(view, name, view.task(name).begun(now), other);
        law_one_task_changes(view, name, view.task(name).ended(count, error, now), other);
    }
}

/// Whether a task runs or is paused is what its status says; a task that is not known
/// does neither.
pub proof fn law_runs_and_pauses(view: RegistryView, name: Seq<char>, i: int)
    requires
        view.wf(),
    ensures
        0 <= i < view.tasks.len() && view.tasks[i].status.name == name ==> {
            &&& view.knows(name)
            &&& view.task(name) == view.tasks[i]
            &&& view.runs(name) == view.tasks[i].status.is_running
            &&& view.pauses(name) == view.tasks[i].status.is_paused
        },
        !view.knows(name) ==> !view.runs(name) && !view.pauses(name),
        view.knows(name) ==> exists|j: int|
            0 <= j < view.tasks.len() && (#[trigger] view.tasks[j]).status.name == name,
{
    if 0 <= i < view.tasks.len() && view.tasks[i].status.name == name {
        assert(view.is_at(name, i));
        lemma_place(view, name, i);
    }
    if view.knows(name) {
        let j = view.place(name);
        assert(view.is_at(name, j));
        assert(view.tasks[j].status.name == name);
    }
}

/// The tasks that there are, and how often they run.
pub proof fn law_all_tasks()
    ensures
        all_tasks().len() == 7,
        all_tasks().contains(("expire_short_term"@, "Every 5 minutes"@)),
        all_tasks().contains(("apply_importance_decay"@, "Daily"@)),
        all_tasks().contains(("active_forgetting"@, "Daily"@)),
        all_tasks().contains(("consolidate_similar"@, "Weekly"@)),
        all_tasks().contains(("cleanup_archived"@, "Monthly"@)),
        all_tasks().contains(("discover_connections"@, "Every hour"@)),
        all_tasks().contains(("checkpoint"@, "On demand"@)),
{
    let all = all_tasks();
    assert(all[0] == ("active_forgetting"@, "Daily"@));
    assert(all[1] == ("apply_importance_decay"@, "Daily"@));
    assert(all[2] == ("checkpoint"@, "On demand"@));
    assert(all[3] == ("cleanup_archived"@, "Monthly"@));
    assert(all[4] == ("consolidate_similar"@, "Weekly"@));
    assert(all[5] == ("discover_connections"@, "Every hour"@));
    assert(all[6] == ("expire_short_term"@, "Every 5 minutes"@));
}

/// What is seen of a status and of a run is all that they say.
pub proof fn law_views(status: TaskStatus, run: RunLog)
    ensures
        status@.name == status.name@,
        status@.schedule == status.schedule@,
        status@.is_running == status.is_running,
        status@.is_paused == status.is_paused,
        status@.last_started_ms == status.last_started_ms,
        status@.last_run_ms == status.last_run_ms,
        status@.last_count == status.last_count,
        status.last_error is None <==> status@.last_error is None,
        status.last_error matches Some(e) ==> status@.last_error == Some(e@),
        run@.started_ms == run.started_ms,
        run@.run_ms == run.run_ms,
        run@.count == run.count,
        run.error is None <==> run@.error is None,
        run.error matches Some(e) ==> run@.error == Some(e@),
{
}

/// What tasks and runs are is what each of them is, in their order.
pub proof fn law_list_views(tasks: Seq<TaskStatus>, logs: Seq<RunLog>, i: int)
    ensures
        status_views(tasks).len() == tasks.len(),
        0 <= i < tasks.len() ==> status_views(tasks)[i] == tasks[i]@,
        run_views(logs).len() == logs.len(),
        0 <= i < logs.len() ==> run_views(logs)[i] == logs[i]@,
{
}

/// The logs lie in a directory of their own under that of the data.
pub proof fn law_logs_dir(data_dir: Seq<char>)
    ensures
        logs_dir(data_dir) == data_dir + "/task_logs"@,
{
}

/// The time from one moment to a later one is their difference; there is none to an
/// earlier one.
pub proof fn law_since(then: u64, now: u64)
    ensures
        now >= then ==> then + since(then, now) == now,
        now <= then ==> since(then, now) == 0,
{
}

/// Of two names that agree up to some place and differ there, the one with the smaller
/// character comes first.
pub proof fn law_text_before(a: Seq<char>, b: Seq<char>, place: int)
    requires
        0 <= place < a.len(),
        place < b.len(),
        forall|i: int| 0 <= i < place ==> #[trigger] a[i] == b[i],
        a[place] != b[place],
    ensures
        text_before(a, b) == (a[place] < b[place]),
    decreases place,
{
    if place > 0 {
        assert(a[0] == b[0]);
        let ta = a.skip(1);
        let tb = b.skip(1);
        assert(ta[place - 1] == a[place] && tb[place - 1] == b[place]);
        assert forall|i: int| 0 <= i < place - 1 implies #[trigger] ta[i] == tb[i] by {
            assert(ta[i] == a[i + 1] && tb[i] == b[i + 1]);
        }
        law_text_before(ta, tb, place - 1);
    }
}

} // verus!
