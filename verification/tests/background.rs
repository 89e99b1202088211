use remem_server::access::AccessConfig;
use remem_server::error::AppError;
use remem_server::tasks::lifecycle::{begin_task, finish_task, on_tick, work_of, TaskWork};
use remem_server::tasks::registry::RunLog;
use remem_server::tasks::supervisor::{
    backoff_seconds, DiscoveryWorkerState, WorkerExit, WorkerSlot, WorkerStep,
};
use remem_server::tasks::TaskRegistry;

fn test_registry() -> TaskRegistry {
    TaskRegistry::new("/tmp/remem-test-registry")
}

#[test]
fn pause_and_resume() {
    let mut r = test_registry();
    assert!(!r.is_paused("expire_short_term"));
    r.pause("expire_short_term");
    assert!(r.is_paused("expire_short_term"));
    r.resume("expire_short_term");
    assert!(!r.is_paused("expire_short_term"));
}

#[test]
fn pause_unknown_task_is_noop() {
    let mut r = test_registry();
    r.pause("does_not_exist");
    assert!(!r.is_paused("does_not_exist"));
}

#[test]
fn paused_flag_reflected_in_task_status() {
    let mut r = test_registry();
    r.pause("checkpoint");
    let status = r.list();
    let ckpt = status.iter().find(|t| t.name == "checkpoint").unwrap();
    assert!(ckpt.is_paused);
}

#[test]
fn is_running_now_reflects_set_running() {
    let mut r = test_registry();
    assert!(!r.is_running_now("expire_short_term"));
    r.set_running("expire_short_term");
    assert!(r.is_running_now("expire_short_term"));
    r.record_result("expire_short_term", 0, None);
    assert!(!r.is_running_now("expire_short_term"));
}

#[test]
fn discovery_worker_state_initializes_correctly() {
    let s = DiscoveryWorkerState::new(2);
    assert_eq!(s.total, 2);
    assert_eq!(s.alive, 0);
    assert_eq!(s.restart_count, 0);
    assert!(s.last_panic.is_none());
}

#[test]
fn tasks_are_listed_by_name() {
    let names: Vec<String> = test_registry().list().into_iter().map(|t| t.name).collect();
    let mut sorted = names.clone();
    sorted.sort();
    assert_eq!(names, sorted);
    assert_eq!(names.len(), 7);
    let r = test_registry();
    assert!(names.iter().all(|n| r.is_known(n) && work_of(n).is_ok()));
    assert!(!r.is_known("nothing"));
    let status = r.list();
    let weekly = status.iter().find(|t| t.name == "consolidate_similar").unwrap();
    assert_eq!(weekly.schedule, "Weekly");
}

#[test]
fn running_task_does_not_start_twice() {
    let mut r = test_registry();
    assert!(r.try_set_running("checkpoint"));
    assert!(!r.try_set_running("checkpoint"));
    assert!(!r.try_set_running("does_not_exist"));
    r.record_result("checkpoint", 1, None);
    assert!(r.try_set_running("checkpoint"));
}

#[test]
fn history_has_the_last_run_first() {
    let mut r = TaskRegistry::new_at("/data", 100);
    r.set_running_at("checkpoint", 110);
    let first = r.record_result_at("checkpoint", 3, None, 120);
    assert_eq!((first.started_ms, first.run_ms, first.count), (110, 120, 3));
    r.set_running_at("checkpoint", 130);
    r.record_result_at("checkpoint", -1, Some("no disk".to_string()), 140);
    let history = r.get_history("checkpoint");
    assert_eq!(history.len(), 2);
    assert_eq!(history[0].error.as_deref(), Some("no disk"));
    assert_eq!(history[1].run_ms, 120);
    let status = r.list();
    let ckpt = status.iter().find(|t| t.name == "checkpoint").unwrap();
    assert_eq!(ckpt.last_started_ms, Some(130));
    assert_eq!(ckpt.last_run_ms, Some(140));
    assert_eq!(ckpt.last_count, Some(-1));
    assert_eq!(ckpt.last_error.as_deref(), Some("no disk"));
    assert!(r.get_history("unknown").is_empty());
    assert_eq!(r.uptime_ms_at(350), 250);
    assert_eq!(r.uptime_ms_at(50), 0);
    assert_eq!(r.log_path("checkpoint"), "/data/task_logs/checkpoint.jsonl");
}

#[test]
fn unknown_task_is_logged_without_a_beginning() {
    let mut r = TaskRegistry::new_at("/data", 0);
    let log = r.record_result_at("odd", 4, None, 9);
    assert_eq!((log.started_ms, log.run_ms, log.count), (0, 9, 4));
    assert!(r.get_history("odd").is_empty());
    let unbegun = r.record_result_at("checkpoint", 4, None, 9);
    assert_eq!(unbegun.started_ms, 9);
}

#[test]
fn kept_history_fills_the_status() {
    let mut r = TaskRegistry::new_at("/data", 0);
    let log = |started_ms: u64, run_ms: u64| RunLog { started_ms, run_ms, count: 2, error: None };
    r.load_history("checkpoint", vec![log(5, 6), log(0, 8)]);
    let status = r.list();
    let ckpt = status.iter().find(|t| t.name == "checkpoint").unwrap();
    assert_eq!(ckpt.last_started_ms, None);
    assert_eq!(ckpt.last_run_ms, Some(8));
    assert_eq!(ckpt.last_count, Some(2));
    assert!(!ckpt.is_running);
    assert_eq!(r.get_history("checkpoint").len(), 2);
}

#[test]
fn runs_of_tasks_are_recorded() {
    let mut r = TaskRegistry::new_at("/data", 0);
    let work = begin_task(&mut r, "cleanup_archived", 10).unwrap();
    assert_eq!(work, TaskWork::CleanupArchived { max_age_days: 30 });
    assert!(r.is_running_now("cleanup_archived"));
    let log = finish_task(&mut r, "cleanup_archived", Ok(4), 20);
    assert_eq!((log.started_ms, log.run_ms, log.count), (10, 20, 4));
    assert!(log.error.is_none());
    let failed = finish_task(&mut r, "cleanup_archived", Err(AppError::Unauthorized), 30);
    assert_eq!(failed.count, -1);
    assert_eq!(failed.error.as_deref(), Some("unauthorized"));
    let unknown = begin_task(&mut r, "odd", 10);
    assert_eq!(unknown.err().unwrap().message(), "validation error: unknown task: odd");
}

#[test]
fn paused_task_skips_its_tick() {
    let mut r = TaskRegistry::new_at("/data", 0);
    r.pause("consolidate_similar");
    assert!(on_tick(&mut r, "consolidate_similar", 10).is_none());
    assert!(!r.is_running_now("consolidate_similar"));
    r.resume("consolidate_similar");
    let begun = on_tick(&mut r, "consolidate_similar", 20).unwrap().unwrap();
    assert_eq!(begun, TaskWork::ConsolidateSimilar);
    assert!(r.is_running_now("consolidate_similar"));
    assert!(on_tick(&mut r, "odd", 30).unwrap().is_err());
}

#[test]
fn discovery_looks_for_close_memories() {
    match work_of("discover_connections").unwrap() {
        TaskWork::DiscoverConnections { threshold, top_k } => {
            assert_eq!(f32::from_bits(threshold), 0.7);
            assert_eq!(top_k, 5);
        }
        other => panic!("unexpected: {:?}", other),
    }
}

#[test]
fn panic_updates_counters_and_gives_up_at_zero_max() {
    let mut state = DiscoveryWorkerState::new(1);
    let mut slot = WorkerSlot::new(0);
    state.on_start();
    assert_eq!(state.alive, 1);
    let step = slot.on_exit(&mut state, WorkerExit::Panicked("deliberate test panic".to_string()));
    assert_eq!(step, WorkerStep::GiveUp);
    assert_eq!(state.restart_count, 1);
    assert_eq!(state.alive, 0);
    assert_eq!(state.last_panic.as_deref(), Some("deliberate test panic"));
}

#[test]
fn panic_triggers_restart_and_worker_recovers() {
    let mut state = DiscoveryWorkerState::new(1);
    let mut slot = WorkerSlot::new(5);
    state.on_start();
    let step = slot.on_exit(&mut state, WorkerExit::Panicked("first run panics".to_string()));
    assert_eq!(step, WorkerStep::RestartAfter { seconds: 2 });
    state.on_start();
    assert_eq!(slot.on_exit(&mut state, WorkerExit::Clean), WorkerStep::Stop);
    assert_eq!(state.restart_count, 1);
    assert_eq!(state.alive, 0);
}

#[test]
fn max_restarts_gives_up_after_n_retries() {
    let mut state = DiscoveryWorkerState::new(1);
    let mut slot = WorkerSlot::new(2);
    let mut steps = Vec::new();
    loop {
        state.on_start();
        let step = slot.on_exit(&mut state, WorkerExit::Panicked("always panics".to_string()));
        steps.push(step);
        if step == WorkerStep::GiveUp {
            break;
        }
    }
    assert_eq!(
        steps,
        vec![
            WorkerStep::RestartAfter { seconds: 2 },
            WorkerStep::RestartAfter { seconds: 4 },
            WorkerStep::GiveUp
        ]
    );
    assert_eq!(state.restart_count, 3);
    assert_eq!(state.alive, 0);
    assert_eq!([1, 2, 3, 4, 9].map(backoff_seconds), [2, 4, 8, 8, 8]);
}

#[test]
fn requests_need_the_key() {
    let with_key = |key: &str, open: bool| AccessConfig {
        api_key: key.to_string(),
        allow_auth_disabled: open,
    };
    assert!(with_key("secret", false).authorize(Some("secret")).is_ok());
    let wrong = with_key("secret", true).authorize(Some("other"));
    assert_eq!(wrong.err().unwrap().status(), 401);
    assert_eq!(with_key("secret", true).authorize(None).err().unwrap().status(), 401);
    assert!(with_key("", true).authorize(None).is_ok());
    assert_eq!(with_key("", false).authorize(Some("")).err().unwrap().status(), 500);
}
