use attendance::pipeline::PipelineError;
use attendance::pipeline::Student;
use attendance::scheduler::decide_wake;
use attendance::scheduler::finish_cycle;
use attendance::scheduler::SchedulerStep;
use attendance::store::AppState;
use attendance::store::SnapshotStore;
use attendance::store::Trigger;

fn student(name: &str, start: i64) -> Student {
    Student {
        name: name.to_string(),
        belt: "White".to_string(),
        time_start_dt: start,
        time_start: "07:00 am".to_string(),
        time_end: "08:00 am".to_string(),
    }
}

#[test]
fn store_starts_empty() {
    let store = SnapshotStore::new();
    assert!(store.read().is_empty());
}

#[test]
fn replace_swaps_the_whole_snapshot() {
    let mut store = SnapshotStore::new();
    store.replace(vec![student("Ada", 1), student("Grace", 2)]);
    let snap = store.read();
    assert_eq!(snap.len(), 2);
    assert_eq!(snap[0].name, "Ada");
    assert_eq!(snap[1].name, "Grace");
}

#[test]
fn read_is_an_independent_copy() {
    let mut store = SnapshotStore::new();
    store.replace(vec![student("Ada", 1)]);
    let held = store.read();
    store.replace(vec![]);
    assert_eq!(held.len(), 1);
    assert_eq!(held[0].name, "Ada");
    assert!(store.read().is_empty());
}

#[test]
fn trigger_is_idempotent_and_consumed_once() {
    let mut t = Trigger::new();
    let mut consumed = t.consume_if_set();
    assert!(!consumed);
    t.request();
    t.request();
    consumed = t.consume_if_set();
    assert!(consumed);
    assert!(!t.consume_if_set());
}

#[test]
fn pending_request_wakes_before_the_interval() {
    let mut t = Trigger::new();
    t.request();
    // None of the interval has elapsed, yet the next poll runs the pipeline.
    assert_eq!(decide_wake(&mut t, false, false), SchedulerStep::RunPipeline);
    // The request was consumed: the poll after it keeps waiting.
    assert_eq!(decide_wake(&mut t, false, false), SchedulerStep::KeepWaiting);
}

#[test]
fn elapsed_interval_wakes_without_a_request() {
    let mut t = Trigger::new();
    assert_eq!(decide_wake(&mut t, true, false), SchedulerStep::RunPipeline);
}

#[test]
fn shutdown_wins_over_everything() {
    let mut t = Trigger::new();
    t.request();
    assert_eq!(decide_wake(&mut t, true, true), SchedulerStep::Exit);
    // Shutdown does not consume the request.
    assert_eq!(decide_wake(&mut t, false, false), SchedulerStep::RunPipeline);
}

#[test]
fn successful_run_replaces_the_snapshot() {
    let mut store = SnapshotStore::new();
    store.replace(vec![student("Old", 1)]);
    let replaced = finish_cycle(&mut store, Ok(vec![student("New", 2)]));
    assert!(replaced);
    let snap = store.read();
    assert_eq!(snap.len(), 1);
    assert_eq!(snap[0].name, "New");
}

#[test]
fn failed_run_keeps_the_previous_snapshot() {
    let mut store = SnapshotStore::new();
    store.replace(vec![student("Old", 1)]);
    for err in [
        PipelineError::TransportFailure,
        PipelineError::DecodeFailure,
        PipelineError::TimeParseFailure,
    ] {
        let replaced = finish_cycle(&mut store, Err(err));
        assert!(!replaced);
        let snap = store.read();
        assert_eq!(snap.len(), 1);
        assert_eq!(snap[0].name, "Old");
        assert_eq!(snap[0].time_start_dt, 1);
    }
}

#[test]
fn app_state_starts_empty_with_no_pending_refresh() {
    let mut app = AppState::new();
    assert!(app.students.read().is_empty());
    assert!(!app.should_refresh.consume_if_set());
}
