use dirge_agent::tools::background::{
    prepend_pending_notifications, BackgroundStore, LifecycleEvent, LifecycleSender, TaskNotification,
    TaskState, MAX_TASK_OUTPUT_CHARS, STORE_CAPACITY,
};
use std::cell::RefCell;
use std::rc::Rc;

fn unwrap_finished(evt: LifecycleEvent) -> TaskNotification {
    match evt {
        LifecycleEvent::Finished(n) => n,
        other => panic!("expected Finished, got {:?}", other),
    }
}

fn with_sink() -> BackgroundStore {
    BackgroundStore::with_ui_sink(LifecycleSender { id: 1 })
}

#[test]
fn insert_then_get_returns_running() {
    let mut store = BackgroundStore::new();
    store.insert("t1".into());
    let task = store.get("t1").expect("task present");
    assert_eq!(task.state, TaskState::Running);
}

#[test]
fn get_on_missing_returns_none() {
    assert!(BackgroundStore::new().get("nope").is_none());
}

#[test]
fn regression_get_is_read_only_after_completion() {
    let mut store = BackgroundStore::new();
    store.insert("t1".into());
    store.notify("t1", TaskState::Completed("done".into()));

    for _ in 0..3 {
        let task = store.get("t1").expect("must remain after read");
        assert_eq!(task.state, TaskState::Completed("done".into()));
    }
    assert_eq!(store.len(), 1);
}

#[test]
fn notify_pushes_completed_to_pending_queue() {
    let mut store = BackgroundStore::new();
    store.insert("t1".into());
    store.notify("t1", TaskState::Completed("done".into()));
    assert_eq!(store.pending_len(), 1);
}

#[test]
fn regression_notify_truncates_completed_text() {
    let mut store = BackgroundStore::new();
    store.insert("t1".into());
    let huge = "x".repeat(MAX_TASK_OUTPUT_CHARS * 2);
    store.notify("t1", TaskState::Completed(huge));

    let TaskState::Completed(text) = store.get("t1").unwrap().state else {
        panic!("expected Completed");
    };
    assert_eq!(text.chars().count(), MAX_TASK_OUTPUT_CHARS);
}

#[test]
fn regression_notify_truncates_failed_error() {
    let mut store = BackgroundStore::new();
    store.insert("t1".into());
    let huge = "e".repeat(MAX_TASK_OUTPUT_CHARS * 2);
    store.notify("t1", TaskState::Failed(huge));

    let TaskState::Failed(text) = store.get("t1").unwrap().state else {
        panic!("expected Failed");
    };
    assert_eq!(text.chars().count(), MAX_TASK_OUTPUT_CHARS);
}

#[test]
fn notify_truncates_by_chars_not_bytes() {
    let mut store = BackgroundStore::new();
    store.insert("t1".into());
    let emojis = "🦀".repeat(MAX_TASK_OUTPUT_CHARS * 2);
    store.notify("t1", TaskState::Completed(emojis));
    let TaskState::Completed(text) = store.get("t1").unwrap().state else {
        panic!("expected Completed");
    };
    assert_eq!(text.chars().count(), MAX_TASK_OUTPUT_CHARS);
    assert_eq!(text.as_str(), &"🦀".repeat(MAX_TASK_OUTPUT_CHARS));
}

#[test]
fn notify_on_missing_id_is_noop() {
    let mut store = BackgroundStore::new();
    store.notify("ghost", TaskState::Completed("never inserted".into()));
    assert!(store.get("ghost").is_none());
    assert_eq!(store.pending_len(), 0);
}

#[test]
fn notify_with_running_state_is_noop() {
    let mut store = BackgroundStore::new();
    store.insert("t1".into());
    store.notify("t1", TaskState::Running);
    assert_eq!(store.pending_len(), 0);
    assert_eq!(store.get("t1").unwrap().state, TaskState::Running);
}

#[test]
fn regression_double_notify_enqueues_once() {
    let mut store = BackgroundStore::new();
    store.insert("t1".into());
    store.notify("t1", TaskState::Completed("first".into()));
    store.notify("t1", TaskState::Completed("second".into()));
    assert_eq!(store.pending_len(), 1);
    let TaskState::Completed(text) = store.get("t1").unwrap().state else {
        panic!("expected Completed");
    };
    assert_eq!(text, "second");
}

#[test]
fn drain_returns_pending_then_empties_queue() {
    let mut store = BackgroundStore::new();
    store.insert("t1".into());
    store.insert("t2".into());
    store.notify("t1", TaskState::Completed("a".into()));
    store.notify("t2", TaskState::Failed("b".into()));

    let drained = store.drain_notifications();
    assert_eq!(drained.len(), 2);
    assert_eq!(drained[0].id, "t1");
    assert_eq!(drained[0].state, TaskState::Completed("a".into()));
    assert_eq!(drained[1].id, "t2");
    assert_eq!(drained[1].state, TaskState::Failed("b".into()));

    assert!(store.drain_notifications().is_empty());
    assert!(store.get("t1").is_some());
    assert!(store.get("t2").is_some());
}

#[test]
fn drain_is_empty_when_nothing_pending() {
    let mut store = BackgroundStore::new();
    store.insert("t1".into());
    assert!(store.drain_notifications().is_empty());
}

#[test]
fn regression_lru_evicts_oldest_at_capacity() {
    let mut store = BackgroundStore::new();
    for i in 0..STORE_CAPACITY {
        store.insert(format!("t{i}"));
    }
    assert_eq!(store.len(), STORE_CAPACITY);
    store.insert("overflow".into());
    assert_eq!(store.len(), STORE_CAPACITY);
    assert!(store.get("t0").is_none());
    assert!(store.get("overflow").is_some());
    assert!(store.get(&format!("t{}", STORE_CAPACITY - 1)).is_some());
}

#[test]
fn re_insert_existing_id_does_not_evict() {
    let mut store = BackgroundStore::new();
    for i in 0..STORE_CAPACITY {
        store.insert(format!("t{i}"));
    }
    store.insert("t5".into());
    assert_eq!(store.len(), STORE_CAPACITY);
    assert!(store.get("t0").is_some(), "oldest must NOT be evicted");
    assert_eq!(store.get("t5").unwrap().state, TaskState::Running);
}

#[test]
fn regression_notify_on_evicted_id_is_noop() {
    let mut store = BackgroundStore::new();
    for i in 0..STORE_CAPACITY {
        store.insert(format!("t{i}"));
    }
    store.insert("overflow".into()); // evicts t0

    store.notify("t0", TaskState::Completed("late".into()));
    assert_eq!(store.pending_len(), 0);
    assert!(store.drain_notifications().is_empty());
}

#[test]
fn clones_share_state() {
    let a = Rc::new(RefCell::new(BackgroundStore::new()));
    let b = a.clone();
    a.borrow_mut().insert("t1".into());
    b.borrow_mut().notify("t1", TaskState::Completed("via b".into()));

    let drained = a.borrow_mut().drain_notifications();
    assert_eq!(drained.len(), 1);
    assert_eq!(drained[0].id, "t1");
}

#[test]
fn prepend_passthrough_when_store_is_none() {
    let out = prepend_pending_notifications("hello", None);
    assert_eq!(out, "hello");
}

#[test]
fn prepend_passthrough_when_nothing_pending() {
    let mut store = BackgroundStore::new();
    store.insert("t1".into()); // running, not pending
    let out = prepend_pending_notifications("hello", Some(&mut store));
    assert_eq!(out, "hello");
}

#[test]
fn prepend_formats_system_reminder() {
    let mut store = BackgroundStore::new();
    store.insert("t1".into());
    store.notify("t1", TaskState::Completed("the result".into()));

    let out = prepend_pending_notifications("user msg", Some(&mut store));
    assert!(out.starts_with("<system-reminder>\n"));
    assert!(out.contains("Task t1 (completed):"));
    assert!(out.contains("the result"));
    assert!(out.contains("</system-reminder>\n\n"));
    assert!(out.ends_with("user msg"));
}

#[test]
fn prepend_includes_failed_tasks() {
    let mut store = BackgroundStore::new();
    store.insert("t1".into());
    store.notify("t1", TaskState::Failed("kaboom".into()));

    let out = prepend_pending_notifications("user msg", Some(&mut store));
    assert!(out.contains("Task t1 (failed):"));
    assert!(out.contains("kaboom"));
}

#[test]
fn regression_prepend_drains_queue_once() {
    let mut store = BackgroundStore::new();
    store.insert("t1".into());
    store.notify("t1", TaskState::Completed("once".into()));

    let first = prepend_pending_notifications("msg", Some(&mut store));
    assert!(first.contains("once"));

    let second = prepend_pending_notifications("msg", Some(&mut store));
    assert_eq!(second, "msg");
}

#[test]
fn prepend_includes_all_pending_tasks_in_order() {
    let mut store = BackgroundStore::new();
    for i in 0..3 {
        store.insert(format!("t{i}"));
        store.notify(&format!("t{i}"), TaskState::Completed(format!("r{i}")));
    }
    let out = prepend_pending_notifications("msg", Some(&mut store));
    let i0 = out.find("Task t0").unwrap();
    let i1 = out.find("Task t1").unwrap();
    let i2 = out.find("Task t2").unwrap();
    assert!(i0 < i1 && i1 < i2);
}

#[test]
fn regression_drain_returns_snapshotted_state_after_eviction() {
    let mut store = BackgroundStore::new();
    store.insert("victim".into());
    store.notify("victim", TaskState::Completed("the result".into()));

    for i in 0..STORE_CAPACITY {
        store.insert(format!("filler{i}"));
    }
    assert!(store.get("victim").is_none(), "victim must be evicted");

    let drained = store.drain_notifications();
    assert_eq!(drained.len(), 1);
    assert_eq!(drained[0].id, "victim");
    assert_eq!(drained[0].state, TaskState::Completed("the result".into()));
}

#[test]
fn cancel_all_aborts_in_flight_tasks() {
    let mut store = BackgroundStore::new();
    store.insert("t1".into());
    store.attach_handle("t1", 42);
    store.insert("t_stale".into());
    store.notify("t_stale", TaskState::Completed("prev session".into()));
    assert_eq!(store.pending_len(), 1);

    store.cancel_all();

    assert_eq!(store.pending_len(), 0, "cancel_all must clear pending");
    assert_eq!(store.take_aborts(), vec![42]);
    let t1 = store.get("t1").expect("t1 retained");
    match &t1.state {
        TaskState::Failed(reason) => assert!(reason.contains("cancelled"), "got {reason:?}"),
        other => panic!("expected Failed cancelled, got {:?}", other),
    }
}

#[test]
fn ui_sink_receives_completion_event() {
    let mut store = with_sink();
    store.insert("t1".into());
    store.notify("t1", TaskState::Completed("done".into()));
    let mut events = store.take_events();
    assert_eq!(events.len(), 1);
    let notif = unwrap_finished(events.pop().unwrap());
    assert_eq!(notif.id, "t1");
    assert_eq!(notif.state, TaskState::Completed("done".into()));
}

#[test]
fn ui_sink_receives_failure_event() {
    let mut store = with_sink();
    store.insert("t1".into());
    store.notify("t1", TaskState::Failed("boom".into()));
    let notif = unwrap_finished(store.take_events().pop().unwrap());
    assert_eq!(notif.state, TaskState::Failed("boom".into()));
}

#[test]
fn ui_sink_event_carries_truncated_payload() {
    let mut store = with_sink();
    store.insert("t1".into());
    let huge = "x".repeat(MAX_TASK_OUTPUT_CHARS * 2);
    store.notify("t1", TaskState::Completed(huge));
    let notif = unwrap_finished(store.take_events().pop().unwrap());
    let TaskState::Completed(text) = notif.state else {
        panic!("expected Completed");
    };
    assert_eq!(text.chars().count(), MAX_TASK_OUTPUT_CHARS);
}

#[test]
fn ui_sink_does_not_receive_running_state() {
    let mut store = with_sink();
    store.insert("t1".into());
    store.notify("t1", TaskState::Running);
    assert!(store.take_events().is_empty());
}

#[test]
fn ui_sink_no_event_for_evicted_id() {
    let mut store = with_sink();
    store.notify("ghost", TaskState::Completed("late".into()));
    assert!(store.take_events().is_empty());
}

#[test]
fn notify_started_fires_only_on_ui_sink() {
    let mut store = with_sink();
    store.insert("t1".into());
    store.notify_started("t1");
    match store.take_events().pop().expect("Started event delivered") {
        LifecycleEvent::Started { id } => assert_eq!(id, "t1"),
        other => panic!("expected Started, got {other:?}"),
    }
    assert!(store.drain_notifications().is_empty());
}

#[test]
fn notify_started_with_no_ui_sink_is_noop() {
    let mut store = BackgroundStore::new();
    store.notify_started("t1");
    assert_eq!(store.pending_len(), 0);
    assert!(store.take_events().is_empty());
}

#[test]
fn no_handle_is_held_of_a_task_that_ended() {
    let mut store = BackgroundStore::new();
    store.insert("t1".into());
    store.notify("t1", TaskState::Completed("done".into()));
    store.attach_handle("t1", 7);
    assert_eq!(store.running_count(), 0);
    store.attach_handle("unknown", 8);
    assert_eq!(store.running_count(), 0);
    store.insert("t2".into());
    store.attach_handle("t2", 9);
    store.attach_handle("t2", 10);
    assert_eq!(store.running_count(), 1);
    assert_eq!(store.take_aborts(), vec![9]);
}
