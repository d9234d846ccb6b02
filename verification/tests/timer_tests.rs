use focusflow::session::FocusSession;
use focusflow::store::SessionStore;
use focusflow::timer::{
    TimerState, build_session_on_stop, pause_timer, resume_timer, start_timer, stop_timer,
};

fn session(id: &str, task: &str, duration: u32, start: &str, tags: Vec<String>) -> FocusSession {
    FocusSession {
        id: id.to_string(),
        task: task.to_string(),
        duration,
        start_time: start.to_string(),
        end_time: start.to_string(),
        completed: true,
        tags,
    }
}

#[test]
fn new_timer_is_idle() {
    let t = TimerState::new();
    assert!(!t.is_running);
    assert_eq!(t.remaining_seconds, 0);
    assert!(t.current_task.is_none());
    assert!(t.start_time.is_none());
}

#[test]
fn start_then_stop_records_duration_and_completion() {
    let mut t = TimerState::new();
    start_timer(
        &mut t,
        25,
        "deep work".to_string(),
        "2024-01-01T09:00:00+00:00".to_string(),
    );
    assert!(t.is_running);
    assert_eq!(t.remaining_seconds, 25 * 60);
    let s = build_session_on_stop(
        &t,
        "id-1".to_string(),
        "2024-01-01T09:25:00+00:00".to_string(),
        true,
    );
    assert_eq!(s.duration, 25);
    assert!(s.completed);
    assert_eq!(s.task, "deep work");
    assert_eq!(s.start_time, "2024-01-01T09:00:00+00:00");
    assert!(s.tags.is_empty());
    stop_timer(&mut t);
    assert!(!t.is_running);
    assert!(t.current_task.is_none());
}

#[test]
fn one_minute_session_records_one_minute() {
    let mut t = TimerState::new();
    start_timer(&mut t, 1, "tiny".to_string(), "now".to_string());
    let s = build_session_on_stop(&t, "id".to_string(), "later".to_string(), true);
    assert_eq!(s.duration, 1);
}

#[test]
fn under_a_minute_rounds_up_to_one() {
    let t = TimerState {
        is_running: true,
        remaining_seconds: 42,
        current_task: Some("short".to_string()),
        start_time: Some("now".to_string()),
    };
    let s = build_session_on_stop(&t, "id".to_string(), "later".to_string(), false);
    assert_eq!(s.duration, 1);
    assert!(!s.completed);
}

#[test]
fn pause_then_resume_keeps_remaining_and_task() {
    let mut t = TimerState::new();
    start_timer(&mut t, 50, "focus".to_string(), "start".to_string());
    let before_remaining = t.remaining_seconds;
    let before_task = t.current_task.clone();
    pause_timer(&mut t);
    assert!(!t.is_running);
    resume_timer(&mut t);
    assert!(t.is_running);
    assert_eq!(t.remaining_seconds, before_remaining);
    assert_eq!(t.current_task, before_task);
}

#[test]
fn pause_when_idle_is_a_no_op() {
    let mut t = TimerState::new();
    pause_timer(&mut t);
    assert!(!t.is_running);
    assert_eq!(t.remaining_seconds, 0);
}

#[test]
fn stop_session_persists_and_clears() {
    let mut t = TimerState::new();
    let mut store = SessionStore::new();
    start_timer(
        &mut t,
        30,
        "write".to_string(),
        "2024-05-05T08:00:00+00:00".to_string(),
    );
    let r = focusflow::store::stop_session(&mut t, &mut store, true);
    assert!(r.is_ok());
    assert!(!t.is_running);
    assert!(t.current_task.is_none());
    assert_eq!(store.count(), 1);
    let listed = store.get_sessions(None);
    assert_eq!(listed.len(), 1);
    assert_eq!(listed[0].duration, 30);
    assert!(listed[0].completed);
    assert_eq!(listed[0].task, "write");
    assert_eq!(listed[0].id.len(), 36);
    assert!(listed[0].end_time.len() >= 20);
}

#[test]
fn starting_over_a_running_timer_discards_it() {
    let mut t = TimerState::new();
    start_timer(&mut t, 25, "first".to_string(), "t1".to_string());
    start_timer(&mut t, 10, "second".to_string(), "t2".to_string());
    assert_eq!(t.remaining_seconds, 600);
    assert_eq!(t.current_task.as_deref(), Some("second"));
    assert_eq!(t.start_time.as_deref(), Some("t2"));
}

#[test]
fn db_and_sound_paths() {
    assert_eq!(
        focusflow::get_db_path("/home/u/.local/share/app"),
        "/home/u/.local/share/app/focusflow.db"
    );
    assert_eq!(
        focusflow::get_resource_sound_path("tick.mp3"),
        "../src-tauri/resources/sounds/tick.mp3"
    );
}

#[test]
fn save_rejects_duplicate_id() {
    let mut store = SessionStore::new();
    let a = session("dup", "a", 5, "2024-01-01T00:00:00+00:00", vec![]);
    let b = session("dup", "b", 9, "2024-01-02T00:00:00+00:00", vec![]);
    assert!(store.save_session(a).is_ok());
    let r = store.save_session(b);
    assert_eq!(r, Err(focusflow::store::StorageError::DuplicateId));
    assert_eq!(store.count(), 1);
}
