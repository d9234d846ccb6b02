use focusflow::session::FocusSession;
use focusflow::store::{FormatError, SessionStore};

fn session(
    id: &str,
    task: &str,
    duration: u32,
    start: &str,
    tags: Vec<&str>,
) -> FocusSession {
    FocusSession {
        id: id.to_string(),
        task: task.to_string(),
        duration,
        start_time: start.to_string(),
        end_time: start.to_string(),
        completed: true,
        tags: tags.into_iter().map(|t| t.to_string()).collect(),
    }
}

fn id_set(store: &SessionStore) -> Vec<(String, String, u32, String, Vec<String>)> {
    let mut v: Vec<(String, String, u32, String, Vec<String>)> = store
        .get_sessions(None)
        .into_iter()
        .map(|s| (s.id, s.task, s.duration, s.start_time, s.tags))
        .collect();
    v.sort();
    v
}

#[test]
fn list_is_sorted_most_recent_first() {
    let mut store = SessionStore::new();
    store
        .save_session(session("a", "old", 5, "2024-01-01T08:00:00+00:00", vec![]))
        .unwrap();
    store
        .save_session(session("b", "new", 5, "2024-03-01T08:00:00+00:00", vec![]))
        .unwrap();
    store
        .save_session(session("c", "mid", 5, "2024-02-01T08:00:00+00:00", vec![]))
        .unwrap();
    let all = store.get_sessions(None);
    let ids: Vec<&str> = all.iter().map(|s| s.id.as_str()).collect();
    assert_eq!(ids, vec!["b", "c", "a"]);
    let top2 = store.get_sessions(Some(2));
    let ids2: Vec<&str> = top2.iter().map(|s| s.id.as_str()).collect();
    assert_eq!(ids2, vec!["b", "c"]);
    let top0 = store.get_sessions(Some(0));
    assert!(top0.is_empty());
}

#[test]
fn delete_removes_only_that_id() {
    let mut store = SessionStore::new();
    store
        .save_session(session("a", "x", 5, "2024-01-01T08:00:00+00:00", vec![]))
        .unwrap();
    store
        .save_session(session("b", "y", 5, "2024-01-02T08:00:00+00:00", vec![]))
        .unwrap();
    store.delete_session("a");
    assert_eq!(store.count(), 1);
    assert_eq!(store.get_sessions(None)[0].id, "b");
}

#[test]
fn delete_of_absent_id_is_not_an_error_and_changes_nothing() {
    let mut store = SessionStore::new();
    store
        .save_session(session("a", "x", 5, "2024-01-01T08:00:00+00:00", vec![]))
        .unwrap();
    store.delete_session("missing");
    assert_eq!(store.count(), 1);
    let mut empty = SessionStore::new();
    empty.delete_session("anything");
    assert_eq!(empty.count(), 0);
}

#[test]
fn export_of_one_session_is_the_documented_shape() {
    let mut store = SessionStore::new();
    store
        .save_session(session(
            "a1",
            "read",
            25,
            "2024-01-01T09:00:00+00:00",
            vec!["work", "deep"],
        ))
        .unwrap();
    let doc = store.export_data();
    assert_eq!(
        doc,
        "[{\"id\":\"a1\",\"task\":\"read\",\"duration\":25,\
         \"start_time\":\"2024-01-01T09:00:00+00:00\",\
         \"end_time\":\"2024-01-01T09:00:00+00:00\",\
         \"completed\":true,\"tags\":[\"work\",\"deep\"]}]"
    );
}

#[test]
fn export_import_round_trip_empty_one_many() {
    for n in [0usize, 1, 3] {
        let mut store = SessionStore::new();
        for k in 0..n {
            let tags: Vec<&str> = match k {
                0 => vec![],
                1 => vec!["a\"quote", "back\\slash"],
                _ => vec!["work", "work"],
            };
            store
                .save_session(session(
                    &format!("id-{}", k),
                    &format!("task {}", k),
                    (k as u32) + 1,
                    &format!("2024-01-0{}T09:00:00+00:00", k + 1),
                    tags,
                ))
                .unwrap();
        }
        let doc = store.export_data();
        let mut fresh = SessionStore::new();
        let count = fresh.import_data(&doc).unwrap();
        assert_eq!(count, n);
        assert_eq!(id_set(&fresh), id_set(&store));
    }
}

#[test]
fn import_is_idempotent() {
    let mut source = SessionStore::new();
    source
        .save_session(session("a", "x", 5, "2024-01-01T08:00:00+00:00", vec!["t"]))
        .unwrap();
    source
        .save_session(session("b", "y", 7, "2024-01-02T08:00:00+00:00", vec![]))
        .unwrap();
    let doc = source.export_data();
    let mut store = SessionStore::new();
    store.import_data(&doc).unwrap();
    let once = store.export_data();
    let count_once = store.count();
    store.import_data(&doc).unwrap();
    assert_eq!(store.export_data(), once);
    assert_eq!(store.count(), count_once);
}

#[test]
fn import_merges_by_id() {
    let mut store = SessionStore::new();
    store
        .save_session(session("a", "before", 5, "2024-01-01T08:00:00+00:00", vec![]))
        .unwrap();
    let doc = "[{\"id\":\"a\",\"task\":\"after\",\"duration\":9,\
               \"start_time\":\"2024-01-01T08:00:00+00:00\",\
               \"end_time\":\"2024-01-01T08:09:00+00:00\",\
               \"completed\":false,\"tags\":[]},\
               {\"id\":\"b\",\"task\":\"new\",\"duration\":3,\
               \"start_time\":\"2024-01-02T08:00:00+00:00\",\
               \"end_time\":\"2024-01-02T08:03:00+00:00\",\
               \"completed\":true,\"tags\":[\"x\"]}]";
    let count = store.import_data(doc).unwrap();
    assert_eq!(count, 2);
    assert_eq!(store.count(), 2);
    let all = store.get_sessions(None);
    let a = all.iter().find(|s| s.id == "a").unwrap();
    assert_eq!(a.task, "after");
    assert_eq!(a.duration, 9);
    assert!(!a.completed);
}

#[test]
fn malformed_documents_are_refused_without_change() {
    let mut store = SessionStore::new();
    store
        .save_session(session("a", "x", 5, "2024-01-01T08:00:00+00:00", vec![]))
        .unwrap();
    for doc in [
        "",
        "not a document",
        "[",
        "[]]",
        "[{\"id\":\"a\"}]",
        "[{\"id\":\"a\",\"task\":\"t\",\"duration\":0,\
         \"start_time\":\"s\",\"end_time\":\"e\",\"completed\":true,\"tags\":[]}]",
    ] {
        let r = store.import_data(doc);
        assert_eq!(r, Err(FormatError::Malformed));
        assert_eq!(store.count(), 1);
    }
    assert_eq!(store.import_data("[]").unwrap(), 0);
    assert_eq!(store.count(), 1);
}

#[test]
fn round_trip_keeps_strange_text() {
    let mut store = SessionStore::new();
    store
        .save_session(session(
            "w\"e\\ird",
            "a \"quoted\" \\ task, with\nnewline",
            1,
            "2024-01-01T08:00:00+00:00",
            vec!["t\"1", "t\\2", "", "a\u{1f}b"],
        ))
        .unwrap();
    let doc = store.export_data();
    let mut fresh = SessionStore::new();
    assert_eq!(fresh.import_data(&doc).unwrap(), 1);
    assert_eq!(id_set(&fresh), id_set(&store));
}

#[test]
fn a_limit_beyond_the_count_returns_everything() {
    let mut store = SessionStore::new();
    store
        .save_session(session("a", "x", 5, "2024-01-01T08:00:00+00:00", vec![]))
        .unwrap();
    assert_eq!(store.get_sessions(Some(10)).len(), 1);
}

#[test]
fn the_last_record_wins_when_a_document_repeats_an_id() {
    let mut store = SessionStore::new();
    let doc = "[{\"id\":\"a\",\"task\":\"first\",\"duration\":1,\
               \"start_time\":\"s\",\"end_time\":\"e\",\"completed\":true,\"tags\":[]},\
               {\"id\":\"a\",\"task\":\"second\",\"duration\":2,\
               \"start_time\":\"s\",\"end_time\":\"e\",\"completed\":true,\"tags\":[]}]";
    assert_eq!(store.import_data(doc).unwrap(), 2);
    assert_eq!(store.count(), 1);
    assert_eq!(store.get_sessions(None)[0].task, "second");
}

#[test]
fn durations_with_leading_zeros_are_read() {
    let mut store = SessionStore::new();
    let doc = "[{\"id\":\"a\",\"task\":\"t\",\"duration\":007,\
               \"start_time\":\"s\",\"end_time\":\"e\",\"completed\":false,\"tags\":[]}]";
    assert_eq!(store.import_data(doc).unwrap(), 1);
    let s = store.get_sessions(None);
    assert_eq!(s[0].duration, 7);
    assert!(!s[0].completed);
}
