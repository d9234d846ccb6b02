use chrono::Datelike;
use focusflow::session::FocusSession;
use focusflow::stats::{calculate_daily_stats, calculate_tag_stats, daily_stats_from};

fn session(duration: u32, start: &str, tags: Vec<&str>) -> FocusSession {
    FocusSession {
        id: format!("{}-{}", start, duration),
        task: "t".to_string(),
        duration,
        start_time: start.to_string(),
        end_time: start.to_string(),
        completed: true,
        tags: tags.into_iter().map(|t| t.to_string()).collect(),
    }
}

fn day_number(y: i32, m: u32, d: u32) -> i64 {
    i64::from(chrono::NaiveDate::from_ymd_opt(y, m, d).unwrap().num_days_from_ce())
}

#[test]
fn daily_stats_of_nothing_still_has_one_entry_per_day() {
    let r = calculate_daily_stats(&Vec::new(), 7);
    assert_eq!(r.len(), 7);
    for w in r.windows(2) {
        assert!(w[0].date < w[1].date);
    }
    for e in &r {
        assert_eq!(e.total_minutes, 0);
        assert_eq!(e.count, 0);
    }
}

#[test]
fn daily_stats_buckets_by_utc_calendar_day() {
    let sessions = vec![
        session(25, "2024-01-01T09:00:00+00:00", vec![]),
        session(15, "2024-01-01T14:00:00+00:00", vec![]),
        session(10, "2023-12-31T23:00:00+00:00", vec![]),
        // 00:30 at +02:00 is still the previous day in UTC
        session(5, "2024-01-01T00:30:00+02:00", vec![]),
        // outside the window
        session(60, "2023-12-01T09:00:00+00:00", vec![]),
        // unparseable: silently excluded
        session(99, "not a timestamp", vec![]),
    ];
    let today = day_number(2024, 1, 1);
    let r = daily_stats_from(&sessions, 3, today);
    assert_eq!(r.len(), 3);
    assert_eq!(r[0].date, "2023-12-30");
    assert_eq!(r[1].date, "2023-12-31");
    assert_eq!(r[2].date, "2024-01-01");
    assert_eq!(r[0].total_minutes, 0);
    assert_eq!(r[0].count, 0);
    assert_eq!(r[1].total_minutes, 15);
    assert_eq!(r[1].count, 2);
    assert_eq!(r[2].total_minutes, 40);
    assert_eq!(r[2].count, 2);
}

#[test]
fn daily_stats_window_crosses_a_year_boundary_sorted() {
    let today = day_number(2024, 1, 2);
    let r = daily_stats_from(&Vec::new(), 5, today);
    let dates: Vec<&str> = r.iter().map(|e| e.date.as_str()).collect();
    assert_eq!(
        dates,
        vec!["2023-12-29", "2023-12-30", "2023-12-31", "2024-01-01", "2024-01-02"]
    );
}

#[test]
fn tag_stats_of_nothing_is_empty() {
    let r = calculate_tag_stats(&Vec::new());
    assert!(r.is_empty());
    let untagged = vec![session(25, "2024-01-01T09:00:00+00:00", vec![])];
    assert!(calculate_tag_stats(&untagged).is_empty());
}

#[test]
fn tag_stats_example_totals_and_shares() {
    let sessions = vec![
        session(25, "2024-01-01T09:00:00+00:00", vec!["work"]),
        session(15, "2024-01-01T14:00:00+00:00", vec!["work", "break"]),
    ];
    let r = calculate_tag_stats(&sessions);
    assert_eq!(r.len(), 2);
    assert_eq!(r[0].tag, "work");
    assert_eq!(r[0].total_minutes, 40);
    // 100 * 40 / 55 is about 72.7 %
    assert_eq!(r[0].percent_tenths, 727);
    assert_eq!(r[1].tag, "break");
    assert_eq!(r[1].total_minutes, 15);
    // 100 * 15 / 55 is about 27.3 %
    assert_eq!(r[1].percent_tenths, 273);
}

#[test]
fn tag_shares_sum_to_one_hundred_percent_with_one_tag_each() {
    let sessions = vec![
        session(25, "2024-01-01T09:00:00+00:00", vec!["a"]),
        session(15, "2024-01-01T10:00:00+00:00", vec!["b"]),
        session(7, "2024-01-01T11:00:00+00:00", vec!["c"]),
    ];
    let r = calculate_tag_stats(&sessions);
    let total: u64 = r.iter().map(|e| e.total_minutes).sum();
    assert_eq!(total, 47);
    let pct: u32 = r.iter().map(|e| e.percent_tenths).sum();
    assert!((999..=1001).contains(&pct));
}

#[test]
fn a_session_counts_once_per_tag_occurrence() {
    let sessions = vec![session(10, "2024-01-01T09:00:00+00:00", vec!["x", "x"])];
    let r = calculate_tag_stats(&sessions);
    assert_eq!(r.len(), 1);
    assert_eq!(r[0].tag, "x");
    assert_eq!(r[0].total_minutes, 20);
    assert_eq!(r[0].percent_tenths, 1000);
}

#[test]
fn thirty_day_window_of_the_operations_layer() {
    let r = calculate_daily_stats(&Vec::new(), 30);
    assert_eq!(r.len(), 30);
    // the window ends today: the clock is read, so just check shape
    for e in &r {
        assert_eq!(e.date.len(), 10);
    }
}
