use trackit::counts::EventRow;
use trackit::events::{
    page, remove_event, select_new_rows, sort_newest_first, topic_name_from_file, PAGE_SIZE,
};
use trackit::export::{export_text, sort_by_timestamp, timestamp_before};
use trackit::gestures::{is_swipe_back, row_swipe};
use trackit::time::LocalDateTime;

fn row(id: &str, ts: &str, ms: i64) -> EventRow {
    EventRow {
        id: id.into(),
        topic_id: "t".into(),
        timestamp: ts.into(),
        timestamp_ms: ms,
    }
}

fn ids(rows: &[EventRow]) -> Vec<String> {
    rows.iter().map(|r| r.id.clone()).collect()
}

#[test]
fn events_sorted_newest_first_stably() {
    let rows = vec![
        row("a", "", 1_000),
        row("b", "", 3_000),
        row("c", "", 2_000),
        row("d", "", 3_000),
    ];
    let sorted = sort_newest_first(rows);
    assert_eq!(ids(&sorted), vec!["b", "d", "c", "a"]);
}

#[test]
fn paging_takes_a_prefix() {
    let rows: Vec<EventRow> = (0..120).map(|i| row(&i.to_string(), "", i)).collect();
    assert_eq!(page(&rows, PAGE_SIZE).len(), 50);
    assert_eq!(page(&rows, 2 * PAGE_SIZE).len(), 100);
    assert_eq!(page(&rows, 3 * PAGE_SIZE).len(), 120);
    assert_eq!(ids(&page(&rows, 2)), vec!["0", "1"]);
}

#[test]
fn remove_event_drops_matching_ids_only() {
    let rows = vec![row("a", "", 1), row("b", "", 2), row("a", "", 3)];
    let left = remove_event(&rows, "a");
    assert_eq!(ids(&left), vec!["b"]);
    assert_eq!(ids(&remove_event(&rows, "z")), vec!["a", "b", "a"]);
}

#[test]
fn import_selects_only_new_timestamps() {
    let existing = vec![row("e1", "2023-01-01T00:00:00.000Z", 1)];
    let incoming = vec![
        row("n1", "2023-01-01T00:00:00.000Z", 1),
        row("n2", "2023-01-02T00:00:00.000Z", 2),
        row("n3", "2023-01-02T00:00:00.000Z", 2),
    ];
    let fresh = select_new_rows(&existing, &incoming, "topic-9");
    assert_eq!(ids(&fresh), vec!["n2"]);
    assert!(fresh.iter().all(|r| r.topic_id == "topic-9"));
    let mut all = existing.clone();
    all.extend(fresh.iter().cloned());
    assert!(select_new_rows(&all, &incoming, "topic-9").is_empty());
}

#[test]
fn file_name_to_topic_name() {
    assert_eq!(topic_name_from_file("Running.txt"), "Running");
    assert_eq!(topic_name_from_file("Running.csv"), "Running.csv");
    assert_eq!(topic_name_from_file(".txt"), "");
    assert_eq!(topic_name_from_file("txt"), "txt");
}

#[test]
fn export_orders_by_timestamp_text() {
    let rows = vec![
        row("b", "2023-02-01T00:00:00.000Z", 0),
        row("a", "2023-01-01T00:00:00.000Z", 0),
        row("c", "2023-01-01T00:00:00.000Z", 0),
    ];
    let sorted = sort_by_timestamp(rows);
    assert_eq!(ids(&sorted), vec!["a", "c", "b"]);
    assert!(timestamp_before(&sorted[0], &sorted[2]));
    assert!(!timestamp_before(&sorted[0], &sorted[1]));
}

#[test]
fn export_text_joins_lines() {
    let a = LocalDateTime { year: 2023, month0: 0, day: 2, hour: 3, minute: 4, second: 5, millisecond: 6 };
    let b = LocalDateTime { year: 2024, month0: 11, day: 31, hour: 23, minute: 59, second: 59, millisecond: 999 };
    assert_eq!(
        export_text(&[a, b]),
        "2023-01-02 03:04:05.006000\n2024-12-31 23:59:59.999000\n"
    );
    assert_eq!(export_text(&[]), "");
}

#[test]
fn swipe_back_gesture() {
    assert!(is_swipe_back(10, 100, 70, 110));
    assert!(!is_swipe_back(40, 100, 100, 100));
    assert!(!is_swipe_back(10, 100, 60, 100));
    assert!(!is_swipe_back(10, 100, 70, 170));
}

#[test]
fn row_swipe_reveals_and_hides() {
    assert_eq!(row_swipe(None, "a", -51).as_deref(), Some("a"));
    assert_eq!(row_swipe(Some("b".into()), "a", -60).as_deref(), Some("a"));
    assert_eq!(row_swipe(Some("a".into()), "a", 21), None);
    assert_eq!(row_swipe(Some("b".into()), "a", 21).as_deref(), Some("b"));
    assert_eq!(row_swipe(Some("a".into()), "a", 20).as_deref(), Some("a"));
}

#[test]
fn import_adds_a_repeated_timestamp_once() {
    let row = |id: &str, ts: &str, ms: i64| EventRow {
        id: id.to_string(),
        topic_id: String::new(),
        timestamp: ts.to_string(),
        timestamp_ms: ms,
    };
    let incoming = vec![
        row("a", "2024-01-01T10:00:00.000Z", 1),
        row("b", "2024-01-01T10:00:00.000Z", 1),
        row("c", "2024-01-02T10:00:00.000Z", 2),
        row("d", "2024-01-01T10:00:00.000Z", 1),
    ];
    let fresh = select_new_rows(&[], &incoming, "t");
    assert_eq!(fresh.iter().map(|r| r.id.as_str()).collect::<Vec<_>>(), vec!["a", "c"]);
    let stored = vec![row("x", "2024-01-02T10:00:00.000Z", 2)];
    let fresh = select_new_rows(&stored, &incoming, "t");
    assert_eq!(fresh.iter().map(|r| r.id.as_str()).collect::<Vec<_>>(), vec!["a"]);
    assert_eq!(fresh[0].topic_id, "t");
}
