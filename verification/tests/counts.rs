use trackit::counts::{event_row_counts, topic_index_by_name, EventRow, TopicHeader};
use trackit::time::time_boundaries;

// 2023-11-15 12:00:00 UTC in milliseconds since the epoch
const NOW: i64 = 1_700_046_000_000;
// 2023-11-15 00:00:00 UTC
const TODAY_START: i64 = 1_700_006_400_000;
const TODAY_END: i64 = TODAY_START + 86_400_000;
// rolling 7 days
const WEEK_START: i64 = NOW - 7 * 86_400_000;
// 2023-11-01 00:00:00 UTC
const MONTH_START: i64 = 1_698_796_800_000;

fn bounds() -> (i64, i64, i64, i64, i64) {
    (NOW, TODAY_START, TODAY_END, MONTH_START, WEEK_START)
}

fn ev(ts_ms: i64) -> EventRow {
    EventRow {
        id: "x".into(),
        topic_id: "t".into(),
        timestamp: "".into(),
        timestamp_ms: ts_ms,
    }
}

#[test]
fn empty_events_all_zero() {
    let (today, week, month, total) = event_row_counts(&[], bounds());
    assert_eq!((today, week, month, total), (0, 0, 0, 0));
}

#[test]
fn event_in_today_counts_all_periods() {
    let events = vec![ev(NOW)];
    let (today, week, month, total) = event_row_counts(&events, bounds());
    assert_eq!(today, 1);
    assert_eq!(week, 1);
    assert_eq!(month, 1);
    assert_eq!(total, 1);
}

#[test]
fn event_yesterday_not_today_but_in_week_and_month() {
    let yesterday = NOW - 86_400_000;
    let events = vec![ev(yesterday)];
    let (today, week, month, total) = event_row_counts(&events, bounds());
    assert_eq!(today, 0);
    assert_eq!(week, 1);
    assert_eq!(month, 1);
    assert_eq!(total, 1);
}

#[test]
fn event_eight_days_ago_only_in_month() {
    let old = NOW - 8 * 86_400_000;
    let events = vec![ev(old)];
    let (today, week, month, total) = event_row_counts(&events, bounds());
    assert_eq!(today, 0);
    assert_eq!(week, 0);
    assert_eq!(month, 1);
    assert_eq!(total, 1);
}

#[test]
fn event_before_month_start_only_in_total() {
    let ancient = MONTH_START - 1;
    let events = vec![ev(ancient)];
    let (today, week, month, total) = event_row_counts(&events, bounds());
    assert_eq!(today, 0);
    assert_eq!(week, 0);
    assert_eq!(month, 0);
    assert_eq!(total, 1);
}

#[test]
fn mixed_events_correct_counts() {
    let events = vec![
        ev(NOW),
        ev(NOW - 86_400_000),
        ev(NOW - 8 * 86_400_000),
        ev(MONTH_START - 1),
    ];
    let (today, week, month, total) = event_row_counts(&events, bounds());
    assert_eq!(today, 1);
    assert_eq!(week, 2);
    assert_eq!(month, 3);
    assert_eq!(total, 4);
}

#[test]
fn period_edges() {
    // today is half-open, the week closed at both ends
    let (t, w, m, n) = event_row_counts(&[ev(TODAY_END)], bounds());
    assert_eq!((t, w, m, n), (0, 0, 1, 1));
    let (t, w, m, n) = event_row_counts(&[ev(TODAY_START), ev(WEEK_START)], bounds());
    assert_eq!((t, w, m, n), (1, 2, 2, 2));
    let (t, w, m, n) = event_row_counts(&[ev(NOW + 1)], bounds());
    assert_eq!((t, w, m, n), (1, 0, 1, 1));
}

#[test]
fn time_boundaries_derives_day_end_and_week_start() {
    assert_eq!(time_boundaries(NOW, TODAY_START, MONTH_START), bounds());
}

#[test]
fn incremental_count_matches_recount() {
    let mut events = vec![ev(NOW - 86_400_000), ev(MONTH_START - 1)];
    let (t, w, m, n) = event_row_counts(&events, bounds());
    let mut h = TopicHeader::new("id".into(), "Running".into());
    h.set_counts((t, w, m, n));
    for ms in [NOW, NOW - 8 * 86_400_000, TODAY_END + 5] {
        h = h.count_new_event(ms, bounds());
        events.push(ev(ms));
        let (t, w, m, n) = event_row_counts(&events, bounds());
        assert_eq!(
            (h.count_today, h.count_week, h.count_month, h.count_total),
            (t, w, m, n)
        );
    }
    assert_eq!(h.name, "Running");
    assert_eq!(h.id, "id");
}

#[test]
fn new_header_has_zero_counts() {
    let h = TopicHeader::new("a".into(), "b".into());
    assert_eq!(
        (h.count_today, h.count_week, h.count_month, h.count_total),
        (0, 0, 0, 0)
    );
}

#[test]
fn topic_lookup_takes_the_first_with_the_name() {
    let h = |id: &str, name: &str| TopicHeader::new(id.to_string(), name.to_string());
    let headers = vec![h("1", "Kaffee"), h("2", "Tee"), h("3", "Kaffee")];
    assert_eq!(topic_index_by_name(&headers, "Kaffee"), Some(0));
    assert_eq!(topic_index_by_name(&headers, "Tee"), Some(1));
    assert_eq!(topic_index_by_name(&headers, "Wasser"), None);
    assert_eq!(topic_index_by_name(&[], "Tee"), None);
}

#[test]
fn headers_and_rows_compare_by_their_fields() {
    let a = TopicHeader::new("1".to_string(), "Tee".to_string());
    assert_eq!(a, a.clone());
    assert_ne!(a, TopicHeader::new("2".to_string(), "Tee".to_string()));
}
