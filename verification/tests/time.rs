use trackit::time::{
    announce_date_str, day_start_str, days_until_saturday, export_line, format_timestamp,
    import_line_cut_fits, import_line_local_iso, month_start_str, new_id, now_local_datetime_str, trim, LocalDateTime,
};

fn t() -> LocalDateTime {
    LocalDateTime {
        year: 2023,
        month0: 10,
        day: 5,
        hour: 7,
        minute: 3,
        second: 9,
        millisecond: 42,
    }
}

#[test]
fn format_timestamp_pads_two_digits() {
    assert_eq!(format_timestamp(&t()), "05.11.2023 - 07:03:09");
}

#[test]
fn local_datetime_for_input() {
    assert_eq!(now_local_datetime_str(&t()), "2023-11-05T07:03:09");
}

#[test]
fn export_line_has_microsecond_tail() {
    assert_eq!(export_line(&t()), "2023-11-05 07:03:09.042000\n");
}

#[test]
fn large_fields_are_not_cut() {
    let big = LocalDateTime {
        year: 12345,
        month0: 110,
        day: 123,
        hour: 0,
        minute: 0,
        second: 0,
        millisecond: 1234,
    };
    assert_eq!(format_timestamp(&big), "123.111.12345 - 00:00:00");
    assert_eq!(export_line(&big), "12345-111-123 00:00:00.1234000\n");
}

#[test]
fn period_start_texts() {
    assert_eq!(day_start_str(2023, 10, 15), "2023-11-15T00:00:00");
    assert_eq!(month_start_str(2023, 0), "2023-01-01T00:00:00");
}

#[test]
fn announce_date_has_four_digit_year() {
    assert_eq!(announce_date_str(8, 10, 2025), "08.11.2025");
    assert_eq!(announce_date_str(1, 0, 999), "01.01.0999");
}

#[test]
fn next_saturday_offsets() {
    // Sunday .. Saturday
    let expected = [6, 5, 4, 3, 2, 1, 7];
    for day in 0..7u32 {
        assert_eq!(days_until_saturday(day), expected[day as usize]);
    }
}

#[test]
fn id_is_time_dash_random() {
    assert_eq!(new_id(1700046000000, 42), "1700046000000-42");
    assert_eq!(new_id(0, 0), "0-0");
}

#[test]
fn import_line_with_microseconds() {
    assert_eq!(
        import_line_local_iso("2023-11-15 12:00:00.123000").as_deref(),
        Some("2023-11-15T12:00:00.123")
    );
}

#[test]
fn import_line_pads_short_fraction_and_trims() {
    assert_eq!(
        import_line_local_iso("  2023-11-15 12:00:00.5 \n").as_deref(),
        Some("2023-11-15T12:00:00.500")
    );
    assert_eq!(
        import_line_local_iso("2023-11-15 12:00:00").as_deref(),
        Some("2023-11-15T12:00:00.000")
    );
    assert_eq!(
        import_line_local_iso("2023-11-15 12:00:00.").as_deref(),
        Some("2023-11-15T12:00:00.000")
    );
}

#[test]
fn import_line_blank_or_without_space_is_none() {
    assert_eq!(import_line_local_iso(""), None);
    assert_eq!(import_line_local_iso("   "), None);
    assert_eq!(import_line_local_iso("not-a-date"), None);
}

#[test]
fn import_line_splits_at_first_space_and_first_dot() {
    assert_eq!(
        import_line_local_iso("a b c.1.2").as_deref(),
        Some("aTb c.1.2")
    );
}

#[test]
fn trim_drops_unicode_white_space() {
    assert_eq!(trim("\u{3000} x y \u{a0}"), "x y");
    assert_eq!(trim(" \t "), "");
}

#[test]
fn import_line_fraction_is_cut_after_three_bytes() {
    assert_eq!(
        import_line_local_iso("2023-11-15 12:00:00.\u{e9}1").as_deref(),
        Some("2023-11-15T12:00:00.\u{e9}1")
    );
    assert!(import_line_cut_fits("2023-11-15 12:00:00.\u{e9}1"));
    assert!(!import_line_cut_fits("2023-11-15 12:00:00.\u{e9}\u{e9}\u{e9}"));
    assert!(import_line_cut_fits("2023-11-15 12:00:00.123456"));
    assert!(import_line_cut_fits("no-space"));
}

#[test]
fn exported_line_imports_back() {
    let line = export_line(&t());
    assert_eq!(
        import_line_local_iso(&line).as_deref(),
        Some("2023-11-05T07:03:09.042")
    );
}

#[test]
fn id_is_digits_dash_digits() {
    for (ms, r) in [(1700046000000u64, 42u64), (0, 999999), (u64::MAX, u64::MAX), (7, 0)] {
        let id = new_id(ms, r);
        let (a, b) = id.split_once('-').unwrap();
        assert!(!a.is_empty() && a.chars().all(|c| c.is_ascii_digit()));
        assert!(!b.is_empty() && b.chars().all(|c| c.is_ascii_digit()));
    }
}

#[test]
fn different_parts_give_different_ids() {
    assert_ne!(new_id(12, 3), new_id(1, 23));
    assert_ne!(new_id(1700046000000, 42), new_id(1700046000000, 43));
    assert_ne!(new_id(1700046000000, 42), new_id(1700046000001, 42));
}
