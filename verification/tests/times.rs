use dynamic_search_rules::search_time::SearchTime;

fn text(
    date: (i32, u8, u8),
    clock: (u8, u8, u8),
    nanosecond: u32,
    offset: (i8, i8, i8),
) -> Option<String> {
    SearchTime::new(date, clock, nanosecond, offset).unwrap().to_rfc3339()
}

#[test]
fn time_is_written_in_rfc_3339() {
    assert_eq!(
        text((1985, 4, 12), (23, 20, 50), 520_000_000, (0, 0, 0)),
        Some("1985-04-12T23:20:50.52Z".to_string())
    );
    assert_eq!(
        text((2025, 11, 28), (0, 0, 0), 0, (0, 0, 0)),
        Some("2025-11-28T00:00:00Z".to_string())
    );
    assert_eq!(
        text((7, 1, 2), (3, 4, 5), 1, (0, 0, 0)),
        Some("0007-01-02T03:04:05.000000001Z".to_string())
    );
    assert_eq!(
        text((2025, 11, 28), (0, 0, 0), 120_000, (0, 0, 0)),
        Some("2025-11-28T00:00:00.00012Z".to_string())
    );
}

#[test]
fn distance_from_utc_is_written() {
    assert_eq!(
        text((2025, 11, 28), (12, 0, 0), 0, (5, 30, 0)),
        Some("2025-11-28T12:00:00+05:30".to_string())
    );
    assert_eq!(
        text((2025, 11, 28), (12, 0, 0), 0, (-8, 0, 0)),
        Some("2025-11-28T12:00:00-08:00".to_string())
    );
    assert_eq!(
        text((2025, 11, 28), (12, 0, 0), 0, (0, -30, 0)),
        Some("2025-11-28T12:00:00-00:30".to_string())
    );
    assert_eq!(
        text((9999, 12, 31), (23, 59, 59), 999_999_999, (-23, -59, 0)),
        Some("9999-12-31T23:59:59.999999999-23:59".to_string())
    );
}

#[test]
fn time_outside_rfc_3339_has_no_text() {
    assert_eq!(text((-1, 1, 1), (0, 0, 0), 0, (0, 0, 0)), None);
    assert_eq!(text((2025, 1, 1), (0, 0, 0), 0, (0, 0, 1)), None);
    assert_eq!(text((2025, 1, 1), (0, 0, 0), 0, (24, 0, 0)), None);
    assert_eq!(text((2025, 1, 1), (0, 0, 0), 0, (-25, -59, 0)), None);
}

#[test]
fn dates_and_clocks_that_do_not_exist_are_refused() {
    assert!(SearchTime::new((2024, 2, 29), (0, 0, 0), 0, (0, 0, 0)).is_some());
    assert!(SearchTime::new((2000, 2, 29), (0, 0, 0), 0, (0, 0, 0)).is_some());
    assert!(SearchTime::new((-4, 2, 29), (0, 0, 0), 0, (0, 0, 0)).is_some());
    assert!(SearchTime::new((2025, 2, 29), (0, 0, 0), 0, (0, 0, 0)).is_none());
    assert!(SearchTime::new((1900, 2, 29), (0, 0, 0), 0, (0, 0, 0)).is_none());
    assert!(SearchTime::new((2025, 4, 31), (0, 0, 0), 0, (0, 0, 0)).is_none());
    assert!(SearchTime::new((2025, 0, 1), (0, 0, 0), 0, (0, 0, 0)).is_none());
    assert!(SearchTime::new((2025, 13, 1), (0, 0, 0), 0, (0, 0, 0)).is_none());
    assert!(SearchTime::new((2025, 1, 0), (0, 0, 0), 0, (0, 0, 0)).is_none());
    assert!(SearchTime::new((10_000, 1, 1), (0, 0, 0), 0, (0, 0, 0)).is_none());
    assert!(SearchTime::new((2025, 1, 1), (24, 0, 0), 0, (0, 0, 0)).is_none());
    assert!(SearchTime::new((2025, 1, 1), (0, 60, 0), 0, (0, 0, 0)).is_none());
    assert!(SearchTime::new((2025, 1, 1), (0, 0, 60), 0, (0, 0, 0)).is_none());
    assert!(SearchTime::new((2025, 1, 1), (0, 0, 0), 1_000_000_000, (0, 0, 0)).is_none());
    assert!(SearchTime::new((2025, 1, 1), (0, 0, 0), 0, (26, 0, 0)).is_none());
    assert!(SearchTime::new((2025, 1, 1), (0, 0, 0), 0, (0, 60, 0)).is_none());
    assert!(SearchTime::new((2025, 1, 1), (0, 0, 0), 0, (1, -1, 0)).is_none());
}
