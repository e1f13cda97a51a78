use fraud_api::timestamp::{
    is_hour_in_range, is_minutes_in_range, parse_minutes_diff, parse_timestamp,
};

#[test]
fn the_hour_and_the_weekday_are_read() {
    assert_eq!(parse_timestamp(b"2026-03-11T18:45:53Z"), Some((18, 2)));
    assert_eq!(parse_timestamp(b"2000-01-01T00:00:00Z"), Some((0, 5)));
    assert_eq!(parse_timestamp(b"2024-02-29T23:00:00Z"), Some((23, 3)));
    assert_eq!(parse_timestamp(b"2023-01-01T09:00:00Z"), Some((9, 6)));
    assert_eq!(parse_timestamp(b"2026-05-18T07"), Some((7, 0)));
}

#[test]
fn a_timestamp_that_is_too_short_or_has_no_month_has_no_time() {
    assert_eq!(parse_timestamp(b"2026-03-11T1"), None);
    assert_eq!(parse_timestamp(b"2026-00-11T18:45:53Z"), None);
    assert_eq!(parse_timestamp(b"2026-13-11T18:45:53Z"), None);
}

#[test]
fn weekdays_follow_each_other_over_a_month() {
    for day in 1..30u8 {
        let one = format!("2026-05-{:02}T00", day);
        let next = format!("2026-05-{:02}T00", day + 1);
        let a = parse_timestamp(one.as_bytes()).unwrap().1;
        let b = parse_timestamp(next.as_bytes()).unwrap().1;
        assert_eq!(b, (a + 1) % 7);
    }
}

#[test]
fn minutes_between_two_times_are_counted() {
    assert_eq!(
        parse_minutes_diff(b"2026-03-11T18:45:53Z", b"2026-03-11T14:58:35Z"),
        Some(227)
    );
    assert_eq!(
        parse_minutes_diff(b"2026-03-11T14:58:35Z", b"2026-03-11T18:45:53Z"),
        Some(227)
    );
    assert_eq!(
        parse_minutes_diff(b"2024-03-01T00:00:00Z", b"2024-02-28T00:00:00Z"),
        Some(2 * 1440)
    );
    assert_eq!(
        parse_minutes_diff(b"2026-01-01T00:00:00Z", b"2025-12-31T23:59:00Z"),
        Some(1)
    );
    assert_eq!(parse_minutes_diff(b"2026-03-11T18:45", b"2026-03-11T18:45"), Some(0));
}

#[test]
fn minutes_need_both_times() {
    assert_eq!(parse_minutes_diff(b"2026-03-11T18:4", b"2026-03-11T18:45"), None);
    assert_eq!(parse_minutes_diff(b"2026-03-11T18:45", b"2026-03-11T18:4"), None);
}

#[test]
fn the_end_of_a_year_is_crossed() {
    assert_eq!(
        parse_minutes_diff(b"2001-01-01T00:00", b"2000-12-31T00:00"),
        Some(1440)
    );
    assert_eq!(
        parse_minutes_diff(b"2025-01-01T00:00", b"2024-12-31T23:59"),
        Some(1)
    );
    assert_eq!(
        parse_minutes_diff(b"2004-01-01T00:00", b"2003-12-31T00:00"),
        Some(1440)
    );
    assert_eq!(
        parse_minutes_diff(b"1999-12-31T23:59", b"2000-01-01T00:00"),
        Some(1)
    );
    assert_eq!(
        parse_minutes_diff(b"2100-03-01T00:00", b"2100-02-28T00:00"),
        Some(1440)
    );
    assert_eq!(
        parse_minutes_diff(b"2025-03-01T00:00", b"2024-03-01T00:00"),
        Some(365 * 1440)
    );
    assert_eq!(
        parse_minutes_diff(b"2024-03-01T00:00", b"2023-03-01T00:00"),
        Some(366 * 1440)
    );
}

#[test]
fn minutes_are_symmetric_and_add_up() {
    let a = b"2026-03-11T18:45";
    let b = b"2026-03-12T18:45";
    let c = b"2026-03-14T00:00";
    let ab = parse_minutes_diff(a, b).unwrap();
    let bc = parse_minutes_diff(b, c).unwrap();
    let ac = parse_minutes_diff(a, c).unwrap();
    assert_eq!(ab, 1440);
    assert_eq!(parse_minutes_diff(b, a).unwrap(), ab);
    assert!(ac <= ab + bc);
}

#[test]
fn bytes_below_the_digits_do_not_count() {
    assert!(is_hour_in_range(b"2026-03-11T18:45:53Z"));
    assert!(!is_hour_in_range(b"2026-03-11T 8:45:53Z"));
    assert!(is_hour_in_range(b"short"));
    assert!(is_minutes_in_range(b"2026-03-11T18:45:53Z"));
    assert!(!is_minutes_in_range(b"2026-03-11T18: 5:53Z"));
}
