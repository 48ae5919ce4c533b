use chat_relay::dates::{
    civil_from_epoch, current_date, date_ymdhms, format_date_ymd, format_date_ymdhms,
    parse_string_to_datetime, runed, time_with_ymdhms, timespace_2m, timespace_5m,
    to_date_with_ymd, CivilDateTime,
};

#[test]
fn epoch_start_is_new_year_1970() {
    let c = civil_from_epoch(0, 0);
    assert_eq!(date_ymdhms(c), "1970-01-01 00:00:00");
}

#[test]
fn known_moment_converts_exactly() {
    // 2023-11-14 22:13:20 UTC.
    let c = civil_from_epoch(1_700_000_000, 0);
    assert_eq!(date_ymdhms(c), "2023-11-14 22:13:20");
    assert_eq!(format_date_ymd(c), "2023-11-14");
    assert_eq!(format_date_ymdhms(c), "2023-11-14 22:13:20.000");
}

#[test]
fn eastward_offset_shifts_the_day() {
    // 2023-12-31 23:30:00 UTC is already New Year at +8.
    let utc = civil_from_epoch(1_704_065_400, 0);
    assert_eq!(date_ymdhms(utc), "2023-12-31 23:30:00");
    let east = civil_from_epoch(1_704_065_400, 8 * 3600);
    assert_eq!(date_ymdhms(east), "2024-01-01 07:30:00");
}

#[test]
fn leap_day_is_reached() {
    // 2024-02-29 12:00:00 UTC.
    let c = civil_from_epoch(1_709_208_000, 0);
    assert_eq!(date_ymdhms(c), "2024-02-29 12:00:00");
}

#[test]
fn test_to_date_with_ymd() {
    let d = to_date_with_ymd("2023-08-08");
    let parsed = parse_string_to_datetime("2023-08-08 00:00:00", "%Y-%m-%d %H:%M:%S");
    let d = d.expect("a well-formed day parses");
    assert_eq!((d.year, d.month, d.day), (2023, 8, 8));
    assert_eq!((d.hour, d.minute, d.second), (0, 0, 0));
    let q = parsed.expect("a well-formed moment parses");
    assert_eq!((q.year, q.month, q.day, q.hour, q.minute, q.second), (2023, 8, 8, 0, 0, 0));
}

#[test]
fn malformed_days_are_rejected() {
    assert!(to_date_with_ymd("2023-13-08").is_none());
    assert!(to_date_with_ymd("2023-02-30").is_none());
    assert!(to_date_with_ymd("2023/08/08").is_none());
    assert!(to_date_with_ymd("23-08-08").is_none());
    assert!(parse_string_to_datetime("2023-08-08 24:00:00", "%Y-%m-%d %H:%M:%S").is_none());
    assert!(parse_string_to_datetime("2023-08-08 00:00:00", "%H:%M:%S").is_none());
}

#[test]
fn two_minute_window_is_exact() {
    let t = time_with_ymdhms(2024, 5, 6, 14, 11, 42);
    let (start, end) = timespace_2m(t);
    assert_eq!(start, "2024-05-06 14:10:00.000");
    assert_eq!(end, "2024-05-06 14:12:00.000");
    let late = time_with_ymdhms(2024, 5, 6, 14, 59, 0);
    let (start, end) = timespace_2m(late);
    assert_eq!(start, "2024-05-06 14:58:00.000");
    assert_eq!(end, "2024-05-06 15:00:00.000");
}

#[test]
fn five_minute_window_is_exact() {
    let t = time_with_ymdhms(2024, 5, 6, 14, 11, 0);
    let (start, end) = timespace_5m(t);
    assert_eq!(start, "2024-05-06 14:10:00.000");
    assert_eq!(end, "2024-05-06 14:15:00.000");
    let late = time_with_ymdhms(2024, 5, 6, 9, 57, 3);
    let (start, end) = timespace_5m(late);
    assert_eq!(start, "2024-05-06 09:55:00.000");
    assert_eq!(end, "2024-05-06 10:00:00.000");
}

#[test]
fn runed_counts_session_minutes() {
    assert_eq!(runed(time_with_ymdhms(2024, 1, 2, 9, 45, 0)), 15);
    assert_eq!(runed(time_with_ymdhms(2024, 1, 2, 10, 20, 0)), 50);
    assert_eq!(runed(time_with_ymdhms(2024, 1, 2, 11, 10, 0)), 100);
    assert_eq!(runed(time_with_ymdhms(2024, 1, 2, 12, 0, 0)), 120);
    assert_eq!(runed(time_with_ymdhms(2024, 1, 2, 13, 30, 0)), 150);
    assert_eq!(runed(time_with_ymdhms(2024, 1, 2, 14, 59, 0)), 239);
    assert_eq!(runed(time_with_ymdhms(2024, 1, 2, 16, 0, 0)), 240);
    assert_eq!(runed(time_with_ymdhms(2024, 1, 2, 8, 0, 0)), 0);
}

#[test]
fn the_clock_formats_as_a_timestamp() {
    let c: CivilDateTime = current_date(0);
    let s = date_ymdhms(c);
    assert_eq!(s.len(), 19);
    assert_eq!(&s[4..5], "-");
    assert_eq!(&s[10..11], " ");
}
