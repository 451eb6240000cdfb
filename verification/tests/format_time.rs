use magpie_app::format_time::{
    abs_date, civil_from_days, days_from_civil, fmt_duration, parse_due, parse_time, relative_time,
};

const S: i64 = 1000;
const MIN: i64 = 60 * S;
const HOUR: i64 = 60 * MIN;
const DAY: i64 = 24 * HOUR;

#[test]
fn buckets() {
    let now = 1_000 * DAY; // far from epoch
    assert_eq!(relative_time(now, now), "just now");
    assert_eq!(relative_time(now - 30 * S, now), "just now"); // <60s
    assert_eq!(relative_time(now - 5 * MIN, now), "5m");
    assert_eq!(relative_time(now - 3 * HOUR, now), "3h");
    assert_eq!(relative_time(now - 26 * HOUR, now), "yesterday");
    assert_eq!(relative_time(now - 5 * DAY, now), "5d");
}

#[test]
fn future_clock_skew_is_just_now() {
    let now = 1_000 * DAY;
    assert_eq!(relative_time(now + 10 * S, now), "just now");
}

#[test]
fn abs_date_formats_epoch_day() {
    assert_eq!(abs_date(1_000 * DAY), "1972-09-27");
}

#[test]
fn old_shows_date_yyyy_mm_dd() {
    let now = 1_000 * DAY;
    let out = relative_time(now - 40 * DAY, now);
    assert_eq!(out.len(), 10); // YYYY-MM-DD
    assert_eq!(out.as_bytes()[4], b'-');
    assert_eq!(out.as_bytes()[7], b'-');
}

#[test]
fn days_from_civil_roundtrips() {
    assert_eq!(days_from_civil(1970, 1, 1), 0);
    for z in [-1000i64, 0, 1, 12000, 20000] {
        let (y, m, d) = civil_from_days(z);
        assert_eq!(days_from_civil(y, m as i64, d as i64), z);
    }
}

#[test]
fn parse_due_relative_and_absolute() {
    const DAY: i64 = 86_400_000;
    let now = 20_000 * DAY + 5_000; // arbitrary mid-day
    assert_eq!(parse_due("today", now), Some(20_000 * DAY));
    assert_eq!(parse_due("tomorrow", now), Some(20_001 * DAY));
    assert_eq!(
        parse_due("2026-09-10", now),
        Some(days_from_civil(2026, 9, 10) * DAY)
    );
    assert!(parse_due("notadate", now).is_none());
}

#[test]
fn parse_time_formats() {
    assert_eq!(parse_time("14:00"), Some(840));
    assert_eq!(parse_time("9am"), Some(540));
    assert_eq!(parse_time("5pm"), Some(1020));
    assert_eq!(parse_time("9:30am"), Some(570));
    assert_eq!(parse_time("12am"), Some(0));
    assert_eq!(parse_time("12pm"), Some(720));
    assert_eq!(parse_time("5"), None);
    assert_eq!(parse_time("24:00"), None);
    assert_eq!(parse_time("banana"), None);
}

#[test]
fn fmt_duration_units() {
    assert_eq!(fmt_duration(0), "");
    assert_eq!(fmt_duration(500), "");
    assert_eq!(fmt_duration(30_000), "30s");
    assert_eq!(fmt_duration(90_000), "1m");
    assert_eq!(fmt_duration(3_600_000 + 300_000), "1h 5m");
}

#[test]
fn civil_of_known_days() {
    assert_eq!(civil_from_days(0), (1970, 1, 1));
    assert_eq!(civil_from_days(-1), (1969, 12, 31));
    assert_eq!(civil_from_days(11016), (2000, 2, 29));
    assert_eq!(days_from_civil(2000, 3, 1), 11017);
}

#[test]
fn weekday_names_resolve_to_the_next_such_day() {
    // 1970-01-01 was a Thursday; day 20_000 is a Friday.
    let now = 20_000 * DAY + 5;
    assert_eq!(parse_due("thu", now), Some(20_006 * DAY));
    assert_eq!(parse_due("Fri", now), Some(20_007 * DAY));
    assert_eq!(parse_due("sat", now), Some(20_001 * DAY));
}

#[test]
fn relative_time_hour_and_day_edges() {
    let now = 1_000 * DAY;
    assert_eq!(relative_time(now - 59 * S, now), "just now");
    assert_eq!(relative_time(now - 60 * S, now), "1m");
    assert_eq!(relative_time(now - 59 * MIN, now), "59m");
    assert_eq!(relative_time(now - 60 * MIN, now), "1h");
    assert_eq!(relative_time(now - 47 * HOUR, now), "yesterday");
    assert_eq!(relative_time(now - 29 * DAY, now), "29d");
    assert_eq!(relative_time(now - 30 * DAY, now), abs_date(now - 30 * DAY));
}

#[test]
fn written_dates_read_back_as_due_days() {
    const DAY: i64 = 86_400_000;
    for ms in [0i64, 5 * 3_600_000, 1_000 * DAY + 17, 20_473 * DAY + 86_399_999, 2_932_896 * DAY] {
        let written = magpie_app::format_time::abs_date(ms);
        let back = magpie_app::format_time::parse_due(&written, 123 * DAY);
        assert_eq!(back, Some(ms - ms.rem_euclid(DAY)), "{written}");
    }
}

#[test]
fn valid_dates_survive_days_and_back() {
    for (y, m, d) in [(1970, 1, 1), (2024, 2, 29), (2000, 2, 29), (1900, 2, 28), (1999, 12, 31), (-44, 3, 15), (2026, 11, 30)] {
        let z = days_from_civil(y, m, d);
        assert_eq!(civil_from_days(z), (y, m as u32, d as u32));
    }
}

#[test]
fn weekday_tokens_name_the_next_such_day() {
    const DAY: i64 = 86_400_000;
    // 1970-01-01 was a Thursday.
    assert_eq!(parse_due("FRI", 5 * 3_600_000), Some(DAY));
    assert_eq!(parse_due("thu", 0), Some(7 * DAY));
    assert_eq!(parse_due("wed", 0), Some(6 * DAY));
}

#[test]
fn parse_time_needs_a_colon_or_suffix_and_stays_in_the_day() {
    assert_eq!(parse_time("930"), None);
    assert_eq!(parse_time("12am"), Some(0));
    assert_eq!(parse_time("12pm"), Some(720));
    assert_eq!(parse_time("13pm"), None);
    assert_eq!(parse_time("0am"), None);
    assert_eq!(parse_time(" 23:59 "), Some(1439));
    assert_eq!(parse_time("24:00"), None);
    assert_eq!(parse_time("7:60"), None);
}
