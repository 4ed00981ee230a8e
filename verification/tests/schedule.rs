use chrono::{DateTime, Duration, Local, TimeZone, Utc};
use cronx::schedule::{fire_in_window, is_missed, ScheduleError};

fn nanos(t: DateTime<Utc>) -> i64 {
    t.timestamp_nanos_opt().expect("test time in range")
}

fn utc(s: &str) -> i64 {
    // Parse a local-time wall clock and convert to UTC, so tests read
    // naturally regardless of where they run.
    let naive = chrono::NaiveDateTime::parse_from_str(s, "%Y-%m-%d %H:%M:%S")
        .expect("bad test timestamp");
    nanos(
        Local
            .from_local_datetime(&naive)
            .single()
            .expect("ambiguous local time in test fixture")
            .with_timezone(&Utc),
    )
}

fn seconds(n: i64) -> i64 {
    Duration::seconds(n).num_nanoseconds().unwrap()
}

#[test]
fn missed_when_fire_passed_outside_grace() {
    // Every hour on the hour. Last run was at 08:30, now is 10:05.
    // 09:00 is a scheduled fire that we missed.
    let last = utc("2026-05-15 08:30:00");
    let now = utc("2026-05-15 10:05:00");
    assert!(is_missed("0 * * * *", last, now, seconds(90)).unwrap());
}

#[test]
fn not_missed_when_within_grace() {
    // 9am daily; now is 09:00:30 (30s after the fire). Grace 90s →
    // deadline is 08:59:00, which is before the 09:00 fire, so no miss.
    let last = utc("2026-05-14 09:00:00");
    let now = utc("2026-05-15 09:00:30");
    assert!(!is_missed("0 9 * * *", last, now, seconds(90)).unwrap());
}

#[test]
fn missed_when_just_past_grace() {
    // 9am daily; now is 09:02 (120s after the fire). Grace 90s →
    // deadline is 09:00:30, which is after the 09:00 fire, so missed.
    let last = utc("2026-05-14 09:00:00");
    let now = utc("2026-05-15 09:02:00");
    assert!(is_missed("0 9 * * *", last, now, seconds(90)).unwrap());
}

#[test]
fn not_missed_when_last_run_after_fire() {
    // Daily at 9am. Last run was at 09:01 today, now is 10:00. The 09:00
    // fire is before last_run, so not missed.
    let last = utc("2026-05-15 09:01:00");
    let now = utc("2026-05-15 10:00:00");
    assert!(!is_missed("0 9 * * *", last, now, seconds(90)).unwrap());
}

#[test]
fn not_missed_when_no_fire_in_interval() {
    // Daily at 9am. Last run yesterday at 09:01, now is today 08:00 —
    // no 9am fire has occurred yet today.
    let last = utc("2026-05-14 09:01:00");
    let now = utc("2026-05-15 08:00:00");
    assert!(!is_missed("0 9 * * *", last, now, seconds(90)).unwrap());
}

#[test]
fn missed_when_long_offline() {
    // Daily at 9am. Last run 5 days ago. Should detect a miss
    // immediately (any one of the intervening fires).
    let last = utc("2026-05-10 09:01:00");
    let now = utc("2026-05-15 10:00:00");
    assert!(is_missed("0 9 * * *", last, now, seconds(90)).unwrap());
}

#[test]
fn every_minute_schedule() {
    // `* * * * *` — every minute. Last run 5 minutes ago, now is now.
    let last = utc("2026-05-15 10:00:00");
    let now = utc("2026-05-15 10:05:00");
    assert!(is_missed("* * * * *", last, now, seconds(90)).unwrap());
}

#[test]
fn invalid_expression_errors() {
    let last = utc("2026-05-15 10:00:00");
    let now = utc("2026-05-15 11:00:00");
    assert!(is_missed("not a cron expr", last, now, seconds(90)).is_err());
}

#[test]
fn invalid_expression_names_the_expression() {
    match is_missed("  61 * * * *  ", 0, seconds(3600), seconds(90)) {
        Err(ScheduleError::InvalidExpression { expr, detail }) => {
            assert_eq!(expr, "  61 * * * *  ");
            assert!(!detail.is_empty());
        }
        Ok(_) => panic!("expected an error"),
    }
}

#[test]
fn invalid_expression_errors_even_when_not_due() {
    assert!(is_missed("bad", 10, 0, seconds(90)).is_err());
}

#[test]
fn surrounding_whitespace_is_ignored() {
    let last = utc("2026-05-15 08:30:00");
    let now = utc("2026-05-15 10:05:00");
    assert!(is_missed("  0 * * * *\t", last, now, seconds(90)).unwrap());
}

#[test]
fn not_missed_when_deadline_not_after_last_run() {
    let last = utc("2026-05-15 10:00:00");
    assert!(!is_missed("* * * * *", last, last + seconds(90), seconds(90)).unwrap());
}

#[test]
fn window_decision_from_next_fire() {
    let g = seconds(90);
    assert!(fire_in_window(0, 1000 + g, g, Some(1000)));
    assert!(fire_in_window(0, 1000 + g, g, Some(999)));
    assert!(!fire_in_window(0, 1000 + g, g, Some(1001)));
    assert!(!fire_in_window(0, 1000 + g, g, None));
    assert!(!fire_in_window(1000, 1000 + g, g, Some(500)));
    assert!(!fire_in_window(i64::MAX, i64::MIN, g, Some(0)));
}

#[test]
fn sunday_as_zero_is_a_crontab_day() {
    // 2026-05-10 is a Sunday.
    let last = utc("2026-05-09 12:00:00");
    let now = utc("2026-05-11 12:00:00");
    assert_eq!(is_missed("0 0 * * 0", last, now, seconds(90)).ok(), Some(true));
    assert_eq!(is_missed("0 0 * * 7", last, now, seconds(90)).ok(), Some(true));
    assert_eq!(is_missed("0 0 * * sun", last, now, seconds(90)).ok(), Some(true));
}

#[test]
fn monday_to_friday_skips_the_weekend() {
    // Saturday 10:00 to Sunday 10:00: no weekday 09:00 in between.
    let last = utc("2026-05-16 10:00:00");
    let now = utc("2026-05-17 10:00:00");
    assert_eq!(is_missed("0 9 * * 1-5", last, now, seconds(90)).ok(), Some(false));
    assert_eq!(is_missed("0 9 * * MON-FRI", last, now, seconds(90)).ok(), Some(false));
    // Sunday 10:00 to Monday 10:00: Monday 09:00 was missed.
    let last = utc("2026-05-17 10:00:00");
    let now = utc("2026-05-18 10:00:00");
    assert_eq!(is_missed("0 9 * * 1-5", last, now, seconds(90)).ok(), Some(true));
}

#[test]
fn saturday_is_six() {
    // Friday 12:00 to Saturday 12:00 holds Saturday 00:00.
    let last = utc("2026-05-15 12:00:00");
    let now = utc("2026-05-16 12:00:00");
    assert_eq!(is_missed("0 0 * * 6", last, now, seconds(90)).ok(), Some(true));
    assert_eq!(is_missed("0 0 * * 5", last, now, seconds(90)).ok(), Some(false));
}

#[test]
fn either_day_field_may_match() {
    // Midnight on the 13th or on a Friday.
    let expr = "0 0 13 * 5";
    // Friday the 15th, not the 13th.
    let r = is_missed(expr, utc("2026-05-14 12:00:00"), utc("2026-05-15 12:00:00"), seconds(90));
    assert_eq!(r.ok(), Some(true));
    // Wednesday the 13th, not a Friday.
    let r = is_missed(expr, utc("2026-05-12 12:00:00"), utc("2026-05-13 12:00:00"), seconds(90));
    assert_eq!(r.ok(), Some(true));
    // Thursday the 14th: neither.
    let r = is_missed(expr, utc("2026-05-13 12:00:00"), utc("2026-05-14 12:00:00"), seconds(90));
    assert_eq!(r.ok(), Some(false));
}

#[test]
fn star_step_day_of_month_asks_both_day_fields() {
    // The day of month starts with `*`, so a day must match both fields:
    // an odd day of the month that is a Monday.
    // Monday the 11th.
    let r = is_missed("0 0 */2 * 1", utc("2026-05-10 12:00:00"), utc("2026-05-11 12:00:00"), seconds(90));
    assert_eq!(r.ok(), Some(true));
    // Monday the 18th is even.
    let r = is_missed("0 0 */2 * 1", utc("2026-05-17 12:00:00"), utc("2026-05-18 12:00:00"), seconds(90));
    assert_eq!(r.ok(), Some(false));
    // Friday the 15th to Saturday the 16th: no Monday.
    let r = is_missed("0 0 */2 * 1", utc("2026-05-15 12:00:00"), utc("2026-05-16 12:00:00"), seconds(90));
    assert_eq!(r.ok(), Some(false));
}

#[test]
fn out_of_range_weekday_errors() {
    assert!(is_missed("0 0 * * 8", 0, seconds(3600), seconds(90)).is_err());
    assert!(is_missed("0 0 * * 5-1", 0, seconds(3600), seconds(90)).is_err());
    assert!(is_missed("0 0 13 * 9", 0, seconds(3600), seconds(90)).is_err());
}
