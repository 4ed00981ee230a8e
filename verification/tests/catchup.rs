use chrono::{DateTime, TimeZone, Utc};
use cronx::catchup::{catch_up_action, process_jobs, CatchUpAction, GRACE_NANOS, GRACE_SECONDS};
use cronx::crontab::parse_managed_line;
use cronx::schedule::ScheduleError;
use cronx::state::{JobEntry, State};

fn nanos(t: DateTime<Utc>) -> i64 {
    t.timestamp_nanos_opt().unwrap()
}

fn executed(actions: &[CatchUpAction]) -> Vec<String> {
    actions
        .iter()
        .filter_map(|a| match a {
            CatchUpAction::Run { job } => Some(job.slug.clone()),
            _ => None,
        })
        .collect()
}

#[test]
fn first_sight_baselines_without_executing() {
    let mut state = State::new();
    let crontab = r#"0 9 * * * cronx --run "x" --slug new-slug"#;
    let now = nanos(Utc.with_ymd_and_hms(2026, 5, 15, 10, 0, 0).unwrap());
    let (actions, dirty) = process_jobs(crontab, &mut state, now, false);

    assert!(executed(&actions).is_empty(), "should not execute on first sight");
    assert!(dirty);

    let entry = state.get("new-slug").expect("baseline entry created");
    assert_eq!(entry.last_run_at, now);
    assert_eq!(entry.status_log_in_prev_10, "");
}

#[test]
fn missed_job_gets_executed() {
    // Seed state with an old last_run_at.
    let mut state = State::new();
    let mut entry = JobEntry::new(
        "old-slug".to_string(),
        nanos(Utc.with_ymd_and_hms(2026, 5, 14, 8, 0, 0).unwrap()),
    );
    entry.status_log_in_prev_10 = "....".to_string();
    state.insert("old-slug".to_string(), entry);

    let crontab = r#"0 9 * * * cronx --run "x" --slug old-slug"#;
    // Now is 2026-05-15 10:00 — 9am fire today was missed.
    let now = nanos(Utc.with_ymd_and_hms(2026, 5, 15, 10, 0, 0).unwrap());
    let (actions, dirty) = process_jobs(crontab, &mut state, now, false);

    assert_eq!(executed(&actions), vec!["old-slug"]);
    assert!(!dirty);
}

#[test]
fn dry_run_does_not_execute_or_baseline() {
    let mut state = State::new();
    let crontab = r#"0 9 * * * cronx --run "x" --slug dry-slug"#;
    let now = nanos(Utc.with_ymd_and_hms(2026, 5, 15, 10, 0, 0).unwrap());
    let (actions, dirty) = process_jobs(crontab, &mut state, now, true);

    assert!(executed(&actions).is_empty());
    // Nothing is to be written for a baseline-only case.
    assert!(!dirty);
    assert!(state.get("dry-slug").is_none());
}

#[test]
fn dry_run_reports_missed_job() {
    let mut state = State::new();
    state.insert(
        "old".to_string(),
        JobEntry::new("old".to_string(), nanos(Utc.with_ymd_and_hms(2026, 5, 14, 8, 0, 0).unwrap())),
    );
    let now = nanos(Utc.with_ymd_and_hms(2026, 5, 15, 10, 0, 0).unwrap());
    let (actions, dirty) = process_jobs("0 9 * * * cronx --run x --slug old", &mut state, now, true);
    assert!(!dirty);
    assert!(matches!(&actions[0], CatchUpAction::WouldRun { slug } if slug == "old"));
}

#[test]
fn repeated_slug_is_baselined_once() {
    let mut state = State::new();
    let now = nanos(Utc.with_ymd_and_hms(2026, 5, 15, 10, 0, 0).unwrap());
    let crontab = "0 9 * * * cronx --run x --slug twice\n0 10 * * * cronx --run y --slug twice\n";
    let (actions, dirty) = process_jobs(crontab, &mut state, now, false);
    assert!(dirty);
    assert_eq!(actions.len(), 2);
    assert!(matches!(&actions[0], CatchUpAction::Baseline { slug } if slug == "twice"));
    assert!(matches!(&actions[1], CatchUpAction::UpToDate { slug } if slug == "twice"));
}

#[test]
fn invalid_schedule_is_skipped() {
    let mut state = State::new();
    state.insert("bad".to_string(), JobEntry::new("bad".to_string(), 0));
    let (actions, dirty) = process_jobs("0 99 * * * cronx --run x --slug bad", &mut state, 1_000_000_000_000, false);
    assert!(!dirty);
    match &actions[0] {
        CatchUpAction::InvalidSchedule { slug, error: ScheduleError::InvalidExpression { expr, .. } } => {
            assert_eq!(slug, "bad");
            assert_eq!(expr, "0 99 * * *");
        }
        _ => panic!("expected a skip"),
    }
}

#[test]
fn action_from_outcome() {
    let job = parse_managed_line("0 9 * * * cronx --run x --slug j").unwrap();
    assert!(matches!(catch_up_action(&job, Ok(true), false), CatchUpAction::Run { job } if job.slug == "j"));
    assert!(matches!(catch_up_action(&job, Ok(true), true), CatchUpAction::WouldRun { .. }));
    assert!(matches!(catch_up_action(&job, Ok(false), false), CatchUpAction::UpToDate { .. }));
    let err = ScheduleError::InvalidExpression { expr: "e".to_string(), detail: "d".to_string() };
    assert!(matches!(catch_up_action(&job, Err(err), true), CatchUpAction::InvalidSchedule { .. }));
}

#[test]
fn grace_is_ninety_seconds() {
    assert_eq!(GRACE_SECONDS, 90);
    assert_eq!(GRACE_NANOS, GRACE_SECONDS * 1_000_000_000);
}

#[test]
fn tick_adds_fresh_entries_and_keeps_old_ones() {
    let mut state = State::new();
    let mut old = JobEntry::new("old".to_string(), 5);
    old.status_log_in_prev_10 = ".x".to_string();
    state.insert("old".to_string(), old);
    let now = nanos(Utc.with_ymd_and_hms(2026, 5, 15, 10, 0, 0).unwrap());
    let crontab = "0 9 1 1 * cronx --run a --slug old\n0 9 * * * cronx --run b --slug new\n";
    let (_, dirty) = process_jobs(crontab, &mut state, now, false);
    assert!(dirty);
    let o = state.get("old").unwrap();
    assert_eq!((o.last_run_at, o.status_log_in_prev_10.as_str()), (5, ".x"));
    let n = state.get("new").unwrap();
    assert_eq!((n.slug.as_str(), n.last_run_at, n.status_log_in_prev_10.as_str()), ("new", now, ""));
    assert!(n.last_failed_at.is_none() && n.last_failure_output.is_none() && n.last_failure_code.is_none());
}

#[test]
fn invalid_schedule_does_not_disturb_other_jobs() {
    let now = nanos(Utc.with_ymd_and_hms(2026, 5, 15, 10, 0, 0).unwrap());
    let seed = || {
        let mut s = State::new();
        for slug in ["bad", "old"] {
            s.insert(slug.to_string(), JobEntry::new(slug.to_string(), nanos(Utc.with_ymd_and_hms(2026, 5, 14, 8, 0, 0).unwrap())));
        }
        s
    };
    let with_bad = "0 99 * * * cronx --run x --slug bad\n0 9 * * * cronx --run y --slug old\n0 9 * * * cronx --run z --slug new\n";
    let without = "0 9 * * * cronx --run y --slug old\n0 9 * * * cronx --run z --slug new\n";
    let mut s1 = seed();
    let mut s2 = seed();
    let (a1, d1) = process_jobs(with_bad, &mut s1, now, false);
    let (a2, d2) = process_jobs(without, &mut s2, now, false);
    assert_eq!(d1, d2);
    assert_eq!(format!("{:?}", &a1[1..]), format!("{:?}", a2));
    assert!(matches!(&a1[0], CatchUpAction::InvalidSchedule { .. }));
}
