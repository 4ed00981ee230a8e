use cronx::runner::record_run;
use cronx::state::{JobEntry, State};

#[test]
fn first_run_creates_entry() {
    let mut state = State::new();
    record_run(&mut state, "job", 100, true, 0, "out", "");
    let e = state.get("job").unwrap();
    assert_eq!(e.slug, "job");
    assert_eq!(e.last_run_at, 100);
    assert_eq!(e.status_log_in_prev_10, ".");
    assert!(e.last_failed_at.is_none());
    assert!(e.last_failure_output.is_none());
    assert!(e.last_failure_code.is_none());
}

#[test]
fn failed_run_records_failure() {
    let mut state = State::new();
    let mut entry = JobEntry::new("job".to_string(), 1);
    entry.status_log_in_prev_10 = "..".to_string();
    state.insert("job".to_string(), entry);
    record_run(&mut state, "job", 200, false, 3, "partial", "boom\n");
    let e = state.get("job").unwrap();
    assert_eq!(e.last_run_at, 200);
    assert_eq!(e.status_log_in_prev_10, "..x");
    assert_eq!(e.last_failed_at, Some(200));
    assert_eq!(e.last_failure_output.as_deref(), Some("partial\nboom\n"));
    assert_eq!(e.last_failure_code, Some(3));
}

#[test]
fn success_keeps_earlier_failure() {
    let mut state = State::new();
    record_run(&mut state, "job", 10, false, 1, "", "err");
    record_run(&mut state, "job", 20, true, 0, "fine", "");
    let e = state.get("job").unwrap();
    assert_eq!(e.last_run_at, 20);
    assert_eq!(e.status_log_in_prev_10, "x.");
    assert_eq!(e.last_failed_at, Some(10));
    assert_eq!(e.last_failure_output.as_deref(), Some("err"));
    assert_eq!(e.last_failure_code, Some(1));
}

#[test]
fn output_ending_with_newline_is_not_doubled() {
    let mut state = State::new();
    record_run(&mut state, "job", 10, false, 2, "a\n", "b");
    assert_eq!(state.get("job").unwrap().last_failure_output.as_deref(), Some("a\nb"));
}
