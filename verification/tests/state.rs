use cronx::state::{is_blank_state_text, push_status, JobEntry, State};

#[test]
fn push_status_appends_dot_on_success() {
    let mut log = String::from("..x");
    push_status(&mut log, true);
    assert_eq!(log, "..x.");
}

#[test]
fn push_status_appends_x_on_failure() {
    let mut log = String::from("...");
    push_status(&mut log, false);
    assert_eq!(log, "...x");
}

#[test]
fn push_status_keeps_only_last_ten() {
    let mut log = String::from("..........");
    push_status(&mut log, false);
    assert_eq!(log.chars().count(), 10);
    assert_eq!(log, ".........x");
}

#[test]
fn push_status_starts_from_empty() {
    let mut log = String::new();
    push_status(&mut log, true);
    assert_eq!(log, ".");
}

#[test]
fn push_status_window_on_long_log() {
    let mut log = String::from("x..........x");
    push_status(&mut log, true);
    assert_eq!(log, "........x.");
}

#[test]
fn state_insert_and_get() {
    let mut state = State::new();
    assert!(state.get("a").is_none());
    state.insert("a".to_string(), JobEntry::new("a".to_string(), 5));
    state.insert("b".to_string(), JobEntry::new("b".to_string(), 6));
    state.insert("a".to_string(), JobEntry::new("a".to_string(), 7));
    assert_eq!(state.get("a").unwrap().last_run_at, 7);
    assert_eq!(state.get("b").unwrap().last_run_at, 6);
    assert_eq!(state.into_entries().len(), 2);
}

#[test]
fn blank_state_text() {
    assert!(is_blank_state_text(""));
    assert!(is_blank_state_text(" \n\t "));
    assert!(!is_blank_state_text(" {} "));
}
