use cronx::setup::{
    append_line, catch_up_cron_line, has_catch_up_line, is_catch_up_line, remove_catch_up_lines,
    removed_suffix, setup_crontab, takedown_crontab,
};

#[test]
fn detects_existing_catch_up_line() {
    let ct = "0 9 * * * other-thing\n* * * * * /usr/local/bin/cronx --catch-up\n";
    assert!(has_catch_up_line(ct));
}

#[test]
fn ignores_commented_catch_up_line() {
    let ct = "# * * * * * cronx --catch-up\n";
    assert!(!has_catch_up_line(ct));
}

#[test]
fn empty_crontab_has_no_line() {
    assert!(!has_catch_up_line(""));
}

#[test]
fn managed_run_line_does_not_count_as_catch_up() {
    let ct = r#"0 9 * * * cronx --run "x" --slug y"#;
    assert!(!has_catch_up_line(ct));
}

#[test]
fn append_to_empty_crontab() {
    let result = append_line("", "* * * * * cronx --catch-up");
    assert_eq!(result, "* * * * * cronx --catch-up\n");
}

#[test]
fn append_to_crontab_without_trailing_newline() {
    let result = append_line("MAILTO=me", "* * * * * cronx --catch-up");
    assert_eq!(result, "MAILTO=me\n* * * * * cronx --catch-up\n");
}

#[test]
fn append_to_crontab_with_trailing_newline() {
    let result = append_line("MAILTO=me\n", "* * * * * cronx --catch-up");
    assert_eq!(result, "MAILTO=me\n* * * * * cronx --catch-up\n");
}

#[test]
fn remove_strips_catch_up_line_and_keeps_others() {
    let ct = "MAILTO=me\n* * * * * /usr/local/bin/cronx --catch-up\n0 9 * * * other-thing\n";
    let (result, removed) = remove_catch_up_lines(ct);
    assert_eq!(removed, 1);
    assert_eq!(result, "MAILTO=me\n0 9 * * * other-thing\n");
}

#[test]
fn remove_is_noop_when_no_line_present() {
    let ct = "MAILTO=me\n0 9 * * * other-thing\n";
    let (result, removed) = remove_catch_up_lines(ct);
    assert_eq!(removed, 0);
    assert_eq!(result, ct);
}

#[test]
fn remove_handles_multiple_catch_up_lines() {
    let ct = "* * * * * cronx --catch-up\n0 9 * * * thing\n* * * * * /opt/cronx --catch-up\n";
    let (result, removed) = remove_catch_up_lines(ct);
    assert_eq!(removed, 2);
    assert_eq!(result, "0 9 * * * thing\n");
}

#[test]
fn remove_preserves_commented_lines() {
    let ct = "# * * * * * cronx --catch-up\n* * * * * cronx --catch-up\n";
    let (result, removed) = remove_catch_up_lines(ct);
    assert_eq!(removed, 1);
    assert_eq!(result, "# * * * * * cronx --catch-up\n");
}

#[test]
fn remove_preserves_managed_run_lines() {
    let ct = "* * * * * cronx --catch-up\n0 9 * * * cronx --run \"x\" --slug y\n";
    let (result, removed) = remove_catch_up_lines(ct);
    assert_eq!(removed, 1);
    assert_eq!(result, "0 9 * * * cronx --run \"x\" --slug y\n");
}

#[test]
fn remove_from_only_catch_up_line_yields_empty() {
    let (result, removed) = remove_catch_up_lines("* * * * * cronx --catch-up\n");
    assert_eq!(removed, 1);
    assert_eq!(result, "");
}

#[test]
fn catch_up_line_needs_both_words() {
    assert!(is_catch_up_line("  * * * * * cronx --catch-up  "));
    assert!(!is_catch_up_line("* * * * * other --catch-up"));
    assert!(!is_catch_up_line("* * * * * cronx --catch"));
    assert!(!is_catch_up_line("   "));
}

#[test]
fn cron_line_for_binary() {
    assert_eq!(catch_up_cron_line("/usr/local/bin/cronx"), "* * * * * /usr/local/bin/cronx --catch-up");
}

#[test]
fn setup_is_idempotent_on_concrete_crontab() {
    let line = catch_up_cron_line("/opt/bin/cronx");
    let first = setup_crontab("MAILTO=me", &line).expect("installs");
    assert_eq!(first, "MAILTO=me\n* * * * * /opt/bin/cronx --catch-up\n");
    assert_eq!(setup_crontab(&first, &line), None);
}

#[test]
fn takedown_undoes_setup_on_concrete_crontab() {
    let line = catch_up_cron_line("/opt/bin/cronx");
    let ct = "MAILTO=me\n0 9 * * * job";
    let installed = setup_crontab(ct, &line).unwrap();
    let (after, removed) = remove_catch_up_lines(&installed);
    assert_eq!(removed, 1);
    assert_eq!(after, remove_catch_up_lines(ct).0);
    assert!(!has_catch_up_line(&after));
}

#[test]
fn takedown_normalizes_line_endings() {
    let (result, removed) = remove_catch_up_lines("a\r\n\nb");
    assert_eq!(removed, 0);
    assert_eq!(result, "a\n\nb\n");
    let (result, removed) = remove_catch_up_lines("\n");
    assert_eq!(removed, 0);
    assert_eq!(result, "");
}

#[test]
fn removed_line_word() {
    assert_eq!(removed_suffix(1), "line");
    assert_eq!(removed_suffix(2), "lines");
}

#[test]
fn takedown_decision() {
    assert_eq!(takedown_crontab("MAILTO=me\n"), None);
    assert_eq!(
        takedown_crontab("a\n* * * * * cronx --catch-up\n"),
        Some(("a\n".to_string(), 1))
    );
}

#[test]
fn takedown_is_idempotent() {
    for ct in ["a\n* * * * * cronx --catch-up\nb", "\n\n", "x\n\n* * * * * cronx --catch-up\n"] {
        let (once, _) = remove_catch_up_lines(ct);
        assert_eq!(remove_catch_up_lines(&once), (once.clone(), 0));
    }
}

#[test]
fn takedown_after_setup_restores_tidy_crontab() {
    let line = catch_up_cron_line("/usr/local/bin/cronx");
    for ct in ["", "MAILTO=me\n", "a\n\nb\n"] {
        let installed = setup_crontab(ct, &line).unwrap();
        assert_eq!(remove_catch_up_lines(&installed), (ct.to_string(), 1));
    }
}
