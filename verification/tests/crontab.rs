use cronx::crontab::{
    extract_slug, is_env_line, parse_first_arg, parse_managed_jobs, parse_managed_line,
    reports_no_crontab, split_schedule_and_command,
};

#[test]
fn parses_managed_line_with_quoted_slug() {
    let line = r#"0 9 * * * /usr/local/bin/cronx --run "do-thing" --slug "morning-thing""#;
    let job = parse_managed_line(line).expect("should parse");
    assert_eq!(job.slug, "morning-thing");
    assert_eq!(job.schedule_expr, "0 9 * * *");
    assert!(job.raw_command.starts_with("/usr/local/bin/cronx"));
}

#[test]
fn parses_managed_line_with_unquoted_slug() {
    let line = r#"*/5 * * * * cronx --run "x" --slug foo-bar"#;
    let job = parse_managed_line(line).expect("should parse");
    assert_eq!(job.slug, "foo-bar");
    assert_eq!(job.schedule_expr, "*/5 * * * *");
}

#[test]
fn parses_managed_line_with_equals_slug() {
    let line = r#"0 0 * * * cronx --run "x" --slug=eq-slug"#;
    let job = parse_managed_line(line).expect("should parse");
    assert_eq!(job.slug, "eq-slug");
}

#[test]
fn ignores_normal_cron_line() {
    let line = "0 9 * * * /usr/bin/some-other-thing";
    assert!(parse_managed_line(line).is_none());
}

#[test]
fn ignores_managed_line_missing_slug() {
    let line = r#"0 9 * * * cronx --run "x""#;
    assert!(parse_managed_line(line).is_none());
}

#[test]
fn ignores_comment_lines() {
    assert!(parse_managed_line("# 0 9 * * * cronx --slug x").is_none());
    assert!(parse_managed_line("   # comment").is_none());
}

#[test]
fn ignores_blank_lines() {
    assert!(parse_managed_line("").is_none());
    assert!(parse_managed_line("   ").is_none());
}

#[test]
fn ignores_env_lines() {
    assert!(parse_managed_line("MAILTO=ryan@example.com").is_none());
    assert!(parse_managed_line("PATH=/usr/local/bin:/usr/bin").is_none());
}

#[test]
fn ignores_malformed_lines() {
    // Only 3 fields.
    assert!(parse_managed_line("0 9 * cronx --slug x").is_none());
}

#[test]
fn parse_managed_jobs_filters_full_crontab() {
    let crontab = r#"
# my crontab
MAILTO=me@example.com

0 9 * * * cronx --run "morning" --slug "morning"
*/15 * * * * some-other-cron-job
0 0 * * 0 cronx --run "weekly" --slug weekly
"#;
    let jobs = parse_managed_jobs(crontab);
    assert_eq!(jobs.len(), 2);
    assert_eq!(jobs[0].slug, "morning");
    assert_eq!(jobs[1].slug, "weekly");
}

#[test]
fn handles_extra_whitespace_in_schedule() {
    let line = r#"0   9  *  *  *   cronx --run "x" --slug y"#;
    let job = parse_managed_line(line).expect("should parse");
    assert_eq!(job.slug, "y");
    assert!(job.schedule_expr.starts_with('0') && job.schedule_expr.ends_with('*'));
}

#[test]
fn managed_line_keeps_command_and_schedule_text() {
    let job = parse_managed_line("  0   9  *  *  *   cronx --run 'a b' --slug 'q s'  \r").unwrap();
    assert_eq!(job.schedule_expr, "0   9  *  *  *");
    assert_eq!(job.raw_command, "cronx --run 'a b' --slug 'q s'");
    assert_eq!(job.slug, "q s");
}

#[test]
fn env_line_detection() {
    assert!(is_env_line("MAILTO=x"));
    assert!(is_env_line("HOME_DIR2=/x"));
    assert!(is_env_line("ÄB=1"));
    assert!(!is_env_line("=x"));
    assert!(!is_env_line("A B=x"));
    assert!(!is_env_line("* * * * * cmd --opt=1"));
    assert!(!is_env_line("no equals here"));
}

#[test]
fn split_needs_five_fields_and_a_command() {
    assert_eq!(
        split_schedule_and_command("1 2 3 4 5 run it"),
        Some(("1 2 3 4 5".to_string(), "run it".to_string()))
    );
    assert_eq!(split_schedule_and_command("1 2 3 4 5"), None);
    assert_eq!(split_schedule_and_command("1 2 3 4 5   "), None);
    assert_eq!(split_schedule_and_command("1 2 3 4"), None);
    assert_eq!(split_schedule_and_command(""), None);
    assert_eq!(
        split_schedule_and_command("1\t2 3 4 5\tx"),
        Some(("1\t2 3 4 5".to_string(), "x".to_string()))
    );
}

#[test]
fn slug_extraction_forms() {
    assert_eq!(extract_slug("cronx --slug abc def"), Some("abc".to_string()));
    assert_eq!(extract_slug("cronx --slug==abc"), Some("abc".to_string()));
    assert_eq!(extract_slug("cronx --slug \"a b\" x"), Some("a b".to_string()));
    assert_eq!(extract_slug("cronx --slug 'unclosed"), None);
    assert_eq!(extract_slug("cronx --slug   "), None);
    assert_eq!(extract_slug("cronx --run x"), None);
    assert_eq!(extract_slug("--slug first --slug second"), Some("first".to_string()));
    assert_eq!(extract_slug("--slugged x"), Some("ged".to_string()));
}

#[test]
fn first_arg_forms() {
    assert_eq!(parse_first_arg("  word rest"), Some("word".to_string()));
    assert_eq!(parse_first_arg("'quoted one' rest"), Some("quoted one".to_string()));
    assert_eq!(parse_first_arg("\"\""), Some(String::new()));
    assert_eq!(parse_first_arg("'mixed\""), None);
    assert_eq!(parse_first_arg(""), None);
    assert_eq!(parse_first_arg("tab\tend"), Some("tab".to_string()));
    assert_eq!(parse_first_arg("nbsp\u{a0}end"), Some("nbsp".to_string()));
}

#[test]
fn jobs_keep_crontab_order_and_crlf_lines() {
    let crontab = "0 1 * * * cronx --run x --slug b\r\n0 2 * * * cronx --run y --slug a\n# 0 3 * * * cronx --run z --slug c\n";
    let jobs = parse_managed_jobs(crontab);
    let slugs: Vec<&str> = jobs.iter().map(|j| j.slug.as_str()).collect();
    assert_eq!(slugs, vec!["b", "a"]);
    assert_eq!(jobs[0].raw_command, "cronx --run x --slug b");
}

#[test]
fn managed_jobs_all_mention_cronx() {
    let crontab = "0 1 * * * other --run x --slug a\n0 2 * * * cronx --run y --slug b\n";
    let jobs = parse_managed_jobs(crontab);
    assert_eq!(jobs.len(), 1);
    assert!(jobs.iter().all(|j| j.raw_command.contains("cronx") && j.raw_command.contains("--run")));
}

#[test]
fn ignores_cronx_line_without_run() {
    assert!(parse_managed_line("0 9 * * * cronx --slug foo").is_none());
    assert!(parse_managed_jobs("0 9 * * * cronx --slug foo\n").is_empty());
}

#[test]
fn missing_crontab_message() {
    assert!(reports_no_crontab("crontab: no crontab for ryan\n"));
    assert!(!reports_no_crontab("crontab: permission denied"));
}

#[test]
fn jobs_of_joined_crontabs_concatenate() {
    let a = "0 1 * * * cronx --run x --slug a\r";
    let b = "MAILTO=me\n0 2 * * * cronx --run y --slug b\n";
    for a in [a, "", "\n", "0 3 * * * cronx --run z --slug c\n"] {
        let joined = format!("{}\n{}", a, b);
        let mut want = parse_managed_jobs(a);
        want.extend(parse_managed_jobs(b));
        assert_eq!(parse_managed_jobs(&joined), want);
    }
}

#[test]
fn split_iff_six_fields() {
    for line in ["1 2 3 4 5 cmd", "1 2 3 4 5", "1  2\t3 4 5   x y", " 1 2 3 4", "a b c d e f g", ""] {
        assert_eq!(
            split_schedule_and_command(line).is_some(),
            line.split_ascii_whitespace().count() >= 6,
            "{:?}",
            line
        );
    }
    // A vertical tab is a field to ASCII splitting but white space to trimming.
    assert!(split_schedule_and_command("1 2 3 4 5 \u{b}").is_none());
}

#[test]
fn env_line_name_characters_over_ascii() {
    for b in 0u8..128 {
        let c = b as char;
        let line = format!("{}=1", c);
        let expected = c.is_ascii_alphanumeric() || c == '_';
        assert_eq!(is_env_line(&line), expected, "character {:?}", c);
    }
    assert!(!is_env_line("0 0 * * * cronx --run \"x\" --slug=eq-slug"));
}
