use cronx::weekday::{crate_schedule_chars, crate_schedules_chars, crate_weekday_chars};

fn chars(s: &str) -> Vec<char> {
    s.chars().collect()
}

fn text(v: &[char]) -> String {
    v.iter().collect()
}

fn weekdays(s: &str) -> String {
    text(&crate_weekday_chars(&chars(s)))
}

#[test]
fn single_days_are_renumbered() {
    assert_eq!(weekdays("0"), "1");
    assert_eq!(weekdays("7"), "1");
    assert_eq!(weekdays("1"), "2");
    assert_eq!(weekdays("6"), "7");
    assert_eq!(weekdays("sun"), "1");
    assert_eq!(weekdays("Sat"), "7");
}

#[test]
fn ranges_lists_and_steps_become_day_lists() {
    assert_eq!(weekdays("1-5"), "2,3,4,5,6");
    assert_eq!(weekdays("mon-fri"), "2,3,4,5,6");
    assert_eq!(weekdays("5-7"), "1,6,7");
    assert_eq!(weekdays("*/2"), "1,3,5,7");
    assert_eq!(weekdays("1/2"), "1,2,4,6");
    assert_eq!(weekdays("0-6/3"), "1,4,7");
    assert_eq!(weekdays("mon,fri"), "2,6");
    assert_eq!(weekdays("6,0"), "1,7");
}

#[test]
fn star_and_unknown_fields_are_kept() {
    assert_eq!(weekdays("*"), "*");
    assert_eq!(weekdays("bad"), "bad");
    assert_eq!(weekdays("8"), "8");
    assert_eq!(weekdays("5-1"), "5-1");
    assert_eq!(weekdays("*/0"), "*/0");
    assert_eq!(weekdays("1,"), "1,");
}

#[test]
fn only_the_fifth_field_is_rewritten() {
    assert_eq!(text(&crate_schedule_chars(&chars("0 9 * * 1-5"))), "0 9 * * 2,3,4,5,6");
    assert_eq!(text(&crate_schedule_chars(&chars("0  1\t2 3 0"))), "0  1\t2 3 1");
    assert_eq!(text(&crate_schedule_chars(&chars("0 9 * *"))), "0 9 * *");
}

#[test]
fn both_day_fields_restricted_give_two_schedules() {
    let (first, second) = crate_schedules_chars(&chars("0 0 13 * 5"));
    assert_eq!(text(&first), "0 0 13 * *");
    assert_eq!(second.map(|w| text(&w)), Some("0 0 * * 6".to_string()));
}

#[test]
fn one_schedule_when_a_day_field_starts_with_a_star() {
    let (first, second) = crate_schedules_chars(&chars("0 9 * * 1-5"));
    assert_eq!(text(&first), "0 9 * * 2,3,4,5,6");
    assert!(second.is_none());
    let (first, second) = crate_schedules_chars(&chars("0 0 */2 * 1"));
    assert_eq!(text(&first), "0 0 */2 * 2");
    assert!(second.is_none());
}
