//! Deciding whether a cron schedule should have fired since a job last ran.
//!
//! Points in time are whole nanoseconds since the Unix epoch (UTC), in an
//! `i64`; durations are nanoseconds too.
use vstd::prelude::*;
use std::str::FromStr;
use chrono::TimeZone;
use crate::text::{append_chars, chars_of, string_of, trim, trim_chars};
use crate::weekday::{crate_schedules, crate_schedules_chars};

verus! {

#[verifier::external_type_specification]
#[verifier::external_body]
pub struct ExSchedule(cron::Schedule);

#[verifier::external_type_specification]
#[verifier::external_body]
pub struct ExCronError(cron::error::Error);

/// Whether the `cron` crate accepts `expression` as a schedule. Its
/// grammar (six or seven fields with ranges, lists, steps and names) is
/// the crate's, and is only named here.
pub uninterp spec fn cron_accepts(expression: Seq<char>) -> bool;

/// Calls `cron::Schedule::from_str`. The contract claims that it succeeds
/// exactly on the expressions the crate accepts, a property of the text
/// alone.
#[verifier::external_body]
fn schedule_from_str(expression: &str) -> (r: Result<cron::Schedule, cron::error::Error>)
    ensures
        r is Ok <==> cron_accepts(expression@),
{
    cron::Schedule::from_str(expression)
}

/// Renders a `cron::error::Error` with its `Display` impl; nothing is
/// claimed of the text.
#[verifier::external_body]
fn cron_error_text(e: &cron::error::Error) -> String {
    e.to_string()
}

/// The first fire time of `schedule` after the instant `after`, evaluated
/// in the machine's local time zone: calls `Schedule::after` with
/// `after` converted by `Local.timestamp_nanos`, takes the iterator's
/// first item and converts it back with `timestamp_nanos_opt`. Nothing is
/// claimed of the result: it depends on the machine's time zone (around a
/// change of offset the crate may even give an instant before `after`),
/// and a fire time past the year 2262 comes back as `None`.
#[verifier::external_body]
fn next_fire_after(schedule: &cron::Schedule, after: i64) -> (r: Option<i64>) {
    match schedule.after(&chrono::Local.timestamp_nanos(after)).next() {
        Some(t) => t.timestamp_nanos_opt(),
        None => None,
    }
}

/// Why a schedule could not be evaluated.
#[derive(Debug)]
pub enum ScheduleError {
    /// The cron crate rejected the expression; `detail` is its message.
    InvalidExpression { expr: String, detail: String },
}

impl ScheduleError {
    /// The expression that was rejected.
    pub open spec fn expr_of(&self) -> Seq<char> {
        match self {
            ScheduleError::InvalidExpression { expr, .. } => expr@,
        }
    }

    /// The cron crate's message.
    pub open spec fn detail_of(&self) -> Seq<char> {
        match self {
            ScheduleError::InvalidExpression { detail, .. } => detail@,
        }
    }
}

/// The expression handed to the cron crate for a schedule `s` written in
/// its five fields: the crate wants a leading seconds field, so `0 ` is
/// put before it.
pub open spec fn schedule_text(s: Seq<char>) -> Seq<char> {
    seq!['0', ' '] + s
}

/// The schedules of the cron crate that stand for the crontab expression
/// `expr` (minute hour day-of-month month day-of-week, trimmed): its day
/// of week in the crate's numbering, and split in two when both day
/// fields are restricted, so that a day matching either one counts.
pub open spec fn crate_forms(expr: Seq<char>) -> Seq<Seq<char>> {
    crate_schedules(trim(expr))
}

/// The cron crate accepts every schedule that stands for `expr`.
pub open spec fn schedule_accepted(expr: Seq<char>) -> bool {
    forall|i: int| 0 <= i < crate_forms(expr).len() ==> cron_accepts(
        #[trigger] schedule_text(crate_forms(expr)[i]),
    )
}

/// The latest instant a fire time may have to count as missed: `now`
/// minus the grace period.
pub open spec fn deadline(now: i64, grace: i64) -> int {
    now - grace
}

/// Missed, given the first fire time after the last run that the schedule
/// yields: the deadline is after the last run, and that fire time is at or
/// before the deadline.
pub open spec fn missed_with(last_run_at: i64, now: i64, grace: i64, next_fire: Option<i64>) -> bool {
    &&& deadline(now, grace) > last_run_at
    &&& match next_fire {
        Some(f) => f <= deadline(now, grace),
        None => false,
    }
}

/// What may come of evaluating `expr` for a job last run at `last_run_at`:
/// an error exactly when the cron crate rejects a schedule that stands for
/// the expression, and otherwise a decision that can be `true` only when
/// the deadline is after the last run.
pub open spec fn missed_outcome(
    expr: Seq<char>,
    last_run_at: i64,
    now: i64,
    grace: i64,
    outcome: Result<bool, (Seq<char>, Seq<char>)>,
) -> bool {
    match outcome {
        Err((e, _detail)) => !schedule_accepted(expr) && e == expr,
        Ok(b) => schedule_accepted(expr) && (b ==> deadline(now, grace) > last_run_at),
    }
}

/// The view of an evaluation result: the decision, or the expression that
/// was rejected with the cron crate's message.
pub open spec fn outcome_view(r: Result<bool, ScheduleError>) -> Result<
    bool,
    (Seq<char>, Seq<char>),
> {
    match r {
        Ok(b) => Ok(b),
        Err(e) => Err((e.expr_of(), e.detail_of())),
    }
}

/// Hands one schedule of the crate's form to the cron crate.
fn parse_form(expr: &str, form: &[char]) -> (r: Result<cron::Schedule, ScheduleError>)
    ensures
        r is Ok <==> cron_accepts(schedule_text(form@)),
        r matches Err(e) ==> e.expr_of() == expr@,
{
    let mut full: Vec<char> = vec!['0', ' '];
    append_chars(&mut full, form);
    assert(full@ =~= schedule_text(form@));
    let text = string_of(full.as_slice());
    match schedule_from_str(text.as_str()) {
        Ok(s) => Ok(s),
        Err(e) => {
            let v = chars_of(expr);
            Err(
                ScheduleError::InvalidExpression {
                    expr: string_of(v.as_slice()),
                    detail: cron_error_text(&e),
                },
            )
        },
    }
}

/// Parses a five-field crontab expression into the cron crate's
/// schedules that stand for it (see `crate_forms`): the first, and the
/// second when there are two.
fn parse(expr: &str) -> (r: Result<(cron::Schedule, Option<cron::Schedule>), ScheduleError>)
    ensures
        r is Ok <==> schedule_accepted(expr@),
        r matches Ok((_first, second)) ==> (second is Some <==> crate_forms(expr@).len() == 2),
        r matches Err(e) ==> e.expr_of() == expr@,
{
    let v = chars_of(expr);
    let t = trim_chars(v.as_slice());
    let (first, second) = crate_schedules_chars(t.as_slice());
    let ghost forms = crate_forms(expr@);
    let a = match parse_form(expr, first.as_slice()) {
        Ok(a) => a,
        Err(e) => {
            assert(!cron_accepts(schedule_text(forms[0])));
            return Err(e);
        },
    };
    match second {
        None => {
            assert(cron_accepts(schedule_text(forms[0])));
            Ok((a, None))
        },
        Some(w) => match parse_form(expr, w.as_slice()) {
            Ok(b) => {
                assert forall|i: int| 0 <= i < forms.len() implies cron_accepts(
                    #[trigger] schedule_text(forms[i]),
                ) by {}
                Ok((a, Some(b)))
            },
            Err(e) => {
                assert(!cron_accepts(schedule_text(forms[1])));
                Err(e)
            },
        },
    }
}

/// The earlier of two fire times, where there is one.
fn earliest(a: Option<i64>, b: Option<i64>) -> (r: Option<i64>)
    ensures
        r == match (a, b) {
            (Some(x), Some(y)) => Some(if x <= y { x } else { y }),
            (Some(x), None) => Some(x),
            (None, y) => y,
        },
{
    match (a, b) {
        (Some(x), Some(y)) => Some(if x <= y { x } else { y }),
        (Some(x), None) => Some(x),
        (None, y) => y,
    }
}

/// Whether a job counts as missed, given the first fire time after its
/// last run that the schedule yields.
pub fn fire_in_window(last_run_at: i64, now: i64, grace: i64, next_fire: Option<i64>) -> (r: bool)
    ensures
        r == missed_with(last_run_at, now, grace, next_fire),
{
    let deadline = now as i128 - grace as i128;
    if deadline <= last_run_at as i128 {
        return false;
    }
    match next_fire {
        Some(f) => f as i128 <= deadline,
        None => false,
    }
}

/// Whether the schedule `expr` (five crontab fields, read in the machine's
/// local time zone; day of week 0 or 7 is Sunday, and when both day
/// fields are restricted a day matching either counts) should have fired
/// after `last_run_at` and no later than `now - grace`. It is handed to
/// the cron crate as the schedules of `crate_forms`; when the crate
/// rejects one of them the result is an error. When the deadline is not
/// after the last run the answer is `false` without looking at the
/// schedule; otherwise it is what `fire_in_window` decides from the first
/// fire time after the last run, the earlier of the two where there are
/// two schedules.
pub fn is_missed(expr: &str, last_run_at: i64, now: i64, grace: i64) -> (r: Result<bool, ScheduleError>)
    ensures
        missed_outcome(expr@, last_run_at, now, grace, outcome_view(r)),
        r matches Ok(b) ==> (deadline(now, grace) <= last_run_at ==> !b),
        r matches Ok(b) ==> exists|next_fire: Option<i64>|
            b == missed_with(last_run_at, now, grace, next_fire),
{
    let (schedule, other) = match parse(expr) {
        Ok(s) => s,
        Err(e) => {
            return Err(e);
        },
    };
    let deadline = now as i128 - grace as i128;
    if deadline <= last_run_at as i128 {
        assert(!missed_with(last_run_at, now, grace, None));
        return Ok(false);
    }
    let mut next = next_fire_after(&schedule, last_run_at);
    if let Some(other) = other {
        next = earliest(next, next_fire_after(&other, last_run_at));
    }
    Ok(fire_in_window(last_run_at, now, grace, next))
}

/// For a given first fire time, a miss stays a miss for an earlier last
/// run, a later `now` or a smaller grace period.
pub proof fn lemma_missed_with_monotone(
    last_run_at: i64,
    now: i64,
    grace: i64,
    last2: i64,
    now2: i64,
    grace2: i64,
    next_fire: Option<i64>,
)
    requires
        missed_with(last_run_at, now, grace, next_fire),
        last2 <= last_run_at,
        now2 >= now,
        grace2 <= grace,
    ensures
        missed_with(last2, now2, grace2, next_fire),
{
}

} // verus!
