//! How a wrapped run of a job is recorded in the state.
use vstd::prelude::*;
use crate::state::{
    fresh_entry, last_window, opt_view, push_status, status_mark, JobEntry, JobEntryView, State,
};
use crate::text::{append_chars, chars_of, string_of};

verus! {

/// The failure output kept for a failed run: the standard output, a line
/// feed if it is not empty and does not end with one, then the standard
/// error.
pub open spec fn combined_output(stdout: Seq<char>, stderr: Seq<char>) -> Seq<char> {
    if stdout.len() > 0 && stdout.last() != '\n' {
        stdout.push('\n') + stderr
    } else {
        stdout + stderr
    }
}

/// A job's entry after a run at `now`: the last run time is `now`, the
/// run's mark is pushed on the status log, and a failed run also records
/// its time, output and exit code; a successful run leaves those as they
/// were.
pub open spec fn entry_after_run(
    e: JobEntryView,
    now: i64,
    success: bool,
    code: i32,
    stdout: Seq<char>,
    stderr: Seq<char>,
) -> JobEntryView {
    JobEntryView {
        slug: e.slug,
        last_run_at: now,
        status_log: last_window(e.status_log.push(status_mark(success))),
        last_failed_at: if success {
            e.last_failed_at
        } else {
            Some(now)
        },
        last_failure_output: if success {
            e.last_failure_output
        } else {
            Some(combined_output(stdout, stderr))
        },
        last_failure_code: if success {
            e.last_failure_code
        } else {
            Some(code)
        },
    }
}

/// The state after a run of the job `slug` at `now`: its entry (a fresh
/// one if it had none) updated by the run.
pub open spec fn recorded_run(
    state: Map<Seq<char>, JobEntryView>,
    slug: Seq<char>,
    now: i64,
    success: bool,
    code: i32,
    stdout: Seq<char>,
    stderr: Seq<char>,
) -> Map<Seq<char>, JobEntryView> {
    let before = if state.contains_key(slug) {
        state[slug]
    } else {
        fresh_entry(slug, now)
    };
    state.insert(slug, entry_after_run(before, now, success, code, stdout, stderr))
}

fn copy_text(s: &Option<String>) -> (r: Option<String>)
    ensures
        opt_view(r) == opt_view(*s),
{
    match s {
        Some(t) => Some(t.clone()),
        None => None,
    }
}

fn copy_entry(e: &JobEntry) -> (r: JobEntry)
    ensures
        r@ == e@,
{
    JobEntry {
        slug: e.slug.clone(),
        last_run_at: e.last_run_at,
        status_log_in_prev_10: e.status_log_in_prev_10.clone(),
        last_failed_at: e.last_failed_at,
        last_failure_output: copy_text(&e.last_failure_output),
        last_failure_code: e.last_failure_code,
    }
}

fn combine(stdout: &str, stderr: &str) -> (r: String)
    ensures
        r@ == combined_output(stdout@, stderr@),
{
    let mut out = chars_of(stdout);
    if out.len() > 0 && out[out.len() - 1] != '\n' {
        out.push('\n');
    }
    let err = chars_of(stderr);
    append_chars(&mut out, err.as_slice());
    string_of(out.as_slice())
}

/// Records a run of the job `slug` that finished at `now` with the given
/// success, exit code and output.
pub fn record_run(
    state: &mut State,
    slug: &str,
    now: i64,
    success: bool,
    code: i32,
    stdout: &str,
    stderr: &str,
)
    ensures
        final(state)@ == recorded_run(old(state)@, slug@, now, success, code, stdout@, stderr@),
{
    let key = string_of(chars_of(slug).as_slice());
    let mut entry = match state.get(slug) {
        Some(e) => copy_entry(e),
        None => JobEntry::new(string_of(chars_of(slug).as_slice()), now),
    };
    entry.last_run_at = now;
    push_status(&mut entry.status_log_in_prev_10, success);
    if !success {
        entry.last_failed_at = Some(now);
        entry.last_failure_output = Some(combine(stdout, stderr));
        entry.last_failure_code = Some(code);
    }
    state.insert(key, entry);
}

/// Failure fields come together: in an entry where the failure time,
/// output and code are all recorded or all absent, a run keeps it so; and
/// after a failed run all three are recorded.
pub proof fn lemma_failure_fields_together(
    e: JobEntryView,
    now: i64,
    success: bool,
    code: i32,
    stdout: Seq<char>,
    stderr: Seq<char>,
)
    requires
        e.last_failed_at is Some == e.last_failure_output is Some,
        e.last_failed_at is Some == e.last_failure_code is Some,
    ensures
        ({
            let a = entry_after_run(e, now, success, code, stdout, stderr);
            &&& a.last_failed_at is Some == a.last_failure_output is Some
            &&& a.last_failed_at is Some == a.last_failure_code is Some
            &&& !success ==> a.last_failed_at == Some(now)
            &&& a.last_run_at == now
        }),
{
}

/// A job that has never failed has no failure recorded: a fresh entry has
/// none, and successful runs add none.
pub proof fn lemma_no_failure_without_failed_run(
    slug: Seq<char>,
    now: i64,
    later: i64,
    code: i32,
    stdout: Seq<char>,
    stderr: Seq<char>,
)
    ensures
        ({
            let a = entry_after_run(fresh_entry(slug, now), later, true, code, stdout, stderr);
            &&& a.last_failed_at is None
            &&& a.last_failure_output is None
            &&& a.last_failure_code is None
        }),
{
}

} // verus!
