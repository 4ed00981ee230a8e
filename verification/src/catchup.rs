//! One catch-up tick: for each managed job of the crontab, decide whether
//! to record a baseline, re-run it, or leave it alone.
use vstd::prelude::*;
use crate::crontab::{job_views, managed_jobs, parse_managed_jobs, ManagedJob, ManagedJobView};
use crate::schedule::{
    deadline, is_missed, missed_outcome, outcome_view, ScheduleError,
};
use crate::state::{fresh_entry, JobEntry, JobEntryView, State};
use crate::text::{chars_of, string_of};

verus! {

/// How long after a scheduled fire time cron's own run is awaited before
/// the fire counts as missed.
pub const GRACE_SECONDS: i64 = 90;

/// The grace period in nanoseconds.
pub const GRACE_NANOS: i64 = GRACE_SECONDS * 1_000_000_000;

/// What a catch-up tick does about one managed job.
#[derive(Debug)]
pub enum CatchUpAction {
    /// First sight of the slug: a baseline entry is recorded (unless this
    /// is a dry run) and the job is not run.
    Baseline { slug: String },
    /// The job missed a fire: run its crontab command now.
    Run { job: ManagedJob },
    /// Dry run: the job missed a fire and would be run.
    WouldRun { slug: String },
    /// The job has not missed a fire.
    UpToDate { slug: String },
    /// The job's schedule could not be evaluated; it is skipped.
    InvalidSchedule { slug: String, error: ScheduleError },
}

/// The content of a catch-up action.
pub enum CatchUpActionView {
    Baseline { slug: Seq<char> },
    Run { job: ManagedJobView },
    WouldRun { slug: Seq<char> },
    UpToDate { slug: Seq<char> },
    InvalidSchedule { slug: Seq<char>, expr: Seq<char>, detail: Seq<char> },
}

impl View for CatchUpAction {
    type V = CatchUpActionView;

    open spec fn view(&self) -> CatchUpActionView {
        match self {
            CatchUpAction::Baseline { slug } => CatchUpActionView::Baseline { slug: slug@ },
            CatchUpAction::Run { job } => CatchUpActionView::Run { job: job@ },
            CatchUpAction::WouldRun { slug } => CatchUpActionView::WouldRun { slug: slug@ },
            CatchUpAction::UpToDate { slug } => CatchUpActionView::UpToDate { slug: slug@ },
            CatchUpAction::InvalidSchedule { slug, error } => CatchUpActionView::InvalidSchedule {
                slug: slug@,
                expr: error.expr_of(),
                detail: error.detail_of(),
            },
        }
    }
}

/// The action for a job that has an entry, given what evaluating its
/// schedule gave: a run (or, in a dry run, a report of one) when it was
/// missed, nothing when it was not, a skip carrying the rejected expression
/// and the cron crate's message when the schedule is invalid.
pub open spec fn action_for(
    job: ManagedJobView,
    missed: Result<bool, (Seq<char>, Seq<char>)>,
    dry_run: bool,
) -> CatchUpActionView {
    match missed {
        Ok(true) => if dry_run {
            CatchUpActionView::WouldRun { slug: job.slug }
        } else {
            CatchUpActionView::Run { job: job }
        },
        Ok(false) => CatchUpActionView::UpToDate { slug: job.slug },
        Err((expr, detail)) => CatchUpActionView::InvalidSchedule {
            slug: job.slug,
            expr: expr,
            detail: detail,
        },
    }
}

/// The state seen by the `i`-th job of a tick: the state before the tick
/// with a baseline entry for each earlier job whose slug was new (none in
/// a dry run).
pub open spec fn state_before(
    state: Map<Seq<char>, JobEntryView>,
    jobs: Seq<ManagedJobView>,
    i: nat,
    now: i64,
    dry_run: bool,
) -> Map<Seq<char>, JobEntryView>
    decreases i,
{
    if i == 0 {
        state
    } else {
        let prev = state_before(state, jobs, (i - 1) as nat, now, dry_run);
        let slug = jobs[i - 1].slug;
        if !dry_run && !prev.contains_key(slug) {
            prev.insert(slug, fresh_entry(slug, now))
        } else {
            prev
        }
    }
}

/// The action a job may get, seeing state `st`: a baseline when its slug
/// has no entry, else the action for some outcome that evaluating its
/// schedule against its last run may give.
pub open spec fn action_fits(
    job: ManagedJobView,
    st: Map<Seq<char>, JobEntryView>,
    now: i64,
    dry_run: bool,
    action: CatchUpActionView,
) -> bool {
    if !st.contains_key(job.slug) {
        action == CatchUpActionView::Baseline { slug: job.slug }
    } else {
        exists|m: Result<bool, (Seq<char>, Seq<char>)>|
            #![trigger action_for(job, m, dry_run)]
            missed_outcome(job.schedule_expr, st[job.slug].last_run_at, now, GRACE_NANOS, m)
                && action == action_for(job, m, dry_run)
    }
}

/// Some job of the tick was seen for the first time outside a dry run, so
/// the state changed and must be saved.
pub open spec fn baselined_any(
    state: Map<Seq<char>, JobEntryView>,
    jobs: Seq<ManagedJobView>,
    now: i64,
    dry_run: bool,
) -> bool {
    !dry_run && exists|i: int|
        0 <= i < jobs.len() && !(#[trigger] state_before(state, jobs, i as nat, now, dry_run)).contains_key(
            jobs[i].slug,
        )
}

/// The views of a sequence of actions.
pub open spec fn action_views(acts: Seq<CatchUpAction>) -> Seq<CatchUpActionView> {
    acts.map_values(|a: CatchUpAction| a@)
}

/// The action for a job that has an entry, given what evaluating its
/// schedule gave.
pub fn catch_up_action(job: &ManagedJob, missed: Result<bool, ScheduleError>, dry_run: bool) -> (r:
    CatchUpAction)
    ensures
        r@ == action_for(job@, outcome_view(missed), dry_run),
{
    match missed {
        Ok(true) => if dry_run {
            CatchUpAction::WouldRun { slug: job.slug.clone() }
        } else {
            CatchUpAction::Run { job: job.copy() }
        },
        Ok(false) => CatchUpAction::UpToDate { slug: job.slug.clone() },
        Err(error) => CatchUpAction::InvalidSchedule { slug: job.slug.clone(), error: error },
    }
}

/// One catch-up tick at `now` over the crontab text: one action per
/// managed job, in crontab order. A slug with no entry is baselined (its
/// entry records a last run at `now`; nothing is recorded in a dry run)
/// and not run; a known job is run when its schedule should have fired
/// after its last run and no later than `now` minus the grace period.
/// Returns the actions and whether the state changed.
pub fn process_jobs(crontab: &str, state: &mut State, now: i64, dry_run: bool) -> (r: (
    Vec<CatchUpAction>,
    bool,
))
    ensures
        ({
            let jobs = managed_jobs(crontab@);
            &&& r.0@.len() == jobs.len()
            &&& forall|i: int|
                0 <= i < jobs.len() ==> action_fits(
                    jobs[i],
                    state_before(old(state)@, jobs, i as nat, now, dry_run),
                    now,
                    dry_run,
                    #[trigger] r.0@[i]@,
                )
            &&& final(state)@ == state_before(old(state)@, jobs, jobs.len(), now, dry_run)
            &&& r.1 == baselined_any(old(state)@, jobs, now, dry_run)
        }),
{
    let jobs = parse_managed_jobs(crontab);
    let ghost js = managed_jobs(crontab@);
    let ghost start = state@;
    let n = jobs.len();
    let mut actions: Vec<CatchUpAction> = Vec::new();
    let mut dirty = false;
    let mut i: usize = 0;
    assert(job_views(jobs@) == js);
    while i < n
        invariant
            n == jobs@.len() == js.len(),
            job_views(jobs@) == js,
            i <= n,
            actions@.len() == i,
            forall|k: int|
                0 <= k < i ==> action_fits(
                    js[k],
                    state_before(start, js, k as nat, now, dry_run),
                    now,
                    dry_run,
                    #[trigger] actions@[k]@,
                ),
            state@ == state_before(start, js, i as nat, now, dry_run),
            dirty == (!dry_run && exists|k: int|
                0 <= k < i && !(#[trigger] state_before(
                    start,
                    js,
                    k as nat,
                    now,
                    dry_run,
                )).contains_key(js[k].slug)),
        decreases n - i,
    {
        let job = &jobs[i];
        assert(js[i as int] == job@);
        let ghost before = state@;
        let ghost old_dirty = dirty;
        let ghost prev_actions = actions@;
        let action = match state.get(job.slug.as_str()) {
            None => {
                if !dry_run {
                    let entry = JobEntry::new(string_of(chars_of(job.slug.as_str()).as_slice()), now);
                    state.insert(job.slug.clone(), entry);
                    dirty = true;
                }
                CatchUpAction::Baseline { slug: job.slug.clone() }
            },
            Some(entry) => {
                let missed = is_missed(job.schedule_expr.as_str(), entry.last_run_at, now, GRACE_NANOS);
                let ghost m = outcome_view(missed);
                let a = catch_up_action(job, missed, dry_run);
                assert(missed_outcome(job@.schedule_expr, before[job@.slug].last_run_at, now, GRACE_NANOS, m)
                    && a@ == action_for(job@, m, dry_run));
                a
            },
        };
        actions.push(action);
        proof {
            assert(state@ == state_before(start, js, (i + 1) as nat, now, dry_run));
            assert(actions@[i as int]@ == action@);
            assert forall|k: int| 0 <= k < i + 1 implies action_fits(
                js[k],
                state_before(start, js, k as nat, now, dry_run),
                now,
                dry_run,
                #[trigger] actions@[k]@,
            ) by {
                if k < i {
                    assert(actions@[k] == prev_actions[k]);
                }
            }
            if dirty && !old_dirty {
                assert(!state_before(start, js, i as nat, now, dry_run).contains_key(js[i as int].slug));
            }
            if old_dirty {
                let w = choose|k: int|
                    0 <= k < i && !(#[trigger] state_before(
                        start,
                        js,
                        k as nat,
                        now,
                        dry_run,
                    )).contains_key(js[k].slug);
                assert(0 <= w < i + 1);
            }
        }
        i = i + 1;
    }
    (actions, dirty)
}

/// A dry run records nothing: the state seen by every job is the state
/// before the tick, nothing is to be saved, and no job is run.
pub proof fn lemma_dry_run_changes_nothing(
    state: Map<Seq<char>, JobEntryView>,
    jobs: Seq<ManagedJobView>,
    now: i64,
)
    ensures
        forall|i: nat| #[trigger] state_before(state, jobs, i, now, true) == state,
        !baselined_any(state, jobs, now, true),
        forall|job: ManagedJobView, m: Result<bool, (Seq<char>, Seq<char>)>|
            !(#[trigger] action_for(job, m, true) is Run),
{
    assert forall|i: nat| #[trigger] state_before(state, jobs, i, now, true) == state by {
        lemma_dry_state_before(state, jobs, i, now);
    }
}

proof fn lemma_dry_state_before(
    state: Map<Seq<char>, JobEntryView>,
    jobs: Seq<ManagedJobView>,
    i: nat,
    now: i64,
)
    ensures
        state_before(state, jobs, i, now, true) == state,
    decreases i,
{
    if i > 0 {
        lemma_dry_state_before(state, jobs, (i - 1) as nat, now);
    }
}

/// A tick never changes or removes an entry that was there before it:
/// only slugs seen for the first time get one.
pub proof fn lemma_tick_keeps_entries(
    state: Map<Seq<char>, JobEntryView>,
    jobs: Seq<ManagedJobView>,
    i: nat,
    now: i64,
    dry_run: bool,
)
    ensures
        forall|k: Seq<char>|
            #[trigger] state.contains_key(k) ==> state_before(state, jobs, i, now, dry_run).contains_key(k)
                && state_before(state, jobs, i, now, dry_run)[k] == state[k],
    decreases i,
{
    if i > 0 {
        lemma_tick_keeps_entries(state, jobs, (i - 1) as nat, now, dry_run);
    }
}

/// First sight of a slug records a baseline: outside a dry run, the job
/// that sees no entry for its slug leaves one that records a last run at
/// `now`, with an empty status log and no failure; and its action is a
/// baseline, not a run.
pub proof fn lemma_first_sight_baselines(
    state: Map<Seq<char>, JobEntryView>,
    jobs: Seq<ManagedJobView>,
    i: nat,
    now: i64,
    action: CatchUpActionView,
)
    requires
        i < jobs.len(),
        !state_before(state, jobs, i, now, false).contains_key(jobs[i as int].slug),
        action_fits(jobs[i as int], state_before(state, jobs, i, now, false), now, false, action),
    ensures
        state_before(state, jobs, i + 1, now, false)[jobs[i as int].slug] == fresh_entry(
            jobs[i as int].slug,
            now,
        ),
        action == (CatchUpActionView::Baseline { slug: jobs[i as int].slug }),
{
}

/// A job is run only when it is due: it has an entry, and the deadline
/// (`now` minus the grace period) is after its last run.
pub proof fn lemma_run_only_when_due(
    job: ManagedJobView,
    st: Map<Seq<char>, JobEntryView>,
    now: i64,
    dry_run: bool,
    action: CatchUpActionView,
)
    requires
        action_fits(job, st, now, dry_run, action),
        action is Run || action is WouldRun,
    ensures
        st.contains_key(job.slug),
        deadline(now, GRACE_NANOS) > st[job.slug].last_run_at,
{
    let m = choose|m: Result<bool, (Seq<char>, Seq<char>)>|
        #![trigger action_for(job, m, dry_run)]
        missed_outcome(job.schedule_expr, st[job.slug].last_run_at, now, GRACE_NANOS, m) && action
            == action_for(job, m, dry_run);
}

/// `k` is the slug of one of the first `i` jobs.
pub open spec fn among_first(jobs: Seq<ManagedJobView>, i: int, k: Seq<char>) -> bool {
    exists|j: int| 0 <= j < i && jobs[j].slug == k
}

/// The state a tick leaves, in closed form (outside a dry run): the keys
/// before the tick plus the slugs of the jobs; an entry that was there
/// stays as it was, and each new slug gets a fresh entry with a last run
/// at `now`.
pub proof fn lemma_state_before_closed_form(
    state: Map<Seq<char>, JobEntryView>,
    jobs: Seq<ManagedJobView>,
    i: nat,
    now: i64,
)
    requires
        i <= jobs.len(),
    ensures
        forall|k: Seq<char>|
            #[trigger] state_before(state, jobs, i, now, false).contains_key(k) <==> (
            state.contains_key(k) || among_first(jobs, i as int, k)),
        forall|k: Seq<char>|
            #[trigger] state_before(state, jobs, i, now, false).contains_key(k) ==> state_before(
                state,
                jobs,
                i,
                now,
                false,
            )[k] == if state.contains_key(k) {
                state[k]
            } else {
                fresh_entry(k, now)
            },
    decreases i,
{
    if i > 0 {
        let p = (i - 1) as nat;
        lemma_state_before_closed_form(state, jobs, p, now);
        let prev = state_before(state, jobs, p, now, false);
        let slug = jobs[p as int].slug;
        let cur = state_before(state, jobs, i, now, false);
        assert forall|k: Seq<char>| #[trigger] cur.contains_key(k) <==> (state.contains_key(k)
            || among_first(jobs, i as int, k)) by {
            if among_first(jobs, i as int, k) && !among_first(jobs, p as int, k) {
                let j = choose|j: int| 0 <= j < i && jobs[j].slug == k;
                assert(j == p);
            }
            if among_first(jobs, p as int, k) {
                let j = choose|j: int| 0 <= j < p && jobs[j].slug == k;
                assert(0 <= j < i && jobs[j].slug == k);
            }
            if k == slug {
                assert(0 <= p < i && jobs[p as int].slug == k);
            }
        }
    }
}

/// Outside a dry run the state must be saved exactly when some job's slug
/// had no entry before the tick.
pub proof fn lemma_baselined_iff_new_slug(
    state: Map<Seq<char>, JobEntryView>,
    jobs: Seq<ManagedJobView>,
    now: i64,
)
    ensures
        baselined_any(state, jobs, now, false) <==> exists|j: int|
            0 <= j < jobs.len() && !state.contains_key(#[trigger] jobs[j].slug),
{
    if baselined_any(state, jobs, now, false) {
        let i = choose|i: int|
            0 <= i < jobs.len() && !(#[trigger] state_before(
                state,
                jobs,
                i as nat,
                now,
                false,
            )).contains_key(jobs[i].slug);
        lemma_tick_keeps_entries(state, jobs, i as nat, now, false);
        assert(!state.contains_key(jobs[i].slug));
    }
    if exists|j: int| 0 <= j < jobs.len() && !state.contains_key(#[trigger] jobs[j].slug) {
        let j = choose|j: int| 0 <= j < jobs.len() && !state.contains_key(#[trigger] jobs[j].slug);
        if !baselined_any(state, jobs, now, false) {
            lemma_no_baseline_keeps_state(state, jobs, jobs.len(), now);
            lemma_state_before_closed_form(state, jobs, (j + 1) as nat, now);
            lemma_tick_keeps_entries_after(state, jobs, (j + 1) as nat, jobs.len(), now);
            assert(state_before(state, jobs, (j + 1) as nat, now, false).contains_key(jobs[j].slug)) by {
                assert(among_first(jobs, j + 1, jobs[j].slug));
            }
        }
    }
}

/// When no job baselines, every state a job sees is the state before the
/// tick.
proof fn lemma_no_baseline_keeps_state(
    state: Map<Seq<char>, JobEntryView>,
    jobs: Seq<ManagedJobView>,
    i: nat,
    now: i64,
)
    requires
        i <= jobs.len(),
        !baselined_any(state, jobs, now, false),
    ensures
        state_before(state, jobs, i, now, false) == state,
    decreases i,
{
    if i > 0 {
        lemma_no_baseline_keeps_state(state, jobs, (i - 1) as nat, now);
        let p = (i - 1) as int;
        assert(state_before(state, jobs, p as nat, now, false).contains_key(jobs[p].slug));
    }
}

/// Keys only accumulate during a tick.
proof fn lemma_tick_keeps_entries_after(
    state: Map<Seq<char>, JobEntryView>,
    jobs: Seq<ManagedJobView>,
    i: nat,
    k: nat,
    now: i64,
)
    requires
        i <= k,
    ensures
        forall|x: Seq<char>|
            #[trigger] state_before(state, jobs, i, now, false).contains_key(x) ==> state_before(
                state,
                jobs,
                k,
                now,
                false,
            ).contains_key(x),
    decreases k,
{
    if k > i {
        lemma_tick_keeps_entries_after(state, jobs, i, (k - 1) as nat, now);
    }
}

/// Jobs that agree on a prefix see the same states along it.
proof fn lemma_state_before_prefix(
    state: Map<Seq<char>, JobEntryView>,
    a: Seq<ManagedJobView>,
    b: Seq<ManagedJobView>,
    k: nat,
    now: i64,
    dry_run: bool,
)
    requires
        k <= a.len(),
        k <= b.len(),
        forall|j: int| 0 <= j < k ==> a[j] == b[j],
    ensures
        state_before(state, a, k, now, dry_run) == state_before(state, b, k, now, dry_run),
    decreases k,
{
    if k > 0 {
        lemma_state_before_prefix(state, a, b, (k - 1) as nat, now, dry_run);
    }
}

/// A job whose slug already has an entry leaves no trace on the tick,
/// whatever its schedule gives (an invalid schedule included): every other
/// job sees the same state, and so is handled, as if that job's line were
/// absent from the crontab.
pub proof fn lemma_known_job_leaves_no_trace(
    state: Map<Seq<char>, JobEntryView>,
    jobs: Seq<ManagedJobView>,
    i: int,
    k: nat,
    now: i64,
    dry_run: bool,
)
    requires
        0 <= i < jobs.len(),
        state_before(state, jobs, i as nat, now, dry_run).contains_key(jobs[i].slug),
        k < jobs.len(),
    ensures
        k < i ==> state_before(state, jobs.remove(i), k, now, dry_run) == state_before(
            state,
            jobs,
            k,
            now,
            dry_run,
        ),
        k >= i ==> state_before(state, jobs.remove(i), k, now, dry_run) == state_before(
            state,
            jobs,
            k + 1,
            now,
            dry_run,
        ),
    decreases k,
{
    let r = jobs.remove(i);
    if k <= i {
        assert forall|j: int| 0 <= j < k implies r[j] == jobs[j] by {
        }
        lemma_state_before_prefix(state, r, jobs, k, now, dry_run);
    } else {
        lemma_known_job_leaves_no_trace(state, jobs, i, (k - 1) as nat, now, dry_run);
        assert(r[k - 1] == jobs[k as int]);
    }
}

} // verus!
