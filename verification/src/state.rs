//! The per-job run history kept in the state file, and how a run updates it.
//!
//! Points in time are whole nanoseconds since the Unix epoch (UTC), in an
//! `i64`.
use vstd::prelude::*;
use crate::text::{chars_of, string_of, sub_chars, trim, trim_chars};

verus! {

/// How many runs the status log remembers.
pub const STATUS_LOG_WINDOW: usize = 10;

/// The mark a run leaves in the status log: `.` for a success, `x` for a
/// failure.
pub open spec fn status_mark(success: bool) -> char {
    if success {
        '.'
    } else {
        'x'
    }
}

/// The last `STATUS_LOG_WINDOW` characters of `s` (all of `s` when it is
/// shorter).
pub open spec fn last_window(s: Seq<char>) -> Seq<char> {
    if s.len() > STATUS_LOG_WINDOW {
        s.skip(s.len() - STATUS_LOG_WINDOW)
    } else {
        s
    }
}

/// Appends the mark of a run to a status log and keeps only the last
/// `STATUS_LOG_WINDOW` marks, the most recent rightmost.
pub fn push_status(log: &mut String, success: bool)
    ensures
        final(log)@ == last_window(old(log)@.push(status_mark(success))),
        final(log)@.len() <= STATUS_LOG_WINDOW,
        final(log)@.last() == status_mark(success),
        old(log)@.len() < STATUS_LOG_WINDOW ==> final(log)@ == old(log)@.push(status_mark(success)),
{
    let mut v = chars_of(log.as_str());
    let mark = if success {
        '.'
    } else {
        'x'
    };
    v.push(mark);
    let len = v.len();
    if len > STATUS_LOG_WINDOW {
        v = sub_chars(v.as_slice(), len - STATUS_LOG_WINDOW, len);
    }
    *log = string_of(v.as_slice());
}

/// The view of an optional text.
pub open spec fn opt_view(s: Option<String>) -> Option<Seq<char>> {
    match s {
        Some(t) => Some(t@),
        None => None,
    }
}

/// What the state file records of one job.
pub struct JobEntry {
    pub slug: String,
    pub last_run_at: i64,
    pub status_log_in_prev_10: String,
    pub last_failed_at: Option<i64>,
    pub last_failure_output: Option<String>,
    pub last_failure_code: Option<i32>,
}

/// The content of a job's entry.
pub struct JobEntryView {
    pub slug: Seq<char>,
    pub last_run_at: i64,
    pub status_log: Seq<char>,
    pub last_failed_at: Option<i64>,
    pub last_failure_output: Option<Seq<char>>,
    pub last_failure_code: Option<i32>,
}

impl View for JobEntry {
    type V = JobEntryView;

    open spec fn view(&self) -> JobEntryView {
        JobEntryView {
            slug: self.slug@,
            last_run_at: self.last_run_at,
            status_log: self.status_log_in_prev_10@,
            last_failed_at: self.last_failed_at,
            last_failure_output: opt_view(self.last_failure_output),
            last_failure_code: self.last_failure_code,
        }
    }
}

/// The entry a job gets when it is first seen or first run: last run now,
/// an empty status log, and no failure recorded.
pub open spec fn fresh_entry(slug: Seq<char>, now: i64) -> JobEntryView {
    JobEntryView {
        slug: slug,
        last_run_at: now,
        status_log: Seq::empty(),
        last_failed_at: None,
        last_failure_output: None,
        last_failure_code: None,
    }
}

impl JobEntry {
    /// A fresh entry: last run at `now`, empty status log, no failure.
    pub fn new(slug: String, now: i64) -> (r: JobEntry)
        ensures
            r@ == fresh_entry(slug@, now),
    {
        JobEntry {
            slug: slug,
            last_run_at: now,
            status_log_in_prev_10: String::new(),
            last_failed_at: None,
            last_failure_output: None,
            last_failure_code: None,
        }
    }
}

/// A sequence of keyed entries names no key twice.
pub open spec fn distinct_keys(s: Seq<(String, JobEntry)>) -> bool {
    forall|i: int, j: int|
        0 <= i < s.len() && 0 <= j < s.len() && i != j ==> (#[trigger] s[i]).0@ != (
        #[trigger] s[j]).0@
}

/// `k` is the key at some index of `s`.
pub open spec fn has_key_at(s: Seq<(String, JobEntry)>, k: Seq<char>, i: int) -> bool {
    0 <= i < s.len() && s[i].0@ == k
}

/// The map from each key to the content of its entry.
pub open spec fn map_of(s: Seq<(String, JobEntry)>) -> Map<Seq<char>, JobEntryView> {
    Map::new(
        |k: Seq<char>| exists|i: int| has_key_at(s, k, i),
        |k: Seq<char>| s[choose|i: int| has_key_at(s, k, i)].1@,
    )
}

/// With distinct keys, the entry at an index is the one its key maps to.
pub proof fn lemma_map_of_index(s: Seq<(String, JobEntry)>, i: int)
    requires
        distinct_keys(s),
        0 <= i < s.len(),
    ensures
        map_of(s).contains_key(s[i].0@),
        map_of(s)[s[i].0@] == s[i].1@,
{
    assert(has_key_at(s, s[i].0@, i));
    let c = choose|c: int| has_key_at(s, s[i].0@, c);
    if c != i {
        assert(s[c].0@ != s[i].0@);
    }
}

/// Adding an entry under a new key adds it to the map.
pub proof fn lemma_map_of_push(s: Seq<(String, JobEntry)>, k: String, e: JobEntry)
    requires
        distinct_keys(s),
        !map_of(s).contains_key(k@),
    ensures
        distinct_keys(s.push((k, e))),
        map_of(s.push((k, e))) == map_of(s).insert(k@, e@),
{
    let t = s.push((k, e));
    assert forall|i: int| 0 <= i < s.len() implies (#[trigger] t[i]).0@ != k@ by {
        assert(t[i] == s[i]);
        if s[i].0@ == k@ {
            assert(has_key_at(s, k@, i));
        }
    }
    assert forall|i: int, j: int|
        0 <= i < t.len() && 0 <= j < t.len() && i != j implies (#[trigger] t[i]).0@ != (
        #[trigger] t[j]).0@ by {
        if i < s.len() && j < s.len() {
            assert(t[i] == s[i] && t[j] == s[j]);
        }
    }
    let m = map_of(s).insert(k@, e@);
    assert forall|x: Seq<char>| map_of(t).contains_key(x) <==> m.contains_key(x) by {
        if map_of(t).contains_key(x) {
            let i = choose|i: int| has_key_at(t, x, i);
            if i < s.len() {
                assert(has_key_at(s, x, i));
            }
        }
        if m.contains_key(x) && x != k@ {
            let i = choose|i: int| has_key_at(s, x, i);
            assert(has_key_at(t, x, i));
        }
        if x == k@ {
            assert(has_key_at(t, x, s.len() as int));
        }
    }
    assert forall|x: Seq<char>| #[trigger] map_of(t).contains_key(x) implies map_of(t)[x] == m[x] by {
        let i = choose|i: int| has_key_at(t, x, i);
        lemma_map_of_index(t, i);
        if i < s.len() {
            lemma_map_of_index(s, i);
        }
    }
    assert(map_of(t) =~= m);
}

/// Replacing the entry at an index, keeping its key, replaces it in the map.
pub proof fn lemma_map_of_update(s: Seq<(String, JobEntry)>, i: int, e: JobEntry)
    requires
        distinct_keys(s),
        0 <= i < s.len(),
    ensures
        distinct_keys(s.update(i, (s[i].0, e))),
        map_of(s.update(i, (s[i].0, e))) == map_of(s).insert(s[i].0@, e@),
{
    let k = s[i].0;
    let t = s.update(i, (k, e));
    assert forall|a: int, b: int|
        0 <= a < t.len() && 0 <= b < t.len() && a != b implies (#[trigger] t[a]).0@ != (
        #[trigger] t[b]).0@ by {
        assert(t[a].0 == s[a].0 && t[b].0 == s[b].0);
    }
    let m = map_of(s).insert(k@, e@);
    lemma_map_of_index(s, i);
    assert forall|x: Seq<char>| map_of(t).contains_key(x) <==> m.contains_key(x) by {
        if map_of(t).contains_key(x) {
            let j = choose|j: int| has_key_at(t, x, j);
            assert(has_key_at(s, x, j));
        }
        if m.contains_key(x) {
            if x == k@ {
                assert(has_key_at(t, x, i));
            } else {
                let j = choose|j: int| has_key_at(s, x, j);
                assert(has_key_at(t, x, j));
            }
        }
    }
    assert forall|x: Seq<char>| #[trigger] map_of(t).contains_key(x) implies map_of(t)[x] == m[x] by {
        let j = choose|j: int| has_key_at(t, x, j);
        lemma_map_of_index(t, j);
        if j != i {
            lemma_map_of_index(s, j);
        }
    }
    assert(map_of(t) =~= m);
}

/// The jobs of the state file, each under its slug.
pub struct State {
    jobs: Vec<(String, JobEntry)>,
}

impl View for State {
    type V = Map<Seq<char>, JobEntryView>;

    closed spec fn view(&self) -> Map<Seq<char>, JobEntryView> {
        map_of(self.jobs@)
    }
}

fn same_chars(a: &[char], b: &[char]) -> (r: bool)
    ensures
        r == (a@ == b@),
{
    if a.len() != b.len() {
        return false;
    }
    let mut i: usize = 0;
    while i < a.len()
        invariant
            a@.len() == b@.len(),
            i <= a@.len(),
            forall|k: int| 0 <= k < i ==> a@[k] == b@[k],
        decreases a@.len() - i,
    {
        if a[i] != b[i] {
            return false;
        }
        i = i + 1;
    }
    assert(a@ =~= b@);
    true
}

impl State {
    #[verifier::type_invariant]
    spec fn keys_distinct(&self) -> bool {
        distinct_keys(self.jobs@)
    }

    /// A state with no jobs.
    pub fn new() -> (r: State)
        ensures
            r@ == Map::<Seq<char>, JobEntryView>::empty(),
    {
        let r = State { jobs: Vec::new() };
        assert(r@ =~= Map::<Seq<char>, JobEntryView>::empty());
        r
    }

    fn index_of(&self, slug: &[char]) -> (r: Option<usize>)
        ensures
            match r {
                Some(i) => i < self.jobs@.len() && self.jobs@[i as int].0@ == slug@,
                None => !self@.contains_key(slug@),
            },
    {
        let n = self.jobs.len();
        let mut i: usize = 0;
        while i < n
            invariant
                n == self.jobs@.len(),
                i <= n,
                forall|k: int| 0 <= k < i ==> self.jobs@[k].0@ != slug@,
            decreases n - i,
        {
            let key = chars_of(self.jobs[i].0.as_str());
            if same_chars(key.as_slice(), slug) {
                return Some(i);
            }
            i = i + 1;
        }
        assert(!self@.contains_key(slug@)) by {
            if self@.contains_key(slug@) {
                let k = choose|k: int| has_key_at(self.jobs@, slug@, k);
            }
        }
        None
    }

    /// The entry of a job, if the state has one.
    pub fn get(&self, slug: &str) -> (r: Option<&JobEntry>)
        ensures
            match r {
                Some(e) => self@.contains_key(slug@) && e@ == self@[slug@],
                None => !self@.contains_key(slug@),
            },
    {
        proof {
            use_type_invariant(self);
        }
        let s = chars_of(slug);
        match self.index_of(s.as_slice()) {
            Some(i) => {
                proof {
                    lemma_map_of_index(self.jobs@, i as int);
                }
                Some(&self.jobs[i].1)
            },
            None => None,
        }
    }

    /// Sets the entry of a job, replacing any it had.
    pub fn insert(&mut self, slug: String, entry: JobEntry)
        ensures
            final(self)@ == old(self)@.insert(slug@, entry@),
    {
        proof {
            use_type_invariant(&*self);
        }
        let key = chars_of(slug.as_str());
        let found = self.index_of(key.as_slice());
        let mut jobs: Vec<(String, JobEntry)> = Vec::new();
        std::mem::swap(&mut jobs, &mut self.jobs);
        let ghost old_jobs = jobs@;
        match found {
            Some(i) => {
                let (k, _old_entry) = jobs.remove(i);
                assert(k == old_jobs[i as int].0);
                jobs.insert(i, (k, entry));
                proof {
                    assert(jobs@ =~= old_jobs.update(i as int, (old_jobs[i as int].0, entry)));
                    lemma_map_of_update(old_jobs, i as int, entry);
                }
            },
            None => {
                jobs.push((slug, entry));
                proof {
                    lemma_map_of_push(old_jobs, slug, entry);
                }
            },
        }
        self.jobs = jobs;
    }

    /// The jobs, each with its slug, in no particular order.
    pub fn into_entries(self) -> (r: Vec<(String, JobEntry)>)
        ensures
            distinct_keys(r@),
            map_of(r@) == self@,
    {
        proof {
            use_type_invariant(&self);
        }
        self.jobs
    }
}

/// Whether the text of a state file holds nothing but white space, in
/// which case it stands for a state with no jobs.
pub fn is_blank_state_text(text: &str) -> (r: bool)
    ensures
        r == (trim(text@).len() == 0),
{
    let v = chars_of(text);
    let t = trim_chars(v.as_slice());
    t.len() == 0
}

} // verus!
