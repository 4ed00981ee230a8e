//! Reading the managed jobs out of the user's crontab text.
use vstd::prelude::*;
use crate::setup::{cronx_word};
use crate::text::{
    char_is_alphanumeric, chars_of, lemma_first_char, lemma_word_len_props, ends_with_char, lemma_lines_concat, lemma_lines_push_newline_any,
    lemma_lines_single, lemma_trim_drop_last_space, strip_cr, contains, find_char, find_chars, first_occurrence,
    alphanumeric, is_ascii_white_space, is_ascii_white_space_char, is_first_occurrence,
    is_white_space, lines, trim_end,
    occurs_at, split_lines, string_of, strip_leading, strip_leading_chars, sub_chars, trim,
    trim_chars, trim_start, trim_start_chars, views_of, word_len, word_length,
};

verus! {

/// A crontab line that runs a job through `cronx`, with the slug that
/// names the job in the state file.
#[derive(Debug, Clone, PartialEq, Eq)]
pub struct ManagedJob {
    pub slug: String,
    pub schedule_expr: String,
    pub raw_command: String,
}

/// The text of a managed job.
pub struct ManagedJobView {
    pub slug: Seq<char>,
    pub schedule_expr: Seq<char>,
    pub raw_command: Seq<char>,
}

impl View for ManagedJob {
    type V = ManagedJobView;

    open spec fn view(&self) -> ManagedJobView {
        ManagedJobView {
            slug: self.slug@,
            schedule_expr: self.schedule_expr@,
            raw_command: self.raw_command@,
        }
    }
}

impl ManagedJob {
    /// A copy of the job.
    pub fn copy(&self) -> (r: ManagedJob)
        ensures
            r@ == self@,
    {
        ManagedJob {
            slug: self.slug.clone(),
            schedule_expr: self.schedule_expr.clone(),
            raw_command: self.raw_command.clone(),
        }
    }
}

/// An environment line such as `MAILTO=me`: it has an `=`, and what stands
/// before the first `=` is not empty and is made of alphanumeric
/// characters and `_` only.
pub open spec fn env_line(line: Seq<char>) -> bool {
    match first_occurrence(line, seq!['=']) {
        None => false,
        Some(e) => e > 0 && forall|k: int|
            0 <= k < e ==> alphanumeric(#[trigger] line[k]) || line[k] == '_',
    }
}

/// From index `i`, the index of the first character that is not ASCII
/// white space (or the length).
pub open spec fn skip_spaces(s: Seq<char>, i: int) -> int
    decreases s.len() - i,
{
    if 0 <= i < s.len() && is_ascii_white_space(s[i]) {
        skip_spaces(s, i + 1)
    } else {
        i
    }
}

/// From index `i`, the index of the first ASCII white space (or the length).
pub open spec fn skip_field(s: Seq<char>, i: int) -> int
    decreases s.len() - i,
{
    if 0 <= i < s.len() && !is_ascii_white_space(s[i]) {
        skip_field(s, i + 1)
    } else {
        i
    }
}

/// The index just past the `k`-th whitespace-separated field that follows
/// index `i`, or `None` when the text runs out before `k` fields.
pub open spec fn fields_end(s: Seq<char>, i: int, k: nat) -> Option<int>
    decreases k,
{
    if k == 0 {
        Some(i)
    } else {
        let j = skip_spaces(s, i);
        if j >= s.len() {
            None
        } else {
            fields_end(s, skip_field(s, j), (k - 1) as nat)
        }
    }
}

/// The first five fields (the schedule) and the rest (the command), both
/// trimmed; `None` when there are fewer than five fields or no command.
pub open spec fn schedule_and_command(line: Seq<char>) -> Option<(Seq<char>, Seq<char>)> {
    match fields_end(line, 0, 5) {
        None => None,
        Some(e) => {
            let command = trim(line.subrange(e, line.len() as int));
            if command.len() == 0 {
                None
            } else {
                Some((trim(line.subrange(0, e)), command))
            }
        },
    }
}

/// How many whitespace-separated fields the text holds from index `i` on
/// (fields are separated by ASCII white space).
pub open spec fn field_count(s: Seq<char>, i: int) -> nat
    decreases s.len() - i,
{
    let j = skip_spaces(s, i);
    if i < 0 || j >= s.len() {
        0
    } else {
        proof {
            lemma_skip_spaces(s, i);
            lemma_skip_field(s, j);
        }
        1 + field_count(s, skip_field(s, j))
    }
}

/// What `skip_spaces` finds: only ASCII white space is skipped, and it
/// stops at a character that is not.
pub proof fn lemma_skip_spaces(s: Seq<char>, i: int)
    requires
        0 <= i,
    ensures
        i <= skip_spaces(s, i),
        i <= s.len() ==> skip_spaces(s, i) <= s.len(),
        forall|m: int| i <= m < skip_spaces(s, i) ==> is_ascii_white_space(#[trigger] s[m]),
        skip_spaces(s, i) < s.len() ==> !is_ascii_white_space(s[skip_spaces(s, i)]),
    decreases s.len() - i,
{
    if 0 <= i < s.len() && is_ascii_white_space(s[i]) {
        lemma_skip_spaces(s, i + 1);
    }
}

/// What `skip_field` finds: it skips at least the character it starts on,
/// when that is not white space, and stops at white space or the end.
pub proof fn lemma_skip_field(s: Seq<char>, i: int)
    requires
        0 <= i,
    ensures
        i <= skip_field(s, i),
        i <= s.len() ==> skip_field(s, i) <= s.len(),
        i < s.len() && !is_ascii_white_space(s[i]) ==> i < skip_field(s, i),
        forall|m: int| i <= m < skip_field(s, i) ==> !is_ascii_white_space(#[trigger] s[m]),
        skip_field(s, i) < s.len() ==> is_ascii_white_space(s[skip_field(s, i)]),
    decreases s.len() - i,
{
    if 0 <= i < s.len() && !is_ascii_white_space(s[i]) {
        lemma_skip_field(s, i + 1);
    }
}

/// The text `--run`.
pub open spec fn run_flag() -> Seq<char> {
    seq!['-', '-', 'r', 'u', 'n']
}

/// The text `--slug`.
pub open spec fn slug_flag() -> Seq<char> {
    seq!['-', '-', 's', 'l', 'u', 'g']
}

/// The first argument of `s`: after leading white space, either the text
/// inside a pair of matching `"` or `'` quotes, or the text up to the next
/// white space. `None` when `s` is blank or a quote is not closed.
pub open spec fn first_arg(s: Seq<char>) -> Option<Seq<char>> {
    let t = trim_start(s);
    if t.len() == 0 {
        None
    } else if t[0] == '"' || t[0] == '\'' {
        let body = t.drop_first();
        match first_occurrence(body, seq![t[0]]) {
            Some(e) => Some(body.take(e)),
            None => None,
        }
    } else {
        Some(t.take(word_len(t) as int))
    }
}

/// A quoted first argument runs from the opening quote to the first quote
/// of the same kind after it: it holds no such quote, and the text starts
/// with the quote, the argument and the quote again. There is none when
/// the quote is never closed.
pub proof fn lemma_first_arg_quoted(s: Seq<char>)
    requires
        trim_start(s).len() > 0,
        trim_start(s)[0] == '"' || trim_start(s)[0] == '\'',
    ensures
        first_arg(s) is Some <==> trim_start(s).drop_first().contains(trim_start(s)[0]),
        first_arg(s) matches Some(a) ==> {
            let q = trim_start(s)[0];
            &&& !a.contains(q)
            &&& a.len() + 2 <= trim_start(s).len()
            &&& trim_start(s).take(a.len() as int + 2) == seq![q] + a + seq![q]
        },
{
    let t = trim_start(s);
    let q = t[0];
    let body = t.drop_first();
    lemma_first_char(body, q);
    if let Some(e) = first_occurrence(body, seq![q]) {
        let a = body.take(e);
        assert(!a.contains(q)) by {
            if a.contains(q) {
                let j = choose|j: int| 0 <= j < a.len() && a[j] == q;
                assert(body[j] == q);
            }
        }
        assert(t.take(a.len() as int + 2) =~= seq![q] + a + seq![q]) by {
            assert(t[e + 1] == body[e]);
        }
    }
}

/// An unquoted first argument is the run of characters up to the next
/// white space: not empty, free of white space, and followed by white space
/// or the end of the text.
pub proof fn lemma_first_arg_word(s: Seq<char>)
    requires
        trim_start(s).len() > 0,
        trim_start(s)[0] != '"',
        trim_start(s)[0] != '\'',
    ensures
        first_arg(s) matches Some(a) && {
            let t = trim_start(s);
            &&& 0 < a.len() <= t.len()
            &&& t.take(a.len() as int) == a
            &&& forall|m: int| 0 <= m < a.len() ==> !is_white_space(#[trigger] a[m])
            &&& (a.len() < t.len() ==> is_white_space(t[a.len() as int]))
        },
{
    let t = trim_start(s);
    lemma_word_len_props(t);
    lemma_trim_start_empty(s);
    let a = t.take(word_len(t) as int);
    assert forall|m: int| 0 <= m < a.len() implies !is_white_space(#[trigger] a[m]) by {
        assert(a[m] == t[m]);
    }
}

/// The slug of a command: the first argument after the first `--slug`,
/// written `--slug value` or `--slug=value`.
pub open spec fn slug_of(command: Seq<char>) -> Option<Seq<char>> {
    match first_occurrence(command, slug_flag()) {
        None => None,
        Some(i) => first_arg(
            trim_start(strip_leading(command.subrange(i + 6, command.len() as int), '=')),
        ),
    }
}

/// The managed job a crontab line describes, if any: the trimmed line is
/// not blank, not a comment and not an environment line, has a schedule
/// of five fields and a command, the command runs the job through
/// `cronx --run` (it mentions both `cronx` and `--run`), and it names a
/// slug.
pub open spec fn managed_line(line: Seq<char>) -> Option<ManagedJobView> {
    let t = trim(line);
    if t.len() == 0 || t[0] == '#' || env_line(t) {
        None
    } else {
        match schedule_and_command(t) {
            None => None,
            Some((schedule, command)) => if !contains(command, cronx_word()) || !contains(
                command,
                run_flag(),
            ) {
                None
            } else {
                match slug_of(command) {
                    None => None,
                    Some(slug) => Some(
                        ManagedJobView { slug: slug, schedule_expr: schedule, raw_command: command },
                    ),
                }
            },
        }
    }
}

/// The text `no crontab`, which `crontab -l` prints when the user has none.
pub open spec fn no_crontab_words() -> Seq<char> {
    seq!['n', 'o', ' ', 'c', 'r', 'o', 'n', 't', 'a', 'b']
}

/// Whether the error output of a failed `crontab -l` says that the user
/// has no crontab (which counts as an empty one).
pub fn reports_no_crontab(stderr: &str) -> (r: bool)
    ensures
        r == contains(stderr@, no_crontab_words()),
{
    let v = chars_of(stderr);
    let p = vec!['n', 'o', ' ', 'c', 'r', 'o', 'n', 't', 'a', 'b'];
    assert(p@ =~= no_crontab_words());
    match find_chars(v.as_slice(), p.as_slice()) {
        Some(i) => {
            assert(occurs_at(v@, no_crontab_words(), i as int));
            true
        },
        None => false,
    }
}

/// The managed jobs of a sequence of lines, in order.
pub open spec fn managed_jobs_of(ls: Seq<Seq<char>>) -> Seq<ManagedJobView>
    decreases ls.len(),
{
    if ls.len() == 0 {
        seq![]
    } else {
        match managed_line(ls.last()) {
            Some(j) => managed_jobs_of(ls.drop_last()).push(j),
            None => managed_jobs_of(ls.drop_last()),
        }
    }
}

/// The managed jobs of a crontab, in the order of its lines.
pub open spec fn managed_jobs(crontab: Seq<char>) -> Seq<ManagedJobView> {
    managed_jobs_of(lines(crontab))
}

/// The views of a sequence of jobs.
pub open spec fn job_views(js: Seq<ManagedJob>) -> Seq<ManagedJobView> {
    js.map_values(|j: ManagedJob| j@)
}

fn is_env_chars(v: &[char]) -> (r: bool)
    ensures
        r == env_line(v@),
{
    match find_char(v, '=') {
        None => false,
        Some(e) => {
            if e == 0 {
                return false;
            }
            let mut k: usize = 0;
            while k < e
                invariant
                    e <= v@.len(),
                    first_occurrence(v@, seq!['=']) == Some(e as int),
                    forall|m: int|
                        0 <= m < k ==> alphanumeric(#[trigger] v@[m]) || v@[m] == '_',
                decreases e - k,
            {
                let c = v[k];
                if !(char_is_alphanumeric(c) || c == '_') {
                    return false;
                }
                k = k + 1;
            }
            true
        },
    }
}

/// Whether a line is an environment line such as `MAILTO=me`.
pub fn is_env_line(line: &str) -> (r: bool)
    ensures
        r == env_line(line@),
{
    let v = chars_of(line);
    is_env_chars(v.as_slice())
}

pub(crate) fn skip_spaces_from(v: &[char], i: usize) -> (j: usize)
    requires
        i <= v@.len(),
    ensures
        i <= j <= v@.len(),
        j == skip_spaces(v@, i as int),
{
    let mut j = i;
    while j < v.len() && is_ascii_white_space_char(v[j])
        invariant
            i <= j <= v@.len(),
            skip_spaces(v@, i as int) == skip_spaces(v@, j as int),
        decreases v@.len() - j,
    {
        j = j + 1;
    }
    j
}

pub(crate) fn skip_field_from(v: &[char], i: usize) -> (j: usize)
    requires
        i <= v@.len(),
    ensures
        i <= j <= v@.len(),
        j == skip_field(v@, i as int),
{
    let mut j = i;
    while j < v.len() && !is_ascii_white_space_char(v[j])
        invariant
            i <= j <= v@.len(),
            skip_field(v@, i as int) == skip_field(v@, j as int),
        decreases v@.len() - j,
    {
        j = j + 1;
    }
    j
}

/// The index just past the first `n` fields, if there are that many.
pub(crate) fn fields_end_index(v: &[char], n: usize) -> (r: Option<usize>)
    ensures
        match fields_end(v@, 0, n as nat) {
            Some(e) => r == Some(e as usize) && 0 <= e <= v@.len(),
            None => r is None,
        },
{
    let mut idx: usize = 0;
    let mut k: usize = 0;
    while k < n
        invariant
            k <= n,
            idx <= v@.len(),
            fields_end(v@, 0, n as nat) == fields_end(v@, idx as int, (n - k) as nat),
        decreases n - k,
    {
        let j = skip_spaces_from(v, idx);
        if j >= v.len() {
            return None;
        }
        idx = skip_field_from(v, j);
        k = k + 1;
    }
    Some(idx)
}

fn split_chars(v: &[char]) -> (r: Option<(Vec<char>, Vec<char>)>)
    ensures
        match schedule_and_command(v@) {
            Some((s, c)) => r matches Some((rs, rc)) && rs@ == s && rc@ == c,
            None => r is None,
        },
{
    match fields_end_index(v, 5) {
        None => None,
        Some(e) => {
            let rest = sub_chars(v, e, v.len());
            let command = trim_chars(rest.as_slice());
            if command.len() == 0 {
                return None;
            }
            let head = sub_chars(v, 0, e);
            let schedule = trim_chars(head.as_slice());
            Some((schedule, command))
        },
    }
}

/// The schedule (the first five whitespace-separated fields) and the
/// command (the rest), both trimmed; `None` when there are fewer than five
/// fields or no command.
pub fn split_schedule_and_command(line: &str) -> (r: Option<(String, String)>)
    ensures
        match schedule_and_command(line@) {
            Some((s, c)) => r matches Some((rs, rc)) && rs@ == s && rc@ == c,
            None => r is None,
        },
{
    let v = chars_of(line);
    match split_chars(v.as_slice()) {
        None => None,
        Some((s, c)) => Some((string_of(s.as_slice()), string_of(c.as_slice()))),
    }
}

fn first_arg_chars(s: &[char]) -> (r: Option<Vec<char>>)
    ensures
        match first_arg(s@) {
            Some(a) => r matches Some(ra) && ra@ == a,
            None => r is None,
        },
{
    let t = trim_start_chars(s);
    if t.len() == 0 {
        return None;
    }
    let first = t[0];
    if first == '"' || first == '\'' {
        let body = sub_chars(t.as_slice(), 1, t.len());
        assert(body@ =~= t@.drop_first());
        match find_char(body.as_slice(), first) {
            Some(e) => Some(sub_chars(body.as_slice(), 0, e)),
            None => None,
        }
    } else {
        let n = word_length(t.as_slice());
        Some(sub_chars(t.as_slice(), 0, n))
    }
}

/// The first argument of `s`: the text inside matching quotes, or the
/// text up to the next white space, after leading white space.
pub fn parse_first_arg(s: &str) -> (r: Option<String>)
    ensures
        match first_arg(s@) {
            Some(a) => r matches Some(ra) && ra@ == a,
            None => r is None,
        },
{
    let v = chars_of(s);
    match first_arg_chars(v.as_slice()) {
        Some(a) => Some(string_of(a.as_slice())),
        None => None,
    }
}

fn slug_flag_chars() -> (r: Vec<char>)
    ensures
        r@ == slug_flag(),
{
    let r = vec!['-', '-', 's', 'l', 'u', 'g'];
    assert(r@ =~= slug_flag());
    r
}

fn slug_chars(command: &[char]) -> (r: Option<Vec<char>>)
    ensures
        match slug_of(command@) {
            Some(a) => r matches Some(ra) && ra@ == a,
            None => r is None,
        },
{
    let flag = slug_flag_chars();
    match find_chars(command, flag.as_slice()) {
        None => None,
        Some(i) => {
            assert(occurs_at(command@, slug_flag(), i as int));
            assert(slug_flag().len() == 6);
            assert(i + 6 <= command@.len());
            assert(command@.len() == command.len());
            let after = sub_chars(command, i + 6, command.len());
            let stripped = strip_leading_chars(after.as_slice(), '=');
            let rest = trim_start_chars(stripped.as_slice());
            first_arg_chars(rest.as_slice())
        },
    }
}

/// The slug a command names with `--slug value` or `--slug=value`.
pub fn extract_slug(command: &str) -> (r: Option<String>)
    ensures
        match slug_of(command@) {
            Some(a) => r matches Some(ra) && ra@ == a,
            None => r is None,
        },
{
    let v = chars_of(command);
    match slug_chars(v.as_slice()) {
        Some(a) => Some(string_of(a.as_slice())),
        None => None,
    }
}

fn managed_line_chars(line: &[char]) -> (r: Option<ManagedJob>)
    ensures
        match managed_line(line@) {
            Some(j) => r matches Some(rj) && rj@ == j,
            None => r is None,
        },
{
    let t = trim_chars(line);
    if t.len() == 0 || t[0] == '#' {
        return None;
    }
    if is_env_chars(t.as_slice()) {
        return None;
    }
    match split_chars(t.as_slice()) {
        None => None,
        Some((schedule, command)) => {
            let cronx = vec!['c', 'r', 'o', 'n', 'x'];
            assert(cronx@ =~= cronx_word());
            match find_chars(command.as_slice(), cronx.as_slice()) {
                None => None,
                Some(i) => {
                    assert(occurs_at(command@, cronx_word(), i as int));
                    let run = vec!['-', '-', 'r', 'u', 'n'];
                    assert(run@ =~= run_flag());
                    match find_chars(command.as_slice(), run.as_slice()) {
                        None => None,
                        Some(j) => {
                            assert(occurs_at(command@, run_flag(), j as int));
                            match slug_chars(command.as_slice()) {
                                None => None,
                                Some(slug) => Some(
                                    ManagedJob {
                                        slug: string_of(slug.as_slice()),
                                        schedule_expr: string_of(schedule.as_slice()),
                                        raw_command: string_of(command.as_slice()),
                                    },
                                ),
                            }
                        },
                    }
                },
            }
        },
    }
}

/// The managed job a crontab line describes, if any.
pub fn parse_managed_line(line: &str) -> (r: Option<ManagedJob>)
    ensures
        match managed_line(line@) {
            Some(j) => r matches Some(rj) && rj@ == j,
            None => r is None,
        },
{
    let v = chars_of(line);
    managed_line_chars(v.as_slice())
}

/// The managed jobs of a crontab, one for each line that describes one,
/// in the order of the lines.
pub fn parse_managed_jobs(crontab: &str) -> (r: Vec<ManagedJob>)
    ensures
        job_views(r@) == managed_jobs(crontab@),
{
    let v = chars_of(crontab);
    let ls = split_lines(v.as_slice());
    let ghost all = lines(crontab@);
    let n = ls.len();
    let mut out: Vec<ManagedJob> = Vec::new();
    let mut i: usize = 0;
    assert(all.take(0) =~= Seq::<Seq<char>>::empty());
    while i < n
        invariant
            n == ls@.len() == all.len(),
            views_of(ls@) == all,
            i <= n,
            job_views(out@) == managed_jobs_of(all.take(i as int)),
        decreases n - i,
    {
        assert(all.take(i + 1).drop_last() =~= all.take(i as int));
        assert(all.take(i + 1).last() == ls@[i as int]@);
        let ghost before = out@;
        match managed_line_chars(ls[i].as_slice()) {
            Some(job) => {
                out.push(job);
                assert(job_views(out@) =~= job_views(before).push(job@));
            },
            None => {},
        }
        i = i + 1;
    }
    assert(all.take(n as int) =~= all);
    out
}

/// Only opted-in lines are managed: every managed job's command uses
/// `cronx --run` (it mentions `cronx` and `--run`) and names its slug with
/// `--slug`; a line whose command lacks either word gives no job.
pub proof fn lemma_managed_jobs_opted_in(ls: Seq<Seq<char>>)
    ensures
        forall|i: int|
            0 <= i < managed_jobs_of(ls).len() ==> contains(
                (#[trigger] managed_jobs_of(ls)[i]).raw_command,
                cronx_word(),
            ) && contains(managed_jobs_of(ls)[i].raw_command, run_flag()) && slug_of(
                managed_jobs_of(ls)[i].raw_command,
            ) == Some(managed_jobs_of(ls)[i].slug),
        forall|line: Seq<char>|
            #![trigger managed_line(line)]
            (schedule_and_command(trim(line)) matches Some((s, c)) && (!contains(c, cronx_word())
                || !contains(c, run_flag()))) ==> managed_line(line) is None,
    decreases ls.len(),
{
    if ls.len() > 0 {
        lemma_managed_jobs_opted_in(ls.drop_last());
    }
}

/// A trailing carriage return does not change what a line describes.
pub proof fn lemma_managed_line_strip_cr(line: Seq<char>)
    ensures
        managed_line(strip_cr(line)) == managed_line(line),
{
    if ends_with_char(line, '\r') {
        lemma_trim_drop_last_space(line);
    }
}

/// The jobs of two runs of lines are the jobs of each, in order.
pub proof fn lemma_managed_jobs_concat(l1: Seq<Seq<char>>, l2: Seq<Seq<char>>)
    ensures
        managed_jobs_of(l1 + l2) == managed_jobs_of(l1) + managed_jobs_of(l2),
    decreases l2.len(),
{
    if l2.len() == 0 {
        assert(l1 + l2 =~= l1);
        assert(managed_jobs_of(l2) =~= Seq::<ManagedJobView>::empty());
        assert(managed_jobs_of(l1) + managed_jobs_of(l2) =~= managed_jobs_of(l1));
    } else {
        let d = l2.drop_last();
        lemma_managed_jobs_concat(l1, d);
        assert((l1 + l2).drop_last() =~= l1 + d);
        assert((l1 + l2).last() == l2.last());
        match managed_line(l2.last()) {
            Some(j) => {
                assert(managed_jobs_of(l1 + l2) =~= managed_jobs_of(l1) + managed_jobs_of(l2));
            },
            None => {},
        }
    }
}

/// Jobs are found line by line and kept in crontab order: the jobs of two
/// crontab texts joined by a line feed are the jobs of the first followed
/// by those of the second.
pub proof fn lemma_managed_jobs_join(a: Seq<char>, b: Seq<char>)
    ensures
        managed_jobs(a.push('\n') + b) == managed_jobs(a) + managed_jobs(b),
{
    let a1 = a.push('\n');
    lemma_lines_concat(a1, b);
    lemma_managed_jobs_concat(lines(a1), lines(b));
    assert(managed_line(Seq::<char>::empty()) is None) by {
        assert(trim(Seq::<char>::empty()) =~= Seq::<char>::empty());
    }
    let one = seq![Seq::<char>::empty()];
    assert(one.drop_last() =~= Seq::<Seq<char>>::empty());
    assert(one.last() == Seq::<char>::empty());
    assert(managed_jobs_of(Seq::<Seq<char>>::empty()) =~= Seq::<ManagedJobView>::empty());
    assert(managed_line(one.last()) is None);
    assert(managed_jobs_of(one) =~= Seq::<ManagedJobView>::empty());
    if a.len() == 0 {
        lemma_lines_single(a);
        assert(strip_cr(a) =~= Seq::<char>::empty());
        assert(lines(a1) == one);
        assert(lines(a) =~= Seq::<Seq<char>>::empty());
        assert(managed_jobs_of(lines(a1)) =~= managed_jobs_of(lines(a)));
    } else if a.last() == '\n' {
        let nl = seq!['\n'];
        assert(a1 =~= a + nl);
        lemma_lines_concat(a, nl);
        lemma_lines_single(Seq::<char>::empty());
        assert(Seq::<char>::empty().push('\n') =~= nl);
        assert(strip_cr(Seq::<char>::empty()) =~= Seq::<char>::empty());
        lemma_managed_jobs_concat(lines(a), lines(nl));
        assert(lines(nl) == one);
        assert(managed_jobs_of(lines(a)) + managed_jobs_of(lines(nl)) =~= managed_jobs_of(lines(a)));
    } else {
        lemma_lines_push_newline_any(a);
        let ls = lines(a);
        lemma_managed_line_strip_cr(ls.last());
        let ls1 = ls.drop_last().push(strip_cr(ls.last()));
        assert(ls1.drop_last() =~= ls.drop_last());
        assert(ls1.last() == strip_cr(ls.last()));
        assert(managed_jobs_of(ls1) == managed_jobs_of(ls));
    }
}

/// The end of the first `k` fields and the number of fields agree.
pub proof fn lemma_fields_end_count(s: Seq<char>, i: int, k: nat)
    requires
        0 <= i <= s.len(),
    ensures
        match fields_end(s, i, k) {
            Some(e) => 0 <= e <= s.len() && field_count(s, i) == k + field_count(s, e),
            None => field_count(s, i) < k,
        },
    decreases k,
{
    if k > 0 {
        lemma_skip_spaces(s, i);
        let j = skip_spaces(s, i);
        if j < s.len() {
            lemma_skip_field(s, j);
            lemma_fields_end_count(s, skip_field(s, j), (k - 1) as nat);
        }
    }
}

/// From index `e` on there is a field exactly when some character there is
/// not ASCII white space.
pub proof fn lemma_field_count_positive(s: Seq<char>, e: int)
    requires
        0 <= e <= s.len(),
    ensures
        field_count(s, e) >= 1 <==> exists|m: int| e <= m < s.len() && !is_ascii_white_space(#[trigger] s[m]),
{
    lemma_skip_spaces(s, e);
    let j = skip_spaces(s, e);
    if j < s.len() {
        assert(!is_ascii_white_space(s[j]));
    }
}

/// Leading white space removed leaves nothing exactly when all is white space.
pub proof fn lemma_trim_start_empty(t: Seq<char>)
    ensures
        trim_start(t).len() == 0 <==> forall|m: int| 0 <= m < t.len() ==> is_white_space(#[trigger] t[m]),
        trim_start(t).len() > 0 ==> !is_white_space(trim_start(t)[0]),
    decreases t.len(),
{
    if t.len() > 0 && is_white_space(t[0]) {
        lemma_trim_start_empty(t.drop_first());
        assert forall|m: int| 1 <= m < t.len() implies t.drop_first()[m - 1] == t[m] by {}
        if trim_start(t).len() > 0 {
            let w = choose|m: int| 0 <= m < t.drop_first().len() && !is_white_space(#[trigger] t.drop_first()[m]);
            assert(t[w + 1] == t.drop_first()[w]);
        }
    }
}

/// Trailing white space removed keeps a text whose first character is not
/// white space non-empty.
pub proof fn lemma_trim_end_nonempty(u: Seq<char>)
    requires
        u.len() > 0,
        !is_white_space(u[0]),
    ensures
        trim_end(u).len() > 0,
    decreases u.len(),
{
    if is_white_space(u.last()) {
        assert(u.len() >= 2);
        assert(u.drop_last()[0] == u[0]);
        lemma_trim_end_nonempty(u.drop_last());
    }
}

/// Every white-space character of the text is ASCII white space (there is
/// no vertical tab, no-break space or other Unicode space in it).
pub open spec fn only_ascii_spaces(s: Seq<char>) -> bool {
    forall|m: int| 0 <= m < s.len() ==> (is_white_space(#[trigger] s[m]) <==> is_ascii_white_space(s[m]))
}

/// A line splits into a schedule and a command exactly when it has at
/// least six whitespace-separated fields (five schedule fields and a
/// command), provided its only white space is ASCII white space. The law
/// fails for a line such as `1 2 3 4 5 ` followed by a vertical tab:
/// trimming removes the vertical tab, which ASCII splitting counts as a
/// sixth field.
pub proof fn lemma_split_iff_six_fields(line: Seq<char>)
    requires
        only_ascii_spaces(line),
    ensures
        schedule_and_command(line) is Some <==> field_count(line, 0) >= 6,
{
    lemma_fields_end_count(line, 0, 5);
    if let Some(e) = fields_end(line, 0, 5) {
        let rest = line.subrange(e, line.len() as int);
        lemma_field_count_positive(line, e);
        lemma_trim_start_empty(rest);
        if trim_start(rest).len() > 0 {
            lemma_trim_end_nonempty(trim_start(rest));
            let w = choose|m: int| 0 <= m < rest.len() && !is_white_space(#[trigger] rest[m]);
            assert(rest[w] == line[e + w]);
            assert(!is_ascii_white_space(line[e + w]));
        } else {
            assert(trim(rest).len() == 0) by {
                assert(trim_start(rest) =~= Seq::<char>::empty());
                assert(trim_end(Seq::<char>::empty()) =~= Seq::<char>::empty());
            }
            if field_count(line, e) >= 1 {
                let m = choose|m: int| e <= m < line.len() && !is_ascii_white_space(#[trigger] line[m]);
                assert(rest[m - e] == line[m]);
                assert(is_white_space(rest[m - e]));
            }
        }
    }
}

/// Trailing white space removed leaves text that does not end with white
/// space and that starts as the text did.
pub proof fn lemma_trim_end_props(u: Seq<char>)
    ensures
        trim_end(u).len() > 0 ==> !is_white_space(trim_end(u).last()),
        trim_end(u).len() <= u.len(),
        forall|m: int| 0 <= m < trim_end(u).len() ==> trim_end(u)[m] == u[m],
        forall|m: int| trim_end(u).len() <= m < u.len() ==> is_white_space(#[trigger] u[m]),
    decreases u.len(),
{
    if u.len() > 0 && is_white_space(u.last()) {
        lemma_trim_end_props(u.drop_last());
        assert forall|m: int| 0 <= m < trim_end(u).len() implies trim_end(u)[m] == u[m] by {
            assert(u.drop_last()[m] == u[m]);
        }
        assert forall|m: int| trim_end(u).len() <= m < u.len() implies is_white_space(
            #[trigger] u[m],
        ) by {
            if m < u.len() - 1 {
                assert(u.drop_last()[m] == u[m]);
            }
        }
    }
}

/// Trimming is idempotent.
pub proof fn lemma_trim_idempotent(x: Seq<char>)
    ensures
        trim(trim(x)) == trim(x),
{
    let u = trim_start(x);
    let t = trim_end(u);
    lemma_trim_start_empty(x);
    lemma_trim_end_props(u);
    if t.len() > 0 {
        assert(t[0] == u[0]);
        assert(trim_start(t) == t);
        assert(trim_end(t) == t);
    } else {
        assert(t =~= Seq::<char>::empty());
        assert(trim_start(t) =~= t);
    }
}

/// The schedule and the command a line splits into are each trimmed, and
/// the command is not empty.
pub proof fn lemma_split_parts_trimmed(line: Seq<char>)
    ensures
        schedule_and_command(line) matches Some((sched, command)) ==> sched == trim(sched)
            && command == trim(command) && command.len() > 0,
{
    if let Some(e) = fields_end(line, 0, 5) {
        lemma_trim_idempotent(line.subrange(0, e));
        lemma_trim_idempotent(line.subrange(e, line.len() as int));
    }
}

/// ASCII white space fills `s[a..b]`.
pub open spec fn spaces_between(s: Seq<char>, a: int, b: int) -> bool {
    forall|m: int| a <= m < b ==> is_ascii_white_space(#[trigger] s[m])
}

/// Scanning a suffix is scanning the text from further on.
proof fn lemma_skip_shift(s: Seq<char>, i: int, j: int)
    requires
        0 <= i <= s.len(),
        0 <= j,
    ensures
        skip_spaces(s.skip(i), j) + i == skip_spaces(s, j + i),
        skip_field(s.skip(i), j) + i == skip_field(s, j + i),
    decreases s.len() - (j + i),
{
    let t = s.skip(i);
    if j + i < s.len() {
        assert(t[j] == s[j + i]);
        lemma_skip_shift(s, i, j + 1);
    }
}

/// Counting fields of a suffix is counting fields of the text from further
/// on.
proof fn lemma_field_count_shift(s: Seq<char>, i: int, j: int)
    requires
        0 <= i <= s.len(),
        0 <= j,
    ensures
        field_count(s.skip(i), j) == field_count(s, j + i),
    decreases s.len() - (j + i),
{
    let t = s.skip(i);
    lemma_skip_shift(s, i, j);
    lemma_skip_spaces(t, j);
    let sp = skip_spaces(t, j);
    if sp < t.len() {
        lemma_skip_shift(s, i, sp);
        lemma_skip_field(t, sp);
        assert(t[sp] == s[sp + i]);
        lemma_skip_spaces(s, j + i);
        lemma_field_count_shift(s, i, skip_field(t, sp));
    }
}

/// Leading ASCII white space does not change the field count.
proof fn lemma_field_count_leading(s: Seq<char>, p: int)
    requires
        0 <= p <= s.len(),
        spaces_between(s, 0, p),
    ensures
        field_count(s, 0) == field_count(s, p),
    decreases p,
{
    if p > 0 {
        assert(skip_spaces(s, p - 1) == skip_spaces(s, p));
        lemma_skip_spaces_from(s, p - 1, p);
        assert(skip_spaces(s, 0) == skip_spaces(s, p - 1)) by {
            lemma_skip_spaces_from(s, 0, p - 1);
        }
    }
}

/// Over ASCII white space, scanning from the start of it is scanning from
/// its end.
proof fn lemma_skip_spaces_from(s: Seq<char>, a: int, b: int)
    requires
        0 <= a <= b <= s.len(),
        spaces_between(s, a, b),
    ensures
        skip_spaces(s, a) == skip_spaces(s, b),
    decreases b - a,
{
    if a < b {
        lemma_skip_spaces_from(s, a + 1, b);
    }
}

/// Cutting the text at `q` does not change scanning that stops before it.
proof fn lemma_skip_take(s: Seq<char>, q: int, i: int)
    requires
        0 <= i <= q <= s.len(),
    ensures
        skip_spaces(s, i) < q ==> skip_spaces(s.take(q), i) == skip_spaces(s, i),
        skip_spaces(s, i) >= q ==> skip_spaces(s.take(q), i) == q,
        skip_field(s, i) <= q ==> skip_field(s.take(q), i) == skip_field(s, i),
    decreases q - i,
{
    let u = s.take(q);
    if i < q {
        assert(u[i] == s[i]);
        lemma_skip_take(s, q, i + 1);
    }
    lemma_skip_spaces(s, i);
    lemma_skip_field(s, i);
}

/// Trailing ASCII white space does not change the field count.
proof fn lemma_field_count_trailing(s: Seq<char>, q: int, i: int)
    requires
        0 <= i <= q <= s.len(),
        spaces_between(s, q, s.len() as int),
    ensures
        field_count(s.take(q), i) == field_count(s, i),
    decreases q - i,
{
    let u = s.take(q);
    lemma_skip_spaces(s, i);
    lemma_skip_take(s, q, i);
    let j = skip_spaces(s, i);
    if j < q {
        lemma_skip_field(s, j);
        lemma_skip_take(s, q, j);
        let f = skip_field(s, j);
        if f > q {
            assert(!is_ascii_white_space(s[q]));
        }
        lemma_field_count_trailing(s, q, f);
    } else if j < s.len() {
        assert(!is_ascii_white_space(s[j]));
    }
}

/// The end of `k` fields is not before where they were counted from.
pub(crate) proof fn lemma_fields_end_after(s: Seq<char>, i: int, k: nat)
    requires
        0 <= i <= s.len(),
    ensures
        fields_end(s, i, k) matches Some(e) ==> i <= e <= s.len(),
    decreases k,
{
    if k > 0 {
        lemma_skip_spaces(s, i);
        let j = skip_spaces(s, i);
        if j < s.len() {
            lemma_skip_field(s, j);
            lemma_fields_end_after(s, skip_field(s, j), (k - 1) as nat);
        }
    }
}

/// The text up to the end of `k` fields holds exactly those `k` fields.
proof fn lemma_fields_in_prefix(s: Seq<char>, i: int, k: nat, e: int)
    requires
        0 <= i <= s.len(),
        fields_end(s, i, k) == Some(e),
    ensures
        field_count(s.take(e), i) == k,
    decreases k,
{
    lemma_fields_end_after(s, i, k);
    if k == 0 {
        assert(skip_spaces(s.take(e), i) == i);
    } else {
        lemma_skip_spaces(s, i);
        let j = skip_spaces(s, i);
        lemma_skip_field(s, j);
        let f = skip_field(s, j);
        lemma_fields_end_after(s, f, (k - 1) as nat);
        lemma_skip_take(s, e, i);
        lemma_skip_take(s, e, j);
        lemma_fields_in_prefix(s, f, (k - 1) as nat, e);
    }
}

/// Trimming text whose only white space is ASCII white space does not
/// change its field count.
proof fn lemma_field_count_trim(x: Seq<char>)
    requires
        only_ascii_spaces(x),
    ensures
        field_count(trim(x), 0) == field_count(x, 0),
{
    lemma_trim_start_shape(x);
    let u = trim_start(x);
    let p = x.len() - u.len();
    assert(spaces_between(x, 0, p)) by {
        assert forall|m: int| 0 <= m < p implies is_ascii_white_space(#[trigger] x[m]) by {
            assert(is_white_space(x[m]));
        }
    }
    lemma_field_count_leading(x, p);
    lemma_field_count_shift(x, p, 0);
    lemma_trim_end_props(u);
    let q = trim_end(u).len() as int;
    assert(trim_end(u) =~= u.take(q));
    assert(spaces_between(u, q, u.len() as int)) by {
        assert forall|m: int| q <= m < u.len() implies is_ascii_white_space(#[trigger] u[m]) by {
            assert(u[m] == x[m + p]);
            assert(is_white_space(u[m]));
        }
    }
    lemma_field_count_trailing(u, q, 0);
}

/// Leading white space removed is a suffix after white space only.
proof fn lemma_trim_start_shape(x: Seq<char>)
    ensures
        trim_start(x).len() <= x.len(),
        trim_start(x) == x.skip(x.len() - trim_start(x).len()),
        forall|m: int| 0 <= m < x.len() - trim_start(x).len() ==> is_white_space(#[trigger] x[m]),
    decreases x.len(),
{
    if x.len() > 0 && is_white_space(x[0]) {
        lemma_trim_start_shape(x.drop_first());
        let d = x.drop_first();
        assert(d.skip(d.len() - trim_start(d).len()) =~= x.skip(x.len() - trim_start(x).len()));
        assert forall|m: int| 0 <= m < x.len() - trim_start(x).len() implies is_white_space(
            #[trigger] x[m],
        ) by {
            if m > 0 {
                assert(x[m] == d[m - 1]);
            }
        }
    } else {
        assert(x.skip(0) =~= x);
    }
}

/// Splitting keeps the fields: the schedule holds exactly the first five
/// fields and the command the rest, provided the line's only white space
/// is ASCII white space.
pub proof fn lemma_split_fields(line: Seq<char>)
    requires
        only_ascii_spaces(line),
    ensures
        schedule_and_command(line) matches Some((sched, command)) ==> field_count(sched, 0) == 5
            && field_count(command, 0) + 5 == field_count(line, 0),
{
    lemma_fields_end_count(line, 0, 5);
    if let Some(e) = fields_end(line, 0, 5) {
        let head = line.subrange(0, e);
        let rest = line.subrange(e, line.len() as int);
        assert(head =~= line.take(e));
        assert(rest =~= line.skip(e));
        lemma_fields_in_prefix(line, 0, 5, e);
        assert(only_ascii_spaces(head)) by {
            assert forall|m: int| 0 <= m < head.len() implies (is_white_space(#[trigger] head[m])
                <==> is_ascii_white_space(head[m])) by {
                assert(head[m] == line[m]);
            }
        }
        assert(only_ascii_spaces(rest)) by {
            assert forall|m: int| 0 <= m < rest.len() implies (is_white_space(#[trigger] rest[m])
                <==> is_ascii_white_space(rest[m])) by {
                assert(rest[m] == line[m + e]);
            }
        }
        lemma_field_count_trim(head);
        lemma_field_count_trim(rest);
        lemma_field_count_shift(line, e, 0);
    }
}

/// `w` is all white space.
pub open spec fn all_white(w: Seq<char>) -> bool {
    forall|m: int| 0 <= m < w.len() ==> is_white_space(#[trigger] w[m])
}

/// Leading white space of text with something else in it stays in front.
proof fn lemma_trim_start_concat(a: Seq<char>, b: Seq<char>)
    requires
        exists|m: int| 0 <= m < a.len() && !is_white_space(#[trigger] a[m]),
    ensures
        trim_start(a + b) == trim_start(a) + b,
    decreases a.len(),
{
    if is_white_space(a[0]) {
        let m = choose|m: int| 0 <= m < a.len() && !is_white_space(#[trigger] a[m]);
        assert(a.drop_first()[m - 1] == a[m]);
        assert((a + b).drop_first() =~= a.drop_first() + b);
        lemma_trim_start_concat(a.drop_first(), b);
    } else {
        assert((a + b)[0] == a[0]);
    }
}

/// Trailing white space of text with something else in it stays behind.
proof fn lemma_trim_end_concat(a: Seq<char>, b: Seq<char>)
    requires
        exists|m: int| 0 <= m < b.len() && !is_white_space(#[trigger] b[m]),
    ensures
        trim_end(a + b) == a + trim_end(b),
    decreases b.len(),
{
    if is_white_space(b.last()) {
        let m = choose|m: int| 0 <= m < b.len() && !is_white_space(#[trigger] b[m]);
        assert(b.drop_last()[m] == b[m]);
        assert((a + b).drop_last() =~= a + b.drop_last());
        assert((a + b).last() == b.last());
        lemma_trim_end_concat(a, b.drop_last());
    } else {
        assert((a + b).last() == b.last());
    }
}

/// The end of some fields is the end of the text or white space.
proof fn lemma_fields_end_at_space(s: Seq<char>, i: int, k: nat)
    requires
        0 <= i <= s.len(),
        k > 0,
    ensures
        fields_end(s, i, k) matches Some(e) ==> e == s.len() || is_ascii_white_space(s[e]),
    decreases k,
{
    lemma_skip_spaces(s, i);
    let j = skip_spaces(s, i);
    if j < s.len() {
        lemma_skip_field(s, j);
        if k > 1 {
            lemma_fields_end_at_space(s, skip_field(s, j), (k - 1) as nat);
        }
    }
}

/// The trimmed line is the schedule, some white space, and the command,
/// provided the line's only white space is ASCII white space.
pub proof fn lemma_split_rejoins(line: Seq<char>)
    requires
        only_ascii_spaces(line),
    ensures
        schedule_and_command(line) matches Some((sched, command)) ==> exists|w: Seq<char>|
            w.len() > 0 && all_white(w) && trim(line) == sched + w + command,
{
    lemma_fields_end_count(line, 0, 5);
    lemma_split_fields(line);
    lemma_fields_end_at_space(line, 0, 5);
    if let Some(e) = fields_end(line, 0, 5) {
        let head = line.subrange(0, e);
        let rest = line.subrange(e, line.len() as int);
        let command = trim(rest);
        if command.len() > 0 {
            let sched = trim(head);
            assert(line =~= head + rest);
            // Something that is not white space in each part.
            lemma_fields_in_prefix(line, 0, 5, e);
            assert(head =~= line.take(e));
            lemma_field_count_positive(head, 0);
            let h = choose|m: int| 0 <= m < head.len() && !is_ascii_white_space(#[trigger] head[m]);
            assert(head[h] == line[h]);
            assert(!is_white_space(head[h]));
            lemma_trim_start_empty(rest);
            let r = choose|m: int| 0 <= m < rest.len() && !is_white_space(#[trigger] rest[m]);
            // trim(line) = trim_start(head) + trim_end(rest)
            lemma_trim_start_concat(head, rest);
            lemma_trim_end_concat(trim_start(head), rest);
            // trim_start(head) = sched + tail
            let u = trim_start(head);
            lemma_trim_end_props(u);
            let q = sched.len() as int;
            let tail = u.skip(q);
            assert(u =~= sched + tail);
            // rest = lead + trim_start(rest), with lead not empty
            lemma_trim_start_shape(rest);
            let v = trim_start(rest);
            let p = rest.len() - v.len();
            let lead = rest.take(p);
            assert(rest =~= lead + v);
            assert(rest[0] == line[e]);
            assert(is_white_space(rest[0]));
            assert(p >= 1) by {
                if p == 0 {
                    assert(v[0] == rest[0]);
                    lemma_trim_start_empty(rest);
                }
            }
            assert(v[r - p] == rest[r]) by {
                if r < p {
                    assert(is_white_space(rest[r]));
                }
            }
            lemma_trim_end_concat(lead, v);
            let w = tail + lead;
            assert(all_white(w)) by {
                assert forall|m: int| 0 <= m < w.len() implies is_white_space(#[trigger] w[m]) by {
                    if m < tail.len() {
                        assert(w[m] == u[m + q]);
                    } else {
                        assert(w[m] == rest[m - tail.len()]);
                    }
                }
            }
            assert(trim(line) =~= sched + w + command);
        }
    }
}

/// Each line contributes at most one job: a crontab has no more managed
/// jobs than lines.
pub proof fn lemma_at_most_one_job_per_line(ls: Seq<Seq<char>>)
    ensures
        managed_jobs_of(ls).len() <= ls.len(),
    decreases ls.len(),
{
    if ls.len() > 0 {
        lemma_at_most_one_job_per_line(ls.drop_last());
    }
}

} // verus!
