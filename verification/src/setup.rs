//! Installing and removing the catch-up line in the user's crontab text.
use vstd::prelude::*;
use crate::text::{
    append_chars, chars_of, contains, ends_with_char, find_chars, is_first_occurrence, lemma_lines_concat,
    lemma_line_end_props, lemma_lines_chars, lemma_lines_have_no_newline, lemma_lines_push_newline,
    lemma_lines_single, line_end, trim_end, trim_start,
    lemma_trim_drop_last_space, lines, occurs_at, split_lines, string_of, strip_cr, trim, trim_chars,
    views_of,
};

verus! {

/// The text `cronx`.
pub open spec fn cronx_word() -> Seq<char> {
    seq!['c', 'r', 'o', 'n', 'x']
}

/// The text `--catch-up`.
pub open spec fn catch_up_flag() -> Seq<char> {
    seq!['-', '-', 'c', 'a', 't', 'c', 'h', '-', 'u', 'p']
}

/// A crontab line runs the catch-up runner: once trimmed it is not empty,
/// is not a comment, and mentions both `cronx` and `--catch-up`.
pub open spec fn catch_up_line(raw: Seq<char>) -> bool {
    let t = trim(raw);
    &&& t.len() > 0
    &&& t[0] != '#'
    &&& contains(t, cronx_word())
    &&& contains(t, catch_up_flag())
}

/// Some line of the crontab runs the catch-up runner.
pub open spec fn has_catch_up(crontab: Seq<char>) -> bool {
    exists|i: int| 0 <= i < lines(crontab).len() && catch_up_line(#[trigger] lines(crontab)[i])
}

/// The lines that are not catch-up lines, in order.
pub open spec fn kept_lines(ls: Seq<Seq<char>>) -> Seq<Seq<char>>
    decreases ls.len(),
{
    if ls.len() == 0 {
        seq![]
    } else if catch_up_line(ls.last()) {
        kept_lines(ls.drop_last())
    } else {
        kept_lines(ls.drop_last()).push(ls.last())
    }
}

/// Lines joined with a line feed between each two.
pub open spec fn join_lines(ls: Seq<Seq<char>>) -> Seq<char>
    decreases ls.len(),
{
    if ls.len() == 0 {
        seq![]
    } else if ls.len() == 1 {
        ls[0]
    } else {
        join_lines(ls.drop_last()) + seq!['\n'] + ls.last()
    }
}

/// `s` followed by a line feed, unless `s` is empty.
pub open spec fn with_final_newline(s: Seq<char>) -> Seq<char> {
    if s.len() > 0 {
        s.push('\n')
    } else {
        s
    }
}

/// The crontab without its catch-up lines (the others joined by line
/// feeds, with a final line feed unless nothing is left), and how many
/// lines were removed.
pub open spec fn removed_catch_up(crontab: Seq<char>) -> (Seq<char>, nat) {
    let ls = lines(crontab);
    let kept = kept_lines(ls);
    (with_final_newline(join_lines(kept)), (ls.len() - kept.len()) as nat)
}

/// `crontab` with a line feed added if it is not empty and does not end
/// with one.
pub open spec fn terminated(crontab: Seq<char>) -> Seq<char> {
    if crontab.len() > 0 && crontab.last() != '\n' {
        crontab.push('\n')
    } else {
        crontab
    }
}

/// `line` appended to the crontab as a line of its own.
pub open spec fn appended(crontab: Seq<char>, line: Seq<char>) -> Seq<char> {
    terminated(crontab) + line + seq!['\n']
}

/// The crontab line that runs the catch-up runner every minute.
pub open spec fn catch_up_entry(exe: Seq<char>) -> Seq<char> {
    seq!['*', ' ', '*', ' ', '*', ' ', '*', ' ', '*', ' '] + exe + seq![' '] + catch_up_flag()
}

/// What setup installs: nothing when a catch-up line is already there,
/// else the crontab with `line` appended.
pub open spec fn setup_result(crontab: Seq<char>, line: Seq<char>) -> Option<Seq<char>> {
    if has_catch_up(crontab) {
        None
    } else {
        Some(appended(crontab, line))
    }
}

fn cronx_chars() -> (r: Vec<char>)
    ensures
        r@ == cronx_word(),
{
    let r = vec!['c', 'r', 'o', 'n', 'x'];
    assert(r@ =~= cronx_word());
    r
}

fn catch_up_flag_chars() -> (r: Vec<char>)
    ensures
        r@ == catch_up_flag(),
{
    let r = vec!['-', '-', 'c', 'a', 't', 'c', 'h', '-', 'u', 'p'];
    assert(r@ =~= catch_up_flag());
    r
}

fn is_catch_up_chars(raw: &[char]) -> (r: bool)
    ensures
        r == catch_up_line(raw@),
{
    let t = trim_chars(raw);
    if t.len() == 0 || t[0] == '#' {
        return false;
    }
    let cronx = cronx_chars();
    let flag = catch_up_flag_chars();
    let a = find_chars(t.as_slice(), cronx.as_slice());
    let b = find_chars(t.as_slice(), flag.as_slice());
    proof {
        if let Some(i) = a {
            assert(occurs_at(t@, cronx_word(), i as int));
        }
        if let Some(i) = b {
            assert(occurs_at(t@, catch_up_flag(), i as int));
        }
    }
    a.is_some() && b.is_some()
}

/// Whether a crontab line runs the catch-up runner.
pub fn is_catch_up_line(raw: &str) -> (r: bool)
    ensures
        r == catch_up_line(raw@),
{
    let v = chars_of(raw);
    is_catch_up_chars(v.as_slice())
}

/// Whether some line of the crontab runs the catch-up runner.
pub fn has_catch_up_line(crontab: &str) -> (r: bool)
    ensures
        r == has_catch_up(crontab@),
{
    let v = chars_of(crontab);
    let ls = split_lines(v.as_slice());
    let n = ls.len();
    let mut i: usize = 0;
    while i < n
        invariant
            n == ls@.len(),
            views_of(ls@) == lines(crontab@),
            forall|k: int| 0 <= k < i ==> !catch_up_line(#[trigger] lines(crontab@)[k]),
        decreases n - i,
    {
        assert(views_of(ls@)[i as int] == ls@[i as int]@);
        if is_catch_up_chars(ls[i].as_slice()) {
            return true;
        }
        i = i + 1;
    }
    false
}

/// Lines joined with a line feed between each two.
pub fn join_line_chars(ls: &Vec<Vec<char>>) -> (r: Vec<char>)
    ensures
        r@ == join_lines(views_of(ls@)),
{
    let mut out: Vec<char> = Vec::new();
    let n = ls.len();
    let mut i: usize = 0;
    assert(views_of(ls@).take(0) =~= Seq::<Seq<char>>::empty());
    while i < n
        invariant
            n == ls@.len(),
            i <= n,
            out@ == join_lines(views_of(ls@).take(i as int)),
        decreases n - i,
    {
        let ghost prev = views_of(ls@).take(i as int);
        let ghost next = views_of(ls@).take(i + 1);
        assert(next.drop_last() =~= prev);
        if i > 0 {
            out.push('\n');
        }
        let line = &ls[i];
        append_chars(&mut out, line.as_slice());
        assert(next.last() == line@);
        if i == 0 {
            assert(next =~= seq![line@]);
            assert(out@ =~= join_lines(next));
        } else {
            assert(out@ =~= join_lines(next));
        }
        i = i + 1;
    }
    assert(views_of(ls@).take(n as int) =~= views_of(ls@));
    out
}

/// The crontab with every catch-up line removed, and how many were removed.
/// The other lines are kept in order, joined by line feeds, with a final
/// line feed unless nothing is left.
pub fn remove_catch_up_lines(crontab: &str) -> (r: (String, usize))
    ensures
        r.0@ == removed_catch_up(crontab@).0,
        r.1 == removed_catch_up(crontab@).1,
{
    let v = chars_of(crontab);
    let ls = split_lines(v.as_slice());
    let ghost all = lines(crontab@);
    let n = ls.len();
    let mut kept: Vec<Vec<char>> = Vec::new();
    let mut removed: usize = 0;
    let mut i: usize = 0;
    assert(all.take(0) =~= Seq::<Seq<char>>::empty());
    while i < n
        invariant
            n == ls@.len() == all.len(),
            views_of(ls@) == all,
            i <= n,
            views_of(kept@) == kept_lines(all.take(i as int)),
            removed + kept@.len() == i,
        decreases n - i,
    {
        let ghost prev = all.take(i as int);
        assert(all.take(i + 1).drop_last() =~= prev);
        assert(all.take(i + 1).last() == ls@[i as int]@);
        let line = ls[i].clone();
        if is_catch_up_chars(line.as_slice()) {
            removed = removed + 1;
        } else {
            let ghost before = kept@;
            kept.push(line);
            assert(views_of(kept@) =~= views_of(before).push(line@));
        }
        i = i + 1;
    }
    assert(all.take(n as int) =~= all);
    let mut out = join_line_chars(&kept);
    if out.len() > 0 {
        out.push('\n');
    }
    (string_of(out.as_slice()), removed)
}

/// The crontab with `line` appended as a line of its own: a line feed is
/// added first if the crontab is not empty and does not end with one.
pub fn append_line(crontab: &str, line: &str) -> (r: String)
    ensures
        r@ == appended(crontab@, line@),
{
    let mut out = chars_of(crontab);
    if out.len() > 0 && out[out.len() - 1] != '\n' {
        out.push('\n');
    }
    assert(out@ == terminated(crontab@));
    let l = chars_of(line);
    append_chars(&mut out, l.as_slice());
    out.push('\n');
    assert(out@ =~= appended(crontab@, line@));
    string_of(out.as_slice())
}

/// The crontab line that runs `exe --catch-up` every minute.
pub fn catch_up_cron_line(exe: &str) -> (r: String)
    ensures
        r@ == catch_up_entry(exe@),
{
    let mut out: Vec<char> = vec!['*', ' ', '*', ' ', '*', ' ', '*', ' ', '*', ' '];
    let e = chars_of(exe);
    append_chars(&mut out, e.as_slice());
    out.push(' ');
    let flag = catch_up_flag_chars();
    append_chars(&mut out, flag.as_slice());
    assert(out@ =~= catch_up_entry(exe@));
    string_of(out.as_slice())
}

/// What setup should install: `None` when the crontab already has a
/// catch-up line, else the crontab with `line` appended.
pub fn setup_crontab(crontab: &str, line: &str) -> (r: Option<String>)
    ensures
        match setup_result(crontab@, line@) {
            Some(t) => r matches Some(s) && s@ == t,
            None => r is None,
        },
{
    if has_catch_up_line(crontab) {
        None
    } else {
        Some(append_line(crontab, line))
    }
}

/// What takedown installs: `None` when the crontab has no catch-up line
/// (nothing to do), else the crontab without its catch-up lines and how
/// many were removed.
pub open spec fn takedown_result(crontab: Seq<char>) -> Option<(Seq<char>, nat)> {
    if removed_catch_up(crontab).1 == 0 {
        None
    } else {
        Some(removed_catch_up(crontab))
    }
}

/// What takedown should install: `None` when no catch-up line is there,
/// else the crontab without its catch-up lines and how many were removed.
pub fn takedown_crontab(crontab: &str) -> (r: Option<(String, usize)>)
    ensures
        match takedown_result(crontab@) {
            Some((t, n)) => r matches Some((s, m)) && s@ == t && m == n,
            None => r is None,
        },
{
    let (out, removed) = remove_catch_up_lines(crontab);
    if removed == 0 {
        None
    } else {
        Some((out, removed))
    }
}

/// The word for how many lines takedown removed: `line` for one, `lines`
/// otherwise.
pub fn removed_suffix(removed: usize) -> (r: &'static str)
    ensures
        r@ == (if removed == 1 {
            "line"@
        } else {
            "lines"@
        }),
{
    if removed == 1 {
        "line"
    } else {
        "lines"
    }
}

/// `s` holds no line feed.
pub open spec fn single_line(s: Seq<char>) -> bool {
    forall|m: int| 0 <= m < s.len() ==> s[m] != '\n'
}

/// A trailing carriage return does not change whether a line is a
/// catch-up line.
pub proof fn lemma_catch_up_strip_cr(s: Seq<char>)
    ensures
        catch_up_line(strip_cr(s)) == catch_up_line(s),
{
    if ends_with_char(s, '\r') {
        lemma_trim_drop_last_space(s);
    }
}

/// The lines of a crontab with a line appended end with that line.
pub proof fn lemma_lines_appended(crontab: Seq<char>, line: Seq<char>)
    requires
        single_line(line),
    ensures
        lines(appended(crontab, line)) == lines(terminated(crontab)).push(strip_cr(line)),
{
    let t = terminated(crontab);
    if t.len() > 0 {
        assert(t.last() == '\n');
    }
    assert(appended(crontab, line) =~= t + line.push('\n'));
    lemma_lines_concat(t, line.push('\n'));
    lemma_lines_single(line);
    assert(lines(t) + seq![strip_cr(line)] =~= lines(t).push(strip_cr(line)));
}

/// Adding the line feed that appending needs does not change the lines,
/// unless the crontab ends with a bare carriage return.
pub proof fn lemma_lines_terminated(crontab: Seq<char>)
    requires
        !ends_with_char(crontab, '\r'),
    ensures
        lines(terminated(crontab)) == lines(crontab),
{
    if crontab.len() > 0 && crontab.last() != '\n' {
        lemma_lines_push_newline(crontab);
    }
}

/// Lines that are all kept stay as they are.
pub proof fn lemma_kept_all(ls: Seq<Seq<char>>)
    requires
        forall|i: int| 0 <= i < ls.len() ==> !catch_up_line(#[trigger] ls[i]),
    ensures
        kept_lines(ls) == ls,
    decreases ls.len(),
{
    if ls.len() > 0 {
        assert(!catch_up_line(ls[ls.len() - 1]));
        lemma_kept_all(ls.drop_last());
        assert(ls.drop_last().push(ls.last()) =~= ls);
    }
}

/// The kept lines are lines of the input and none is a catch-up line.
pub proof fn lemma_kept_props(ls: Seq<Seq<char>>)
    ensures
        forall|i: int|
            0 <= i < kept_lines(ls).len() ==> !catch_up_line(#[trigger] kept_lines(ls)[i]),
        forall|i: int|
            0 <= i < kept_lines(ls).len() ==> exists|j: int|
                0 <= j < ls.len() && ls[j] == #[trigger] kept_lines(ls)[i],
    decreases ls.len(),
{
    if ls.len() > 0 {
        let d = ls.drop_last();
        lemma_kept_props(d);
        assert forall|i: int| 0 <= i < kept_lines(ls).len() implies exists|j: int|
            0 <= j < ls.len() && ls[j] == #[trigger] kept_lines(ls)[i] by {
            if i < kept_lines(d).len() {
                let j = choose|j: int| 0 <= j < d.len() && d[j] == kept_lines(d)[i];
                assert(ls[j] == d[j]);
            } else {
                assert(ls[ls.len() - 1] == kept_lines(ls)[i]);
            }
        }
    }
}

/// Lines joined by line feeds, with a final line feed, split back into
/// the same lines (each without a trailing carriage return).
pub proof fn lemma_lines_join(ks: Seq<Seq<char>>)
    requires
        ks.len() >= 1,
        forall|i: int| 0 <= i < ks.len() ==> single_line(#[trigger] ks[i]),
    ensures
        lines(join_lines(ks).push('\n')) == ks.map_values(|k: Seq<char>| strip_cr(k)),
    decreases ks.len(),
{
    if ks.len() == 1 {
        assert(single_line(ks[0]));
        lemma_lines_single(ks[0]);
        assert(ks.map_values(|k: Seq<char>| strip_cr(k)) =~= seq![strip_cr(ks[0])]);
    } else {
        let d = ks.drop_last();
        let last = ks.last();
        assert(single_line(ks[ks.len() - 1]));
        assert forall|i: int| 0 <= i < d.len() implies single_line(#[trigger] d[i]) by {
            assert(d[i] == ks[i]);
        }
        lemma_lines_join(d);
        let head = join_lines(d).push('\n');
        assert(join_lines(ks).push('\n') =~= head + last.push('\n'));
        lemma_lines_concat(head, last.push('\n'));
        lemma_lines_single(last);
        assert(ks.map_values(|k: Seq<char>| strip_cr(k)) =~= d.map_values(
            |k: Seq<char>| strip_cr(k),
        ).push(strip_cr(last)));
    }
}

/// Setup installs a catch-up line: after appending a catch-up line (one
/// with no line feed in it), the crontab has a catch-up line.
pub proof fn lemma_setup_installs_catch_up(crontab: Seq<char>, line: Seq<char>)
    requires
        single_line(line),
        catch_up_line(line),
    ensures
        has_catch_up(appended(crontab, line)),
{
    lemma_lines_appended(crontab, line);
    lemma_catch_up_strip_cr(line);
    let ls = lines(appended(crontab, line));
    assert(catch_up_line(ls[ls.len() - 1]));
}

/// Setup is idempotent: once it has installed a catch-up line, running it
/// again on the result installs nothing.
pub proof fn lemma_setup_idempotent(crontab: Seq<char>, line: Seq<char>)
    requires
        single_line(line),
        catch_up_line(line),
    ensures
        setup_result(crontab, line) matches Some(t) ==> setup_result(t, line) is None,
{
    lemma_setup_installs_catch_up(crontab, line);
}

/// Takedown undoes setup: on a crontab without a catch-up line (and not
/// ending in a bare carriage return), removing the catch-up lines after
/// setup appended one removes exactly that line and gives what removal
/// gives on the crontab before setup.
pub proof fn lemma_takedown_undoes_setup(crontab: Seq<char>, line: Seq<char>)
    requires
        !has_catch_up(crontab),
        !ends_with_char(crontab, '\r'),
        single_line(line),
        catch_up_line(line),
    ensures
        removed_catch_up(appended(crontab, line)) == (removed_catch_up(crontab).0, 1nat),
{
    let ls = lines(crontab);
    lemma_lines_appended(crontab, line);
    lemma_lines_terminated(crontab);
    lemma_catch_up_strip_cr(line);
    let all = lines(appended(crontab, line));
    assert(all == ls.push(strip_cr(line)));
    assert(all.drop_last() =~= ls);
    assert(catch_up_line(all.last()));
    assert(kept_lines(all) == kept_lines(ls));
    assert forall|i: int| 0 <= i < ls.len() implies !catch_up_line(#[trigger] ls[i]) by {
        if catch_up_line(ls[i]) {
            assert(has_catch_up(crontab));
        }
    }
    lemma_kept_all(ls);
}

/// After takedown no catch-up line is left.
pub proof fn lemma_takedown_leaves_none(crontab: Seq<char>)
    ensures
        !has_catch_up(removed_catch_up(crontab).0),
{
    let ls = lines(crontab);
    let kept = kept_lines(ls);
    let out = removed_catch_up(crontab).0;
    lemma_kept_props(ls);
    lemma_lines_have_no_newline(crontab);
    if join_lines(kept).len() > 0 {
        assert(kept.len() >= 1) by {
            if kept.len() == 0 {
                assert(join_lines(kept) =~= Seq::<char>::empty());
            }
        }
        assert forall|i: int| 0 <= i < kept.len() implies single_line(#[trigger] kept[i]) by {
            let j = choose|j: int| 0 <= j < ls.len() && ls[j] == kept[i];
            assert forall|m: int| 0 <= m < kept[i].len() implies kept[i][m] != '\n' by {
                assert(ls[j][m] != '\n');
            }
        }
        lemma_lines_join(kept);
        assert forall|i: int| 0 <= i < lines(out).len() implies !catch_up_line(
            #[trigger] lines(out)[i],
        ) by {
            assert(lines(out)[i] == strip_cr(kept[i]));
            lemma_catch_up_strip_cr(kept[i]);
        }
    } else {
        assert(out =~= Seq::<char>::empty());
        assert(lines(out) =~= Seq::<Seq<char>>::empty());
    }
}

/// `s` holds no carriage return.
pub open spec fn no_cr(s: Seq<char>) -> bool {
    forall|m: int| 0 <= m < s.len() ==> s[m] != '\r'
}

/// Joining a line in front of at least one more puts a line feed between.
pub proof fn lemma_join_cons(x: Seq<char>, ls: Seq<Seq<char>>)
    requires
        ls.len() >= 1,
    ensures
        join_lines(seq![x] + ls) == x + seq!['\n'] + join_lines(ls),
    decreases ls.len(),
{
    let all = seq![x] + ls;
    if ls.len() == 1 {
        assert(all.drop_last() =~= seq![x]);
        assert(all.last() == ls[0]);
        assert(join_lines(seq![x]) == x);
        assert(join_lines(ls) == ls[0]);
        assert(join_lines(all) =~= x + seq!['\n'] + join_lines(ls));
    } else {
        lemma_join_cons(x, ls.drop_last());
        assert(all.drop_last() =~= seq![x] + ls.drop_last());
        assert(all.last() == ls.last());
        assert(join_lines(all) =~= x + seq!['\n'] + join_lines(ls));
    }
}

/// Text that ends with a line feed and holds no carriage return is its
/// lines joined by line feeds, with a final line feed.
pub proof fn lemma_join_lines_back(s: Seq<char>)
    requires
        s.len() > 0,
        s.last() == '\n',
        no_cr(s),
    ensures
        join_lines(lines(s)).push('\n') == s,
    decreases s.len(),
{
    lemma_line_end_props(s);
    let e = line_end(s) as int;
    if e >= s.len() {
        assert(s[s.len() - 1] != '\n');
    }
    let x = s.take(e);
    if x.len() > 0 {
        assert(x.last() == s[e - 1]);
    }
    assert(strip_cr(x) == x);
    let rest = s.skip(e + 1);
    assert(lines(s) == seq![x] + lines(rest));
    if rest.len() == 0 {
        assert(lines(rest) =~= Seq::<Seq<char>>::empty());
        assert(lines(s) =~= seq![x]);
        assert(x.push('\n') =~= s);
    } else {
        assert(rest.last() == s.last());
        assert forall|m: int| 0 <= m < rest.len() implies rest[m] != '\r' by {
            assert(rest[m] == s[m + e + 1]);
        }
        lemma_join_lines_back(rest);
        assert(lines(rest).len() >= 1);
        lemma_join_cons(x, lines(rest));
        assert(join_lines(lines(s)).push('\n') =~= x + seq!['\n'] + rest);
        assert(x + seq!['\n'] + rest =~= s);
    }
}

/// The lines of text without a carriage return hold none.
pub proof fn lemma_lines_no_cr(s: Seq<char>)
    requires
        no_cr(s),
    ensures
        forall|i: int| 0 <= i < lines(s).len() ==> no_cr(#[trigger] lines(s)[i]),
{
    lemma_lines_chars(s);
    assert forall|i: int| 0 <= i < lines(s).len() implies no_cr(#[trigger] lines(s)[i]) by {
        assert forall|m: int| 0 <= m < lines(s)[i].len() implies lines(s)[i][m] != '\r' by {
            let k = choose|k: int| 0 <= k < s.len() && s[k] == #[trigger] lines(s)[i][m];
        }
    }
}

/// Takedown is idempotent on a crontab without carriage returns: removing
/// the catch-up lines from its result removes nothing and gives the same
/// text back.
pub proof fn lemma_takedown_idempotent(crontab: Seq<char>)
    requires
        no_cr(crontab),
    ensures
        removed_catch_up(removed_catch_up(crontab).0) == (removed_catch_up(crontab).0, 0nat),
{
    let ls = lines(crontab);
    let kept = kept_lines(ls);
    let out = removed_catch_up(crontab).0;
    lemma_kept_props(ls);
    lemma_lines_have_no_newline(crontab);
    lemma_lines_no_cr(crontab);
    if join_lines(kept).len() > 0 {
        assert(kept.len() >= 1) by {
            if kept.len() == 0 {
                assert(join_lines(kept) =~= Seq::<char>::empty());
            }
        }
        assert forall|i: int| 0 <= i < kept.len() implies single_line(#[trigger] kept[i]) && no_cr(
            kept[i],
        ) by {
            let j = choose|j: int| 0 <= j < ls.len() && ls[j] == kept[i];
            assert(no_cr(ls[j]));
            assert forall|m: int| 0 <= m < kept[i].len() implies kept[i][m] != '\n' by {
                assert(ls[j][m] != '\n');
            }
        }
        lemma_lines_join(kept);
        assert forall|i: int| 0 <= i < kept.len() implies strip_cr(kept[i]) == kept[i] by {
            assert(no_cr(kept[i]));
            if kept[i].len() > 0 {
                assert(kept[i].last() == kept[i][kept[i].len() - 1]);
            }
        }
        assert(lines(out) =~= kept);
        lemma_kept_all(kept);
    } else {
        assert(out =~= Seq::<char>::empty());
        assert(lines(out) =~= Seq::<Seq<char>>::empty());
        assert(kept_lines(lines(out)) =~= Seq::<Seq<char>>::empty());
        assert(join_lines(Seq::<Seq<char>>::empty()) =~= Seq::<char>::empty());
    }
}

/// Takedown leaves a tidy crontab without catch-up lines unchanged: one
/// that is empty, or ends with a line feed (and is not just one), and has
/// no carriage return.
pub proof fn lemma_takedown_keeps_clean_crontab(crontab: Seq<char>)
    requires
        !has_catch_up(crontab),
        no_cr(crontab),
        crontab.len() == 0 || (crontab.last() == '\n' && crontab != seq!['\n']),
    ensures
        removed_catch_up(crontab) == (crontab, 0nat),
{
    let ls = lines(crontab);
    assert forall|i: int| 0 <= i < ls.len() implies !catch_up_line(#[trigger] ls[i]) by {
        if catch_up_line(ls[i]) {
            assert(has_catch_up(crontab));
        }
    }
    lemma_kept_all(ls);
    if crontab.len() == 0 {
        assert(ls =~= Seq::<Seq<char>>::empty());
        assert(join_lines(ls) =~= Seq::<char>::empty());
    } else {
        lemma_join_lines_back(crontab);
        if join_lines(ls).len() == 0 {
            assert(crontab =~= seq!['\n']);
        }
    }
}

/// Takedown undoes setup exactly on a tidy crontab: after setup appended a
/// catch-up line, takedown gives back the crontab as it was before setup,
/// removing one line.
pub proof fn lemma_takedown_restores(crontab: Seq<char>, line: Seq<char>)
    requires
        !has_catch_up(crontab),
        no_cr(crontab),
        crontab.len() == 0 || (crontab.last() == '\n' && crontab != seq!['\n']),
        single_line(line),
        catch_up_line(line),
    ensures
        removed_catch_up(appended(crontab, line)) == (crontab, 1nat),
{
    if crontab.len() > 0 {
        assert(crontab.last() == crontab[crontab.len() - 1]);
    }
    lemma_takedown_undoes_setup(crontab, line);
    lemma_takedown_keeps_clean_crontab(crontab);
}

/// The line setup installs for a binary whose path mentions `cronx` and
/// holds no line feed is a single catch-up line.
pub proof fn lemma_catch_up_entry_is_catch_up_line(exe: Seq<char>)
    requires
        single_line(exe),
        contains(exe, cronx_word()),
    ensures
        single_line(catch_up_entry(exe)),
        catch_up_line(catch_up_entry(exe)),
{
    let head = seq!['*', ' ', '*', ' ', '*', ' ', '*', ' ', '*', ' '];
    let t = catch_up_entry(exe);
    let tail = seq![' '] + catch_up_flag();
    assert(t =~= head + exe + tail);
    assert forall|m: int| 0 <= m < t.len() implies t[m] != '\n' by {
        if m < 10 {
            assert(t[m] == head[m]);
        } else if m < 10 + exe.len() {
            assert(t[m] == exe[m - 10]);
        } else {
            assert(t[m] == tail[m - 10 - exe.len()]);
        }
    }
    assert(t[0] == '*');
    assert(trim_start(t) == t);
    assert(t.last() == 'p');
    assert(trim_end(t) == t);
    assert(trim(t) == t);
    let i = choose|i: int| occurs_at(exe, cronx_word(), i);
    assert(t.subrange(10 + i, 10 + i + 5) =~= exe.subrange(i, i + 5));
    assert(occurs_at(t, cronx_word(), 10 + i));
    let f = t.len() - 10;
    assert(t.subrange(f, f + 10) =~= catch_up_flag());
    assert(occurs_at(t, catch_up_flag(), f));
}

/// Re-running setup is a no-op: for a binary whose path mentions `cronx`
/// and holds no line feed, once setup has installed its line, running it
/// again installs nothing.
pub proof fn lemma_setup_idempotent_for_binary(crontab: Seq<char>, exe: Seq<char>)
    requires
        single_line(exe),
        contains(exe, cronx_word()),
    ensures
        setup_result(crontab, catch_up_entry(exe)) matches Some(t) ==> setup_result(
            t,
            catch_up_entry(exe),
        ) is None,
{
    lemma_catch_up_entry_is_catch_up_line(exe);
    lemma_setup_idempotent(crontab, catch_up_entry(exe));
}

} // verus!
