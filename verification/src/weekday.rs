//! Crontab day-of-week numbering, rewritten for the `cron` crate.
//!
//! In a crontab the day-of-week field counts 0 (or 7) for Sunday, 1 for
//! Monday, up to 6 for Saturday; the `cron` crate counts 1 for Sunday up to
//! 7 for Saturday. The field is therefore handed to the crate as the
//! explicit list of the days it names, in the crate's numbering.
use vstd::prelude::*;
use crate::crontab::{
    fields_end, fields_end_index, lemma_fields_end_after, lemma_skip_field, lemma_skip_spaces, skip_field,
    skip_field_from, skip_spaces, skip_spaces_from,
};
use crate::text::{
    append_chars, contains, find_char, first_occurrence, is_first_occurrence,
    lemma_first_occurrence_is, sub_chars,
};

verus! {

/// `c` is a decimal digit.
pub open spec fn is_digit(c: char) -> bool {
    '0' <= c && c <= '9'
}

/// The value of a decimal digit.
pub open spec fn digit_value(c: char) -> int {
    c as int - '0' as int
}

/// The value of one or two decimal digits.
pub open spec fn small_number(s: Seq<char>) -> Option<int> {
    if s.len() == 1 && is_digit(s[0]) {
        Some(digit_value(s[0]))
    } else if s.len() == 2 && is_digit(s[0]) && is_digit(s[1]) {
        Some(digit_value(s[0]) * 10 + digit_value(s[1]))
    } else {
        None
    }
}

/// `c` is the lower-case letter `lo` or its upper-case form.
pub open spec fn letter_is(c: char, lo: char) -> bool {
    c == lo || c as int == lo as int - 32
}

/// `s` is the three-letter name `a b c`, in any case.
pub open spec fn name_is(s: Seq<char>, a: char, b: char, c: char) -> bool {
    s.len() == 3 && letter_is(s[0], a) && letter_is(s[1], b) && letter_is(s[2], c)
}

/// The crontab number of a three-letter day name (`sun` is 0).
pub open spec fn day_name(s: Seq<char>) -> Option<int> {
    if name_is(s, 's', 'u', 'n') {
        Some(0)
    } else if name_is(s, 'm', 'o', 'n') {
        Some(1)
    } else if name_is(s, 't', 'u', 'e') {
        Some(2)
    } else if name_is(s, 'w', 'e', 'd') {
        Some(3)
    } else if name_is(s, 't', 'h', 'u') {
        Some(4)
    } else if name_is(s, 'f', 'r', 'i') {
        Some(5)
    } else if name_is(s, 's', 'a', 't') {
        Some(6)
    } else {
        None
    }
}

/// The crontab number of a day: 0 to 7 (0 and 7 are Sunday) or a name.
pub open spec fn day_of(s: Seq<char>) -> Option<int> {
    match small_number(s) {
        Some(n) => if n <= 7 {
            Some(n)
        } else {
            None
        },
        None => day_name(s),
    }
}

/// The part of an item before its `/`.
pub open spec fn item_base(item: Seq<char>) -> Seq<char> {
    match first_occurrence(item, seq!['/']) {
        Some(i) => item.take(i),
        None => item,
    }
}

/// The step of an item: 1 without a `/`, else the number after it, which
/// must be at least 1.
pub open spec fn item_step(item: Seq<char>) -> Option<int> {
    match first_occurrence(item, seq!['/']) {
        Some(i) => match small_number(item.skip(i + 1)) {
            Some(n) => if n >= 1 {
                Some(n)
            } else {
                None
            },
            None => None,
        },
        None => Some(1int),
    }
}

/// The first and last day the part before the `/` names: `*` (0 to 7), a
/// range `a-b` with `a <= b`, or a day (which, with a step, runs to 7).
pub open spec fn base_range(base: Seq<char>, stepped: bool) -> Option<(int, int)> {
    if base.len() == 1 && base[0] == '*' {
        Some((0int, 7int))
    } else {
        match first_occurrence(base, seq!['-']) {
            Some(h) => match (day_of(base.take(h)), day_of(base.skip(h + 1))) {
                (Some(a), Some(b)) => if a <= b {
                    Some((a, b))
                } else {
                    None
                },
                _ => None,
            },
            None => match day_of(base) {
                Some(a) => if stepped {
                    Some((a, 7int))
                } else {
                    Some((a, a))
                },
                None => None,
            },
        }
    }
}

/// The days an item of the field names, as first day, last day and step:
/// `*` (0 to 7), a day, or a range `a-b` with `a <= b`, each optionally
/// followed by `/step` (a day with a step runs to 7).
pub open spec fn item_range(item: Seq<char>) -> Option<(int, int, int)> {
    match item_step(item) {
        None => None,
        Some(st) => match base_range(item_base(item), first_occurrence(item, seq!['/']) is Some) {
            Some((a, b)) => Some((a, b, st)),
            None => None,
        },
    }
}

/// Day `d` is among the days a first-last-step range names.
pub open spec fn in_range(r: (int, int, int), d: int) -> bool {
    r.0 <= d <= r.1 && (d - r.0) % r.2 == 0
}

/// The index of the first comma of `s`, or its length.
pub open spec fn comma_end(s: Seq<char>) -> nat
    decreases s.len(),
{
    if s.len() == 0 || s[0] == ',' {
        0
    } else {
        1 + comma_end(s.drop_first())
    }
}

/// Every comma-separated item of the field names days.
pub open spec fn field_ok(f: Seq<char>) -> bool
    decreases f.len(),
{
    let e = comma_end(f);
    &&& item_range(f.take(e as int)) is Some
    &&& (e < f.len() ==> field_ok(f.skip(e as int + 1)))
}

/// Some comma-separated item of the field names the crontab day `d`.
pub open spec fn field_has(f: Seq<char>, d: int) -> bool
    decreases f.len(),
{
    let e = comma_end(f);
    ||| (item_range(f.take(e as int)) matches Some(r) && in_range(r, d))
    ||| (e < f.len() && field_has(f.skip(e as int + 1), d))
}

/// The `cron` crate's day `c` (1 is Sunday, 7 is Saturday) is named by the
/// crontab field: crontab day `c - 1`, or 7 for Sunday.
pub open spec fn crate_day(f: Seq<char>, c: int) -> bool {
    field_has(f, c - 1) || (c == 1 && field_has(f, 7))
}

/// The digit of a crate day from 1 to 7.
pub open spec fn crate_digit(c: int) -> char {
    if c == 1 {
        '1'
    } else if c == 2 {
        '2'
    } else if c == 3 {
        '3'
    } else if c == 4 {
        '4'
    } else if c == 5 {
        '5'
    } else if c == 6 {
        '6'
    } else {
        '7'
    }
}

/// The crate days from 1 to `k` that the field names, as digits separated
/// by commas.
pub open spec fn crate_list(f: Seq<char>, k: nat) -> Seq<char>
    decreases k,
{
    if k == 0 {
        seq![]
    } else {
        let p = crate_list(f, (k - 1) as nat);
        if crate_day(f, k as int) {
            if p.len() == 0 {
                seq![crate_digit(k as int)]
            } else {
                p + seq![',', crate_digit(k as int)]
            }
        } else {
            p
        }
    }
}

/// The day-of-week field in the crate's numbering: `*` stays `*`; a field
/// whose items all name days becomes the list of those days; any other
/// field is handed over as it is, for the crate to judge.
pub open spec fn crate_weekdays(f: Seq<char>) -> Seq<char> {
    if f.len() == 1 && f[0] == '*' {
        f
    } else if field_ok(f) {
        crate_list(f, 7)
    } else {
        f
    }
}

/// Where the `k`-th whitespace-separated field (counting from 1) starts
/// and ends, if there is one.
pub open spec fn field_span(t: Seq<char>, k: nat) -> Option<(int, int)> {
    match fields_end(t, 0, (k - 1) as nat) {
        Some(e) => {
            let a = skip_spaces(t, e);
            if 0 <= a < t.len() {
                Some((a, skip_field(t, a)))
            } else {
                None
            }
        },
        None => None,
    }
}

/// A crontab schedule with its day-of-week field (the fifth) rewritten in
/// the crate's numbering; all else is kept as it is.
pub open spec fn crate_schedule(t: Seq<char>) -> Seq<char> {
    match field_span(t, 5) {
        Some((a, b)) => t.take(a) + crate_weekdays(t.subrange(a, b)) + t.skip(b),
        None => t,
    }
}

/// Both day fields (day of month, the third; day of week, the fifth) are
/// restricted: neither starts with `*`. Crontab then fires on a day that
/// either field matches, where the `cron` crate asks both to match.
pub open spec fn both_days_restricted(t: Seq<char>) -> bool {
    match (field_span(t, 3), field_span(t, 5)) {
        (Some((a3, _b3)), Some((a5, _b5))) => t[a3] != '*' && t[a5] != '*',
        _ => false,
    }
}

/// The schedule with its day of week opened to every day: it fires on
/// the days its day of month matches.
pub open spec fn month_days_text(t: Seq<char>) -> Seq<char> {
    match field_span(t, 5) {
        Some((a, b)) => t.take(a) + seq!['*'] + t.skip(b),
        None => t,
    }
}

/// The schedule with its day of month opened to every day and its day of
/// week in the crate's numbering: it fires on the days its day of week
/// matches.
pub open spec fn week_days_text(t: Seq<char>) -> Seq<char> {
    match (field_span(t, 3), field_span(t, 5)) {
        (Some((a3, b3)), Some((a5, b5))) => t.take(a3) + seq!['*'] + t.subrange(b3, a5)
            + crate_weekdays(t.subrange(a5, b5)) + t.skip(b5),
        _ => t,
    }
}

/// The crontab schedule `t` as schedules of the `cron` crate whose fire
/// times together are those of `t`: one, or, when both day fields are
/// restricted, one for each of them.
pub open spec fn crate_schedules(t: Seq<char>) -> Seq<Seq<char>> {
    if both_days_restricted(t) {
        seq![month_days_text(t), week_days_text(t)]
    } else {
        seq![crate_schedule(t)]
    }
}

/// The index of the first comma, or the length.
pub proof fn lemma_comma_end(s: Seq<char>, k: int)
    requires
        0 <= k <= s.len(),
        forall|m: int| 0 <= m < k ==> s[m] != ',',
        k < s.len() ==> s[k] == ',',
    ensures
        comma_end(s) == k,
    decreases k,
{
    if k > 0 {
        assert forall|m: int| 0 <= m < k - 1 implies s.drop_first()[m] != ',' by {
            assert(s.drop_first()[m] == s[m + 1]);
        }
        if k - 1 < s.drop_first().len() {
            assert(s.drop_first()[k - 1] == s[k]);
        }
        lemma_comma_end(s.drop_first(), k - 1);
    }
}

fn digit_of(c: char) -> (r: Option<usize>)
    ensures
        is_digit(c) ==> r == Some(digit_value(c) as usize),
        !is_digit(c) ==> r is None,
{
    if '0' <= c && c <= '9' {
        Some((c as u32 - '0' as u32) as usize)
    } else {
        None
    }
}

fn small_number_of(s: &[char]) -> (r: Option<usize>)
    ensures
        match small_number(s@) {
            Some(n) => r == Some(n as usize),
            None => r is None,
        },
{
    if s.len() == 1 {
        digit_of(s[0])
    } else if s.len() == 2 {
        match (digit_of(s[0]), digit_of(s[1])) {
            (Some(a), Some(b)) => Some(a * 10 + b),
            _ => None,
        }
    } else {
        None
    }
}

fn letter_matches(c: char, lo: char) -> (r: bool)
    requires
        'a' <= lo <= 'z',
    ensures
        r == letter_is(c, lo),
{
    c == lo || c as u32 == lo as u32 - 32
}

fn name_matches(s: &[char], a: char, b: char, c: char) -> (r: bool)
    requires
        'a' <= a <= 'z',
        'a' <= b <= 'z',
        'a' <= c <= 'z',
    ensures
        r == name_is(s@, a, b, c),
{
    s.len() == 3 && letter_matches(s[0], a) && letter_matches(s[1], b) && letter_matches(s[2], c)
}

fn day_name_of(s: &[char]) -> (r: Option<usize>)
    ensures
        match day_name(s@) {
            Some(n) => r == Some(n as usize),
            None => r is None,
        },
{
    if name_matches(s, 's', 'u', 'n') {
        Some(0)
    } else if name_matches(s, 'm', 'o', 'n') {
        Some(1)
    } else if name_matches(s, 't', 'u', 'e') {
        Some(2)
    } else if name_matches(s, 'w', 'e', 'd') {
        Some(3)
    } else if name_matches(s, 't', 'h', 'u') {
        Some(4)
    } else if name_matches(s, 'f', 'r', 'i') {
        Some(5)
    } else if name_matches(s, 's', 'a', 't') {
        Some(6)
    } else {
        None
    }
}

fn day_of_chars(s: &[char]) -> (r: Option<usize>)
    ensures
        match day_of(s@) {
            Some(n) => r == Some(n as usize),
            None => r is None,
        },
{
    match small_number_of(s) {
        Some(n) => if n <= 7 {
            Some(n)
        } else {
            None
        },
        None => day_name_of(s),
    }
}

fn base_range_of(base: &[char], stepped: bool) -> (r: Option<(usize, usize)>)
    ensures
        match base_range(base@, stepped) {
            Some((a, b)) => r == Some((a as usize, b as usize)) && 0 <= a <= b <= 7,
            None => r is None,
        },
{
    if base.len() == 1 && base[0] == '*' {
        return Some((0, 7));
    }
    match find_char(base, '-') {
        Some(h) => {
            let left = sub_chars(base, 0, h);
            let right = sub_chars(base, h + 1, base.len());
            assert(left@ == base@.take(h as int));
            assert(right@ == base@.skip(h + 1));
            match (day_of_chars(left.as_slice()), day_of_chars(right.as_slice())) {
                (Some(a), Some(b)) => if a <= b {
                    Some((a, b))
                } else {
                    None
                },
                _ => None,
            }
        },
        None => match day_of_chars(base) {
            Some(a) => if stepped {
                Some((a, 7))
            } else {
                Some((a, a))
            },
            None => None,
        },
    }
}

fn item_step_of(item: &[char], slash: Option<usize>) -> (r: Option<usize>)
    requires
        slash matches Some(i) ==> is_first_occurrence(item@, seq!['/'], i as int) && i < item@.len(),
        slash is None ==> !contains(item@, seq!['/']),
    ensures
        match item_step(item@) {
            Some(n) => r == Some(n as usize) && n >= 1,
            None => r is None,
        },
{
    match slash {
        Some(i) => {
            proof {
                lemma_first_occurrence_is(item@, seq!['/'], i as int);
            }
            assert(i < item.len());
            let rest = sub_chars(item, i + 1, item.len());
            assert(rest@ == item@.skip(i + 1));
            match small_number_of(rest.as_slice()) {
                Some(n) => if n >= 1 {
                    Some(n)
                } else {
                    None
                },
                None => None,
            }
        },
        None => Some(1),
    }
}

fn item_range_of(item: &[char]) -> (r: Option<(usize, usize, usize)>)
    ensures
        match item_range(item@) {
            Some((a, b, st)) => r == Some((a as usize, b as usize, st as usize)) && 0 <= a <= b
                <= 7 && st >= 1,
            None => r is None,
        },
{
    let slash = find_char(item, '/');
    proof {
        if let Some(i) = slash {
            lemma_first_occurrence_is(item@, seq!['/'], i as int);
        }
    }
    let st = match item_step_of(item, slash) {
        None => {
            return None;
        },
        Some(st) => st,
    };
    let base = match slash {
        Some(i) => sub_chars(item, 0, i),
        None => sub_chars(item, 0, item.len()),
    };
    assert(item@.subrange(0, item@.len() as int) =~= item@);
    assert(base@ == item_base(item@));
    match base_range_of(base.as_slice(), slash.is_some()) {
        Some((a, b)) => Some((a, b, st)),
        None => None,
    }
}

/// The crontab days `0..=7` a day-of-week field names, if all its items
/// name days.
fn field_days(f: &[char]) -> (r: Option<Vec<bool>>)
    ensures
        field_ok(f@) <==> r is Some,
        r matches Some(mask) ==> mask@.len() == 8 && forall|d: int|
            0 <= d < 8 ==> mask@[d] == field_has(f@, d),
{
    let n = f.len();
    let mut mask: Vec<bool> = vec![false, false, false, false, false, false, false, false];
    let mut pos: usize = 0;
    assert(f@.subrange(0, n as int) =~= f@);
    loop
        invariant
            pos <= n == f@.len(),
            mask@.len() == 8,
            field_ok(f@) == field_ok(f@.subrange(pos as int, n as int)),
            forall|d: int|
                0 <= d < 8 ==> field_has(f@, d) == (mask@[d] || field_has(
                    f@.subrange(pos as int, n as int),
                    d,
                )),
        decreases n - pos,
    {
        let ghost rest = f@.subrange(pos as int, n as int);
        let mut j = pos;
        while j < n && f[j] != ','
            invariant
                pos <= j <= n == f@.len(),
                forall|m: int| pos <= m < j ==> f@[m] != ',',
            decreases n - j,
        {
            j = j + 1;
        }
        proof {
            assert forall|m: int| 0 <= m < j - pos implies rest[m] != ',' by {
                assert(rest[m] == f@[pos + m]);
            }
            if j < n {
                assert(rest[j - pos] == f@[j as int]);
            }
            lemma_comma_end(rest, j - pos);
            assert(rest.take(j - pos) =~= f@.subrange(pos as int, j as int));
        }
        let item = sub_chars(f, pos, j);
        let r = match item_range_of(item.as_slice()) {
            None => {
                return None;
            },
            Some(r) => r,
        };
        let ghost old_mask = mask@;
        let mut d: usize = 0;
        while d < 8
            invariant
                mask@.len() == 8,
                old_mask.len() == 8,
                d <= 8,
                r.0 <= r.1 <= 7,
                r.2 >= 1,
                forall|x: int|
                    #![trigger mask@[x]]
                    0 <= x < 8 ==> mask@[x] == (old_mask[x] || (x < d && in_range(
                        (r.0 as int, r.1 as int, r.2 as int),
                        x,
                    ))),
            decreases 8 - d,
        {
            let hit = r.0 <= d && d <= r.1 && (d - r.0) % r.2 == 0;
            assert(hit == in_range((r.0 as int, r.1 as int, r.2 as int), d as int));
            let ghost prev = mask@;
            if hit {
                mask.set(d, true);
            }
            assert forall|x: int|
                #![trigger mask@[x]]
                0 <= x < 8 implies mask@[x] == (old_mask[x] || (x < d + 1 && in_range(
                    (r.0 as int, r.1 as int, r.2 as int),
                    x,
                ))) by {
                if x != d {
                    assert(mask@[x] == prev[x]);
                } else if hit {
                    assert(mask@[x]);
                } else {
                    assert(mask@[x] == prev[x]);
                    assert(!in_range((r.0 as int, r.1 as int, r.2 as int), x));
                }
            }
            d = d + 1;
        }
        if j == n {
            proof {
                assert forall|x: int| 0 <= x < 8 implies field_has(f@, x) == mask@[x] by {
                    assert(!field_has(rest, x) || in_range((r.0 as int, r.1 as int, r.2 as int), x));
                }
            }
            return Some(mask);
        }
        proof {
            assert(rest.skip(j - pos + 1) =~= f@.subrange(j + 1, n as int));
        }
        pos = j + 1;
    }
}

fn crate_digit_of(c: usize) -> (r: char)
    requires
        1 <= c <= 7,
    ensures
        r == crate_digit(c as int),
{
    if c == 1 {
        '1'
    } else if c == 2 {
        '2'
    } else if c == 3 {
        '3'
    } else if c == 4 {
        '4'
    } else if c == 5 {
        '5'
    } else if c == 6 {
        '6'
    } else {
        '7'
    }
}

/// The day-of-week field in the crate's numbering.
pub fn crate_weekday_chars(f: &[char]) -> (r: Vec<char>)
    ensures
        r@ == crate_weekdays(f@),
{
    if f.len() == 1 && f[0] == '*' {
        return sub_chars(f, 0, 1);
    }
    match field_days(f) {
        None => {
            assert(f@.subrange(0, f@.len() as int) =~= f@);
            sub_chars(f, 0, f.len())
        },
        Some(mask) => {
            let mut out: Vec<char> = Vec::new();
            let mut c: usize = 1;
            while c <= 7
                invariant
                    1 <= c <= 8,
                    mask@.len() == 8,
                    forall|d: int| 0 <= d < 8 ==> mask@[d] == field_has(f@, d),
                    out@ == crate_list(f@, (c - 1) as nat),
                decreases 8 - c,
            {
                let included = mask[c - 1] || (c == 1 && mask[7]);
                if included {
                    if out.len() > 0 {
                        out.push(',');
                    }
                    out.push(crate_digit_of(c));
                }
                assert(included == crate_day(f@, c as int));
                assert(out@ =~= crate_list(f@, c as nat));
                c = c + 1;
            }
            out
        },
    }
}

/// The translated field names exactly the crate days that the crontab
/// field names: the digit of crate day `c` is in the list of the first `k`
/// days when `c <= k` and the field names that day.
pub proof fn lemma_crate_list_days(f: Seq<char>, k: nat, c: int)
    requires
        1 <= c <= 7,
        k <= 7,
    ensures
        crate_list(f, k).contains(crate_digit(c)) <==> (c <= k && crate_day(f, c)),
    decreases k,
{
    if k > 0 {
        lemma_crate_list_days(f, (k - 1) as nat, c);
        let p = crate_list(f, (k - 1) as nat);
        let d = crate_digit(k as int);
        if crate_day(f, k as int) {
            if p.len() == 0 {
                assert(seq![d][0] == d);
            } else {
                let q = p + seq![',', d];
                assert(q[p.len() as int + 1] == d);
                if q.contains(crate_digit(c)) {
                    let i = choose|i: int| 0 <= i < q.len() && q[i] == crate_digit(c);
                    if i < p.len() {
                        assert(p[i] == crate_digit(c));
                    }
                }
                if p.contains(crate_digit(c)) {
                    let i = choose|i: int| 0 <= i < p.len() && p[i] == crate_digit(c);
                    assert(q[i] == crate_digit(c));
                }
            }
        }
    }
}

/// When the day of month or the day of week starts with `*`, the schedule
/// stays one schedule: all before the day-of-week field and all after it is
/// kept as it is, and a day of week of `*` leaves the text unchanged.
pub proof fn lemma_one_form_when_a_day_is_open(t: Seq<char>)
    requires
        (field_span(t, 3) matches Some((a3, _b3)) && t[a3] == '*') || (field_span(t, 5) matches Some(
            (a5, _b5),
        ) && t[a5] == '*') || field_span(t, 3) is None || field_span(t, 5) is None,
    ensures
        crate_schedules(t).len() == 1,
        field_span(t, 5) is None ==> crate_schedules(t)[0] == t,
        field_span(t, 5) matches Some((a, b)) ==> {
            let r = crate_schedules(t)[0];
            &&& r.len() >= a + t.len() - b
            &&& r.take(a) == t.take(a)
            &&& r.skip(r.len() - (t.len() - b)) == t.skip(b)
            &&& (t.subrange(a, b) == seq!['*'] ==> r == t)
        },
{
    lemma_field_span_bounds(t, 5);
    if let Some((a, b)) = field_span(t, 5) {
        let f = t.subrange(a, b);
        let w = crate_weekdays(f);
        let r = t.take(a) + w + t.skip(b);
        assert(r.take(a) =~= t.take(a));
        assert(r.skip(r.len() - (t.len() - b)) =~= t.skip(b));
        if f == seq!['*'] {
            assert(r =~= t);
        }
    }
}

/// When both day fields are restricted, the schedule becomes two: the
/// first keeps all but the day of week, which becomes `*`; the second keeps
/// all before the day of month and all after the day of week, with the
/// day of month `*` and the day of week renumbered.
pub proof fn lemma_two_forms_when_both_restricted(t: Seq<char>)
    requires
        field_span(t, 3) matches Some((a3, _b3)) && t[a3] != '*',
        field_span(t, 5) matches Some((a5, _b5)) && t[a5] != '*',
    ensures
        crate_schedules(t).len() == 2,
        ({
            let (a3, b3) = field_span(t, 3)->0;
            let (a5, b5) = field_span(t, 5)->0;
            let m = crate_schedules(t)[0];
            let w = crate_schedules(t)[1];
            &&& m.len() == t.len() - (b5 - a5) + 1
            &&& m.take(a5) == t.take(a5)
            &&& m[a5] == '*'
            &&& m.skip(a5 + 1) == t.skip(b5)
            &&& w.take(a3) == t.take(a3)
            &&& w[a3] == '*'
            &&& w.subrange(a3 + 1, a3 + 1 + (a5 - b3)) == t.subrange(b3, a5)
            &&& w.skip(w.len() - (t.len() - b5)) == t.skip(b5)
        }),
{
    lemma_third_before_fifth(t);
    lemma_field_span_bounds(t, 3);
    lemma_field_span_bounds(t, 5);
    let (a3, b3) = field_span(t, 3)->0;
    let (a5, b5) = field_span(t, 5)->0;
    let m = t.take(a5) + seq!['*'] + t.skip(b5);
    assert(m.take(a5) =~= t.take(a5));
    assert(m.skip(a5 + 1) =~= t.skip(b5));
    let w = t.take(a3) + seq!['*'] + t.subrange(b3, a5) + crate_weekdays(t.subrange(a5, b5)) + t.skip(b5);
    assert(w.take(a3) =~= t.take(a3));
    assert(w.subrange(a3 + 1, a3 + 1 + (a5 - b3)) =~= t.subrange(b3, a5));
    assert(w.skip(w.len() - (t.len() - b5)) =~= t.skip(b5));
}

/// A field found lies inside the text and is not empty.
proof fn lemma_field_span_bounds(t: Seq<char>, k: nat)
    requires
        k >= 1,
    ensures
        field_span(t, k) matches Some((a, b)) ==> 0 <= a < b <= t.len(),
{
    lemma_fields_end_after(t, 0, (k - 1) as nat);
    if let Some(e) = fields_end(t, 0, (k - 1) as nat) {
        lemma_skip_spaces(t, e);
        let a = skip_spaces(t, e);
        if 0 <= a < t.len() {
            lemma_skip_field(t, a);
        }
    }
}

/// Counting one field more continues from where `k` fields end.
proof fn lemma_fields_end_step(s: Seq<char>, i: int, k: nat)
    ensures
        fields_end(s, i, k + 1) == match fields_end(s, i, k) {
            Some(e) => if skip_spaces(s, e) >= s.len() {
                None
            } else {
                Some(skip_field(s, skip_spaces(s, e)))
            },
            None => None,
        },
    decreases k,
{
    reveal_with_fuel(fields_end, 2);
    if k > 0 {
        let j = skip_spaces(s, i);
        if j < s.len() {
            lemma_fields_end_step(s, skip_field(s, j), (k - 1) as nat);
        }
    }
}

/// The third field ends before the fifth starts.
proof fn lemma_third_before_fifth(t: Seq<char>)
    requires
        field_span(t, 3) is Some,
        field_span(t, 5) is Some,
    ensures
        match (field_span(t, 3), field_span(t, 5)) {
            (Some((_a3, b3)), Some((a5, _b5))) => b3 <= a5,
            _ => true,
        },
{
    lemma_fields_end_step(t, 0, 2);
    lemma_fields_end_step(t, 0, 3);
    lemma_fields_end_step(t, 0, 4);
    let e2 = fields_end(t, 0, 2)->0;
    let e3 = fields_end(t, 0, 3)->0;
    let e4 = fields_end(t, 0, 4)->0;
    lemma_skip_spaces(t, e3);
    lemma_skip_field(t, skip_spaces(t, e3));
    lemma_skip_spaces(t, e4);
}

/// Where the `k`-th field starts and ends, if there is one.
fn field_span_of(t: &[char], k: usize) -> (r: Option<(usize, usize)>)
    requires
        k >= 1,
    ensures
        match field_span(t@, k as nat) {
            Some((a, b)) => r == Some((a as usize, b as usize)) && 0 <= a < b <= t@.len(),
            None => r is None,
        },
        r matches Some((a, b)) ==> a < b <= t@.len(),
{
    match fields_end_index(t, k - 1) {
        None => None,
        Some(e) => {
            let a = skip_spaces_from(t, e);
            if a >= t.len() {
                return None;
            }
            let b = skip_field_from(t, a);
            proof {
                lemma_skip_spaces(t@, e as int);
                lemma_skip_field(t@, a as int);
            }
            Some((a, b))
        },
    }
}

/// A crontab schedule with its day-of-week field in the crate's numbering.
pub fn crate_schedule_chars(t: &[char]) -> (r: Vec<char>)
    ensures
        r@ == crate_schedule(t@),
{
    match field_span_of(t, 5) {
        None => sub_chars(t, 0, t.len()),
        Some((a, b)) => {
            let mut out = sub_chars(t, 0, a);
            let field = sub_chars(t, a, b);
            let days = crate_weekday_chars(field.as_slice());
            append_chars(&mut out, days.as_slice());
            let tail = sub_chars(t, b, t.len());
            append_chars(&mut out, tail.as_slice());
            assert(t@.take(a as int) =~= t@.subrange(0, a as int));
            assert(t@.skip(b as int) =~= t@.subrange(b as int, t@.len() as int));
            out
        },
    }
}

/// The crontab schedule `t` as one or two schedules of the `cron` crate.
pub fn crate_schedules_chars(t: &[char]) -> (r: (Vec<char>, Option<Vec<char>>))
    ensures
        match r.1 {
            None => crate_schedules(t@) == seq![r.0@],
            Some(w) => crate_schedules(t@) == seq![r.0@, w@],
        },
{
    match (field_span_of(t, 3), field_span_of(t, 5)) {
        (Some((a3, b3)), Some((a5, b5))) => {
            if t[a3] != '*' && t[a5] != '*' {
                proof {
                    lemma_third_before_fifth(t@);
                }
                let mut month = sub_chars(t, 0, a5);
                month.push('*');
                let tail = sub_chars(t, b5, t.len());
                append_chars(&mut month, tail.as_slice());
                let mut week = sub_chars(t, 0, a3);
                week.push('*');
                let middle = sub_chars(t, b3, a5);
                append_chars(&mut week, middle.as_slice());
                let field = sub_chars(t, a5, b5);
                let days = crate_weekday_chars(field.as_slice());
                append_chars(&mut week, days.as_slice());
                append_chars(&mut week, tail.as_slice());
                assert(t@.take(a5 as int) =~= t@.subrange(0, a5 as int));
                assert(t@.take(a3 as int) =~= t@.subrange(0, a3 as int));
                assert(t@.skip(b5 as int) =~= t@.subrange(b5 as int, t@.len() as int));
                assert(month@ =~= month_days_text(t@));
                assert(week@ =~= week_days_text(t@));
                return (month, Some(week));
            }
        },
        _ => {},
    }
    (crate_schedule_chars(t), None)
}

} // verus!
