//! Character-level text handling shared by the crontab and state logic.
//! Text is modelled as a sequence of Unicode scalar values (`Seq<char>`).
use vstd::prelude::*;

verus! {

/// The characters with the Unicode `White_Space` property, which is what
/// `char::is_whitespace`, `str::trim` and friends test.
pub open spec fn is_white_space(c: char) -> bool {
    ||| ('\u{9}' <= c && c <= '\u{d}')
    ||| c == ' '
    ||| c == '\u{85}'
    ||| c == '\u{a0}'
    ||| c == '\u{1680}'
    ||| ('\u{2000}' <= c && c <= '\u{200a}')
    ||| c == '\u{2028}'
    ||| c == '\u{2029}'
    ||| c == '\u{202f}'
    ||| c == '\u{205f}'
    ||| c == '\u{3000}'
}

/// ASCII whitespace as `u8::is_ascii_whitespace` defines it: space, tab,
/// line feed, form feed and carriage return.
pub open spec fn is_ascii_white_space(c: char) -> bool {
    c == ' ' || c == '\t' || c == '\n' || c == '\u{c}' || c == '\r'
}

/// Leading white space removed.
pub open spec fn trim_start(s: Seq<char>) -> Seq<char>
    decreases s.len(),
{
    if s.len() > 0 && is_white_space(s[0]) {
        trim_start(s.drop_first())
    } else {
        s
    }
}

/// Trailing white space removed.
pub open spec fn trim_end(s: Seq<char>) -> Seq<char>
    decreases s.len(),
{
    if s.len() > 0 && is_white_space(s.last()) {
        trim_end(s.drop_last())
    } else {
        s
    }
}

/// Leading and trailing white space removed.
pub open spec fn trim(s: Seq<char>) -> Seq<char> {
    trim_end(trim_start(s))
}

/// Leading copies of `c` removed.
pub open spec fn strip_leading(s: Seq<char>, c: char) -> Seq<char>
    decreases s.len(),
{
    if s.len() > 0 && s[0] == c {
        strip_leading(s.drop_first(), c)
    } else {
        s
    }
}

/// `p` occurs in `s` starting at index `i`.
pub open spec fn occurs_at(s: Seq<char>, p: Seq<char>, i: int) -> bool {
    &&& 0 <= i
    &&& i + p.len() <= s.len()
    &&& s.subrange(i, i + p.len()) =~= p
}

/// `p` occurs somewhere in `s`.
pub open spec fn contains(s: Seq<char>, p: Seq<char>) -> bool {
    exists|i: int| occurs_at(s, p, i)
}

/// `i` is the first index at which `p` occurs in `s`.
pub open spec fn is_first_occurrence(s: Seq<char>, p: Seq<char>, i: int) -> bool {
    occurs_at(s, p, i) && forall|j: int| 0 <= j < i ==> !occurs_at(s, p, j)
}

/// The first index at which `p` occurs in `s`, if any.
pub open spec fn first_occurrence(s: Seq<char>, p: Seq<char>) -> Option<int> {
    if contains(s, p) {
        Some(choose|i: int| is_first_occurrence(s, p, i))
    } else {
        None
    }
}

/// The first occurrence of a single character is its first index: the
/// character stands there and nowhere before; there is none exactly when
/// the character does not occur.
pub proof fn lemma_first_char(s: Seq<char>, c: char)
    ensures
        match first_occurrence(s, seq![c]) {
            Some(e) => 0 <= e < s.len() && s[e] == c && forall|j: int| 0 <= j < e ==> s[j] != c,
            None => !s.contains(c),
        },
{
    if s.contains(c) {
        let i = choose|i: int| 0 <= i < s.len() && s[i] == c;
        lemma_first_char_from(s, c, i);
    } else {
        if contains(s, seq![c]) {
            let i = choose|i: int| occurs_at(s, seq![c], i);
            assert(s.subrange(i, i + 1)[0] == s[i]);
        }
    }
    if let Some(e) = first_occurrence(s, seq![c]) {
        assert(is_first_occurrence(s, seq![c], e));
        assert(s.subrange(e, e + 1)[0] == s[e]);
        assert forall|j: int| 0 <= j < e implies s[j] != c by {
            if s[j] == c {
                assert(s.subrange(j, j + 1) =~= seq![c]);
                assert(occurs_at(s, seq![c], j));
            }
        }
    }
}

/// Below an index holding `c` there is a first index holding it.
proof fn lemma_first_char_from(s: Seq<char>, c: char, i: int)
    requires
        0 <= i < s.len(),
        s[i] == c,
    ensures
        exists|k: int| is_first_occurrence(s, seq![c], k),
    decreases i,
{
    if exists|j: int| 0 <= j < i && s[j] == c {
        let j = choose|j: int| 0 <= j < i && s[j] == c;
        lemma_first_char_from(s, c, j);
    } else {
        assert(s.subrange(i, i + 1) =~= seq![c]);
        assert forall|j: int| 0 <= j < i implies !occurs_at(s, seq![c], j) by {
            if occurs_at(s, seq![c], j) {
                assert(s.subrange(j, j + 1)[0] == s[j]);
            }
        }
        assert(is_first_occurrence(s, seq![c], i));
    }
}

/// `s` begins with the character `c`.
pub open spec fn starts_with_char(s: Seq<char>, c: char) -> bool {
    s.len() > 0 && s[0] == c
}

/// `s` ends with the character `c`.
pub open spec fn ends_with_char(s: Seq<char>, c: char) -> bool {
    s.len() > 0 && s.last() == c
}

/// The length of the run of non-white-space characters at the start of `s`.
pub open spec fn word_len(s: Seq<char>) -> nat
    decreases s.len(),
{
    if s.len() == 0 || is_white_space(s[0]) {
        0
    } else {
        1 + word_len(s.drop_first())
    }
}

/// A first occurrence is unique, so the one found is the one named.
pub proof fn lemma_first_occurrence_is(s: Seq<char>, p: Seq<char>, i: int)
    requires
        is_first_occurrence(s, p, i),
    ensures
        first_occurrence(s, p) == Some(i),
{
    assert(contains(s, p));
    let k = choose|k: int| is_first_occurrence(s, p, k);
    assert(is_first_occurrence(s, p, k));
    if k < i {
        assert(!occurs_at(s, p, k));
    } else if i < k {
        assert(!occurs_at(s, p, i));
    }
}

/// `c` is one of the characters with the `White_Space` property.
pub fn is_white_space_char(c: char) -> (r: bool)
    ensures
        r == is_white_space(c),
{
    ('\u{9}' <= c && c <= '\u{d}') || c == ' ' || c == '\u{85}' || c == '\u{a0}' || c == '\u{1680}'
        || ('\u{2000}' <= c && c <= '\u{200a}') || c == '\u{2028}' || c == '\u{2029}' || c
        == '\u{202f}' || c == '\u{205f}' || c == '\u{3000}'
}

/// `c` is ASCII white space.
pub fn is_ascii_white_space_char(c: char) -> (r: bool)
    ensures
        r == is_ascii_white_space(c),
{
    c == ' ' || c == '\t' || c == '\n' || c == '\u{c}' || c == '\r'
}

/// Whether `c` is alphabetic or numeric in the Unicode sense, as
/// `char::is_alphanumeric` decides from the Unicode tables.
pub uninterp spec fn is_alphanumeric(c: char) -> bool;

/// `c` is an ASCII letter or digit.
pub open spec fn is_ascii_letter_or_digit(c: char) -> bool {
    ('a' <= c && c <= 'z') || ('A' <= c && c <= 'Z') || ('0' <= c && c <= '9')
}

/// Whether `c` is alphanumeric: among ASCII characters the letters and
/// digits, beyond them as the Unicode tables decide.
pub open spec fn alphanumeric(c: char) -> bool {
    if c <= '\u{7f}' {
        is_ascii_letter_or_digit(c)
    } else {
        is_alphanumeric(c)
    }
}

/// Calls `char::is_alphanumeric`. The contract names the result and
/// claims, as the documentation of `is_alphabetic` and `is_numeric` gives
/// it, that among ASCII characters exactly the letters and digits are
/// alphanumeric; beyond ASCII the Unicode `Alphabetic` and `Numeric`
/// tables are not written out here.
#[verifier::external_body]
pub(crate) fn char_is_alphanumeric(c: char) -> (r: bool)
    ensures
        r == is_alphanumeric(c),
        c <= '\u{7f}' ==> (r <==> is_ascii_letter_or_digit(c)),
{
    c.is_alphanumeric()
}

/// The characters of `s`, in order.
pub fn chars_of(s: &str) -> (v: Vec<char>)
    ensures
        v@ == s@,
{
    let mut v: Vec<char> = Vec::new();
    for c in it: s.chars()
        invariant
            v@ == it.seq().take(it.index() as int),
            it.seq() == s@,
    {
        v.push(c);
    }
    v
}

/// Collects the characters into a `String` (`FromIterator<&char>` for
/// `String`); the contract claims the result holds exactly those characters.
#[verifier::external_body]
pub(crate) fn string_of(v: &[char]) -> (r: String)
    ensures
        r@ == v@,
{
    String::from_iter(v)
}

/// Appends the characters of `add` to `out`.
pub fn append_chars(out: &mut Vec<char>, add: &[char])
    ensures
        final(out)@ == old(out)@ + add@,
{
    let m = add.len();
    let mut k: usize = 0;
    let ghost start = out@;
    while k < m
        invariant
            m == add@.len(),
            k <= m,
            out@ == start + add@.take(k as int),
        decreases m - k,
    {
        out.push(add[k]);
        k = k + 1;
        assert(out@ =~= start + add@.take(k as int));
    }
    assert(add@.take(m as int) =~= add@);
}

/// The characters `v[from..to]` as a new vector.
pub fn sub_chars(v: &[char], from: usize, to: usize) -> (r: Vec<char>)
    requires
        from <= to <= v@.len(),
    ensures
        r@ == v@.subrange(from as int, to as int),
{
    let mut r: Vec<char> = Vec::new();
    let mut i = from;
    while i < to
        invariant
            from <= i <= to <= v@.len(),
            r@ == v@.subrange(from as int, i as int),
        decreases to - i,
    {
        r.push(v[i]);
        i = i + 1;
        assert(r@ =~= v@.subrange(from as int, i as int));
    }
    r
}

/// The index of the first character of `v` that is not white space, or
/// `v.len()` when there is none.
pub fn trim_start_index(v: &[char]) -> (i: usize)
    ensures
        i <= v@.len(),
        trim_start(v@) == v@.subrange(i as int, v@.len() as int),
{
    let n = v.len();
    let mut i: usize = 0;
    assert(v@.subrange(0, n as int) =~= v@);
    while i < n && is_white_space_char(v[i])
        invariant
            i <= n == v@.len(),
            trim_start(v@) == trim_start(v@.subrange(i as int, n as int)),
        decreases n - i,
    {
        assert(v@.subrange(i as int, n as int).drop_first() =~= v@.subrange(i + 1, n as int));
        i = i + 1;
    }
    i
}

/// One past the index of the last character of `v[..to]` that is not white
/// space, or `0` when there is none.
pub fn trim_end_index(v: &[char], to: usize) -> (j: usize)
    requires
        to <= v@.len(),
    ensures
        j <= to,
        trim_end(v@.subrange(0, to as int)) == v@.subrange(0, j as int),
{
    let mut j: usize = to;
    while j > 0 && is_white_space_char(v[j - 1])
        invariant
            j <= to <= v@.len(),
            trim_end(v@.subrange(0, to as int)) == trim_end(v@.subrange(0, j as int)),
        decreases j,
    {
        assert(v@.subrange(0, j as int).drop_last() =~= v@.subrange(0, j - 1));
        j = j - 1;
    }
    j
}

/// `v` with leading white space removed.
pub fn trim_start_chars(v: &[char]) -> (r: Vec<char>)
    ensures
        r@ == trim_start(v@),
{
    let i = trim_start_index(v);
    sub_chars(v, i, v.len())
}

/// `v` with leading and trailing white space removed.
pub fn trim_chars(v: &[char]) -> (r: Vec<char>)
    ensures
        r@ == trim(v@),
{
    let t = trim_start_chars(v);
    let j = trim_end_index(t.as_slice(), t.len());
    assert(t@.subrange(0, t@.len() as int) =~= t@);
    sub_chars(t.as_slice(), 0, j)
}

/// `v` with leading copies of `c` removed.
pub fn strip_leading_chars(v: &[char], c: char) -> (r: Vec<char>)
    ensures
        r@ == strip_leading(v@, c),
{
    let n = v.len();
    let mut i: usize = 0;
    assert(v@.subrange(0, n as int) =~= v@);
    while i < n && v[i] == c
        invariant
            i <= n == v@.len(),
            strip_leading(v@, c) == strip_leading(v@.subrange(i as int, n as int), c),
        decreases n - i,
    {
        assert(v@.subrange(i as int, n as int).drop_first() =~= v@.subrange(i + 1, n as int));
        i = i + 1;
    }
    sub_chars(v, i, n)
}

/// `p` occurs in `v` starting at index `i`.
pub fn occurs_at_index(v: &[char], p: &[char], i: usize) -> (r: bool)
    ensures
        r == occurs_at(v@, p@, i as int),
{
    if i > v.len() || p.len() > v.len() - i {
        return false;
    }
    let mut k: usize = 0;
    while k < p.len()
        invariant
            i + p@.len() <= v@.len(),
            v@.len() <= usize::MAX,
            k <= p@.len(),
            forall|m: int| 0 <= m < k ==> v@[i + m] == p@[m],
        decreases p.len() - k,
    {
        if v[i + k] != p[k] {
            assert(v@.subrange(i as int, i + p@.len())[k as int] != p@[k as int]);
            return false;
        }
        k = k + 1;
    }
    assert(v@.subrange(i as int, i + p@.len()) =~= p@);
    true
}

/// The first index at which `p` occurs in `v`, if any.
pub fn find_chars(v: &[char], p: &[char]) -> (r: Option<usize>)
    ensures
        r == match first_occurrence(v@, p@) {
            Some(i) => Some(i as usize),
            None => None::<usize>,
        },
        r matches Some(i) ==> is_first_occurrence(v@, p@, i as int),
        r is None ==> !contains(v@, p@),
{
    if p.len() > v.len() {
        return None;
    }
    let last = v.len() - p.len();
    let mut i: usize = 0;
    loop
        invariant
            i <= last == v@.len() - p@.len(),
            forall|j: int| 0 <= j < i ==> !occurs_at(v@, p@, j),
        decreases last - i,
    {
        if occurs_at_index(v, p, i) {
            proof {
                lemma_first_occurrence_is(v@, p@, i as int);
            }
            return Some(i);
        }
        if i == last {
            assert forall|j: int| !occurs_at(v@, p@, j) by {
                if 0 <= j < i {
                }
            }
            return None;
        }
        i = i + 1;
    }
}

/// The first index at which the character `c` stands in `v`, if any.
pub fn find_char(v: &[char], c: char) -> (r: Option<usize>)
    ensures
        r == match first_occurrence(v@, seq![c]) {
            Some(i) => Some(i as usize),
            None => None::<usize>,
        },
        r matches Some(i) ==> is_first_occurrence(v@, seq![c], i as int) && i < v@.len(),
        r is None ==> !contains(v@, seq![c]),
{
    let p = vec![c];
    assert(p@ =~= seq![c]);
    find_chars(v, p.as_slice())
}

/// The length of the run of non-white-space characters at the start of `v`.
pub fn word_length(v: &[char]) -> (n: usize)
    ensures
        n == word_len(v@),
        n <= v@.len(),
{
    let len = v.len();
    let mut k: usize = len;
    // Scan forward, remembering the first white space seen.
    let mut j: usize = 0;
    while j < len
        invariant
            j <= len == v@.len(),
            k <= len,
            forall|m: int| 0 <= m < j && m < k ==> !is_white_space(v@[m]),
            k < len ==> k < j && is_white_space(v@[k as int]),
        decreases len - j,
    {
        if k == len && is_white_space_char(v[j]) {
            k = j;
        }
        j = j + 1;
    }
    proof {
        lemma_word_len(v@, k as int);
    }
    k
}

/// The run of non-white-space characters ends at the first white space.
pub proof fn lemma_word_len(s: Seq<char>, k: int)
    requires
        0 <= k <= s.len(),
        forall|m: int| 0 <= m < k ==> !is_white_space(s[m]),
        k < s.len() ==> is_white_space(s[k]),
    ensures
        word_len(s) == k,
    decreases k,
{
    if k > 0 {
        assert forall|m: int| 0 <= m < k - 1 implies !is_white_space(s.drop_first()[m]) by {
            assert(s.drop_first()[m] == s[m + 1]);
        }
        if k - 1 < s.drop_first().len() {
            assert(s.drop_first()[k - 1] == s[k]);
        }
        lemma_word_len(s.drop_first(), k - 1);
    }
}

/// The run of non-white-space characters at the start of `s` ends at the
/// first white space, or at the end.
pub proof fn lemma_word_len_props(s: Seq<char>)
    ensures
        word_len(s) <= s.len(),
        forall|m: int| 0 <= m < word_len(s) ==> !is_white_space(#[trigger] s[m]),
        word_len(s) < s.len() ==> is_white_space(s[word_len(s) as int]),
    decreases s.len(),
{
    if s.len() > 0 && !is_white_space(s[0]) {
        lemma_word_len_props(s.drop_first());
        assert forall|m: int| 0 <= m < word_len(s) implies !is_white_space(#[trigger] s[m]) by {
            if m > 0 {
                assert(s[m] == s.drop_first()[m - 1]);
            }
        }
        if word_len(s) < s.len() {
            assert(s[word_len(s) as int] == s.drop_first()[word_len(s) - 1]);
        }
    }
}

/// The index of the first line feed in `s`, or `s.len()` when there is none.
pub open spec fn line_end(s: Seq<char>) -> nat
    decreases s.len(),
{
    if s.len() == 0 || s[0] == '\n' {
        0
    } else {
        1 + line_end(s.drop_first())
    }
}

/// `s` without one trailing carriage return.
pub open spec fn strip_cr(s: Seq<char>) -> Seq<char> {
    if ends_with_char(s, '\r') {
        s.drop_last()
    } else {
        s
    }
}

/// The lines of `s`, as `str::lines` gives them: `s` is split after each
/// line feed, the line feed and a carriage return just before it are
/// removed, and a final line ending is optional (no empty last line).
pub open spec fn lines(s: Seq<char>) -> Seq<Seq<char>>
    decreases s.len(),
{
    if s.len() == 0 {
        seq![]
    } else {
        let e = line_end(s);
        if e >= s.len() {
            seq![s]
        } else {
            seq![strip_cr(s.take(e as int))] + lines(s.skip(e as int + 1))
        }
    }
}

/// The view of each line in a vector of lines.
pub open spec fn views_of(ls: Seq<Vec<char>>) -> Seq<Seq<char>> {
    ls.map_values(|l: Vec<char>| l@)
}

/// A line ends at the first line feed.
pub proof fn lemma_line_end(s: Seq<char>, k: int)
    requires
        0 <= k <= s.len(),
        forall|m: int| 0 <= m < k ==> s[m] != '\n',
        k < s.len() ==> s[k] == '\n',
    ensures
        line_end(s) == k,
    decreases k,
{
    if k > 0 {
        assert forall|m: int| 0 <= m < k - 1 implies s.drop_first()[m] != '\n' by {
            assert(s.drop_first()[m] == s[m + 1]);
        }
        if k - 1 < s.drop_first().len() {
            assert(s.drop_first()[k - 1] == s[k]);
        }
        lemma_line_end(s.drop_first(), k - 1);
    }
}

/// `v` without one trailing carriage return.
pub fn strip_cr_chars(v: Vec<char>) -> (r: Vec<char>)
    ensures
        r@ == strip_cr(v@),
{
    let mut v = v;
    if v.len() > 0 && v[v.len() - 1] == '\r' {
        v.pop();
    }
    v
}

/// The lines of `v`, as `str::lines` splits them.
pub fn split_lines(v: &[char]) -> (r: Vec<Vec<char>>)
    ensures
        views_of(r@) == lines(v@),
{
    let n = v.len();
    let mut out: Vec<Vec<char>> = Vec::new();
    let mut pos: usize = 0;
    assert(v@.subrange(0, n as int) =~= v@);
    while pos < n
        invariant
            pos <= n == v@.len(),
            lines(v@) == views_of(out@) + lines(v@.subrange(pos as int, n as int)),
        decreases n - pos,
    {
        let ghost rest = v@.subrange(pos as int, n as int);
        let mut j = pos;
        while j < n && v[j] != '\n'
            invariant
                pos <= j <= n == v@.len(),
                forall|m: int| pos <= m < j ==> v@[m] != '\n',
            decreases n - j,
        {
            j = j + 1;
        }
        proof {
            assert forall|m: int| 0 <= m < j - pos implies rest[m] != '\n' by {
                assert(rest[m] == v@[pos + m]);
            }
            if j < n {
                assert(rest[j - pos] == v@[j as int]);
            }
            lemma_line_end(rest, j - pos);
        }
        let ghost before = out@;
        if j == n {
            let line = sub_chars(v, pos, n);
            out.push(line);
            proof {
                assert(views_of(out@) =~= views_of(before) + seq![rest]);
                assert(v@.subrange(n as int, n as int) =~= Seq::<char>::empty());
                assert(lines(v@) =~= views_of(out@) + lines(v@.subrange(n as int, n as int)));
            }
            pos = n;
        } else {
            let line = strip_cr_chars(sub_chars(v, pos, j));
            out.push(line);
            proof {
                assert(rest.take(j - pos) =~= v@.subrange(pos as int, j as int));
                assert(rest.skip(j - pos + 1) =~= v@.subrange(j + 1, n as int));
                assert(views_of(out@) =~= views_of(before) + seq![strip_cr(rest.take(j - pos))]);
                assert(lines(v@) =~= views_of(out@) + lines(v@.subrange(j + 1, n as int)));
            }
            pos = j + 1;
        }
    }
    assert(v@.subrange(n as int, n as int) =~= Seq::<char>::empty());
    assert(lines(v@) =~= views_of(out@));
    out
}

/// What `line_end` finds: no line feed before it, and a line feed at it
/// unless it is the length.
pub proof fn lemma_line_end_props(s: Seq<char>)
    ensures
        line_end(s) <= s.len(),
        forall|m: int| 0 <= m < line_end(s) ==> s[m] != '\n',
        line_end(s) < s.len() ==> s[line_end(s) as int] == '\n',
    decreases s.len(),
{
    if s.len() > 0 && s[0] != '\n' {
        lemma_line_end_props(s.drop_first());
        assert forall|m: int| 0 <= m < line_end(s) implies s[m] != '\n' by {
            if m > 0 {
                assert(s[m] == s.drop_first()[m - 1]);
            }
        }
        if line_end(s) < s.len() {
            assert(s[line_end(s) as int] == s.drop_first()[line_end(s.drop_first()) as int]);
        }
    }
}

/// Text after a line feed does not change where the first line ends.
pub proof fn lemma_line_end_concat(a: Seq<char>, b: Seq<char>)
    requires
        line_end(a) < a.len(),
    ensures
        line_end(a + b) == line_end(a),
{
    lemma_line_end_props(a);
    let e = line_end(a) as int;
    assert forall|m: int| 0 <= m < e implies (a + b)[m] != '\n' by {
        assert((a + b)[m] == a[m]);
    }
    assert((a + b)[e] == a[e]);
    lemma_line_end(a + b, e);
}

/// The lines of text that ends with a line feed, followed by more text,
/// are the lines of each part.
pub proof fn lemma_lines_concat(a: Seq<char>, b: Seq<char>)
    requires
        a.len() == 0 || a.last() == '\n',
    ensures
        lines(a + b) == lines(a) + lines(b),
    decreases a.len(),
{
    if a.len() == 0 {
        assert(a + b =~= b);
        assert(lines(a) =~= Seq::<Seq<char>>::empty());
        assert(lines(a) + lines(b) =~= lines(b));
    } else {
        lemma_line_end_props(a);
        let e = line_end(a) as int;
        if e >= a.len() {
            assert(a[a.len() - 1] != '\n');
            assert(false);
        }
        lemma_line_end_concat(a, b);
        assert((a + b).take(e) =~= a.take(e));
        assert((a + b).skip(e + 1) =~= a.skip(e + 1) + b);
        let rest = a.skip(e + 1);
        if rest.len() > 0 {
            assert(rest.last() == a.last());
        }
        lemma_lines_concat(rest, b);
        assert(lines(a + b) =~= lines(a) + lines(b));
    }
}

/// A line with no line feed, followed by one, is a single line.
pub proof fn lemma_lines_single(line: Seq<char>)
    requires
        forall|m: int| 0 <= m < line.len() ==> line[m] != '\n',
    ensures
        lines(line.push('\n')) == seq![strip_cr(line)],
{
    let s = line.push('\n');
    assert forall|m: int| 0 <= m < line.len() implies s[m] != '\n' by {
        assert(s[m] == line[m]);
    }
    lemma_line_end(s, line.len() as int);
    assert(s.take(line.len() as int) =~= line);
    assert(s.skip(line.len() as int + 1) =~= Seq::<char>::empty());
    assert(lines(s.skip(line.len() as int + 1)) =~= Seq::<Seq<char>>::empty());
    assert(lines(s) =~= seq![strip_cr(line)]);
}

/// A line feed added to text that does not end with a line ending does not
/// change its lines.
pub proof fn lemma_lines_push_newline(s: Seq<char>)
    requires
        s.len() > 0,
        s.last() != '\n',
        s.last() != '\r',
    ensures
        lines(s.push('\n')) == lines(s),
    decreases s.len(),
{
    lemma_line_end_props(s);
    let e = line_end(s) as int;
    let t = s.push('\n');
    if e >= s.len() {
        assert forall|m: int| 0 <= m < s.len() implies t[m] != '\n' by {
            assert(t[m] == s[m]);
        }
        lemma_lines_single(s);
        assert(lines(s) =~= seq![s]);
    } else {
        assert(t =~= s + seq!['\n']);
        lemma_line_end_concat(s, seq!['\n']);
        assert(t.take(e) =~= s.take(e));
        let rest = s.skip(e + 1);
        assert(t.skip(e + 1) =~= rest.push('\n'));
        assert(e < s.len() - 1);
        assert(rest.last() == s.last());
        lemma_lines_push_newline(rest);
        assert(lines(t) =~= lines(s));
    }
}

/// A line feed added to text that does not end with one leaves its lines
/// as they were, except that a trailing carriage return of the last line
/// is dropped.
pub proof fn lemma_lines_push_newline_any(s: Seq<char>)
    requires
        s.len() > 0,
        s.last() != '\n',
    ensures
        lines(s).len() > 0,
        lines(s.push('\n')) == lines(s).drop_last().push(strip_cr(lines(s).last())),
    decreases s.len(),
{
    lemma_line_end_props(s);
    let e = line_end(s) as int;
    let t = s.push('\n');
    if e >= s.len() {
        assert forall|m: int| 0 <= m < s.len() implies t[m] != '\n' by {
            assert(t[m] == s[m]);
        }
        lemma_lines_single(s);
        assert(lines(s) =~= seq![s]);
        assert(lines(s).drop_last().push(strip_cr(lines(s).last())) =~= seq![strip_cr(s)]);
    } else {
        assert(t =~= s + seq!['\n']);
        lemma_line_end_concat(s, seq!['\n']);
        assert(t.take(e) =~= s.take(e));
        let rest = s.skip(e + 1);
        assert(t.skip(e + 1) =~= rest.push('\n'));
        assert(e < s.len() - 1);
        assert(rest.last() == s.last());
        lemma_lines_push_newline_any(rest);
        let first = strip_cr(s.take(e));
        assert(lines(s) == seq![first] + lines(rest));
        assert(lines(t) == seq![first] + lines(rest.push('\n')));
        assert(lines(t) =~= lines(s).drop_last().push(strip_cr(lines(s).last())));
    }
}

/// Every character of every line is a character of the text.
pub proof fn lemma_lines_chars(s: Seq<char>)
    ensures
        forall|i: int, m: int|
            0 <= i < lines(s).len() && 0 <= m < lines(s)[i].len() ==> exists|k: int|
                0 <= k < s.len() && s[k] == #[trigger] lines(s)[i][m],
    decreases s.len(),
{
    if s.len() > 0 {
        lemma_line_end_props(s);
        let e = line_end(s) as int;
        if e < s.len() {
            let rest = s.skip(e + 1);
            lemma_lines_chars(rest);
            let first = strip_cr(s.take(e));
            assert forall|i: int, m: int|
                0 <= i < lines(s).len() && 0 <= m < lines(s)[i].len() implies exists|k: int|
                0 <= k < s.len() && s[k] == #[trigger] lines(s)[i][m] by {
                if i == 0 {
                    assert(lines(s)[0] == first);
                    assert(s[m] == first[m]);
                } else {
                    assert(lines(s)[i] == lines(rest)[i - 1]);
                    let k = choose|k: int|
                        0 <= k < rest.len() && rest[k] == #[trigger] lines(rest)[i - 1][m];
                    assert(s[k + e + 1] == rest[k]);
                }
            }
        } else {
            assert forall|i: int, m: int|
                0 <= i < lines(s).len() && 0 <= m < lines(s)[i].len() implies exists|k: int|
                0 <= k < s.len() && s[k] == #[trigger] lines(s)[i][m] by {
                assert(lines(s)[i] == s);
                assert(s[m] == lines(s)[i][m]);
            }
        }
    }
}

/// No line holds a line feed.
pub proof fn lemma_lines_have_no_newline(s: Seq<char>)
    ensures
        forall|i: int, m: int|
            0 <= i < lines(s).len() && 0 <= m < lines(s)[i].len() ==> lines(s)[i][m] != '\n',
    decreases s.len(),
{
    if s.len() > 0 {
        lemma_line_end_props(s);
        let e = line_end(s) as int;
        if e < s.len() {
            lemma_lines_have_no_newline(s.skip(e + 1));
            let first = strip_cr(s.take(e));
            assert forall|i: int, m: int|
                0 <= i < lines(s).len() && 0 <= m < lines(s)[i].len() implies lines(s)[i][m]
                != '\n' by {
                if i == 0 {
                    assert(lines(s)[0] == first);
                    assert(first[m] == s[m]);
                } else {
                    assert(lines(s)[i] == lines(s.skip(e + 1))[i - 1]);
                }
            }
        }
    }
}

/// Trimming ignores one trailing white-space character.
pub proof fn lemma_trim_drop_last_space(s: Seq<char>)
    requires
        s.len() > 0,
        is_white_space(s.last()),
    ensures
        trim(s.drop_last()) == trim(s),
    decreases s.len(),
{
    if is_white_space(s[0]) {
        if s.len() == 1 {
            assert(s.drop_last() =~= Seq::<char>::empty());
            assert(s.drop_first() =~= Seq::<char>::empty());
        } else {
            assert(s.drop_last().drop_first() =~= s.drop_first().drop_last());
            lemma_trim_drop_last_space(s.drop_first());
        }
    } else {
        assert(trim_start(s) == s);
        assert(trim_start(s.drop_last()) == s.drop_last());
    }
}

} // verus!
