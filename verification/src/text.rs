//! Character-level text primitives shared by the `.bru` parser, the `.env` parser,
//! variable interpolation and the curl renderer. Text is viewed as `Seq<char>`
//! (the view of `String` / `&str`); executable helpers work on `Vec<char>` ranges.
use vstd::prelude::*;

verus! {

// ---------------------------------------------------------------------------
// Specifications
// ---------------------------------------------------------------------------

/// Unicode `White_Space`, exactly the set `char::is_whitespace` accepts.
pub open spec fn is_ws(c: char) -> bool {
    ||| c == '\t'
    ||| c == '\n'
    ||| c == '\u{0B}'
    ||| c == '\u{0C}'
    ||| c == '\r'
    ||| c == ' '
    ||| c == '\u{85}'
    ||| c == '\u{A0}'
    ||| c == '\u{1680}'
    ||| ('\u{2000}' <= c && c <= '\u{200A}')
    ||| c == '\u{2028}'
    ||| c == '\u{2029}'
    ||| c == '\u{202F}'
    ||| c == '\u{205F}'
    ||| c == '\u{3000}'
}

/// `s` with leading whitespace removed (`str::trim_start`).
pub open spec fn trim_start(s: Seq<char>) -> Seq<char>
    decreases s.len(),
{
    if s.len() > 0 && is_ws(s[0]) {
        trim_start(s.drop_first())
    } else {
        s
    }
}

/// `s` with trailing whitespace removed (`str::trim_end`).
pub open spec fn trim_end(s: Seq<char>) -> Seq<char>
    decreases s.len(),
{
    if s.len() > 0 && is_ws(s.last()) {
        trim_end(s.drop_last())
    } else {
        s
    }
}

/// `s` with whitespace removed on both sides (`str::trim`).
pub open spec fn trim(s: Seq<char>) -> Seq<char> {
    trim_end(trim_start(s))
}

/// `pat` occurs in `s` starting at position `i`.
pub open spec fn matches_at(s: Seq<char>, pat: Seq<char>, i: int) -> bool {
    0 <= i && i + pat.len() <= s.len() && s.subrange(i, i + pat.len()) == pat
}

/// `i` is the leftmost occurrence of `pat` in `s`.
pub open spec fn is_first_match(s: Seq<char>, pat: Seq<char>, i: int) -> bool {
    matches_at(s, pat, i) && forall|j: int| 0 <= j < i ==> !matches_at(s, pat, j)
}

/// Position of the leftmost occurrence of `pat` in `s` (`str::find`).
pub open spec fn find(s: Seq<char>, pat: Seq<char>) -> Option<int> {
    if exists|i: int| is_first_match(s, pat, i) {
        Some(choose|i: int| is_first_match(s, pat, i))
    } else {
        None
    }
}

/// `s` starts with `pat`.
pub open spec fn starts_with(s: Seq<char>, pat: Seq<char>) -> bool {
    pat.len() <= s.len() && s.take(pat.len() as int) == pat
}

/// `s` contains `pat` somewhere.
pub open spec fn contains(s: Seq<char>, pat: Seq<char>) -> bool {
    exists|i: int| matches_at(s, pat, i)
}

/// Split at the first occurrence of `c` (`str::split_once` with a char).
pub open spec fn split_once(s: Seq<char>, c: char) -> Option<(Seq<char>, Seq<char>)> {
    match find(s, seq![c]) {
        Some(i) => Some((s.take(i), s.skip(i + 1))),
        None => None,
    }
}

/// One line as `str::lines` yields it: the trailing `\r` is dropped.
pub open spec fn line_of(raw: Seq<char>) -> Seq<char> {
    if raw.len() > 0 && raw.last() == '\r' {
        raw.drop_last()
    } else {
        raw
    }
}

/// The lines of `s`, as `str::lines` yields them: split at `\n`, drop a `\r` that
/// precedes the `\n`, and yield no final empty line after a trailing `\n`.
pub open spec fn lines(s: Seq<char>) -> Seq<Seq<char>>
    decreases s.len(),
{
    if s.len() == 0 {
        seq![]
    } else {
        match find(s, seq!['\n']) {
            Some(i) => if 0 <= i < s.len() {
                seq![line_of(s.take(i))] + lines(s.skip(i + 1))
            } else {
                seq![]
            },
            None => seq![s],
        }
    }
}

/// Every occurrence of `pat` (left to right, non-overlapping) replaced by `rep`
/// (`str::replace` with a non-empty pattern).
pub open spec fn replace(s: Seq<char>, pat: Seq<char>, rep: Seq<char>) -> Seq<char>
    decreases s.len(),
{
    if s.len() == 0 || pat.len() == 0 {
        s
    } else if starts_with(s, pat) {
        rep + replace(s.skip(pat.len() as int), pat, rep)
    } else {
        seq![s[0]] + replace(s.drop_first(), pat, rep)
    }
}

/// The text of a sequence of `String`s.
pub open spec fn texts(v: Seq<String>) -> Seq<Seq<char>> {
    v.map_values(|s: String| s@)
}

/// Join `parts` with `sep` between consecutive parts (`[String]::join`).
pub open spec fn join(parts: Seq<Seq<char>>, sep: Seq<char>) -> Seq<char>
    decreases parts.len(),
{
    if parts.len() == 0 {
        seq![]
    } else if parts.len() == 1 {
        parts[0]
    } else {
        join(parts.drop_last(), sep) + sep + parts.last()
    }
}

/// Code of a char after ASCII case folding (`char::to_ascii_lowercase`).
pub open spec fn folded(c: char) -> int {
    let u = c as u32;
    if 65 <= u && u <= 90 {
        u + 32
    } else {
        u as int
    }
}

/// Equality up to ASCII case (`str::eq_ignore_ascii_case`).
pub open spec fn eq_ignore_ascii_case(a: Seq<char>, b: Seq<char>) -> bool {
    a.len() == b.len() && forall|i: int| 0 <= i < a.len() ==> folded(a[i]) == folded(b[i])
}

// ---------------------------------------------------------------------------
// Lemmas
// ---------------------------------------------------------------------------

/// A first match is unique, so `find` returns it.
pub proof fn lemma_find_is(s: Seq<char>, pat: Seq<char>, i: int)
    requires
        is_first_match(s, pat, i),
    ensures
        find(s, pat) == Some(i),
{
    let k = choose|k: int| is_first_match(s, pat, k);
    assert(is_first_match(s, pat, k));
    if k < i {
        assert(!matches_at(s, pat, k));
    } else if i < k {
        assert(!matches_at(s, pat, i));
    }
}

/// Without any match, `find` returns `None`.
pub proof fn lemma_find_none(s: Seq<char>, pat: Seq<char>)
    requires
        forall|j: int| !matches_at(s, pat, j),
    ensures
        find(s, pat) is None,
{
}

/// `find` returns a first match when it returns something.
pub proof fn lemma_find_some(s: Seq<char>, pat: Seq<char>)
    ensures
        find(s, pat) matches Some(i) ==> is_first_match(s, pat, i),
        find(s, pat) is None ==> forall|j: int| !matches_at(s, pat, j),
{
    if find(s, pat) is None {
        assert forall|j: int| !matches_at(s, pat, j) by {
            if matches_at(s, pat, j) {
                lemma_first_match_exists(s, pat, j);
            }
        }
    }
}

/// If `pat` occurs at `j`, a leftmost occurrence exists.
pub proof fn lemma_first_match_exists(s: Seq<char>, pat: Seq<char>, j: int)
    requires
        matches_at(s, pat, j),
    ensures
        exists|i: int| is_first_match(s, pat, i),
    decreases j,
{
    if exists|k: int| 0 <= k < j && matches_at(s, pat, k) {
        let k = choose|k: int| 0 <= k < j && matches_at(s, pat, k);
        lemma_first_match_exists(s, pat, k);
    } else {
        assert(is_first_match(s, pat, j));
    }
}

/// `trim_start` drops a run of leading whitespace: what is left starts with a
/// non-whitespace char, if anything is left.
pub proof fn lemma_trim_start_shape(s: Seq<char>)
    ensures
        exists|a: int| 0 <= a <= s.len() && trim_start(s) == s.skip(a),
        trim_start(s).len() > 0 ==> !is_ws(trim_start(s)[0]),
    decreases s.len(),
{
    if s.len() > 0 && is_ws(s[0]) {
        lemma_trim_start_shape(s.drop_first());
        let a = choose|a: int|
            0 <= a <= s.drop_first().len() && trim_start(s.drop_first()) == s.drop_first().skip(a);
        assert(s.drop_first().skip(a) =~= s.skip(a + 1));
    } else {
        assert(s.skip(0) =~= s);
    }
}

/// `trim_end` drops a run of trailing whitespace: what is left ends with a
/// non-whitespace char, if anything is left, and keeps a non-whitespace first char.
pub proof fn lemma_trim_end_shape(s: Seq<char>)
    ensures
        exists|b: int| 0 <= b <= s.len() && trim_end(s) == s.take(b),
        trim_end(s).len() > 0 ==> !is_ws(trim_end(s).last()),
        s.len() > 0 && !is_ws(s[0]) ==> trim_end(s).len() > 0 && trim_end(s)[0] == s[0],
    decreases s.len(),
{
    if s.len() > 0 && is_ws(s.last()) {
        lemma_trim_end_shape(s.drop_last());
        let b = choose|b: int|
            0 <= b <= s.drop_last().len() && trim_end(s.drop_last()) == s.drop_last().take(b);
        assert(s.drop_last().take(b) =~= s.take(b));
    } else {
        assert(s.take(s.len() as int) =~= s);
    }
}

/// `trim` keeps a stretch of its input that neither starts nor ends with
/// whitespace, so trimming again changes nothing.
pub proof fn lemma_trim_shape(s: Seq<char>)
    ensures
        exists|a: int, b: int| 0 <= a <= b <= s.len() && trim(s) == s.subrange(a, b),
        trim(s).len() > 0 ==> !is_ws(trim(s)[0]) && !is_ws(trim(s).last()),
        trim(trim(s)) == trim(s),
{
    let y = trim_start(s);
    lemma_trim_start_shape(s);
    lemma_trim_end_shape(y);
    let a = choose|a: int| 0 <= a <= s.len() && trim_start(s) == s.skip(a);
    let b = choose|b: int| 0 <= b <= y.len() && trim_end(y) == y.take(b);
    assert(trim(s) =~= s.subrange(a, a + b));
    let t = trim(s);
    if t.len() > 0 {
        assert(t[0] == y[0]);
        assert(trim_start(t) == t);
        assert(trim_end(t) == t);
    } else {
        assert(trim(t) =~= t);
    }
}

/// A char that occurs in no part and not in the separator does not occur in the join.
pub proof fn lemma_join_lacks(parts: Seq<Seq<char>>, sep: Seq<char>, c: char)
    requires
        forall|n: int| 0 <= n < parts.len() ==> forall|i: int|
            0 <= i < (#[trigger] parts[n]).len() ==> parts[n][i] != c,
        forall|i: int| 0 <= i < sep.len() ==> sep[i] != c,
    ensures
        forall|i: int| 0 <= i < join(parts, sep).len() ==> join(parts, sep)[i] != c,
    decreases parts.len(),
{
    if parts.len() == 1 {
        assert(parts[0] == parts[0]);
    } else if parts.len() > 1 {
        let front = parts.drop_last();
        assert forall|n: int| 0 <= n < front.len() implies forall|i: int|
            0 <= i < (#[trigger] front[n]).len() ==> front[n][i] != c by {
            assert(front[n] == parts[n]);
        }
        lemma_join_lacks(front, sep, c);
        let jf = join(front, sep);
        let last = parts.last();
        assert(last == parts[parts.len() - 1]);
        let j = join(parts, sep);
        assert(j == jf + sep + last);
        assert forall|i: int| 0 <= i < j.len() implies j[i] != c by {
            if i < jf.len() {
                assert(j[i] == jf[i]);
            } else if i < jf.len() + sep.len() {
                assert(j[i] == sep[i - jf.len()]);
            } else {
                assert(j[i] == last[i - jf.len() - sep.len()]);
            }
        }
    }
}

/// `join` splits off its first part.
pub proof fn lemma_join_front(parts: Seq<Seq<char>>, sep: Seq<char>)
    requires
        parts.len() >= 2,
    ensures
        join(parts, sep) == parts[0] + sep + join(parts.drop_first(), sep),
    decreases parts.len(),
{
    let dl = parts.drop_last();
    let df = parts.drop_first();
    if parts.len() == 2 {
        assert(join(dl, sep) == dl[0]);
        assert(join(df, sep) == df[0]);
        assert(df[0] == parts.last());
    } else {
        lemma_join_front(dl, sep);
        assert(dl.drop_first() =~= df.drop_last());
        assert(df.last() == parts.last());
        assert(dl[0] == parts[0]);
        assert(join(df, sep) == join(df.drop_last(), sep) + sep + df.last());
        assert(join(parts, sep) == join(dl, sep) + sep + parts.last());
        assert((parts[0] + sep + join(dl.drop_first(), sep)) + sep + parts.last() =~= parts[0]
            + sep + (join(df.drop_last(), sep) + sep + df.last()));
    }
}

// ---------------------------------------------------------------------------
// Executable helpers
// ---------------------------------------------------------------------------

/// `char::is_whitespace`.
pub fn is_whitespace(c: char) -> (r: bool)
    ensures
        r == is_ws(c),
{
    c == '\t' || c == '\n' || c == '\u{0B}' || c == '\u{0C}' || c == '\r' || c == ' '
        || c == '\u{85}' || c == '\u{A0}' || c == '\u{1680}' || ('\u{2000}' <= c && c
        <= '\u{200A}') || c == '\u{2028}' || c == '\u{2029}' || c == '\u{202F}' || c
        == '\u{205F}' || c == '\u{3000}'
}

/// The chars of `s`.
pub fn chars_of(s: &str) -> (r: Vec<char>)
    ensures
        r@ == s@,
{
    let mut r: Vec<char> = Vec::new();
    for c in it: s.chars()
        invariant
            r@ == it.seq().take(it.index() as int),
    {
        r.push(c);
    }
    r
}

/// `String::push`: appends `c`.
#[verifier::external_body]
pub(crate) fn push_char(s: &mut String, c: char)
    ensures
        final(s)@ == old(s)@.push(c),
{
    s.push(c);
}

/// `String::pop`: removes and returns the last char, or returns `None` and leaves the
/// string as it is when it is empty.
#[verifier::external_body]
pub(crate) fn pop_char(s: &mut String) -> (r: Option<char>)
    ensures
        old(s)@.len() == 0 ==> r is None && final(s)@ == old(s)@,
        old(s)@.len() > 0 ==> r == Some(old(s)@.last()) && final(s)@ == old(s)@.drop_last(),
{
    s.pop()
}

/// A `String` holding `s[lo..hi]`.
pub fn string_of(s: &Vec<char>, lo: usize, hi: usize) -> (r: String)
    requires
        lo <= hi <= s.len(),
    ensures
        r@ == s@.subrange(lo as int, hi as int),
{
    let mut r = String::new();
    let mut i = lo;
    while i < hi
        invariant
            lo <= i <= hi <= s.len(),
            r@ == s@.subrange(lo as int, i as int),
        decreases hi - i,
    {
        push_char(&mut r, s[i]);
        i += 1;
        assert(r@ =~= s@.subrange(lo as int, i as int));
    }
    r
}

/// Append all of `t` to `s`.
pub fn push_str(s: &mut String, t: &str)
    ensures
        final(s)@ == old(s)@ + t@,
{
    let cs = chars_of(t);
    let mut i: usize = 0;
    while i < cs.len()
        invariant
            0 <= i <= cs.len(),
            cs@ == t@,
            s@ == old(s)@ + cs@.take(i as int),
        decreases cs.len() - i,
    {
        push_char(s, cs[i]);
        i += 1;
        assert(s@ =~= old(s)@ + cs@.take(i as int));
    }
    assert(cs@.take(cs.len() as int) =~= cs@);
}

/// Text equality of two strings.
pub fn same_text(a: &str, b: &str) -> (r: bool)
    ensures
        r == (a@ == b@),
{
    let x = chars_of(a);
    let y = chars_of(b);
    assert(x@.subrange(0, x.len() as int) =~= x@);
    slice_eq(&x, 0, x.len(), &y)
}

/// `s[lo..hi] == t`.
pub fn slice_eq(s: &Vec<char>, lo: usize, hi: usize, t: &Vec<char>) -> (r: bool)
    requires
        lo <= hi <= s.len(),
    ensures
        r == (s@.subrange(lo as int, hi as int) == t@),
{
    if hi - lo != t.len() {
        return false;
    }
    let mut i: usize = 0;
    while i < t.len()
        invariant
            hi - lo == t.len(),
            lo <= hi <= s.len(),
            0 <= i <= t.len(),
            forall|k: int| 0 <= k < i ==> s@[lo + k] == t@[k],
        decreases t.len() - i,
    {
        if s[lo + i] != t[i] {
            assert(s@.subrange(lo as int, hi as int)[i as int] != t@[i as int]);
            return false;
        }
        i += 1;
    }
    assert(s@.subrange(lo as int, hi as int) =~= t@);
    true
}

/// Range of `s[lo..hi]` with leading and trailing whitespace dropped.
pub fn trim_range(s: &Vec<char>, lo: usize, hi: usize) -> (r: (usize, usize))
    requires
        lo <= hi <= s.len(),
    ensures
        lo <= r.0 <= r.1 <= hi,
        s@.subrange(r.0 as int, r.1 as int) == trim(s@.subrange(lo as int, hi as int)),
        s@.subrange(r.0 as int, hi as int) == trim_start(s@.subrange(lo as int, hi as int)),
{
    let a = trim_start_index(s, lo, hi);
    let b = trim_end_index(s, a, hi);
    (a, b)
}

/// Start of `trim_start(s[lo..hi])`.
pub fn trim_start_index(s: &Vec<char>, lo: usize, hi: usize) -> (a: usize)
    requires
        lo <= hi <= s.len(),
    ensures
        lo <= a <= hi,
        s@.subrange(a as int, hi as int) == trim_start(s@.subrange(lo as int, hi as int)),
{
    let mut a = lo;
    while a < hi && is_whitespace(s[a])
        invariant
            lo <= a <= hi <= s.len(),
            trim_start(s@.subrange(lo as int, hi as int)) == trim_start(
                s@.subrange(a as int, hi as int),
            ),
        decreases hi - a,
    {
        assert(s@.subrange(a as int, hi as int).drop_first() =~= s@.subrange(
            a + 1,
            hi as int,
        ));
        a += 1;
    }
    a
}

/// End of `trim_end(s[lo..hi])`.
pub fn trim_end_index(s: &Vec<char>, lo: usize, hi: usize) -> (b: usize)
    requires
        lo <= hi <= s.len(),
    ensures
        lo <= b <= hi,
        s@.subrange(lo as int, b as int) == trim_end(s@.subrange(lo as int, hi as int)),
{
    let mut b = hi;
    while b > lo && is_whitespace(s[b - 1])
        invariant
            lo <= b <= hi <= s.len(),
            trim_end(s@.subrange(lo as int, hi as int)) == trim_end(
                s@.subrange(lo as int, b as int),
            ),
        decreases b - lo,
    {
        assert(s@.subrange(lo as int, b as int).drop_last() =~= s@.subrange(
            lo as int,
            b - 1,
        ));
        b -= 1;
    }
    b
}

/// Leftmost occurrence of `pat` in `s[lo..hi]`, as an absolute index.
pub fn find_in(s: &Vec<char>, lo: usize, hi: usize, pat: &Vec<char>) -> (r: Option<usize>)
    requires
        lo <= hi <= s.len(),
    ensures
        match r {
            Some(i) => lo <= i && i + pat.len() <= hi && find(
                s@.subrange(lo as int, hi as int),
                pat@,
            ) == Some(i - lo),
            None => find(s@.subrange(lo as int, hi as int), pat@) is None,
        },
{
    let ghost sub = s@.subrange(lo as int, hi as int);
    if pat.len() > hi - lo {
        proof {
            lemma_find_none(sub, pat@);
        }
        return None;
    }
    if pat.len() == 0 {
        proof {
            assert(sub.subrange(0, 0) =~= pat@);
            assert(is_first_match(sub, pat@, 0));
            lemma_find_is(sub, pat@, 0);
        }
        return Some(lo);
    }
    let last = hi - pat.len();
    let mut i = lo;
    while i <= last
        invariant
            lo <= i <= last + 1,
            last + pat.len() == hi,
            pat.len() > 0,
            lo <= hi <= s.len(),
            sub == s@.subrange(lo as int, hi as int),
            forall|j: int| 0 <= j < i - lo ==> !matches_at(sub, pat@, j),
        decreases last + 1 - i,
    {
        if slice_eq(s, i, i + pat.len(), pat) {
            assert(sub.subrange(i - lo, i - lo + pat.len()) =~= s@.subrange(
                i as int,
                i + pat.len(),
            ));
            assert(is_first_match(sub, pat@, i - lo));
            proof {
                lemma_find_is(sub, pat@, i - lo);
            }
            return Some(i);
        }
        assert(sub.subrange(i - lo, i - lo + pat.len()) =~= s@.subrange(
            i as int,
            i + pat.len(),
        ));
        i += 1;
    }
    proof {
        assert forall|j: int| !matches_at(sub, pat@, j) by {
            if 0 <= j && j + pat.len() <= sub.len() {
                assert(j < i - lo);
            }
        }
        lemma_find_none(sub, pat@);
    }
    None
}

/// Leftmost occurrence of the char `c` in `s[lo..hi]`, as an absolute index.
pub fn find_char(s: &Vec<char>, lo: usize, hi: usize, c: char) -> (r: Option<usize>)
    requires
        lo <= hi <= s.len(),
    ensures
        match r {
            Some(i) => lo <= i < hi && s@[i as int] == c && find(
                s@.subrange(lo as int, hi as int),
                seq![c],
            ) == Some(i - lo),
            None => find(s@.subrange(lo as int, hi as int), seq![c]) is None,
        },
{
    let mut pat: Vec<char> = Vec::new();
    pat.push(c);
    assert(pat@ =~= seq![c]);
    let r = find_in(s, lo, hi, &pat);
    match r {
        Some(i) => {
            proof {
                lemma_find_some(s@.subrange(lo as int, hi as int), seq![c]);
                assert(s@.subrange(lo as int, hi as int).subrange(i - lo, i - lo + 1)[0]
                    == s@[i as int]);
            }
        },
        None => {},
    }
    r
}


/// The texts of index ranges into `s`.
pub open spec fn range_texts(s: Seq<char>, rs: Seq<(usize, usize)>) -> Seq<Seq<char>> {
    Seq::new(rs.len(), |k: int| s.subrange(rs[k].0 as int, rs[k].1 as int))
}

/// All ranges lie inside `[lo, hi)`.
pub open spec fn ranges_within(rs: Seq<(usize, usize)>, lo: int, hi: int) -> bool {
    forall|k: int| 0 <= k < rs.len() ==> lo <= #[trigger] rs[k].0 <= rs[k].1 <= hi
}

/// Ranges of the lines of `s[lo..hi]` (`str::lines`).
pub fn line_ranges(s: &Vec<char>, lo: usize, hi: usize) -> (r: Vec<(usize, usize)>)
    requires
        lo <= hi <= s.len(),
    ensures
        range_texts(s@, r@) == lines(s@.subrange(lo as int, hi as int)),
        ranges_within(r@, lo as int, hi as int),
{
    let mut r: Vec<(usize, usize)> = Vec::new();
    let mut pos = lo;
    while pos < hi
        invariant
            lo <= pos <= hi <= s.len(),
            lines(s@.subrange(lo as int, hi as int)) == range_texts(s@, r@) + lines(
                s@.subrange(pos as int, hi as int),
            ),
            ranges_within(r@, lo as int, hi as int),
        decreases hi - pos,
    {
        let ghost sub = s@.subrange(pos as int, hi as int);
        let ghost before = r@;
        match find_char(s, pos, hi, '\n') {
            Some(i) => {
                let end = if i > pos && s[i - 1] == '\r' {
                    i - 1
                } else {
                    i
                };
                proof {
                    lemma_find_some(sub, seq!['\n']);
                    assert(sub.take(i - pos) =~= s@.subrange(pos as int, i as int));
                    assert(sub.skip(i - pos + 1) =~= s@.subrange(i + 1, hi as int));
                    if i > pos && s@[i - 1] == '\r' {
                        assert(s@.subrange(pos as int, i as int).drop_last() =~= s@.subrange(
                            pos as int,
                            end as int,
                        ));
                    }
                    assert(line_of(sub.take(i - pos)) == s@.subrange(pos as int, end as int));
                }
                r.push((pos, end));
                pos = i + 1;
                proof {
                    assert(range_texts(s@, r@) =~= range_texts(s@, before) + seq![
                        s@.subrange(r@.last().0 as int, r@.last().1 as int),
                    ]);
                }
            },
            None => {
                r.push((pos, hi));
                pos = hi;
                proof {
                    assert(range_texts(s@, r@) =~= range_texts(s@, before) + seq![sub]);
                    assert(lines(s@.subrange(pos as int, hi as int)) =~= seq![]);
                }
            },
        }
    }
    proof {
        assert(s@.subrange(pos as int, hi as int) =~= seq![]);
        assert(range_texts(s@, r@) + seq![] =~= range_texts(s@, r@));
    }
    r
}


/// Value of a run of decimal digits.
pub open spec fn digits_value(ds: Seq<char>) -> int
    decreases ds.len(),
{
    if ds.len() == 0 {
        0
    } else {
        digits_value(ds.drop_last()) * 10 + (ds.last() as int - '0' as int)
    }
}

/// All chars are ASCII digits.
pub open spec fn all_digits(ds: Seq<char>) -> bool {
    forall|i: int| 0 <= i < ds.len() ==> '0' <= #[trigger] ds[i] && ds[i] <= '9'
}

/// `str::parse::<i64>`: an optional `+`/`-` sign, then at least one ASCII digit, and
/// the value must fit.
pub open spec fn parse_i64_spec(s: Seq<char>) -> Option<i64> {
    if s.len() == 0 {
        None
    } else {
        let ds = if s[0] == '-' || s[0] == '+' {
            s.drop_first()
        } else {
            s
        };
        let v = if s[0] == '-' {
            -digits_value(ds)
        } else {
            digits_value(ds)
        };
        if ds.len() == 0 || !all_digits(ds) || v < i64::MIN || v > i64::MAX {
            None
        } else {
            Some(v as i64)
        }
    }
}

proof fn lemma_digits_nonneg_mono(ds: Seq<char>, k: int)
    requires
        all_digits(ds),
        0 <= k <= ds.len(),
    ensures
        0 <= digits_value(ds.take(k)) <= digits_value(ds),
    decreases ds.len(),
{
    if ds.len() > 0 {
        assert(all_digits(ds.drop_last()));
        if k == ds.len() {
            assert(ds.take(k) =~= ds);
            lemma_digits_nonneg_mono(ds.drop_last(), ds.len() - 1);
            assert(ds.drop_last().take(ds.len() - 1) =~= ds.drop_last());
        } else {
            lemma_digits_nonneg_mono(ds.drop_last(), k);
            assert(ds.drop_last().take(k) =~= ds.take(k));
            lemma_digits_nonneg_mono(ds.drop_last(), ds.len() - 1);
            assert(ds.drop_last().take(ds.len() - 1) =~= ds.drop_last());
        }
    } else {
        assert(ds.take(k) =~= ds);
    }
}

/// `parse_i64_spec(cs[lo..hi])`.
pub fn parse_i64(cs: &Vec<char>, lo: usize, hi: usize) -> (r: Option<i64>)
    requires
        lo <= hi <= cs.len(),
    ensures
        r == parse_i64_spec(cs@.subrange(lo as int, hi as int)),
{
    let ghost s = cs@.subrange(lo as int, hi as int);
    if lo == hi {
        return None;
    }
    let neg = cs[lo] == '-';
    let start = if cs[lo] == '-' || cs[lo] == '+' {
        lo + 1
    } else {
        lo
    };
    let ghost ds = cs@.subrange(start as int, hi as int);
    assert(ds =~= (if s[0] == '-' || s[0] == '+' {
        s.drop_first()
    } else {
        s
    }));
    if start == hi {
        return None;
    }
    let mut acc: i128 = 0;
    let mut i = start;
    while i < hi
        invariant
            start <= i <= hi <= cs.len(),
            lo < hi,
            s == cs@.subrange(lo as int, hi as int),
            ds == cs@.subrange(start as int, hi as int),
            ds == (if s[0] == '-' || s[0] == '+' {
                s.drop_first()
            } else {
                s
            }),
            neg == (s[0] == '-'),
            ds.len() > 0,
            all_digits(ds.take(i - start)),
            acc == digits_value(ds.take(i - start)),
            0 <= acc <= 9223372036854775808,
        decreases hi - i,
    {
        let c = cs[i];
        if c < '0' || c > '9' {
            assert(ds[i - start] == c);
            return None;
        }
        proof {
            assert(ds.take(i - start + 1).drop_last() =~= ds.take(i - start));
            assert(ds.take(i - start + 1).last() == c);
            assert(all_digits(ds.take(i - start + 1)));
        }
        let d = ((c as u32) - ('0' as u32)) as i128;
        acc = acc * 10 + d;
        i += 1;
        if acc > 9223372036854775808 {
            proof {
                if all_digits(ds) {
                    lemma_digits_nonneg_mono(ds, i - start);
                }
            }
            return None;
        }
    }
    assert(ds.take(hi - start) =~= ds);
    if neg {
        Some((0 - acc) as i64)
    } else if acc > 9223372036854775807 {
        None
    } else {
        Some(acc as i64)
    }
}


/// `str::eq_ignore_ascii_case`.
pub fn same_ignoring_ascii_case(a: &str, b: &str) -> (r: bool)
    ensures
        r == eq_ignore_ascii_case(a@, b@),
{
    let x = chars_of(a);
    let y = chars_of(b);
    if x.len() != y.len() {
        return false;
    }
    let mut i: usize = 0;
    while i < x.len()
        invariant
            0 <= i <= x.len(),
            x.len() == y.len(),
            x@ == a@,
            y@ == b@,
            forall|j: int| 0 <= j < i ==> folded(x@[j]) == folded(y@[j]),
        decreases x.len() - i,
    {
        let p = x[i] as u32;
        let q = y[i] as u32;
        let fp = if 65 <= p && p <= 90 {
            p + 32
        } else {
            p
        };
        let fq = if 65 <= q && q <= 90 {
            q + 32
        } else {
            q
        };
        if fp != fq {
            return false;
        }
        i += 1;
    }
    true
}

/// Every non-overlapping occurrence of `pat` in `s` replaced by `rep` (`str::replace`).
pub fn replace_all(s: &str, pat: &str, rep: &str) -> (r: String)
    requires
        pat@.len() > 0,
    ensures
        r@ == replace(s@, pat@, rep@),
{
    let cs = chars_of(s);
    let ps = chars_of(pat);
    let mut out = String::new();
    let mut i: usize = 0;
    assert(cs@.skip(0) =~= cs@);
    while i < cs.len()
        invariant
            0 <= i <= cs.len(),
            cs@ == s@,
            ps@ == pat@,
            ps@.len() > 0,
            replace(s@, pat@, rep@) == out@ + replace(cs@.skip(i as int), pat@, rep@),
        decreases cs.len() - i,
    {
        let ghost rest = cs@.skip(i as int);
        let ghost before = out@;
        if ps.len() <= cs.len() - i && slice_eq(&cs, i, i + ps.len(), &ps) {
            proof {
                assert(rest.take(ps.len() as int) =~= cs@.subrange(i as int, i + ps.len()));
                assert(rest.skip(ps.len() as int) =~= cs@.skip(i + ps.len()));
            }
            push_str(&mut out, rep);
            i += ps.len();
            assert(before + replace(rest, pat@, rep@) =~= out@ + replace(
                cs@.skip(i as int),
                pat@,
                rep@,
            ));
        } else {
            proof {
                if starts_with(rest, pat@) {
                    assert(rest.take(ps.len() as int) =~= cs@.subrange(i as int, i + ps.len()));
                }
                assert(rest.drop_first() =~= cs@.skip(i + 1));
            }
            push_char(&mut out, cs[i]);
            i += 1;
            assert(before + replace(rest, pat@, rep@) =~= out@ + replace(
                cs@.skip(i as int),
                pat@,
                rep@,
            ));
        }
    }
    assert(cs@.skip(i as int) =~= Seq::<char>::empty());
    assert(out@ + Seq::<char>::empty() =~= out@);
    out
}

/// `parts.join(sep)`.
pub fn join_strings(parts: &Vec<String>, sep: &str) -> (r: String)
    ensures
        r@ == join(texts(parts@), sep@),
{
    let ghost ts = texts(parts@);
    let mut out = String::new();
    let mut k: usize = 0;
    while k < parts.len()
        invariant
            0 <= k <= parts.len(),
            ts == texts(parts@),
            out@ == join(ts.take(k as int), sep@),
        decreases parts.len() - k,
    {
        proof {
            assert(ts.take(k + 1).drop_last() =~= ts.take(k as int));
            assert(ts.take(k + 1).last() == parts@[k as int]@);
        }
        if k > 0 {
            push_str(&mut out, sep);
        } else {
            assert(out@ =~= Seq::<char>::empty());
        }
        push_str(&mut out, parts[k].as_str());
        proof {
            if k == 0 {
                assert(ts.take(1).len() == 1);
                assert(out@ =~= ts.take(1)[0]);
            }
        }
        k += 1;
    }
    assert(ts.take(parts.len() as int) =~= ts);
    out
}

/// The decimal digit for `d` (`0..=9`).
pub open spec fn digit_char(d: nat) -> char {
    if d == 0 {
        '0'
    } else if d == 1 {
        '1'
    } else if d == 2 {
        '2'
    } else if d == 3 {
        '3'
    } else if d == 4 {
        '4'
    } else if d == 5 {
        '5'
    } else if d == 6 {
        '6'
    } else if d == 7 {
        '7'
    } else if d == 8 {
        '8'
    } else {
        '9'
    }
}

/// `n` written in decimal, as `{}` formats an unsigned integer.
pub open spec fn decimal(n: nat) -> Seq<char>
    decreases n,
{
    if n < 10 {
        seq![digit_char(n)]
    } else {
        decimal(n / 10).push(digit_char(n % 10))
    }
}

/// Append `n` written in decimal.
pub fn push_decimal(s: &mut String, n: u128)
    ensures
        final(s)@ == old(s)@ + decimal(n as nat),
    decreases n,
{
    if n >= 10 {
        push_decimal(s, n / 10);
    }
    let d = n % 10;
    let c = if d == 0 {
        '0'
    } else if d == 1 {
        '1'
    } else if d == 2 {
        '2'
    } else if d == 3 {
        '3'
    } else if d == 4 {
        '4'
    } else if d == 5 {
        '5'
    } else if d == 6 {
        '6'
    } else if d == 7 {
        '7'
    } else if d == 8 {
        '8'
    } else {
        '9'
    };
    push_char(s, c);
    assert(s@ =~= old(s)@ + decimal(n as nat));
}

} // verus!
