//! Parsing of a collection's `.env` file (Bruno-compatible secrets).
use vstd::prelude::*;

use crate::text::{
    chars_of, find_char, is_whitespace, is_ws, line_ranges, lines, push_char, range_texts,
    ranges_within, slice_eq, split_once, starts_with, string_of, trim, trim_end, trim_end_index,
    trim_range, trim_start, trim_start_index,
};
use crate::varmap::VarMap;

verus! {

/// The content inside a matching pair of `quote` chars, if `raw` is wrapped in them.
pub open spec fn strip_quotes_spec(raw: Seq<char>, quote: char) -> Option<Seq<char>> {
    if raw.len() >= 2 && raw[0] == quote && raw.last() == quote {
        Some(raw.subrange(1, raw.len() - 1))
    } else {
        None
    }
}

/// An inline comment starts at `j`: a whitespace char followed by `#`.
pub open spec fn comment_at(raw: Seq<char>, j: int) -> bool {
    0 <= j && j + 1 < raw.len() && is_ws(raw[j]) && raw[j + 1] == '#'
}

/// `j` is where the first inline comment starts.
pub open spec fn first_comment_at(raw: Seq<char>, j: int) -> bool {
    comment_at(raw, j) && forall|k: int| 0 <= k < j ==> !comment_at(raw, k)
}

/// `raw` cut before the first inline comment: whitespace then `#`.
pub open spec fn strip_inline_comment_spec(raw: Seq<char>) -> Seq<char> {
    if exists|j: int| first_comment_at(raw, j) {
        raw.take(choose|j: int| first_comment_at(raw, j))
    } else {
        raw
    }
}

/// The char a backslash escape stands for, or `None` when it is kept verbatim.
pub open spec fn escape_of(c: char) -> Option<char> {
    if c == 'n' {
        Some('\n')
    } else if c == 'r' {
        Some('\r')
    } else if c == 't' {
        Some('\t')
    } else if c == '\\' {
        Some('\\')
    } else if c == '"' {
        Some('"')
    } else {
        None
    }
}

/// Expansion of `\n`, `\r`, `\t`, `\\` and `\"` escapes; any other backslash is kept.
pub open spec fn unescape_spec(s: Seq<char>) -> Seq<char>
    decreases s.len(),
{
    if s.len() == 0 {
        seq![]
    } else if s[0] != '\\' {
        seq![s[0]] + unescape_spec(s.drop_first())
    } else if s.len() == 1 {
        seq!['\\']
    } else {
        match escape_of(s[1]) {
            Some(e) => seq![e] + unescape_spec(s.skip(2)),
            None => seq!['\\', s[1]] + unescape_spec(s.skip(2)),
        }
    }
}

/// The value of an assignment: double quotes honour escapes, single quotes are
/// literal, and bare values lose a trailing comment introduced by whitespace then `#`.
pub open spec fn parse_value_spec(raw: Seq<char>) -> Seq<char> {
    match strip_quotes_spec(raw, '"') {
        Some(inner) => unescape_spec(inner),
        None => match strip_quotes_spec(raw, '\'') {
            Some(inner) => inner,
            None => trim_end(strip_inline_comment_spec(raw)),
        },
    }
}

/// How a char is written inside a double-quoted value: a backslash, a double quote and
/// the control chars newline, carriage return and tab take a backslash escape; any other
/// char stands for itself.
pub open spec fn escaped_char(c: char) -> Seq<char> {
    if c == '\\' {
        seq!['\\', '\\']
    } else if c == '"' {
        seq!['\\', '"']
    } else if c == '\n' {
        seq!['\\', 'n']
    } else if c == '\r' {
        seq!['\\', 'r']
    } else if c == '\t' {
        seq!['\\', 't']
    } else {
        seq![c]
    }
}

/// A text written with backslash escapes, char by char.
pub open spec fn escaped(s: Seq<char>) -> Seq<char>
    decreases s.len(),
{
    if s.len() == 0 {
        seq![]
    } else {
        escaped_char(s[0]) + escaped(s.drop_first())
    }
}

/// Escapes are undone: a text written with backslash escapes reads back as the text
/// itself, so `\"` stands for `"`, `\\` for `\`, `\n` for a newline and so on.
pub proof fn lemma_unescape_undoes_escapes(s: Seq<char>)
    ensures
        unescape_spec(escaped(s)) == s,
    decreases s.len(),
{
    if s.len() > 0 {
        let c = s[0];
        let rest = s.drop_first();
        let e = escaped(s);
        lemma_unescape_undoes_escapes(rest);
        assert(e == escaped_char(c) + escaped(rest));
        if escaped_char(c).len() == 2 {
            assert(e[0] == '\\');
            assert(e[1] == escaped_char(c)[1]);
            assert(e.skip(2) =~= escaped(rest));
            assert(escape_of(e[1]) == Some(c));
            assert(s =~= seq![c] + rest);
        } else {
            assert(e[0] == c);
            assert(e.drop_first() =~= escaped(rest));
            assert(s =~= seq![c] + rest);
        }
    }
}

/// A text without backslashes is read as it stands.
pub proof fn lemma_unescape_plain(s: Seq<char>)
    requires
        forall|i: int| 0 <= i < s.len() ==> s[i] != '\\',
    ensures
        unescape_spec(s) == s,
    decreases s.len(),
{
    if s.len() > 0 {
        lemma_unescape_plain(s.drop_first());
        assert(s =~= seq![s[0]] + s.drop_first());
    }
}

/// A backslash before any char other than `n`, `r`, `t`, a backslash or a double quote
/// is no escape: both chars are kept as written.
pub proof fn lemma_unknown_escape_kept(x: char, rest: Seq<char>)
    requires
        x != 'n' && x != 'r' && x != 't' && x != '\\' && x != '"',
    ensures
        unescape_spec(seq!['\\', x] + rest) == seq!['\\', x] + unescape_spec(rest),
{
    let s = seq!['\\', x] + rest;
    assert(s.skip(2) =~= rest);
}

/// A lone backslash at the end is kept.
pub proof fn lemma_trailing_backslash_kept(s: Seq<char>)
    requires
        forall|i: int| 0 <= i < s.len() ==> s[i] != '\\',
    ensures
        unescape_spec(s + seq!['\\']) == s + seq!['\\'],
    decreases s.len(),
{
    if s.len() > 0 {
        lemma_trailing_backslash_kept(s.drop_first());
        assert((s + seq!['\\']).drop_first() =~= s.drop_first() + seq!['\\']);
        assert(s + seq!['\\'] =~= seq![s[0]] + (s.drop_first() + seq!['\\']));
    }
}

/// A double-quoted value written with backslash escapes is the text it escapes.
pub proof fn lemma_double_quoted_value(s: Seq<char>)
    ensures
        parse_value_spec(seq!['"'] + escaped(s) + seq!['"']) == s,
{
    let raw = seq!['"'] + escaped(s) + seq!['"'];
    assert(raw.subrange(1, raw.len() - 1) =~= escaped(s));
    lemma_unescape_undoes_escapes(s);
}

/// The `KEY=VALUE` assignment one line holds, if any: blank lines, `#` comments,
/// lines without `=` and empty keys hold none; an `export ` prefix is ignored.
pub open spec fn assignment(line: Seq<char>) -> Option<(Seq<char>, Seq<char>)> {
    let t = trim(line);
    if t.len() == 0 || t[0] == '#' {
        None
    } else {
        let l = if starts_with(t, "export "@) {
            trim_start(t.skip("export "@.len() as int))
        } else {
            t
        };
        match split_once(l, '=') {
            None => None,
            Some((k, v)) => if trim(k).len() == 0 {
                None
            } else {
                Some((trim(k), parse_value_spec(trim(v))))
            },
        }
    }
}

/// The variables a sequence of lines assigns; a later assignment to a key wins.
pub open spec fn assignments(ls: Seq<Seq<char>>) -> Map<Seq<char>, Seq<char>>
    decreases ls.len(),
{
    if ls.len() == 0 {
        Map::empty()
    } else {
        match assignment(ls.last()) {
            Some((k, v)) => assignments(ls.drop_last()).insert(k, v),
            None => assignments(ls.drop_last()),
        }
    }
}

/// A later assignment to a key wins: the key holds the value of the last line that
/// assigns it, and keys no line assigns are absent.
pub proof fn lemma_last_assignment_wins(ls: Seq<Seq<char>>, j: int, key: Seq<char>)
    requires
        0 <= j < ls.len(),
        assignment(ls[j]) matches Some((k, _)) && k == key,
        forall|m: int| j < m < ls.len() ==> !(assignment(#[trigger] ls[m]) matches Some((k2, _)) && k2 == key),
    ensures
        assignments(ls).contains_key(key),
        assignments(ls)[key] == (assignment(ls[j])->0).1,
    decreases ls.len(),
{
    if j < ls.len() - 1 {
        let rest = ls.drop_last();
        assert forall|m: int| j < m < rest.len() implies !(assignment(#[trigger] rest[m]) matches Some((k2, _)) && k2 == key) by {
            assert(rest[m] == ls[m]);
        }
        lemma_last_assignment_wins(rest, j, key);
        assert(!(assignment(ls[ls.len() - 1]) matches Some((k2, _)) && k2 == key));
    }
}

/// A key is defined only by a line that assigns it.
pub proof fn lemma_unassigned_absent(ls: Seq<Seq<char>>, key: Seq<char>)
    requires
        forall|m: int| 0 <= m < ls.len() ==> !(assignment(#[trigger] ls[m]) matches Some((k2, _)) && k2 == key),
    ensures
        !assignments(ls).contains_key(key),
    decreases ls.len(),
{
    if ls.len() > 0 {
        let rest = ls.drop_last();
        assert forall|m: int| 0 <= m < rest.len() implies !(assignment(#[trigger] rest[m]) matches Some((k2, _)) && k2 == key) by {
            assert(rest[m] == ls[m]);
        }
        lemma_unassigned_absent(rest, key);
        assert(!(assignment(ls[ls.len() - 1]) matches Some((k2, _)) && k2 == key));
    }
}

/// The variables a `.env` file defines.
pub open spec fn dotenv_spec(input: Seq<char>) -> Map<Seq<char>, Seq<char>> {
    assignments(lines(input))
}

/// Parse the contents of a `.env` file. Supports `KEY=VALUE` lines, `#` comments, an
/// optional `export ` prefix, and single/double-quoted values. Double-quoted values
/// honour `\n`, `\r`, `\t`, `\\` and `\"` escapes; unquoted values drop a trailing
/// comment introduced by whitespace then `#`. Later assignments to the same key win.
pub fn parse(input: &str) -> (r: VarMap)
    ensures
        r@ == dotenv_spec(input@),
{
    let cs = chars_of(input);
    assert(cs@.subrange(0, cs.len() as int) =~= cs@);
    let ranges = line_ranges(&cs, 0, cs.len());
    let ghost ls = lines(cs@);
    let mut values = VarMap::new();
    let mut k: usize = 0;
    while k < ranges.len()
        invariant
            0 <= k <= ranges.len(),
            range_texts(cs@, ranges@) == ls,
            ranges_within(ranges@, 0, cs.len() as int),
            values@ == assignments(ls.take(k as int)),
        decreases ranges.len() - k,
    {
        let (lo, hi) = ranges[k];
        assert(ls[k as int] == cs@.subrange(lo as int, hi as int));
        assert(ls.take(k + 1).drop_last() =~= ls.take(k as int));
        assert(ls.take(k + 1).last() == ls[k as int]);
        match line_assignment(&cs, lo, hi) {
            Some((key, value)) => {
                values.insert(key, value);
            },
            None => {},
        }
        k += 1;
    }
    assert(ls.take(ranges.len() as int) =~= ls);
    values
}

/// The assignment held by the line `cs[lo..hi]`.
fn line_assignment(cs: &Vec<char>, lo: usize, hi: usize) -> (r: Option<(String, String)>)
    requires
        lo <= hi <= cs.len(),
    ensures
        match assignment(cs@.subrange(lo as int, hi as int)) {
            Some((k, v)) => r matches Some(p) && p.0@ == k && p.1@ == v,
            None => r is None,
        },
{
    let ghost line = cs@.subrange(lo as int, hi as int);
    let (a, b) = trim_range(cs, lo, hi);
    let ghost t = cs@.subrange(a as int, b as int);
    if a == b {
        return None;
    }
    if cs[a] == '#' {
        return None;
    }
    let export = chars_of("export ");
    let mut start = a;
    if b - a >= export.len() && slice_eq(cs, a, a + export.len(), &export) {
        assert(t.take(export.len() as int) =~= cs@.subrange(a as int, a + export.len()));
        assert(t.skip(export.len() as int) =~= cs@.subrange(a + export.len(), b as int));
        start = trim_start_index(cs, a + export.len(), b);
    } else {
        assert(!starts_with(t, "export "@)) by {
            if starts_with(t, "export "@) {
                assert(t.take(export.len() as int) =~= cs@.subrange(
                    a as int,
                    a + export.len(),
                ));
            }
        }
    }
    let ghost l = cs@.subrange(start as int, b as int);
    match find_char(cs, start, b, '=') {
        None => None,
        Some(e) => {
            assert(l.take(e - start) =~= cs@.subrange(start as int, e as int));
            assert(l.skip(e - start + 1) =~= cs@.subrange(e + 1, b as int));
            let (ka, kb) = trim_range(cs, start, e);
            if ka == kb {
                return None;
            }
            let (va, vb) = trim_range(cs, e + 1, b);
            let key = string_of(cs, ka, kb);
            let value = parse_value(cs, va, vb);
            Some((key, value))
        },
    }
}

/// `parse_value_spec(cs[lo..hi])`.
fn parse_value(cs: &Vec<char>, lo: usize, hi: usize) -> (r: String)
    requires
        lo <= hi <= cs.len(),
    ensures
        r@ == parse_value_spec(cs@.subrange(lo as int, hi as int)),
{
    let ghost raw = cs@.subrange(lo as int, hi as int);
    if hi - lo >= 2 && cs[lo] == '"' && cs[hi - 1] == '"' {
        assert(raw.subrange(1, raw.len() - 1) =~= cs@.subrange(lo + 1, hi - 1));
        return unescape(cs, lo + 1, hi - 1);
    }
    if hi - lo >= 2 && cs[lo] == '\'' && cs[hi - 1] == '\'' {
        assert(raw.subrange(1, raw.len() - 1) =~= cs@.subrange(lo + 1, hi - 1));
        return string_of(cs, lo + 1, hi - 1);
    }
    let mut end = hi;
    let mut j = lo;
    while end == hi && j < hi && hi - j > 1
        invariant
            lo <= j <= hi,
            hi <= cs.len(),
            raw == cs@.subrange(lo as int, hi as int),
            end == hi ==> forall|k: int| 0 <= k < j - lo ==> !comment_at(raw, k),
            end != hi ==> lo <= end < hi && first_comment_at(raw, end - lo),
        decreases hi - j, (if end == hi { 1int } else { 0int }),
    {
        if is_whitespace(cs[j]) && cs[j + 1] == '#' {
            assert(comment_at(raw, j - lo));
            end = j;
        } else {
            j += 1;
        }
    }
    proof {
        if end == hi {
            assert forall|k: int| !first_comment_at(raw, k) by {
                if first_comment_at(raw, k) {
                    assert(k < j - lo);
                }
            }
        } else {
            let c = choose|k: int| first_comment_at(raw, k);
            if c < end - lo {
                assert(!comment_at(raw, c));
            } else if c > end - lo {
                assert(!comment_at(raw, end - lo));
            }
        }
        assert(strip_inline_comment_spec(raw) =~= cs@.subrange(lo as int, end as int));
    }
    let b = trim_end_index(cs, lo, end);
    string_of(cs, lo, b)
}

/// `unescape_spec(cs[lo..hi])`.
fn unescape(cs: &Vec<char>, lo: usize, hi: usize) -> (r: String)
    requires
        lo <= hi <= cs.len(),
    ensures
        r@ == unescape_spec(cs@.subrange(lo as int, hi as int)),
{
    let mut out = String::new();
    let mut i = lo;
    while i < hi
        invariant
            lo <= i <= hi <= cs.len(),
            out@ + unescape_spec(cs@.subrange(i as int, hi as int)) == unescape_spec(
                cs@.subrange(lo as int, hi as int),
            ),
        decreases hi - i,
    {
        let ghost rest = cs@.subrange(i as int, hi as int);
        let ghost before = out@;
        let c = cs[i];
        if c != '\\' {
            push_char(&mut out, c);
            assert(rest.drop_first() =~= cs@.subrange(i + 1, hi as int));
            i += 1;
            assert(out@ + unescape_spec(cs@.subrange(i as int, hi as int)) =~= before
                + unescape_spec(rest));
        } else if i + 1 == hi {
            push_char(&mut out, '\\');
            i += 1;
            assert(cs@.subrange(i as int, hi as int) =~= seq![]);
            assert(out@ + unescape_spec(cs@.subrange(i as int, hi as int)) =~= before
                + unescape_spec(rest));
        } else {
            let next = cs[i + 1];
            if next == 'n' {
                push_char(&mut out, '\n');
            } else if next == 'r' {
                push_char(&mut out, '\r');
            } else if next == 't' {
                push_char(&mut out, '\t');
            } else if next == '\\' {
                push_char(&mut out, '\\');
            } else if next == '"' {
                push_char(&mut out, '"');
            } else {
                push_char(&mut out, '\\');
                push_char(&mut out, next);
            }
            assert(rest.skip(2) =~= cs@.subrange(i + 2, hi as int));
            i += 2;
            assert(out@ + unescape_spec(cs@.subrange(i as int, hi as int)) =~= before
                + unescape_spec(rest));
        }
    }
    assert(cs@.subrange(i as int, hi as int) =~= seq![]);
    assert(out@ + seq![] =~= out@);
    out
}

} // verus!
