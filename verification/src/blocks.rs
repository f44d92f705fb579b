//! Tokenizing a `.bru` document into its top-level blocks, and the dedenting of
//! brace-block bodies.
use vstd::prelude::*;
use vstd::utf8::{encode_scalar, encode_utf8};

use crate::text::{
    is_whitespace, is_ws, join, lemma_join_front, line_ranges, lines, range_texts, ranges_within, trim, trim_end,
    trim_start, trim_start_index,
};

verus! {

broadcast use vstd::utf8::char_is_scalar;

// ---------------------------------------------------------------------------
// Tokenizer specification
// ---------------------------------------------------------------------------

/// Delimiters of a block.
#[derive(Debug, Clone, Copy, PartialEq, Eq, Structural)]
pub enum BlockKind {
    Braces,
    Brackets,
}

/// A block as text: name, delimiters and body.
pub struct BlockView {
    pub name: Seq<char>,
    pub kind: BlockKind,
    pub body: Seq<char>,
}

/// Chars allowed in a block name (`meta`, `body:json`, `params:path`, ...).
pub open spec fn is_name_char_spec(c: char) -> bool {
    ||| ('0' <= c && c <= '9')
    ||| ('a' <= c && c <= 'z')
    ||| ('A' <= c && c <= 'Z')
    ||| c == ':'
    ||| c == '_'
    ||| c == '-'
    ||| c == '.'
}

/// End of the run of name chars starting at `i`.
pub open spec fn name_end(s: Seq<char>, i: int) -> int
    decreases s.len() - i,
{
    if 0 <= i < s.len() && is_name_char_spec(s[i]) {
        name_end(s, i + 1)
    } else {
        i
    }
}

/// End of the run of whitespace starting at `i`.
pub open spec fn ws_end(s: Seq<char>, i: int) -> int
    decreases s.len() - i,
{
    if 0 <= i < s.len() && is_ws(s[i]) {
        ws_end(s, i + 1)
    } else {
        i
    }
}

/// The delimited content of a block: starting at `i` with nesting `depth`, inside a
/// double-quoted string or not (and just after a backslash in it or not), having
/// collected `acc`; yields the content (outermost delimiters excluded) and the index
/// just past the matching close delimiter. Delimiters inside strings do not count.
pub open spec fn capture(
    s: Seq<char>,
    i: int,
    open: char,
    close: char,
    depth: int,
    in_string: bool,
    escaped: bool,
    acc: Seq<char>,
) -> (Seq<char>, int)
    decreases s.len() - i,
{
    if i < 0 || i >= s.len() {
        (acc, i)
    } else {
        let ch = s[i];
        if in_string {
            if escaped {
                capture(s, i + 1, open, close, depth, true, false, acc.push(ch))
            } else if ch == '\\' {
                capture(s, i + 1, open, close, depth, true, true, acc.push(ch))
            } else if ch == '"' {
                capture(s, i + 1, open, close, depth, false, false, acc.push(ch))
            } else {
                capture(s, i + 1, open, close, depth, true, false, acc.push(ch))
            }
        } else if ch == open {
            if depth + 1 == 1 {
                capture(s, i + 1, open, close, depth + 1, false, escaped, acc)
            } else {
                capture(s, i + 1, open, close, depth + 1, false, escaped, acc.push(ch))
            }
        } else if ch == close {
            if depth - 1 == 0 {
                (acc, i + 1)
            } else {
                capture(s, i + 1, open, close, depth - 1, false, escaped, acc.push(ch))
            }
        } else if ch == '"' {
            capture(s, i + 1, open, close, depth, true, escaped, acc.push(ch))
        } else {
            capture(s, i + 1, open, close, depth, false, escaped, acc.push(ch))
        }
    }
}

pub proof fn lemma_capture_bounds(
    s: Seq<char>,
    i: int,
    open: char,
    close: char,
    depth: int,
    in_string: bool,
    escaped: bool,
    acc: Seq<char>,
)
    requires
        0 <= i <= s.len(),
    ensures
        i <= capture(s, i, open, close, depth, in_string, escaped, acc).1 <= s.len(),
    decreases s.len() - i,
{
    if i < s.len() {
        let ch = s[i];
        if in_string {
            if escaped {
                lemma_capture_bounds(s, i + 1, open, close, depth, true, false, acc.push(ch));
            } else if ch == '\\' {
                lemma_capture_bounds(s, i + 1, open, close, depth, true, true, acc.push(ch));
            } else if ch == '"' {
                lemma_capture_bounds(s, i + 1, open, close, depth, false, false, acc.push(ch));
            } else {
                lemma_capture_bounds(s, i + 1, open, close, depth, true, false, acc.push(ch));
            }
        } else if ch == open {
            if depth + 1 == 1 {
                lemma_capture_bounds(s, i + 1, open, close, depth + 1, false, escaped, acc);
            } else {
                lemma_capture_bounds(s, i + 1, open, close, depth + 1, false, escaped, acc.push(ch));
            }
        } else if ch == close {
            if depth - 1 != 0 {
                lemma_capture_bounds(s, i + 1, open, close, depth - 1, false, escaped, acc.push(ch));
            }
        } else if ch == '"' {
            lemma_capture_bounds(s, i + 1, open, close, depth, true, escaped, acc.push(ch));
        } else {
            lemma_capture_bounds(s, i + 1, open, close, depth, false, escaped, acc.push(ch));
        }
    }
}

pub proof fn lemma_name_end(s: Seq<char>, i: int)
    ensures
        name_end(s, i) >= i,
        0 <= i ==> name_end(s, i) <= s.len() || name_end(s, i) == i,
    decreases s.len() - i,
{
    if 0 <= i < s.len() && is_name_char_spec(s[i]) {
        lemma_name_end(s, i + 1);
    }
}

pub proof fn lemma_ws_end(s: Seq<char>, i: int)
    ensures
        ws_end(s, i) >= i,
    decreases s.len() - i,
{
    if 0 <= i < s.len() && is_ws(s[i]) {
        lemma_ws_end(s, i + 1);
    }
}

/// The blocks of `s` from index `i` on: whitespace and stray chars are skipped, a
/// name is read, and a `{` or `[` after optional whitespace opens a block; a name
/// followed by anything else is dropped.
pub open spec fn tokens(s: Seq<char>, i: int) -> Seq<BlockView>
    decreases s.len() - i,
{
    if i < 0 || i >= s.len() {
        seq![]
    } else if is_ws(s[i]) {
        tokens(s, i + 1)
    } else {
        let e = name_end(s, i);
        proof {
            lemma_name_end(s, i);
        }
        if e == i {
            tokens(s, i + 1)
        } else {
            let k = ws_end(s, e);
            proof {
                lemma_ws_end(s, e);
            }
            if k >= s.len() {
                seq![]
            } else if s[k] == '{' || s[k] == '[' {
                let kind = if s[k] == '{' {
                    BlockKind::Braces
                } else {
                    BlockKind::Brackets
                };
                let close = if s[k] == '{' {
                    '}'
                } else {
                    ']'
                };
                let (body, next) = capture(s, k, s[k], close, 0, false, false, seq![]);
                proof {
                    lemma_capture_bounds(s, k, s[k], close, 0, false, false, seq![]);
                }
                if next > i {
                    seq![BlockView { name: s.subrange(i, e), kind, body }] + tokens(s, next)
                } else {
                    seq![]
                }
            } else {
                tokens(s, k)
            }
        }
    }
}

// ---------------------------------------------------------------------------
// Dedent specification
// ---------------------------------------------------------------------------

/// Length of the UTF-8 encoding of `s`.
pub open spec fn byte_len(s: Seq<char>) -> int {
    encode_utf8(s).len() as int
}

/// Byte width of the leading whitespace of a line.
pub open spec fn indent_bytes(line: Seq<char>) -> int {
    byte_len(line) - byte_len(trim_start(line))
}

/// Smallest leading-whitespace width among the non-blank lines.
pub open spec fn min_indent(ls: Seq<Seq<char>>) -> Option<int>
    decreases ls.len(),
{
    if ls.len() == 0 {
        None
    } else {
        let rest = min_indent(ls.drop_last());
        if trim(ls.last()).len() == 0 {
            rest
        } else {
            let d = indent_bytes(ls.last());
            match rest {
                None => Some(d),
                Some(m) => Some(
                    if d < m {
                        d
                    } else {
                        m
                    },
                ),
            }
        }
    }
}

/// The common indentation of a body, in bytes.
pub open spec fn common_indent(body: Seq<char>) -> int {
    match min_indent(lines(body)) {
        Some(m) => m,
        None => 0,
    }
}

/// Number of leading chars of `line` whose encoding is exactly `n` bytes long.
pub open spec fn cut_at(line: Seq<char>, n: int) -> Option<int> {
    if exists|k: int| 0 <= k <= line.len() && byte_len(line.take(k)) == n {
        Some(choose|k: int| 0 <= k <= line.len() && byte_len(line.take(k)) == n)
    } else {
        None
    }
}

/// A line can be cut at `indent` bytes without splitting a char.
pub open spec fn line_cuttable(line: Seq<char>, indent: int) -> bool {
    byte_len(line) < indent || cut_at(line, indent) is Some
}

/// A line with the first `indent` bytes removed (or, if shorter, its leading
/// whitespace removed).
pub open spec fn dedent_line(line: Seq<char>, indent: int) -> Seq<char> {
    if byte_len(line) >= indent {
        match cut_at(line, indent) {
            Some(k) => line.skip(k),
            None => line,
        }
    } else {
        trim_start(line)
    }
}

/// `s` without leading `\n` chars.
pub open spec fn trim_start_newlines(s: Seq<char>) -> Seq<char>
    decreases s.len(),
{
    if s.len() > 0 && s[0] == '\n' {
        trim_start_newlines(s.drop_first())
    } else {
        s
    }
}

/// `s` without trailing `\n` chars.
pub open spec fn trim_end_newlines(s: Seq<char>) -> Seq<char>
    decreases s.len(),
{
    if s.len() > 0 && s.last() == '\n' {
        trim_end_newlines(s.drop_last())
    } else {
        s
    }
}

/// Dedenting only cuts between chars: every line that is at least as long as the
/// common indentation can be cut there.
pub open spec fn dedent_ok(body: Seq<char>) -> bool {
    forall|k: int|
        0 <= k < lines(body).len() ==> line_cuttable(
            #[trigger] lines(body)[k],
            common_indent(body),
        )
}

/// The body with the common indentation removed from every line, the lines joined
/// with `\n`, and surrounding newlines trimmed.
pub open spec fn dedent(body: Seq<char>) -> Seq<char> {
    let indent = common_indent(body);
    trim_end_newlines(
        trim_start_newlines(
            join(lines(body).map_values(|l: Seq<char>| dedent_line(l, indent)), seq!['\n']),
        ),
    )
}

/// Whether every brace block of a tokenized document can be dedented.
pub open spec fn blocks_ok(raw: Seq<BlockView>) -> bool {
    forall|k: int|
        0 <= k < raw.len() ==> (#[trigger] raw[k]).kind == BlockKind::Braces ==> dedent_ok(
            raw[k].body,
        )
}

// ---------------------------------------------------------------------------
// Lemmas
// ---------------------------------------------------------------------------

/// The UTF-8 encoding of a concatenation.
pub proof fn lemma_encode_concat(a: Seq<char>, b: Seq<char>)
    ensures
        encode_utf8(a + b) == encode_utf8(a) + encode_utf8(b),
    decreases a.len(),
{
    if a.len() == 0 {
        assert(a + b =~= b);
        assert(encode_utf8(a) =~= Seq::<u8>::empty());
        assert(encode_utf8(a) + encode_utf8(b) =~= encode_utf8(b));
    } else {
        lemma_encode_concat(a.drop_first(), b);
        assert((a + b).drop_first() =~= a.drop_first() + b);
        assert((a + b)[0] == a[0]);
        assert(encode_scalar(a[0] as u32) + (encode_utf8(a.drop_first()) + encode_utf8(b))
            =~= encode_scalar(a[0] as u32) + encode_utf8(a.drop_first()) + encode_utf8(b));
    }
}

/// Byte width of one char.
pub open spec fn width(c: char) -> int {
    if (c as u32) < 0x80 {
        1
    } else if (c as u32) < 0x800 {
        2
    } else if (c as u32) < 0x10000 {
        3
    } else {
        4
    }
}

pub proof fn lemma_width(c: char)
    ensures
        encode_utf8(seq![c]).len() == width(c),
{
    assert(seq![c].drop_first() =~= Seq::<char>::empty());
    assert(encode_utf8(Seq::<char>::empty()) =~= Seq::<u8>::empty());
    assert(encode_utf8(seq![c]) =~= encode_scalar(c as u32));
}

/// Appending a char adds its width.
pub proof fn lemma_byte_len_push(s: Seq<char>, c: char)
    ensures
        byte_len(s.push(c)) == byte_len(s) + width(c),
{
    lemma_encode_concat(s, seq![c]);
    assert(s.push(c) =~= s + seq![c]);
    lemma_width(c);
}

/// Byte length of a concatenation.
pub proof fn lemma_byte_len_concat(a: Seq<char>, b: Seq<char>)
    ensures
        byte_len(a + b) == byte_len(a) + byte_len(b),
{
    lemma_encode_concat(a, b);
}

/// Prefix byte lengths grow strictly with the prefix.
pub proof fn lemma_byte_len_prefix_mono(s: Seq<char>, i: int, j: int)
    requires
        0 <= i < j <= s.len(),
    ensures
        byte_len(s.take(i)) < byte_len(s.take(j)),
{
    assert(s.take(j) =~= s.take(i) + s.subrange(i, j));
    lemma_byte_len_concat(s.take(i), s.subrange(i, j));
    assert(s.subrange(i, j) =~= seq![s[i]] + s.subrange(i + 1, j));
    lemma_byte_len_concat(seq![s[i]], s.subrange(i + 1, j));
    lemma_width(s[i]);
}

/// The cut point, when one exists, is unique.
pub proof fn lemma_cut_at_is(line: Seq<char>, n: int, k: int)
    requires
        0 <= k <= line.len(),
        byte_len(line.take(k)) == n,
    ensures
        cut_at(line, n) == Some(k),
{
    let c = choose|c: int| 0 <= c <= line.len() && byte_len(line.take(c)) == n;
    if c < k {
        lemma_byte_len_prefix_mono(line, c, k);
    } else if k < c {
        lemma_byte_len_prefix_mono(line, k, c);
    }
}

/// `trim` of a line is empty exactly when `trim_start` is.
pub proof fn lemma_trim_blank(s: Seq<char>)
    ensures
        (trim(s).len() == 0) == (trim_start(s).len() == 0),
{
    lemma_trim_end_keeps_first(trim_start(s));
    lemma_trim_start_first(s);
}

pub proof fn lemma_trim_start_first(s: Seq<char>)
    ensures
        trim_start(s).len() > 0 ==> !is_ws(trim_start(s)[0]),
    decreases s.len(),
{
    if s.len() > 0 && is_ws(s[0]) {
        lemma_trim_start_first(s.drop_first());
    }
}

pub proof fn lemma_trim_end_keeps_first(s: Seq<char>)
    ensures
        s.len() > 0 && !is_ws(s[0]) ==> trim_end(s).len() > 0,
    decreases s.len(),
{
    if s.len() > 0 && is_ws(s.last()) {
        if s.len() > 1 {
            lemma_trim_end_keeps_first(s.drop_last());
        }
    }
}

// ---------------------------------------------------------------------------
// Executable tokenizer
// ---------------------------------------------------------------------------

/// Whether a char may appear in a block name.
pub fn is_name_char(c: char) -> (r: bool)
    ensures
        r == is_name_char_spec(c),
{
    ('0' <= c && c <= '9') || ('a' <= c && c <= 'z') || ('A' <= c && c <= 'Z') || c == ':'
        || c == '_' || c == '-' || c == '.'
}

/// The content between the delimiters opening at `open_index`, and the index just
/// past the matching close delimiter.
pub fn capture_block(chars: &Vec<char>, open_index: usize, open: char, close: char) -> (r: (
    Vec<char>,
    usize,
))
    requires
        open_index < chars.len(),
        chars@[open_index as int] == open,
        open != close,
        open != '"',
        close != '"',
    ensures
        (r.0@, r.1 as int) == capture(chars@, open_index as int, open, close, 0, false, false, seq![]),
        open_index < r.1 <= chars.len(),
{
    let mut depth: usize = 0;
    let mut in_string = false;
    let mut escaped = false;
    let mut content: Vec<char> = Vec::new();
    let mut index = open_index;
    while index < chars.len()
        invariant_except_break
            open_index < chars.len(),
            open_index <= index <= chars.len(),
            chars@[open_index as int] == open,
            open != close,
            open != '"',
            close != '"',
            index == open_index ==> depth == 0 && !in_string && !escaped && content@.len() == 0,
            index > open_index ==> depth >= 1,
            depth <= index - open_index,
            capture(chars@, index as int, open, close, depth as int, in_string, escaped, content@)
                == capture(chars@, open_index as int, open, close, 0, false, false, seq![]),
        ensures
            open_index < index <= chars.len(),
            capture(chars@, open_index as int, open, close, 0, false, false, seq![]) == (
                content@,
                index as int,
            ),
        decreases chars.len() - index,
    {
        let ch = chars[index];
        index += 1;
        if in_string {
            content.push(ch);
            if escaped {
                escaped = false;
            } else if ch == '\\' {
                escaped = true;
            } else if ch == '"' {
                in_string = false;
            }
            continue;
        }
        if ch == open {
            depth += 1;
            if depth == 1 {
                continue;
            }
        } else if ch == close {
            depth -= 1;
            if depth == 0 {
                break;
            }
        } else if ch == '"' {
            in_string = true;
        }
        content.push(ch);
    }
    (content, index)
}

/// A brace-block body with its common indentation removed.
pub fn dedent_chars(cs: &Vec<char>) -> (r: Vec<char>)
    requires
        dedent_ok(cs@),
    ensures
        r@ == dedent(cs@),
{
    assert(cs@.subrange(0, cs.len() as int) =~= cs@);
    let rs = line_ranges(cs, 0, cs.len());
    let ind = common_indent_of(cs, &rs);
    let out = join_dedented(cs, &rs, ind);
    trim_newlines(&out)
}

/// Indentation fold step: the minimum so far combined with one more line.
pub open spec fn indent_step(acc: Option<int>, line: Seq<char>) -> Option<int> {
    if trim(line).len() == 0 {
        acc
    } else {
        let d = indent_bytes(line);
        match acc {
            None => Some(d),
            Some(m) => Some(
                if d < m {
                    d
                } else {
                    m
                },
            ),
        }
    }
}

proof fn lemma_min_indent_step(ls: Seq<Seq<char>>, k: int)
    requires
        0 <= k < ls.len(),
    ensures
        min_indent(ls.take(k + 1)) == indent_step(min_indent(ls.take(k)), ls[k]),
{
    assert(ls.take(k + 1).drop_last() =~= ls.take(k));
    assert(ls.take(k + 1).last() == ls[k]);
}

proof fn lemma_min_indent_nonneg(ls: Seq<Seq<char>>)
    ensures
        min_indent(ls) matches Some(m) ==> m >= 0,
    decreases ls.len(),
{
    if ls.len() > 0 {
        lemma_min_indent_nonneg(ls.drop_last());
        let line = ls.last();
        lemma_trim_start_suffix(line);
        let j = choose|j: int| 0 <= j <= line.len() && trim_start(line) == line.skip(j);
        assert(line =~= line.take(j) + line.skip(j));
        lemma_byte_len_concat(line.take(j), line.skip(j));
    }
}

proof fn lemma_trim_start_suffix(s: Seq<char>)
    ensures
        exists|j: int| 0 <= j <= s.len() && trim_start(s) == s.skip(j),
    decreases s.len(),
{
    if s.len() > 0 && is_ws(s[0]) {
        lemma_trim_start_suffix(s.drop_first());
        let j = choose|j: int|
            0 <= j <= s.drop_first().len() && trim_start(s.drop_first()) == s.drop_first().skip(j);
        assert(s.drop_first().skip(j) =~= s.skip(j + 1));
    } else {
        assert(s.skip(0) =~= s);
    }
}

/// Indentation of one line: `None` when blank, else its leading width in bytes.
fn line_indent(cs: &Vec<char>, l: usize, h: usize) -> (r: Option<u128>)
    requires
        l <= h <= cs.len(),
    ensures
        match r {
            None => trim(cs@.subrange(l as int, h as int)).len() == 0,
            Some(d) => trim(cs@.subrange(l as int, h as int)).len() != 0 && d == indent_bytes(
                cs@.subrange(l as int, h as int),
            ),
        },
{
    let ghost line = cs@.subrange(l as int, h as int);
    let a = trim_start_index(cs, l, h);
    proof {
        lemma_trim_blank(line);
        assert(line =~= cs@.subrange(l as int, a as int) + cs@.subrange(a as int, h as int));
        lemma_byte_len_concat(cs@.subrange(l as int, a as int), cs@.subrange(a as int, h as int));
    }
    if a < h {
        Some(prefix_bytes(cs, l, a))
    } else {
        None
    }
}

/// The common indentation of the lines `rs` of `cs`.
fn common_indent_of(cs: &Vec<char>, rs: &Vec<(usize, usize)>) -> (ind: u128)
    requires
        range_texts(cs@, rs@) == lines(cs@),
        ranges_within(rs@, 0, cs.len() as int),
    ensures
        ind == common_indent(cs@),
{
    let ghost ls = range_texts(cs@, rs@);
    let mut indent: Option<u128> = None;
    let mut k: usize = 0;
    while k < rs.len()
        invariant
            0 <= k <= rs.len(),
            ls == range_texts(cs@, rs@),
            ranges_within(rs@, 0, cs.len() as int),
            match min_indent(ls.take(k as int)) {
                Some(m) => indent == Some(m as u128) && 0 <= m <= u128::MAX,
                None => indent is None,
            },
        decreases rs.len() - k,
    {
        let (l, h) = rs[k];
        proof {
            assert(ls[k as int] == cs@.subrange(l as int, h as int));
            lemma_min_indent_step(ls, k as int);
            lemma_min_indent_nonneg(ls.take(k + 1));
        }
        let ghost prev = min_indent(ls.take(k as int));
        match line_indent(cs, l, h) {
            None => {
                assert(min_indent(ls.take(k + 1)) == prev);
            },
            Some(d) => {
                indent = match indent {
                    None => Some(d),
                    Some(m) => Some(
                        if d < m {
                            d
                        } else {
                            m
                        },
                    ),
                };
                assert(min_indent(ls.take(k + 1)) == indent_step(prev, ls[k as int]));
                assert(indent == Some(min_indent(ls.take(k + 1))->0 as u128));
            },
        }
        k += 1;
    }
    assert(ls.take(rs.len() as int) =~= ls);
    match indent {
        Some(m) => m,
        None => 0,
    }
}

/// The lines `rs` of `cs`, each with `ind` bytes of indentation removed, joined
/// by newlines.
fn join_dedented(cs: &Vec<char>, rs: &Vec<(usize, usize)>, ind: u128) -> (out: Vec<char>)
    requires
        range_texts(cs@, rs@) == lines(cs@),
        ranges_within(rs@, 0, cs.len() as int),
        ind == common_indent(cs@),
        dedent_ok(cs@),
    ensures
        out@ == join(
            lines(cs@).map_values(|line: Seq<char>| dedent_line(line, ind as int)),
            seq!['\n'],
        ),
{
    let ghost ls = lines(cs@);
    let ghost parts = ls.map_values(|line: Seq<char>| dedent_line(line, ind as int));
    let mut out: Vec<char> = Vec::new();
    let mut k: usize = 0;
    while k < rs.len()
        invariant
            0 <= k <= rs.len(),
            range_texts(cs@, rs@) == ls,
            ranges_within(rs@, 0, cs.len() as int),
            ind == common_indent(cs@),
            dedent_ok(cs@),
            ls == lines(cs@),
            parts == ls.map_values(|line: Seq<char>| dedent_line(line, ind as int)),
            out@ == join(parts.take(k as int), seq!['\n']),
        decreases rs.len() - k,
    {
        let (l, h) = rs[k];
        let ghost line = cs@.subrange(l as int, h as int);
        assert(ls[k as int] == line);
        assert(line_cuttable(ls[k as int], common_indent(cs@)));
        let start = match dedent_start(cs, l, h, ind) {
            Some(start) => start,
            None => {
                assert(false);
                0
            },
        };
        let ghost before = out@;
        if k > 0 {
            out.push('\n');
        }
        let ghost mid = out@;
        let mut j = start;
        while j < h
            invariant
                start <= j <= h <= cs.len(),
                out@ == mid + cs@.subrange(start as int, j as int),
            decreases h - j,
        {
            out.push(cs[j]);
            j += 1;
            assert(out@ =~= mid + cs@.subrange(start as int, j as int));
        }
        proof {
            assert(parts[k as int] == cs@.subrange(start as int, h as int));
            assert(parts.take(k + 1).drop_last() =~= parts.take(k as int));
            assert(parts.take(k + 1).last() == parts[k as int]);
            if k == 0 {
                assert(before =~= Seq::<char>::empty());
                assert(mid =~= Seq::<char>::empty());
                assert(out@ =~= parts.take(1)[0]);
            } else {
                assert(mid =~= before + seq!['\n']);
                assert(out@ =~= before + seq!['\n'] + parts[k as int]);
            }
        }
        k += 1;
    }
    assert(parts.take(rs.len() as int) =~= parts);
    out
}

/// Index where the dedented part of the line `cs[l..h]` starts, or `None` when the
/// cut at `ind` bytes would split a char.
fn dedent_start(cs: &Vec<char>, l: usize, h: usize, ind: u128) -> (r: Option<usize>)
    requires
        l <= h <= cs.len(),
    ensures
        r is Some <==> line_cuttable(cs@.subrange(l as int, h as int), ind as int),
        r matches Some(k) ==> l <= k <= h && cs@.subrange(k as int, h as int) == dedent_line(
            cs@.subrange(l as int, h as int),
            ind as int,
        ),
{
    let ghost line = cs@.subrange(l as int, h as int);
    let total = prefix_bytes(cs, l, h);
    assert(line.take(line.len() as int) =~= line);
    if total >= ind {
        let mut j = l;
        let mut acc: u128 = 0;
        while acc < ind
            invariant
                l <= j <= h <= cs.len(),
                line == cs@.subrange(l as int, h as int),
                acc == byte_len(line.take(j - l)),
                acc <= total,
                total == byte_len(line),
                total >= ind,
                j > l ==> byte_len(line.take(j - l - 1)) < ind,
            decreases h - j,
        {
            if j >= h {
                assert(line.take(j - l) =~= line);
                assert(false);
            }
            proof {
                assert(line.take(j - l + 1) =~= line.take(j - l).push(cs@[j as int]));
                lemma_byte_len_push(line.take(j - l), cs@[j as int]);
                assert(byte_len(line.take(j - l + 1)) == acc + width(cs@[j as int]));
                if j + 1 < h {
                    lemma_byte_len_prefix_mono(line, j - l + 1, line.len() as int);
                    assert(line.take(line.len() as int) =~= line);
                } else {
                    assert(line.take(j - l + 1) =~= line);
                }
                assert(byte_len(line.take(j - l + 1)) <= total);
            }
            acc = acc + char_width(cs[j]);
            j += 1;
        }
        if acc > ind {
            proof {
                assert(j > l);
                lemma_prefix_step_below(line, j - l, ind as int);
            }
            return None;
        }
        proof {
            lemma_cut_at_is(line, ind as int, j - l);
            assert(line.skip(j - l) =~= cs@.subrange(j as int, h as int));
        }
        Some(j)
    } else {
        let a = trim_start_index(cs, l, h);
        Some(a)
    }
}

/// Whether every line of `cs` can be cut at the common indentation.
fn dedentable(cs: &Vec<char>) -> (r: bool)
    ensures
        r == dedent_ok(cs@),
{
    assert(cs@.subrange(0, cs.len() as int) =~= cs@);
    let rs = line_ranges(cs, 0, cs.len());
    let ind = common_indent_of(cs, &rs);
    let mut k: usize = 0;
    while k < rs.len()
        invariant
            0 <= k <= rs.len(),
            range_texts(cs@, rs@) == lines(cs@),
            ranges_within(rs@, 0, cs.len() as int),
            ind == common_indent(cs@),
            forall|j: int| 0 <= j < k ==> line_cuttable(#[trigger] lines(cs@)[j], ind as int),
        decreases rs.len() - k,
    {
        let (l, h) = rs[k];
        assert(lines(cs@)[k as int] == cs@.subrange(l as int, h as int));
        if dedent_start(cs, l, h, ind).is_none() {
            return false;
        }
        k += 1;
    }
    true
}

/// If the prefix of `k` chars is over `n` bytes but the prefix of `k - 1` chars is
/// under, no prefix has exactly `n` bytes.
proof fn lemma_prefix_step_below(line: Seq<char>, k: int, n: int)
    requires
        0 < k <= line.len(),
        byte_len(line.take(k)) > n,
        byte_len(line.take(k - 1)) < n,
    ensures
        cut_at(line, n) is None,
{
    assert forall|w: int| 0 <= w <= line.len() implies byte_len(line.take(w)) != n by {
        if w < k - 1 {
            lemma_byte_len_prefix_mono(line, w, k - 1);
        } else if w > k {
            lemma_byte_len_prefix_mono(line, k, w);
        }
    }
}

/// Byte width of a char.
fn char_width(c: char) -> (r: u128)
    ensures
        r == width(c),
{
    let u = c as u32;
    if u < 0x80 {
        1
    } else if u < 0x800 {
        2
    } else if u < 0x10000 {
        3
    } else {
        4
    }
}

/// Byte length of `cs[l..h]`.
fn prefix_bytes(cs: &Vec<char>, l: usize, h: usize) -> (r: u128)
    requires
        l <= h <= cs.len(),
    ensures
        r == byte_len(cs@.subrange(l as int, h as int)),
{
    let mut acc: u128 = 0;
    let mut j = l;
    assert(encode_utf8(Seq::<char>::empty()) =~= Seq::<u8>::empty());
    assert(cs@.subrange(l as int, l as int) =~= Seq::<char>::empty());
    while j < h
        invariant
            l <= j <= h <= cs.len(),
            acc == byte_len(cs@.subrange(l as int, j as int)),
            acc <= 4 * (j - l),
        decreases h - j,
    {
        proof {
            assert(cs@.subrange(l as int, j + 1) =~= cs@.subrange(l as int, j as int).push(
                cs@[j as int],
            ));
            lemma_byte_len_push(cs@.subrange(l as int, j as int), cs@[j as int]);
        }
        acc = acc + char_width(cs[j]);
        j += 1;
    }
    acc
}

/// `s` with leading and trailing `\n` chars removed.
fn trim_newlines(s: &Vec<char>) -> (r: Vec<char>)
    ensures
        r@ == trim_end_newlines(trim_start_newlines(s@)),
{
    let mut a: usize = 0;
    assert(s@.subrange(0, s.len() as int) =~= s@);
    while a < s.len() && s[a] == '\n'
        invariant
            0 <= a <= s.len(),
            trim_start_newlines(s@) == trim_start_newlines(s@.subrange(a as int, s.len() as int)),
        decreases s.len() - a,
    {
        assert(s@.subrange(a as int, s.len() as int).drop_first() =~= s@.subrange(
            a + 1,
            s.len() as int,
        ));
        a += 1;
    }
    assert(s@.subrange(0, s.len() as int) =~= s@);
    let mut b = s.len();
    while b > a && s[b - 1] == '\n'
        invariant
            a <= b <= s.len(),
            trim_start_newlines(s@) == s@.subrange(a as int, s.len() as int) || a == s.len(),
            trim_end_newlines(trim_start_newlines(s@)) == trim_end_newlines(
                s@.subrange(a as int, b as int),
            ),
        decreases b - a,
    {
        assert(s@.subrange(a as int, b as int).drop_last() =~= s@.subrange(a as int, b - 1));
        b -= 1;
    }
    let mut r: Vec<char> = Vec::new();
    let mut j = a;
    while j < b
        invariant
            a <= j <= b <= s.len(),
            r@ == s@.subrange(a as int, j as int),
        decreases b - j,
    {
        r.push(s[j]);
        j += 1;
        assert(r@ =~= s@.subrange(a as int, j as int));
    }
    r
}


/// A tokenized block with its body dedented when it is a brace block.
pub open spec fn finish(b: BlockView) -> BlockView {
    if b.kind == BlockKind::Braces {
        BlockView { name: b.name, kind: b.kind, body: dedent(b.body) }
    } else {
        b
    }
}

/// The blocks of a `.bru` document.
pub open spec fn blocks_spec(input: Seq<char>) -> Seq<BlockView> {
    tokens(input, 0).map_values(|b: BlockView| finish(b))
}

/// One top-level block in a `.bru` file, e.g. `meta { ... }` or `vars:secret [ ... ]`.
#[derive(Debug, PartialEq, Eq)]
pub struct Block {
    pub name: String,
    pub kind: BlockKind,
    /// Raw text between the delimiters (dedented for brace blocks).
    pub body: String,
}

impl View for Block {
    type V = BlockView;

    open spec fn view(&self) -> BlockView {
        BlockView { name: self.name@, kind: self.kind, body: self.body@ }
    }
}

impl Clone for Block {
    fn clone(&self) -> (r: Self)
        ensures
            r@ == self@,
    {
        Block { name: self.name.clone(), kind: self.kind, body: self.body.clone() }
    }
}

/// The views of a sequence of blocks.
pub open spec fn block_views(v: Seq<Block>) -> Seq<BlockView> {
    v.map_values(|b: Block| b@)
}

/// One block as cut out of the chars: name range, delimiters and raw body.
pub struct Token {
    pub name_start: usize,
    pub name_end: usize,
    pub kind: BlockKind,
    pub body: Vec<char>,
}

/// The view of a token against the chars it was cut from.
pub open spec fn token_view(s: Seq<char>, t: Token) -> BlockView {
    BlockView {
        name: s.subrange(t.name_start as int, t.name_end as int),
        kind: t.kind,
        body: t.body@,
    }
}

/// Cut `chars` into its top-level blocks (bodies not yet dedented).
fn tokenize(chars: &Vec<char>) -> (r: Vec<Token>)
    ensures
        r@.len() == tokens(chars@, 0).len(),
        forall|k: int|
            0 <= k < r@.len() ==> r@[k].name_start <= r@[k].name_end <= chars@.len()
                && token_view(chars@, #[trigger] r@[k]) == tokens(chars@, 0)[k],
{
    let ghost s = chars@;
    let mut out: Vec<Token> = Vec::new();
    let ghost mut raw: Seq<BlockView> = seq![];
    let mut index: usize = 0;
    while index < chars.len()
        invariant
            s == chars@,
            index <= chars.len(),
            tokens(s, 0) == raw + tokens(s, index as int),
            out@.len() == raw.len(),
            forall|k: int|
                0 <= k < out@.len() ==> out@[k].name_start <= out@[k].name_end <= s.len()
                    && token_view(s, #[trigger] out@[k]) == raw[k],
        decreases chars.len() - index,
    {
        let i0 = index;
        if is_whitespace(chars[index]) {
            index += 1;
            continue;
        }
        let name_start = index;
        while index < chars.len() && is_name_char(chars[index])
            invariant
                name_start <= index <= chars.len(),
                name_end(s, name_start as int) == name_end(s, index as int),
                s == chars@,
            decreases chars.len() - index,
        {
            index += 1;
        }
        if index == name_start {
            index += 1;
            continue;
        }
        let name_stop = index;
        while index < chars.len() && is_whitespace(chars[index])
            invariant
                name_stop <= index <= chars.len(),
                ws_end(s, name_stop as int) == ws_end(s, index as int),
                s == chars@,
            decreases chars.len() - index,
        {
            index += 1;
        }
        if index >= chars.len() {
            assert(tokens(s, i0 as int) == Seq::<BlockView>::empty());
            index = chars.len();
            continue;
        }
        let c = chars[index];
        if c != '{' && c != '[' {
            continue;
        }
        let kind = if c == '{' {
            BlockKind::Braces
        } else {
            BlockKind::Brackets
        };
        let close = if c == '{' {
            '}'
        } else {
            ']'
        };
        let (body, next) = capture_block(chars, index, c, close);
        let tok = Token { name_start, name_end: name_stop, kind, body };
        let ghost rb = token_view(s, tok);
        proof {
            assert(tokens(s, i0 as int) == seq![rb] + tokens(s, next as int));
            assert(tokens(s, 0) == (raw + seq![rb]) + tokens(s, next as int));
        }
        out.push(tok);
        proof {
            raw = raw + seq![rb];
        }
        index = next;
    }
    proof {
        assert(tokens(s, index as int) == Seq::<BlockView>::empty());
        assert(raw + Seq::<BlockView>::empty() =~= raw);
    }
    out
}

/// Whether every brace block of `input` can be dedented (the precondition of the
/// `.bru` parsers).
pub fn blocks_parseable(input: &str) -> (r: bool)
    ensures
        r == blocks_ok(tokens(input@, 0)),
{
    let chars = crate::text::chars_of(input);
    let toks = tokenize(&chars);
    let mut k: usize = 0;
    while k < toks.len()
        invariant
            0 <= k <= toks.len(),
            chars@ == input@,
            toks@.len() == tokens(chars@, 0).len(),
            forall|j: int|
                0 <= j < toks@.len() ==> token_view(chars@, #[trigger] toks@[j]) == tokens(
                    chars@,
                    0,
                )[j],
            forall|j: int|
                0 <= j < k ==> (#[trigger] tokens(chars@, 0)[j]).kind == BlockKind::Braces
                    ==> dedent_ok(tokens(chars@, 0)[j].body),
        decreases toks.len() - k,
    {
        assert(token_view(chars@, toks@[k as int]) == tokens(chars@, 0)[k as int]);
        if toks[k].kind == BlockKind::Braces && !dedentable(&toks[k].body) {
            return false;
        }
        k += 1;
    }
    true
}

/// Tokenize a `.bru` document into its top-level blocks. Brace blocks are matched by
/// depth counting while ignoring delimiters inside double-quoted strings, so JSON and
/// GraphQL bodies survive intact.
pub fn parse_blocks(input: &str) -> (r: Vec<Block>)
    requires
        blocks_ok(tokens(input@, 0)),
    ensures
        block_views(r@) == blocks_spec(input@),
{
    let chars = crate::text::chars_of(input);
    let toks = tokenize(&chars);
    let mut blocks: Vec<Block> = Vec::new();
    let mut k: usize = 0;
    while k < toks.len()
        invariant
            0 <= k <= toks.len(),
            chars@ == input@,
            blocks_ok(tokens(chars@, 0)),
            toks@.len() == tokens(chars@, 0).len(),
            forall|j: int|
                0 <= j < toks@.len() ==> toks@[j].name_start <= toks@[j].name_end <= chars@.len()
                    && token_view(chars@, #[trigger] toks@[j]) == tokens(chars@, 0)[j],
            block_views(blocks@) == tokens(chars@, 0).take(k as int).map_values(
                |b: BlockView| finish(b),
            ),
        decreases toks.len() - k,
    {
        let tok = &toks[k];
        let ghost tv = tokens(chars@, 0)[k as int];
        assert(token_view(chars@, toks@[k as int]) == tv);
        let name = crate::text::string_of(&chars, tok.name_start, tok.name_end);
        let text = if tok.kind == BlockKind::Braces {
            let d = dedent_chars(&tok.body);
            assert(d@.subrange(0, d@.len() as int) =~= d@);
            crate::text::string_of(&d, 0, d.len())
        } else {
            assert(tok.body@.subrange(0, tok.body@.len() as int) =~= tok.body@);
            crate::text::string_of(&tok.body, 0, tok.body.len())
        };
        let ghost before = blocks@;
        blocks.push(Block { name, kind: tok.kind, body: text });
        proof {
            assert(blocks@[blocks@.len() - 1]@ == finish(tv));
            assert(block_views(blocks@) =~= block_views(before).push(finish(tv)));
            assert(tokens(chars@, 0).take(k + 1).map_values(|b: BlockView| finish(b))
                =~= tokens(chars@, 0).take(k as int).map_values(|b: BlockView| finish(b)).push(
                finish(tv),
            ));
        }
        k += 1;
    }
    assert(tokens(chars@, 0).take(toks.len() as int) =~= tokens(chars@, 0));
    blocks
}

// ---------------------------------------------------------------------------
// Documents whose whitespace is ASCII
// ---------------------------------------------------------------------------

/// Every whitespace char of `s` is ASCII.
pub open spec fn ascii_ws(s: Seq<char>) -> bool {
    forall|i: int| 0 <= i < s.len() && is_ws(#[trigger] s[i]) ==> (s[i] as u32) < 0x80
}

proof fn lemma_ascii_ws_sub(s: Seq<char>, a: int, b: int)
    requires
        ascii_ws(s),
        0 <= a <= b <= s.len(),
    ensures
        ascii_ws(s.subrange(a, b)),
{
    assert forall|i: int| 0 <= i < b - a && is_ws(#[trigger] s.subrange(a, b)[i]) implies (s.subrange(
        a,
        b,
    )[i] as u32) < 0x80 by {
        assert(s.subrange(a, b)[i] == s[a + i]);
    }
}

proof fn lemma_capture_ascii(
    s: Seq<char>,
    i: int,
    open: char,
    close: char,
    depth: int,
    in_string: bool,
    escaped: bool,
    acc: Seq<char>,
)
    requires
        ascii_ws(s),
        ascii_ws(acc),
    ensures
        ascii_ws(capture(s, i, open, close, depth, in_string, escaped, acc).0),
    decreases s.len() - i,
{
    if 0 <= i < s.len() {
        let ch = s[i];
        let pushed = acc.push(ch);
        assert(ascii_ws(pushed)) by {
            assert forall|j: int| 0 <= j < pushed.len() && is_ws(#[trigger] pushed[j]) implies (
            pushed[j] as u32) < 0x80 by {
                if j < acc.len() {
                    assert(pushed[j] == acc[j]);
                }
            }
        }
        if in_string {
            if escaped {
                lemma_capture_ascii(s, i + 1, open, close, depth, true, false, pushed);
            } else if ch == '\\' {
                lemma_capture_ascii(s, i + 1, open, close, depth, true, true, pushed);
            } else if ch == '"' {
                lemma_capture_ascii(s, i + 1, open, close, depth, false, false, pushed);
            } else {
                lemma_capture_ascii(s, i + 1, open, close, depth, true, false, pushed);
            }
        } else if ch == open {
            if depth + 1 == 1 {
                lemma_capture_ascii(s, i + 1, open, close, depth + 1, false, escaped, acc);
            } else {
                lemma_capture_ascii(s, i + 1, open, close, depth + 1, false, escaped, pushed);
            }
        } else if ch == close {
            if depth - 1 != 0 {
                lemma_capture_ascii(s, i + 1, open, close, depth - 1, false, escaped, pushed);
            }
        } else if ch == '"' {
            lemma_capture_ascii(s, i + 1, open, close, depth, true, escaped, pushed);
        } else {
            lemma_capture_ascii(s, i + 1, open, close, depth, false, escaped, pushed);
        }
    }
}

proof fn lemma_name_chars(s: Seq<char>, i: int, j: int)
    requires
        0 <= i <= j < name_end(s, i),
    ensures
        j < s.len() && is_name_char_spec(s[j]),
    decreases s.len() - i,
{
    if 0 <= i < s.len() && is_name_char_spec(s[i]) {
        if j > i {
            lemma_name_chars(s, i + 1, j);
        }
    }
}

/// A block name as read: non-empty and made of name chars.
pub open spec fn good_name(n: Seq<char>) -> bool {
    n.len() > 0 && forall|j: int| 0 <= j < n.len() ==> is_name_char_spec(#[trigger] n[j])
}

proof fn lemma_tokens_shape(s: Seq<char>, i: int)
    requires
        ascii_ws(s),
    ensures
        forall|k: int|
            0 <= k < tokens(s, i).len() ==> good_name(#[trigger] tokens(s, i)[k].name) && ascii_ws(
                tokens(s, i)[k].body,
            ),
    decreases s.len() - i,
{
    if 0 <= i < s.len() {
        if is_ws(s[i]) {
            lemma_tokens_shape(s, i + 1);
            assert(tokens(s, i) == tokens(s, i + 1));
            assert(forall|k: int|
                0 <= k < tokens(s, i).len() ==> good_name(#[trigger] tokens(s, i)[k].name)
                    && ascii_ws(tokens(s, i)[k].body));
        } else {
            let e = name_end(s, i);
            lemma_name_end(s, i);
            if e == i {
                lemma_tokens_shape(s, i + 1);
                assert(tokens(s, i) == tokens(s, i + 1));
            } else {
                let k = ws_end(s, e);
                lemma_ws_end(s, e);
                if k < s.len() && (s[k] == '{' || s[k] == '[') {
                    let close = if s[k] == '{' {
                        '}'
                    } else {
                        ']'
                    };
                    let (body, next) = capture(s, k, s[k], close, 0, false, false, seq![]);
                    lemma_capture_bounds(s, k, s[k], close, 0, false, false, seq![]);
                    if next > i {
                        lemma_tokens_shape(s, next);
                        lemma_capture_ascii(s, k, s[k], close, 0, false, false, seq![]);
                        let name = s.subrange(i, e);
                        assert(good_name(name)) by {
                            assert forall|j: int| 0 <= j < name.len() implies is_name_char_spec(
                                #[trigger] name[j],
                            ) by {
                                lemma_name_chars(s, i, i + j);
                            }
                        }
                        let rest = tokens(s, next);
                        let kind = if s[k] == '{' {
                            BlockKind::Braces
                        } else {
                            BlockKind::Brackets
                        };
                        assert(tokens(s, i) == seq![BlockView { name, kind, body }] + rest);
                        assert forall|m: int| 0 <= m < tokens(s, i).len() implies good_name(
                            #[trigger] tokens(s, i)[m].name,
                        ) && ascii_ws(tokens(s, i)[m].body) by {
                            if m > 0 {
                                assert(tokens(s, i)[m] == rest[m - 1]);
                            }
                        }
                    }
                } else if k < s.len() {
                    lemma_tokens_shape(s, k);
                    assert(tokens(s, i) == tokens(s, k));
                }
            }
        }
    }
}

proof fn lemma_lines_ascii(s: Seq<char>)
    requires
        ascii_ws(s),
    ensures
        forall|k: int| 0 <= k < lines(s).len() ==> ascii_ws(#[trigger] lines(s)[k]),
    decreases s.len(),
{
    if s.len() > 0 {
        match crate::text::find(s, seq!['\n']) {
            Some(i) => if 0 <= i < s.len() {
                lemma_ascii_ws_sub(s, 0, i);
                lemma_ascii_ws_sub(s, i + 1, s.len() as int);
                assert(s.take(i) =~= s.subrange(0, i));
                assert(s.skip(i + 1) =~= s.subrange(i + 1, s.len() as int));
                lemma_lines_ascii(s.skip(i + 1));
                let first = crate::text::line_of(s.take(i));
                if s.take(i).len() > 0 && s.take(i).last() == '\r' {
                    lemma_ascii_ws_sub(s.take(i), 0, i - 1);
                    assert(first =~= s.take(i).subrange(0, i - 1));
                }
                let rest = lines(s.skip(i + 1));
                assert forall|k: int| 0 <= k < lines(s).len() implies ascii_ws(#[trigger] lines(s)[k]) by {
                    if k > 0 {
                        assert(lines(s)[k] == rest[k - 1]);
                    }
                }
            },
            None => {},
        }
    }
}

proof fn lemma_byte_len_ascii(t: Seq<char>)
    requires
        forall|j: int| 0 <= j < t.len() ==> (#[trigger] t[j] as u32) < 0x80,
    ensures
        byte_len(t) == t.len(),
    decreases t.len(),
{
    if t.len() == 0 {
        assert(encode_utf8(t) =~= Seq::<u8>::empty());
    } else {
        lemma_byte_len_ascii(t.drop_last());
        lemma_byte_len_push(t.drop_last(), t.last());
        assert(t.drop_last().push(t.last()) =~= t);
    }
}

proof fn lemma_leading_ws(s: Seq<char>)
    ensures
        exists|a: int|
            0 <= a <= s.len() && trim_start(s) == s.skip(a) && forall|j: int|
                0 <= j < a ==> is_ws(#[trigger] s[j]),
    decreases s.len(),
{
    if s.len() > 0 && is_ws(s[0]) {
        lemma_leading_ws(s.drop_first());
        let a = choose|a: int|
            0 <= a <= s.drop_first().len() && trim_start(s.drop_first()) == s.drop_first().skip(a)
                && forall|j: int| 0 <= j < a ==> is_ws(#[trigger] s.drop_first()[j]);
        assert(s.drop_first().skip(a) =~= s.skip(a + 1));
        assert forall|j: int| 0 <= j < a + 1 implies is_ws(#[trigger] s[j]) by {
            if j > 0 {
                assert(s[j] == s.drop_first()[j - 1]);
            }
        }
    } else {
        assert(s.skip(0) =~= s);
    }
}

proof fn lemma_min_indent_le(ls: Seq<Seq<char>>, k: int)
    requires
        0 <= k < ls.len(),
        trim(ls[k]).len() != 0,
    ensures
        min_indent(ls) matches Some(m) && m <= indent_bytes(ls[k]),
    decreases ls.len(),
{
    if k < ls.len() - 1 {
        lemma_min_indent_le(ls.drop_last(), k);
        assert(ls.drop_last()[k] == ls[k]);
    }
}

/// A body whose whitespace is ASCII can always be dedented: its common indentation is
/// made of one-byte chars in every line that reaches it.
pub proof fn lemma_ascii_body_dedentable(body: Seq<char>)
    requires
        ascii_ws(body),
    ensures
        dedent_ok(body),
{
    let ls = lines(body);
    let ind = common_indent(body);
    lemma_lines_ascii(body);
    lemma_min_indent_nonneg(ls);
    assert forall|k: int| 0 <= k < ls.len() implies line_cuttable(#[trigger] ls[k], ind) by {
        let l = ls[k];
        assert(ascii_ws(l));
        lemma_leading_ws(l);
        let a = choose|a: int|
            0 <= a <= l.len() && trim_start(l) == l.skip(a) && forall|j: int|
                0 <= j < a ==> is_ws(#[trigger] l[j]);
        assert(l =~= l.take(a) + l.skip(a));
        lemma_byte_len_concat(l.take(a), l.skip(a));
        assert forall|j: int| 0 <= j < a implies (#[trigger] l.take(a)[j] as u32) < 0x80 by {
            assert(l.take(a)[j] == l[j]);
            assert(is_ws(l[j]));
        }
        lemma_byte_len_ascii(l.take(a));
        assert(indent_bytes(l) == a);
        if trim(l).len() != 0 {
            lemma_min_indent_le(ls, k);
        } else {
            lemma_trim_blank(l);
            assert(a == l.len());
            assert(l.take(a) =~= l);
        }
        if 0 <= ind <= a {
            assert(l.take(ind) =~= l.take(a).take(ind));
            assert forall|j: int| 0 <= j < ind implies (#[trigger] l.take(ind)[j] as u32) < 0x80 by {
                assert(l.take(ind)[j] == l.take(a)[j]);
            }
            lemma_byte_len_ascii(l.take(ind));
            assert(0 <= ind <= l.len() && byte_len(l.take(ind)) == ind);
        }
    }
}

proof fn lemma_trim_newlines_ends(y: Seq<char>)
    ensures
        trim_end_newlines(trim_start_newlines(y)).len() > 0 ==> trim_end_newlines(
            trim_start_newlines(y),
        )[0] != '\n' && trim_end_newlines(trim_start_newlines(y)).last() != '\n',
    decreases y.len(),
{
    if y.len() > 0 && y[0] == '\n' {
        lemma_trim_newlines_ends(y.drop_first());
    } else {
        lemma_trim_end_newlines_first(y);
    }
}

proof fn lemma_trim_end_newlines_first(y: Seq<char>)
    requires
        y.len() == 0 || y[0] != '\n',
    ensures
        trim_end_newlines(y).len() > 0 ==> trim_end_newlines(y)[0] == y[0]
            && trim_end_newlines(y).last() != '\n',
    decreases y.len(),
{
    if y.len() > 0 && y.last() == '\n' {
        lemma_trim_end_newlines_first(y.drop_last());
    }
}

/// A document whose whitespace is ASCII always meets the precondition of
/// `parse_blocks`; every block it gives has a non-empty name made of name chars, and
/// the body of a brace block neither starts nor ends with a line break.
pub proof fn lemma_ascii_document_parses(input: Seq<char>)
    requires
        ascii_ws(input),
    ensures
        blocks_ok(tokens(input, 0)),
        forall|k: int|
            0 <= k < blocks_spec(input).len() ==> good_name(#[trigger] blocks_spec(input)[k].name),
        forall|k: int|
            0 <= k < blocks_spec(input).len() && #[trigger] blocks_spec(input)[k].kind
                == BlockKind::Braces && blocks_spec(input)[k].body.len() > 0 ==> blocks_spec(
                input,
            )[k].body[0] != '\n' && blocks_spec(input)[k].body.last() != '\n',
{
    let ts = tokens(input, 0);
    lemma_tokens_shape(input, 0);
    assert forall|k: int| 0 <= k < ts.len() implies (#[trigger] ts[k]).kind == BlockKind::Braces
        ==> dedent_ok(ts[k].body) by {
        lemma_tokens_shape(input, 0);
        assert(good_name(tokens(input, 0)[k].name));
        assert(ascii_ws(ts[k].body));
        lemma_ascii_body_dedentable(ts[k].body);
    }
    assert forall|k: int| 0 <= k < blocks_spec(input).len() implies good_name(
        #[trigger] blocks_spec(input)[k].name,
    ) by {
        assert(blocks_spec(input)[k] == finish(ts[k]));
    }
    assert forall|k: int|
        0 <= k < blocks_spec(input).len() && #[trigger] blocks_spec(input)[k].kind
            == BlockKind::Braces && blocks_spec(input)[k].body.len() > 0 implies blocks_spec(
        input,
    )[k].body[0] != '\n' && blocks_spec(input)[k].body.last() != '\n' by {
        assert(blocks_spec(input)[k] == finish(ts[k]));
        let indent = common_indent(ts[k].body);
        lemma_trim_newlines_ends(
            join(
                lines(ts[k].body).map_values(|l: Seq<char>| dedent_line(l, indent)),
                seq!['\n'],
            ),
        );
    }
}

/// Number of `{` and `[` chars from index `i` on.
pub open spec fn opens_from(s: Seq<char>, i: int) -> nat
    decreases s.len() - i,
{
    if i < 0 || i >= s.len() {
        0
    } else {
        (if s[i] == '{' || s[i] == '[' {
            1nat
        } else {
            0nat
        }) + opens_from(s, i + 1)
    }
}

proof fn lemma_opens_mono(s: Seq<char>, i: int, j: int)
    requires
        0 <= i <= j,
    ensures
        opens_from(s, i) >= opens_from(s, j),
    decreases j - i,
{
    if i < j {
        lemma_opens_mono(s, i + 1, j);
    }
}

proof fn lemma_tokens_count(s: Seq<char>, i: int)
    requires
        0 <= i,
    ensures
        tokens(s, i).len() <= opens_from(s, i),
    decreases s.len() - i,
{
    if i < s.len() {
        if is_ws(s[i]) {
            lemma_tokens_count(s, i + 1);
            lemma_opens_mono(s, i, i + 1);
        } else {
            let e = name_end(s, i);
            lemma_name_end(s, i);
            if e == i {
                lemma_tokens_count(s, i + 1);
                lemma_opens_mono(s, i, i + 1);
            } else {
                let k = ws_end(s, e);
                lemma_ws_end(s, e);
                if k < s.len() {
                    lemma_opens_mono(s, i, k);
                    if s[k] == '{' || s[k] == '[' {
                        let close = if s[k] == '{' {
                            '}'
                        } else {
                            ']'
                        };
                        assert(capture(s, k, s[k], close, 0, false, false, seq![]) == capture(
                            s,
                            k + 1,
                            s[k],
                            close,
                            1,
                            false,
                            false,
                            seq![],
                        ));
                        lemma_capture_bounds(s, k + 1, s[k], close, 1, false, false, seq![]);
                        let next = capture(s, k, s[k], close, 0, false, false, seq![]).1;
                        if next > i {
                            lemma_tokens_count(s, next);
                            lemma_opens_mono(s, k + 1, next);
                        }
                    } else {
                        lemma_tokens_count(s, k);
                    }
                }
            }
        }
    }
}

/// A document gives at most one block per `{` or `[` it holds.
pub proof fn lemma_blocks_at_most_opens(input: Seq<char>)
    ensures
        blocks_spec(input).len() <= opens_from(input, 0),
{
    lemma_tokens_count(input, 0);
}

// ---------------------------------------------------------------------------
// Indenting a body and dedenting it again
// ---------------------------------------------------------------------------

/// `s` holds no `c`.
pub open spec fn lacks(s: Seq<char>, c: char) -> bool {
    forall|i: int| 0 <= i < s.len() ==> s[i] != c
}

/// The lines of `b`, each indented by two spaces, joined by line breaks: how a body
/// is written inside its block.
pub open spec fn indented(b: Seq<char>) -> Seq<char> {
    join(lines(b).map_values(|l: Seq<char>| seq![' ', ' '] + l), seq!['\n'])
}

proof fn lemma_find_nl_at(s: Seq<char>, n: int)
    requires
        0 <= n < s.len(),
        s[n] == '\n',
        lacks(s.take(n), '\n'),
    ensures
        crate::text::find(s, seq!['\n']) == Some(n),
{
    assert(crate::text::matches_at(s, seq!['\n'], n)) by {
        assert(s.subrange(n, n + 1) =~= seq!['\n']);
    }
    assert forall|j: int| 0 <= j < n implies !crate::text::matches_at(s, seq!['\n'], j) by {
        assert(s.subrange(j, j + 1)[0] == s[j]);
        assert(s.take(n)[j] == s[j]);
    }
    crate::text::lemma_find_is(s, seq!['\n'], n);
}

proof fn lemma_no_nl_find_none(s: Seq<char>)
    requires
        lacks(s, '\n'),
    ensures
        crate::text::find(s, seq!['\n']) is None,
{
    assert forall|j: int| !crate::text::matches_at(s, seq!['\n'], j) by {
        if crate::text::matches_at(s, seq!['\n'], j) {
            assert(s.subrange(j, j + 1)[0] == s[j]);
        }
    }
    crate::text::lemma_find_none(s, seq!['\n']);
}

/// Lines joined by line breaks, with one more line break after the last, split back
/// into the same lines.
proof fn lemma_lines_of_join_nl(ls: Seq<Seq<char>>)
    requires
        ls.len() > 0,
        forall|k: int|
            0 <= k < ls.len() ==> lacks(#[trigger] ls[k], '\n') && (ls[k].len() == 0 || ls[k].last()
                != '\r'),
    ensures
        lines(join(ls, seq!['\n']) + seq!['\n']) == ls,
    decreases ls.len(),
{
    let nl = seq!['\n'];
    let l = ls[0];
    assert(lacks(l, '\n') && (l.len() == 0 || l.last() != '\r'));
    if ls.len() == 1 {
        let s = l + nl;
        assert(s.take(l.len() as int) =~= l);
        lemma_find_nl_at(s, l.len() as int);
        assert(s.skip(l.len() as int + 1) =~= Seq::<char>::empty());
        assert(lines(Seq::<char>::empty()) =~= Seq::<Seq<char>>::empty());
        assert(crate::text::line_of(l) == l);
        assert(lines(s) == seq![crate::text::line_of(s.take(l.len() as int))] + lines(
            s.skip(l.len() as int + 1),
        ));
        assert(lines(s) =~= seq![l]);
        assert(ls =~= seq![l]);
    } else {
        let rest = ls.drop_first();
        lemma_join_front(ls, nl);
        lemma_lines_of_join_nl(rest);
        let s = l + nl + join(rest, nl) + nl;
        assert(join(ls, nl) + nl =~= s);
        assert(s.take(l.len() as int) =~= l);
        lemma_find_nl_at(s, l.len() as int);
        assert(s.skip(l.len() as int + 1) =~= join(rest, nl) + nl);
        assert(crate::text::line_of(l) == l);
        assert(lines(s) =~= seq![l] + rest);
        assert(ls =~= seq![l] + rest);
    }
}

/// A text without `\r` that does not end with a line break is its lines joined by
/// line breaks; none of its lines holds a line break or ends with `\r`.
proof fn lemma_join_lines(b: Seq<char>)
    requires
        lacks(b, '\r'),
        b.len() == 0 || b.last() != '\n',
    ensures
        join(lines(b), seq!['\n']) == b,
        forall|k: int|
            0 <= k < lines(b).len() ==> lacks(#[trigger] lines(b)[k], '\n') && lacks(lines(b)[k], '\r'),
        b.len() > 0 ==> lines(b).len() > 0,
    decreases b.len(),
{
    let nl = seq!['\n'];
    if b.len() == 0 {
        assert(join(lines(b), nl) =~= b);
    } else {
        crate::text::lemma_find_some(b, nl);
        match crate::text::find(b, nl) {
            Some(i) => {
                assert(b.subrange(i, i + 1) =~= nl);
                assert(b.subrange(i, i + 1)[0] == b[i]);
                assert(b[i] == '\n');
                assert(i < b.len() - 1);
                let first = b.take(i);
                let rest = b.skip(i + 1);
                assert(lacks(first, '\n')) by {
                    assert forall|j: int| 0 <= j < first.len() implies first[j] != '\n' by {
                        assert(!crate::text::matches_at(b, nl, j));
                        assert(b.subrange(j, j + 1)[0] == b[j]);
                        if b[j] == '\n' {
                            assert(b.subrange(j, j + 1) =~= nl);
                        }
                    }
                }
                assert(lacks(first, '\r'));
                assert(lacks(rest, '\r'));
                assert(rest.last() == b.last());
                lemma_join_lines(rest);
                assert(crate::text::line_of(first) == first) by {
                    if first.len() > 0 {
                        assert(first.last() == b[i - 1]);
                    }
                }
                assert(lines(b) == seq![first] + lines(rest));
                lemma_join_front(lines(b), nl);
                assert((seq![first] + lines(rest)).drop_first() =~= lines(rest));
                assert(b =~= first + nl + rest);
                assert forall|k: int| 0 <= k < lines(b).len() implies lacks(#[trigger] lines(b)[k], '\n')
                    && lacks(lines(b)[k], '\r') by {
                    if k > 0 {
                        assert(lines(b)[k] == lines(rest)[k - 1]);
                    }
                }
            },
            None => {
                assert forall|j: int| 0 <= j < b.len() implies b[j] != '\n' by {
                    if b[j] == '\n' {
                        assert(b.subrange(j, j + 1) =~= nl);
                        assert(crate::text::matches_at(b, nl, j));
                    }
                }
                assert(lines(b) =~= seq![b]);
            },
        }
    }
}

proof fn lemma_indent_bytes_spaced(l: Seq<char>)
    ensures
        indent_bytes(seq![' ', ' '] + l) == 2 + indent_bytes(l),
        trim(seq![' ', ' '] + l).len() == 0 <==> trim(l).len() == 0,
        byte_len(seq![' ', ' '] + l) == 2 + byte_len(l),
{
    let m = seq![' ', ' '] + l;
    assert(m.drop_first().drop_first() =~= l);
    assert(trim_start(m) == trim_start(m.drop_first()));
    assert(trim_start(m.drop_first()) == trim_start(m.drop_first().drop_first()));
    assert(trim_start(m) == trim_start(l));
    lemma_byte_len_concat(seq![' ', ' '], l);
    lemma_byte_len_ascii(seq![' ', ' ']);
    lemma_trim_blank(m);
    lemma_trim_blank(l);
}

proof fn lemma_min_indent_spaced(ls: Seq<Seq<char>>)
    ensures
        min_indent(ls.map_values(|l: Seq<char>| seq![' ', ' '] + l)) == match min_indent(ls) {
            Some(m) => Some(m + 2),
            None => None::<int>,
        },
    decreases ls.len(),
{
    let ms = ls.map_values(|l: Seq<char>| seq![' ', ' '] + l);
    if ls.len() > 0 {
        lemma_min_indent_spaced(ls.drop_last());
        assert(ms.drop_last() =~= ls.drop_last().map_values(|l: Seq<char>| seq![' ', ' '] + l));
        lemma_indent_bytes_spaced(ls.last());
        assert(ms.last() == seq![' ', ' '] + ls.last());
    }
}

proof fn lemma_min_indent_blank_front(x: Seq<char>, ls: Seq<Seq<char>>)
    requires
        trim(x).len() == 0,
    ensures
        min_indent(seq![x] + ls) == min_indent(ls),
    decreases ls.len(),
{
    if ls.len() == 0 {
        assert(seq![x] + ls =~= seq![x]);
        assert(seq![x].drop_last() =~= Seq::<Seq<char>>::empty());
        assert(min_indent(Seq::<Seq<char>>::empty()) is None);
        assert(seq![x].last() == x);
        assert(min_indent(seq![x]) == min_indent(seq![x].drop_last()));
    } else {
        lemma_min_indent_blank_front(x, ls.drop_last());
        assert((seq![x] + ls).drop_last() =~= seq![x] + ls.drop_last());
        assert((seq![x] + ls).last() == ls.last());
    }
}

proof fn lemma_dedent_empty_line()
    ensures
        line_cuttable(Seq::<char>::empty(), 2),
        dedent_line(Seq::<char>::empty(), 2) == Seq::<char>::empty(),
{
    assert(encode_utf8(Seq::<char>::empty()) =~= Seq::<u8>::empty());
    assert(trim_start(Seq::<char>::empty()) =~= Seq::<char>::empty());
}

proof fn lemma_dedent_spaced_line(l: Seq<char>)
    ensures
        line_cuttable(seq![' ', ' '] + l, 2),
        dedent_line(seq![' ', ' '] + l, 2) == l,
{
    let two = seq![' ', ' '];
    lemma_indent_bytes_spaced(l);
    assert((two + l).take(2) =~= two);
    lemma_byte_len_ascii(two);
    assert(byte_len((two + l).take(2)) == 2);
    lemma_cut_at_is(two + l, 2, 2);
    assert((two + l).skip(2) =~= l);
    assert(byte_len(l) >= 0) by {
        assert(encode_utf8(l).len() >= 0);
    }
}

/// Dedenting undoes the two-space indentation a body is written with: a body without
/// `\r` that neither starts nor ends with a line break, and whose least indented
/// non-blank line has no indentation, comes back unchanged from its block, which holds
/// a line break, the body indented by two spaces per line, and a line break.
pub proof fn lemma_dedent_undoes_indent(b: Seq<char>)
    requires
        b.len() > 0,
        lacks(b, '\r'),
        b[0] != '\n',
        b.last() != '\n',
        min_indent(lines(b)) == Some(0int),
    ensures
        dedent_ok(seq!['\n'] + indented(b) + seq!['\n']),
        dedent(seq!['\n'] + indented(b) + seq!['\n']) == b,
{
    let nl = seq!['\n'];
    let two = seq![' ', ' '];
    let lb = lines(b);
    let ms = lb.map_values(|l: Seq<char>| seq![' ', ' '] + l);
    let c = nl + indented(b) + nl;
    lemma_join_lines(b);
    assert forall|k: int| 0 <= k < ms.len() implies lacks(#[trigger] ms[k], '\n') && (ms[k].len()
        == 0 || ms[k].last() != '\r') by {
        assert(ms[k] == two + lb[k]);
        assert(lacks(lb[k], '\n') && lacks(lb[k], '\r'));
        if lb[k].len() > 0 {
            assert(ms[k].last() == lb[k].last());
        }
        assert forall|i: int| 0 <= i < ms[k].len() implies ms[k][i] != '\n' by {
            if i >= 2 {
                assert(ms[k][i] == lb[k][i - 2]);
            }
        }
    }
    lemma_lines_of_join_nl(ms);
    // The block body starts with an empty line, then the indented lines.
    let tail = indented(b) + nl;
    assert(c =~= nl + tail);
    assert(c.take(0) =~= Seq::<char>::empty());
    lemma_find_nl_at(c, 0);
    assert(c.skip(1) =~= tail);
    assert(crate::text::line_of(Seq::<char>::empty()) =~= Seq::<char>::empty());
    assert(lines(c) =~= seq![Seq::<char>::empty()] + ms);
    let lc = lines(c);
    // The common indentation is two spaces.
    lemma_min_indent_spaced(lb);
    assert(trim(Seq::<char>::empty()) =~= Seq::<char>::empty());
    lemma_min_indent_blank_front(Seq::<char>::empty(), ms);
    assert(common_indent(c) == 2);
    assert forall|k: int| 0 <= k < lc.len() implies line_cuttable(#[trigger] lc[k], 2)
        && dedent_line(lc[k], 2) == (if k == 0 {
        Seq::<char>::empty()
    } else {
        lb[k - 1]
    }) by {
        if k == 0 {
            lemma_dedent_empty_line();
        } else {
            assert(lc[k] == ms[k - 1]);
            assert(ms[k - 1] == two + lb[k - 1]);
            lemma_dedent_spaced_line(lb[k - 1]);
        }
    }
    let dl = lc.map_values(|l: Seq<char>| dedent_line(l, 2));
    assert(dl =~= seq![Seq::<char>::empty()] + lb);
    lemma_join_front(dl, nl);
    assert(dl.drop_first() =~= lb);
    assert(join(dl, nl) =~= nl + b);
    assert((nl + b).drop_first() =~= b);
    assert(trim_start_newlines(nl + b) == trim_start_newlines(b));
    assert(trim_start_newlines(b) == b);
    assert(trim_end_newlines(b) == b);
}

// ---------------------------------------------------------------------------
// Writing a block and reading it back
// ---------------------------------------------------------------------------

/// The state of reading the inside of a block after the text `t`: nesting depth,
/// inside a double-quoted string, and just after a backslash in it; `None` when the
/// block closes within `t`. Reading goes as `capture` does.
pub open spec fn scan(t: Seq<char>, open: char, close: char, depth: int, in_string: bool, escaped: bool) -> Option<
    (int, bool, bool),
>
    decreases t.len(),
{
    if t.len() == 0 {
        Some((depth, in_string, escaped))
    } else {
        let ch = t[0];
        let rest = t.drop_first();
        if in_string {
            if escaped {
                scan(rest, open, close, depth, true, false)
            } else if ch == '\\' {
                scan(rest, open, close, depth, true, true)
            } else if ch == '"' {
                scan(rest, open, close, depth, false, false)
            } else {
                scan(rest, open, close, depth, true, false)
            }
        } else if ch == open {
            scan(rest, open, close, depth + 1, false, escaped)
        } else if ch == close {
            if depth - 1 == 0 {
                None
            } else {
                scan(rest, open, close, depth - 1, false, escaped)
            }
        } else if ch == '"' {
            scan(rest, open, close, depth, true, escaped)
        } else {
            scan(rest, open, close, depth, false, escaped)
        }
    }
}

/// Outside double-quoted strings, braces balance in `t`, and every string it opens
/// is closed (backslash escapes inside strings included).
pub open spec fn balanced(t: Seq<char>) -> bool {
    scan(t, '{', '}', 1, false, false) == Some((1int, false, false))
}

/// The state after reading `a + b` is the state after reading `b` from where `a`
/// left off.
proof fn lemma_scan_concat(
    a: Seq<char>,
    b: Seq<char>,
    open: char,
    close: char,
    depth: int,
    in_string: bool,
    escaped: bool,
)
    ensures
        scan(a + b, open, close, depth, in_string, escaped) == match scan(
            a,
            open,
            close,
            depth,
            in_string,
            escaped,
        ) {
            Some((d, i, e)) => scan(b, open, close, d, i, e),
            None => None,
        },
    decreases a.len(),
{
    if a.len() == 0 {
        assert(a + b =~= b);
    } else {
        assert((a + b)[0] == a[0]);
        assert((a + b).drop_first() =~= a.drop_first() + b);
        let ch = a[0];
        if in_string {
            if escaped {
                lemma_scan_concat(a.drop_first(), b, open, close, depth, true, false);
            } else if ch == '\\' {
                lemma_scan_concat(a.drop_first(), b, open, close, depth, true, true);
            } else if ch == '"' {
                lemma_scan_concat(a.drop_first(), b, open, close, depth, false, false);
            } else {
                lemma_scan_concat(a.drop_first(), b, open, close, depth, true, false);
            }
        } else if ch == open {
            lemma_scan_concat(a.drop_first(), b, open, close, depth + 1, false, escaped);
        } else if ch == close {
            if depth - 1 != 0 {
                lemma_scan_concat(a.drop_first(), b, open, close, depth - 1, false, escaped);
            }
        } else if ch == '"' {
            lemma_scan_concat(a.drop_first(), b, open, close, depth, true, escaped);
        } else {
            lemma_scan_concat(a.drop_first(), b, open, close, depth, false, escaped);
        }
    }
}

/// Reading keeps the backslash flag off outside strings.
proof fn lemma_scan_escape_off(t: Seq<char>, depth: int, in_string: bool, escaped: bool)
    requires
        !in_string ==> !escaped,
    ensures
        scan(t, '{', '}', depth, in_string, escaped) matches Some((d, i, e)) ==> (!i ==> !e),
    decreases t.len(),
{
    if t.len() > 0 {
        let ch = t[0];
        let rest = t.drop_first();
        if in_string {
            if escaped {
                lemma_scan_escape_off(rest, depth, true, false);
            } else if ch == '\\' {
                lemma_scan_escape_off(rest, depth, true, true);
            } else if ch == '"' {
                lemma_scan_escape_off(rest, depth, false, false);
            } else {
                lemma_scan_escape_off(rest, depth, true, false);
            }
        } else if ch == '{' {
            lemma_scan_escape_off(rest, depth + 1, false, escaped);
        } else if ch == '}' {
            if depth - 1 != 0 {
                lemma_scan_escape_off(rest, depth - 1, false, escaped);
            }
        } else if ch == '"' {
            lemma_scan_escape_off(rest, depth, true, escaped);
        } else {
            lemma_scan_escape_off(rest, depth, false, escaped);
        }
    }
}

/// Reading from a state without a pending backslash, a line break and then spaces
/// leave the state as a line break alone does, and no backslash is pending after them.
proof fn lemma_scan_break_spaces(depth: int, in_string: bool, escaped: bool)
    requires
        depth >= 1,
        !in_string ==> !escaped,
    ensures
        scan(seq!['\n'], '{', '}', depth, in_string, escaped) == Some(
            (depth, in_string, false),
        ),
        scan(seq!['\n', ' ', ' '], '{', '}', depth, in_string, escaped) == Some(
            (depth, in_string, false),
        ),
{
    let e = Seq::<char>::empty();
    let n1 = seq!['\n'];
    let s1 = seq![' '];
    let s2 = seq![' ', ' '];
    let n3 = seq!['\n', ' ', ' '];
    assert(n1.drop_first() =~= e);
    assert(n3.drop_first() =~= s2);
    assert(s2.drop_first() =~= s1);
    assert(s1.drop_first() =~= e);
    assert(n1[0] == '\n' && n3[0] == '\n' && s2[0] == ' ' && s1[0] == ' ');
    let st = Some((depth, in_string, false));
    assert(scan(e, '{', '}', depth, in_string, false) == st);
    assert(scan(s1, '{', '}', depth, in_string, false) == scan(e, '{', '}', depth, in_string, false));
    assert(scan(s2, '{', '}', depth, in_string, false) == scan(s1, '{', '}', depth, in_string, false));
    assert(scan(n1, '{', '}', depth, in_string, escaped) == scan(e, '{', '}', depth, in_string, false));
    assert(scan(n3, '{', '}', depth, in_string, escaped) == scan(s2, '{', '}', depth, in_string, false));
}

proof fn lemma_scan_indented(lb: Seq<Seq<char>>, k: int)
    requires
        1 <= k <= lb.len(),
    ensures
        scan(
            seq!['\n'] + join(
                lb.take(k).map_values(|l: Seq<char>| seq![' ', ' '] + l),
                seq!['\n'],
            ),
            '{',
            '}',
            1,
            false,
            false,
        ) == scan(join(lb.take(k), seq!['\n']), '{', '}', 1, false, false),
    decreases k,
{
    let nl = seq!['\n'];
    let two = seq![' ', ' '];
    let ms = lb.take(k).map_values(|l: Seq<char>| seq![' ', ' '] + l);
    if k == 1 {
        assert(lb.take(1).len() == 1);
        assert(ms.len() == 1);
        assert(join(ms, nl) == ms[0]);
        assert(join(lb.take(1), nl) == lb[0]);
        assert(nl + ms[0] =~= seq!['\n', ' ', ' '] + lb[0]);
        lemma_scan_concat(seq!['\n', ' ', ' '], lb[0], '{', '}', 1, false, false);
        lemma_scan_break_spaces(1, false, false);
    } else {
        lemma_scan_indented(lb, k - 1);
        let prev_ms = lb.take(k - 1).map_values(|l: Seq<char>| seq![' ', ' '] + l);
        assert(ms.drop_last() =~= prev_ms);
        assert(lb.take(k).drop_last() =~= lb.take(k - 1));
        assert(ms.last() == two + lb[k - 1]);
        assert(lb.take(k).last() == lb[k - 1]);
        let left = nl + join(prev_ms, nl);
        let right = join(lb.take(k - 1), nl);
        assert(nl + join(ms, nl) =~= left + (seq!['\n', ' ', ' '] + lb[k - 1]));
        assert(join(lb.take(k), nl) =~= right + (nl + lb[k - 1]));
        lemma_scan_concat(left, seq!['\n', ' ', ' '] + lb[k - 1], '{', '}', 1, false, false);
        lemma_scan_concat(right, nl + lb[k - 1], '{', '}', 1, false, false);
        lemma_scan_escape_off(right, 1, false, false);
        match scan(right, '{', '}', 1, false, false) {
            Some((d, i, e)) => {
                lemma_scan_depth(right, 1, false, false);
                lemma_scan_concat(seq!['\n', ' ', ' '], lb[k - 1], '{', '}', d, i, e);
                lemma_scan_concat(nl, lb[k - 1], '{', '}', d, i, e);
                lemma_scan_break_spaces(d, i, e);
            },
            None => {},
        }
    }
}

/// Reading never lets the depth drop below one.
proof fn lemma_scan_depth(t: Seq<char>, depth: int, in_string: bool, escaped: bool)
    requires
        depth >= 1,
    ensures
        scan(t, '{', '}', depth, in_string, escaped) matches Some((d, i, e)) ==> d >= 1,
    decreases t.len(),
{
    if t.len() > 0 {
        let ch = t[0];
        let rest = t.drop_first();
        if in_string {
            if escaped {
                lemma_scan_depth(rest, depth, true, false);
            } else if ch == '\\' {
                lemma_scan_depth(rest, depth, true, true);
            } else if ch == '"' {
                lemma_scan_depth(rest, depth, false, false);
            } else {
                lemma_scan_depth(rest, depth, true, false);
            }
        } else if ch == '{' {
            lemma_scan_depth(rest, depth + 1, false, escaped);
        } else if ch == '}' {
            if depth - 1 != 0 {
                lemma_scan_depth(rest, depth - 1, false, escaped);
            }
        } else if ch == '"' {
            lemma_scan_depth(rest, depth, true, escaped);
        } else {
            lemma_scan_depth(rest, depth, false, escaped);
        }
    }
}

/// Capturing across text that does not close the block collects it whole.
proof fn lemma_capture_scan(
    s: Seq<char>,
    i: int,
    t: Seq<char>,
    depth: int,
    in_string: bool,
    escaped: bool,
    acc: Seq<char>,
)
    requires
        0 <= i,
        i + t.len() <= s.len(),
        s.subrange(i, i + t.len()) == t,
        depth >= 1,
        scan(t, '{', '}', depth, in_string, escaped) is Some,
    ensures
        ({
            let (d, n, e) = scan(t, '{', '}', depth, in_string, escaped)->0;
            capture(s, i, '{', '}', depth, in_string, escaped, acc) == capture(
                s,
                i + t.len(),
                '{',
                '}',
                d,
                n,
                e,
                acc + t,
            )
        }),
    decreases t.len(),
{
    if t.len() == 0 {
        assert(acc + t =~= acc);
    } else {
        let ch = t[0];
        assert(s[i] == ch) by {
            assert(s.subrange(i, i + t.len())[0] == s[i]);
        }
        let rest = t.drop_first();
        assert(s.subrange(i + 1, i + 1 + rest.len()) =~= rest) by {
            assert forall|j: int| 0 <= j < rest.len() implies s.subrange(i + 1, i + 1 + rest.len())[j]
                == rest[j] by {
                assert(s.subrange(i, i + t.len())[j + 1] == s[i + 1 + j]);
            }
        }
        assert(acc.push(ch) + rest =~= acc + t);
        if in_string {
            if escaped {
                lemma_capture_scan(s, i + 1, rest, depth, true, false, acc.push(ch));
            } else if ch == '\\' {
                lemma_capture_scan(s, i + 1, rest, depth, true, true, acc.push(ch));
            } else if ch == '"' {
                lemma_capture_scan(s, i + 1, rest, depth, false, false, acc.push(ch));
            } else {
                lemma_capture_scan(s, i + 1, rest, depth, true, false, acc.push(ch));
            }
        } else if ch == '{' {
            lemma_capture_scan(s, i + 1, rest, depth + 1, false, escaped, acc.push(ch));
        } else if ch == '}' {
            lemma_capture_scan(s, i + 1, rest, depth - 1, false, escaped, acc.push(ch));
        } else if ch == '"' {
            lemma_capture_scan(s, i + 1, rest, depth, true, escaped, acc.push(ch));
        } else {
            lemma_capture_scan(s, i + 1, rest, depth, false, escaped, acc.push(ch));
        }
    }
}

/// The text of a brace block named `name` holding `b`, as a `.bru` file writes it:
/// the name, ` {`, a line break, the body indented by two spaces, a line break, `}`
/// and a line break.
pub open spec fn written_block(name: Seq<char>, b: Seq<char>) -> Seq<char> {
    name + seq![' ', '{'] + (seq!['\n'] + indented(b) + seq!['\n']) + seq!['}', '\n']
}

proof fn lemma_name_end_at(s: Seq<char>, n: int, j: int)
    requires
        0 <= j <= n < s.len(),
        forall|m: int| j <= m < n ==> is_name_char_spec(#[trigger] s[m]),
        !is_name_char_spec(s[n]),
    ensures
        name_end(s, j) == n,
    decreases n - j,
{
    if j < n {
        lemma_name_end_at(s, n, j + 1);
    }
}

/// Reading back a written brace block gives that block: a non-empty name of name
/// chars and a body that neither starts nor ends with a line break, holds no `\r`,
/// whose least indented non-blank line has no indentation, and whose braces balance
/// outside strings, come back exactly (so JSON and GraphQL bodies survive intact).
pub proof fn lemma_written_block_reads_back(name: Seq<char>, b: Seq<char>)
    requires
        good_name(name),
        b.len() > 0,
        lacks(b, '\r'),
        b[0] != '\n',
        b.last() != '\n',
        min_indent(lines(b)) == Some(0int),
        balanced(b),
    ensures
        blocks_ok(tokens(written_block(name, b), 0)),
        blocks_spec(written_block(name, b)) == seq![
            BlockView { name, kind: BlockKind::Braces, body: b },
        ],
{
    let c = seq!['\n'] + indented(b) + seq!['\n'];
    let d = written_block(name, b);
    let n = name.len() as int;
    let k = n + 1;
    assert(d =~= name + seq![' ', '{'] + c + seq!['}', '\n']);
    assert(d.len() == n + 2 + c.len() + 2);
    assert(d[n] == ' ');
    assert(d[k] == '{');
    assert(d[k + 1 + c.len()] == '}');
    assert(d[k + 2 + c.len()] == '\n');
    assert forall|m: int| 0 <= m < n implies is_name_char_spec(#[trigger] d[m]) by {
        assert(d[m] == name[m]);
    }
    assert(!is_ws(d[0])) by {
        assert(d[0] == name[0]);
        assert(is_name_char_spec(name[0]));
    }
    lemma_name_end_at(d, n, 0);
    assert(ws_end(d, n + 1) == n + 1);
    assert(ws_end(d, n) == n + 1);
    // The body reads as balanced once indented.
    lemma_join_lines(b);
    let lb = lines(b);
    lemma_scan_indented(lb, lb.len() as int);
    assert(lb.take(lb.len() as int) =~= lb);
    let nl = seq!['\n'];
    assert(c =~= (nl + indented(b)) + nl);
    lemma_scan_concat(nl + indented(b), nl, '{', '}', 1, false, false);
    lemma_scan_break_spaces(1, false, false);
    assert(scan(c, '{', '}', 1, false, false) == Some((1int, false, false)));
    // Capture the body.
    assert(capture(d, k, '{', '}', 0, false, false, seq![]) == capture(
        d,
        k + 1,
        '{',
        '}',
        1,
        false,
        false,
        seq![],
    ));
    assert(d.subrange(k + 1, k + 1 + c.len()) =~= c);
    lemma_capture_scan(d, k + 1, c, 1, false, false, seq![]);
    assert(seq![] + c =~= c);
    let next = k + 2 + c.len();
    assert(capture(d, k, '{', '}', 0, false, false, seq![]) == (c, next));
    assert(tokens(d, next + 1) =~= Seq::<BlockView>::empty());
    assert(tokens(d, next) == tokens(d, next + 1));
    assert(d.subrange(0, n) =~= name);
    assert(tokens(d, 0) =~= seq![BlockView { name, kind: BlockKind::Braces, body: c }]);
    lemma_dedent_undoes_indent(b);
    assert(blocks_spec(d) =~= seq![BlockView { name, kind: BlockKind::Braces, body: b }]);
}

} // verus!
