//! Reading requests, environments and collection settings out of `.bru` blocks.
use vstd::prelude::*;

use crate::blocks::{block_views, blocks_ok, blocks_spec, parse_blocks, tokens, Block, BlockView};
use crate::model::{
    entry_views, Auth, AuthView, BodyMode, BodyModeView, Entry, EntryView, Environment, Method,
    Request, RequestType, RequestView,
};
use crate::paths::{file_stem, path_stem};
use crate::text::{
    find, lemma_find_some, lemma_trim_shape, lemma_trim_start_shape, matches_at, chars_of, find_char, line_ranges, lines, parse_i64, parse_i64_spec, push_str, range_texts,
    ranges_within, same_text, split_once, string_of, texts, trim, trim_range, trim_start,
    trim_start_index,
};

verus! {

// ---------------------------------------------------------------------------
// Entries of a block body
// ---------------------------------------------------------------------------

/// The parts of a `key: value` line: whether it is enabled (no leading `~`), the
/// trimmed key and the trimmed value; `None` for blank lines and lines without `:`.
pub open spec fn entry_fields(line: Seq<char>) -> Option<(bool, Seq<char>, Seq<char>)> {
    let t = trim(line);
    if t.len() == 0 {
        None
    } else {
        let rest = if t[0] == '~' {
            trim_start(t.drop_first())
        } else {
            t
        };
        match split_once(rest, ':') {
            Some((k, v)) => Some((t[0] != '~', trim(k), trim(v))),
            None => None,
        }
    }
}

/// The entry one line holds; lines with an empty key hold none unless `keep_unnamed`.
pub open spec fn line_entry(line: Seq<char>, keep_unnamed: bool) -> Option<EntryView> {
    match entry_fields(line) {
        Some((enabled, k, v)) => if k.len() == 0 && !keep_unnamed {
            None
        } else {
            Some(EntryView { name: k, value: v, enabled })
        },
        None => None,
    }
}

/// The entries a sequence of lines holds, in order.
pub open spec fn line_entries(ls: Seq<Seq<char>>, keep_unnamed: bool) -> Seq<EntryView>
    decreases ls.len(),
{
    if ls.len() == 0 {
        seq![]
    } else {
        line_entries(ls.drop_last(), keep_unnamed) + match line_entry(ls.last(), keep_unnamed) {
            Some(e) => seq![e],
            None => seq![],
        }
    }
}

/// The ordered `key: value` entries of a brace-block body.
pub open spec fn body_entries(body: Seq<char>) -> Seq<EntryView> {
    line_entries(lines(body), false)
}

/// Text without a `:`.
pub open spec fn no_colon(s: Seq<char>) -> bool {
    forall|i: int| 0 <= i < s.len() ==> s[i] != ':'
}

/// The shape of an entry read from a block body: a non-empty trimmed name without
/// `:`, and a trimmed value.
pub open spec fn entry_shaped(e: EntryView) -> bool {
    &&& e.name.len() > 0
    &&& trim(e.name) == e.name
    &&& no_colon(e.name)
    &&& trim(e.value) == e.value
}

proof fn lemma_sub_no_colon(s: Seq<char>, a: int, b: int)
    requires
        no_colon(s),
        0 <= a <= b <= s.len(),
    ensures
        no_colon(s.subrange(a, b)),
{
    assert forall|i: int| 0 <= i < b - a implies s.subrange(a, b)[i] != ':' by {
        assert(s.subrange(a, b)[i] == s[a + i]);
    }
}

/// A line gives an entry of the right shape, enabled exactly when the trimmed line
/// does not start with `~`; a blank line, a line without `:` and a line with an empty
/// key give none.
pub proof fn lemma_entry_line_shape(line: Seq<char>)
    ensures
        line_entry(line, false) matches Some(e) ==> entry_shaped(e) && e.enabled == (trim(
            line,
        )[0] != '~'),
        trim(line).len() == 0 ==> line_entry(line, false) is None,
        no_colon(line) ==> line_entry(line, false) is None,
{
    let t = trim(line);
    lemma_trim_shape(line);
    if t.len() > 0 {
        let rest = if t[0] == '~' {
            trim_start(t.drop_first())
        } else {
            t
        };
        lemma_trim_start_shape(t.drop_first());
        if no_colon(line) {
            let (a, b) = choose|a: int, b: int| 0 <= a <= b <= line.len() && t == line.subrange(a, b);
            lemma_sub_no_colon(line, a, b);
            if t[0] == '~' {
                let c = choose|c: int| 0 <= c <= t.drop_first().len() && trim_start(t.drop_first()) == t.drop_first().skip(c);
                lemma_sub_no_colon(t, 1 + c, t.len() as int);
                assert(rest =~= t.subrange(1 + c, t.len() as int));
            }
            lemma_find_some(rest, seq![':']);
            if find(rest, seq![':']) is Some {
                let i = find(rest, seq![':'])->0;
                assert(rest.subrange(i, i + 1)[0] == rest[i]);
            }
        }
        match split_once(rest, ':') {
            Some((k, v)) => {
                lemma_find_some(rest, seq![':']);
                let i = find(rest, seq![':'])->0;
                assert(no_colon(k)) by {
                    assert forall|j: int| 0 <= j < k.len() implies k[j] != ':' by {
                        assert(!matches_at(rest, seq![':'], j));
                        assert(rest.subrange(j, j + 1)[0] == rest[j]);
                        if rest[j] == ':' {
                            assert(rest.subrange(j, j + 1) =~= seq![':']);
                        }
                    }
                }
                lemma_trim_shape(k);
                lemma_trim_shape(v);
                let (a, b) = choose|a: int, b: int| 0 <= a <= b <= k.len() && trim(k) == k.subrange(a, b);
                lemma_sub_no_colon(k, a, b);
            },
            None => {},
        }
    }
}

/// Which lines of `ls` give the entries `es`: positions `p`, in increasing order, each
/// giving the entry at its place, and every line that gives an entry among them.
pub open spec fn entries_from_lines(ls: Seq<Seq<char>>, es: Seq<EntryView>, p: Seq<int>) -> bool {
    &&& p.len() == es.len()
    &&& forall|k: int|
        0 <= k < p.len() ==> 0 <= #[trigger] p[k] < ls.len() && line_entry(ls[p[k]], false)
            == Some(es[k])
    &&& forall|a: int, b: int| 0 <= a < b < p.len() ==> #[trigger] p[a] < #[trigger] p[b]
    &&& forall|j: int|
        0 <= j < ls.len() && (#[trigger] line_entry(ls[j], false)) is Some ==> exists|k: int|
            0 <= k < p.len() && p[k] == j
}

proof fn lemma_line_entries_positions(ls: Seq<Seq<char>>)
    ensures
        exists|p: Seq<int>| entries_from_lines(ls, line_entries(ls, false), p),
    decreases ls.len(),
{
    if ls.len() == 0 {
        assert(entries_from_lines(ls, line_entries(ls, false), Seq::<int>::empty()));
    } else {
        let front = ls.drop_last();
        lemma_line_entries_positions(front);
        let q = choose|p: Seq<int>| entries_from_lines(front, line_entries(front, false), p);
        let es = line_entries(ls, false);
        let n = ls.len() - 1;
        match line_entry(ls.last(), false) {
            Some(e) => {
                let p = q.push(n);
                assert(es == line_entries(front, false) + seq![e]);
                assert forall|j: int|
                    0 <= j < ls.len() && (#[trigger] line_entry(ls[j], false)) is Some implies exists|k: int|
                    0 <= k < p.len() && p[k] == j by {
                    if j < n {
                        assert(ls[j] == front[j]);
                        assert(line_entry(front[j], false) is Some);
                        let k = choose|k: int| 0 <= k < q.len() && q[k] == j;
                        assert(p[k] == j);
                    } else {
                        assert(p[q.len() as int] == j);
                    }
                }
                assert forall|k: int| 0 <= k < p.len() implies 0 <= #[trigger] p[k] < ls.len()
                    && line_entry(ls[p[k]], false) == Some(es[k]) by {
                    if k < q.len() {
                        assert(ls[q[k]] == front[q[k]]);
                    }
                }
                assert(entries_from_lines(ls, es, p));
            },
            None => {
                assert(es == line_entries(front, false) + seq![]);
                assert(es =~= line_entries(front, false));
                assert forall|j: int|
                    0 <= j < ls.len() && (#[trigger] line_entry(ls[j], false)) is Some implies exists|k: int|
                    0 <= k < q.len() && q[k] == j by {
                    assert(j < n);
                    assert(ls[j] == front[j]);
                    assert(line_entry(front[j], false) is Some);
                }
                assert forall|k: int| 0 <= k < q.len() implies 0 <= #[trigger] q[k] < ls.len()
                    && line_entry(ls[q[k]], false) == Some(es[k]) by {
                    assert(ls[q[k]] == front[q[k]]);
                }
                assert(entries_from_lines(ls, es, q));
            },
        }
    }
}

/// The entries of a block body follow its lines in order, one per line at most; each
/// has a non-empty trimmed name without `:` and a trimmed value, and is enabled
/// exactly when its trimmed line does not start with `~`; blank lines, lines without
/// `:` and lines with an empty key give none.
pub proof fn lemma_body_entries_shape(body: Seq<char>)
    ensures
        exists|p: Seq<int>| entries_from_lines(lines(body), body_entries(body), p),
        forall|k: int|
            0 <= k < body_entries(body).len() ==> entry_shaped(#[trigger] body_entries(body)[k]),
        forall|j: int|
            0 <= j < lines(body).len() ==> {
                &&& (#[trigger] line_entry(lines(body)[j], false)) matches Some(e) ==> e.enabled == (
                trim(lines(body)[j])[0] != '~')
                &&& trim(lines(body)[j]).len() == 0 ==> line_entry(lines(body)[j], false) is None
                &&& no_colon(lines(body)[j]) ==> line_entry(lines(body)[j], false) is None
            },
{
    let ls = lines(body);
    lemma_line_entries_positions(ls);
    let p = choose|p: Seq<int>| entries_from_lines(ls, body_entries(body), p);
    assert forall|k: int| 0 <= k < body_entries(body).len() implies entry_shaped(
        #[trigger] body_entries(body)[k],
    ) by {
        assert(0 <= p[k] < ls.len());
        lemma_entry_line_shape(ls[p[k]]);
    }
    assert forall|j: int| 0 <= j < ls.len() implies {
        &&& (#[trigger] line_entry(ls[j], false)) matches Some(e) ==> e.enabled == (trim(ls[j])[0]
            != '~')
        &&& trim(ls[j]).len() == 0 ==> line_entry(ls[j], false) is None
        &&& no_colon(ls[j]) ==> line_entry(ls[j], false) is None
    } by {
        lemma_entry_line_shape(ls[j]);
    }
}

/// Value of the first entry named `key`.
pub open spec fn lookup(es: Seq<EntryView>, key: Seq<char>) -> Option<Seq<char>>
    decreases es.len(),
{
    if es.len() == 0 {
        None
    } else if es[0].name == key {
        Some(es[0].value)
    } else {
        lookup(es.drop_first(), key)
    }
}

/// A list char: `,` or newline.
pub open spec fn is_list_sep(c: char) -> bool {
    c == ',' || c == '\n'
}

/// `i` is the first list separator of `s`.
pub open spec fn is_first_sep(s: Seq<char>, i: int) -> bool {
    0 <= i < s.len() && is_list_sep(s[i]) && forall|j: int| 0 <= j < i ==> !is_list_sep(s[j])
}

/// The first list separator of `s`.
pub open spec fn first_sep(s: Seq<char>) -> Option<int> {
    if exists|i: int| is_first_sep(s, i) {
        Some(choose|i: int| is_first_sep(s, i))
    } else {
        None
    }
}

/// A name kept when non-empty.
pub open spec fn nonempty(t: Seq<char>) -> Seq<Seq<char>> {
    if t.len() > 0 {
        seq![t]
    } else {
        seq![]
    }
}

/// The trimmed, non-empty items of a comma/newline separated list.
pub open spec fn list_names(s: Seq<char>) -> Seq<Seq<char>>
    decreases s.len(),
{
    match first_sep(s) {
        Some(i) => if 0 <= i < s.len() {
            nonempty(trim(s.take(i))) + list_names(s.skip(i + 1))
        } else {
            seq![]
        },
        None => nonempty(trim(s)),
    }
}

/// A separator at `j` means the text has a first separator.
proof fn lemma_first_sep_exists(s: Seq<char>, j: int)
    requires
        0 <= j < s.len(),
        is_list_sep(s[j]),
    ensures
        exists|i: int| is_first_sep(s, i),
    decreases j,
{
    if exists|k: int| 0 <= k < j && is_list_sep(s[k]) {
        let k = choose|k: int| 0 <= k < j && is_list_sep(s[k]);
        lemma_first_sep_exists(s, k);
    } else {
        assert(is_first_sep(s, j));
    }
}

/// A stretch of text holds no comma and no newline.
pub open spec fn no_list_break(t: Seq<char>) -> bool {
    forall|k: int| 0 <= k < t.len() ==> t[k] != ',' && t[k] != '\n'
}

/// The text trimmed, kept when non-empty, is a clean name.
proof fn lemma_nonempty_trim_clean(t: Seq<char>)
    requires
        no_list_break(t),
    ensures
        forall|n: int| 0 <= n < nonempty(trim(t)).len() ==> {
            let x = #[trigger] nonempty(trim(t))[n];
            x.len() > 0 && trim(x) == x && no_list_break(x)
        },
{
    lemma_trim_shape(t);
    let (a, b) = choose|a: int, b: int| 0 <= a <= b <= t.len() && trim(t) == t.subrange(a, b);
    assert forall|k: int| 0 <= k < trim(t).len() implies trim(t)[k] != ',' && trim(t)[k] != '\n' by {
        assert(trim(t)[k] == t[a + k]);
    }
}

/// The names of a list are its items between commas and newlines, each trimmed and
/// non-empty: no name is blank, has whitespace at either end, or holds a comma or a
/// newline.
pub proof fn lemma_list_names_clean(s: Seq<char>)
    ensures
        forall|n: int| 0 <= n < list_names(s).len() ==> {
            let x = #[trigger] list_names(s)[n];
            x.len() > 0 && trim(x) == x && no_list_break(x)
        },
    decreases s.len(),
{
    match first_sep(s) {
        Some(i) => {
            if 0 <= i < s.len() {
                let head = s.take(i);
                let tail = s.skip(i + 1);
                assert(is_first_sep(s, i));
                assert(no_list_break(head)) by {
                    assert forall|k: int| 0 <= k < head.len() implies head[k] != ',' && head[k] != '\n' by {
                        assert(!is_list_sep(s[k]));
                    }
                }
                lemma_nonempty_trim_clean(head);
                lemma_list_names_clean(tail);
                let l = nonempty(trim(head));
                assert(list_names(s) == l + list_names(tail));
                assert forall|n: int| 0 <= n < list_names(s).len() implies {
                    let x = #[trigger] list_names(s)[n];
                    x.len() > 0 && trim(x) == x && no_list_break(x)
                } by {
                    if n < l.len() {
                        assert(list_names(s)[n] == l[n]);
                    } else {
                        assert(list_names(s)[n] == list_names(tail)[n - l.len()]);
                    }
                }
            }
        },
        None => {
            assert(no_list_break(s)) by {
                assert forall|k: int| 0 <= k < s.len() implies s[k] != ',' && s[k] != '\n' by {
                    if is_list_sep(s[k]) {
                        lemma_first_sep_exists(s, k);
                    }
                }
            }
            lemma_nonempty_trim_clean(s);
        },
    }
}

/// A list without commas or newlines holds one name, the text trimmed, unless it is
/// blank.
pub proof fn lemma_list_single_item(s: Seq<char>)
    requires
        no_list_break(s),
    ensures
        list_names(s) == nonempty(trim(s)),
{
    assert forall|i: int| !is_first_sep(s, i) by {
        if 0 <= i < s.len() {
            assert(s[i] != ',' && s[i] != '\n');
        }
    }
}

/// Splitting a list at its first comma: the names are the first item's (if it is not
/// blank) followed by the names of the rest.
pub proof fn lemma_list_names_split(a: Seq<char>, b: Seq<char>)
    requires
        no_list_break(a),
    ensures
        list_names(a + seq![','] + b) == nonempty(trim(a)) + list_names(b),
{
    let s = a + seq![','] + b;
    assert(is_first_sep(s, a.len() as int)) by {
        assert forall|j: int| 0 <= j < a.len() implies !is_list_sep(s[j]) by {
            assert(s[j] == a[j]);
        }
    }
    assert(first_sep(s) == Some(a.len() as int));
    assert(s.take(a.len() as int) =~= a);
    assert(s.skip(a.len() as int + 1) =~= b);
}

/// The entry held by the line `cs[lo..hi]`.
pub fn entry_in(cs: &Vec<char>, lo: usize, hi: usize, keep_unnamed: bool) -> (r: Option<Entry>)
    requires
        lo <= hi <= cs.len(),
    ensures
        match line_entry(cs@.subrange(lo as int, hi as int), keep_unnamed) {
            Some(e) => r matches Some(x) && x@ == e,
            None => r is None,
        },
{
    let (a, b) = trim_range(cs, lo, hi);
    let ghost t = cs@.subrange(a as int, b as int);
    if a == b {
        return None;
    }
    let enabled = cs[a] != '~';
    let start = if cs[a] == '~' {
        assert(t.drop_first() =~= cs@.subrange(a + 1, b as int));
        trim_start_index(cs, a + 1, b)
    } else {
        a
    };
    let ghost rest = cs@.subrange(start as int, b as int);
    match find_char(cs, start, b, ':') {
        None => None,
        Some(c) => {
            assert(rest.take(c - start) =~= cs@.subrange(start as int, c as int));
            assert(rest.skip(c - start + 1) =~= cs@.subrange(c + 1, b as int));
            let (ka, kb) = trim_range(cs, start, c);
            if ka == kb && !keep_unnamed {
                return None;
            }
            let (va, vb) = trim_range(cs, c + 1, b);
            Some(Entry::new(string_of(cs, ka, kb), string_of(cs, va, vb), enabled))
        },
    }
}

/// The entries held by the lines of `cs[lo..hi]`.
pub fn entries_in(cs: &Vec<char>, lo: usize, hi: usize, keep_unnamed: bool) -> (r: Vec<Entry>)
    requires
        lo <= hi <= cs.len(),
    ensures
        entry_views(r@) == line_entries(lines(cs@.subrange(lo as int, hi as int)), keep_unnamed),
{
    let rs = line_ranges(cs, lo, hi);
    let ghost ls = lines(cs@.subrange(lo as int, hi as int));
    let mut out: Vec<Entry> = Vec::new();
    let mut k: usize = 0;
    while k < rs.len()
        invariant
            0 <= k <= rs.len(),
            range_texts(cs@, rs@) == ls,
            ranges_within(rs@, lo as int, hi as int),
            hi <= cs.len(),
            entry_views(out@) == line_entries(ls.take(k as int), keep_unnamed),
        decreases rs.len() - k,
    {
        let (l, h) = rs[k];
        assert(ls[k as int] == cs@.subrange(l as int, h as int));
        assert(ls.take(k + 1).drop_last() =~= ls.take(k as int));
        assert(ls.take(k + 1).last() == ls[k as int]);
        let ghost before = out@;
        match entry_in(cs, l, h, keep_unnamed) {
            Some(e) => {
                out.push(e);
                assert(entry_views(out@) =~= entry_views(before) + seq![out@.last()@]);
            },
            None => {
                assert(line_entries(ls.take(k + 1), keep_unnamed) =~= line_entries(
                    ls.take(k as int),
                    keep_unnamed,
                ) + seq![]);
            },
        }
        k += 1;
    }
    assert(ls.take(rs.len() as int) =~= ls);
    out
}

/// Value of the first entry named `key` among `es`.
fn lookup_entries(es: &Vec<Entry>, key: &str) -> (r: Option<String>)
    ensures
        match lookup(entry_views(es@), key@) {
            Some(v) => r matches Some(x) && x@ == v,
            None => r is None,
        },
{
    let ghost vs = entry_views(es@);
    assert(vs.skip(0) =~= vs);
    let mut k: usize = 0;
    while k < es.len()
        invariant
            0 <= k <= es.len(),
            vs == entry_views(es@),
            lookup(vs, key@) == lookup(vs.skip(k as int), key@),
        decreases es.len() - k,
    {
        assert(vs.skip(k as int).drop_first() =~= vs.skip(k + 1));
        assert(vs.skip(k as int)[0] == es@[k as int]@);
        if same_text(es[k].name.as_str(), key) {
            return Some(es[k].value.clone());
        }
        k += 1;
    }
    assert(vs.skip(k as int).len() == 0);
    None
}

impl Block {
    /// Parse a brace block as ordered `key: value` entries (skipping blank lines and
    /// the empty placeholder line Bruno writes as `: `). A leading `~` marks an entry
    /// as disabled.
    pub fn entries(&self) -> (r: Vec<Entry>)
        ensures
            entry_views(r@) == body_entries(self.body@),
    {
        let cs = chars_of(self.body.as_str());
        assert(cs@.subrange(0, cs.len() as int) =~= cs@);
        entries_in(&cs, 0, cs.len(), false)
    }

    /// Look up a single `key: value` within a brace block.
    pub fn value(&self, key: &str) -> (r: Option<String>)
        ensures
            match lookup(body_entries(self.body@), key@) {
                Some(v) => r matches Some(x) && x@ == v,
                None => r is None,
            },
    {
        let es = self.entries();
        lookup_entries(&es, key)
    }

    /// Parse a bracket block as a comma/newline separated list of names.
    pub fn names(&self) -> (r: Vec<String>)
        ensures
            texts(r@) == list_names(self.body@),
    {
        let cs = chars_of(self.body.as_str());
        let ghost s = cs@;
        let mut out: Vec<String> = Vec::new();
        let mut pos: usize = 0;
        let mut i: usize = 0;
        assert(s.skip(0) =~= s);
        while i < cs.len()
            invariant
                0 <= pos <= i <= cs.len(),
                s == cs@,
                forall|j: int| pos <= j < i ==> !is_list_sep(s[j]),
                list_names(s) == texts(out@) + list_names(s.skip(pos as int)),
            decreases cs.len() - i,
        {
            if cs[i] == ',' || cs[i] == '\n' {
                let ghost rest = s.skip(pos as int);
                proof {
                    assert(is_first_sep(rest, i - pos));
                    let k = choose|k: int| is_first_sep(rest, k);
                    if k < i - pos {
                        assert(!is_list_sep(rest[k]));
                    } else if k > i - pos {
                        assert(!is_list_sep(rest[i - pos]));
                    }
                    assert(first_sep(rest) == Some(i - pos));
                    assert(rest.take(i - pos) =~= s.subrange(pos as int, i as int));
                    assert(rest.skip(i - pos + 1) =~= s.skip(i + 1));
                }
                let (a, b) = trim_range(&cs, pos, i);
                let ghost before = out@;
                if a < b {
                    out.push(string_of(&cs, a, b));
                    assert(texts(out@) =~= texts(before) + seq![s.subrange(a as int, b as int)]);
                } else {
                    assert(texts(out@) =~= texts(before) + seq![]);
                }
                pos = i + 1;
            }
            i += 1;
        }
        let ghost rest = s.skip(pos as int);
        proof {
            assert forall|k: int| !is_first_sep(rest, k) by {
                if is_first_sep(rest, k) {
                    assert(!is_list_sep(s[pos + k]));
                }
            }
            assert(rest =~= s.subrange(pos as int, cs.len() as int));
        }
        let (a, b) = trim_range(&cs, pos, cs.len());
        let ghost before = out@;
        if a < b {
            out.push(string_of(&cs, a, b));
            assert(texts(out@) =~= texts(before) + seq![s.subrange(a as int, b as int)]);
        } else {
            assert(texts(out@) =~= texts(before) + seq![]);
        }
        out
    }
}

// ---------------------------------------------------------------------------
// Blocks of a document
// ---------------------------------------------------------------------------

/// The first block with the given name.
pub open spec fn first_named(bs: Seq<BlockView>, name: Seq<char>) -> Option<BlockView>
    decreases bs.len(),
{
    if bs.len() == 0 {
        None
    } else if bs[0].name == name {
        Some(bs[0])
    } else {
        first_named(bs.drop_first(), name)
    }
}

/// The value of `key` in an optional block.
pub open spec fn block_value(b: Option<BlockView>, key: Seq<char>) -> Option<Seq<char>> {
    match b {
        Some(b) => lookup(body_entries(b.body), key),
        None => None,
    }
}

/// The entries of an optional block (none when absent).
pub open spec fn block_entries(b: Option<BlockView>) -> Seq<EntryView> {
    match b {
        Some(b) => body_entries(b.body),
        None => seq![],
    }
}

/// The body of an optional block (empty when absent).
pub open spec fn block_body(b: Option<BlockView>) -> Seq<char> {
    match b {
        Some(b) => b.body,
        None => seq![],
    }
}

/// A text or the empty text.
pub open spec fn or_empty(v: Option<Seq<char>>) -> Seq<char> {
    match v {
        Some(v) => v,
        None => seq![],
    }
}

/// The bearer token of `auth:bearer { token: ... }` (empty when absent).
pub open spec fn bearer_of(bs: Seq<BlockView>) -> Seq<char> {
    or_empty(block_value(first_named(bs, "auth:bearer"@), "token"@))
}

/// Auth selected by `auth { mode: ... }`.
pub open spec fn auth_of(bs: Seq<BlockView>) -> AuthView {
    let mode = trim(or_empty(block_value(first_named(bs, "auth"@), "mode"@)));
    if mode == "inherit"@ {
        AuthView::Inherit
    } else if mode == "bearer"@ {
        AuthView::Bearer(bearer_of(bs))
    } else {
        AuthView::NoAuth
    }
}

/// Index of the first block named `name`.
fn find_block(blocks: &[Block], name: &str) -> (r: Option<usize>)
    ensures
        match first_named(block_views(blocks@), name@) {
            Some(b) => r matches Some(i) && i < blocks@.len() && blocks@[i as int]@ == b,
            None => r is None,
        },
{
    let ghost bs = block_views(blocks@);
    assert(bs.skip(0) =~= bs);
    let mut k: usize = 0;
    while k < blocks.len()
        invariant
            0 <= k <= blocks@.len(),
            bs == block_views(blocks@),
            first_named(bs, name@) == first_named(bs.skip(k as int), name@),
        decreases blocks@.len() - k,
    {
        assert(bs.skip(k as int).drop_first() =~= bs.skip(k + 1));
        assert(bs.skip(k as int)[0] == blocks@[k as int]@);
        if same_text(blocks[k].name.as_str(), name) {
            return Some(k);
        }
        k += 1;
    }
    None
}

/// Value of `key` in the first block named `name`.
fn find_value(blocks: &[Block], name: &str, key: &str) -> (r: Option<String>)
    ensures
        match block_value(first_named(block_views(blocks@), name@), key@) {
            Some(v) => r matches Some(x) && x@ == v,
            None => r is None,
        },
{
    match find_block(blocks, name) {
        Some(i) => blocks[i].value(key),
        None => None,
    }
}

/// Entries of the first block named `name` (none when absent).
fn find_entries(blocks: &[Block], name: &str) -> (r: Vec<Entry>)
    ensures
        entry_views(r@) == block_entries(first_named(block_views(blocks@), name@)),
{
    match find_block(blocks, name) {
        Some(i) => blocks[i].entries(),
        None => {
            let v: Vec<Entry> = Vec::new();
            assert(entry_views(v@) =~= Seq::<EntryView>::empty());
            v
        },
    }
}

/// Body of the first block named `name` (empty when absent).
fn find_body(blocks: &[Block], name: &str) -> (r: String)
    ensures
        r@ == block_body(first_named(block_views(blocks@), name@)),
{
    match find_block(blocks, name) {
        Some(i) => blocks[i].body.clone(),
        None => String::new(),
    }
}

/// Resolve auth from a set of blocks (used for both requests and `collection.bru`).
/// `auth { mode: ... }` selects the scheme; `auth:bearer { token: ... }` carries the token.
pub fn parse_auth(blocks: &[Block]) -> (r: Auth)
    ensures
        r@ == auth_of(block_views(blocks@)),
{
    let mode = match find_value(blocks, "auth", "mode") {
        Some(m) => m,
        None => String::new(),
    };
    let cs = chars_of(mode.as_str());
    assert(cs@.subrange(0, cs.len() as int) =~= cs@);
    let (a, b) = trim_range(&cs, 0, cs.len());
    let m = string_of(&cs, a, b);
    if same_text(m.as_str(), "inherit") {
        Auth::Inherit
    } else if same_text(m.as_str(), "bearer") {
        Auth::Bearer(bearer_token(blocks))
    } else {
        Auth::NoAuth
    }
}

fn bearer_token(blocks: &[Block]) -> (r: String)
    ensures
        r@ == bearer_of(block_views(blocks@)),
{
    match find_value(blocks, "auth:bearer", "token") {
        Some(t) => t,
        None => String::new(),
    }
}

// ---------------------------------------------------------------------------
// Requests
// ---------------------------------------------------------------------------

/// The first block whose name is an HTTP method.
pub open spec fn first_method_block(bs: Seq<BlockView>) -> Option<BlockView>
    decreases bs.len(),
{
    if bs.len() == 0 {
        None
    } else if Method::from_name(bs[0].name) is Some {
        Some(bs[0])
    } else {
        first_method_block(bs.drop_first())
    }
}

/// The name block that carries a body of the given mode.
pub open spec fn body_block_name(mode: BodyModeView) -> Option<Seq<char>> {
    match mode {
        BodyModeView::Json => Some("body:json"@),
        BodyModeView::Text => Some("body:text"@),
        BodyModeView::Xml => Some("body:xml"@),
        BodyModeView::Graphql => Some("body:graphql"@),
        BodyModeView::Other(name) => Some("body:"@ + name),
        BodyModeView::NoBody => None,
    }
}

/// The body text of a request with the given mode.
pub open spec fn body_of(bs: Seq<BlockView>, mode: BodyModeView) -> Seq<char> {
    match body_block_name(mode) {
        Some(n) => block_body(first_named(bs, n)),
        None => seq![],
    }
}

/// A request's auth: the method block's `auth:` field wins; without it the
/// `auth { mode }` block decides.
pub open spec fn request_auth(bs: Seq<BlockView>, field: Option<Seq<char>>) -> AuthView {
    match field {
        Some(a) => if a == "inherit"@ {
            AuthView::Inherit
        } else if a == "none"@ {
            AuthView::NoAuth
        } else if a == "bearer"@ {
            AuthView::Bearer(bearer_of(bs))
        } else {
            auth_of(bs)
        },
        None => auth_of(bs),
    }
}

/// The request a tokenized `.bru` document describes; `None` without a method block.
pub open spec fn request_of(bs: Seq<BlockView>, path: Seq<char>) -> Option<RequestView> {
    let meta = first_named(bs, "meta"@);
    let name = match block_value(meta, "name"@) {
        Some(n) => n,
        None => match path_stem(path) {
            Some(s) => s,
            None => "Untitled"@,
        },
    };
    let seq = match block_value(meta, "seq"@) {
        Some(raw) => match parse_i64_spec(raw) {
            Some(v) => v,
            None => i64::MAX,
        },
        None => i64::MAX,
    };
    let req_type = match block_value(meta, "type"@) {
        Some(raw) => RequestType::parse_spec(raw),
        None => RequestType::Http,
    };
    match first_method_block(bs) {
        None => None,
        Some(mb) => {
            let fields = body_entries(mb.body);
            let body_mode = match lookup(fields, "body"@) {
                Some(raw) => BodyMode::parse_spec(raw),
                None => BodyModeView::NoBody,
            };
            Some(
                RequestView {
                    name,
                    seq,
                    req_type,
                    method: Method::from_name(mb.name)->0,
                    url: or_empty(lookup(fields, "url"@)),
                    body_mode,
                    auth: request_auth(bs, lookup(fields, "auth"@)),
                    headers: block_entries(first_named(bs, "headers"@)),
                    path_params: block_entries(first_named(bs, "params:path"@)),
                    query_params: block_entries(first_named(bs, "params:query"@)),
                    body: body_of(bs, body_mode),
                    path,
                },
            )
        },
    }
}

proof fn lemma_first_method_block(bs: Seq<BlockView>)
    ensures
        first_method_block(bs) matches Some(b) ==> Method::from_name(b.name) is Some,
    decreases bs.len(),
{
    if bs.len() > 0 {
        lemma_first_method_block(bs.drop_first());
    }
}

/// Index of the first block named after an HTTP method.
fn find_method_block(blocks: &[Block]) -> (r: Option<usize>)
    ensures
        match first_method_block(block_views(blocks@)) {
            Some(b) => r matches Some(i) && i < blocks@.len() && blocks@[i as int]@ == b,
            None => r is None,
        },
{
    let ghost bs = block_views(blocks@);
    assert(bs.skip(0) =~= bs);
    let mut k: usize = 0;
    while k < blocks.len()
        invariant
            0 <= k <= blocks@.len(),
            bs == block_views(blocks@),
            first_method_block(bs) == first_method_block(bs.skip(k as int)),
        decreases blocks@.len() - k,
    {
        assert(bs.skip(k as int).drop_first() =~= bs.skip(k + 1));
        assert(bs.skip(k as int)[0] == blocks@[k as int]@);
        if Method::from_block_name(blocks[k].name.as_str()).is_some() {
            return Some(k);
        }
        k += 1;
    }
    None
}

/// Parse a request `.bru` file into a [`Request`].
pub fn parse_request(input: &str, path: &str) -> (r: Option<Request>)
    requires
        blocks_ok(tokens(input@, 0)),
    ensures
        match request_of(blocks_spec(input@), path@) {
            Some(v) => r matches Some(req) && req@ == v,
            None => r is None,
        },
{
    let blocks = parse_blocks(input);
    let bs = blocks.as_slice();
    let name = match find_value(bs, "meta", "name") {
        Some(n) => n,
        None => match file_stem(path) {
            Some(s) => s,
            None => "Untitled".to_string(),
        },
    };
    let seq = match find_value(bs, "meta", "seq") {
        Some(raw) => {
            let cs = chars_of(raw.as_str());
            assert(cs@.subrange(0, cs.len() as int) =~= cs@);
            match parse_i64(&cs, 0, cs.len()) {
                Some(v) => v,
                None => i64::MAX,
            }
        },
        None => i64::MAX,
    };
    let req_type = match find_value(bs, "meta", "type") {
        Some(raw) => RequestType::parse(raw.as_str()),
        None => RequestType::Http,
    };
    let mi = match find_method_block(bs) {
        Some(i) => i,
        None => {
            return None;
        },
    };
    let method_block = &bs[mi];
    proof {
        lemma_first_method_block(block_views(bs@));
    }
    let method = match Method::from_block_name(method_block.name.as_str()) {
        Some(m) => m,
        None => {
            return None;
        },
    };
    let url = match method_block.value("url") {
        Some(u) => u,
        None => String::new(),
    };
    let body_mode = match method_block.value("body") {
        Some(raw) => BodyMode::parse(raw.as_str()),
        None => BodyMode::NoBody,
    };
    let auth = match method_block.value("auth") {
        Some(a) => {
            if same_text(a.as_str(), "inherit") {
                Auth::Inherit
            } else if same_text(a.as_str(), "none") {
                Auth::NoAuth
            } else if same_text(a.as_str(), "bearer") {
                Auth::Bearer(bearer_token(bs))
            } else {
                parse_auth(bs)
            }
        },
        None => parse_auth(bs),
    };
    let headers = find_entries(bs, "headers");
    let path_params = find_entries(bs, "params:path");
    let query_params = find_entries(bs, "params:query");
    let body = body_block(bs, &body_mode);
    let r = Request {
        name,
        seq,
        req_type,
        method,
        url,
        body_mode,
        auth,
        headers,
        path_params,
        query_params,
        body,
        path: path.to_string(),
    };
    Some(r)
}

fn body_block(blocks: &[Block], mode: &BodyMode) -> (r: String)
    ensures
        r@ == body_of(block_views(blocks@), mode@),
{
    match mode {
        BodyMode::Json => find_body(blocks, "body:json"),
        BodyMode::Text => find_body(blocks, "body:text"),
        BodyMode::Xml => find_body(blocks, "body:xml"),
        BodyMode::Graphql => find_body(blocks, "body:graphql"),
        BodyMode::Other(name) => {
            let mut block_name = "body:".to_string();
            push_str(&mut block_name, name.as_str());
            find_body(blocks, block_name.as_str())
        },
        BodyMode::NoBody => String::new(),
    }
}

// ---------------------------------------------------------------------------
// Environments and collection settings
// ---------------------------------------------------------------------------

/// The variable names of an optional bracket block (none when absent).
pub open spec fn block_names(b: Option<BlockView>) -> Seq<Seq<char>> {
    match b {
        Some(b) => list_names(b.body),
        None => seq![],
    }
}

/// Parse an environment `.bru` file (the `vars` and `vars:secret` blocks).
pub fn parse_environment(input: &str, name: &str) -> (r: Environment)
    requires
        blocks_ok(tokens(input@, 0)),
    ensures
        r.name@ == name@,
        entry_views(r.vars@) == block_entries(first_named(blocks_spec(input@), "vars"@)),
        texts(r.secret_vars@) == block_names(first_named(blocks_spec(input@), "vars:secret"@)),
{
    let blocks = parse_blocks(input);
    let bs = blocks.as_slice();
    let vars = find_entries(bs, "vars");
    let secret_vars = match find_block(bs, "vars:secret") {
        Some(i) => bs[i].names(),
        None => {
            let v: Vec<String> = Vec::new();
            assert(texts(v@) =~= Seq::<Seq<char>>::empty());
            v
        },
    };
    Environment { name: name.to_string(), vars, secret_vars }
}

/// Parse `collection.bru`, returning collection-level auth, headers and vars.
pub fn parse_collection_config(input: &str) -> (r: (Auth, Vec<Entry>, Vec<Entry>))
    requires
        blocks_ok(tokens(input@, 0)),
    ensures
        r.0@ == auth_of(blocks_spec(input@)),
        entry_views(r.1@) == block_entries(first_named(blocks_spec(input@), "headers"@)),
        entry_views(r.2@) == block_entries(first_named(blocks_spec(input@), "vars"@)),
{
    let blocks = parse_blocks(input);
    let bs = blocks.as_slice();
    let auth = parse_auth(bs);
    let headers = find_entries(bs, "headers");
    let vars = find_entries(bs, "vars");
    (auth, headers, vars)
}

} // verus!
