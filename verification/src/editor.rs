//! The request pane: editable buffers for the loaded request's URL, headers and body.
//! Edits live only in these buffers and are never written back to the `.bru` file.
use vstd::prelude::*;

use crate::model::{entry_views, BodyMode, BodyModeView, Entry, EntryView, Request, RequestView};
use crate::parser::{entries_in, line_entry, line_entries};
use crate::text::{
    chars_of, is_ws, join, lemma_join_front, join_strings, line_of, line_ranges, lines, lemma_find_is,
    lemma_find_none, matches_at, push_str, range_texts, string_of, texts, trim, trim_end,
    trim_start,
};

verus! {

/// Which editable field of the request currently has the cursor.
#[derive(Debug, Clone, Copy, PartialEq, Eq, Structural)]
pub enum Field {
    Url,
    Headers,
    Body,
}

impl Field {
    /// The field's title.
    pub open spec fn title(self) -> Seq<char> {
        match self {
            Field::Url => "URL"@,
            Field::Headers => "Headers"@,
            Field::Body => "Body"@,
        }
    }

    /// The field below, wrapping from the body back to the URL.
    pub open spec fn below(self) -> Field {
        match self {
            Field::Url => Field::Headers,
            Field::Headers => Field::Body,
            Field::Body => Field::Url,
        }
    }

    /// The field above, wrapping from the URL to the body.
    pub open spec fn above(self) -> Field {
        match self {
            Field::Url => Field::Body,
            Field::Headers => Field::Url,
            Field::Body => Field::Headers,
        }
    }

    pub fn label(&self) -> (r: &'static str)
        ensures
            r@ == self.title(),
    {
        match self {
            Field::Url => "URL",
            Field::Headers => "Headers",
            Field::Body => "Body",
        }
    }
}

/// Moving the cursor down a field and back up (or up and back down) returns to the
/// field it started on.
pub proof fn lemma_field_moves_inverse(f: Field)
    ensures
        f.below().above() == f,
        f.above().below() == f,
{
}

/// The editable line of one header: `~` for a disabled header, then `name: value`.
pub open spec fn header_line(e: EntryView) -> Seq<char> {
    (if e.enabled {
        Seq::<char>::empty()
    } else {
        seq!['~']
    }) + e.name + ": "@ + e.value
}

/// The headers as editable text, one line each.
pub open spec fn headers_text(es: Seq<EntryView>) -> Seq<char> {
    join(es.map_values(|e: EntryView| header_line(e)), seq!['\n'])
}

/// The headers that edited header text holds: one per line that is not blank and has a
/// `:`; a leading `~` disables it; name and value are trimmed.
pub open spec fn text_headers(text: Seq<char>) -> Seq<EntryView> {
    line_entries(lines(text), true)
}

/// Text that neither starts nor ends with whitespace (what `str::trim` leaves).
pub open spec fn trimmed(s: Seq<char>) -> bool {
    s.len() == 0 || (!is_ws(s[0]) && !is_ws(s.last()))
}

/// A header that its editable line describes exactly: name and value are trimmed and
/// hold no line break, the name holds no `:`, and an enabled header's name does not
/// start with `~`.
pub open spec fn header_editable(e: EntryView) -> bool {
    &&& trimmed(e.name)
    &&& trimmed(e.value)
    &&& forall|i: int| 0 <= i < e.name.len() ==> e.name[i] != ':' && e.name[i] != '\n'
    &&& forall|i: int| 0 <= i < e.value.len() ==> e.value[i] != '\n'
    &&& e.enabled ==> (e.name.len() == 0 || e.name[0] != '~')
}

proof fn lemma_trim_start_keeps(s: Seq<char>)
    requires
        s.len() == 0 || !is_ws(s[0]),
    ensures
        trim_start(s) == s,
{
}

proof fn lemma_trim_end_keeps(s: Seq<char>)
    requires
        s.len() == 0 || !is_ws(s.last()),
    ensures
        trim_end(s) == s,
{
}

/// `trim` gives back the value of a header from the text after its `:`.
proof fn lemma_trim_value(value: Seq<char>)
    requires
        trimmed(value),
    ensures
        trim(seq![' '] + value) == value,
{
    let t = seq![' '] + value;
    assert(t.drop_first() =~= value);
    lemma_trim_start_keeps(value);
    lemma_trim_end_keeps(value);
}

/// The entry an editable header line holds is the header itself.
proof fn lemma_header_line_entry(e: EntryView)
    requires
        header_editable(e),
    ensures
        line_entry(header_line(e), true) == Some(e),
{
    let pre = if e.enabled {
        Seq::<char>::empty()
    } else {
        seq!['~']
    };
    let line = header_line(e);
    assert(line =~= pre + e.name + seq![':', ' '] + e.value) by {
        reveal_strlit(": ");
    }
    // The line starts with `~`, the name, or `:`; none is whitespace.
    assert(!is_ws(line[0]));
    lemma_trim_start_keeps(line);
    let t = if e.value.len() > 0 {
        line
    } else {
        pre + e.name + seq![':']
    };
    if e.value.len() > 0 {
        assert(line.last() == e.value.last());
        lemma_trim_end_keeps(line);
    } else {
        assert(line.drop_last() =~= t);
        lemma_trim_end_keeps(t);
    }
    assert(trim(line) == t);
    let after = if e.value.len() > 0 {
        seq![' '] + e.value
    } else {
        Seq::<char>::empty()
    };
    assert(t =~= pre + e.name + seq![':'] + after);
    let rest = e.name + seq![':'] + after;
    if e.enabled {
        assert(t =~= rest);
        assert(t[0] != '~');
    } else {
        assert(t.drop_first() =~= rest);
        assert(!is_ws(rest[0]));
        lemma_trim_start_keeps(rest);
    }
    let n = e.name.len() as int;
    assert(matches_at(rest, seq![':'], n)) by {
        assert(rest.subrange(n, n + 1) =~= seq![':']);
    }
    assert forall|j: int| 0 <= j < n implies !matches_at(rest, seq![':'], j) by {
        assert(rest.subrange(j, j + 1)[0] == e.name[j]);
    }
    lemma_find_is(rest, seq![':'], n);
    assert(rest.take(n) =~= e.name);
    assert(rest.skip(n + 1) =~= after);
    lemma_trim_start_keeps(e.name);
    lemma_trim_end_keeps(e.name);
    if e.value.len() > 0 {
        lemma_trim_value(e.value);
    } else {
        assert(trim(after) =~= e.value);
    }
}

/// A line that `str::lines` yields as it is, from text joined by line breaks.
pub open spec fn plain_line(l: Seq<char>) -> bool {
    &&& l.len() > 0
    &&& l.last() != '\r'
    &&& forall|i: int| 0 <= i < l.len() ==> l[i] != '\n'
}

/// Lines joined by `\n` split back into the same lines.
proof fn lemma_lines_of_join(ls: Seq<Seq<char>>)
    requires
        forall|k: int| 0 <= k < ls.len() ==> plain_line(#[trigger] ls[k]),
    ensures
        lines(join(ls, seq!['\n'])) == ls,
    decreases ls.len(),
{
    let nl = seq!['\n'];
    if ls.len() == 0 {
        assert(lines(join(ls, nl)) =~= ls);
    } else if ls.len() == 1 {
        let l = ls[0];
        assert(plain_line(l));
        assert forall|j: int| !matches_at(l, nl, j) by {
            if matches_at(l, nl, j) {
                assert(l.subrange(j, j + 1)[0] == l[j]);
            }
        }
        lemma_find_none(l, nl);
        assert(lines(l) =~= seq![l]);
        assert(ls =~= seq![l]);
    } else {
        let l = ls[0];
        assert(plain_line(l));
        let rest = ls.drop_first();
        lemma_join_front(ls, nl);
        lemma_lines_of_join(rest);
        let s = l + nl + join(rest, nl);
        let n = l.len() as int;
        assert(matches_at(s, nl, n)) by {
            assert(s.subrange(n, n + 1) =~= nl);
        }
        assert forall|j: int| 0 <= j < n implies !matches_at(s, nl, j) by {
            assert(s.subrange(j, j + 1)[0] == l[j]);
        }
        lemma_find_is(s, nl, n);
        assert(s.take(n) =~= l);
        assert(s.skip(n + 1) =~= join(rest, nl));
        assert(line_of(l) == l);
        assert(lines(s) =~= seq![l] + rest);
        assert(ls =~= seq![l] + rest);
    }
}

/// The entries of lines that each hold one header are those headers.
proof fn lemma_entries_of_header_lines(hs: Seq<EntryView>)
    requires
        forall|k: int| 0 <= k < hs.len() ==> header_editable(#[trigger] hs[k]),
    ensures
        line_entries(hs.map_values(|e: EntryView| header_line(e)), true) == hs,
    decreases hs.len(),
{
    let ls = hs.map_values(|e: EntryView| header_line(e));
    if hs.len() > 0 {
        lemma_entries_of_header_lines(hs.drop_last());
        assert(ls.drop_last() =~= hs.drop_last().map_values(|e: EntryView| header_line(e)));
        assert(header_editable(hs[hs.len() - 1]));
        lemma_header_line_entry(hs.last());
        assert(hs.drop_last() + seq![hs.last()] =~= hs);
    } else {
        assert(ls =~= Seq::<Seq<char>>::empty());
    }
}

/// Editing nothing changes nothing: the header text shown for a request's headers
/// reads back as the same headers, whenever each header is one that a text line can
/// describe (trimmed name and value without line breaks, no `:` in the name, and no
/// leading `~` in an enabled header's name).
pub proof fn lemma_headers_text_round_trip(hs: Seq<EntryView>)
    requires
        forall|k: int| 0 <= k < hs.len() ==> header_editable(#[trigger] hs[k]),
    ensures
        text_headers(headers_text(hs)) == hs,
{
    let ls = hs.map_values(|e: EntryView| header_line(e));
    assert forall|k: int| 0 <= k < ls.len() implies plain_line(#[trigger] ls[k]) by {
        let e = hs[k];
        assert(header_editable(e));
        assert(ls[k] == header_line(e));
        reveal_strlit(": ");
        let pre = if e.enabled {
            Seq::<char>::empty()
        } else {
            seq!['~']
        };
        assert(ls[k] =~= pre + e.name + seq![':', ' '] + e.value);
        if e.value.len() > 0 {
            assert(ls[k].last() == e.value.last());
        }
        assert forall|i: int| 0 <= i < ls[k].len() implies ls[k][i] != '\n' by {
            if i < pre.len() {
            } else if i < pre.len() + e.name.len() {
                assert(ls[k][i] == e.name[i - pre.len()]);
            } else if i < pre.len() + e.name.len() + 2 {
            } else {
                assert(ls[k][i] == e.value[i - pre.len() - e.name.len() - 2]);
            }
        }
    }
    lemma_lines_of_join(ls);
    lemma_entries_of_header_lines(hs);
}

/// The headers as editable text, one `name: value` line each.
pub fn headers_to_text(headers: &[Entry]) -> (r: String)
    ensures
        r@ == headers_text(entry_views(headers@)),
{
    let ghost hs = entry_views(headers@);
    let ghost ls = hs.map_values(|e: EntryView| header_line(e));
    let mut out = String::new();
    let mut k: usize = 0;
    while k < headers.len()
        invariant
            0 <= k <= headers@.len(),
            hs == entry_views(headers@),
            ls == hs.map_values(|e: EntryView| header_line(e)),
            out@ == join(ls.take(k as int), seq!['\n']),
        decreases headers@.len() - k,
    {
        proof {
            assert(ls.take(k + 1).drop_last() =~= ls.take(k as int));
            assert(ls.take(k + 1).last() == header_line(headers@[k as int]@));
        }
        let ghost before = out@;
        if k > 0 {
            push_str(&mut out, "\n");
            proof {
                reveal_strlit("\n");
            }
        } else {
            assert(out@ =~= Seq::<char>::empty());
        }
        let ghost mid = out@;
        let entry = &headers[k];
        if !entry.enabled {
            push_str(&mut out, "~");
            proof {
                reveal_strlit("~");
            }
        }
        push_str(&mut out, entry.name.as_str());
        push_str(&mut out, ": ");
        push_str(&mut out, entry.value.as_str());
        proof {
            reveal_strlit(": ");
            assert(out@ =~= mid + header_line(entry@));
            if k == 0 {
                assert(ls.take(1).len() == 1);
                assert(out@ =~= ls.take(1)[0]);
            } else {
                assert(mid =~= before + seq!['\n']);
            }
        }
        k += 1;
    }
    assert(ls.take(k as int) =~= ls);
    out
}

/// The headers held by edited header text.
pub fn text_to_headers(text: &str) -> (r: Vec<Entry>)
    ensures
        entry_views(r@) == text_headers(text@),
{
    let cs = chars_of(text);
    assert(cs@.subrange(0, cs@.len() as int) =~= cs@);
    entries_in(&cs, 0, cs.len(), true)
}

/// The lines of `text`, as `str::lines` yields them.
pub fn text_lines(text: &str) -> (r: Vec<String>)
    ensures
        texts(r@) == lines(text@),
{
    let cs = chars_of(text);
    let rs = line_ranges(&cs, 0, cs.len());
    assert(cs@.subrange(0, cs@.len() as int) =~= cs@);
    let mut out: Vec<String> = Vec::new();
    let mut k: usize = 0;
    while k < rs.len()
        invariant
            0 <= k <= rs.len(),
            range_texts(cs@, rs@) == lines(text@),
            crate::text::ranges_within(rs@, 0, cs@.len() as int),
            texts(out@) == range_texts(cs@, rs@).take(k as int),
        decreases rs.len() - k,
    {
        let (lo, hi) = rs[k];
        assert(lo <= hi <= cs@.len()) by {
            assert(0 <= rs@[k as int].0 <= rs@[k as int].1 <= cs@.len());
        }
        let line = string_of(&cs, lo, hi);
        let ghost before = out@;
        out.push(line);
        proof {
            assert(range_texts(cs@, rs@)[k as int] == cs@.subrange(lo as int, hi as int));
            assert(texts(out@) =~= texts(before).push(line@));
            assert(range_texts(cs@, rs@).take(k + 1) =~= range_texts(cs@, rs@).take(k as int).push(
                cs@.subrange(lo as int, hi as int),
            ));
        }
        k += 1;
    }
    assert(range_texts(cs@, rs@).take(k as int) =~= range_texts(cs@, rs@));
    out
}

/// The body mode's short name.
pub open spec fn mode_name(mode: Option<BodyModeView>) -> Seq<char> {
    match mode {
        Some(BodyModeView::Json) => "json"@,
        Some(BodyModeView::Graphql) => "graphql"@,
        Some(BodyModeView::Text) => "text"@,
        Some(BodyModeView::Xml) => "xml"@,
        Some(BodyModeView::Other(_)) => "other"@,
        Some(BodyModeView::NoBody) | None => "none"@,
    }
}

/// Editable view of the loaded request.
#[derive(Debug)]
pub struct State {
    pub source: Option<Request>,
    pub field: Field,
    pub editing: bool,
    pub url: String,
    pub headers: String,
    pub body: Vec<String>,
}

impl Default for State {
    fn default() -> (r: Self)
        ensures
            r.source is None,
            r.field == Field::Url,
            !r.editing,
            r.url@ == Seq::<char>::empty(),
            r.headers@ == Seq::<char>::empty(),
            r.body@.len() == 0,
    {
        State {
            source: None,
            field: Field::Url,
            editing: false,
            url: String::new(),
            headers: String::new(),
            body: Vec::new(),
        }
    }
}

impl State {
    /// The request that sending would use: the loaded request with the edited URL,
    /// headers and body lines over it.
    pub open spec fn effective(self) -> Option<RequestView> {
        match self.source {
            Some(req) => Some(
                RequestView {
                    url: self.url@,
                    headers: text_headers(self.headers@),
                    body: join(texts(self.body@), seq!['\n']),
                    ..req@
                },
            ),
            None => None,
        }
    }

    /// Load a request into the editable buffers.
    pub fn load(&mut self, request: Request)
        ensures
            final(self).source == Some(request),
            final(self).url@ == request.url@,
            final(self).headers@ == headers_text(entry_views(request.headers@)),
            texts(final(self).body@) == lines(request.body@),
            final(self).field == Field::Url,
            !final(self).editing,
    {
        self.url = request.url.clone();
        self.headers = headers_to_text(request.headers.as_slice());
        self.body = text_lines(request.body.as_str());
        self.field = Field::Url;
        self.editing = false;
        self.source = Some(request);
    }

    pub fn has_request(&self) -> (r: bool)
        ensures
            r == self.source is Some,
    {
        self.source.is_some()
    }

    /// Move the cursor to the field below, wrapping around.
    pub fn next_field(&mut self)
        ensures
            final(self).field == old(self).field.below(),
            final(self).source == old(self).source,
            final(self).editing == old(self).editing,
            final(self).url == old(self).url,
            final(self).headers == old(self).headers,
            final(self).body == old(self).body,
    {
        self.field = match self.field {
            Field::Url => Field::Headers,
            Field::Headers => Field::Body,
            Field::Body => Field::Url,
        };
    }

    /// Move the cursor to the field above, wrapping around.
    pub fn previous_field(&mut self)
        ensures
            final(self).field == old(self).field.above(),
            final(self).source == old(self).source,
            final(self).editing == old(self).editing,
            final(self).url == old(self).url,
            final(self).headers == old(self).headers,
            final(self).body == old(self).body,
    {
        self.field = match self.field {
            Field::Url => Field::Body,
            Field::Headers => Field::Url,
            Field::Body => Field::Headers,
        };
    }

    /// Build the effective request to send, applying the edited URL / headers / body
    /// over the loaded one; `None` when nothing is loaded.
    pub fn effective_request(&self) -> (r: Option<Request>)
        ensures
            match self.effective() {
                Some(v) => r matches Some(q) && q@ == v,
                None => r is None,
            },
    {
        match &self.source {
            Some(source) => {
                let mut request = source.clone();
                request.url = self.url.clone();
                request.headers = text_to_headers(self.headers.as_str());
                request.body = join_strings(&self.body, "\n");
                proof {
                    reveal_strlit("\n");
                    assert("\n"@ =~= seq!['\n']);
                    assert(request@ == RequestView {
                        url: self.url@,
                        headers: text_headers(self.headers@),
                        body: join(texts(self.body@), seq!['\n']),
                        ..source@
                    });
                }
                Some(request)
            },
            None => None,
        }
    }

    /// Short name of the loaded request's body mode; `none` when nothing is loaded.
    pub fn body_mode_label(&self) -> (r: &'static str)
        ensures
            r@ == mode_name(
                match self.source {
                    Some(q) => Some(q.body_mode@),
                    None => None,
                },
            ),
    {
        match &self.source {
            Some(request) => match &request.body_mode {
                BodyMode::Json => "json",
                BodyMode::Graphql => "graphql",
                BodyMode::Text => "text",
                BodyMode::Xml => "xml",
                BodyMode::Other(_) => "other",
                BodyMode::NoBody => "none",
            },
            None => "none",
        }
    }
}

/// The request pane's title: the loaded request's name, then what the pane is doing.
pub open spec fn title_text(state: State, sending: bool) -> Seq<char> {
    let base = match state.source {
        Some(r) => "Request — "@ + r.name@,
        None => "Request"@,
    };
    if sending {
        base + "  ⏳ sending…"@
    } else if state.editing {
        base + "  [editing "@ + state.field.title() + " · esc to stop]"@
    } else {
        base + "  [i: edit · s: send]"@
    }
}

/// The title of the request pane.
pub fn request_title(state: &State, sending: bool) -> (r: String)
    ensures
        r@ == title_text(*state, sending),
{
    let mut title = String::new();
    match &state.source {
        Some(request) => {
            push_str(&mut title, "Request — ");
            push_str(&mut title, request.name.as_str());
        },
        None => push_str(&mut title, "Request"),
    }
    if sending {
        push_str(&mut title, "  ⏳ sending…");
    } else if state.editing {
        push_str(&mut title, "  [editing ");
        push_str(&mut title, state.field.label());
        push_str(&mut title, " · esc to stop]");
    } else {
        push_str(&mut title, "  [i: edit · s: send]");
    }
    title
}

} // verus!
