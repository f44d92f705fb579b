//! Rendering a prepared request as a copy-pasteable `curl` command.
use vstd::prelude::*;
use vstd::utf8::encode_utf8;

use crate::model::Method;
use crate::request::{pair_views, PairView, PreparedRequest, PreparedView};
use crate::text::{
    chars_of, contains, find_char, join, join_strings, push_char, push_str, replace, replace_all,
    texts,
};

verus! {

/// Bytes that pass through percent-encoding unchanged.
pub open spec fn is_unreserved(b: u8) -> bool {
    (65 <= b <= 90) || (97 <= b <= 122) || (48 <= b <= 57) || b == 45 || b == 95 || b == 46
        || b == 126
}

/// Upper-case hex digit of a nibble.
pub open spec fn hex_digit(n: u8) -> char {
    if n < 10 {
        (48 + n) as char
    } else {
        (55 + n) as char
    }
}

/// Percent-encoding of bytes: unreserved bytes pass through, others become `%XX`.
pub open spec fn encode_bytes(bs: Seq<u8>) -> Seq<char>
    decreases bs.len(),
{
    if bs.len() == 0 {
        seq![]
    } else {
        let b = bs.last();
        encode_bytes(bs.drop_last()) + if is_unreserved(b) {
            seq![b as char]
        } else {
            seq!['%', hex_digit(b / 16), hex_digit(b % 16)]
        }
    }
}

/// Percent-encoding of the UTF-8 bytes of a text (query components).
pub open spec fn percent_encode(s: Seq<char>) -> Seq<char> {
    encode_bytes(encode_utf8(s))
}

/// `key=value` pairs, percent-encoded.
pub open spec fn query_items(q: Seq<PairView>) -> Seq<Seq<char>> {
    q.map_values(|p: PairView| percent_encode(p.0) + "="@ + percent_encode(p.1))
}

/// The URL with the query appended (`?` or, when the URL already has one, `&`).
pub open spec fn url_with_query(url: Seq<char>, q: Seq<PairView>) -> Seq<char> {
    if q.len() == 0 {
        url
    } else {
        url + (if contains(url, seq!['?']) {
            "&"@
        } else {
            "?"@
        }) + join(query_items(q), "&"@)
    }
}

/// No char of `s` is `c`.
pub open spec fn lacks(s: Seq<char>, c: char) -> bool {
    forall|i: int| 0 <= i < s.len() ==> s[i] != c
}

/// Percent-encoded bytes are unreserved chars, `%` and hex digits: never a `?`.
proof fn lemma_encoded_bytes_lack_question(bs: Seq<u8>)
    ensures
        lacks(encode_bytes(bs), '?'),
    decreases bs.len(),
{
    if bs.len() > 0 {
        let b = bs.last();
        lemma_encoded_bytes_lack_question(bs.drop_last());
        let front = encode_bytes(bs.drop_last());
        let tail = if is_unreserved(b) {
            seq![b as char]
        } else {
            seq!['%', hex_digit(b / 16), hex_digit(b % 16)]
        };
        assert(lacks(tail, '?')) by {
            if is_unreserved(b) {
                assert((b as char) != '?');
            } else {
                assert(hex_digit(b / 16) != '?');
                assert(hex_digit(b % 16) != '?');
            }
        }
        assert(encode_bytes(bs) == front + tail);
        assert forall|i: int| 0 <= i < encode_bytes(bs).len() implies encode_bytes(bs)[i] != '?' by {
            if i < front.len() {
                assert(encode_bytes(bs)[i] == front[i]);
            } else {
                assert(encode_bytes(bs)[i] == tail[i - front.len()]);
            }
        }
    }
}

/// The encoded `key=value` items hold no `?`.
proof fn lemma_query_items_lack_question(q: Seq<PairView>)
    ensures
        forall|n: int| 0 <= n < query_items(q).len() ==> lacks(#[trigger] query_items(q)[n], '?'),
{
    assert forall|n: int| 0 <= n < query_items(q).len() implies lacks(#[trigger] query_items(q)[n], '?') by {
        let k = percent_encode(q[n].0);
        let v = percent_encode(q[n].1);
        lemma_encoded_bytes_lack_question(encode_utf8(q[n].0));
        lemma_encoded_bytes_lack_question(encode_utf8(q[n].1));
        reveal_strlit("=");
        let x = query_items(q)[n];
        assert(x == k + "="@ + v);
        assert forall|i: int| 0 <= i < x.len() implies x[i] != '?' by {
            if i < k.len() {
                assert(x[i] == k[i]);
            } else if i == k.len() {
                assert(x[i] == '=');
            } else {
                assert(x[i] == v[i - k.len() - 1]);
            }
        }
    }
}

/// A query is appended after one separator: `?` when the URL has none yet, `&` when it
/// already carries a query. The URL stays as written in front, and nothing after the
/// separator is a `?`, so the result holds exactly one more `?` than the URL only when
/// the URL had none.
pub proof fn lemma_query_separator(url: Seq<char>, q: Seq<PairView>)
    requires
        q.len() > 0,
    ensures
        url_with_query(url, q).len() > url.len(),
        url_with_query(url, q).take(url.len() as int) == url,
        contains(url, seq!['?']) ==> url_with_query(url, q)[url.len() as int] == '&',
        !contains(url, seq!['?']) ==> url_with_query(url, q)[url.len() as int] == '?',
        url_with_query(url, q).skip(url.len() as int + 1) == join(
            q.map_values(|p: PairView| percent_encode(p.0) + seq!['='] + percent_encode(p.1)),
            seq!['&'],
        ),
        forall|i: int|
            url.len() < i < url_with_query(url, q).len() ==> url_with_query(url, q)[i] != '?',
{
    reveal_strlit("&");
    reveal_strlit("?");
    let r = url_with_query(url, q);
    let sep: Seq<char> = if contains(url, seq!['?']) {
        "&"@
    } else {
        "?"@
    };
    let j = join(query_items(q), "&"@);
    assert(r == url + sep + j);
    lemma_query_items_lack_question(q);
    crate::text::lemma_join_lacks(query_items(q), "&"@, '?');
    assert(r.take(url.len() as int) =~= url);
    assert forall|i: int| url.len() < i < r.len() implies r[i] != '?' by {
        assert(r[i] == j[i - url.len() - 1]);
    }
    reveal_strlit("=");
    assert("="@ =~= seq!['=']);
    assert(q.map_values(|p: PairView| percent_encode(p.0) + seq!['='] + percent_encode(p.1))
        =~= query_items(q));
    assert("&"@ =~= seq!['&']);
    assert(r.skip(url.len() as int + 1) =~= j);
}

/// The value of an upper-case hex digit, or -1 for any other char.
pub open spec fn hex_value(c: char) -> int {
    if '0' <= c && c <= '9' {
        c as int - 48
    } else if 'A' <= c && c <= 'F' {
        c as int - 55
    } else {
        -1
    }
}

/// Percent-encoding works byte by byte: the encoding of two byte strings one after the
/// other is their encodings one after the other.
pub proof fn lemma_encode_bytes_concat(a: Seq<u8>, b: Seq<u8>)
    ensures
        encode_bytes(a + b) == encode_bytes(a) + encode_bytes(b),
    decreases b.len(),
{
    if b.len() == 0 {
        assert(a + b =~= a);
    } else {
        lemma_encode_bytes_concat(a, b.drop_last());
        assert((a + b).drop_last() =~= a + b.drop_last());
        assert((a + b).last() == b.last());
    }
}

/// One byte is kept as its char when it is an ASCII letter, a digit, `-`, `_`, `.` or `~`;
/// any other byte becomes `%` and two upper-case hex digits that spell its value.
pub proof fn lemma_encode_byte(b: u8)
    ensures
        ({
            let c = b as char;
            let e = encode_bytes(seq![b]);
            if ('A' <= c && c <= 'Z') || ('a' <= c && c <= 'z') || ('0' <= c && c <= '9')
                || c == '-' || c == '_' || c == '.' || c == '~' {
                e == seq![c]
            } else {
                &&& e.len() == 3
                &&& e[0] == '%'
                &&& 0 <= hex_value(e[1]) < 16
                &&& 0 <= hex_value(e[2]) < 16
                &&& 16 * hex_value(e[1]) + hex_value(e[2]) == b
            }
        }),
{
    let s = seq![b];
    assert(s.drop_last() =~= Seq::<u8>::empty());
    assert(s.last() == b);
    let e = encode_bytes(s);
    assert(encode_bytes(s.drop_last()) =~= Seq::<char>::empty());
    if is_unreserved(b) {
        assert(e =~= seq![b as char]);
    } else {
        assert(e =~= seq!['%', hex_digit(b / 16), hex_digit(b % 16)]);
        assert(b == 16 * (b / 16) + b % 16);
    }
}

/// A POSIX shell single-quoted word.
pub open spec fn shell_quoted(v: Seq<char>) -> Seq<char> {
    "'"@ + replace(v, "'"@, "'\\''"@) + "'"@
}

/// The options of the command, one per line.
pub open spec fn curl_parts(r: PreparedView) -> Seq<Seq<char>> {
    let url = url_with_query(r.url, r.query);
    let first = if r.method == Method::Head {
        "curl --head "@ + shell_quoted(url)
    } else {
        "curl --request "@ + r.method.wire_name() + " "@ + shell_quoted(url)
    };
    seq![first] + r.headers.map_values(
        |h: PairView| "--header "@ + shell_quoted(h.0 + ": "@ + h.1),
    ) + match r.body {
        Some(b) => seq!["--data "@ + shell_quoted(b)],
        None => seq![],
    }
}

/// The whole command: the options joined by ` \` line continuations.
pub open spec fn curl_command(r: PreparedView) -> Seq<char> {
    join(curl_parts(r), " \\\n  "@)
}

/// Render a prepared request as a copy-pasteable `curl` command (one option per line,
/// continued with `\`).
pub fn to_curl(request: &PreparedRequest) -> (r: String)
    ensures
        r@ == curl_command(request@),
{
    let url = with_query(request.url.as_str(), &request.query);
    let quoted_url = shell_quote(url.as_str());
    let mut parts: Vec<String> = Vec::new();
    let mut first = "curl --request ".to_string();
    push_str(&mut first, method(request.method));
    push_str(&mut first, " ");
    push_str(&mut first, quoted_url.as_str());
    parts.push(first);

    if request.method == Method::Head {
        let mut head = "curl --head ".to_string();
        push_str(&mut head, quoted_url.as_str());
        parts.set(0, head);
    }
    let ghost p0 = parts@[0]@;
    assert(crate::text::texts(parts@) =~= seq![p0]);

    let ghost hs = pair_views(request.headers@);
    let mut k: usize = 0;
    while k < request.headers.len()
        invariant
            0 <= k <= request.headers.len(),
            hs == pair_views(request.headers@),
            crate::text::texts(parts@) == seq![p0] + hs.take(k as int).map_values(
                |h: PairView| "--header "@ + shell_quoted(h.0 + ": "@ + h.1),
            ),
        decreases request.headers.len() - k,
    {
        let mut line = request.headers[k].0.clone();
        push_str(&mut line, ": ");
        push_str(&mut line, request.headers[k].1.as_str());
        let mut part = "--header ".to_string();
        push_str(&mut part, shell_quote(line.as_str()).as_str());
        let ghost before = crate::text::texts(parts@);
        parts.push(part);
        proof {
            assert(crate::text::texts(parts@) =~= before.push(part@));
            assert(hs.take(k + 1) =~= hs.take(k as int).push(hs[k as int]));
            assert(hs.take(k + 1).map_values(
                |h: PairView| "--header "@ + shell_quoted(h.0 + ": "@ + h.1),
            ) =~= hs.take(k as int).map_values(
                |h: PairView| "--header "@ + shell_quoted(h.0 + ": "@ + h.1),
            ).push(part@));
        }
        k += 1;
    }
    assert(hs.take(request.headers.len() as int) =~= hs);

    let ghost before = crate::text::texts(parts@);
    match &request.body {
        Some(body) => {
            let mut part = "--data ".to_string();
            push_str(&mut part, shell_quote(body.as_str()).as_str());
            parts.push(part);
            assert(crate::text::texts(parts@) =~= before + seq![part@]);
        },
        None => {
            assert(crate::text::texts(parts@) =~= before + Seq::<Seq<char>>::empty());
        },
    }
    join_strings(&parts, " \\\n  ")
}


fn method(m: Method) -> (r: &'static str)
    ensures
        r@ == m.wire_name(),
{
    m.as_str()
}

/// The URL with the query appended.
#[verifier::rlimit(30)]
pub fn with_query(url: &str, query: &Vec<(String, String)>) -> (r: String)
    ensures
        r@ == url_with_query(url@, pair_views(query@)),
{
    if query.len() == 0 {
        return url.to_string();
    }
    let ghost q = pair_views(query@);
    let mut items: Vec<String> = Vec::new();
    let mut k: usize = 0;
    while k < query.len()
        invariant
            0 <= k <= query.len(),
            q == pair_views(query@),
            crate::text::texts(items@) == query_items(q.take(k as int)),
        decreases query.len() - k,
    {
        let mut item = encode(query[k].0.as_str());
        push_str(&mut item, "=");
        push_str(&mut item, encode(query[k].1.as_str()).as_str());
        let ghost before = crate::text::texts(items@);
        items.push(item);
        proof {
            assert(crate::text::texts(items@) =~= before.push(item@));
            assert(q.take(k + 1) =~= q.take(k as int).push(q[k as int]));
            assert(query_items(q.take(k + 1)) =~= query_items(q.take(k as int)).push(item@));
        }
        k += 1;
    }
    assert(q.take(query.len() as int) =~= q);
    let encoded = join_strings(&items, "&");
    let cs = chars_of(url);
    assert(cs@.subrange(0, cs.len() as int) =~= cs@);
    let has_question = match find_char(&cs, 0, cs.len(), '?') {
        Some(_) => true,
        None => false,
    };
    proof {
        crate::text::lemma_find_some(url@, seq!['?']);
        if contains(url@, seq!['?']) {
            let i = choose|i: int| crate::text::matches_at(url@, seq!['?'], i);
            crate::text::lemma_first_match_exists(url@, seq!['?'], i);
        }
    }
    let mut out = url.to_string();
    if has_question {
        push_str(&mut out, "&");
    } else {
        push_str(&mut out, "?");
    }
    push_str(&mut out, encoded.as_str());
    out
}

/// Wrap a string in single quotes for POSIX shells, escaping embedded single quotes.
pub fn shell_quote(value: &str) -> (r: String)
    ensures
        r@ == shell_quoted(value@),
{
    proof {
        reveal_strlit("'");
    }
    let mut out = "'".to_string();
    let escaped = replace_all(value, "'", "'\\''");
    push_str(&mut out, escaped.as_str());
    push_str(&mut out, "'");
    out
}

/// Upper-case hex digit of a nibble.
fn hex(n: u8) -> (r: char)
    requires
        n < 16,
    ensures
        r == hex_digit(n),
{
    if n < 10 {
        (48 + n) as char
    } else {
        (55 + n) as char
    }
}

/// Minimal percent-encoding for query components (unreserved chars pass through).
pub fn encode(value: &str) -> (r: String)
    ensures
        r@ == percent_encode(value@),
{
    let bytes = value.as_bytes();
    let ghost bs = bytes@;
    let mut out = String::new();
    let mut k: usize = 0;
    while k < bytes.len()
        invariant
            0 <= k <= bytes@.len(),
            bs == bytes@,
            bs == encode_utf8(value@),
            out@ == encode_bytes(bs.take(k as int)),
        decreases bytes@.len() - k,
    {
        let b = bytes[k];
        proof {
            assert(bs.take(k + 1).drop_last() =~= bs.take(k as int));
            assert(bs.take(k + 1).last() == b);
        }
        let ghost before = out@;
        if (65 <= b && b <= 90) || (97 <= b && b <= 122) || (48 <= b && b <= 57) || b == 45 || b
            == 95 || b == 46 || b == 126 {
            push_char(&mut out, b as char);
        } else {
            push_char(&mut out, '%');
            push_char(&mut out, hex(b / 16));
            push_char(&mut out, hex(b % 16));
        }
        assert(out@ =~= encode_bytes(bs.take(k + 1)));
        k += 1;
    }
    assert(bs.take(bytes@.len() as int) =~= bs);
    out
}

/// The clipboard tools to try, in order, each with its arguments: the first one that
/// takes the text wins.
pub open spec fn clipboard_tool_list() -> Seq<(Seq<char>, Seq<Seq<char>>)> {
    seq![
        ("pbcopy"@, seq![]),
        ("wl-copy"@, seq![]),
        ("xclip"@, seq!["-selection"@, "clipboard"@]),
        ("xsel"@, seq!["--clipboard"@, "--input"@]),
        ("clip"@, seq![]),
    ]
}

/// The clipboard tools to try, in order, with their arguments.
pub fn clipboard_tools() -> (r: Vec<(String, Vec<String>)>)
    ensures
        r@.len() == clipboard_tool_list().len(),
        forall|k: int|
            0 <= k < r@.len() ==> (#[trigger] r@[k]).0@ == clipboard_tool_list()[k].0 && texts(
                r@[k].1@,
            ) == clipboard_tool_list()[k].1,
{
    let mut tools: Vec<(String, Vec<String>)> = Vec::new();
    tools.push(("pbcopy".to_string(), Vec::new()));
    tools.push(("wl-copy".to_string(), Vec::new()));
    tools.push(("xclip".to_string(), vec!["-selection".to_string(), "clipboard".to_string()]));
    tools.push(("xsel".to_string(), vec!["--clipboard".to_string(), "--input".to_string()]));
    tools.push(("clip".to_string(), Vec::new()));
    proof {
        assert(texts(tools@[0].1@) =~= seq![]);
        assert(texts(tools@[1].1@) =~= seq![]);
        assert(texts(tools@[2].1@) =~= seq!["-selection"@, "clipboard"@]);
        assert(texts(tools@[3].1@) =~= seq!["--clipboard"@, "--input"@]);
        assert(texts(tools@[4].1@) =~= seq![]);
    }
    tools
}

/// What copying to the clipboard does next.
#[derive(Debug)]
pub enum ClipboardStep {
    /// Run this tool with these arguments, feeding it the text.
    Try(String, Vec<String>),
    /// Stop: whether some tool took the text.
    Done(bool),
}

/// The next step of copying to the clipboard after `tried` tools were run and the
/// last one did (`copied`) or did not take the text: stop once one did, else try the
/// next tool in order, and give up when none is left.
pub fn clipboard_step(tried: usize, copied: bool) -> (r: ClipboardStep)
    ensures
        copied ==> r matches ClipboardStep::Done(true),
        !copied && tried < clipboard_tool_list().len() ==> (r matches ClipboardStep::Try(program, args)
            && program@ == clipboard_tool_list()[tried as int].0 && texts(args@)
            == clipboard_tool_list()[tried as int].1),
        !copied && tried >= clipboard_tool_list().len() ==> r matches ClipboardStep::Done(false),
{
    if copied {
        return ClipboardStep::Done(true);
    }
    let mut tools = clipboard_tools();
    if tried < tools.len() {
        let (program, args) = tools.remove(tried);
        ClipboardStep::Try(program, args)
    } else {
        ClipboardStep::Done(false)
    }
}

/// Where the clipboard steps end when tool `t` takes the text exactly when
/// `takes[t]`, going on from `tried` tools run, the last of which did (`copied`) or
/// did not take it: whether some tool took the text, and how many tools were run.
/// Each step is the one `clipboard_step` takes.
pub open spec fn clipboard_run(takes: Seq<bool>, tried: nat, copied: bool) -> (bool, nat)
    decreases clipboard_tool_list().len() - tried,
{
    if copied {
        (true, tried)
    } else if tried < clipboard_tool_list().len() {
        clipboard_run(takes, tried + 1, takes[tried as int])
    } else {
        (false, tried)
    }
}

/// Copying tries the tools in order and stops at the first that takes the text: it
/// succeeds exactly when some tool takes it, every tool before the last one run
/// failed, and after a failure of every tool all of them were run.
pub proof fn lemma_clipboard_tries_in_order(takes: Seq<bool>, tried: nat)
    requires
        takes.len() == clipboard_tool_list().len(),
        tried <= takes.len(),
        forall|t: int| 0 <= t < tried ==> !takes[t],
    ensures
        clipboard_run(takes, tried, false).0 == exists|t: int| 0 <= t < takes.len() && takes[t],
        clipboard_run(takes, tried, false).1 <= takes.len(),
        forall|t: int| 0 <= t < clipboard_run(takes, tried, false).1 - 1 ==> !takes[t],
        clipboard_run(takes, tried, false).0 ==> clipboard_run(takes, tried, false).1 >= 1
            && takes[clipboard_run(takes, tried, false).1 - 1],
        !clipboard_run(takes, tried, false).0 ==> clipboard_run(takes, tried, false).1
            == takes.len(),
    decreases takes.len() - tried,
{
    if tried < takes.len() {
        if takes[tried as int] {
            assert(clipboard_run(takes, tried + 1, true) == (true, (tried + 1) as nat));
        } else {
            lemma_clipboard_tries_in_order(takes, tried + 1);
        }
    } else {
        assert(!exists|t: int| 0 <= t < takes.len() && takes[t]);
    }
}

} // verus!
