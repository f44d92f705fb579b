//! A completed HTTP response as the response pane shows it.
use vstd::prelude::*;

use vstd::string::StringSliceAdditionalSpecFns;

use crate::text::{chars_of, contains, find_in, lemma_find_some};

verus! {

/// `raw` is a JSON document that `serde_json` accepts.
pub uninterp spec fn json_accepts(raw: Seq<char>) -> bool;

/// The text `serde_json` pretty-prints for the JSON document `raw`.
pub uninterp spec fn json_pretty(raw: Seq<char>) -> Seq<char>;

/// `serde_json::from_str::<Value>` followed by `serde_json::to_string_pretty`: text
/// exactly when `raw` is JSON that `serde_json` accepts (pretty-printing a parsed
/// `Value` cannot fail: its map keys are strings and its numbers are finite), and then
/// the pretty-printed document. Both steps depend on the text alone.
#[verifier::external_body]
fn pretty_json_text(raw: &str) -> (r: Option<String>)
    ensures
        r is Some <==> json_accepts(raw@),
        r matches Some(p) ==> p@ == json_pretty(raw@),
{
    serde_json::from_str::<serde_json::Value>(raw).ok().and_then(|v| serde_json::to_string_pretty(&v).ok())
}

/// A content type that names JSON.
pub open spec fn names_json(content_type: Option<Seq<char>>) -> bool {
    match content_type {
        Some(ct) => contains(ct, "json"@),
        None => false,
    }
}

/// Whether `text` contains `json`.
fn mentions_json(text: &str) -> (r: bool)
    ensures
        r == contains(text@, "json"@),
{
    let cs = chars_of(text);
    let pat = chars_of("json");
    assert(cs@.subrange(0, cs@.len() as int) =~= cs@);
    let found = find_in(&cs, 0, cs.len(), &pat);
    proof {
        lemma_find_some(cs@, pat@);
    }
    match found {
        Some(_) => true,
        None => false,
    }
}

/// The body as shown: pretty-printed when the content type names JSON and the body
/// parses as JSON, otherwise the raw text unchanged.
pub open spec fn shown_body(raw: Seq<char>, content_type: Option<Seq<char>>) -> Seq<char> {
    if names_json(content_type) && json_accepts(raw) {
        json_pretty(raw)
    } else {
        raw
    }
}

/// The body as shown: pretty-printed when the content type names JSON and the body
/// parses as JSON, otherwise the raw text unchanged.
pub fn pretty_print(raw: &str, content_type: Option<&str>) -> (r: String)
    ensures
        r@ == shown_body(
            raw@,
            match content_type {
                Some(ct) => Some(ct@),
                None => None,
            },
        ),
{
    let looks_json = match content_type {
        Some(ct) => mentions_json(ct),
        None => false,
    };
    if looks_json {
        if let Some(pretty) = pretty_json_text(raw) {
            return pretty;
        }
    }
    raw.to_string()
}

/// A completed HTTP response, with the body decoded to text and JSON pretty-printed.
#[derive(Debug)]
pub struct Response {
    pub status: u16,
    pub status_text: String,
    pub time_ms: u128,
    pub size: usize,
    pub headers: Vec<(String, String)>,
    pub body: String,
    pub content_type: Option<String>,
}

impl Response {
    /// The response for a raw body: its size is the body's length in bytes, and the
    /// body is shown as `pretty_print` shows it.
    pub fn from_raw(
        status: u16,
        status_text: String,
        time_ms: u128,
        headers: Vec<(String, String)>,
        raw: &str,
        content_type: Option<String>,
    ) -> (r: Response)
        ensures
            r.status == status,
            r.status_text == status_text,
            r.time_ms == time_ms,
            r.size == raw.spec_bytes().len() as usize,
            r.headers == headers,
            r.content_type == content_type,
            r.body@ == shown_body(
                raw@,
                match content_type {
                    Some(ct) => Some(ct@),
                    None => None,
                },
            ),
    {
        let size = raw.len();
        let body = match &content_type {
            Some(ct) => pretty_print(raw, Some(ct.as_str())),
            None => pretty_print(raw, None),
        };
        Response { status, status_text, time_ms, size, headers, body, content_type }
    }
}

} // verus!
