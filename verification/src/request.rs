//! Preparing a request for sending: variables expanded, path params substituted,
//! headers merged, auth and body resolved.
use vstd::prelude::*;

use crate::interpolate::{
    add_all_missing, context_secrets, context_vars, expand_text, lemma_add_all_missing_concat,
    missing_views, unresolved, MissingVar, MissingView, VarContext,
};
use crate::model::{
    entry_views, Auth, AuthView, BodyMode, BodyModeView, Collection, Entry, EntryView,
    Environment, Method, Request, RequestView,
};
use crate::text::{eq_ignore_ascii_case, push_str, replace_all, same_ignoring_ascii_case, texts, trim};
use crate::varmap::VarMap;

verus! {

/// A header or query pair as text.
pub type PairView = (Seq<char>, Seq<char>);

/// The text of a sequence of string pairs.
pub open spec fn pair_views(v: Seq<(String, String)>) -> Seq<PairView> {
    v.map_values(|p: (String, String)| (p.0@, p.1@))
}

// ---------------------------------------------------------------------------
// Headers
// ---------------------------------------------------------------------------

/// `i` is the first header whose name equals `name` up to ASCII case.
pub open spec fn is_first_header(hs: Seq<PairView>, name: Seq<char>, i: int) -> bool {
    0 <= i < hs.len() && eq_ignore_ascii_case(hs[i].0, name) && forall|j: int|
        0 <= j < i ==> !eq_ignore_ascii_case(hs[j].0, name)
}

/// Some header is named `name` up to ASCII case.
pub open spec fn has_header_spec(hs: Seq<PairView>, name: Seq<char>) -> bool {
    exists|i: int| 0 <= i < hs.len() && eq_ignore_ascii_case(hs[i].0, name)
}

/// Insert or replace a header by case-insensitive name, preserving insertion order
/// (the first matching header takes the new value and keeps its name).
pub open spec fn set_header_spec(hs: Seq<PairView>, name: Seq<char>, value: Seq<char>) -> Seq<
    PairView,
> {
    if exists|i: int| is_first_header(hs, name, i) {
        let i = choose|i: int| is_first_header(hs, name, i);
        hs.update(i, (hs[i].0, value))
    } else {
        hs.push((name, value))
    }
}

/// Setting a header leaves exactly one more header only when none of that name (up to
/// ASCII case) was there; otherwise the first such header takes the value in place.
/// Either way the header is then present.
pub proof fn lemma_set_header_replaces(hs: Seq<PairView>, name: Seq<char>, value: Seq<char>)
    ensures
        has_header_spec(set_header_spec(hs, name, value), name),
        set_header_spec(hs, name, value).len() == hs.len() + (if has_header_spec(hs, name) {
            0int
        } else {
            1int
        }),
        has_header_spec(hs, name) ==> forall|j: int|
            0 <= j < hs.len() ==> (#[trigger] set_header_spec(hs, name, value)[j]).0 == hs[j].0,
{
    if has_header_spec(hs, name) {
        let j = choose|j: int| 0 <= j < hs.len() && eq_ignore_ascii_case(hs[j].0, name);
        lemma_first_header_exists(hs, name, j);
        let i = choose|i: int| is_first_header(hs, name, i);
        assert(set_header_spec(hs, name, value)[i].0 == hs[i].0);
    } else {
        assert(!exists|i: int| is_first_header(hs, name, i));
        let r = hs.push((name, value));
        assert(eq_ignore_ascii_case(r[hs.len() as int].0, name));
    }
}

proof fn lemma_first_header_exists(hs: Seq<PairView>, name: Seq<char>, j: int)
    requires
        0 <= j < hs.len(),
        eq_ignore_ascii_case(hs[j].0, name),
    ensures
        exists|i: int| is_first_header(hs, name, i),
    decreases j,
{
    if exists|k: int| 0 <= k < j && eq_ignore_ascii_case(hs[k].0, name) {
        let k = choose|k: int| 0 <= k < j && eq_ignore_ascii_case(hs[k].0, name);
        lemma_first_header_exists(hs, name, k);
    } else {
        assert(is_first_header(hs, name, j));
    }
}

/// A body that implies a content type always ends up with one: the implied type is
/// added only when no `Content-Type` header (in any case) is set already.
pub proof fn lemma_content_type_present(hs: Seq<PairView>, ct: Seq<char>)
    ensures
        has_header_spec(with_content_type(hs, ct), "content-type"@),
        has_header_spec(hs, "content-type"@) ==> with_content_type(hs, ct) == hs,
{
    if !has_header_spec(hs, "content-type"@) {
        let r = hs.push(("Content-Type"@, ct));
        reveal_strlit("Content-Type");
        reveal_strlit("content-type");
        assert(eq_ignore_ascii_case(r[hs.len() as int].0, "content-type"@));
    }
}

/// `hs` after setting the enabled entries of `es`, each value expanded.
pub open spec fn apply_entries(
    vars: Map<Seq<char>, Seq<char>>,
    hs: Seq<PairView>,
    es: Seq<EntryView>,
) -> Seq<PairView>
    decreases es.len(),
{
    if es.len() == 0 {
        hs
    } else {
        let h = apply_entries(vars, hs, es.drop_last());
        let e = es.last();
        if e.enabled {
            set_header_spec(h, e.name, expand_text(vars, e.value))
        } else {
            h
        }
    }
}

/// Unresolved placeholders of the enabled entries' values, in order.
pub open spec fn entry_refs(vars: Map<Seq<char>, Seq<char>>, es: Seq<EntryView>) -> Seq<Seq<char>>
    decreases es.len(),
{
    if es.len() == 0 {
        seq![]
    } else {
        entry_refs(vars, es.drop_last()) + if es.last().enabled {
            unresolved(vars, es.last().value)
        } else {
            seq![]
        }
    }
}

/// `url` with each enabled `:name` path param replaced by its expanded value.
pub open spec fn substitute_params(
    vars: Map<Seq<char>, Seq<char>>,
    url: Seq<char>,
    ps: Seq<EntryView>,
) -> Seq<char>
    decreases ps.len(),
{
    if ps.len() == 0 {
        url
    } else {
        let u = substitute_params(vars, url, ps.drop_last());
        let p = ps.last();
        if p.enabled {
            crate::text::replace(u, seq![':'] + p.name, expand_text(vars, p.value))
        } else {
            u
        }
    }
}

/// The enabled query params, values expanded.
pub open spec fn expand_query(vars: Map<Seq<char>, Seq<char>>, ps: Seq<EntryView>) -> Seq<PairView>
    decreases ps.len(),
{
    if ps.len() == 0 {
        seq![]
    } else {
        expand_query(vars, ps.drop_last()) + if ps.last().enabled {
            seq![(ps.last().name, expand_text(vars, ps.last().value))]
        } else {
            seq![]
        }
    }
}

/// The auth that applies: the request's own, or the collection's when it inherits.
pub open spec fn effective_auth(request: AuthView, collection: AuthView) -> AuthView {
    match request {
        AuthView::Inherit => collection,
        other => other,
    }
}

/// `hs` with a bearer `Authorization` header added unless one is already set.
pub open spec fn with_auth(vars: Map<Seq<char>, Seq<char>>, hs: Seq<PairView>, auth: AuthView) -> Seq<
    PairView,
> {
    match auth {
        AuthView::Bearer(t) => if !has_header_spec(hs, "authorization"@) {
            hs.push(("Authorization"@, "Bearer "@ + expand_text(vars, t)))
        } else {
            hs
        },
        _ => hs,
    }
}

/// Unresolved placeholders of the bearer token, when the token is used.
pub open spec fn auth_refs(vars: Map<Seq<char>, Seq<char>>, hs: Seq<PairView>, auth: AuthView) -> Seq<
    Seq<char>,
> {
    match auth {
        AuthView::Bearer(t) => if !has_header_spec(hs, "authorization"@) {
            unresolved(vars, t)
        } else {
            seq![]
        },
        _ => seq![],
    }
}

/// The Content-Type Bruno would imply from a body mode.
pub open spec fn implied_content_type(mode: BodyModeView) -> Option<Seq<char>> {
    match mode {
        BodyModeView::Json => Some("application/json"@),
        BodyModeView::Xml => Some("application/xml"@),
        BodyModeView::Text => Some("text/plain"@),
        _ => None,
    }
}

/// A lowercase hexadecimal digit (`0`..`9`, `a`..`f`) for `d` below 16.
pub open spec fn lower_hex(d: int) -> char {
    if d < 10 {
        (48 + d) as char
    } else {
        (87 + d) as char
    }
}

/// How `serde_json` writes one char inside a JSON string: `"` and `\` and the
/// controls with a short escape get a backslash escape, the other controls below
/// `0x20` become `\u00xx`, and every other char is written as it is.
pub open spec fn json_escape(c: char) -> Seq<char> {
    if c == '"' {
        seq!['\\', '"']
    } else if c == '\\' {
        seq!['\\', '\\']
    } else if c == '\u{8}' {
        seq!['\\', 'b']
    } else if c == '\t' {
        seq!['\\', 't']
    } else if c == '\n' {
        seq!['\\', 'n']
    } else if c == '\u{c}' {
        seq!['\\', 'f']
    } else if c == '\r' {
        seq!['\\', 'r']
    } else if (c as int) < 0x20 {
        seq!['\\', 'u', '0', '0', lower_hex((c as int) / 16), lower_hex((c as int) % 16)]
    } else {
        seq![c]
    }
}

/// The escaped content of a JSON string holding `s`.
pub open spec fn json_escaped(s: Seq<char>) -> Seq<char>
    decreases s.len(),
{
    if s.len() == 0 {
        seq![]
    } else {
        json_escaped(s.drop_last()) + json_escape(s.last())
    }
}

/// What `serde_json` writes for a JSON string holding `s`: the escaped text in
/// double quotes.
pub open spec fn json_quoted(s: Seq<char>) -> Seq<char> {
    seq!['"'] + json_escaped(s) + seq!['"']
}

/// A GraphQL request body: the JSON object `{"query": <query>}`.
pub open spec fn graphql_payload(query: Seq<char>) -> Seq<char> {
    "{"@ + json_quoted("query"@) + ":"@ + json_quoted(query) + "}"@
}

/// `hs` with `Content-Type: ct` added unless a Content-Type is already set.
pub open spec fn with_content_type(hs: Seq<PairView>, ct: Seq<char>) -> Seq<PairView> {
    if !has_header_spec(hs, "content-type"@) {
        hs.push(("Content-Type"@, ct))
    } else {
        hs
    }
}

/// The body to send and the headers after it is resolved.
pub open spec fn body_outcome(
    vars: Map<Seq<char>, Seq<char>>,
    mode: BodyModeView,
    body: Seq<char>,
    hs: Seq<PairView>,
) -> (Option<Seq<char>>, Seq<PairView>) {
    match mode {
        BodyModeView::NoBody => (None, hs),
        BodyModeView::Graphql => (
            Some(graphql_payload(expand_text(vars, body))),
            with_content_type(hs, "application/json"@),
        ),
        _ => {
            let b = expand_text(vars, body);
            if trim(b).len() == 0 {
                (None, hs)
            } else {
                match implied_content_type(mode) {
                    Some(ct) => (Some(b), with_content_type(hs, ct)),
                    None => (Some(b), hs),
                }
            }
        },
    }
}

/// Unresolved placeholders of the body, when there is one.
pub open spec fn body_refs(vars: Map<Seq<char>, Seq<char>>, mode: BodyModeView, body: Seq<char>) -> Seq<
    Seq<char>,
> {
    match mode {
        BodyModeView::NoBody => seq![],
        _ => unresolved(vars, body),
    }
}

// ---------------------------------------------------------------------------
// Prepared requests
// ---------------------------------------------------------------------------

/// A request with all `{{var}}` placeholders expanded, ready to hand to the HTTP sender.
#[derive(Debug)]
pub struct PreparedRequest {
    pub method: Method,
    pub url: String,
    pub query: Vec<(String, String)>,
    pub headers: Vec<(String, String)>,
    pub body: Option<String>,
}

/// A prepared request as text.
pub struct PreparedView {
    pub method: Method,
    pub url: Seq<char>,
    pub query: Seq<PairView>,
    pub headers: Seq<PairView>,
    pub body: Option<Seq<char>>,
}

impl View for PreparedRequest {
    type V = PreparedView;

    open spec fn view(&self) -> PreparedView {
        PreparedView {
            method: self.method,
            url: self.url@,
            query: pair_views(self.query@),
            headers: pair_views(self.headers@),
            body: match self.body {
                Some(b) => Some(b@),
                None => None,
            },
        }
    }
}

/// The outcome of preparing a request: the wire-ready request plus any variables that
/// still need values before it can be sent.
#[derive(Debug)]
pub struct Prepared {
    pub request: PreparedRequest,
    pub missing: Vec<MissingVar>,
}

/// Headers after collection and request headers are merged.
pub open spec fn merged_headers(
    vars: Map<Seq<char>, Seq<char>>,
    collection_headers: Seq<EntryView>,
    request: RequestView,
) -> Seq<PairView> {
    apply_entries(vars, apply_entries(vars, seq![], collection_headers), request.headers)
}

/// The prepared form of a request, given the resolved variables.
pub open spec fn prepared_of(
    vars: Map<Seq<char>, Seq<char>>,
    request: RequestView,
    collection_headers: Seq<EntryView>,
    collection_auth: AuthView,
) -> PreparedView {
    let h1 = merged_headers(vars, collection_headers, request);
    let h2 = with_auth(vars, h1, effective_auth(request.auth, collection_auth));
    let (body, h3) = body_outcome(vars, request.body_mode, request.body, h2);
    PreparedView {
        method: request.method,
        url: substitute_params(vars, expand_text(vars, request.url), request.path_params),
        query: expand_query(vars, request.query_params),
        headers: h3,
        body,
    }
}

/// Every unresolved placeholder met while preparing, in order: URL, path params,
/// query params, collection headers, request headers, bearer token, body.
pub open spec fn prepare_refs(
    vars: Map<Seq<char>, Seq<char>>,
    request: RequestView,
    collection_headers: Seq<EntryView>,
    collection_auth: AuthView,
) -> Seq<Seq<char>> {
    let h1 = merged_headers(vars, collection_headers, request);
    unresolved(vars, request.url) + entry_refs(vars, request.path_params) + entry_refs(
        vars,
        request.query_params,
    ) + entry_refs(vars, collection_headers) + entry_refs(vars, request.headers) + auth_refs(
        vars,
        h1,
        effective_auth(request.auth, collection_auth),
    ) + body_refs(vars, request.body_mode, request.body)
}

/// A request that inherits its auth is prepared exactly as if it named the collection's
/// auth itself: same URL, query, headers and body, and the same unresolved placeholders.
pub proof fn lemma_inherit_uses_collection_auth(
    vars: Map<Seq<char>, Seq<char>>,
    request: RequestView,
    collection_headers: Seq<EntryView>,
    collection_auth: AuthView,
)
    requires
        request.auth == AuthView::Inherit,
    ensures
        prepared_of(vars, request, collection_headers, collection_auth) == prepared_of(
            vars,
            RequestView { auth: collection_auth, ..request },
            collection_headers,
            collection_auth,
        ),
        prepare_refs(vars, request, collection_headers, collection_auth) == prepare_refs(
            vars,
            RequestView { auth: collection_auth, ..request },
            collection_headers,
            collection_auth,
        ),
{
}

/// An Authorization header set by the collection or the request wins over any auth
/// mode: the request is prepared as if it had no auth at all.
pub proof fn lemma_explicit_authorization_kept(
    vars: Map<Seq<char>, Seq<char>>,
    request: RequestView,
    collection_headers: Seq<EntryView>,
    collection_auth: AuthView,
)
    requires
        has_header_spec(merged_headers(vars, collection_headers, request), "authorization"@),
    ensures
        prepared_of(vars, request, collection_headers, collection_auth) == prepared_of(
            vars,
            RequestView { auth: AuthView::NoAuth, ..request },
            collection_headers,
            collection_auth,
        ),
{
}

/// A request with a bearer token of its own, or one that inherits its auth from a
/// collection with a bearer token, is sent with `Authorization: Bearer <token>`, the
/// token expanded, unless the collection or request headers already set an
/// Authorization header.
pub proof fn lemma_bearer_sent(
    vars: Map<Seq<char>, Seq<char>>,
    request: RequestView,
    collection_headers: Seq<EntryView>,
    collection_auth: AuthView,
    token: Seq<char>,
)
    requires
        request.auth == AuthView::Bearer(token) || (request.auth == AuthView::Inherit
            && collection_auth == AuthView::Bearer(token)),
        !has_header_spec(merged_headers(vars, collection_headers, request), "authorization"@),
    ensures
        prepared_of(vars, request, collection_headers, collection_auth).headers.contains(
            ("Authorization"@, "Bearer "@ + expand_text(vars, token)),
        ),
{
    let h1 = merged_headers(vars, collection_headers, request);
    let h2 = with_auth(vars, h1, effective_auth(request.auth, collection_auth));
    let entry = ("Authorization"@, "Bearer "@ + expand_text(vars, token));
    assert(h2 == h1.push(entry));
    assert(h2[h1.len() as int] == entry);
    let (body, h3) = body_outcome(vars, request.body_mode, request.body, h2);
    assert(h3.len() >= h2.len() && h3[h1.len() as int] == h2[h1.len() as int]) by {
        if has_header_spec(h2, "content-type"@) {
        } else {
            assert(h2.push(("Content-Type"@, "application/json"@))[h1.len() as int] == entry);
        }
    }
    assert(prepared_of(vars, request, collection_headers, collection_auth).headers == h3);
    assert(h3[h1.len() as int] == entry);
}

/// The variables visible to a request.
pub open spec fn vars_for(
    collection: &Collection,
    environment: Option<&Environment>,
    overrides: Map<Seq<char>, Seq<char>>,
) -> Map<Seq<char>, Seq<char>> {
    context_vars(
        entry_views(collection.vars@),
        collection.process_env@,
        match environment {
            Some(e) => Some(entry_views(e.vars@)),
            None => None,
        },
        overrides,
    )
}

/// The names treated as secret for a request.
pub open spec fn secrets_for(collection: &Collection, environment: Option<&Environment>) -> Set<
    Seq<char>,
> {
    context_secrets(
        collection.process_env@,
        match environment {
            Some(e) => Some(texts(e.secret_vars@)),
            None => None,
        },
    )
}

/// Expand a request against its collection, the selected environment, and any
/// session-provided overrides, resolving auth, path/query params and the body.
pub fn prepare(
    request: &Request,
    collection: &Collection,
    environment: Option<&Environment>,
    overrides: &VarMap,
) -> (r: Prepared)
    ensures
        r.request@ == prepared_of(
            vars_for(collection, environment, overrides@),
            request@,
            entry_views(collection.headers@),
            collection.auth@,
        ),
        missing_views(r.missing@) == add_all_missing(
            secrets_for(collection, environment),
            seq![],
            prepare_refs(
                vars_for(collection, environment, overrides@),
                request@,
                entry_views(collection.headers@),
                collection.auth@,
            ),
        ),
{
    let context = VarContext::build(collection, environment, overrides);
    let ghost vars = context.vars();
    let ghost secrets = context.secret_names();
    proof {
        match environment {
            Some(e) => {},
            None => {},
        }
    }
    assert(vars == vars_for(collection, environment, overrides@));
    assert(secrets == secrets_for(collection, environment));
    let mut missing: Vec<MissingVar> = Vec::new();
    let ghost empty: Seq<MissingView> = seq![];
    assert(missing_views(missing@) =~= empty);

    // URL: expand vars, then substitute `:path` params.
    let url0 = context.expand(request.url.as_str(), &mut missing);
    let url = substitute_path_params(&context, url0, &request.path_params, &mut missing);
    let ghost refs1 = unresolved(vars, request.url@) + entry_refs(vars, entry_views(request.path_params@));
    proof {
        lemma_add_all_missing_concat(secrets, empty, unresolved(vars, request.url@), entry_refs(vars, entry_views(request.path_params@)));
    }

    let query = expand_query_params(&context, &request.query_params, &mut missing);
    proof {
        lemma_add_all_missing_concat(secrets, empty, refs1, entry_refs(vars, entry_views(request.query_params@)));
    }
    let ghost refs2 = refs1 + entry_refs(vars, entry_views(request.query_params@));

    // Collection-level headers are defaults; request headers of the same name win.
    let mut headers: Vec<(String, String)> = Vec::new();
    assert(pair_views(headers@) =~= Seq::<PairView>::empty());
    apply_header_entries(&context, &mut headers, &collection.headers, &mut missing);
    proof {
        lemma_add_all_missing_concat(secrets, empty, refs2, entry_refs(vars, entry_views(collection.headers@)));
    }
    let ghost refs3 = refs2 + entry_refs(vars, entry_views(collection.headers@));
    apply_header_entries(&context, &mut headers, &request.headers, &mut missing);
    proof {
        lemma_add_all_missing_concat(secrets, empty, refs3, entry_refs(vars, entry_views(request.headers@)));
    }
    let ghost refs4 = refs3 + entry_refs(vars, entry_views(request.headers@));
    let ghost h1 = pair_views(headers@);
    assert(h1 == merged_headers(vars, entry_views(collection.headers@), request@));

    apply_auth(request, collection, &context, &mut headers, &mut missing);
    proof {
        lemma_add_all_missing_concat(secrets, empty, refs4, auth_refs(vars, h1, effective_auth(request.auth@, collection.auth@)));
    }
    let ghost refs5 = refs4 + auth_refs(vars, h1, effective_auth(request.auth@, collection.auth@));

    let body = build_body(request, &context, &mut headers, &mut missing);
    proof {
        lemma_add_all_missing_concat(secrets, empty, refs5, body_refs(vars, request.body_mode@, request.body@));
    }

    Prepared {
        request: PreparedRequest { method: request.method, url, query, headers, body },
        missing,
    }
}

/// Substitute the enabled `:name` path params of `url` with their expanded values.
fn substitute_path_params(
    context: &VarContext,
    url: String,
    params: &Vec<Entry>,
    missing: &mut Vec<MissingVar>,
) -> (r: String)
    ensures
        r@ == substitute_params(context.vars(), url@, entry_views(params@)),
        missing_views(final(missing)@) == add_all_missing(
            context.secret_names(),
            missing_views(old(missing)@),
            entry_refs(context.vars(), entry_views(params@)),
        ),
{
    let ghost ps = entry_views(params@);
    let ghost start = missing_views(missing@);
    let mut url = url;
    let ghost url0 = url@;
    let mut k: usize = 0;
    while k < params.len()
        invariant
            0 <= k <= params.len(),
            ps == entry_views(params@),
            url@ == substitute_params(context.vars(), url0, ps.take(k as int)),
            missing_views(missing@) == add_all_missing(
                context.secret_names(),
                start,
                entry_refs(context.vars(), ps.take(k as int)),
            ),
            start == missing_views(old(missing)@),
        decreases params.len() - k,
    {
        let param = &params[k];
        proof {
            assert(ps.take(k + 1).drop_last() =~= ps.take(k as int));
            assert(ps.take(k + 1).last() == param@);
        }
        if param.enabled {
            let ghost before = entry_refs(context.vars(), ps.take(k as int));
            let value = context.expand(param.value.as_str(), missing);
            proof {
                lemma_add_all_missing_concat(
                    context.secret_names(),
                    start,
                    before,
                    unresolved(context.vars(), param.value@),
                );
            }
            let mut pat = ":".to_string();
            push_str(&mut pat, param.name.as_str());
            proof {
                reveal_strlit(":");
                assert(":"@ =~= seq![':']);
                assert(pat@.len() > 0);
            }
            url = replace_all(url.as_str(), pat.as_str(), value.as_str());
        } else {
            assert(entry_refs(context.vars(), ps.take(k + 1)) =~= entry_refs(
                context.vars(),
                ps.take(k as int),
            ) + Seq::<Seq<char>>::empty());
        }
        k += 1;
    }
    assert(ps.take(params.len() as int) =~= ps);
    url
}

/// The enabled query params with their values expanded.
fn expand_query_params(
    context: &VarContext,
    params: &Vec<Entry>,
    missing: &mut Vec<MissingVar>,
) -> (r: Vec<(String, String)>)
    ensures
        pair_views(r@) == expand_query(context.vars(), entry_views(params@)),
        missing_views(final(missing)@) == add_all_missing(
            context.secret_names(),
            missing_views(old(missing)@),
            entry_refs(context.vars(), entry_views(params@)),
        ),
{
    let ghost ps = entry_views(params@);
    let ghost start = missing_views(missing@);
    let mut out: Vec<(String, String)> = Vec::new();
    let mut k: usize = 0;
    while k < params.len()
        invariant
            0 <= k <= params.len(),
            ps == entry_views(params@),
            pair_views(out@) == expand_query(context.vars(), ps.take(k as int)),
            missing_views(missing@) == add_all_missing(
                context.secret_names(),
                start,
                entry_refs(context.vars(), ps.take(k as int)),
            ),
            start == missing_views(old(missing)@),
        decreases params.len() - k,
    {
        let param = &params[k];
        proof {
            assert(ps.take(k + 1).drop_last() =~= ps.take(k as int));
            assert(ps.take(k + 1).last() == param@);
        }
        let ghost before = pair_views(out@);
        if param.enabled {
            let ghost refs = entry_refs(context.vars(), ps.take(k as int));
            let value = context.expand(param.value.as_str(), missing);
            proof {
                lemma_add_all_missing_concat(
                    context.secret_names(),
                    start,
                    refs,
                    unresolved(context.vars(), param.value@),
                );
            }
            out.push((param.name.clone(), value));
            assert(pair_views(out@) =~= before + seq![(param.name@, expand_text(context.vars(), param.value@))]);
        } else {
            assert(pair_views(out@) =~= before + Seq::<PairView>::empty());
            assert(entry_refs(context.vars(), ps.take(k + 1)) =~= entry_refs(
                context.vars(),
                ps.take(k as int),
            ) + Seq::<Seq<char>>::empty());
        }
        k += 1;
    }
    assert(ps.take(params.len() as int) =~= ps);
    out
}

/// Set each enabled entry of `entries`, value expanded, into `headers`.
fn apply_header_entries(
    context: &VarContext,
    headers: &mut Vec<(String, String)>,
    entries: &Vec<Entry>,
    missing: &mut Vec<MissingVar>,
)
    ensures
        pair_views(final(headers)@) == apply_entries(
            context.vars(),
            pair_views(old(headers)@),
            entry_views(entries@),
        ),
        missing_views(final(missing)@) == add_all_missing(
            context.secret_names(),
            missing_views(old(missing)@),
            entry_refs(context.vars(), entry_views(entries@)),
        ),
{
    let ghost es = entry_views(entries@);
    let ghost start = missing_views(missing@);
    let ghost h0 = pair_views(headers@);
    let mut k: usize = 0;
    while k < entries.len()
        invariant
            0 <= k <= entries.len(),
            es == entry_views(entries@),
            pair_views(headers@) == apply_entries(context.vars(), h0, es.take(k as int)),
            missing_views(missing@) == add_all_missing(
                context.secret_names(),
                start,
                entry_refs(context.vars(), es.take(k as int)),
            ),
            start == missing_views(old(missing)@),
            h0 == pair_views(old(headers)@),
        decreases entries.len() - k,
    {
        let entry = &entries[k];
        proof {
            assert(es.take(k + 1).drop_last() =~= es.take(k as int));
            assert(es.take(k + 1).last() == entry@);
        }
        if entry.enabled {
            let ghost refs = entry_refs(context.vars(), es.take(k as int));
            let value = context.expand(entry.value.as_str(), missing);
            proof {
                lemma_add_all_missing_concat(
                    context.secret_names(),
                    start,
                    refs,
                    unresolved(context.vars(), entry.value@),
                );
            }
            set_header(headers, entry.name.clone(), value);
        } else {
            assert(entry_refs(context.vars(), es.take(k + 1)) =~= entry_refs(
                context.vars(),
                es.take(k as int),
            ) + Seq::<Seq<char>>::empty());
        }
        k += 1;
    }
    assert(es.take(entries.len() as int) =~= es);
}

fn apply_auth(
    request: &Request,
    collection: &Collection,
    context: &VarContext,
    headers: &mut Vec<(String, String)>,
    missing: &mut Vec<MissingVar>,
)
    ensures
        pair_views(final(headers)@) == with_auth(
            context.vars(),
            pair_views(old(headers)@),
            effective_auth(request.auth@, collection.auth@),
        ),
        missing_views(final(missing)@) == add_all_missing(
            context.secret_names(),
            missing_views(old(missing)@),
            auth_refs(
                context.vars(),
                pair_views(old(headers)@),
                effective_auth(request.auth@, collection.auth@),
            ),
        ),
{
    let resolved = match &request.auth {
        Auth::Inherit => &collection.auth,
        other => other,
    };
    assert(resolved@ == effective_auth(request.auth@, collection.auth@));

    if let Auth::Bearer(token) = resolved {
        if !has_header(headers, "authorization") {
            let token = context.expand(token.as_str(), missing);
            let mut value = "Bearer ".to_string();
            push_str(&mut value, token.as_str());
            let ghost before = pair_views(headers@);
            headers.push(("Authorization".to_string(), value));
            assert(pair_views(headers@) =~= before.push(("Authorization"@, value@)));
            return;
        }
    }
    assert(add_all_missing(context.secret_names(), missing_views(missing@), seq![]) == missing_views(
        missing@,
    ));
}

fn build_body(
    request: &Request,
    context: &VarContext,
    headers: &mut Vec<(String, String)>,
    missing: &mut Vec<MissingVar>,
) -> (r: Option<String>)
    ensures
        (match r {
            Some(b) => Some(b@),
            None => None,
        }, pair_views(final(headers)@)) == body_outcome(
            context.vars(),
            request.body_mode@,
            request.body@,
            pair_views(old(headers)@),
        ),
        missing_views(final(missing)@) == add_all_missing(
            context.secret_names(),
            missing_views(old(missing)@),
            body_refs(context.vars(), request.body_mode@, request.body@),
        ),
{
    match &request.body_mode {
        BodyMode::NoBody => {
            assert(add_all_missing(context.secret_names(), missing_views(missing@), seq![])
                == missing_views(missing@));
            None
        },
        BodyMode::Graphql => {
            let query = context.expand(request.body.as_str(), missing);
            if !has_header(headers, "content-type") {
                let ghost before = pair_views(headers@);
                headers.push(("Content-Type".to_string(), "application/json".to_string()));
                assert(pair_views(headers@) =~= before.push(("Content-Type"@, "application/json"@)));
            }
            let mut payload = "{".to_string();
            let key = json_string("query");
            push_str(&mut payload, key.as_str());
            push_str(&mut payload, ":");
            let value = json_string(query.as_str());
            push_str(&mut payload, value.as_str());
            push_str(&mut payload, "}");
            Some(payload)
        },
        mode => {
            let body = context.expand(request.body.as_str(), missing);
            if is_blank(body.as_str()) {
                return None;
            }
            match default_content_type(mode) {
                Some(content_type) => {
                    if !has_header(headers, "content-type") {
                        let ghost before = pair_views(headers@);
                        headers.push(("Content-Type".to_string(), content_type.to_string()));
                        assert(pair_views(headers@) =~= before.push(("Content-Type"@, content_type@)));
                    }
                },
                None => {},
            }
            Some(body)
        },
    }
}

/// `s.trim().is_empty()`.
fn is_blank(s: &str) -> (r: bool)
    ensures
        r == (trim(s@).len() == 0),
{
    let cs = crate::text::chars_of(s);
    assert(cs@.subrange(0, cs.len() as int) =~= cs@);
    let (a, b) = crate::text::trim_range(&cs, 0, cs.len());
    a == b
}

/// `serde_json`'s `Display` of a string value: the string in double quotes, escaped
/// as `format_escaped_str` escapes it.
#[verifier::external_body]
fn json_string(s: &str) -> (r: String)
    ensures
        r@ == json_quoted(s@),
{
    serde_json::Value::String(s.to_string()).to_string()
}

/// The Content-Type Bruno would imply from a body mode, used only when the request
/// doesn't already set one explicitly.
fn default_content_type(mode: &BodyMode) -> (r: Option<&'static str>)
    ensures
        match implied_content_type(mode@) {
            Some(ct) => r matches Some(x) && x@ == ct,
            None => r is None,
        },
{
    match mode {
        BodyMode::Json => Some("application/json"),
        BodyMode::Xml => Some("application/xml"),
        BodyMode::Text => Some("text/plain"),
        _ => None,
    }
}

fn has_header(headers: &Vec<(String, String)>, name: &str) -> (r: bool)
    ensures
        r == has_header_spec(pair_views(headers@), name@),
{
    let ghost hs = pair_views(headers@);
    let mut i: usize = 0;
    while i < headers.len()
        invariant
            0 <= i <= headers@.len(),
            hs == pair_views(headers@),
            forall|j: int| 0 <= j < i ==> !eq_ignore_ascii_case(hs[j].0, name@),
        decreases headers@.len() - i,
    {
        if same_ignoring_ascii_case(headers[i].0.as_str(), name) {
            assert(eq_ignore_ascii_case(hs[i as int].0, name@));
            return true;
        }
        i += 1;
    }
    false
}

/// Insert or replace a header by case-insensitive name, preserving insertion order.
fn set_header(headers: &mut Vec<(String, String)>, name: String, value: String)
    ensures
        pair_views(final(headers)@) == set_header_spec(pair_views(old(headers)@), name@, value@),
{
    let ghost hs = pair_views(headers@);
    let mut i: usize = 0;
    while i < headers.len()
        invariant
            0 <= i <= headers@.len(),
            hs == pair_views(headers@),
            hs == pair_views(old(headers)@),
            forall|j: int| 0 <= j < i ==> !eq_ignore_ascii_case(hs[j].0, name@),
        decreases headers@.len() - i,
    {
        if same_ignoring_ascii_case(headers[i].0.as_str(), name.as_str()) {
            proof {
                assert(is_first_header(hs, name@, i as int));
                let c = choose|c: int| is_first_header(hs, name@, c);
                if c < i {
                    assert(!eq_ignore_ascii_case(hs[c].0, name@));
                } else if c > i {
                    assert(!eq_ignore_ascii_case(hs[i as int].0, name@));
                }
            }
            let existing = headers[i].0.clone();
            headers.set(i, (existing, value));
            assert(pair_views(headers@) =~= hs.update(i as int, (hs[i as int].0, value@)));
            return;
        }
        i += 1;
    }
    headers.push((name, value));
    assert(pair_views(headers@) =~= hs.push((name@, value@)));
}

} // verus!
