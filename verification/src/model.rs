//! The data model of a Bruno collection: requests, environments and their entries.
use vstd::prelude::*;

use crate::text::{folded, same_text, texts, trim};
use crate::varmap::VarMap;

verus! {

/// HTTP method declared by a request's method block (`get`, `post`, ...).
#[derive(Debug, Clone, Copy, PartialEq, Eq, Structural)]
pub enum Method {
    Get,
    Post,
    Put,
    Patch,
    Delete,
    Head,
}

impl Method {
    /// The method a block name declares.
    pub open spec fn from_name(name: Seq<char>) -> Option<Method> {
        if name == "get"@ {
            Some(Method::Get)
        } else if name == "post"@ {
            Some(Method::Post)
        } else if name == "put"@ {
            Some(Method::Put)
        } else if name == "patch"@ {
            Some(Method::Patch)
        } else if name == "delete"@ {
            Some(Method::Delete)
        } else if name == "head"@ {
            Some(Method::Head)
        } else {
            None
        }
    }

    /// The wire name of the method.
    pub open spec fn wire_name(self) -> Seq<char> {
        match self {
            Method::Get => "GET"@,
            Method::Post => "POST"@,
            Method::Put => "PUT"@,
            Method::Patch => "PATCH"@,
            Method::Delete => "DELETE"@,
            Method::Head => "HEAD"@,
        }
    }

    pub fn from_block_name(name: &str) -> (r: Option<Self>)
        ensures
            r == Self::from_name(name@),
    {
        if same_text(name, "get") {
            Some(Method::Get)
        } else if same_text(name, "post") {
            Some(Method::Post)
        } else if same_text(name, "put") {
            Some(Method::Put)
        } else if same_text(name, "patch") {
            Some(Method::Patch)
        } else if same_text(name, "delete") {
            Some(Method::Delete)
        } else if same_text(name, "head") {
            Some(Method::Head)
        } else {
            None
        }
    }

    pub fn as_str(&self) -> (r: &'static str)
        ensures
            r@ == self.wire_name(),
    {
        match self {
            Method::Get => "GET",
            Method::Post => "POST",
            Method::Put => "PUT",
            Method::Patch => "PATCH",
            Method::Delete => "DELETE",
            Method::Head => "HEAD",
        }
    }
}

/// `w` with its ASCII capitals in lower case (`str::to_ascii_lowercase`).
pub open spec fn ascii_lowercase(w: Seq<char>) -> Seq<char> {
    Seq::new(w.len(), |i: int| folded(w[i]) as char)
}

/// Each method block is named by its method's wire name in lower case, and no other
/// name declares a method: `patch` declares `PATCH`, `get` declares `GET`, and so on.
pub proof fn lemma_method_block_names(name: Seq<char>, m: Method)
    ensures
        Method::from_name(name) == Some(m) <==> name == ascii_lowercase(m.wire_name()),
{
    reveal_strlit("get");
    reveal_strlit("post");
    reveal_strlit("put");
    reveal_strlit("patch");
    reveal_strlit("delete");
    reveal_strlit("head");
    reveal_strlit("GET");
    reveal_strlit("POST");
    reveal_strlit("PUT");
    reveal_strlit("PATCH");
    reveal_strlit("DELETE");
    reveal_strlit("HEAD");
    assert(ascii_lowercase("GET"@) =~= "get"@);
    assert(ascii_lowercase("POST"@) =~= "post"@);
    assert(ascii_lowercase("PUT"@) =~= "put"@);
    assert(ascii_lowercase("PATCH"@) =~= "patch"@);
    assert(ascii_lowercase("DELETE"@) =~= "delete"@);
    assert(ascii_lowercase("HEAD"@) =~= "head"@);
    assert("get"@[0] != "put"@[0]);
    assert("post"@[0] != "head"@[0]);
    assert("post"@.len() != "patch"@.len() && "post"@.len() != "delete"@.len());
    assert("get"@.len() != "post"@.len() && "get"@.len() != "patch"@.len());
    assert("get"@.len() != "delete"@.len() && "get"@.len() != "head"@.len());
    assert("put"@.len() != "post"@.len() && "put"@.len() != "patch"@.len());
    assert("put"@.len() != "delete"@.len() && "put"@.len() != "head"@.len());
    assert("patch"@.len() != "delete"@.len() && "patch"@.len() != "head"@.len());
    assert("delete"@.len() != "head"@.len());
}

/// How the request body is encoded, taken from the method block's `body:` field
/// and the matching `body:<mode>` block.
#[derive(Debug, PartialEq, Eq)]
pub enum BodyMode {
    NoBody,
    Json,
    Text,
    Xml,
    Graphql,
    Other(String),
}

/// The body mode a raw `body:` value names, as text (`Other` carries the trimmed name).
pub enum BodyModeView {
    NoBody,
    Json,
    Text,
    Xml,
    Graphql,
    Other(Seq<char>),
}

impl View for BodyMode {
    type V = BodyModeView;

    open spec fn view(&self) -> BodyModeView {
        match self {
            BodyMode::NoBody => BodyModeView::NoBody,
            BodyMode::Json => BodyModeView::Json,
            BodyMode::Text => BodyModeView::Text,
            BodyMode::Xml => BodyModeView::Xml,
            BodyMode::Graphql => BodyModeView::Graphql,
            BodyMode::Other(s) => BodyModeView::Other(s@),
        }
    }
}

impl Clone for BodyMode {
    fn clone(&self) -> (r: Self)
        ensures
            r == *self,
    {
        match self {
            BodyMode::NoBody => BodyMode::NoBody,
            BodyMode::Json => BodyMode::Json,
            BodyMode::Text => BodyMode::Text,
            BodyMode::Xml => BodyMode::Xml,
            BodyMode::Graphql => BodyMode::Graphql,
            BodyMode::Other(s) => BodyMode::Other(s.clone()),
        }
    }
}

impl BodyMode {
    /// The body mode a raw `body:` value names.
    pub open spec fn parse_spec(raw: Seq<char>) -> BodyModeView {
        let t = trim(raw);
        if t.len() == 0 || t == "none"@ {
            BodyModeView::NoBody
        } else if t == "json"@ {
            BodyModeView::Json
        } else if t == "text"@ {
            BodyModeView::Text
        } else if t == "xml"@ {
            BodyModeView::Xml
        } else if t == "graphql"@ {
            BodyModeView::Graphql
        } else {
            BodyModeView::Other(t)
        }
    }

    pub fn parse(raw: &str) -> (r: Self)
        ensures
            r@ == Self::parse_spec(raw@),
    {
        let cs = crate::text::chars_of(raw);
        let (a, b) = crate::text::trim_range(&cs, 0, cs.len());
        assert(cs@.subrange(0, cs.len() as int) =~= cs@);
        let t = crate::text::string_of(&cs, a, b);
        let ts = t.as_str();
        if a == b || same_text(ts, "none") {
            BodyMode::NoBody
        } else if same_text(ts, "json") {
            BodyMode::Json
        } else if same_text(ts, "text") {
            BodyMode::Text
        } else if same_text(ts, "xml") {
            BodyMode::Xml
        } else if same_text(ts, "graphql") {
            BodyMode::Graphql
        } else {
            BodyMode::Other(t)
        }
    }
}

/// Request kind from `meta { type: ... }`.
#[derive(Debug, Clone, Copy, PartialEq, Eq, Structural)]
pub enum RequestType {
    Http,
    Graphql,
}

impl RequestType {
    /// The request kind a raw `type:` value names.
    pub open spec fn parse_spec(raw: Seq<char>) -> RequestType {
        if trim(raw) == "graphql"@ {
            RequestType::Graphql
        } else {
            RequestType::Http
        }
    }

    pub fn parse(raw: &str) -> (r: Self)
        ensures
            r == Self::parse_spec(raw@),
    {
        let cs = crate::text::chars_of(raw);
        let (a, b) = crate::text::trim_range(&cs, 0, cs.len());
        assert(cs@.subrange(0, cs.len() as int) =~= cs@);
        let t = crate::text::string_of(&cs, a, b);
        if same_text(t.as_str(), "graphql") {
            RequestType::Graphql
        } else {
            RequestType::Http
        }
    }
}

/// Authentication resolved for a request or declared on a collection.
#[derive(Debug, PartialEq, Eq)]
pub enum Auth {
    NoAuth,
    Inherit,
    Bearer(String),
}

/// Authentication as text.
pub enum AuthView {
    NoAuth,
    Inherit,
    Bearer(Seq<char>),
}

impl View for Auth {
    type V = AuthView;

    open spec fn view(&self) -> AuthView {
        match self {
            Auth::NoAuth => AuthView::NoAuth,
            Auth::Inherit => AuthView::Inherit,
            Auth::Bearer(t) => AuthView::Bearer(t@),
        }
    }
}

impl Clone for Auth {
    fn clone(&self) -> (r: Self)
        ensures
            r == *self,
    {
        match self {
            Auth::NoAuth => Auth::NoAuth,
            Auth::Inherit => Auth::Inherit,
            Auth::Bearer(t) => Auth::Bearer(t.clone()),
        }
    }
}

/// A single header/param line; Bruno marks disabled entries with a leading `~`.
#[derive(Debug, PartialEq, Eq)]
pub struct Entry {
    pub name: String,
    pub value: String,
    pub enabled: bool,
}

/// An entry as text.
pub struct EntryView {
    pub name: Seq<char>,
    pub value: Seq<char>,
    pub enabled: bool,
}

impl View for Entry {
    type V = EntryView;

    open spec fn view(&self) -> EntryView {
        EntryView { name: self.name@, value: self.value@, enabled: self.enabled }
    }
}

/// The views of a sequence of entries.
pub open spec fn entry_views(v: Seq<Entry>) -> Seq<EntryView> {
    v.map_values(|e: Entry| e@)
}

impl Clone for Entry {
    fn clone(&self) -> (r: Self)
        ensures
            r == *self,
    {
        Entry { name: self.name.clone(), value: self.value.clone(), enabled: self.enabled }
    }
}

impl Entry {
    pub fn new(name: String, value: String, enabled: bool) -> (r: Self)
        ensures
            r.name == name,
            r.value == value,
            r.enabled == enabled,
    {
        Entry { name, value, enabled }
    }
}

/// A vector of entries, cloned element by element.
pub fn clone_entries(v: &Vec<Entry>) -> (r: Vec<Entry>)
    ensures
        r@ == v@,
{
    let r = v.clone();
    assert(r@ =~= v@);
    r
}

/// A single executable request parsed from a `.bru` file.
#[derive(Debug)]
pub struct Request {
    pub name: String,
    pub seq: i64,
    pub req_type: RequestType,
    pub method: Method,
    pub url: String,
    pub body_mode: BodyMode,
    pub auth: Auth,
    pub headers: Vec<Entry>,
    pub path_params: Vec<Entry>,
    pub query_params: Vec<Entry>,
    pub body: String,
    pub path: String,
}

/// A request as text.
pub struct RequestView {
    pub name: Seq<char>,
    pub seq: i64,
    pub req_type: RequestType,
    pub method: Method,
    pub url: Seq<char>,
    pub body_mode: BodyModeView,
    pub auth: AuthView,
    pub headers: Seq<EntryView>,
    pub path_params: Seq<EntryView>,
    pub query_params: Seq<EntryView>,
    pub body: Seq<char>,
    pub path: Seq<char>,
}

impl View for Request {
    type V = RequestView;

    open spec fn view(&self) -> RequestView {
        RequestView {
            name: self.name@,
            seq: self.seq,
            req_type: self.req_type,
            method: self.method,
            url: self.url@,
            body_mode: self.body_mode@,
            auth: self.auth@,
            headers: entry_views(self.headers@),
            path_params: entry_views(self.path_params@),
            query_params: entry_views(self.query_params@),
            body: self.body@,
            path: self.path@,
        }
    }
}

impl Request {
    /// `a` and `b` hold the same request.
    pub open spec fn same(a: Request, b: Request) -> bool {
        &&& a.name == b.name
        &&& a.seq == b.seq
        &&& a.req_type == b.req_type
        &&& a.method == b.method
        &&& a.url == b.url
        &&& a.body_mode == b.body_mode
        &&& a.auth == b.auth
        &&& a.headers@ == b.headers@
        &&& a.path_params@ == b.path_params@
        &&& a.query_params@ == b.query_params@
        &&& a.body == b.body
        &&& a.path == b.path
    }
}

impl Clone for Request {
    fn clone(&self) -> (r: Self)
        ensures
            Request::same(r, *self),
    {
        Request {
            name: self.name.clone(),
            seq: self.seq,
            req_type: self.req_type,
            method: self.method,
            url: self.url.clone(),
            body_mode: self.body_mode.clone(),
            auth: self.auth.clone(),
            headers: clone_entries(&self.headers),
            path_params: clone_entries(&self.path_params),
            query_params: clone_entries(&self.query_params),
            body: self.body.clone(),
            path: self.path.clone(),
        }
    }
}

/// A node in the collection tree: either a folder grouping more nodes, or a request.
#[derive(Debug)]
pub enum Node {
    Folder { name: String, children: Vec<Node> },
    Request(Request),
}

/// A single environment with its variables and the names marked secret.
#[derive(Debug)]
pub struct Environment {
    pub name: String,
    pub vars: Vec<Entry>,
    pub secret_vars: Vec<String>,
}

impl Environment {
    /// `name` is among the environment's secret variable names.
    pub open spec fn secret(self, name: Seq<char>) -> bool {
        texts(self.secret_vars@).contains(name)
    }

    pub fn is_secret(&self, name: &str) -> (r: bool)
        ensures
            r == self.secret(name@),
    {
        let mut i: usize = 0;
        while i < self.secret_vars.len()
            invariant
                0 <= i <= self.secret_vars@.len(),
                forall|j: int| 0 <= j < i ==> self.secret_vars@[j]@ != name@,
            decreases self.secret_vars@.len() - i,
        {
            if same_text(self.secret_vars[i].as_str(), name) {
                assert(texts(self.secret_vars@)[i as int] == name@);
                return true;
            }
            i += 1;
        }
        proof {
            if texts(self.secret_vars@).contains(name@) {
                let j = choose|j: int|
                    0 <= j < texts(self.secret_vars@).len() && texts(self.secret_vars@)[j]
                        == name@;
                assert(self.secret_vars@[j]@ == name@);
            }
        }
        false
    }
}

/// A discovered Bruno collection: its tree of requests, collection-level defaults
/// (from `collection.bru`), and environments.
#[derive(Debug)]
pub struct Collection {
    pub name: String,
    pub path: String,
    pub auth: Auth,
    pub headers: Vec<Entry>,
    pub vars: Vec<Entry>,
    pub nodes: Vec<Node>,
    pub environments: Vec<Environment>,
    /// Values loaded from the collection's `.env` file, referenced in requests as
    /// `{{process.env.<key>}}` (Bruno-compatible). Never written back to disk.
    pub process_env: VarMap,
}

} // verus!
