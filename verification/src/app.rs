//! The application's decisions: which pane has focus, what a key press does, and what
//! outside work (sending a request, copying text) it asks for. The caller runs the
//! event loop, performs each requested effect and reports its outcome back.
use vstd::prelude::*;

use crate::collections::{self, forest_rows, forest_size, row_views, Pane};
use crate::curl::{curl_command, to_curl};
use crate::editor::{self, headers_text, Field};
use crate::environments;
use crate::http::Response;
use crate::interpolate::{add_all_missing, missing_views, MissingView};
use crate::model::{entry_views, Collection, Environment, Request};
use crate::prompt;
use crate::request::{
    prepare, prepare_refs, prepared_of, secrets_for, vars_for, PreparedRequest, PreparedView,
};
use crate::response;
use crate::selection::{clamped, cycled};
use crate::text::{decimal, lines, pop_char, push_char, push_decimal, push_str, texts};
use crate::varmap::VarMap;

verus! {

/// Which pane currently has keyboard focus.
#[derive(Debug, Clone, Copy, PartialEq, Eq, Structural)]
pub enum Focus {
    Environments,
    Collections,
    Request,
    Response,
}

impl Focus {
    /// The pane after this one in tab order.
    pub open spec fn after(self) -> Focus {
        match self {
            Focus::Environments => Focus::Collections,
            Focus::Collections => Focus::Request,
            Focus::Request => Focus::Response,
            Focus::Response => Focus::Environments,
        }
    }

    /// The pane before this one in tab order.
    pub open spec fn before(self) -> Focus {
        match self {
            Focus::Environments => Focus::Response,
            Focus::Collections => Focus::Environments,
            Focus::Request => Focus::Collections,
            Focus::Response => Focus::Request,
        }
    }

    pub fn next(self) -> (r: Self)
        ensures
            r == self.after(),
    {
        match self {
            Focus::Environments => Focus::Collections,
            Focus::Collections => Focus::Request,
            Focus::Request => Focus::Response,
            Focus::Response => Focus::Environments,
        }
    }

    pub fn prev(self) -> (r: Self)
        ensures
            r == self.before(),
    {
        match self {
            Focus::Environments => Focus::Response,
            Focus::Collections => Focus::Environments,
            Focus::Request => Focus::Collections,
            Focus::Response => Focus::Request,
        }
    }
}

/// Tab and shift-tab undo each other.
pub proof fn lemma_focus_inverse(f: Focus)
    ensures
        f.after().before() == f,
        f.before().after() == f,
{
}

/// Four tabs go round every pane and back.
pub proof fn lemma_focus_cycle(f: Focus)
    ensures
        f.after().after().after().after() == f,
        f.after() != f,
        f.after().after() != f,
        f.after().after().after() != f,
{
}

/// The key of a key press.
#[derive(Debug, Clone, Copy, PartialEq, Eq, Structural)]
pub enum KeyCode {
    Char(char),
    Enter,
    Esc,
    Tab,
    BackTab,
    Backspace,
    Up,
    Down,
    PageUp,
    PageDown,
    Other,
}

/// A key press: its key, and whether Control was held.
#[derive(Debug, Clone, Copy, PartialEq, Eq, Structural)]
pub struct Key {
    pub code: KeyCode,
    pub ctrl: bool,
}

/// Loop control returned from key handling.
#[derive(Debug, Clone, Copy, PartialEq, Eq, Structural)]
pub enum Flow {
    Continue,
    Quit,
}

/// A modal layered over the main UI.
#[derive(Debug)]
pub enum Overlay {
    Closed,
    Help,
    Prompt(prompt::State),
    Curl(String),
}

/// Outside work a key press asks for.
#[derive(Debug)]
pub enum Effect {
    /// Send this request on a worker, then report with `finish_send`.
    Send(PreparedRequest),
    /// Copy this text to the clipboard, then report with `finish_copy`.
    Copy(String),
    /// Hand the key press to the body editor, then store its lines in
    /// `request_state.body`.
    EditBody,
}

/// The application: the discovered collection data and each pane's view state.
pub struct App {
    /// The directory the collections were discovered under; collection paths are shown
    /// relative to it so worktree duplicates are distinguishable.
    pub root: String,
    pub collections: Vec<Collection>,
    pub active_collection: Option<usize>,
    pub active_environment: Option<usize>,
    pub focus: Focus,
    pub overlay: Overlay,
    pub collections_state: collections::State,
    pub environments_state: environments::State,
    pub request_state: editor::State,
    pub response_state: response::State,
    pub sending: bool,
    pub response: Option<Response>,
    pub error: Option<String>,
    pub overrides: VarMap,
    pub message: String,
    /// Outside work asked for by the last key press, if any.
    pub effect: Option<Effect>,
}

/// The environment at index `j` of a collection, if there is one.
pub open spec fn environment_at(c: Collection, j: Option<usize>) -> Option<Environment> {
    match j {
        Some(k) => if k < c.environments@.len() {
            Some(c.environments@[k as int])
        } else {
            None
        },
        None => None,
    }
}

impl App {
    /// The indices held are valid and every collection tree fits the machine.
    pub open spec fn wf(self) -> bool {
        &&& self.active_collection matches Some(i) ==> i < self.collections@.len()
        &&& forall|i: int|
            0 <= i < self.collections@.len() ==> forest_size(#[trigger] self.collections@[i].nodes@)
                <= usize::MAX
    }

    /// `b` differs from `a` at most in its message.
    pub open spec fn only_message(a: App, b: App) -> bool {
        &&& b.root == a.root
        &&& b.collections == a.collections
        &&& b.active_collection == a.active_collection
        &&& b.active_environment == a.active_environment
        &&& b.focus == a.focus
        &&& b.overlay == a.overlay
        &&& b.collections_state == a.collections_state
        &&& b.environments_state == a.environments_state
        &&& b.request_state == a.request_state
        &&& b.response_state == a.response_state
        &&& b.sending == a.sending
        &&& b.response == a.response
        &&& b.error == a.error
        &&& b.overrides == a.overrides
        &&& b.effect == a.effect
    }

    /// `b` is `a`.
    pub open spec fn same(a: App, b: App) -> bool {
        App::only_message(a, b) && b.message == a.message
    }

    /// The active collection, if any.
    pub open spec fn active_collection_spec(self) -> Option<Collection> {
        match self.active_collection {
            Some(i) => if i < self.collections@.len() {
                Some(self.collections@[i as int])
            } else {
                None
            },
            None => None,
        }
    }

    /// The active environment of the active collection, if any.
    pub open spec fn active_environment_spec(self) -> Option<Environment> {
        match self.active_collection_spec() {
            Some(c) => environment_at(c, self.active_environment),
            None => None,
        }
    }

    /// A fresh application over discovered collections: collections pane focused, no
    /// collection entered, and a message telling how many collections were found.
    pub fn new(root: String, collections: Vec<Collection>) -> (r: App)
        requires
            forall|i: int|
                0 <= i < collections@.len() ==> forest_size(#[trigger] collections@[i].nodes@)
                    <= usize::MAX,
        ensures
            r.wf(),
            r.root == root,
            r.collections == collections,
            r.active_collection is None,
            r.active_environment is None,
            r.focus == Focus::Collections,
            r.overlay == Overlay::Closed,
            r.collections_state.pane == Pane::Collections,
            r.collections_state.collections == Some(0usize),
            r.collections_state.rows@.len() == 0,
            r.collections_state.requests is None,
            r.environments_state.list == Some(0usize),
            r.request_state.source is None,
            r.response_state.scroll == 0,
            !r.response_state.show_headers,
            !r.sending,
            r.response is None,
            r.error is None,
            r.overrides@ == Map::<Seq<char>, Seq<char>>::empty(),
            r.message@ == decimal(collections@.len() as nat) + " collection(s) found · tab: switch pane · ?: help"@,
            r.effect is None,
    {
        let mut message = String::new();
        push_decimal(&mut message, collections.len() as u128);
        push_str(&mut message, " collection(s) found · tab: switch pane · ?: help");
        App {
            root,
            collections,
            active_collection: None,
            active_environment: None,
            focus: Focus::Collections,
            overlay: Overlay::Closed,
            collections_state: collections::State::default(),
            environments_state: environments::State::default(),
            request_state: editor::State::default(),
            response_state: response::State::default(),
            sending: false,
            response: None,
            error: None,
            overrides: VarMap::new(),
            message,
            effect: None,
        }
    }

    pub fn active_collection(&self) -> (r: Option<&Collection>)
        ensures
            match self.active_collection_spec() {
                Some(c) => r matches Some(x) && *x == c,
                None => r is None,
            },
    {
        match self.active_collection {
            Some(index) => if index < self.collections.len() {
                Some(&self.collections[index])
            } else {
                None
            },
            None => None,
        }
    }

    pub fn active_environment(&self) -> (r: Option<&Environment>)
        ensures
            match self.active_environment_spec() {
                Some(e) => r matches Some(x) && *x == e,
                None => r is None,
            },
    {
        let collection = match self.active_collection() {
            Some(c) => c,
            None => return None,
        };
        match self.active_environment {
            Some(index) => if index < collection.environments.len() {
                Some(&collection.environments[index])
            } else {
                None
            },
            None => None,
        }
    }

    /// The effect of a response-pane key.
    pub open spec fn response_key_step(a: App, b: App, key: Key) -> bool {
        &&& App::same(a, App { response_state: a.response_state, ..b })
        &&& b.response_state == match key.code {
            KeyCode::Down => response::State {
                scroll: response::add_capped(a.response_state.scroll, 1),
                ..a.response_state
            },
            KeyCode::Char('j') => response::State {
                scroll: response::add_capped(a.response_state.scroll, 1),
                ..a.response_state
            },
            KeyCode::Up => response::State {
                scroll: response::sub_floored(a.response_state.scroll, 1),
                ..a.response_state
            },
            KeyCode::Char('k') => response::State {
                scroll: response::sub_floored(a.response_state.scroll, 1),
                ..a.response_state
            },
            KeyCode::PageDown => response::State {
                scroll: response::add_capped(a.response_state.scroll, 10),
                ..a.response_state
            },
            KeyCode::PageUp => response::State {
                scroll: response::sub_floored(a.response_state.scroll, 10),
                ..a.response_state
            },
            KeyCode::Char('h') => response::State {
                show_headers: !a.response_state.show_headers,
                ..a.response_state
            },
            _ => a.response_state,
        }
    }

    /// Scroll the response or toggle its headers.
    pub fn handle_response_key(&mut self, key: Key)
        ensures
            App::response_key_step(*old(self), *final(self), key),
    {
        match key.code {
            KeyCode::Down | KeyCode::Char('j') => self.response_state.scroll_down(1),
            KeyCode::Up | KeyCode::Char('k') => self.response_state.scroll_up(1),
            KeyCode::PageDown => self.response_state.scroll_down(10),
            KeyCode::PageUp => self.response_state.scroll_up(10),
            KeyCode::Char('h') => self.response_state.toggle_headers(),
            _ => {},
        }
    }

    /// The effect of a request-pane key outside editing.
    pub open spec fn request_key_step(a: App, b: App, key: Key) -> bool {
        match key.code {
            KeyCode::Up | KeyCode::Char('k') => {
                &&& App::same(a, App { request_state: a.request_state, ..b })
                &&& b.request_state == editor::State {
                    field: a.request_state.field.above(),
                    ..a.request_state
                }
            },
            KeyCode::Down | KeyCode::Char('j') => {
                &&& App::same(a, App { request_state: a.request_state, ..b })
                &&& b.request_state == editor::State {
                    field: a.request_state.field.below(),
                    ..a.request_state
                }
            },
            KeyCode::Enter | KeyCode::Char('i') | KeyCode::Char('e') => if a.request_state.source is Some {
                &&& App::only_message(a, App { request_state: a.request_state, ..b })
                &&& b.request_state == editor::State { editing: true, ..a.request_state }
                &&& b.message@ == "Editing · esc to stop"@
            } else {
                App::same(a, b)
            },
            _ => App::same(a, b),
        }
    }

    /// Move between the request's fields, or start editing the current one.
    pub fn handle_request_key(&mut self, key: Key)
        ensures
            App::request_key_step(*old(self), *final(self), key),
    {
        match key.code {
            KeyCode::Up | KeyCode::Char('k') => self.request_state.previous_field(),
            KeyCode::Down | KeyCode::Char('j') => self.request_state.next_field(),
            KeyCode::Enter | KeyCode::Char('i') | KeyCode::Char('e') => {
                if self.request_state.has_request() {
                    self.request_state.editing = true;
                    self.message = "Editing · esc to stop".to_string();
                }
            },
            _ => {},
        }
    }

    /// The effect of a key while a request field is being edited.
    pub open spec fn edit_key_step(a: App, b: App, key: Key) -> bool {
        let rs = a.request_state;
        match rs.field {
            Field::Body => match key.code {
                KeyCode::Esc => App::same(a, App { request_state: rs, ..b })
                    && b.request_state == editor::State { editing: false, ..rs },
                _ => App::same(a, App { effect: a.effect, ..b }) && b.effect == Some(Effect::EditBody),
            },
            Field::Url => match key.code {
                KeyCode::Esc | KeyCode::Enter => App::same(a, App { request_state: rs, ..b })
                    && b.request_state == editor::State { editing: false, ..rs },
                KeyCode::Backspace => App::same(a, App { request_state: rs, ..b })
                    && b.request_state == editor::State { url: b.request_state.url, ..rs }
                    && b.request_state.url@ == (if rs.url@.len() > 0 {
                        rs.url@.drop_last()
                    } else {
                        rs.url@
                    }),
                KeyCode::Char(ch) => App::same(a, App { request_state: rs, ..b })
                    && b.request_state == editor::State { url: b.request_state.url, ..rs }
                    && b.request_state.url@ == rs.url@.push(ch),
                _ => App::same(a, b),
            },
            Field::Headers => match key.code {
                KeyCode::Esc => App::same(a, App { request_state: rs, ..b })
                    && b.request_state == editor::State { editing: false, ..rs },
                KeyCode::Enter => App::same(a, App { request_state: rs, ..b })
                    && b.request_state == editor::State { headers: b.request_state.headers, ..rs }
                    && b.request_state.headers@ == rs.headers@.push('\n'),
                KeyCode::Backspace => App::same(a, App { request_state: rs, ..b })
                    && b.request_state == editor::State { headers: b.request_state.headers, ..rs }
                    && b.request_state.headers@ == (if rs.headers@.len() > 0 {
                        rs.headers@.drop_last()
                    } else {
                        rs.headers@
                    }),
                KeyCode::Char(ch) => App::same(a, App { request_state: rs, ..b })
                    && b.request_state == editor::State { headers: b.request_state.headers, ..rs }
                    && b.request_state.headers@ == rs.headers@.push(ch),
                _ => App::same(a, b),
            },
        }
    }

    /// Type into the field being edited; escape stops editing.
    pub fn handle_request_edit_key(&mut self, key: Key)
        ensures
            App::edit_key_step(*old(self), *final(self), key),
    {
        match self.request_state.field {
            Field::Body => match key.code {
                KeyCode::Esc => self.request_state.editing = false,
                _ => self.effect = Some(Effect::EditBody),
            },
            Field::Url => match key.code {
                KeyCode::Esc | KeyCode::Enter => self.request_state.editing = false,
                KeyCode::Backspace => {
                    let _ = pop_char(&mut self.request_state.url);
                },
                KeyCode::Char(ch) => push_char(&mut self.request_state.url, ch),
                _ => {},
            },
            Field::Headers => match key.code {
                KeyCode::Esc => self.request_state.editing = false,
                KeyCode::Enter => push_char(&mut self.request_state.headers, '\n'),
                KeyCode::Backspace => {
                    let _ = pop_char(&mut self.request_state.headers);
                },
                KeyCode::Char(ch) => push_char(&mut self.request_state.headers, ch),
                _ => {},
            },
        }
    }

    /// A request finished: show its response and focus it, or show the failure.
    pub fn finish_send(&mut self, result: Result<Response, String>)
        ensures
            !final(self).sending,
            match result {
                Ok(resp) => {
                    &&& App::only_message(
                        *old(self),
                        App {
                            sending: old(self).sending,
                            response: old(self).response,
                            response_state: old(self).response_state,
                            focus: old(self).focus,
                            ..*final(self)
                        },
                    )
                    &&& final(self).response == Some(resp)
                    &&& final(self).response_state == response::State {
                        scroll: 0,
                        ..old(self).response_state
                    }
                    &&& final(self).focus == Focus::Response
                    &&& final(self).message@ == decimal(resp.status as nat) + " · "@ + decimal(
                        resp.time_ms as nat,
                    ) + " ms"@
                },
                Err(e) => {
                    &&& App::only_message(
                        *old(self),
                        App { sending: old(self).sending, error: old(self).error, ..*final(self) },
                    )
                    &&& final(self).error == Some(e)
                    &&& final(self).message@ == "Request failed: "@ + e@
                },
            },
    {
        self.sending = false;
        match result {
            Ok(resp) => {
                let mut message = String::new();
                push_decimal(&mut message, resp.status as u128);
                push_str(&mut message, " · ");
                push_decimal(&mut message, resp.time_ms);
                push_str(&mut message, " ms");
                self.message = message;
                self.response = Some(resp);
                self.response_state.reset();
                self.focus = Focus::Response;
            },
            Err(e) => {
                let mut message = String::new();
                push_str(&mut message, "Request failed: ");
                push_str(&mut message, e.as_str());
                self.message = message;
                self.error = Some(e);
            },
        }
    }

    /// The clipboard copy asked for by `Effect::Copy` ended: say whether it worked.
    pub fn finish_copy(&mut self, copied: bool)
        ensures
            App::only_message(*old(self), *final(self)),
            final(self).message@ == (if copied {
                "Copied curl to clipboard"@
            } else {
                "No clipboard tool found (pbcopy/wl-copy/xclip/clip)"@
            }),
    {
        self.message = if copied {
            "Copied curl to clipboard".to_string()
        } else {
            "No clipboard tool found (pbcopy/wl-copy/xclip/clip)".to_string()
        };
    }

    /// Number of environments of the active collection; 0 when none is active.
    pub open spec fn environment_count(self) -> nat {
        match self.active_collection_spec() {
            Some(c) => c.environments@.len(),
            None => 0,
        }
    }

    /// The effect of an environments-pane key.
    pub open spec fn environments_key_step(a: App, b: App, key: Key) -> bool {
        let len = a.environment_count();
        match key.code {
            KeyCode::Up | KeyCode::Char('k') => {
                &&& App::same(a, App { environments_state: a.environments_state, ..b })
                &&& b.environments_state.list == cycled(
                    a.environments_state.list,
                    len,
                    (if len > 0 {
                        len - 1
                    } else {
                        0
                    }) as nat,
                )
            },
            KeyCode::Down | KeyCode::Char('j') => {
                &&& App::same(a, App { environments_state: a.environments_state, ..b })
                &&& b.environments_state.list == cycled(a.environments_state.list, len, 1)
            },
            KeyCode::Enter => {
                &&& App::only_message(a, App { active_environment: a.active_environment, ..b })
                &&& b.active_environment == a.environments_state.list
                &&& match b.active_environment_spec() {
                    Some(e) => b.message@ == "Environment: "@ + e.name@,
                    None => b.message == a.message,
                }
            },
            _ => App::same(a, b),
        }
    }

    /// Move through the environments, or activate the highlighted one.
    pub fn handle_environments_key(&mut self, key: Key)
        ensures
            App::environments_key_step(*old(self), *final(self), key),
    {
        let len = match self.active_collection() {
            Some(collection) => collection.environments.len(),
            None => 0,
        };
        match key.code {
            KeyCode::Up | KeyCode::Char('k') => self.environments_state.move_up(len),
            KeyCode::Down | KeyCode::Char('j') => self.environments_state.move_down(len),
            KeyCode::Enter => {
                self.active_environment = self.environments_state.selected();
                let mut message = String::new();
                let named = match self.active_environment() {
                    Some(environment) => {
                        push_str(&mut message, "Environment: ");
                        push_str(&mut message, environment.name.as_str());
                        true
                    },
                    None => false,
                };
                if named {
                    self.message = message;
                }
            },
            _ => {},
        }
    }

    /// The effect of entering the highlighted collection.
    pub open spec fn enter_step(a: App, b: App) -> bool {
        match a.collections_state.collections {
            Some(i) => if i < a.collections@.len() {
                let c = a.collections@[i as int];
                &&& App::only_message(
                    a,
                    App {
                        collections_state: a.collections_state,
                        active_collection: a.active_collection,
                        environments_state: a.environments_state,
                        active_environment: a.active_environment,
                        ..b
                    },
                )
                &&& row_views(b.collections_state.rows@) == forest_rows(c.nodes@, 0)
                &&& b.collections_state.pane == Pane::Requests
                &&& b.collections_state.requests == (if b.collections_state.rows@.len() > 0 {
                    Some(0usize)
                } else {
                    None
                })
                &&& b.collections_state.collections == a.collections_state.collections
                &&& b.active_collection == Some(i)
                &&& b.environments_state.list == clamped(
                    a.environments_state.list,
                    c.environments@.len(),
                )
                &&& b.active_environment == (if c.environments@.len() > 0 {
                    b.environments_state.list
                } else {
                    None
                })
                &&& b.message@ == "Collection: "@ + c.name@
            } else {
                App::same(a, b)
            },
            None => App::same(a, b),
        }
    }

    /// Enter the highlighted collection: show its request tree, make it active, and
    /// activate its highlighted environment (the first one when none fits).
    pub fn enter_selected_collection(&mut self)
        requires
            old(self).wf(),
        ensures
            final(self).wf(),
            App::enter_step(*old(self), *final(self)),
    {
        let index = match self.collections_state.selected_collection() {
            Some(index) => index,
            None => return ,
        };
        if index >= self.collections.len() {
            return ;
        }
        let env_len = self.collections[index].environments.len();
        let mut message = String::new();
        push_str(&mut message, "Collection: ");
        push_str(&mut message, self.collections[index].name.as_str());
        assert(forest_size(self.collections@[index as int].nodes@) <= usize::MAX);
        self.collections_state.enter(&self.collections[index]);
        self.active_collection = Some(index);
        self.environments_state.clamp(env_len);
        self.active_environment = if env_len > 0 {
            match self.environments_state.selected() {
                Some(j) => Some(j),
                None => Some(0),
            }
        } else {
            None
        };
        self.message = message;
    }

    /// The effect of loading the request on the highlighted row.
    pub open spec fn load_step(a: App, b: App) -> bool {
        match a.collections_state.selected_row_request() {
            Some(q) => {
                &&& App::only_message(
                    a,
                    App { request_state: a.request_state, focus: a.focus, ..b },
                )
                &&& b.request_state.source matches Some(s) && Request::same(s, q)
                &&& b.request_state.url@ == q.url@
                &&& b.request_state.headers@ == headers_text(entry_views(q.headers@))
                &&& texts(b.request_state.body@) == lines(q.body@)
                &&& b.request_state.field == Field::Url
                &&& !b.request_state.editing
                &&& b.focus == Focus::Request
                &&& b.message@ == "Loaded "@ + q.name@
            },
            None => App::same(a, b),
        }
    }

    /// Load the request on the highlighted row into the request pane and focus it.
    pub fn load_selected_request(&mut self)
        ensures
            App::load_step(*old(self), *final(self)),
    {
        let request = match self.collections_state.selected_request() {
            Some(request) => request.clone(),
            None => return ,
        };
        let mut message = String::new();
        push_str(&mut message, "Loaded ");
        push_str(&mut message, request.name.as_str());
        self.request_state.load(request);
        self.focus = Focus::Request;
        self.message = message;
    }

    /// The effect of a collections-pane key.
    pub open spec fn collections_key_step(a: App, b: App, key: Key) -> bool {
        let cs = a.collections_state;
        let len = a.collections@.len();
        let moved_down = match cs.pane {
            Pane::Collections => collections::State {
                collections: cycled(cs.collections, len, 1),
                ..cs
            },
            Pane::Requests => collections::State {
                requests: cycled(cs.requests, cs.rows@.len(), 1),
                ..cs
            },
        };
        let moved_up = match cs.pane {
            Pane::Collections => collections::State {
                collections: cycled(
                    cs.collections,
                    len,
                    (if len > 0 {
                        len - 1
                    } else {
                        0
                    }) as nat,
                ),
                ..cs
            },
            Pane::Requests => collections::State {
                requests: cycled(
                    cs.requests,
                    cs.rows@.len(),
                    (if cs.rows@.len() > 0 {
                        cs.rows@.len() - 1
                    } else {
                        0
                    }) as nat,
                ),
                ..cs
            },
        };
        match key.code {
            KeyCode::Up | KeyCode::Char('k') => App::same(a, App { collections_state: cs, ..b })
                && b.collections_state == moved_up,
            KeyCode::Down | KeyCode::Char('j') => App::same(a, App { collections_state: cs, ..b })
                && b.collections_state == moved_down,
            KeyCode::Enter => match cs.pane {
                Pane::Collections => App::enter_step(a, b),
                Pane::Requests => App::load_step(a, b),
            },
            KeyCode::Esc | KeyCode::Backspace | KeyCode::Char('h') => match cs.pane {
                Pane::Collections => App::same(a, b),
                Pane::Requests => App::same(a, App { collections_state: cs, ..b })
                    && b.collections_state == collections::State { pane: Pane::Collections, ..cs },
            },
            _ => App::same(a, b),
        }
    }

    /// Move through collections or requests, enter a collection, load a request, or go
    /// back to the list of collections.
    pub fn handle_collections_key(&mut self, key: Key)
        requires
            old(self).wf(),
        ensures
            final(self).wf(),
            App::collections_key_step(*old(self), *final(self), key),
    {
        let len = self.collections.len();
        match self.collections_state.pane {
            Pane::Collections => match key.code {
                KeyCode::Up | KeyCode::Char('k') => self.collections_state.move_up(len),
                KeyCode::Down | KeyCode::Char('j') => self.collections_state.move_down(len),
                KeyCode::Enter => self.enter_selected_collection(),
                _ => {},
            },
            Pane::Requests => match key.code {
                KeyCode::Up | KeyCode::Char('k') => self.collections_state.move_up(len),
                KeyCode::Down | KeyCode::Char('j') => self.collections_state.move_down(len),
                KeyCode::Enter => self.load_selected_request(),
                KeyCode::Esc | KeyCode::Backspace | KeyCode::Char('h') => {
                    self.collections_state.back();
                },
                _ => {},
            },
        }
    }

    /// The variables visible to a request sent from `collection` with environment
    /// index `env` and the given overrides.
    pub open spec fn vars_in(
        collection: Collection,
        env: Option<usize>,
        overrides: Map<Seq<char>, Seq<char>>,
    ) -> Map<Seq<char>, Seq<char>> {
        match environment_at(collection, env) {
            Some(e) => vars_for(&collection, Some(&e), overrides),
            None => vars_for(&collection, None, overrides),
        }
    }

    /// The secret variable names of `collection` with environment index `env`.
    pub open spec fn secrets_in(collection: Collection, env: Option<usize>) -> Set<Seq<char>> {
        match environment_at(collection, env) {
            Some(e) => secrets_for(&collection, Some(&e)),
            None => secrets_for(&collection, None),
        }
    }

    /// What preparing `request` in the active collection yields: the prepared request
    /// and the variables that stayed unresolved.
    pub open spec fn prepared_in(
        collection: Collection,
        env: Option<usize>,
        overrides: Map<Seq<char>, Seq<char>>,
        request: crate::model::RequestView,
    ) -> (PreparedView, Seq<MissingView>) {
        let vars = App::vars_in(collection, env, overrides);
        (
            prepared_of(vars, request, entry_views(collection.headers@), collection.auth@),
            add_all_missing(
                App::secrets_in(collection, env),
                seq![],
                prepare_refs(vars, request, entry_views(collection.headers@), collection.auth@),
            ),
        )
    }

    /// The effect of asking to send the loaded request: refuse without a request or an
    /// entered collection; ask for missing variables when any stayed unresolved;
    /// otherwise start sending the prepared request.
    pub open spec fn send_step(a: App, b: App) -> bool {
        match a.request_state.effective() {
            None => App::only_message(a, b) && b.message@ == "No request loaded"@,
            Some(req) => match a.active_collection_spec() {
                None => App::only_message(a, b) && b.message@ == "Enter a collection first"@,
                Some(c) => {
                    let (prepared, missing) = App::prepared_in(
                        c,
                        a.active_environment,
                        a.overrides@,
                        req,
                    );
                    if missing.len() > 0 {
                        &&& App::only_message(a, App { overlay: a.overlay, ..b })
                        &&& b.overlay matches Overlay::Prompt(st) && missing_views(st.queue@)
                            == missing && st.index == 0 && st.input@ == Seq::<char>::empty()
                        &&& b.message@ == "Missing variables — enter values"@
                    } else {
                        &&& App::only_message(
                            a,
                            App {
                                response: a.response,
                                error: a.error,
                                response_state: a.response_state,
                                sending: a.sending,
                                effect: a.effect,
                                ..b
                            },
                        )
                        &&& b.response is None
                        &&& b.error is None
                        &&& b.response_state == response::State {
                            scroll: 0,
                            ..a.response_state
                        }
                        &&& b.sending
                        &&& b.effect matches Some(Effect::Send(p)) && p@ == prepared
                        &&& b.message@ == "Sending…"@
                    }
                },
            },
        }
    }

    /// Prepare the loaded request in the active collection and environment.
    fn prepare_active(&self, request: &Request, index: usize) -> (r: crate::request::Prepared)
        requires
            index < self.collections@.len(),
        ensures
            ({
                let (p, m) = App::prepared_in(
                    self.collections@[index as int],
                    self.active_environment,
                    self.overrides@,
                    request@,
                );
                r.request@ == p && missing_views(r.missing@) == m
            }),
    {
        let collection = &self.collections[index];
        match self.active_environment {
            Some(j) => if j < collection.environments.len() {
                prepare(request, collection, Some(&collection.environments[j]), &self.overrides)
            } else {
                prepare(request, collection, None, &self.overrides)
            },
            None => prepare(request, collection, None, &self.overrides),
        }
    }

    /// Start sending: clear the last response and ask for the request to be sent.
    fn start_send(&mut self, request: PreparedRequest)
        ensures
            App::only_message(
                *old(self),
                (App {
                    response: old(self).response,
                    error: old(self).error,
                    response_state: old(self).response_state,
                    sending: old(self).sending,
                    effect: old(self).effect,
                    ..*final(self)
                }),
            ),
            final(self).response is None,
            final(self).error is None,
            final(self).response_state == (response::State {
                scroll: 0,
                ..old(self).response_state
            }),
            final(self).sending,
            (final(self).effect matches Some(Effect::Send(p)) && p == request),
            final(self).message@ == "Sending…"@,
    {
        self.response = None;
        self.error = None;
        self.response_state.reset();
        self.sending = true;
        self.effect = Some(Effect::Send(request));
        self.message = "Sending…".to_string();
    }

    /// Send the loaded request, or ask for the variables it still misses.
    pub fn trigger_send(&mut self)
        requires
            old(self).wf(),
        ensures
            final(self).wf(),
            App::send_step(*old(self), *final(self)),
    {
        let request = match self.request_state.effective_request() {
            Some(request) => request,
            None => {
                self.message = "No request loaded".to_string();
                return ;
            },
        };
        let index = match self.active_collection {
            Some(index) => index,
            None => {
                self.message = "Enter a collection first".to_string();
                return ;
            },
        };
        let prepared = self.prepare_active(&request, index);
        if prepared.missing.len() > 0 {
            self.message = "Missing variables — enter values".to_string();
            self.overlay = Overlay::Prompt(prompt::State::new(prepared.missing));
            return ;
        }
        self.start_send(prepared.request);
    }

    /// The effect of asking for the curl command of the loaded request.
    pub open spec fn curl_step(a: App, b: App) -> bool {
        match a.request_state.effective() {
            None => App::only_message(a, b) && b.message@ == "No request loaded"@,
            Some(req) => match a.active_collection_spec() {
                None => App::only_message(a, b) && b.message@ == "Enter a collection first"@,
                Some(c) => {
                    let (prepared, missing) = App::prepared_in(
                        c,
                        a.active_environment,
                        a.overrides@,
                        req,
                    );
                    &&& App::only_message(a, App { overlay: a.overlay, ..b })
                    &&& b.overlay matches Overlay::Curl(command) && command@ == curl_command(
                        prepared,
                    )
                    &&& b.message@ == if missing.len() == 0 {
                        "curl generated · y: copy · esc: close"@
                    } else {
                        "curl generated ("@ + decimal(missing.len()) + " unresolved var(s) left as placeholders)"@
                    }
                },
            },
        }
    }

    /// Show the curl command of the loaded request; unresolved variables stay as
    /// placeholders and the message says how many.
    pub fn generate_curl(&mut self)
        requires
            old(self).wf(),
        ensures
            final(self).wf(),
            App::curl_step(*old(self), *final(self)),
    {
        let request = match self.request_state.effective_request() {
            Some(request) => request,
            None => {
                self.message = "No request loaded".to_string();
                return ;
            },
        };
        let index = match self.active_collection {
            Some(index) => index,
            None => {
                self.message = "Enter a collection first".to_string();
                return ;
            },
        };
        let prepared = self.prepare_active(&request, index);
        let command = to_curl(&prepared.request);
        let count = prepared.missing.len();
        self.message = if count == 0 {
            "curl generated · y: copy · esc: close".to_string()
        } else {
            let mut message = String::new();
            push_str(&mut message, "curl generated (");
            push_decimal(&mut message, count as u128);
            push_str(&mut message, " unresolved var(s) left as placeholders)");
            message
        };
        self.overlay = Overlay::Curl(command);
    }

    /// The effect of a key while the curl command is shown.
    pub open spec fn curl_key_step(a: App, b: App, key: Key) -> bool {
        match key.code {
            KeyCode::Char('y') => match a.overlay {
                Overlay::Curl(command) => App::same(a, App { effect: a.effect, ..b }) && (
                b.effect matches Some(Effect::Copy(text)) && text@ == command@),
                _ => App::same(a, b),
            },
            KeyCode::Esc | KeyCode::Char('c') | KeyCode::Char('q') => App::same(
                a,
                App { overlay: a.overlay, ..b },
            ) && b.overlay == Overlay::Closed,
            _ => App::same(a, b),
        }
    }

    /// Copy the shown curl command, or close it.
    pub fn handle_curl_key(&mut self, key: Key)
        ensures
            App::curl_key_step(*old(self), *final(self), key),
    {
        match key.code {
            KeyCode::Char('y') => {
                if let Overlay::Curl(command) = &self.overlay {
                    self.effect = Some(Effect::Copy(command.clone()));
                }
            },
            KeyCode::Esc | KeyCode::Char('c') | KeyCode::Char('q') => {
                self.overlay = Overlay::Closed;
            },
            _ => {},
        }
    }

    /// The effect of a key while the missing-variable prompt is shown.
    pub open spec fn prompt_key_step(a: App, b: App, key: Key) -> bool {
        match a.overlay {
            Overlay::Prompt(st) => match key.code {
                KeyCode::Esc => App::only_message(a, App { overlay: a.overlay, ..b })
                    && b.overlay == Overlay::Closed && b.message@ == "Cancelled"@,
                KeyCode::Enter => {
                    let answered = st.index < st.queue@.len();
                    let done = st.index + 1 >= st.queue@.len();
                    &&& b.overrides@ == if answered {
                        a.overrides@.insert(st.queue@[st.index as int].name@, st.input@)
                    } else {
                        a.overrides@
                    }
                    &&& if done {
                        App::send_step(
                            App { overrides: b.overrides, overlay: Overlay::Closed, ..a },
                            b,
                        )
                    } else {
                        &&& App::same(a, App { overlay: a.overlay, overrides: a.overrides, ..b })
                        &&& b.overlay matches Overlay::Prompt(next) && next.queue == st.queue
                            && next.index == st.index + 1 && next.input@ == Seq::<char>::empty()
                    }
                },
                KeyCode::Backspace => App::same(a, App { overlay: a.overlay, ..b }) && (
                b.overlay matches Overlay::Prompt(next) && next.queue == st.queue && next.index
                    == st.index && next.input@ == if st.input@.len() > 0 {
                    st.input@.drop_last()
                } else {
                    st.input@
                }),
                KeyCode::Char(ch) => App::same(a, App { overlay: a.overlay, ..b }) && (
                b.overlay matches Overlay::Prompt(next) && next.queue == st.queue && next.index
                    == st.index && next.input@ == st.input@.push(ch)),
                _ => App::same(a, b),
            },
            _ => App::same(a, b),
        }
    }

    /// Type the value of the asked-for variable; enter stores it as an override and
    /// moves on, sending once every variable was answered; escape cancels.
    pub fn handle_prompt_key(&mut self, key: Key) -> (r: Flow)
        requires
            old(self).wf(),
        ensures
            final(self).wf(),
            r == Flow::Continue,
            App::prompt_key_step(*old(self), *final(self), key),
    {
        let ghost a = *self;
        let mut overlay = Overlay::Closed;
        std::mem::swap(&mut overlay, &mut self.overlay);
        let mut state = match overlay {
            Overlay::Prompt(state) => state,
            other => {
                self.overlay = other;
                return Flow::Continue;
            },
        };
        match key.code {
            KeyCode::Esc => {
                self.message = "Cancelled".to_string();
            },
            KeyCode::Enter => {
                let entry = state.take_current();
                let done = state.is_done();
                match entry {
                    Some((name, value)) => self.overrides.insert(name, value),
                    None => {},
                }
                if done {
                    assert(App::same(App { overrides: self.overrides, overlay: Overlay::Closed, ..a }, *self));
                    self.trigger_send();
                } else {
                    self.overlay = Overlay::Prompt(state);
                }
            },
            KeyCode::Backspace => {
                state.backspace();
                self.overlay = Overlay::Prompt(state);
            },
            KeyCode::Char(ch) => {
                state.push(ch);
                self.overlay = Overlay::Prompt(state);
            },
            _ => {
                self.overlay = Overlay::Prompt(state);
            },
        }
        Flow::Continue
    }

    /// The effect of a key press, the pending effect cleared first.
    pub open spec fn key_step(a: App, b: App, key: Key, flow: Flow) -> bool {
        let a = App { effect: None, ..a };
        match a.overlay {
            Overlay::Help => flow == Flow::Continue && if key.code == KeyCode::Esc || key.code
                == KeyCode::Char('?') || key.code == KeyCode::Char('q') {
                App::same(a, App { overlay: a.overlay, ..b }) && b.overlay == Overlay::Closed
            } else {
                App::same(a, b)
            },
            Overlay::Prompt(_) => flow == Flow::Continue && App::prompt_key_step(a, b, key),
            Overlay::Curl(_) => flow == Flow::Continue && App::curl_key_step(a, b, key),
            Overlay::Closed => if a.focus == Focus::Request && a.request_state.editing {
                flow == Flow::Continue && App::edit_key_step(a, b, key)
            } else if key.code == KeyCode::Char('c') && key.ctrl {
                flow == Flow::Quit && App::same(a, b)
            } else {
                match key.code {
                    KeyCode::Char('q') => flow == Flow::Quit && App::same(a, b),
                    KeyCode::Char('?') => flow == Flow::Continue && App::same(
                        a,
                        App { overlay: a.overlay, ..b },
                    ) && b.overlay == Overlay::Help,
                    KeyCode::Tab => flow == Flow::Continue && App::same(
                        a,
                        App { focus: a.focus, ..b },
                    ) && b.focus == a.focus.after(),
                    KeyCode::BackTab => flow == Flow::Continue && App::same(
                        a,
                        App { focus: a.focus, ..b },
                    ) && b.focus == a.focus.before(),
                    KeyCode::Char('s') => flow == Flow::Continue && App::send_step(a, b),
                    KeyCode::Char('c') => flow == Flow::Continue && App::curl_step(a, b),
                    _ => flow == Flow::Continue && match a.focus {
                        Focus::Environments => App::environments_key_step(a, b, key),
                        Focus::Collections => App::collections_key_step(a, b, key),
                        Focus::Request => App::request_key_step(a, b, key),
                        Focus::Response => App::response_key_step(a, b, key),
                    },
                }
            },
        }
    }

    /// Handle one key press: modal overlays first, then typing into the field being
    /// edited, then the global keys, then the focused pane's keys.
    pub fn handle_key(&mut self, key: Key) -> (r: Flow)
        requires
            old(self).wf(),
        ensures
            final(self).wf(),
            App::key_step(*old(self), *final(self), key, r),
    {
        self.effect = None;
        match self.overlay {
            Overlay::Help => {
                match key.code {
                    KeyCode::Esc | KeyCode::Char('?') | KeyCode::Char('q') => {
                        self.overlay = Overlay::Closed;
                    },
                    _ => {},
                }
                return Flow::Continue;
            },
            Overlay::Prompt(_) => return self.handle_prompt_key(key),
            Overlay::Curl(_) => {
                self.handle_curl_key(key);
                return Flow::Continue;
            },
            Overlay::Closed => {},
        }
        if self.focus == Focus::Request && self.request_state.editing {
            self.handle_request_edit_key(key);
            return Flow::Continue;
        }
        if key.ctrl {
            if let KeyCode::Char('c') = key.code {
                return Flow::Quit;
            }
        }
        match key.code {
            KeyCode::Char('q') => return Flow::Quit,
            KeyCode::Char('?') => {
                self.overlay = Overlay::Help;
                return Flow::Continue;
            },
            KeyCode::Tab => {
                self.focus = self.focus.next();
                return Flow::Continue;
            },
            KeyCode::BackTab => {
                self.focus = self.focus.prev();
                return Flow::Continue;
            },
            KeyCode::Char('s') => {
                self.trigger_send();
                return Flow::Continue;
            },
            KeyCode::Char('c') => {
                self.generate_curl();
                return Flow::Continue;
            },
            _ => {},
        }
        match self.focus {
            Focus::Environments => self.handle_environments_key(key),
            Focus::Collections => self.handle_collections_key(key),
            Focus::Request => self.handle_request_key(key),
            Focus::Response => self.handle_response_key(key),
        }
        Flow::Continue
    }

    /// Take the outside work the last key press asked for, leaving none pending.
    pub fn take_effect(&mut self) -> (r: Option<Effect>)
        ensures
            r == old(self).effect,
            final(self).effect is None,
            App::same(*old(self), App { effect: old(self).effect, ..*final(self) }),
    {
        let mut effect = None;
        std::mem::swap(&mut effect, &mut self.effect);
        effect
    }
}

/// Answering the last missing variable sends the request: when the prompt was opened
/// for the variables that preparing under overrides `asked_under` left missing, and
/// every earlier variable got a non-empty answer (`answers`, now among the
/// overrides), a non-empty last answer closes the prompt and asks for the send.
pub proof fn lemma_last_answer_sends(
    a: App,
    b: App,
    asked_under: Map<Seq<char>, Seq<char>>,
    answers: Map<Seq<char>, Seq<char>>,
)
    requires
        a.overlay matches Overlay::Prompt(st) && st.index + 1 == st.queue@.len()
            && st.input@.len() > 0 && forall|k: int|
            0 <= k < st.index ==> answers.contains_key(#[trigger] st.queue@[k].name@),
        a.request_state.effective() matches Some(req) && a.active_collection_spec() matches Some(
            c,
        ) && a.overlay matches Overlay::Prompt(st) && missing_views(st.queue@) == App::prepared_in(
            c,
            a.active_environment,
            asked_under,
            req,
        ).1,
        a.overrides@ == asked_under.union_prefer_right(answers),
        crate::answers::nonempty_values(answers),
        App::prompt_key_step(a, b, Key { code: KeyCode::Enter, ctrl: false }),
    ensures
        b.overlay == Overlay::Closed,
        b.effect matches Some(Effect::Send(_)),
{
    let st = a.overlay->Prompt_0;
    let req = a.request_state.effective()->0;
    let c = a.active_collection_spec()->0;
    let name = st.queue@[st.index as int].name@;
    let all = answers.insert(name, st.input@);
    assert(crate::answers::nonempty_values(all));
    assert(b.overrides@ =~= asked_under.union_prefer_right(all));
    let mid = App { overrides: b.overrides, overlay: Overlay::Closed, ..a };
    assert(App::send_step(mid, b));
    let ev = match environment_at(c, a.active_environment) {
        Some(e) => Some(entry_views(e.vars@)),
        None => None,
    };
    let secrets = App::secrets_in(c, a.active_environment);
    let ms = App::prepared_in(c, a.active_environment, asked_under, req).1;
    assert forall|i: int| 0 <= i < ms.len() implies all.contains_key(#[trigger] ms[i].name) by {
        assert(ms[i] == missing_views(st.queue@)[i]);
        assert(missing_views(st.queue@)[i].name == st.queue@[i].name@);
        if i < st.index {
            assert(answers.contains_key(st.queue@[i].name@));
        }
    }
    crate::answers::lemma_prompt_answers_resolve(
        entry_views(c.vars@),
        c.process_env@,
        ev,
        asked_under,
        all,
        secrets,
        req,
        entry_views(c.headers@),
        c.auth@,
    );
    assert(App::prepared_in(c, a.active_environment, b.overrides@, req).1.len() == 0);
}

} // verus!
