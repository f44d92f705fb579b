use requests_tui::app::{App, Effect, Flow, Focus, Key, KeyCode, Overlay};
use requests_tui::collections::Pane;
use requests_tui::editor::Field;
use requests_tui::http::Response;
use requests_tui::model::{Auth, Collection, Node};
use requests_tui::parser::{parse_environment, parse_request};
use requests_tui::varmap::VarMap;

const LIST: &str = "meta {\n  name: List Items\n  type: http\n  seq: 1\n}\n\nget {\n  url: {{url}}/items\n  body: none\n  auth: none\n}\n\nheaders {\n  Authorization: Bearer {{token}}\n}\n";

const ENV: &str = "vars {\n  url: https://api.example.com\n}\nvars:secret [\n  token\n]\n";

fn key(code: KeyCode) -> Key {
    Key { code, ctrl: false }
}

fn ch(c: char) -> Key {
    key(KeyCode::Char(c))
}

fn app() -> App {
    let request = parse_request(LIST, "List Items.bru").unwrap();
    let collection = Collection {
        name: "Example".into(),
        path: "/repo/example".into(),
        auth: Auth::NoAuth,
        headers: vec![],
        vars: vec![],
        nodes: vec![Node::Request(request)],
        environments: vec![parse_environment(ENV, "Stage")],
        process_env: VarMap::new(),
    };
    App::new("/repo".to_string(), vec![collection])
}

#[test]
fn new_app_reports_collection_count() {
    let app = app();
    assert_eq!(app.message, "1 collection(s) found · tab: switch pane · ?: help");
    assert_eq!(app.focus, Focus::Collections);
    assert!(matches!(app.overlay, Overlay::Closed));
    let none = App::new(".".to_string(), vec![]);
    assert_eq!(none.message, "0 collection(s) found · tab: switch pane · ?: help");
}

#[test]
fn focus_cycles_through_the_panes() {
    assert_eq!(Focus::Environments.next(), Focus::Collections);
    assert_eq!(Focus::Response.next(), Focus::Environments);
    assert_eq!(Focus::Environments.prev(), Focus::Response);
    let mut app = app();
    for _ in 0..4 {
        assert_eq!(app.handle_key(key(KeyCode::Tab)), Flow::Continue);
    }
    assert_eq!(app.focus, Focus::Collections);
    app.handle_key(key(KeyCode::BackTab));
    assert_eq!(app.focus, Focus::Environments);
}

#[test]
fn quit_and_help_keys() {
    let mut app = app();
    assert_eq!(app.handle_key(ch('?')), Flow::Continue);
    assert!(matches!(app.overlay, Overlay::Help));
    // While help is shown, `q` closes it instead of quitting.
    assert_eq!(app.handle_key(ch('q')), Flow::Continue);
    assert!(matches!(app.overlay, Overlay::Closed));
    assert_eq!(app.handle_key(ch('q')), Flow::Quit);
    assert_eq!(app.handle_key(Key { code: KeyCode::Char('c'), ctrl: true }), Flow::Quit);
}

#[test]
fn send_without_request_is_refused() {
    let mut app = app();
    app.handle_key(ch('s'));
    assert_eq!(app.message, "No request loaded");
    assert!(app.take_effect().is_none());
}

#[test]
fn enter_load_prompt_and_send() {
    let mut app = app();
    // Enter the collection: its environment becomes active.
    app.handle_key(key(KeyCode::Enter));
    assert_eq!(app.message, "Collection: Example");
    assert_eq!(app.active_collection, Some(0));
    assert_eq!(app.active_environment, Some(0));
    assert_eq!(app.collections_state.pane, Pane::Requests);
    assert_eq!(app.active_environment().map(|e| e.name.as_str()), Some("Stage"));

    // Load the request.
    app.handle_key(key(KeyCode::Enter));
    assert_eq!(app.message, "Loaded List Items");
    assert_eq!(app.focus, Focus::Request);
    assert_eq!(app.request_state.field, Field::Url);

    // The secret token is missing: a prompt asks for it.
    app.handle_key(ch('s'));
    assert_eq!(app.message, "Missing variables — enter values");
    match &app.overlay {
        Overlay::Prompt(state) => {
            assert_eq!(state.queue.len(), 1);
            assert_eq!(state.queue[0].name, "token");
            assert!(state.queue[0].secret);
        }
        _ => panic!("expected the prompt"),
    }
    app.handle_key(ch('t'));
    app.handle_key(ch('k'));
    app.handle_key(key(KeyCode::Backspace));
    app.handle_key(ch('1'));
    app.handle_key(key(KeyCode::Enter));
    assert!(matches!(app.overlay, Overlay::Closed));
    assert_eq!(app.overrides.get("token").map(String::as_str), Some("t1"));
    assert_eq!(app.message, "Sending…");
    assert!(app.sending);
    match app.take_effect() {
        Some(Effect::Send(request)) => {
            assert_eq!(request.url, "https://api.example.com/items");
            assert!(request
                .headers
                .iter()
                .any(|(k, v)| k == "Authorization" && v == "Bearer t1"));
        }
        _ => panic!("expected a send"),
    }
    assert!(app.take_effect().is_none());

    app.finish_send(Ok(Response::from_raw(
        200,
        "OK".to_string(),
        12,
        vec![],
        "plain",
        None,
    )));
    assert!(!app.sending);
    assert_eq!(app.message, "200 · 12 ms");
    assert_eq!(app.focus, Focus::Response);
    assert_eq!(app.response.as_ref().map(|r| r.size), Some(5));

    app.finish_send(Err("connection refused".to_string()));
    assert_eq!(app.message, "Request failed: connection refused");
    assert_eq!(app.error.as_deref(), Some("connection refused"));
}

#[test]
fn curl_overlay_counts_unresolved_and_copies() {
    let mut app = app();
    app.handle_key(key(KeyCode::Enter));
    app.handle_key(key(KeyCode::Enter));
    app.handle_key(ch('c'));
    assert_eq!(app.message, "curl generated (1 unresolved var(s) left as placeholders)");
    let command = match &app.overlay {
        Overlay::Curl(command) => command.clone(),
        _ => panic!("expected the curl overlay"),
    };
    assert!(command.starts_with("curl --request GET 'https://api.example.com/items'"));
    assert!(command.contains("Bearer {{token}}"));
    app.handle_key(ch('y'));
    match app.take_effect() {
        Some(Effect::Copy(text)) => assert_eq!(text, command),
        _ => panic!("expected a copy"),
    }
    app.finish_copy(false);
    assert_eq!(app.message, "No clipboard tool found (pbcopy/wl-copy/xclip/clip)");
    app.finish_copy(true);
    assert_eq!(app.message, "Copied curl to clipboard");
    app.handle_key(key(KeyCode::Esc));
    assert!(matches!(app.overlay, Overlay::Closed));
}

#[test]
fn editing_the_url_and_headers() {
    let mut app = app();
    app.handle_key(key(KeyCode::Enter));
    app.handle_key(key(KeyCode::Enter));
    app.handle_key(ch('i'));
    assert!(app.request_state.editing);
    assert_eq!(app.message, "Editing · esc to stop");
    // While editing, `q` is typed rather than quitting.
    assert_eq!(app.handle_key(ch('q')), Flow::Continue);
    app.handle_key(key(KeyCode::Backspace));
    app.handle_key(ch('/'));
    assert_eq!(app.request_state.url, "{{url}}/items/");
    app.handle_key(key(KeyCode::Enter));
    assert!(!app.request_state.editing);
    app.handle_key(key(KeyCode::Down));
    assert_eq!(app.request_state.field, Field::Headers);
    app.handle_key(ch('e'));
    app.handle_key(key(KeyCode::Enter));
    app.handle_key(ch('X'));
    assert_eq!(app.request_state.headers, "Authorization: Bearer {{token}}\nX");
    app.handle_key(key(KeyCode::Esc));
    app.handle_key(key(KeyCode::Down));
    app.handle_key(ch('e'));
    app.handle_key(ch('z'));
    assert!(matches!(app.take_effect(), Some(Effect::EditBody)));
}

#[test]
fn response_pane_keys_scroll_and_toggle() {
    let mut app = app();
    app.focus = Focus::Response;
    app.handle_key(key(KeyCode::PageDown));
    app.handle_key(ch('k'));
    assert_eq!(app.response_state.scroll, 9);
    app.handle_key(ch('h'));
    assert!(app.response_state.show_headers);
}

#[test]
fn prompt_escape_cancels() {
    let mut app = app();
    app.handle_key(key(KeyCode::Enter));
    app.handle_key(key(KeyCode::Enter));
    app.handle_key(ch('s'));
    app.handle_key(key(KeyCode::Esc));
    assert!(matches!(app.overlay, Overlay::Closed));
    assert_eq!(app.message, "Cancelled");
}

#[test]
fn environment_keys_activate_the_highlighted_one() {
    let mut app = app();
    app.handle_key(key(KeyCode::Enter));
    app.focus = Focus::Environments;
    app.handle_key(key(KeyCode::Down));
    assert_eq!(app.environments_state.list, Some(0));
    app.handle_key(key(KeyCode::Enter));
    assert_eq!(app.message, "Environment: Stage");
    assert_eq!(app.active_environment, Some(0));
}
