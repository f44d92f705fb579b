use requests_tui::editor::{headers_to_text, text_lines, text_to_headers, Field, State};
use requests_tui::model::{BodyMode, Entry};
use requests_tui::parser::parse_request;
use requests_tui::prompt;
use requests_tui::response;
use requests_tui::interpolate::MissingVar;

const CREATE: &str = "meta {\n  name: Create\n  type: http\n  seq: 3\n}\n\npost {\n  url: https://example.com/items\n  body: json\n  auth: none\n}\n\nheaders {\n  Accept: */*\n  ~X-Debug: on\n}\n\nbody:json {\n  {\n    \"a\": 1\n  }\n}\n";

#[test]
fn field_labels_and_moves() {
    assert_eq!(Field::Url.label(), "URL");
    assert_eq!(Field::Headers.label(), "Headers");
    assert_eq!(Field::Body.label(), "Body");
    let mut state = State::default();
    assert_eq!(state.field, Field::Url);
    state.next_field();
    assert_eq!(state.field, Field::Headers);
    state.next_field();
    state.next_field();
    assert_eq!(state.field, Field::Url);
    state.previous_field();
    assert_eq!(state.field, Field::Body);
}

#[test]
fn headers_text_marks_disabled_with_tilde() {
    let headers = vec![
        Entry::new("Accept".to_string(), "*/*".to_string(), true),
        Entry::new("X-Debug".to_string(), "on".to_string(), false),
    ];
    assert_eq!(headers_to_text(&headers), "Accept: */*\n~X-Debug: on");
    assert_eq!(headers_to_text(&[]), "");
}

#[test]
fn header_text_reads_back_the_same_headers() {
    let headers = vec![
        Entry::new("Accept".to_string(), "*/*".to_string(), true),
        Entry::new("X-Debug".to_string(), "on".to_string(), false),
        Entry::new("X-Empty".to_string(), "".to_string(), true),
        Entry::new("".to_string(), "value: with colon".to_string(), true),
    ];
    let back = text_to_headers(&headers_to_text(&headers));
    assert_eq!(back, headers);
}

#[test]
fn edited_header_text_is_trimmed_and_filtered() {
    let headers = text_to_headers("  Accept :  json  \n\n no colon here\n~  X-Off: 1\r\nA: b: c\n");
    assert_eq!(
        headers,
        vec![
            Entry::new("Accept".to_string(), "json".to_string(), true),
            Entry::new("X-Off".to_string(), "1".to_string(), false),
            Entry::new("A".to_string(), "b: c".to_string(), true),
        ]
    );
}

#[test]
fn loading_fills_the_buffers_and_effective_request_applies_edits() {
    let request = parse_request(CREATE, "Create.bru").unwrap();
    let mut state = State::default();
    assert!(!state.has_request());
    assert!(state.effective_request().is_none());
    assert_eq!(state.body_mode_label(), "none");

    state.load(request);
    assert!(state.has_request());
    assert_eq!(state.url, "https://example.com/items");
    assert_eq!(state.headers, "Accept: */*\n~X-Debug: on");
    assert_eq!(state.body, vec!["{".to_string(), "  \"a\": 1".to_string(), "}".to_string()]);
    assert_eq!(state.body_mode_label(), "json");

    // Unedited: the same request comes back.
    let same = state.effective_request().unwrap();
    assert_eq!(same.url, "https://example.com/items");
    assert_eq!(same.headers.len(), 2);
    assert!(!same.headers[1].enabled);
    assert_eq!(same.body, "{\n  \"a\": 1\n}");
    assert_eq!(same.body_mode, BodyMode::Json);

    state.url.push_str("?x=1");
    state.headers = "Accept: text/plain".to_string();
    state.body = vec!["hello".to_string()];
    let edited = state.effective_request().unwrap();
    assert_eq!(edited.url, "https://example.com/items?x=1");
    assert_eq!(edited.headers, vec![Entry::new("Accept".to_string(), "text/plain".to_string(), true)]);
    assert_eq!(edited.body, "hello");
    assert_eq!(edited.name, "Create");
}

#[test]
fn text_lines_follows_str_lines() {
    assert_eq!(text_lines("a\r\nb\n\nc\n"), vec!["a", "b", "", "c"]);
    assert_eq!(text_lines(""), Vec::<String>::new());
    assert_eq!(text_lines("x\r"), vec!["x\r"]);
}

#[test]
fn prompt_takes_answers_in_order() {
    let queue = vec![
        MissingVar { name: "token".to_string(), secret: true },
        MissingVar { name: "host".to_string(), secret: false },
    ];
    let mut state = prompt::State::new(queue);
    assert_eq!(state.current().map(|m| m.name.as_str()), Some("token"));
    state.push('a');
    state.push('b');
    state.backspace();
    state.push('c');
    assert_eq!(state.take_current(), Some(("token".to_string(), "ac".to_string())));
    assert!(!state.is_done());
    assert_eq!(state.input, "");
    state.backspace();
    assert_eq!(state.take_current(), Some(("host".to_string(), "".to_string())));
    assert!(state.is_done());
    assert!(state.current().is_none());
    assert_eq!(state.take_current(), None);
    assert_eq!(state.index, 2);
}

#[test]
fn response_scroll_stops_at_both_ends() {
    let mut state = response::State::default();
    state.scroll_up(3);
    assert_eq!(state.scroll, 0);
    state.scroll_down(10);
    state.scroll_up(3);
    assert_eq!(state.scroll, 7);
    state.scroll_down(u16::MAX);
    assert_eq!(state.scroll, u16::MAX);
    state.toggle_headers();
    assert!(state.show_headers);
    state.reset();
    assert_eq!(state.scroll, 0);
    assert!(state.show_headers);
}
