use requests_tui::curl::{clipboard_step, clipboard_tools, to_curl, ClipboardStep};
use requests_tui::model::Method;
use requests_tui::request::PreparedRequest;

#[test]
fn builds_curl_with_query_headers_and_body() {
    let request = PreparedRequest {
        method: Method::Post,
        url: "https://example.com/api".to_string(),
        query: vec![("q".to_string(), "a b".to_string())],
        headers: vec![("Content-Type".to_string(), "application/json".to_string())],
        body: Some("{\"x\":1}".to_string()),
    };
    let curl = to_curl(&request);
    assert!(curl.contains("curl --request POST 'https://example.com/api?q=a%20b'"));
    assert!(curl.contains("--header 'Content-Type: application/json'"));
    assert!(curl.contains("--data '{\"x\":1}'"));
}

#[test]
fn escapes_single_quotes_in_body() {
    let request = PreparedRequest {
        method: Method::Post,
        url: "https://example.com".to_string(),
        query: vec![],
        headers: vec![],
        body: Some("it's".to_string()),
    };
    let curl = to_curl(&request);
    assert!(curl.contains("--data 'it'\\''s'"));
}

#[test]
fn clipboard_tools_are_tried_in_order_until_one_works() {
    let tools = clipboard_tools();
    let names: Vec<&str> = tools.iter().map(|(p, _)| p.as_str()).collect();
    assert_eq!(names, vec!["pbcopy", "wl-copy", "xclip", "xsel", "clip"]);
    assert_eq!(tools[2].1, vec!["-selection".to_string(), "clipboard".to_string()]);
    match clipboard_step(0, false) {
        ClipboardStep::Try(program, args) => {
            assert_eq!(program, "pbcopy");
            assert!(args.is_empty());
        }
        ClipboardStep::Done(_) => panic!("expected a tool"),
    }
    match clipboard_step(3, false) {
        ClipboardStep::Try(program, args) => {
            assert_eq!(program, "xsel");
            assert_eq!(args, vec!["--clipboard".to_string(), "--input".to_string()]);
        }
        ClipboardStep::Done(_) => panic!("expected a tool"),
    }
    assert!(matches!(clipboard_step(2, true), ClipboardStep::Done(true)));
    assert!(matches!(clipboard_step(5, false), ClipboardStep::Done(false)));
}
