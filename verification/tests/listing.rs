use requests_tui::discovery::{
    collection_name, folder_name, is_bru_file, is_environments_dir, is_request_file, is_skipped_dir,
    order_nodes, sort_collections, sort_environments,
};
use requests_tui::http::{pretty_print, Response};
use requests_tui::model::{Auth, Collection, Environment, Node};
use requests_tui::parser::parse_request;
use requests_tui::varmap::VarMap;

fn collection(name: &str, path: &str) -> Collection {
    Collection {
        name: name.into(),
        path: path.into(),
        auth: Auth::NoAuth,
        headers: vec![],
        vars: vec![],
        nodes: vec![],
        environments: vec![],
        process_env: VarMap::new(),
    }
}

fn request(name: &str, seq: i64) -> requests_tui::model::Request {
    let text = format!(
        "meta {{\n  name: {name}\n  type: http\n  seq: {seq}\n}}\n\nget {{\n  url: https://example.com\n  body: none\n  auth: none\n}}\n"
    );
    parse_request(&text, "x.bru").unwrap()
}

#[test]
fn collections_are_listed_by_name_ignoring_case() {
    let sorted = sort_collections(vec![
        collection("beta", "/b"),
        collection("Alpha", "/a1"),
        collection("alpha", "/a2"),
        collection("Gamma", "/g"),
    ]);
    let paths: Vec<&str> = sorted.iter().map(|c| c.path.as_str()).collect();
    assert_eq!(paths, vec!["/a1", "/a2", "/b", "/g"]);
}

#[test]
fn environments_are_listed_by_name_ignoring_case() {
    let env = |name: &str| Environment { name: name.into(), vars: vec![], secret_vars: vec![] };
    let sorted = sort_environments(vec![env("prod"), env("Dev"), env("local")]);
    let names: Vec<&str> = sorted.iter().map(|e| e.name.as_str()).collect();
    assert_eq!(names, vec!["Dev", "local", "prod"]);
}

#[test]
fn folders_come_first_then_requests_by_seq_and_name() {
    let folders = vec![
        ("zeta".to_string(), vec![Node::Request(request("Inner", 1))]),
        ("empty".to_string(), vec![]),
        ("Alpha".to_string(), vec![Node::Request(request("Other", 1))]),
    ];
    let requests = vec![request("b", 2), request("C", 1), request("a", 2), request("B", 2)];
    let nodes = order_nodes(folders, requests);
    let names: Vec<String> = nodes
        .iter()
        .map(|n| match n {
            Node::Folder { name, .. } => format!("dir:{name}"),
            Node::Request(r) => r.name.clone(),
        })
        .collect();
    assert_eq!(names, vec!["dir:Alpha", "dir:zeta", "C", "a", "b", "B"]);
    assert_eq!(folder_name(&nodes[0]), "alpha");
    assert_eq!(folder_name(&nodes[5]), "b");
}

#[test]
fn collection_name_falls_back_to_directory() {
    assert_eq!(collection_name(Some("My API".to_string()), "/repo/api"), "My API");
    assert_eq!(collection_name(Some(String::new()), "/repo/api"), "api");
    assert_eq!(collection_name(None, "/repo/api"), "api");
    assert_eq!(collection_name(None, "/"), "collection");
}

#[test]
fn file_and_directory_rules() {
    assert!(is_skipped_dir("node_modules"));
    assert!(is_skipped_dir(".git"));
    assert!(!is_skipped_dir("src"));
    assert!(is_environments_dir("environments"));
    assert!(is_bru_file("/c/environments/Stage.bru"));
    assert!(!is_bru_file("/c/README.md"));
    assert!(!is_bru_file("/c/.bru"));
    assert!(is_request_file("/c/Get Item.bru"));
    assert!(!is_request_file("/c/collection.bru"));
    assert!(!is_request_file("/c/sub/folder.bru"));
    assert!(!is_request_file("/c/notes.txt"));
}

#[test]
fn json_bodies_are_pretty_printed() {
    assert_eq!(pretty_print("{\"a\":1}", Some("application/json")), "{\n  \"a\": 1\n}");
    assert_eq!(pretty_print("{\"a\":1}", Some("text/plain")), "{\"a\":1}");
    assert_eq!(pretty_print("{\"a\":1}", None), "{\"a\":1}");
    assert_eq!(pretty_print("not json", Some("application/json")), "not json");
}

#[test]
fn response_size_counts_bytes() {
    let response = Response::from_raw(
        404,
        "Not Found".to_string(),
        3,
        vec![("a".to_string(), "b".to_string())],
        "é{\"x\":2}",
        Some("application/problem+json".to_string()),
    );
    assert_eq!(response.size, 9);
    assert_eq!(response.body, "é{\"x\":2}");
    let response = Response::from_raw(200, String::new(), 0, vec![], "[1,2]", Some("json".to_string()));
    assert_eq!(response.body, "[\n  1,\n  2\n]");
}
