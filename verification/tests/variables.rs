use requests_tui::blocks::{blocks_parseable, parse_blocks, Block, BlockKind};
use requests_tui::interpolate::VarContext;
use requests_tui::model::{Auth, Collection, Entry, Environment};
use requests_tui::parser::parse_request;
use requests_tui::request::prepare;
use requests_tui::varmap::VarMap;

const NAMELESS: &str = "get {\n  url: https://example.com/{{id}}/{{ id }}\n  body: none\n  auth: none\n}\n";

const GQL: &str = "meta {\n  name: Q\n  type: graphql\n  seq: 1\n}\n\npost {\n  url: https://example.com/graphql\n  body: graphql\n  auth: none\n}\n\nbody:graphql {\n  query { a(x: \"1\") }\n}\n";

const JSON_WITH_CT: &str = "meta {\n  name: J\n  type: http\n  seq: 1\n}\n\npost {\n  url: https://example.com\n  body: json\n  auth: none\n}\n\nheaders {\n  content-type: application/vnd.api+json\n}\n\nbody:json {\n  {}\n}\n";

fn entry(name: &str, value: &str) -> Entry {
    Entry::new(name.to_string(), value.to_string(), true)
}

fn collection() -> Collection {
    Collection {
        name: "c".into(),
        path: ".".into(),
        auth: Auth::NoAuth,
        headers: vec![],
        vars: vec![entry("host", "collection"), entry("only", "collection")],
        nodes: vec![],
        environments: vec![],
        process_env: VarMap::new(),
    }
}

#[test]
fn overrides_beat_environment_beats_collection() {
    let environment = Environment {
        name: "e".into(),
        vars: vec![entry("host", "environment"), entry("env", "environment")],
        secret_vars: vec![],
    };
    let mut overrides = VarMap::new();
    overrides.insert("env".to_string(), "override".to_string());
    let context = VarContext::build(&collection(), Some(&environment), &overrides);
    let mut missing = Vec::new();
    let text = context.expand("{{host}} {{env}} {{only}}", &mut missing);
    assert_eq!(text, "environment override collection");
    assert!(missing.is_empty());

    let context = VarContext::build(&collection(), None, &VarMap::new());
    let text = context.expand("{{host}} {{env}}", &mut missing);
    assert_eq!(text, "collection {{env}}");
    assert_eq!(missing.len(), 1);
}

#[test]
fn disabled_entries_do_not_assign() {
    let mut c = collection();
    c.vars.push(Entry::new("host".to_string(), "disabled".to_string(), false));
    let context = VarContext::build(&c, None, &VarMap::new());
    let mut missing = Vec::new();
    assert_eq!(context.expand("{{host}}", &mut missing), "collection");
}

#[test]
fn plain_text_expands_to_itself() {
    let context = VarContext::build(&collection(), None, &VarMap::new());
    let mut missing = Vec::new();
    assert_eq!(context.expand("no { placeholders } here", &mut missing), "no { placeholders } here");
    assert!(missing.is_empty());
}

#[test]
fn a_variable_missing_twice_is_reported_once() {
    let request = parse_request(NAMELESS, "Fetch One.bru").unwrap();
    // Without a meta name the file stem names the request.
    assert_eq!(request.name, "Fetch One");
    let prepared = prepare(&request, &collection(), None, &VarMap::new());
    assert_eq!(prepared.missing.len(), 1);
    assert_eq!(prepared.missing[0].name, "id");
    assert!(!prepared.missing[0].secret);
    assert_eq!(prepared.request.url, "https://example.com/{{id}}/{{ id }}");

    let mut overrides = VarMap::new();
    overrides.insert("id".to_string(), "7".to_string());
    let prepared = prepare(&request, &collection(), None, &overrides);
    assert!(prepared.missing.is_empty());
    assert_eq!(prepared.request.url, "https://example.com/7/7");
}

#[test]
fn graphql_body_is_wrapped_as_json_query() {
    let request = parse_request(GQL, "Q.bru").unwrap();
    let prepared = prepare(&request, &collection(), None, &VarMap::new());
    assert_eq!(prepared.request.body.as_deref(), Some("{\"query\":\"query { a(x: \\\"1\\\") }\"}"));
    assert!(prepared
        .request
        .headers
        .iter()
        .any(|(k, v)| k == "Content-Type" && v == "application/json"));
}

#[test]
fn an_explicit_content_type_is_kept_and_not_duplicated() {
    let request = parse_request(JSON_WITH_CT, "J.bru").unwrap();
    let prepared = prepare(&request, &collection(), None, &VarMap::new());
    let content_types: Vec<&(String, String)> = prepared
        .request
        .headers
        .iter()
        .filter(|(k, _)| k.eq_ignore_ascii_case("content-type"))
        .collect();
    assert_eq!(content_types.len(), 1);
    assert_eq!(content_types[0].1, "application/vnd.api+json");
}

#[test]
fn graphql_query_text_is_escaped_as_json() {
    let gql = "meta {\n  name: Q\n  type: graphql\n  seq: 1\n}\n\npost {\n  url: https://example.com/graphql\n  body: graphql\n  auth: none\n}\n\nbody:graphql {\n  a\\b\tc\u{1}é\n  d\n}\n";
    let request = parse_request(gql, "Q.bru").unwrap();
    let prepared = prepare(&request, &collection(), None, &VarMap::new());
    assert_eq!(
        prepared.request.body.as_deref(),
        Some("{\"query\":\"a\\\\b\\tc\\u0001é\\nd\"}")
    );
}

#[test]
fn a_written_block_reads_back_whole() {
    let body = "{\n  \"a\": \"}\",\n\n  \"b\": { \"c\": [1] }\n}";
    let written = format!(
        "body:json {{\n{}\n}}\n",
        body.lines().map(|l| format!("  {l}")).collect::<Vec<_>>().join("\n")
    );
    let blocks = parse_blocks(&written);
    assert_eq!(
        blocks,
        vec![Block {
            name: "body:json".to_string(),
            kind: BlockKind::Braces,
            body: body.to_string(),
        }]
    );
    assert!(blocks_parseable(&written));
}
