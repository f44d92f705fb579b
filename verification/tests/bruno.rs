use requests_tui::dotenv::parse;
use requests_tui::interpolate::VarContext;
use requests_tui::model::{Auth, BodyMode, Collection, Method, RequestType};
use requests_tui::parser::{parse_environment, parse_request};
use requests_tui::request::prepare;
use requests_tui::varmap::VarMap;

const GET_ITEM: &str = "meta {\n  name: Get Item\n  type: http\n  seq: 4\n}\n\nget {\n  url: {{url}}/api/v1/items/:item_id\n  body: none\n  auth: inherit\n}\n\nparams:path {\n  item_id: 42\n}\n\nheaders {\n  Content-Type: application/json\n  X-Custom: 1\n}\n";

const CREATE_ITEM: &str = "meta {\n  name: Create Item\n  type: http\n  seq: 14\n}\n\npost {\n  url: {{url}}/api/v1/items\n  body: json\n  auth: inherit\n}\n\nheaders {\n  Content-Type: application/json\n}\n\nbody:json {\n  {\n    \"name\": \"Example\",\n    \"nested\": { \"a\": 1 }\n  }\n}\n";

const GET_NODE_GQL: &str = "meta {\n  name: Get Node\n  type: graphql\n  seq: 5\n}\n\npost {\n  url: {{url}}graphql/\n  body: graphql\n  auth: inherit\n}\n\nbody:graphql {\n  query {\n    node(id: \"1\") {\n      id\n      state\n    }\n  }\n}\n";

const ENV_STAGE: &str = "vars {\n  url: https://api.example.com/\n}\nvars:secret [\n  access-token\n]\n";

const OWN_BEARER: &str = "meta {\n  name: Own Bearer\n  type: http\n  seq: 1\n}\n\nget {\n  url: https://example.com/x\n  body: none\n  auth: bearer\n}\n\nauth:bearer {\n  token: abc123\n}\n";

const JSON_NO_CT: &str = "meta {\n  name: Json No CT\n  type: http\n  seq: 1\n}\n\npost {\n  url: https://example.com/x\n  body: json\n  auth: none\n}\n\nbody:json {\n  {\"a\": 1}\n}\n";

fn empty_collection(name: &str) -> Collection {
    Collection {
        name: name.into(),
        path: ".".into(),
        auth: Auth::NoAuth,
        headers: vec![],
        vars: vec![],
        nodes: vec![],
        environments: vec![],
        process_env: VarMap::new(),
    }
}

#[test]
fn parses_basic_pairs_skipping_comments_and_blanks() {
    let env = parse("# comment\n\nAPI_KEY=abc123\nexport TOKEN = xyz\n");
    assert_eq!(env.get("API_KEY").map(String::as_str), Some("abc123"));
    assert_eq!(env.get("TOKEN").map(String::as_str), Some("xyz"));
}

#[test]
fn handles_quotes_escapes_and_inline_comments() {
    let env = parse(
        "DQ=\"line1\\nline2\"\nSQ='raw\\nvalue'\nBARE=plain # trailing\nHASH=ab#cd\n",
    );
    assert_eq!(env.get("DQ").map(String::as_str), Some("line1\nline2"));
    // Single quotes are literal: no escape expansion.
    assert_eq!(env.get("SQ").map(String::as_str), Some("raw\\nvalue"));
    assert_eq!(env.get("BARE").map(String::as_str), Some("plain"));
    // A `#` without preceding whitespace is part of the value.
    assert_eq!(env.get("HASH").map(String::as_str), Some("ab#cd"));
}

#[test]
fn last_assignment_wins_and_empty_keys_ignored() {
    let env = parse("X=1\nX=2\n=novalue\n");
    assert_eq!(env.get("X").map(String::as_str), Some("2"));
    assert_eq!(env.len(), 1);
}

#[test]
fn parses_get_with_path_params_and_headers() {
    let request = parse_request(GET_ITEM, "Get Item.bru").unwrap();
    assert_eq!(request.name, "Get Item");
    assert_eq!(request.method, Method::Get);
    assert_eq!(request.seq, 4);
    assert_eq!(request.auth, Auth::Inherit);
    assert_eq!(request.url, "{{url}}/api/v1/items/:item_id");
    assert_eq!(request.path_params.len(), 1);
    assert_eq!(request.path_params[0].name, "item_id");
    assert_eq!(request.path_params[0].value, "42");
    assert_eq!(request.headers.len(), 2);
    assert_eq!(request.headers[0].name, "Content-Type");
}

#[test]
fn parses_json_body_with_nested_braces() {
    let request = parse_request(CREATE_ITEM, "Create Item.bru").unwrap();
    assert_eq!(request.method, Method::Post);
    assert_eq!(request.body_mode, BodyMode::Json);
    // The nested object braces must survive intact and round-trip as JSON.
    let value: serde_json::Value = serde_json::from_str(&request.body).unwrap();
    assert_eq!(value["name"], "Example");
    assert_eq!(value["nested"]["a"], 1);
}

#[test]
fn parses_graphql_body() {
    let request = parse_request(GET_NODE_GQL, "Get Node.bru").unwrap();
    assert_eq!(request.req_type, RequestType::Graphql);
    assert_eq!(request.body_mode, BodyMode::Graphql);
    assert!(request.body.contains("node(id: \"1\")"));
}

#[test]
fn parses_environment_with_secret() {
    let environment = parse_environment(ENV_STAGE, "Example Stage");
    assert_eq!(environment.name, "Example Stage");
    let url = environment.vars.iter().find(|entry| entry.name == "url");
    assert_eq!(
        url.map(|entry| entry.value.as_str()),
        Some("https://api.example.com/")
    );
    assert!(environment.is_secret("access-token"));
}

#[test]
fn parses_own_bearer_without_mode_block() {
    // A request that declares `auth: bearer` but has no `auth { mode }` block must
    // still pick up the token from `auth:bearer`.
    let request = parse_request(OWN_BEARER, "Own Bearer.bru").unwrap();
    assert_eq!(request.auth, Auth::Bearer("abc123".to_string()));
}

#[test]
fn prepare_adds_default_content_type_and_authorization() {
    let collection = empty_collection("c");

    // JSON body with no explicit Content-Type gets one.
    let request = parse_request(JSON_NO_CT, "Json No CT.bru").unwrap();
    let prepared = prepare(&request, &collection, None, &VarMap::new());
    assert!(prepared
        .request
        .headers
        .iter()
        .any(|(k, v)| k.eq_ignore_ascii_case("content-type") && v == "application/json"));

    // Own bearer becomes an Authorization header.
    let bearer = parse_request(OWN_BEARER, "Own Bearer.bru").unwrap();
    let prepared = prepare(&bearer, &collection, None, &VarMap::new());
    assert!(prepared
        .request
        .headers
        .iter()
        .any(|(k, v)| k.eq_ignore_ascii_case("authorization") && v == "Bearer abc123"));
}

#[test]
fn detects_missing_secret_var() {
    // url is provided, access-token is an empty secret -> missing when referenced.
    let environment = parse_environment(ENV_STAGE, "Example Stage");
    let collection = empty_collection("test");
    let context = VarContext::build(&collection, Some(&environment), &VarMap::new());
    let mut missing = Vec::new();
    let expanded = context.expand("{{url}}path {{access-token}}", &mut missing);
    assert!(expanded.starts_with("https://api.example.com"));
    assert_eq!(missing.len(), 1);
    assert_eq!(missing[0].name, "access-token");
    assert!(missing[0].secret);
}

#[test]
fn resolves_process_env_reference() {
    let mut process_env = VarMap::new();
    process_env.insert("API_KEY".to_string(), "s3cr3t".to_string());
    let mut collection = empty_collection("test");
    collection.process_env = process_env;
    let context = VarContext::build(&collection, None, &VarMap::new());
    let mut missing = Vec::new();
    let expanded = context.expand("Bearer {{process.env.API_KEY}}", &mut missing);
    assert_eq!(expanded, "Bearer s3cr3t");
    assert!(missing.is_empty());

    // An undefined process.env reference is reported missing and flagged secret.
    let mut missing = Vec::new();
    context.expand("{{process.env.MISSING}}", &mut missing);
    assert_eq!(missing.len(), 1);
    assert_eq!(missing[0].name, "process.env.MISSING");
    assert!(missing[0].secret);
}

#[test]
fn inline_comment_starts_at_any_whitespace_before_hash() {
    let env = parse("A=x\t# c\nB=y #z\nC=u#v\n");
    assert_eq!(env.get("A").map(String::as_str), Some("x"));
    assert_eq!(env.get("B").map(String::as_str), Some("y"));
    assert_eq!(env.get("C").map(String::as_str), Some("u#v"));
    assert_eq!(env.len(), 3);
}

#[test]
fn tab_before_hash_ends_a_bare_value() {
    let env = parse("A=x\t# c\n");
    assert_eq!(env.get("A").map(String::as_str), Some("x"));
    assert_eq!(env.len(), 1);
}
