use requests_tui::collections::{count_requests, flatten, location_label, Pane, Row, State};
use requests_tui::model::{Auth, Collection, Method, Node};
use requests_tui::parser::parse_request;
use requests_tui::selection::{clamp_selection, cycled_index, next, previous, select_first_when_present};
use requests_tui::varmap::VarMap;

const LIST: &str = "meta {\n  name: List Items\n  type: http\n  seq: 1\n}\n\nget {\n  url: https://example.com/items\n  body: none\n  auth: none\n}\n";

const PING: &str = "meta {\n  name: Ping\n  type: http\n  seq: 2\n}\n\nhead {\n  url: https://example.com/ping\n  body: none\n  auth: none\n}\n";

fn tree() -> Vec<Node> {
    let list = parse_request(LIST, "items/List Items.bru").unwrap();
    let ping = parse_request(PING, "Ping.bru").unwrap();
    vec![
        Node::Folder { name: "items".to_string(), children: vec![Node::Request(list)] },
        Node::Folder { name: "empty".to_string(), children: vec![] },
        Node::Request(ping),
    ]
}

fn collection_with(nodes: Vec<Node>) -> Collection {
    Collection {
        name: "Example".into(),
        path: "/repo/example".into(),
        auth: Auth::NoAuth,
        headers: vec![],
        vars: vec![],
        nodes,
        environments: vec![],
        process_env: VarMap::new(),
    }
}

#[test]
fn worktree_copies_get_distinct_locations() {
    let root = "/repo";
    let main = location_label("/repo/apis/Example Dashboard", root);
    let feature = location_label("/repo/.worktrees/feature-x/apis/Example Dashboard", root);
    assert_eq!(main, "apis/Example Dashboard");
    assert_eq!(feature, ".worktrees/feature-x/apis/Example Dashboard");
    assert_ne!(main, feature);
}

#[test]
fn falls_back_to_dir_name_when_not_under_root() {
    let label = location_label("/elsewhere/My Collection", "/repo");
    assert_eq!(label, "/elsewhere/My Collection");
}

#[test]
fn root_itself_is_labelled_by_its_name() {
    assert_eq!(location_label("/repo/apis", "/repo/apis"), "apis");
}

#[test]
fn flatten_puts_children_under_their_folder() {
    let nodes = tree();
    let mut rows: Vec<Row> = Vec::new();
    flatten(&nodes, 0, &mut rows);
    let labels: Vec<(usize, &str)> = rows.iter().map(|r| (r.depth, r.label.as_str())).collect();
    assert_eq!(labels, vec![(0, "items"), (1, "List Items"), (0, "empty"), (0, "Ping")]);
    assert!(rows[0].request.is_none() && rows[0].method.is_none());
    assert_eq!(rows[1].method, Some(Method::Get));
    assert_eq!(rows[3].method, Some(Method::Head));
    assert_eq!(rows[3].request.as_ref().map(|r| r.url.as_str()), Some("https://example.com/ping"));
}

#[test]
fn count_requests_counts_inside_folders() {
    assert_eq!(count_requests(&collection_with(tree())), 2);
    assert_eq!(count_requests(&collection_with(vec![])), 0);
}

#[test]
fn entering_a_collection_selects_its_first_row() {
    let collection = collection_with(tree());
    let mut state = State::default();
    assert_eq!(state.pane, Pane::Collections);
    assert_eq!(state.selected_collection(), Some(0));
    state.enter(&collection);
    assert_eq!(state.pane, Pane::Requests);
    assert_eq!(state.rows.len(), 4);
    assert_eq!(state.requests, Some(0));
    // A folder row carries no request.
    assert!(state.selected_request().is_none());
    state.move_down(1);
    assert_eq!(state.selected_request().map(|r| r.name.as_str()), Some("List Items"));
    state.move_up(1);
    state.move_up(1);
    assert_eq!(state.requests, Some(3));
    assert_eq!(state.selected_request().map(|r| r.name.as_str()), Some("Ping"));
    state.back();
    assert_eq!(state.pane, Pane::Collections);
    assert_eq!(state.collections, Some(0));
}

#[test]
fn entering_an_empty_collection_selects_nothing() {
    let mut state = State::default();
    state.enter(&collection_with(vec![]));
    assert_eq!(state.rows.len(), 0);
    assert_eq!(state.requests, None);
}

#[test]
fn selection_wraps_at_both_ends() {
    assert_eq!(cycled_index(Some(2), 3, 1), Some(0));
    assert_eq!(cycled_index(Some(0), 3, 2), Some(2));
    assert_eq!(cycled_index(None, 3, 1), Some(1));
    assert_eq!(cycled_index(Some(1), 0, 1), None);
    assert_eq!(cycled_index(Some(usize::MAX), 10, usize::MAX), Some(0));

    let mut selected = Some(4);
    next(&mut selected, 5);
    assert_eq!(selected, Some(0));
    previous(&mut selected, 5);
    assert_eq!(selected, Some(4));
    previous(&mut selected, 0);
    assert_eq!(selected, None);
}

#[test]
fn clamp_keeps_selection_inside_the_list() {
    let mut selected = Some(7);
    clamp_selection(&mut selected, 3);
    assert_eq!(selected, Some(2));
    let mut selected = None;
    clamp_selection(&mut selected, 3);
    assert_eq!(selected, Some(0));
    clamp_selection(&mut selected, 0);
    assert_eq!(selected, None);
    let mut selected = Some(1);
    clamp_selection(&mut selected, 3);
    assert_eq!(selected, Some(1));
    select_first_when_present(&mut selected, 0);
    assert_eq!(selected, None);
    select_first_when_present(&mut selected, 2);
    assert_eq!(selected, Some(0));
}
