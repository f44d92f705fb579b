//! The collections pane: the list of discovered collections, and the request tree of
//! the entered collection flattened into display rows.
use vstd::prelude::*;

use crate::model::{Collection, Method, Node, Request, RequestView};
use crate::paths::{file_name, path_below, path_file_name, strip_prefix};
use crate::selection::{self, cycled};

verus! {

broadcast use {vstd::seq::axiom_seq_index_decreases, vstd::std_specs::vec::axiom_vec_decreases_to_view};

/// Which level of the pane is showing: the list of collections, or the request tree of
/// the entered collection.
#[derive(Debug, Clone, Copy, PartialEq, Eq, Structural)]
pub enum Pane {
    Collections,
    Requests,
}

/// A flattened tree row for display: folders carry no request, requests carry a copy.
#[derive(Debug)]
pub struct Row {
    pub depth: usize,
    pub label: String,
    pub method: Option<Method>,
    pub request: Option<Request>,
}

/// A row as plain values.
pub struct RowView {
    pub depth: nat,
    pub label: Seq<char>,
    pub method: Option<Method>,
    pub request: Option<RequestView>,
}

impl View for Row {
    type V = RowView;

    open spec fn view(&self) -> RowView {
        RowView {
            depth: self.depth as nat,
            label: self.label@,
            method: self.method,
            request: match self.request {
                Some(r) => Some(r@),
                None => None,
            },
        }
    }
}

/// The views of a sequence of rows.
pub open spec fn row_views(rows: Seq<Row>) -> Seq<RowView> {
    rows.map_values(|r: Row| r@)
}

/// Number of nodes (folders and requests) in a forest.
pub open spec fn forest_size(nodes: Seq<Node>) -> nat
    decreases nodes,
{
    if nodes.len() == 0 {
        0
    } else {
        let rest = nodes.drop_last();
        proof { assert(decreases_to!(nodes => rest)); }
        forest_size(rest) + match nodes.last() {
            Node::Folder { children, .. } => {
                proof { assert(decreases_to!(nodes => children@)); }
                1 + forest_size(children@)
            },
            Node::Request(_) => 1nat,
        }
    }
}

/// Number of requests in a forest, folders included at any depth.
pub open spec fn forest_requests(nodes: Seq<Node>) -> nat
    decreases nodes,
{
    if nodes.len() == 0 {
        0
    } else {
        let rest = nodes.drop_last();
        proof { assert(decreases_to!(nodes => rest)); }
        forest_requests(rest) + match nodes.last() {
            Node::Folder { children, .. } => {
                proof { assert(decreases_to!(nodes => children@)); }
                forest_requests(children@)
            },
            Node::Request(_) => 1nat,
        }
    }
}

/// The display rows of a forest at `depth`, in order: each folder is followed by the
/// rows of its children one level deeper; each request is one row.
pub open spec fn forest_rows(nodes: Seq<Node>, depth: nat) -> Seq<RowView>
    decreases nodes,
{
    if nodes.len() == 0 {
        seq![]
    } else {
        let rest = nodes.drop_last();
        proof { assert(decreases_to!(nodes => rest)); }
        forest_rows(rest, depth) + match nodes.last() {
            Node::Folder { name, children } => {
                proof { assert(decreases_to!(nodes => children@)); }
                seq![RowView { depth, label: name@, method: None, request: None }]
                    + forest_rows(children@, depth + 1)
            },
            Node::Request(r) => seq![
                RowView { depth, label: r.name@, method: Some(r.method), request: Some(r@) },
            ],
        }
    }
}

proof fn lemma_forest_size_push(nodes: Seq<Node>, node: Node)
    ensures
        forest_size(nodes.push(node)) == forest_size(nodes) + forest_size(seq![node]),
        forest_requests(nodes.push(node)) == forest_requests(nodes) + forest_requests(seq![node]),
{
    assert(nodes.push(node).drop_last() =~= nodes);
    assert(seq![node].drop_last() =~= Seq::<Node>::empty());
    assert(forest_size(Seq::<Node>::empty()) == 0);
    assert(forest_requests(Seq::<Node>::empty()) == 0);
}

proof fn lemma_forest_take(nodes: Seq<Node>, i: int, depth: nat)
    requires
        0 <= i < nodes.len(),
    ensures
        forest_size(nodes.take(i + 1)) == forest_size(nodes.take(i)) + forest_size(
            seq![nodes[i]],
        ),
        forest_requests(nodes.take(i + 1)) == forest_requests(nodes.take(i)) + forest_requests(
            seq![nodes[i]],
        ),
        forest_rows(nodes.take(i + 1), depth) == forest_rows(nodes.take(i), depth) + forest_rows(
            seq![nodes[i]],
            depth,
        ),
{
    assert(nodes.take(i + 1).drop_last() =~= nodes.take(i));
    assert(nodes.take(i + 1).last() == nodes[i]);
    assert(seq![nodes[i]].drop_last() =~= Seq::<Node>::empty());
    assert(seq![nodes[i]].last() == nodes[i]);
    assert(forest_rows(Seq::<Node>::empty(), depth) =~= seq![]);
    assert(forest_size(Seq::<Node>::empty()) == 0);
    assert(forest_requests(Seq::<Node>::empty()) == 0);
}

proof fn lemma_forest_size_bound(nodes: Seq<Node>, i: int)
    requires
        0 <= i <= nodes.len(),
    ensures
        forest_size(nodes.take(i)) <= forest_size(nodes),
        forest_requests(nodes.take(i)) <= forest_requests(nodes),
    decreases nodes.len() - i,
{
    if i < nodes.len() {
        lemma_forest_take(nodes, i, 0);
        lemma_forest_size_bound(nodes, i + 1);
    } else {
        assert(nodes.take(i) =~= nodes);
    }
}

/// A row carries a request.
pub open spec fn is_request_row(row: RowView) -> bool {
    row.request is Some
}

/// Flattening shows every node of the tree exactly once: as many rows as nodes.
pub proof fn lemma_rows_cover_tree(nodes: Seq<Node>, depth: nat)
    ensures
        forest_rows(nodes, depth).len() == forest_size(nodes),
    decreases nodes,
{
    if nodes.len() > 0 {
        let rest = nodes.drop_last();
        assert(decreases_to!(nodes => rest));
        lemma_rows_cover_tree(rest, depth);
        match nodes.last() {
            Node::Folder { children, .. } => {
                assert(decreases_to!(nodes => children@));
                lemma_rows_cover_tree(children@, depth + 1);
            },
            Node::Request(_) => {},
        }
    }
}

/// The rows that carry a request are as many as the requests that `count_requests`
/// counts: flattening loses and invents no request.
pub proof fn lemma_request_rows_counted(nodes: Seq<Node>, depth: nat)
    ensures
        forest_rows(nodes, depth).filter(|r: RowView| is_request_row(r)).len() == forest_requests(
            nodes,
        ),
    decreases nodes,
{
    let pred = |r: RowView| is_request_row(r);
    if nodes.len() == 0 {
        assert(forest_rows(nodes, depth) =~= seq![]);
        assert(Seq::<RowView>::empty().filter(pred) =~= seq![]) by {
            reveal(Seq::filter);
        }
    } else {
        let rest = nodes.drop_last();
        assert(decreases_to!(nodes => rest));
        lemma_request_rows_counted(rest, depth);
        match nodes.last() {
            Node::Folder { name, children } => {
                assert(decreases_to!(nodes => children@));
                lemma_request_rows_counted(children@, depth + 1);
                let row = RowView { depth, label: name@, method: None, request: None };
                let tail = seq![row] + forest_rows(children@, depth + 1);
                Seq::filter_distributes_over_add(forest_rows(rest, depth), tail, pred);
                Seq::filter_distributes_over_add(seq![row], forest_rows(children@, depth + 1), pred);
                assert(seq![row].filter(pred) =~= seq![]) by {
                    reveal(Seq::filter);
                    assert(seq![row].drop_last() =~= Seq::<RowView>::empty());
                    assert(Seq::<RowView>::empty().filter(pred) =~= seq![]);
                    assert(!pred(row));
                }
            },
            Node::Request(r) => {
                let row = RowView {
                    depth,
                    label: r.name@,
                    method: Some(r.method),
                    request: Some(r@),
                };
                Seq::filter_distributes_over_add(forest_rows(rest, depth), seq![row], pred);
                assert(seq![row].filter(pred) =~= seq![row]) by {
                    reveal(Seq::filter);
                    assert(seq![row].drop_last() =~= Seq::<RowView>::empty());
                }
            },
        }
    }
}

/// Append the display rows of `nodes` at `depth` to `out`.
pub fn flatten(nodes: &[Node], depth: usize, out: &mut Vec<Row>)
    requires
        depth + forest_size(nodes@) <= usize::MAX,
    ensures
        row_views(final(out)@) == row_views(old(out)@) + forest_rows(nodes@, depth as nat),
    decreases nodes@,
{
    let mut i: usize = 0;
    while i < nodes.len()
        invariant
            0 <= i <= nodes@.len(),
            depth + forest_size(nodes@) <= usize::MAX,
            row_views(out@) == row_views(old(out)@) + forest_rows(nodes@.take(i as int), depth as nat),
        decreases nodes@.len() - i,
    {
        proof {
            lemma_forest_take(nodes@, i as int, depth as nat);
            lemma_forest_size_bound(nodes@, i as int + 1);
        }
        let ghost before = out@;
        match &nodes[i] {
            Node::Folder { name, children } => {
                out.push(Row { depth, label: name.clone(), method: None, request: None });
                proof {
                    assert(row_views(out@) =~= row_views(before) + seq![out@.last()@]);
                    assert(seq![nodes@[i as int]].drop_last() =~= Seq::<Node>::empty());
                    assert(decreases_to!(nodes@ => children@));
                }
                let ghost mid = out@;
                flatten(children.as_slice(), depth + 1, out);
                proof {
                    assert(seq![nodes@[i as int]].last() == nodes@[i as int]);
                    assert(forest_rows(Seq::<Node>::empty(), depth as nat) =~= seq![]);
                    assert(forest_rows(seq![nodes@[i as int]], depth as nat) =~= seq![
                        mid.last()@,
                    ] + forest_rows(children@, (depth + 1) as nat));
                }
            },
            Node::Request(request) => {
                out.push(
                    Row {
                        depth,
                        label: request.name.clone(),
                        method: Some(request.method),
                        request: Some(request.clone()),
                    },
                );
                proof {
                    assert(row_views(out@) =~= row_views(before) + seq![out@.last()@]);
                    assert(seq![nodes@[i as int]].drop_last() =~= Seq::<Node>::empty());
                    assert(seq![nodes@[i as int]].last() == nodes@[i as int]);
                    assert(forest_rows(Seq::<Node>::empty(), depth as nat) =~= seq![]);
                    assert(forest_rows(seq![nodes@[i as int]], depth as nat) =~= seq![
                        out@.last()@,
                    ]);
                }
            },
        }
        i += 1;
    }
    assert(nodes@.take(i as int) =~= nodes@);
}

/// Number of requests in `nodes`, folders included.
fn count_in(nodes: &[Node]) -> (r: usize)
    requires
        forest_size(nodes@) <= usize::MAX,
    ensures
        r == forest_requests(nodes@),
    decreases nodes@,
{
    let mut total: usize = 0;
    let mut i: usize = 0;
    while i < nodes.len()
        invariant
            0 <= i <= nodes@.len(),
            forest_size(nodes@) <= usize::MAX,
            total == forest_requests(nodes@.take(i as int)),
        decreases nodes@.len() - i,
    {
        proof {
            lemma_forest_take(nodes@, i as int, 0);
            lemma_forest_size_bound(nodes@, i as int + 1);
            lemma_requests_le_size(nodes@.take(i as int + 1));
            assert(seq![nodes@[i as int]].drop_last() =~= Seq::<Node>::empty());
            assert(seq![nodes@[i as int]].last() == nodes@[i as int]);
            assert(forest_requests(Seq::<Node>::empty()) == 0);
        }
        match &nodes[i] {
            Node::Folder { children, .. } => {
                proof {
                    assert(decreases_to!(nodes@ => children@));
                }
                let n = count_in(children.as_slice());
                total = total + n;
            },
            Node::Request(_) => {
                total = total + 1;
            },
        }
        i += 1;
    }
    assert(nodes@.take(i as int) =~= nodes@);
    total
}

/// A forest holds at most as many requests as nodes.
pub proof fn lemma_requests_le_size(nodes: Seq<Node>)
    ensures
        forest_requests(nodes) <= forest_size(nodes),
    decreases nodes,
{
    if nodes.len() > 0 {
        let rest = nodes.drop_last();
        assert(decreases_to!(nodes => rest));
        lemma_requests_le_size(rest);
        match nodes.last() {
            Node::Folder { children, .. } => {
                assert(decreases_to!(nodes => children@));
                lemma_requests_le_size(children@);
            },
            Node::Request(_) => {},
        }
    }
}

/// Number of requests in a collection, counting those inside folders.
pub fn count_requests(collection: &Collection) -> (r: usize)
    requires
        forest_size(collection.nodes@) <= usize::MAX,
    ensures
        r == forest_requests(collection.nodes@),
{
    count_in(collection.nodes.as_slice())
}

/// The label under which a collection at `path` is listed: its directory relative to
/// the scan root, or, where that is empty, the directory's own name.
pub open spec fn location_text(path: Seq<char>, root: Seq<char>) -> Seq<char> {
    let relative = match path_below(path, root) {
        Some(rel) => rel,
        None => path,
    };
    if relative.len() == 0 {
        match path_file_name(path) {
            Some(name) => name,
            None => seq![],
        }
    } else {
        relative
    }
}

/// The collection's directory shown relative to the scan root, so collections with the
/// same name living in different git worktrees are distinguishable. Falls back to the
/// directory's own name when the relative path is empty.
pub fn location_label(path: &str, root: &str) -> (r: String)
    ensures
        r@ == location_text(path@, root@),
{
    let relative = match strip_prefix(path, root) {
        Some(rel) => rel,
        None => path.to_string(),
    };
    if relative.as_str().is_empty() {
        match file_name(path) {
            Some(name) => name,
            None => String::new(),
        }
    } else {
        relative
    }
}

/// View state for the collections pane (selection only; the data lives in `App`).
#[derive(Debug)]
pub struct State {
    pub pane: Pane,
    pub collections: Option<usize>,
    pub rows: Vec<Row>,
    pub requests: Option<usize>,
}

impl Default for State {
    fn default() -> (r: Self)
        ensures
            r.pane == Pane::Collections,
            r.collections == Some(0usize),
            r.rows@.len() == 0,
            r.requests is None,
    {
        State { pane: Pane::Collections, collections: Some(0), rows: Vec::new(), requests: None }
    }
}

impl State {
    /// The request carried by the selected row, if any.
    pub open spec fn selected_row_request(self) -> Option<Request> {
        match self.requests {
            Some(i) => if i < self.rows@.len() {
                self.rows@[i as int].request
            } else {
                None
            },
            None => None,
        }
    }

    pub fn selected_collection(&self) -> (r: Option<usize>)
        ensures
            r == self.collections,
    {
        self.collections
    }

    /// Enter a collection: flatten its tree into display rows and switch to the
    /// requests pane, selecting the first row when there is one.
    pub fn enter(&mut self, collection: &Collection)
        requires
            forest_size(collection.nodes@) <= usize::MAX,
        ensures
            row_views(final(self).rows@) == forest_rows(collection.nodes@, 0),
            final(self).pane == Pane::Requests,
            final(self).requests == (if final(self).rows@.len() > 0 {
                Some(0usize)
            } else {
                None
            }),
            final(self).collections == old(self).collections,
    {
        self.rows.clear();
        assert(row_views(self.rows@) =~= seq![]);
        flatten(collection.nodes.as_slice(), 0, &mut self.rows);
        assert(row_views(self.rows@) =~= forest_rows(collection.nodes@, 0));
        self.pane = Pane::Requests;
        let len = self.rows.len();
        selection::select_first_when_present(&mut self.requests, len);
    }

    /// Back to the list of collections.
    pub fn back(&mut self)
        ensures
            final(self).pane == Pane::Collections,
            final(self).collections == old(self).collections,
            final(self).rows == old(self).rows,
            final(self).requests == old(self).requests,
    {
        self.pane = Pane::Collections;
    }

    /// The request on the selected row; `None` for a folder row or no selection.
    pub fn selected_request(&self) -> (r: Option<&Request>)
        ensures
            match self.selected_row_request() {
                Some(q) => r matches Some(x) && *x == q,
                None => r is None,
            },
    {
        match self.requests {
            Some(index) => {
                if index < self.rows.len() {
                    match &self.rows[index].request {
                        Some(request) => Some(request),
                        None => None,
                    }
                } else {
                    None
                }
            },
            None => None,
        }
    }

    /// Move the selection of the showing level one row down, wrapping around.
    pub fn move_down(&mut self, collections_len: usize)
        ensures
            final(self).pane == old(self).pane,
            final(self).rows == old(self).rows,
            old(self).pane == Pane::Collections ==> final(self).collections == cycled(
                old(self).collections,
                collections_len as nat,
                1,
            ) && final(self).requests == old(self).requests,
            old(self).pane == Pane::Requests ==> final(self).requests == cycled(
                old(self).requests,
                old(self).rows@.len(),
                1,
            ) && final(self).collections == old(self).collections,
    {
        match self.pane {
            Pane::Collections => selection::next(&mut self.collections, collections_len),
            Pane::Requests => {
                let len = self.rows.len();
                selection::next(&mut self.requests, len)
            },
        }
    }

    /// Move the selection of the showing level one row up, wrapping around.
    pub fn move_up(&mut self, collections_len: usize)
        ensures
            final(self).pane == old(self).pane,
            final(self).rows == old(self).rows,
            old(self).pane == Pane::Collections ==> final(self).collections == cycled(
                old(self).collections,
                collections_len as nat,
                (if collections_len > 0 {
                    collections_len - 1
                } else {
                    0
                }) as nat,
            ) && final(self).requests == old(self).requests,
            old(self).pane == Pane::Requests ==> final(self).requests == cycled(
                old(self).requests,
                old(self).rows@.len(),
                (if old(self).rows@.len() > 0 {
                    old(self).rows@.len() - 1
                } else {
                    0
                }) as nat,
            ) && final(self).collections == old(self).collections,
    {
        match self.pane {
            Pane::Collections => selection::previous(&mut self.collections, collections_len),
            Pane::Requests => {
                let len = self.rows.len();
                selection::previous(&mut self.requests, len)
            },
        }
    }
}

} // verus!
