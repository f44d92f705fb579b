//! The rules of collection discovery: which directories are skipped, which files are
//! requests or environments, what a collection is called, and in what order
//! collections, environments, folders and requests are listed. Walking directories
//! and reading files is left to the caller.
use vstd::prelude::*;

use crate::model::{Collection, Environment, Node, Request};
use crate::order::{key_views, sort_stably, stably_sorted};
use crate::paths::{extension, file_name, path_extension, path_file_name};
use crate::text::same_text;

verus! {

/// What `str::to_lowercase` yields for a text (Unicode lowercase mapping).
pub uninterp spec fn lowercase(s: Seq<char>) -> Seq<char>;

/// `str::to_lowercase`: the result is a function of the text alone.
#[verifier::external_body]
fn to_lowercase(s: &str) -> (r: String)
    ensures
        r@ == lowercase(s@),
{
    s.to_lowercase()
}

/// Directories whose subtree is never searched for collections.
pub open spec fn skipped_dir(name: Seq<char>) -> bool {
    name == "node_modules"@ || name == ".git"@
}

/// Whether a directory named `name` is left out of the search.
pub fn is_skipped_dir(name: &str) -> (r: bool)
    ensures
        r == skipped_dir(name@),
{
    same_text(name, "node_modules") || same_text(name, ".git")
}

/// The name a collection is listed under: the manifest's non-empty `name`, else the
/// directory's own name, else `collection`.
pub open spec fn collection_title(manifest_name: Option<Seq<char>>, dir: Seq<char>) -> Seq<char> {
    match manifest_name {
        Some(n) if n.len() > 0 => n,
        _ => match path_file_name(dir) {
            Some(d) => d,
            None => "collection"@,
        },
    }
}

/// The name of the collection in directory `dir` whose manifest names it
/// `manifest_name`.
pub fn collection_name(manifest_name: Option<String>, dir: &str) -> (r: String)
    ensures
        r@ == collection_title(
            match manifest_name {
                Some(n) => Some(n@),
                None => None,
            },
            dir@,
        ),
{
    if let Some(name) = manifest_name {
        if !name.as_str().is_empty() {
            return name;
        }
    }
    match file_name(dir) {
        Some(name) => name,
        None => "collection".to_string(),
    }
}

/// A file with the `.bru` extension.
pub open spec fn bru_file(path: Seq<char>) -> bool {
    path_extension(path) == Some("bru"@)
}

/// Whether the file at `path` is a `.bru` file (environment files are).
pub fn is_bru_file(path: &str) -> (r: bool)
    ensures
        r == bru_file(path@),
{
    match extension(path) {
        Some(ext) => same_text(ext.as_str(), "bru"),
        None => false,
    }
}

/// A `.bru` file that holds a request: not the collection's or a folder's settings.
pub open spec fn request_file(path: Seq<char>) -> bool {
    &&& bru_file(path)
    &&& match path_file_name(path) {
        Some(n) => n != "collection.bru"@ && n != "folder.bru"@,
        None => true,
    }
}

/// Whether the file at `path` holds a request.
pub fn is_request_file(path: &str) -> (r: bool)
    ensures
        r == request_file(path@),
{
    if !is_bru_file(path) {
        return false;
    }
    match file_name(path) {
        Some(name) => !(same_text(name.as_str(), "collection.bru") || same_text(
            name.as_str(),
            "folder.bru",
        )),
        None => true,
    }
}

/// Subdirectories of a collection that are not request folders.
pub open spec fn environments_dir(name: Seq<char>) -> bool {
    name == "environments"@
}

/// Whether a subdirectory named `name` holds environments rather than requests.
pub fn is_environments_dir(name: &str) -> (r: bool)
    ensures
        r == environments_dir(name@),
{
    same_text(name, "environments")
}

/// The sort key of a name: its lowercase form.
pub open spec fn name_key(name: Seq<char>) -> (i64, Seq<char>) {
    (0, lowercase(name))
}

/// The name a node is listed under: a folder's or request's name, lowercased.
pub open spec fn node_title(node: Node) -> Seq<char> {
    match node {
        Node::Folder { name, .. } => lowercase(name@),
        Node::Request(r) => lowercase(r.name@),
    }
}

/// The lowercased name of a folder or request node.
pub fn folder_name(node: &Node) -> (r: String)
    ensures
        r@ == node_title(*node),
{
    match node {
        Node::Folder { name, .. } => to_lowercase(name.as_str()),
        Node::Request(request) => to_lowercase(request.name.as_str()),
    }
}

/// The sort keys of collections: their lowercase names.
pub open spec fn collection_keys(cs: Seq<Collection>) -> Seq<(i64, Seq<char>)> {
    cs.map_values(|c: Collection| name_key(c.name@))
}

/// Collections ordered by lowercase name; equal names keep their order.
pub fn sort_collections(collections: Vec<Collection>) -> (r: Vec<Collection>)
    ensures
        stably_sorted(collections@, collection_keys(collections@), r@),
{
    let mut keys: Vec<(i64, String)> = Vec::new();
    let mut i: usize = 0;
    while i < collections.len()
        invariant
            0 <= i <= collections@.len(),
            key_views(keys@) == collection_keys(collections@).take(i as int),
        decreases collections@.len() - i,
    {
        let ghost old_keys = keys@;
        let key = to_lowercase(collections[i].name.as_str());
        keys.push((0, key));
        proof {
            assert(keys@ =~= old_keys.push(keys@.last()));
            assert(key_views(keys@) =~= key_views(old_keys).push((keys@.last().0, keys@.last().1@)));
            assert(collection_keys(collections@).take(i + 1) =~= collection_keys(collections@).take(i as int).push(collection_keys(collections@)[i as int]));
        }
        i += 1;
    }
    assert(collection_keys(collections@).take(i as int) =~= collection_keys(collections@));
    sort_stably(collections, &keys)
}

/// The sort keys of environments: their lowercase names.
pub open spec fn environment_keys(es: Seq<Environment>) -> Seq<(i64, Seq<char>)> {
    es.map_values(|e: Environment| name_key(e.name@))
}

/// Environments ordered by lowercase name; equal names keep their order.
pub fn sort_environments(environments: Vec<Environment>) -> (r: Vec<Environment>)
    ensures
        stably_sorted(environments@, environment_keys(environments@), r@),
{
    let mut keys: Vec<(i64, String)> = Vec::new();
    let mut i: usize = 0;
    while i < environments.len()
        invariant
            0 <= i <= environments@.len(),
            key_views(keys@) == environment_keys(environments@).take(i as int),
        decreases environments@.len() - i,
    {
        let ghost old_keys = keys@;
        let key = to_lowercase(environments[i].name.as_str());
        keys.push((0, key));
        proof {
            assert(keys@ =~= old_keys.push(keys@.last()));
            assert(key_views(keys@) =~= key_views(old_keys).push((keys@.last().0, keys@.last().1@)));
            assert(environment_keys(environments@).take(i + 1) =~= environment_keys(environments@).take(i as int).push(environment_keys(environments@)[i as int]));
        }
        i += 1;
    }
    assert(environment_keys(environments@).take(i as int) =~= environment_keys(environments@));
    sort_stably(environments, &keys)
}

/// The folder nodes kept from candidate folders: those with any children.
pub open spec fn kept_folders(folders: Seq<(String, Vec<Node>)>) -> Seq<Node>
    decreases folders.len(),
{
    if folders.len() == 0 {
        seq![]
    } else {
        let f = folders.last();
        kept_folders(folders.drop_last()) + if f.1@.len() > 0 {
            seq![Node::Folder { name: f.0, children: f.1 }]
        } else {
            seq![]
        }
    }
}

/// The sort keys of nodes: their lowercase names after their sequence numbers.
pub open spec fn node_keys(nodes: Seq<Node>) -> Seq<(i64, Seq<char>)> {
    nodes.map_values(
        |n: Node|
            match n {
                Node::Folder { name, .. } => name_key(name@),
                Node::Request(r) => (r.seq, lowercase(r.name@)),
            },
    )
}

/// Requests as tree nodes.
pub open spec fn request_nodes(requests: Seq<Request>) -> Seq<Node> {
    requests.map_values(|r: Request| Node::Request(r))
}

/// Sort nodes by their keys.
fn sort_nodes(nodes: Vec<Node>) -> (r: Vec<Node>)
    ensures
        stably_sorted(nodes@, node_keys(nodes@), r@),
{
    let mut keys: Vec<(i64, String)> = Vec::new();
    let mut i: usize = 0;
    while i < nodes.len()
        invariant
            0 <= i <= nodes@.len(),
            key_views(keys@) == node_keys(nodes@).take(i as int),
        decreases nodes@.len() - i,
    {
        let seq = match &nodes[i] {
            Node::Folder { .. } => 0,
            Node::Request(request) => request.seq,
        };
        let ghost old_keys = keys@;
        let key = folder_name(&nodes[i]);
        keys.push((seq, key));
        proof {
            assert(keys@ =~= old_keys.push(keys@.last()));
            assert(key_views(keys@) =~= key_views(old_keys).push((keys@.last().0, keys@.last().1@)));
            assert(node_keys(nodes@).take(i + 1) =~= node_keys(nodes@).take(i as int).push(node_keys(nodes@)[i as int]));
        }
        i += 1;
    }
    assert(node_keys(nodes@).take(i as int) =~= node_keys(nodes@));
    sort_stably(nodes, &keys)
}

/// The tree level of one directory: its non-empty subfolders ordered by lowercase
/// name, then its requests ordered by `seq` and then lowercase name; equal keys keep
/// the order in which they were found.
pub fn order_nodes(folders: Vec<(String, Vec<Node>)>, requests: Vec<Request>) -> (r: Vec<Node>)
    ensures
        r@.len() == kept_folders(folders@).len() + requests@.len(),
        stably_sorted(
            kept_folders(folders@),
            node_keys(kept_folders(folders@)),
            r@.take(kept_folders(folders@).len() as int),
        ),
        stably_sorted(
            request_nodes(requests@),
            node_keys(request_nodes(requests@)),
            r@.skip(kept_folders(folders@).len() as int),
        ),
{
    let ghost fs = folders@;
    let mut folders = folders;
    let ghost mut taken: Seq<(String, Vec<Node>)> = Seq::empty();
    let mut kept: Vec<Node> = Vec::new();
    while folders.len() > 0
        invariant
            taken + folders@ == fs,
            kept@ == kept_folders(taken),
        decreases folders@.len(),
    {
        let ghost rest = folders@;
        let ghost before = taken;
        let (name, children) = folders.remove(0);
        let ghost f = (name, children);
        if children.len() > 0 {
            kept.push(Node::Folder { name, children });
        }
        proof {
            taken = taken.push(f);
            assert(taken.drop_last() =~= before);
            assert(taken.last() == f);
            assert(rest =~= seq![f] + folders@);
            assert(taken + folders@ =~= fs);
        }
    }
    assert(taken =~= fs);
    let ghost rs = requests@;
    let mut requests = requests;
    let mut nodes: Vec<Node> = Vec::new();
    while requests.len() > 0
        invariant
            request_nodes(rs) == nodes@ + request_nodes(requests@),
        decreases requests@.len(),
    {
        let ghost rest = requests@;
        let request = requests.remove(0);
        nodes.push(Node::Request(request));
        assert(request_nodes(rest) =~= seq![Node::Request(request)] + request_nodes(requests@));
        assert(nodes@ + request_nodes(requests@) =~= request_nodes(rs));
    }
    assert(nodes@ =~= request_nodes(rs));
    let mut ordered = sort_nodes(kept);
    let ordered_requests = sort_nodes(nodes);
    let ghost a = ordered@;
    let mut tail = ordered_requests;
    ordered.append(&mut tail);
    assert(ordered@.take(a.len() as int) =~= a);
    assert(ordered@.skip(a.len() as int) =~= ordered_requests@);
    ordered
}

} // verus!
