//! Snapshots of a working tree: writing one into the store as tree and blob
//! objects, and reading the files of one back.
use crate::digest::is_digest;
use crate::digest::lemma_digest_is_token;
use crate::object::get;
use crate::object::hash_contents;
use crate::object::fetch;
use crate::object::kind_name;
use crate::object::kind_of;
use crate::object::object_id;
use crate::object::extends;
use crate::object::holds;
use crate::object::put;
use crate::object::put_keeps;
use crate::object::record;
use crate::object::lemma_kind_name;
use crate::object::lemma_record_parses;
use crate::object::Error;
use crate::object::Kind;
use crate::table::lemma_prefix_of_prefix;
use crate::table::Table;
use crate::text::append;
use crate::text::bytes_eq;
use crate::text::fields;
use crate::text::is_space;
use crate::text::is_token;
use crate::text::lemma_fields_three;
use crate::text::lemma_lines_push;
use crate::text::lines;
use crate::text::split_fields;
use crate::text::split_lines;
use crate::text::views;
use vstd::prelude::*;
use vstd::slice::slice_subrange;
use vstd::slice::slice_to_vec;

verus! {

/// What stands at a path of the working tree.
#[derive(Debug)]
pub enum Item {
    /// A file and what it holds.
    File(Vec<u8>),
    /// A directory and what stands in it, in the order of its listing.
    Dir(Vec<Node>),
}

/// An entry of the working tree. Its path is relative to the root of the
/// working tree, with `/` between the names.
#[derive(Debug)]
pub struct Node {
    pub path: Vec<u8>,
    pub item: Item,
}

/// One line of a tree object.
#[derive(Debug)]
pub struct TreeEntry {
    pub id: Vec<u8>,
    pub kind: Kind,
    pub path: Vec<u8>,
}

/// A file to write: its path and what it holds.
#[derive(Debug)]
pub struct FileEntry {
    pub path: Vec<u8>,
    pub contents: Vec<u8>,
}

/// What a checkout does to the working tree: the files and directories to
/// remove, in this order, then the files to write.
#[derive(Debug)]
pub struct Checkout {
    pub remove: Vec<Vec<u8>>,
    pub write: Vec<FileEntry>,
}

/// How deep trees may be nested when a snapshot is read.
pub const MAX_TREE_DEPTH: usize = 1024;

/// Where the name starts that ends at `i`: behind the last `/` before `i`,
/// or at the start of the path.
pub open spec fn name_start(path: Seq<u8>, i: int) -> int
    decreases i,
{
    if 0 < i <= path.len() && path[i - 1] != 47 {
        name_start(path, i - 1)
    } else {
        i
    }
}

/// The name of the entry at `path` in its directory: what stands behind the
/// last `/` of the path, the whole path where it has none.
pub open spec fn own_name(path: Seq<u8>) -> Seq<u8> {
    path.subrange(name_start(path, path.len() as int), path.len() as int)
}

/// Whether the entry at `path` is passed over: its name in its directory is
/// one of the names in `ignored`, wherever the directory stands.
pub open spec fn is_ignored(path: Seq<u8>, ignored: Seq<Seq<u8>>) -> bool {
    ignored.contains(own_name(path))
}

/// The line of a tree object for one entry.
pub open spec fn entry_line(kind: Kind, id: Seq<u8>, path: Seq<u8>) -> Seq<u8> {
    kind_name(kind) + seq![32u8] + id + seq![32u8] + path + seq![10u8]
}

/// The text of the tree object for the first `n` of `nodes`: a line for each
/// one that is not ignored.
pub open spec fn tree_text(nodes: Vec<Node>, n: nat, ignored: Seq<Seq<u8>>) -> Seq<u8>
    decreases nodes, n,
{
    if n == 0 || n > nodes.len() {
        Seq::empty()
    } else {
        tree_text(nodes, (n - 1) as nat, ignored) + node_line(nodes[n - 1], ignored)
    }
}

/// The line for one node, empty where the node is ignored.
pub open spec fn node_line(node: Node, ignored: Seq<Seq<u8>>) -> Seq<u8>
    decreases node, 0nat,
{
    if is_ignored(node.path@, ignored) {
        Seq::empty()
    } else {
        match node.item {
            Item::File(contents) => entry_line(
                Kind::Blob,
                object_id(Kind::Blob, contents@),
                node.path@,
            ),
            Item::Dir(entries) => entry_line(
                Kind::Tree,
                snapshot_id(entries, ignored),
                node.path@,
            ),
        }
    }
}

/// The id of the tree object for a directory that lists `nodes`.
pub open spec fn snapshot_id(nodes: Vec<Node>, ignored: Seq<Seq<u8>>) -> Seq<u8>
    decreases nodes, nodes.len() + 1,
{
    object_id(Kind::Tree, tree_text(nodes, nodes.len() as nat, ignored))
}

/// The store `m` after the objects below the first `n` of `nodes` were written.
pub open spec fn written_below(
    m: Map<Seq<u8>, Seq<u8>>,
    nodes: Vec<Node>,
    n: nat,
    ignored: Seq<Seq<u8>>,
) -> Map<Seq<u8>, Seq<u8>>
    decreases nodes, n,
{
    if n == 0 || n > nodes.len() {
        m
    } else {
        written_node(written_below(m, nodes, (n - 1) as nat, ignored), nodes[n - 1], ignored)
    }
}

/// The store `m` after the objects of one node were written.
pub open spec fn written_node(
    m: Map<Seq<u8>, Seq<u8>>,
    node: Node,
    ignored: Seq<Seq<u8>>,
) -> Map<Seq<u8>, Seq<u8>>
    decreases node, 0nat,
{
    if is_ignored(node.path@, ignored) {
        m
    } else {
        match node.item {
            Item::File(contents) => put(m, Kind::Blob, contents@),
            Item::Dir(entries) => snapshot_store(m, entries, ignored),
        }
    }
}

/// The store `m` after a snapshot of a directory that lists `nodes`: the
/// objects below it, then its tree object.
pub open spec fn snapshot_store(
    m: Map<Seq<u8>, Seq<u8>>,
    nodes: Vec<Node>,
    ignored: Seq<Seq<u8>>,
) -> Map<Seq<u8>, Seq<u8>>
    decreases nodes, nodes.len() + 1,
{
    put(
        written_below(m, nodes, nodes.len() as nat, ignored),
        Kind::Tree,
        tree_text(nodes, nodes.len() as nat, ignored),
    )
}

/// The entry that stands for a node in the tree object of its directory.
pub open spec fn node_entry(node: Node, ignored: Seq<Seq<u8>>) -> (Kind, Seq<u8>, Seq<u8>) {
    match node.item {
        Item::File(contents) => (Kind::Blob, object_id(Kind::Blob, contents@), node.path@),
        Item::Dir(entries) => (Kind::Tree, snapshot_id(entries, ignored), node.path@),
    }
}

/// The entries of the tree object for the first `n` of `nodes`.
pub open spec fn entries_below(nodes: Vec<Node>, n: nat, ignored: Seq<Seq<u8>>) -> Seq<
    (Kind, Seq<u8>, Seq<u8>),
>
    decreases n,
{
    if n == 0 || n > nodes.len() {
        Seq::empty()
    } else if is_ignored(nodes[n - 1].path@, ignored) {
        entries_below(nodes, (n - 1) as nat, ignored)
    } else {
        entries_below(nodes, (n - 1) as nat, ignored).push(node_entry(nodes[n - 1], ignored))
    }
}

/// The files at or below the first `n` of `nodes` that are not ignored, each
/// directory's files where the directory stands.
pub open spec fn files_below(nodes: Vec<Node>, n: nat, ignored: Seq<Seq<u8>>) -> Seq<
    (Seq<u8>, Seq<u8>),
>
    decreases nodes, n,
{
    if n == 0 || n > nodes.len() {
        Seq::empty()
    } else {
        files_below(nodes, (n - 1) as nat, ignored) + node_files(nodes[n - 1], ignored)
    }
}

/// The files at or below `node` that are not ignored.
pub open spec fn node_files(node: Node, ignored: Seq<Seq<u8>>) -> Seq<(Seq<u8>, Seq<u8>)>
    decreases node, 0nat,
{
    if is_ignored(node.path@, ignored) {
        Seq::empty()
    } else {
        match node.item {
            Item::File(contents) => seq![(node.path@, contents@)],
            Item::Dir(entries) => files_below(entries, entries.len() as nat, ignored),
        }
    }
}

/// Whether every id in the tree objects for the first `n` of `nodes`, and
/// for the directories below them, is a digest.
pub open spec fn ids_are_digests(nodes: Vec<Node>, n: nat, ignored: Seq<Seq<u8>>) -> bool
    decreases nodes, n,
{
    if n == 0 || n > nodes.len() {
        true
    } else {
        ids_are_digests(nodes, (n - 1) as nat, ignored) && node_ids_are_digests(
            nodes[n - 1],
            ignored,
        )
    }
}

/// Whether the id of `node`, and every id below it, is a digest.
pub open spec fn node_ids_are_digests(node: Node, ignored: Seq<Seq<u8>>) -> bool
    decreases node, 0nat,
{
    is_ignored(node.path@, ignored) || (is_digest(node_entry(node, ignored).1) && match node.item {
        Item::File(contents) => true,
        Item::Dir(entries) => ids_are_digests(entries, entries.len() as nat, ignored),
    })
}

/// Whether the path of each of the first `n` of `nodes`, and of each node
/// below them, is a token, but for what is ignored.
pub open spec fn paths_are_tokens(nodes: Vec<Node>, n: nat, ignored: Seq<Seq<u8>>) -> bool
    decreases nodes, n,
{
    if n == 0 || n > nodes.len() {
        true
    } else {
        paths_are_tokens(nodes, (n - 1) as nat, ignored) && node_paths_are_tokens(
            nodes[n - 1],
            ignored,
        )
    }
}

/// Whether the path of `node`, and of each node below it, is a token.
pub open spec fn node_paths_are_tokens(node: Node, ignored: Seq<Seq<u8>>) -> bool
    decreases node, 0nat,
{
    is_ignored(node.path@, ignored) || (is_token(node.path@) && match node.item {
        Item::File(contents) => true,
        Item::Dir(entries) => paths_are_tokens(entries, entries.len() as nat, ignored),
    })
}

/// How deep directories are nested below the first `n` of `nodes`.
pub open spec fn nesting(nodes: Vec<Node>, n: nat, ignored: Seq<Seq<u8>>) -> nat
    decreases nodes, n,
{
    if n == 0 || n > nodes.len() {
        0
    } else {
        let before = nesting(nodes, (n - 1) as nat, ignored);
        let here = node_nesting(nodes[n - 1], ignored);
        if here > before {
            here
        } else {
            before
        }
    }
}

/// How deep directories are nested at and below `node`.
pub open spec fn node_nesting(node: Node, ignored: Seq<Seq<u8>>) -> nat
    decreases node, 0nat,
{
    if is_ignored(node.path@, ignored) {
        0
    } else {
        match node.item {
            Item::File(contents) => 0,
            Item::Dir(entries) => 1 + nesting(entries, entries.len() as nat, ignored),
        }
    }
}

/// Whether the store `m` holds, under its id, the record of every object
/// below the first `n` of `nodes`.
pub open spec fn holds_below(
    m: Map<Seq<u8>, Seq<u8>>,
    nodes: Vec<Node>,
    n: nat,
    ignored: Seq<Seq<u8>>,
) -> bool
    decreases nodes, n,
{
    if n == 0 || n > nodes.len() {
        true
    } else {
        holds_below(m, nodes, (n - 1) as nat, ignored) && holds_node(m, nodes[n - 1], ignored)
    }
}

/// Whether the store `m` holds, under its id, the record of every object of
/// `node`.
pub open spec fn holds_node(m: Map<Seq<u8>, Seq<u8>>, node: Node, ignored: Seq<Seq<u8>>) -> bool
    decreases node, 0nat,
{
    is_ignored(node.path@, ignored) || match node.item {
        Item::File(contents) => holds(m, Kind::Blob, contents@),
        Item::Dir(entries) => holds_snapshot(m, entries, ignored),
    }
}

/// Whether the store `m` holds, under its id, the record of every object of
/// the snapshot of a directory that lists `nodes`.
pub open spec fn holds_snapshot(
    m: Map<Seq<u8>, Seq<u8>>,
    nodes: Vec<Node>,
    ignored: Seq<Seq<u8>>,
) -> bool
    decreases nodes, nodes.len() + 1,
{
    holds(m, Kind::Tree, tree_text(nodes, nodes.len() as nat, ignored)) && holds_below(
        m,
        nodes,
        nodes.len() as nat,
        ignored,
    )
}

/// Whether none of the writes for the first `n` of `nodes` into the store
/// `m` replaces another object.
pub open spec fn writes_keep_below(
    m: Map<Seq<u8>, Seq<u8>>,
    nodes: Vec<Node>,
    n: nat,
    ignored: Seq<Seq<u8>>,
) -> bool
    decreases nodes, n,
{
    if n == 0 || n > nodes.len() {
        true
    } else {
        writes_keep_below(m, nodes, (n - 1) as nat, ignored) && writes_keep_node(
            written_below(m, nodes, (n - 1) as nat, ignored),
            nodes[n - 1],
            ignored,
        )
    }
}

/// Whether none of the writes for `node` into the store `m` replaces another
/// object.
pub open spec fn writes_keep_node(
    m: Map<Seq<u8>, Seq<u8>>,
    node: Node,
    ignored: Seq<Seq<u8>>,
) -> bool
    decreases node, 0nat,
{
    is_ignored(node.path@, ignored) || match node.item {
        Item::File(contents) => put_keeps(m, Kind::Blob, contents@),
        Item::Dir(entries) => writes_keep(m, entries, ignored),
    }
}

/// Whether none of the writes of a snapshot of a directory that lists
/// `nodes` into the store `m` replaces another object: each id is new to the
/// store, or the store holds that very object under it.
pub open spec fn writes_keep(
    m: Map<Seq<u8>, Seq<u8>>,
    nodes: Vec<Node>,
    ignored: Seq<Seq<u8>>,
) -> bool
    decreases nodes, nodes.len() + 1,
{
    writes_keep_below(m, nodes, nodes.len() as nat, ignored) && put_keeps(
        written_below(m, nodes, nodes.len() as nat, ignored),
        Kind::Tree,
        tree_text(nodes, nodes.len() as nat, ignored),
    )
}

/// Whether the entry at `path` is passed over: its name in its directory is
/// one of the names in `ignored`.
pub fn should_be_ignored(path: &[u8], ignored: &Vec<Vec<u8>>) -> (r: bool)
    ensures
        r == is_ignored(path@, views(ignored@)),
{
    let mut b: usize = path.len();
    while b > 0 && path[b - 1] != 47
        invariant
            b <= path.len(),
            name_start(path@, path@.len() as int) == name_start(path@, b as int),
        decreases b,
    {
        b -= 1;
    }
    let base = slice_subrange(path, b, path.len());
    let mut i: usize = 0;
    while i < ignored.len()
        invariant
            i <= ignored.len(),
            base@ == own_name(path@),
            forall|k: int| 0 <= k < i ==> views(ignored@)[k] != base@,
        decreases ignored.len() - i,
    {
        if bytes_eq(base, ignored[i].as_slice()) {
            assert(views(ignored@)[i as int] == base@);
            return true;
        }
        i += 1;
    }
    false
}

/// Appends the line for one entry to `text`.
fn push_line(text: &mut Vec<u8>, kind: Kind, id: &[u8], path: &[u8])
    ensures
        final(text)@ == old(text)@ + entry_line(kind, id@, path@),
{
    let name = kind.name();
    append(text, name.as_slice());
    text.push(32u8);
    append(text, id);
    text.push(32u8);
    append(text, path);
    text.push(10u8);
    assert(text@ =~= old(text)@ + entry_line(kind, id@, path@));
}

/// Writes a snapshot of a directory that lists `nodes` into the store: a
/// blob for each file, a tree for each directory, both but for what is
/// ignored, and the tree object of the directory itself, whose id is returned.
pub fn traverse_write_tree(store: &mut Table, nodes: &Vec<Node>, ignored: &Vec<Vec<u8>>) -> (id:
    Vec<u8>)
    ensures
        id@ == snapshot_id(*nodes, views(ignored@)),
        is_digest(id@),
        final(store)@ == snapshot_store(old(store)@, *nodes, views(ignored@)),
        ids_are_digests(*nodes, nodes.len() as nat, views(ignored@)),
        old(store).slots().is_prefix_of(final(store).slots()),
        writes_keep(old(store)@, *nodes, views(ignored@)) ==> extends(
            final(store)@,
            old(store)@,
        ) && holds_snapshot(final(store)@, *nodes, views(ignored@)),
        paths_are_tokens(*nodes, nodes.len() as nat, views(ignored@)) && nesting(
            *nodes,
            nodes.len() as nat,
            views(ignored@),
        ) < MAX_TREE_DEPTH && writes_keep(old(store)@, *nodes, views(ignored@))
            ==> read_tree_spec(final(store)@, id@, MAX_TREE_DEPTH as nat) == Ok::<
            Seq<(Seq<u8>, Seq<u8>)>,
            Error,
        >(files_below(*nodes, nodes.len() as nat, views(ignored@))),
    decreases *nodes,
{
    let mut text: Vec<u8> = Vec::new();
    let mut i: usize = 0;
    while i < nodes.len()
        invariant
            i <= nodes.len(),
            text@ == tree_text(*nodes, i as nat, views(ignored@)),
            store@ == written_below(old(store)@, *nodes, i as nat, views(ignored@)),
            ids_are_digests(*nodes, i as nat, views(ignored@)),
            old(store).slots().is_prefix_of(store.slots()),
        decreases nodes.len() - i,
    {
        let node = &nodes[i];
        let ghost kept = store.slots();
        proof {
            let ig = views(ignored@);
            assert(nodes[i as int] == *node);
            assert(tree_text(*nodes, (i + 1) as nat, ig) == tree_text(*nodes, i as nat, ig)
                + node_line(*node, ig));
            assert(written_below(old(store)@, *nodes, (i + 1) as nat, ig) == written_node(
                written_below(old(store)@, *nodes, i as nat, ig),
                *node,
                ig,
            ));
            assert(ids_are_digests(*nodes, (i + 1) as nat, ig) == (ids_are_digests(
                *nodes,
                i as nat,
                ig,
            ) && node_ids_are_digests(*node, ig)));
        }
        if !should_be_ignored(node.path.as_slice(), ignored) {
            match &node.item {
                Item::File(contents) => {
                    let id = hash_contents(store, contents.as_slice(), Kind::Blob);
                    push_line(&mut text, Kind::Blob, id.as_slice(), node.path.as_slice());
                },
                Item::Dir(entries) => {
                    let id = traverse_write_tree(store, entries, ignored);
                    push_line(&mut text, Kind::Tree, id.as_slice(), node.path.as_slice());
                },
            }
        } else {
            assert(text@ + Seq::<u8>::empty() =~= text@);
        }
        proof {
            assert(kept.is_prefix_of(store.slots()));
            lemma_prefix_of_prefix(old(store).slots(), kept, store.slots());
        }
        i += 1;
    }
    let ghost kept = store.slots();
    let id = hash_contents(store, text.as_slice(), Kind::Tree);
    proof {
        let ig = views(ignored@);
        lemma_prefix_of_prefix(old(store).slots(), kept, store.slots());
        if writes_keep(old(store)@, *nodes, ig) {
            lemma_writes_held(old(store)@, *nodes, ig);
            if paths_are_tokens(*nodes, nodes.len() as nat, ig) && nesting(
                *nodes,
                nodes.len() as nat,
                ig,
            ) < MAX_TREE_DEPTH {
                lemma_snapshot_reads_back(store@, *nodes, ig, MAX_TREE_DEPTH as nat);
            }
        }
    }
    id
}

/// A tree entry as plain values: kind, id, path.
pub open spec fn entry_view(e: TreeEntry) -> (Kind, Seq<u8>, Seq<u8>) {
    (e.kind, e.id@, e.path@)
}

/// The entries of `v` as plain values, in order.
pub open spec fn entry_views(v: Seq<TreeEntry>) -> Seq<(Kind, Seq<u8>, Seq<u8>)> {
    Seq::new(v.len(), |i: int| entry_view(v[i]))
}

/// A file as plain values: path, contents.
pub open spec fn file_view(f: FileEntry) -> (Seq<u8>, Seq<u8>) {
    (f.path@, f.contents@)
}

/// The files of `v` as plain values, in order.
pub open spec fn file_views(v: Seq<FileEntry>) -> Seq<(Seq<u8>, Seq<u8>)> {
    Seq::new(v.len(), |i: int| file_view(v[i]))
}

/// The entry that a line of a tree object holds: it has exactly three fields.
pub open spec fn parse_line(line: Seq<u8>) -> Option<(Kind, Seq<u8>, Seq<u8>)> {
    let f = fields(line);
    if f.len() == 3 {
        Some((kind_of(f[0]), f[1], f[2]))
    } else {
        None
    }
}

/// The entries that the text of a tree object holds, one for each line, if
/// every line holds one.
pub open spec fn parse_entries(text: Seq<u8>) -> Option<Seq<(Kind, Seq<u8>, Seq<u8>)>> {
    let ls = lines(text);
    if forall|i: int| 0 <= i < ls.len() ==> (#[trigger] parse_line(ls[i])) is Some {
        Some(Seq::new(ls.len(), |i: int| parse_line(ls[i])->Some_0))
    } else {
        None
    }
}

/// The files below the tree object `id`, in the order of its lines, with at
/// most `depth` trees nested. The first entry that fails decides the error.
pub open spec fn read_tree_spec(m: Map<Seq<u8>, Seq<u8>>, id: Seq<u8>, depth: nat) -> Result<
    Seq<(Seq<u8>, Seq<u8>)>,
    Error,
>
    decreases depth, 0nat,
{
    if depth == 0 {
        Err(Error::Corrupt)
    } else {
        match fetch(m, id) {
            Err(e) => Err(e),
            Ok(found) => if found.0 != Kind::Tree {
                Err(Error::BadFormat)
            } else {
                match parse_entries(found.1) {
                    None => Err(Error::BadFormat),
                    Some(es) => read_entries_spec(m, es, es.len(), (depth - 1) as nat),
                }
            },
        }
    }
}

/// The files below the first `n` of the entries `es`.
pub open spec fn read_entries_spec(
    m: Map<Seq<u8>, Seq<u8>>,
    es: Seq<(Kind, Seq<u8>, Seq<u8>)>,
    n: nat,
    depth: nat,
) -> Result<Seq<(Seq<u8>, Seq<u8>)>, Error>
    decreases depth, n + 1,
{
    if n == 0 || n > es.len() {
        Ok(Seq::empty())
    } else {
        match read_entries_spec(m, es, (n - 1) as nat, depth) {
            Err(e) => Err(e),
            Ok(files) => {
                let entry = es[n - 1];
                let more = match entry.0 {
                    Kind::Tree => read_tree_spec(m, entry.1, depth),
                    Kind::Blob => read_blob_spec(m, entry.1, entry.2),
                    _ => Err(Error::BadFormat),
                };
                match more {
                    Err(e) => Err(e),
                    Ok(found) => Ok(files + found),
                }
            },
        }
    }
}

/// The one file that a blob entry stands for: the contents of the object
/// `id`, to be written at `path`.
pub open spec fn read_blob_spec(m: Map<Seq<u8>, Seq<u8>>, id: Seq<u8>, path: Seq<u8>) -> Result<
    Seq<(Seq<u8>, Seq<u8>)>,
    Error,
> {
    match fetch(m, id) {
        Err(e) => Err(e),
        Ok(found) => Ok(seq![(path, found.1)]),
    }
}

/// The paths of the files and directories below the first `n` of `nodes`
/// that are not ignored, each directory after what stands in it.
pub open spec fn removals(nodes: Vec<Node>, n: nat, ignored: Seq<Seq<u8>>) -> Seq<Seq<u8>>
    decreases nodes, n,
{
    if n == 0 || n > nodes.len() {
        Seq::empty()
    } else {
        removals(nodes, (n - 1) as nat, ignored) + node_removals(nodes[n - 1], ignored)
    }
}

/// The path of `node` and, before it, the paths below it, unless `node` is
/// ignored.
pub open spec fn node_removals(node: Node, ignored: Seq<Seq<u8>>) -> Seq<Seq<u8>>
    decreases node, 0nat,
{
    if is_ignored(node.path@, ignored) {
        Seq::empty()
    } else {
        match node.item {
            Item::File(contents) => seq![node.path@],
            Item::Dir(entries) => removals(entries, entries.len() as nat, ignored).push(
                node.path@,
            ),
        }
    }
}

/// Parses the text of a tree object into its entries. Fails with
/// `BadFormat` where a line does not hold exactly three fields.
pub fn get_entries(contents: &[u8]) -> (r: Result<Vec<TreeEntry>, Error>)
    ensures
        match r {
            Ok(v) => parse_entries(contents@) == Some(entry_views(v@)),
            Err(e) => e == Error::BadFormat && parse_entries(contents@) is None,
        },
{
    let ls = split_lines(contents);
    let mut out: Vec<TreeEntry> = Vec::new();
    let mut i: usize = 0;
    while i < ls.len()
        invariant
            i <= ls.len(),
            views(ls@) == lines(contents@),
            out@.len() == i,
            forall|k: int|
                0 <= k < i ==> parse_line(#[trigger] lines(contents@)[k]) == Some(
                    entry_view(out@[k]),
                ),
        decreases ls.len() - i,
    {
        let f = split_fields(ls[i].as_slice());
        assert(views(ls@)[i as int] == ls@[i as int]@);
        if f.len() != 3 {
            assert(parse_line(lines(contents@)[i as int]) is None);
            return Err(Error::BadFormat);
        }
        assert(views(f@)[0] == f@[0]@);
        assert(views(f@)[1] == f@[1]@);
        assert(views(f@)[2] == f@[2]@);
        let entry = TreeEntry {
            kind: Kind::from_bytes(f[0].as_slice()),
            id: slice_to_vec(f[1].as_slice()),
            path: slice_to_vec(f[2].as_slice()),
        };
        out.push(entry);
        i += 1;
    }
    assert(parse_entries(contents@)->Some_0 =~= entry_views(out@));
    Ok(out)
}

/// The file that a blob entry stands for: the contents of its object, to be
/// written at its path.
pub fn read_blob(store: &Table, blob: &TreeEntry) -> (r: Result<FileEntry, Error>)
    ensures
        match r {
            Ok(f) => read_blob_spec(store@, blob.id@, blob.path@) == Ok::<
                Seq<(Seq<u8>, Seq<u8>)>,
                Error,
            >(seq![file_view(f)]),
            Err(e) => read_blob_spec(store@, blob.id@, blob.path@) == Err::<
                Seq<(Seq<u8>, Seq<u8>)>,
                Error,
            >(e),
        },
{
    match get(store, blob.id.as_slice()) {
        Err(e) => Err(e),
        Ok(obj) => Ok(FileEntry { path: slice_to_vec(blob.path.as_slice()), contents: obj.contents }),
    }
}

/// Once an entry has failed, the entries after it change nothing.
proof fn lemma_read_error_stays(
    m: Map<Seq<u8>, Seq<u8>>,
    es: Seq<(Kind, Seq<u8>, Seq<u8>)>,
    k: nat,
    n: nat,
    depth: nat,
)
    requires
        k <= n <= es.len(),
    ensures
        read_entries_spec(m, es, k, depth) is Err ==> read_entries_spec(m, es, n, depth)
            == read_entries_spec(m, es, k, depth),
    decreases n,
{
    if k < n {
        lemma_read_error_stays(m, es, k, (n - 1) as nat, depth);
    }
}

/// The files below the tree object `tree`, with at most `depth` trees nested.
fn read_tree_bounded(store: &Table, tree: &[u8], depth: usize) -> (r: Result<
    Vec<FileEntry>,
    Error,
>)
    ensures
        match r {
            Ok(v) => read_tree_spec(store@, tree@, depth as nat) == Ok::<
                Seq<(Seq<u8>, Seq<u8>)>,
                Error,
            >(file_views(v@)),
            Err(e) => read_tree_spec(store@, tree@, depth as nat) == Err::<
                Seq<(Seq<u8>, Seq<u8>)>,
                Error,
            >(e),
        },
    decreases depth,
{
    if depth == 0 {
        return Err(Error::Corrupt);
    }
    let obj = match get(store, tree) {
        Err(e) => { return Err(e); },
        Ok(obj) => obj,
    };
    if obj.kind != Kind::Tree {
        return Err(Error::BadFormat);
    }
    let entries = match get_entries(obj.contents.as_slice()) {
        Err(e) => { return Err(e); },
        Ok(entries) => entries,
    };
    let ghost es = entry_views(entries@);
    let ghost below = (depth - 1) as nat;
    let mut out: Vec<FileEntry> = Vec::new();
    let mut i: usize = 0;
    assert(file_views(out@) =~= Seq::<(Seq<u8>, Seq<u8>)>::empty());
    while i < entries.len()
        invariant
            i <= entries.len(),
            depth > 0,
            below == depth - 1,
            es == entry_views(entries@),
            read_tree_spec(store@, tree@, depth as nat) == read_entries_spec(
                store@,
                es,
                es.len(),
                below,
            ),
            read_entries_spec(store@, es, i as nat, below) == Ok::<
                Seq<(Seq<u8>, Seq<u8>)>,
                Error,
            >(file_views(out@)),
        decreases entries.len() - i,
    {
        let entry = &entries[i];
        assert(es[i as int] == entry_view(*entry));
        let ghost before = out@;
        proof {
            lemma_read_error_stays(store@, es, (i + 1) as nat, es.len(), below);
        }
        match entry.kind {
            Kind::Tree => {
                let mut more = match read_tree_bounded(store, entry.id.as_slice(), depth - 1) {
                    Err(e) => { return Err(e); },
                    Ok(more) => more,
                };
                let ghost found = more@;
                out.append(&mut more);
                assert(file_views(out@) =~= file_views(before) + file_views(found));
            },
            Kind::Blob => {
                let file = match read_blob(store, entry) {
                    Err(e) => { return Err(e); },
                    Ok(file) => file,
                };
                out.push(file);
                assert(file_views(out@) =~= file_views(before) + seq![file_view(file)]);
            },
            _ => {
                return Err(Error::BadFormat);
            },
        }
        i += 1;
    }
    Ok(out)
}

/// The files that the snapshot `tree` holds, in the order of its lines, each
/// directory's files where its line stands. Nothing is handed out unless the
/// whole snapshot could be read: a missing object gives `NotFound`; an object
/// that is no tree where one is expected, a line without exactly three
/// fields or an entry that is neither blob nor tree gives `BadFormat`; trees
/// nested deeper than `MAX_TREE_DEPTH` give `Corrupt`.
pub fn traverse_read_tree(store: &Table, tree: &[u8]) -> (r: Result<Vec<FileEntry>, Error>)
    ensures
        match r {
            Ok(v) => read_tree_spec(store@, tree@, MAX_TREE_DEPTH as nat) == Ok::<
                Seq<(Seq<u8>, Seq<u8>)>,
                Error,
            >(file_views(v@)),
            Err(e) => read_tree_spec(store@, tree@, MAX_TREE_DEPTH as nat) == Err::<
                Seq<(Seq<u8>, Seq<u8>)>,
                Error,
            >(e),
        },
{
    read_tree_bounded(store, tree, MAX_TREE_DEPTH)
}

/// What a checkout removes from a directory that lists `nodes`: every file
/// and every directory but for what is ignored, each directory after what
/// stands in it.
pub fn empty_directory(nodes: &Vec<Node>, ignored: &Vec<Vec<u8>>) -> (r: Vec<Vec<u8>>)
    ensures
        views(r@) == removals(*nodes, nodes.len() as nat, views(ignored@)),
    decreases *nodes,
{
    let mut out: Vec<Vec<u8>> = Vec::new();
    let mut i: usize = 0;
    assert(views(out@) =~= Seq::<Seq<u8>>::empty());
    while i < nodes.len()
        invariant
            i <= nodes.len(),
            views(out@) == removals(*nodes, i as nat, views(ignored@)),
        decreases nodes.len() - i,
    {
        let node = &nodes[i];
        let ghost before = out@;
        proof {
            let ig = views(ignored@);
            assert(nodes[i as int] == *node);
            assert(removals(*nodes, (i + 1) as nat, ig) == removals(*nodes, i as nat, ig)
                + node_removals(*node, ig));
        }
        if !should_be_ignored(node.path.as_slice(), ignored) {
            match &node.item {
                Item::File(contents) => {
                    let path = slice_to_vec(node.path.as_slice());
                    out.push(path);
                    assert(views(out@) =~= views(before) + seq![node.path@]);
                },
                Item::Dir(entries) => {
                    let mut below = empty_directory(entries, ignored);
                    let ghost found = below@;
                    out.append(&mut below);
                    let path = slice_to_vec(node.path.as_slice());
                    out.push(path);
                    assert(views(out@) =~= views(before) + views(found).push(node.path@));
                },
            }
        } else {
            assert(views(out@) + Seq::<Seq<u8>>::empty() =~= views(out@));
        }
        i += 1;
    }
    out
}

/// Plans the checkout of the snapshot `tree` into a working tree that lists
/// `nodes`: every file and directory that is not ignored is removed, then
/// the files of the snapshot are written. Where the snapshot cannot be read there is no plan,
/// and the working tree stays as it is.
pub fn read_tree(store: &Table, nodes: &Vec<Node>, ignored: &Vec<Vec<u8>>, tree: &[u8]) -> (r:
    Result<Checkout, Error>)
    ensures
        match r {
            Ok(plan) => read_tree_spec(store@, tree@, MAX_TREE_DEPTH as nat) == Ok::<
                Seq<(Seq<u8>, Seq<u8>)>,
                Error,
            >(file_views(plan.write@)) && views(plan.remove@) == removals(
                *nodes,
                nodes.len() as nat,
                views(ignored@),
            ),
            Err(e) => read_tree_spec(store@, tree@, MAX_TREE_DEPTH as nat) == Err::<
                Seq<(Seq<u8>, Seq<u8>)>,
                Error,
            >(e),
        },
{
    let write = match traverse_read_tree(store, tree) {
        Err(e) => { return Err(e); },
        Ok(write) => write,
    };
    let remove = empty_directory(nodes, ignored);
    Ok(Checkout { remove, write })
}

/// A tree object with a line that does not hold exactly three fields cannot
/// be read, whatever its other lines hold: no file is handed out.
pub proof fn lemma_malformed_tree_fails(
    m: Map<Seq<u8>, Seq<u8>>,
    id: Seq<u8>,
    text: Seq<u8>,
    depth: nat,
    i: int,
)
    requires
        depth > 0,
        fetch(m, id) == Ok::<(Kind, Seq<u8>), Error>((Kind::Tree, text)),
        0 <= i < lines(text).len(),
        fields(lines(text)[i]).len() != 3,
    ensures
        read_tree_spec(m, id, depth) == Err::<Seq<(Seq<u8>, Seq<u8>)>, Error>(Error::BadFormat),
{
    assert(parse_line(lines(text)[i]) is None);
}

/// The text of a tree object, as `tree_text` lays it out, holds the entries
/// that it was made of, where paths and ids are tokens.
proof fn lemma_tree_text_parses(nodes: Vec<Node>, n: nat, ignored: Seq<Seq<u8>>)
    requires
        n <= nodes.len(),
        paths_are_tokens(nodes, n, ignored),
        ids_are_digests(nodes, n, ignored),
    ensures
        ({
            let text = tree_text(nodes, n, ignored);
            let es = entries_below(nodes, n, ignored);
            &&& text.len() > 0 ==> text[text.len() - 1] == 10
            &&& lines(text).len() == es.len()
            &&& forall|i: int| 0 <= i < es.len() ==> parse_line(#[trigger] lines(text)[i]) == Some(es[i])
        }),
    decreases n,
{
    if n > 0 {
        let before = tree_text(nodes, (n - 1) as nat, ignored);
        let node = nodes[n - 1];
        lemma_tree_text_parses(nodes, (n - 1) as nat, ignored);
        assert(node_ids_are_digests(node, ignored));
        assert(node_paths_are_tokens(node, ignored));
        assert(tree_text(nodes, n, ignored) == before + node_line(node, ignored));
        if is_ignored(node.path@, ignored) {
            assert(before + Seq::<u8>::empty() =~= before);
        } else {
            let e = node_entry(node, ignored);
            let tag = kind_name(e.0);
            lemma_kind_name(e.0);
            lemma_digest_is_token(e.1);
            let body = tag + seq![32u8] + e.1 + seq![32u8] + e.2;
            assert(node_line(node, ignored) =~= body + seq![10u8]);
            assert forall|k: int| 0 <= k < body.len() implies #[trigger] body[k] != 10 by {
                let a = tag.len() as int;
                let b = a + 1 + e.1.len();
                if k < a {
                    assert(body[k] == tag[k]);
                    assert(!is_space(tag[k]));
                } else if k == a {
                } else if k < b {
                    assert(body[k] == e.1[k - a - 1]);
                    assert(!is_space(e.1[k - a - 1]));
                } else if k == b {
                } else {
                    assert(body[k] == e.2[k - b - 1]);
                    assert(!is_space(e.2[k - b - 1]));
                }
            }
            lemma_lines_push(before, body);
            lemma_fields_three(tag, e.1, e.2);
            let text = tree_text(nodes, n, ignored);
            let es = entries_below(nodes, n, ignored);
            assert(text == before + (body + seq![10u8]));
            assert(parse_line(body) == Some(e));
            assert forall|i: int| 0 <= i < es.len() implies parse_line(#[trigger] lines(text)[i])
                == Some(es[i]) by {
                if i < es.len() - 1 {
                    assert(lines(text)[i] == lines(before)[i]);
                    assert(es[i] == entries_below(nodes, (n - 1) as nat, ignored)[i]);
                }
            }
        }
    } else {
        assert(lines(Seq::<u8>::empty()) =~= Seq::<Seq<u8>>::empty());
    }
}

/// What the first `n` entries give does not depend on the entries after them.
proof fn lemma_read_entries_prefix(
    m: Map<Seq<u8>, Seq<u8>>,
    es: Seq<(Kind, Seq<u8>, Seq<u8>)>,
    last: (Kind, Seq<u8>, Seq<u8>),
    n: nat,
    depth: nat,
)
    requires
        n <= es.len(),
    ensures
        read_entries_spec(m, es.push(last), n, depth) == read_entries_spec(m, es, n, depth),
    decreases n,
{
    if n > 0 {
        lemma_read_entries_prefix(m, es, last, (n - 1) as nat, depth);
        assert(es.push(last)[n - 1] == es[n - 1]);
    }
}

/// Reading the entries for the first `n` of `nodes` gives their files.
proof fn lemma_entries_read_back(
    m: Map<Seq<u8>, Seq<u8>>,
    nodes: Vec<Node>,
    n: nat,
    ignored: Seq<Seq<u8>>,
    depth: nat,
)
    requires
        n <= nodes.len(),
        paths_are_tokens(nodes, n, ignored),
        ids_are_digests(nodes, n, ignored),
        holds_below(m, nodes, n, ignored),
        nesting(nodes, n, ignored) <= depth,
    ensures
        read_entries_spec(
            m,
            entries_below(nodes, n, ignored),
            entries_below(nodes, n, ignored).len(),
            depth,
        ) == Ok::<Seq<(Seq<u8>, Seq<u8>)>, Error>(files_below(nodes, n, ignored)),
    decreases nodes, n,
{
    if n > 0 {
        let node = nodes[n - 1];
        let before = entries_below(nodes, (n - 1) as nat, ignored);
        assert(node_ids_are_digests(node, ignored));
        assert(node_paths_are_tokens(node, ignored));
        assert(holds_node(m, node, ignored));
        assert(node_nesting(node, ignored) <= depth);
        assert(nesting(nodes, (n - 1) as nat, ignored) <= depth);
        assert(files_below(nodes, n, ignored) == files_below(nodes, (n - 1) as nat, ignored)
            + node_files(node, ignored));
        lemma_entries_read_back(m, nodes, (n - 1) as nat, ignored, depth);
        if is_ignored(node.path@, ignored) {
            assert(files_below(nodes, (n - 1) as nat, ignored) + Seq::<(Seq<u8>, Seq<u8>)>::empty()
                =~= files_below(nodes, (n - 1) as nat, ignored));
        } else {
            let e = node_entry(node, ignored);
            let es = before.push(e);
            lemma_read_entries_prefix(m, before, e, before.len(), depth);
            assert(es[es.len() - 1] == e);
            match node.item {
                Item::File(contents) => {
                    lemma_record_parses(Kind::Blob, contents@);
                    assert(read_blob_spec(m, e.1, e.2) == Ok::<Seq<(Seq<u8>, Seq<u8>)>, Error>(
                        seq![(node.path@, contents@)],
                    ));
                },
                Item::Dir(entries) => {
                    assert(holds_snapshot(m, entries, ignored));
                    lemma_snapshot_reads_back(m, entries, ignored, depth);
                },
            }
        }
    }
}

/// Reading the snapshot of a directory from a store that holds its objects
/// gives the files of the directory: each file that is not ignored, with its
/// path and what it holds, in the order of the listing.
pub proof fn lemma_snapshot_reads_back(
    m: Map<Seq<u8>, Seq<u8>>,
    nodes: Vec<Node>,
    ignored: Seq<Seq<u8>>,
    depth: nat,
)
    requires
        paths_are_tokens(nodes, nodes.len() as nat, ignored),
        ids_are_digests(nodes, nodes.len() as nat, ignored),
        holds_snapshot(m, nodes, ignored),
        nesting(nodes, nodes.len() as nat, ignored) < depth,
    ensures
        read_tree_spec(m, snapshot_id(nodes, ignored), depth) == Ok::<
            Seq<(Seq<u8>, Seq<u8>)>,
            Error,
        >(files_below(nodes, nodes.len() as nat, ignored)),
    decreases nodes, nodes.len() + 1,
{
    let n = nodes.len() as nat;
    let text = tree_text(nodes, n, ignored);
    let es = entries_below(nodes, n, ignored);
    lemma_record_parses(Kind::Tree, text);
    lemma_tree_text_parses(nodes, n, ignored);
    assert(parse_entries(text)->Some_0 =~= es);
    lemma_entries_read_back(m, nodes, n, ignored, (depth - 1) as nat);
}

/// A store that holds all that another holds, holds the objects below the
/// first `n` of `nodes` if the other does.
proof fn lemma_holds_below_extended(
    m: Map<Seq<u8>, Seq<u8>>,
    after: Map<Seq<u8>, Seq<u8>>,
    nodes: Vec<Node>,
    n: nat,
    ignored: Seq<Seq<u8>>,
)
    requires
        n <= nodes.len(),
        extends(after, m),
        holds_below(m, nodes, n, ignored),
    ensures
        holds_below(after, nodes, n, ignored),
    decreases nodes, n,
{
    if n > 0 {
        let node = nodes[n - 1];
        assert(holds_node(m, node, ignored));
        lemma_holds_below_extended(m, after, nodes, (n - 1) as nat, ignored);
        if !is_ignored(node.path@, ignored) {
            match node.item {
                Item::File(contents) => {
                    assert(m.contains_key(object_id(Kind::Blob, contents@)));
                },
                Item::Dir(entries) => {
                    assert(holds_snapshot(m, entries, ignored));
                    let text = tree_text(entries, entries.len() as nat, ignored);
                    assert(m.contains_key(object_id(Kind::Tree, text)));
                    lemma_holds_below_extended(
                        m,
                        after,
                        entries,
                        entries.len() as nat,
                        ignored,
                    );
                    assert(holds_snapshot(after, entries, ignored));
                },
            }
        }
        assert(holds_node(after, node, ignored));
    }
}

/// Where none of the writes for the first `n` of `nodes` replaces another
/// object, the store holds afterwards all that it held, and the objects
/// below these nodes.
proof fn lemma_writes_held_below(
    m: Map<Seq<u8>, Seq<u8>>,
    nodes: Vec<Node>,
    n: nat,
    ignored: Seq<Seq<u8>>,
)
    requires
        n <= nodes.len(),
        writes_keep_below(m, nodes, n, ignored),
    ensures
        extends(written_below(m, nodes, n, ignored), m),
        holds_below(written_below(m, nodes, n, ignored), nodes, n, ignored),
    decreases nodes, n,
{
    if n > 0 {
        let node = nodes[n - 1];
        let before = written_below(m, nodes, (n - 1) as nat, ignored);
        let after = written_below(m, nodes, n, ignored);
        assert(after == written_node(before, node, ignored));
        assert(writes_keep_node(before, node, ignored));
        lemma_writes_held_below(m, nodes, (n - 1) as nat, ignored);
        if !is_ignored(node.path@, ignored) {
            match node.item {
                Item::File(contents) => {
                    assert(after == put(before, Kind::Blob, contents@));
                    assert(extends(after, before));
                    assert(holds(after, Kind::Blob, contents@));
                },
                Item::Dir(entries) => {
                    assert(after == snapshot_store(before, entries, ignored));
                    lemma_writes_held(before, entries, ignored);
                },
            }
        }
        assert(extends(after, before));
        lemma_holds_below_extended(before, after, nodes, (n - 1) as nat, ignored);
        assert(holds_node(after, node, ignored));
    }
}

/// Where none of the writes of a snapshot replaces another object, the store
/// holds afterwards all that it held, and the objects of the snapshot.
pub proof fn lemma_writes_held(m: Map<Seq<u8>, Seq<u8>>, nodes: Vec<Node>, ignored: Seq<Seq<u8>>)
    requires
        writes_keep(m, nodes, ignored),
    ensures
        extends(snapshot_store(m, nodes, ignored), m),
        holds_snapshot(snapshot_store(m, nodes, ignored), nodes, ignored),
    decreases nodes, nodes.len() + 1,
{
    let n = nodes.len() as nat;
    let before = written_below(m, nodes, n, ignored);
    let text = tree_text(nodes, n, ignored);
    let after = snapshot_store(m, nodes, ignored);
    lemma_writes_held_below(m, nodes, n, ignored);
    assert(after == put(before, Kind::Tree, text));
    assert(extends(after, before));
    assert(holds(after, Kind::Tree, text));
    lemma_holds_below_extended(before, after, nodes, n, ignored);
}

/// A store that holds the objects below the first `n` of `nodes` holds, for
/// each of their files at any depth, the blob of what the file holds, under
/// the id that these contents alone decide: files that hold the same share
/// one record.
pub proof fn lemma_files_are_held(
    m: Map<Seq<u8>, Seq<u8>>,
    nodes: Vec<Node>,
    n: nat,
    ignored: Seq<Seq<u8>>,
    i: int,
)
    requires
        n <= nodes.len(),
        holds_below(m, nodes, n, ignored),
        0 <= i < files_below(nodes, n, ignored).len(),
    ensures
        holds(m, Kind::Blob, files_below(nodes, n, ignored)[i].1),
    decreases nodes, n,
{
    if n > 0 {
        let node = nodes[n - 1];
        let before = files_below(nodes, (n - 1) as nat, ignored);
        assert(files_below(nodes, n, ignored) == before + node_files(node, ignored));
        assert(holds_node(m, node, ignored));
        if i < before.len() {
            lemma_files_are_held(m, nodes, (n - 1) as nat, ignored, i);
        } else {
            match node.item {
                Item::File(contents) => {},
                Item::Dir(entries) => {
                    assert(holds_snapshot(m, entries, ignored));
                    lemma_files_are_held(
                        m,
                        entries,
                        entries.len() as nat,
                        ignored,
                        i - before.len(),
                    );
                },
            }
        }
    }
}

/// Two files that hold the same stand in their trees under the same blob id.
pub proof fn lemma_equal_files_share_blob(a: Node, b: Node, ignored: Seq<Seq<u8>>)
    requires
        a.item is File,
        b.item is File,
        a.item->File_0@ == b.item->File_0@,
    ensures
        node_entry(a, ignored).1 == node_entry(b, ignored).1,
{
}

} // verus!
