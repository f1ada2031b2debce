//! References, commits and the chain that commits form through their parents.
use crate::digest::is_digest;
use crate::digest::lemma_digest_is_token;
use crate::object::fetch;
use crate::object::get;
use crate::object::hash_contents;
use crate::object::lemma_record_parses;
use crate::object::object_id;
use crate::object::extends;
use crate::object::put;
use crate::object::put_keeps;
use crate::object::Error;
use crate::object::Kind;
use crate::table::lemma_prefix_of_prefix;
use crate::table::Table;
use crate::text::append;
use crate::text::bytes_eq;
use crate::text::fields;
use crate::text::is_space;
use crate::text::is_token;
use crate::text::lemma_fields_two;
use crate::text::lemma_line_end_is;
use crate::text::line_end;
use crate::text::split_fields;
use crate::text::views;
use crate::tree::file_views;
use crate::tree::read_tree;
use crate::tree::read_tree_spec;
use crate::tree::removals;
use crate::tree::snapshot_id;
use crate::tree::snapshot_store;
use crate::tree::traverse_write_tree;
use crate::tree::writes_keep;
use crate::tree::Checkout;
use crate::tree::Node;
use crate::tree::MAX_TREE_DEPTH;
use vstd::prelude::*;
use vstd::slice::slice_subrange;
use vstd::slice::slice_to_vec;

verus! {

/// A repository: its objects, its references and the names that snapshots
/// and checkouts pass over.
pub struct Repository {
    pub objects: Table,
    pub refs: Table,
    pub ignored: Vec<Vec<u8>>,
}

/// A commit read from the store.
#[derive(Debug)]
pub struct Commit {
    pub id: Vec<u8>,
    pub tree: Vec<u8>,
    pub parent: Option<Vec<u8>>,
    pub contents: Vec<u8>,
}

/// A commit as plain values.
pub ghost struct CommitView {
    pub id: Seq<u8>,
    pub tree: Seq<u8>,
    pub parent: Option<Seq<u8>>,
    pub contents: Seq<u8>,
}

impl View for Commit {
    type V = CommitView;

    open spec fn view(&self) -> CommitView {
        CommitView {
            id: self.id@,
            tree: self.tree@,
            parent: match self.parent {
                Some(p) => Some(p@),
                None => None,
            },
            contents: self.contents@,
        }
    }
}

/// `HEAD`, the reference to the commit that is checked out.
pub open spec fn head_name() -> Seq<u8> {
    seq![72u8, 69u8, 65u8, 68u8]
}

/// `refs/`.
pub open spec fn refs_prefix() -> Seq<u8> {
    seq![114u8, 101u8, 102u8, 115u8, 47u8]
}

/// `refs/tags/`.
pub open spec fn tags_prefix() -> Seq<u8> {
    refs_prefix() + seq![116u8, 97u8, 103u8, 115u8, 47u8]
}

/// `refs/heads/`.
pub open spec fn heads_prefix() -> Seq<u8> {
    refs_prefix() + seq![104u8, 101u8, 97u8, 100u8, 115u8, 47u8]
}

/// The key `tree` of a commit's first line.
pub open spec fn tree_key() -> Seq<u8> {
    seq![116u8, 114u8, 101u8, 101u8]
}

/// The key `parent` of a commit's second line.
pub open spec fn parent_key() -> Seq<u8> {
    seq![112u8, 97u8, 114u8, 101u8, 110u8, 116u8]
}

/// What the reference `name` holds; empty where there is no such reference.
pub open spec fn ref_value(refs: Map<Seq<u8>, Seq<u8>>, name: Seq<u8>) -> Seq<u8> {
    if refs.contains_key(name) {
        refs[name]
    } else {
        Seq::empty()
    }
}

/// The id that `name` stands for: what the first reference holds that exists
/// among `name`, `refs/name`, `refs/tags/name` and `refs/heads/name`; `name`
/// itself where none exists.
pub open spec fn resolve(refs: Map<Seq<u8>, Seq<u8>>, name: Seq<u8>) -> Seq<u8> {
    if refs.contains_key(name) {
        refs[name]
    } else if refs.contains_key(refs_prefix() + name) {
        refs[refs_prefix() + name]
    } else if refs.contains_key(tags_prefix() + name) {
        refs[tags_prefix() + name]
    } else if refs.contains_key(heads_prefix() + name) {
        refs[heads_prefix() + name]
    } else {
        name
    }
}

/// The contents of a commit object: the line `tree <id>`, the line
/// `parent <id>` unless `parent` is empty, an empty line, the message.
pub open spec fn commit_text(tree: Seq<u8>, parent: Seq<u8>, message: Seq<u8>) -> Seq<u8> {
    let first = tree_key() + seq![32u8] + tree + seq![10u8];
    let second = if parent.len() == 0 {
        Seq::empty()
    } else {
        parent_key() + seq![32u8] + parent + seq![10u8]
    };
    first + second + seq![10u8] + message
}

/// The value of a header line with this key: the second of its two fields.
pub open spec fn parse_header(line: Seq<u8>, key: Seq<u8>) -> Option<Seq<u8>> {
    let f = fields(line);
    if f.len() == 2 && f[0] == key {
        Some(f[1])
    } else {
        None
    }
}

/// Where the line after the one that ends at `e` starts.
pub open spec fn next_line(text: Seq<u8>, e: int) -> int {
    if e < text.len() {
        e + 1
    } else {
        e
    }
}

/// The tree, the parent and the message that the contents of a commit hold.
/// The first line must be `tree <id>`. The second, if it is `parent <id>`,
/// names the parent, and the line after it is passed over; if it is not, it
/// is passed over itself. What follows is the message.
pub open spec fn parse_commit(text: Seq<u8>) -> Option<(Seq<u8>, Option<Seq<u8>>, Seq<u8>)> {
    let e1 = line_end(text, 0);
    match parse_header(text.subrange(0, e1), tree_key()) {
        None => None,
        Some(tree) => {
            let s2 = next_line(text, e1);
            let e2 = line_end(text, s2);
            let s3 = next_line(text, e2);
            match parse_header(text.subrange(s2, e2), parent_key()) {
                None => Some((tree, None, text.subrange(s3, text.len() as int))),
                Some(parent) => {
                    let e3 = line_end(text, s3);
                    let s4 = next_line(text, e3);
                    Some((tree, Some(parent), text.subrange(s4, text.len() as int)))
                },
            }
        },
    }
}

/// What reading the commit `id` from the store `m` gives.
pub open spec fn commit_at(m: Map<Seq<u8>, Seq<u8>>, id: Seq<u8>) -> Result<CommitView, Error> {
    match fetch(m, id) {
        Err(e) => Err(e),
        Ok(found) => if found.0 != Kind::Commit {
            Err(Error::BadFormat)
        } else {
            match parse_commit(found.1) {
                None => Err(Error::BadFormat),
                Some(parts) => Ok(
                    (CommitView { id: id, tree: parts.0, parent: parts.1, contents: parts.2 }),
                ),
            }
        },
    }
}

/// The contents of a commit, as `commit_text` lays them out, hold the tree,
/// the parent and the message that they were made of.
pub proof fn lemma_commit_text_parses(tree: Seq<u8>, parent: Seq<u8>, message: Seq<u8>)
    requires
        is_token(tree),
        parent.len() == 0 || is_token(parent),
    ensures
        parse_commit(commit_text(tree, parent, message)) == Some(
            (
                tree,
                if parent.len() == 0 {
                    None
                } else {
                    Some(parent)
                },
                message,
            ),
        ),
{
    let text = commit_text(tree, parent, message);
    let e1: int = (tree_key().len() + 1 + tree.len()) as int;
    assert(is_token(tree_key()));
    assert(is_token(parent_key()));
    assert forall|k: int| 0 <= k < e1 implies #[trigger] text[k] != 10 by {
        if k < 4 {
            assert(text[k] == tree_key()[k]);
        } else if k == 4 {
            assert(text[k] == 32u8);
        } else {
            assert(text[k] == tree[k - 5]);
            assert(!is_space(tree[k - 5]));
        }
    }
    assert(text[e1] == 10u8);
    lemma_line_end_is(text, 0, e1);
    assert(text.subrange(0, e1) =~= tree_key() + seq![32u8] + tree);
    lemma_fields_two(tree_key(), tree);
    let s2: int = e1 + 1;
    if parent.len() == 0 {
        assert(text[s2] == 10u8);
        lemma_line_end_is(text, s2, s2);
        assert(text.subrange(s2, s2) =~= Seq::<u8>::empty());
        assert(fields(Seq::<u8>::empty()) =~= Seq::<Seq<u8>>::empty());
        assert(text.subrange(s2 + 1, text.len() as int) =~= message);
    } else {
        let e2: int = s2 + parent_key().len() + 1 + parent.len();
        assert forall|k: int| s2 <= k < e2 implies #[trigger] text[k] != 10 by {
            if k < s2 + 6 {
                assert(text[k] == parent_key()[k - s2]);
            } else if k == s2 + 6 {
                assert(text[k] == 32u8);
            } else {
                assert(text[k] == parent[k - s2 - 7]);
                assert(!is_space(parent[k - s2 - 7]));
            }
        }
        assert(text[e2] == 10u8);
        lemma_line_end_is(text, s2, e2);
        assert(text.subrange(s2, e2) =~= parent_key() + seq![32u8] + parent);
        lemma_fields_two(parent_key(), parent);
        let s3: int = e2 + 1;
        assert(text[s3] == 10u8);
        lemma_line_end_is(text, s3, s3);
        assert(text.subrange(s3 + 1, text.len() as int) =~= message);
    }
}

fn head_bytes() -> (r: Vec<u8>)
    ensures
        r@ == head_name(),
{
    let r: Vec<u8> = vec![72u8, 69u8, 65u8, 68u8];
    assert(r@ =~= head_name());
    r
}

fn refs_bytes() -> (r: Vec<u8>)
    ensures
        r@ == refs_prefix(),
{
    let r: Vec<u8> = vec![114u8, 101u8, 102u8, 115u8, 47u8];
    assert(r@ =~= refs_prefix());
    r
}

fn tags_bytes() -> (r: Vec<u8>)
    ensures
        r@ == tags_prefix(),
{
    let r: Vec<u8> = vec![114u8, 101u8, 102u8, 115u8, 47u8, 116u8, 97u8, 103u8, 115u8, 47u8];
    assert(r@ =~= tags_prefix());
    r
}

fn heads_bytes() -> (r: Vec<u8>)
    ensures
        r@ == heads_prefix(),
{
    let r: Vec<u8> = vec![
        114u8,
        101u8,
        102u8,
        115u8,
        47u8,
        104u8,
        101u8,
        97u8,
        100u8,
        115u8,
        47u8,
    ];
    assert(r@ =~= heads_prefix());
    r
}

fn tree_key_bytes() -> (r: Vec<u8>)
    ensures
        r@ == tree_key(),
{
    let r: Vec<u8> = vec![116u8, 114u8, 101u8, 101u8];
    assert(r@ =~= tree_key());
    r
}

fn parent_key_bytes() -> (r: Vec<u8>)
    ensures
        r@ == parent_key(),
{
    let r: Vec<u8> = vec![112u8, 97u8, 114u8, 101u8, 110u8, 116u8];
    assert(r@ =~= parent_key());
    r
}

/// What the reference `name` holds; empty where there is no such reference.
pub fn get_ref(refs: &Table, name: &[u8]) -> (r: Vec<u8>)
    ensures
        r@ == ref_value(refs@, name@),
{
    match refs.lookup(name) {
        Some(v) => slice_to_vec(v.as_slice()),
        None => Vec::new(),
    }
}

/// Makes the reference `name` hold `id`, whether it was there or not.
pub fn update_ref(refs: &mut Table, name: &[u8], id: &[u8])
    ensures
        final(refs)@ == old(refs)@.insert(name@, id@),
        old(refs).slots().is_prefix_of(final(refs).slots()),
{
    refs.insert(slice_to_vec(name), slice_to_vec(id));
}

/// The id that `name` stands for: a reference is preferred to taking `name`
/// for an id.
pub fn ref_to_oid(refs: &Table, name: &[u8]) -> (r: Vec<u8>)
    ensures
        r@ == resolve(refs@, name@),
{
    if refs.contains(name) {
        return get_ref(refs, name);
    }
    let mut path = refs_bytes();
    append(&mut path, name);
    if refs.contains(path.as_slice()) {
        return get_ref(refs, path.as_slice());
    }
    let mut path = tags_bytes();
    append(&mut path, name);
    if refs.contains(path.as_slice()) {
        return get_ref(refs, path.as_slice());
    }
    let mut path = heads_bytes();
    append(&mut path, name);
    if refs.contains(path.as_slice()) {
        return get_ref(refs, path.as_slice());
    }
    slice_to_vec(name)
}

/// Makes the tag `name` hold `id`.
pub fn create_tag(refs: &mut Table, name: &[u8], id: &[u8])
    ensures
        final(refs)@ == old(refs)@.insert(tags_prefix() + name@, id@),
        old(refs).slots().is_prefix_of(final(refs).slots()),
{
    let mut path = tags_bytes();
    append(&mut path, name);
    update_ref(refs, path.as_slice(), id);
}

/// The value of a header line with this key, if `element` is such a line.
pub fn parse_header_element(element: Option<&[u8]>, key: &[u8]) -> (r: Option<Vec<u8>>)
    ensures
        match element {
            Some(line) => match r {
                Some(v) => parse_header(line@, key@) == Some(v@),
                None => parse_header(line@, key@) is None,
            },
            None => r is None,
        },
{
    match element {
        Some(line) => {
            let f = split_fields(line);
            if f.len() == 2 && bytes_eq(f[0].as_slice(), key) {
                assert(views(f@)[0] == f@[0]@);
                assert(views(f@)[1] == f@[1]@);
                Some(slice_to_vec(f[1].as_slice()))
            } else {
                proof {
                    if f.len() == 2 {
                        assert(views(f@)[0] == f@[0]@);
                    }
                }
                None
            }
        },
        None => None,
    }
}

/// The index of the first line feed at or after `start`, or the length.
fn find_line_end(text: &[u8], start: usize) -> (e: usize)
    requires
        start <= text@.len(),
    ensures
        e == line_end(text@, start as int),
        start <= e <= text@.len(),
{
    let mut e: usize = start;
    while e < text.len() && text[e] != 10
        invariant
            start <= e <= text@.len(),
            line_end(text@, start as int) == line_end(text@, e as int),
        decreases text.len() - e,
    {
        e += 1;
    }
    e
}

/// Where the line after the one that ends at `e` starts.
fn after_line(text: &[u8], e: usize) -> (s: usize)
    requires
        e <= text@.len(),
    ensures
        s == next_line(text@, e as int),
        e <= s <= text@.len(),
{
    if e < text.len() {
        e + 1
    } else {
        e
    }
}

/// Reads the commit `id`. Fails with `NotFound` where no object has this id,
/// and with `BadFormat` where the object is no commit or its first line is
/// not `tree <id>`.
pub fn get_commit(store: &Table, id: &[u8]) -> (r: Result<Commit, Error>)
    ensures
        match r {
            Ok(c) => commit_at(store@, id@) == Ok::<CommitView, Error>(c@),
            Err(e) => commit_at(store@, id@) == Err::<CommitView, Error>(e),
        },
{
    let obj = match get(store, id) {
        Err(e) => { return Err(e); },
        Ok(obj) => obj,
    };
    if obj.kind != Kind::Commit {
        return Err(Error::BadFormat);
    }
    let text = obj.contents.as_slice();
    let e1 = find_line_end(text, 0);
    let tree_key = tree_key_bytes();
    let tree = match parse_header_element(Some(slice_subrange(text, 0, e1)), tree_key.as_slice()) {
        None => { return Err(Error::BadFormat); },
        Some(tree) => tree,
    };
    let s2 = after_line(text, e1);
    let e2 = find_line_end(text, s2);
    let s3 = after_line(text, e2);
    let parent_key = parent_key_bytes();
    let parent = parse_header_element(Some(slice_subrange(text, s2, e2)), parent_key.as_slice());
    let start = if parent.is_some() {
        let e3 = find_line_end(text, s3);
        after_line(text, e3)
    } else {
        s3
    };
    let contents = slice_to_vec(slice_subrange(text, start, text.len()));
    Ok(Commit { id: slice_to_vec(id), tree, parent, contents })
}

impl Commit {
    /// A cursor that stands before the commit `from`: it holds nothing but
    /// `from` as its parent, so that the next step reads `from`.
    pub fn iter_as_parent(from: &[u8]) -> (r: Commit)
        ensures
            r@ == (CommitView {
                id: Seq::empty(),
                tree: Seq::empty(),
                parent: Some(from@),
                contents: Seq::empty(),
            }),
    {
        Commit {
            id: Vec::new(),
            tree: Vec::new(),
            parent: Some(slice_to_vec(from)),
            contents: Vec::new(),
        }
    }

    /// A copy of this commit.
    pub fn duplicate(&self) -> (r: Commit)
        ensures
            r@ == self@,
    {
        let parent = match &self.parent {
            Some(p) => Some(slice_to_vec(p.as_slice())),
            None => None,
        };
        Commit {
            id: slice_to_vec(self.id.as_slice()),
            tree: slice_to_vec(self.tree.as_slice()),
            parent,
            contents: slice_to_vec(self.contents.as_slice()),
        }
    }

    /// One step back along the chain. Where this commit has no parent, there
    /// is no step and nothing changes. Else the parent is read: it becomes
    /// this commit and is handed out; where it cannot be read, the failure is
    /// handed out and the chain ends here.
    pub fn next(&mut self, store: &Table) -> (r: Option<Result<Commit, Error>>)
        ensures
            final(self)@ == stepped(store@, old(self)@),
            match old(self)@.parent {
                None => r is None && final(self)@ == old(self)@,
                Some(p) => match commit_at(store@, p) {
                    Ok(c) => final(self)@ == c && match r {
                        Some(Ok(given)) => given@ == c,
                        _ => false,
                    },
                    Err(e) => r == Some(Err::<Commit, Error>(e)) && final(self)@ == (CommitView {
                        parent: None,
                        ..old(self)@
                    }),
                },
            },
    {
        let found = match &self.parent {
            None => { return None; },
            Some(p) => get_commit(store, p.as_slice()),
        };
        match found {
            Ok(commit) => {
                let given = commit.duplicate();
                *self = commit;
                Some(Ok(given))
            },
            Err(e) => {
                self.parent = None;
                Some(Err(e))
            },
        }
    }
}

/// Records the working tree that lists `nodes` as a new commit with this
/// message: writes its snapshot, then a commit object that names the
/// snapshot and, unless `HEAD` is empty, the commit that `HEAD` holds as the
/// parent, and makes `HEAD` hold the new commit, whose id is returned.
pub fn commit(repo: &mut Repository, nodes: &Vec<Node>, message: &[u8]) -> (id: Vec<u8>)
    ensures
        id@ == object_id(
            Kind::Commit,
            commit_text(
                snapshot_id(*nodes, views(old(repo).ignored@)),
                ref_value(old(repo).refs@, head_name()),
                message@,
            ),
        ),
        is_digest(id@),
        final(repo).objects@ == put(
            snapshot_store(old(repo).objects@, *nodes, views(old(repo).ignored@)),
            Kind::Commit,
            commit_text(
                snapshot_id(*nodes, views(old(repo).ignored@)),
                ref_value(old(repo).refs@, head_name()),
                message@,
            ),
        ),
        final(repo).refs@ == old(repo).refs@.insert(head_name(), id@),
        final(repo).ignored == old(repo).ignored,
        old(repo).objects.slots().is_prefix_of(final(repo).objects.slots()),
        old(repo).refs.slots().is_prefix_of(final(repo).refs.slots()),
        writes_keep(old(repo).objects@, *nodes, views(old(repo).ignored@)) && put_keeps(
            snapshot_store(old(repo).objects@, *nodes, views(old(repo).ignored@)),
            Kind::Commit,
            commit_text(
                snapshot_id(*nodes, views(old(repo).ignored@)),
                ref_value(old(repo).refs@, head_name()),
                message@,
            ),
        ) ==> extends(final(repo).objects@, old(repo).objects@),
        ({
            let head = ref_value(old(repo).refs@, head_name());
            head.len() == 0 || is_token(head) ==> commit_at(final(repo).objects@, id@) == Ok::<
                CommitView,
                Error,
            >(
                (CommitView {
                    id: id@,
                    tree: snapshot_id(*nodes, views(old(repo).ignored@)),
                    parent: if head.len() == 0 {
                        None
                    } else {
                        Some(head)
                    },
                    contents: message@,
                }),
            )
        }),
{
    let tree = traverse_write_tree(&mut repo.objects, nodes, &repo.ignored);
    let ghost kept = repo.objects.slots();
    let head = head_bytes();
    let parent = get_ref(&repo.refs, head.as_slice());
    let mut text = tree_key_bytes();
    text.push(32u8);
    append(&mut text, tree.as_slice());
    text.push(10u8);
    if parent.len() > 0 {
        let key = parent_key_bytes();
        append(&mut text, key.as_slice());
        text.push(32u8);
        append(&mut text, parent.as_slice());
        text.push(10u8);
    }
    text.push(10u8);
    append(&mut text, message);
    assert(text@ =~= commit_text(tree@, parent@, message@));
    let id = hash_contents(&mut repo.objects, text.as_slice(), Kind::Commit);
    update_ref(&mut repo.refs, head.as_slice(), id.as_slice());
    proof {
        lemma_prefix_of_prefix(old(repo).objects.slots(), kept, repo.objects.slots());
        lemma_record_parses(Kind::Commit, text@);
        if parent@.len() == 0 || is_token(parent@) {
            lemma_digest_is_token(tree@);
            lemma_commit_text_parses(tree@, parent@, message@);
        }
    }
    id
}

/// Plans the checkout of the commit `id` into a working tree that lists
/// `nodes`, and makes `HEAD` hold `id`. Where the commit or its snapshot
/// cannot be read there is no plan, and `HEAD` stays as it is.
pub fn checkout(repo: &mut Repository, nodes: &Vec<Node>, id: &[u8]) -> (r: Result<
    Checkout,
    Error,
>)
    ensures
        final(repo).objects == old(repo).objects,
        final(repo).ignored == old(repo).ignored,
        old(repo).refs.slots().is_prefix_of(final(repo).refs.slots()),
        match commit_at(old(repo).objects@, id@) {
            Err(e) => r == Err::<Checkout, Error>(e) && final(repo).refs@ == old(repo).refs@,
            Ok(c) => match read_tree_spec(old(repo).objects@, c.tree, MAX_TREE_DEPTH as nat) {
                Err(e) => r == Err::<Checkout, Error>(e) && final(repo).refs@ == old(repo).refs@,
                Ok(files) => final(repo).refs@ == old(repo).refs@.insert(head_name(), id@)
                    && match r {
                    Ok(plan) => file_views(plan.write@) == files && views(plan.remove@)
                        == removals(*nodes, nodes.len() as nat, views(old(repo).ignored@)),
                    Err(_) => false,
                },
            },
        },
{
    let commit = match get_commit(&repo.objects, id) {
        Err(e) => { return Err(e); },
        Ok(commit) => commit,
    };
    let plan = match read_tree(&repo.objects, nodes, &repo.ignored, commit.tree.as_slice()) {
        Err(e) => { return Err(e); },
        Ok(plan) => plan,
    };
    let head = head_bytes();
    update_ref(&mut repo.refs, head.as_slice(), id);
    Ok(plan)
}

/// The cursor `cursor` after one step back: the parent, where it has one
/// that can be read; itself without parent, where the parent cannot be read;
/// itself, where it has none.
pub open spec fn stepped(m: Map<Seq<u8>, Seq<u8>>, cursor: CommitView) -> CommitView {
    match cursor.parent {
        None => cursor,
        Some(p) => match commit_at(m, p) {
            Ok(c) => c,
            Err(_) => (CommitView { parent: None, ..cursor }),
        },
    }
}

/// The cursor `cursor` after `k` steps back.
pub open spec fn walked(m: Map<Seq<u8>, Seq<u8>>, cursor: CommitView, k: nat) -> CommitView
    decreases k,
{
    if k == 0 {
        cursor
    } else {
        stepped(m, walked(m, cursor, (k - 1) as nat))
    }
}

/// What walking back from a commit gave: the commits read, the one asked
/// for first; the failure, if the walk ended on one; and the id of the
/// commit that would have been read next, if the walk ended because the
/// limit was used up.
#[derive(Debug)]
pub struct History {
    pub commits: Vec<Commit>,
    pub failure: Option<Error>,
    pub rest: Option<Vec<u8>>,
}

/// The commits of `v` as plain values, in order.
pub open spec fn commit_views(v: Seq<Commit>) -> Seq<CommitView> {
    Seq::new(v.len(), |i: int| v[i]@)
}

/// The ids of the commits `cs`, in order.
pub open spec fn commit_ids(cs: Seq<CommitView>) -> Seq<Seq<u8>> {
    Seq::new(cs.len(), |i: int| cs[i].id)
}

/// The commits that at most `steps` steps back from `from` read, `from`
/// itself first, and the failure on which the walk ended, if it did: the
/// walk ends after a commit without parent, on a commit that cannot be read,
/// or when the steps are used up.
pub open spec fn history_spec(m: Map<Seq<u8>, Seq<u8>>, from: Seq<u8>, steps: nat) -> (
    Seq<CommitView>,
    Option<Error>,
)
    decreases steps,
{
    if steps == 0 {
        (Seq::empty(), None)
    } else {
        match commit_at(m, from) {
            Err(e) => (Seq::empty(), Some(e)),
            Ok(c) => match c.parent {
                None => (seq![c], None),
                Some(p) => {
                    let rest = history_spec(m, p, (steps - 1) as nat);
                    (seq![c] + rest.0, rest.1)
                },
            },
        }
    }
}

/// The id of the commit that a walk of `steps` steps back from `from` would
/// read next, where the walk ends because the steps are used up; none where
/// it ends before.
pub open spec fn history_rest(m: Map<Seq<u8>, Seq<u8>>, from: Seq<u8>, steps: nat) -> Option<
    Seq<u8>,
>
    decreases steps,
{
    if steps == 0 {
        Some(from)
    } else {
        match commit_at(m, from) {
            Err(_) => None,
            Ok(c) => match c.parent {
                None => None,
                Some(p) => history_rest(m, p, (steps - 1) as nat),
            },
        }
    }
}

/// Walks back from the commit `from` through the parents, for at most
/// `limit` commits. A walk that the limit ended says so in `rest`.
pub fn history(store: &Table, from: &[u8], limit: usize) -> (r: History)
    ensures
        (commit_views(r.commits@), r.failure) == history_spec(store@, from@, limit as nat),
        match r.rest {
            Some(id) => history_rest(store@, from@, limit as nat) == Some(id@),
            None => history_rest(store@, from@, limit as nat) is None,
        },
{
    let mut cursor = Commit::iter_as_parent(from);
    let mut commits: Vec<Commit> = Vec::new();
    let mut failure: Option<Error> = None;
    let mut done = false;
    let mut n: usize = 0;
    assert(commit_views(commits@) =~= Seq::<CommitView>::empty());
    assert(Seq::<CommitView>::empty() + history_spec(store@, from@, limit as nat).0
        =~= history_spec(store@, from@, limit as nat).0);
    while n < limit && !done
        invariant
            n <= limit,
            done ==> history_spec(store@, from@, limit as nat) == (
                commit_views(commits@),
                failure,
            ),
            !done ==> match cursor@.parent {
                Some(p) => history_spec(store@, from@, limit as nat) == (
                    commit_views(commits@) + history_spec(store@, p, (limit - n) as nat).0,
                    history_spec(store@, p, (limit - n) as nat).1,
                ),
                None => history_spec(store@, from@, limit as nat) == (
                    commit_views(commits@),
                    None::<Error>,
                ),
            },
            !done ==> failure is None,
            done ==> history_rest(store@, from@, limit as nat) is None,
            !done ==> history_rest(store@, from@, limit as nat) == match cursor@.parent {
                Some(p) => history_rest(store@, p, (limit - n) as nat),
                None => None::<Seq<u8>>,
            },
        decreases (limit - n) + (if done { 0int } else { 1int }),
    {
        let ghost before = commits@;
        let ghost parent = cursor@.parent;
        match cursor.next(store) {
            None => {
                done = true;
            },
            Some(Ok(c)) => {
                proof {
                    let p = parent->Some_0;
                    let rest = history_spec(store@, p, (limit - n) as nat);
                    assert(commit_at(store@, p) == Ok::<CommitView, Error>(c@));
                    match c@.parent {
                        None => {
                            assert(commit_views(before.push(c)) =~= commit_views(before) + rest.0);
                        },
                        Some(q) => {
                            let tail = history_spec(store@, q, (limit - n - 1) as nat);
                            assert(commit_views(before.push(c)) + tail.0 =~= commit_views(before)
                                + rest.0);
                        },
                    }
                }
                commits.push(c);
                n += 1;
            },
            Some(Err(e)) => {
                proof {
                    assert(commit_views(before) + Seq::<CommitView>::empty() =~= commit_views(
                        before,
                    ));
                }
                failure = Some(e);
                done = true;
            },
        }
    }
    proof {
        if !done {
            assert(commit_views(commits@) + Seq::<CommitView>::empty() =~= commit_views(commits@));
        }
    }
    let rest = if done {
        None
    } else {
        cursor.parent
    };
    History { commits, failure, rest }
}

/// Whether the `i`-th commit of `ids` can be read and names the one after
/// it as its parent, or none where it is the last.
pub open spec fn links(m: Map<Seq<u8>, Seq<u8>>, ids: Seq<Seq<u8>>, i: int) -> bool {
    match commit_at(m, ids[i]) {
        Ok(c) => c.parent == if i + 1 < ids.len() {
            Some(ids[i + 1])
        } else {
            None
        },
        Err(_) => false,
    }
}

/// Whether `ids` is a chain of commits in `m`, the newest first: each names
/// the next as its parent, and the last has none.
pub open spec fn is_chain(m: Map<Seq<u8>, Seq<u8>>, ids: Seq<Seq<u8>>) -> bool {
    ids.len() > 0 && forall|i: int| 0 <= i < ids.len() ==> #[trigger] links(m, ids, i)
}

/// Walking back from the newest commit of a chain reads exactly the commits
/// of the chain, in order, and ends after the oldest without a failure.
pub proof fn lemma_history_of_chain(m: Map<Seq<u8>, Seq<u8>>, ids: Seq<Seq<u8>>, steps: nat)
    requires
        is_chain(m, ids),
        steps >= ids.len(),
    ensures
        commit_ids(history_spec(m, ids[0], steps).0) == ids,
        history_spec(m, ids[0], steps).1 is None,
        history_rest(m, ids[0], steps) is None,
    decreases ids.len(),
{
    assert(links(m, ids, 0));
    let c = commit_at(m, ids[0])->Ok_0;
    assert(c.id == ids[0]);
    if ids.len() == 1 {
        assert(commit_ids(seq![c]) =~= ids);
    } else {
        let tail = ids.subrange(1, ids.len() as int);
        assert forall|i: int| 0 <= i < tail.len() implies #[trigger] links(m, tail, i) by {
            assert(links(m, ids, i + 1));
        }
        lemma_history_of_chain(m, tail, (steps - 1) as nat);
        let rest = history_spec(m, tail[0], (steps - 1) as nat);
        let all = seq![c] + rest.0;
        assert(commit_ids(rest.0).len() == tail.len());
        assert(tail[0] == ids[1]);
        assert forall|i: int| 0 <= i < ids.len() implies commit_ids(all)[i] == ids[i] by {
            if i > 0 {
                assert(all[i] == rest.0[i - 1]);
                assert(commit_ids(rest.0)[i - 1] == tail[i - 1]);
            }
        }
        assert(commit_ids(all) =~= ids);
    }
}

/// A commit without parent is a chain of its own.
pub proof fn lemma_chain_starts(m: Map<Seq<u8>, Seq<u8>>, c: Seq<u8>)
    requires
        match commit_at(m, c) {
            Ok(x) => x.parent is None,
            Err(_) => false,
        },
    ensures
        is_chain(m, seq![c]),
{
    assert(links(m, seq![c], 0));
}

/// A new commit that names the newest commit of a chain as its parent makes
/// the chain one longer, provided that the new store holds all that the old
/// one held.
pub proof fn lemma_chain_grows(
    m: Map<Seq<u8>, Seq<u8>>,
    after: Map<Seq<u8>, Seq<u8>>,
    ids: Seq<Seq<u8>>,
    c: Seq<u8>,
)
    requires
        is_chain(m, ids),
        extends(after, m),
        match commit_at(after, c) {
            Ok(x) => x.parent == Some(ids[0]),
            Err(_) => false,
        },
    ensures
        is_chain(after, seq![c] + ids),
{
    let longer = seq![c] + ids;
    assert forall|i: int| 0 <= i < longer.len() implies #[trigger] links(after, longer, i) by {
        if i == 0 {
            assert(longer[1] == ids[0]);
        } else {
            assert(links(m, ids, i - 1));
            assert(longer[i] == ids[i - 1]);
            assert(m.contains_key(ids[i - 1]));
            assert(commit_at(after, ids[i - 1]) == commit_at(m, ids[i - 1]));
            if i + 1 < longer.len() {
                assert(longer[i + 1] == ids[i]);
            }
        }
    }
}

/// A cursor that stands before the newest commit of a chain is, after `k`
/// steps, the `k`-th commit of the chain, for each `k` up to the length of
/// the chain: the steps hand out the commits of the chain in order, each
/// with the next as its parent, and after the oldest there is no step.
pub proof fn lemma_steps_follow_chain(
    m: Map<Seq<u8>, Seq<u8>>,
    ids: Seq<Seq<u8>>,
    start: CommitView,
    k: nat,
)
    requires
        is_chain(m, ids),
        start.parent == Some(ids[0]),
        1 <= k <= ids.len(),
    ensures
        commit_at(m, ids[k - 1]) == Ok::<CommitView, Error>(walked(m, start, k)),
        walked(m, start, k).id == ids[k - 1],
        walked(m, start, k).parent == if k < ids.len() {
            Some(ids[k as int])
        } else {
            None
        },
        k == ids.len() ==> stepped(m, walked(m, start, k)) == walked(m, start, k),
    decreases k,
{
    assert(links(m, ids, k - 1));
    if k > 1 {
        lemma_steps_follow_chain(m, ids, start, (k - 1) as nat);
    }
}

/// After a commit that names the newest commit of a chain as its parent,
/// and that left in the store all that it held, walking back from the new
/// commit reads the new commit and then the chain, in order, and ends after
/// the oldest without a failure.
pub proof fn lemma_commit_extends_history(
    m: Map<Seq<u8>, Seq<u8>>,
    after: Map<Seq<u8>, Seq<u8>>,
    ids: Seq<Seq<u8>>,
    c: Seq<u8>,
    steps: nat,
)
    requires
        is_chain(m, ids),
        extends(after, m),
        match commit_at(after, c) {
            Ok(x) => x.parent == Some(ids[0]),
            Err(_) => false,
        },
        steps > ids.len(),
    ensures
        commit_ids(history_spec(after, c, steps).0) == seq![c] + ids,
        history_spec(after, c, steps).1 is None,
        history_rest(after, c, steps) is None,
{
    lemma_chain_grows(m, after, ids, c);
    lemma_history_of_chain(after, seq![c] + ids, steps);
}

/// While none of `name`, `refs/name`, `refs/tags/name` and `refs/heads/name`
/// is a reference, `name` stands for itself.
pub proof fn lemma_resolve_passes_through(refs: Map<Seq<u8>, Seq<u8>>, name: Seq<u8>)
    requires
        !refs.contains_key(name),
        !refs.contains_key(refs_prefix() + name),
        !refs.contains_key(tags_prefix() + name),
        !refs.contains_key(heads_prefix() + name),
    ensures
        resolve(refs, name) == name,
{
}

/// Once the tag `name` is made, `name` stands for what the tag holds, also
/// where `name` is the id of an object; only a reference `name` or
/// `refs/name` comes before the tag.
pub proof fn lemma_resolve_prefers_tag(refs: Map<Seq<u8>, Seq<u8>>, name: Seq<u8>, id: Seq<u8>)
    requires
        !refs.contains_key(name),
        !refs.contains_key(refs_prefix() + name),
    ensures
        resolve(refs.insert(tags_prefix() + name, id), name) == id,
{
    assert((tags_prefix() + name).len() == name.len() + 10);
    assert((refs_prefix() + name).len() == name.len() + 5);
}

/// Where there are no references, every reference reads as empty.
pub proof fn lemma_no_reference_reads_empty(name: Seq<u8>)
    ensures
        ref_value(Map::<Seq<u8>, Seq<u8>>::empty(), name) == Seq::<u8>::empty(),
{
}

} // verus!
