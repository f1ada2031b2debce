use ruc::object::get;
use ruc::object::hash_contents;
use ruc::object::Error;
use ruc::object::Kind;
use ruc::table::Table;
use ruc::tree::empty_directory;
use ruc::tree::get_entries;
use ruc::tree::read_blob;
use ruc::tree::read_tree;
use ruc::tree::should_be_ignored;
use ruc::tree::traverse_read_tree;
use ruc::tree::traverse_write_tree;
use ruc::tree::Item;
use ruc::tree::Node;
use ruc::tree::TreeEntry;

fn file(path: &str, contents: &[u8]) -> Node {
    Node { path: path.as_bytes().to_vec(), item: Item::File(contents.to_vec()) }
}

fn dir(path: &str, entries: Vec<Node>) -> Node {
    Node { path: path.as_bytes().to_vec(), item: Item::Dir(entries) }
}

fn ignored() -> Vec<Vec<u8>> {
    vec![b".ruc".to_vec(), b".git".to_vec(), b"target".to_vec(), b"tests".to_vec()]
}

fn sample() -> Vec<Node> {
    vec![
        file("readme", b"hello\n"),
        dir(
            "src",
            vec![
                file("src/main.rs", b"fn main() {}\n"),
                dir("src/deep", vec![file("src/deep/copy", b"hello\n"), file("src/deep/empty", b"")]),
            ],
        ),
        dir("target", vec![file("target/out", b"built")]),
        file("z.txt", b"last"),
    ]
}

fn pairs(files: &Vec<ruc::tree::FileEntry>) -> Vec<(Vec<u8>, Vec<u8>)> {
    files.iter().map(|f| (f.path.clone(), f.contents.clone())).collect()
}

#[test]
fn a_tree_of_one_file_has_one_line() {
    let mut store = Table::new();
    let nodes = vec![file("a.txt", b"hi")];
    let id = traverse_write_tree(&mut store, &nodes, &ignored());
    let obj = get(&store, &id).unwrap();
    assert_eq!(obj.kind, Kind::Tree);
    assert_eq!(obj.contents, b"blob bc0265428e14b775a3c4eb58e2d965575e3e6d97 a.txt\n".to_vec());
    assert_eq!(id, b"2eda226045258a5925aba8486c1f1ae7ab6a07a2".to_vec());
    let files = traverse_read_tree(&store, &id).unwrap();
    assert_eq!(pairs(&files), vec![(b"a.txt".to_vec(), b"hi".to_vec())]);
}

#[test]
fn a_snapshot_reads_back_as_it_was_written() {
    let mut store = Table::new();
    let id = traverse_write_tree(&mut store, &sample(), &ignored());
    let files = traverse_read_tree(&store, &id).unwrap();
    assert_eq!(
        pairs(&files),
        vec![
            (b"readme".to_vec(), b"hello\n".to_vec()),
            (b"src/main.rs".to_vec(), b"fn main() {}\n".to_vec()),
            (b"src/deep/copy".to_vec(), b"hello\n".to_vec()),
            (b"src/deep/empty".to_vec(), b"".to_vec()),
            (b"z.txt".to_vec(), b"last".to_vec()),
        ]
    );
}

#[test]
fn equal_files_share_one_blob() {
    let mut store = Table::new();
    let id = traverse_write_tree(&mut store, &sample(), &ignored());
    let top = get_entries(&get(&store, &id).unwrap().contents).unwrap();
    assert_eq!(top.len(), 3);
    assert_eq!(top[0].path, b"readme".to_vec());
    assert_eq!(top[1].kind, Kind::Tree);
    let src = get_entries(&get(&store, &top[1].id).unwrap().contents).unwrap();
    let deep = get_entries(&get(&store, &src[1].id).unwrap().contents).unwrap();
    assert_eq!(deep[0].path, b"src/deep/copy".to_vec());
    assert_eq!(deep[0].id, top[0].id);
    assert_eq!(deep[0].kind, Kind::Blob);
    // readme and copy, main.rs, empty, z.txt; the trees of deep, src and the root
    assert_eq!(store.len(), 7);
}

#[test]
fn a_snapshot_does_not_depend_on_what_the_store_held() {
    let mut fresh = Table::new();
    let mut used = Table::new();
    hash_contents(&mut used, b"something else", Kind::Blob);
    let a = traverse_write_tree(&mut fresh, &sample(), &ignored());
    let b = traverse_write_tree(&mut used, &sample(), &ignored());
    assert_eq!(a, b);
    let again = traverse_write_tree(&mut used, &sample(), &ignored());
    assert_eq!(again, b);
    assert_eq!(used.len(), 8);
}

#[test]
fn an_empty_directory_is_an_empty_tree() {
    let mut store = Table::new();
    let id = traverse_write_tree(&mut store, &Vec::new(), &ignored());
    assert_eq!(id, b"d28c5ff92df044a522508a29cf3fad0b812f672f".to_vec());
    assert_eq!(traverse_read_tree(&store, &id).unwrap().len(), 0);
}

#[test]
fn ignored_names_are_passed_over() {
    assert!(should_be_ignored(b".ruc", &ignored()));
    assert!(should_be_ignored(b"tests", &ignored()));
    assert!(should_be_ignored(b"src/tests", &ignored()));
    assert!(should_be_ignored(b"a/b/target", &ignored()));
    assert!(!should_be_ignored(b"target/debug/x", &ignored()));
    assert!(!should_be_ignored(b"targets", &ignored()));
    assert!(!should_be_ignored(b"src/target.rs", &ignored()));
    assert!(!should_be_ignored(b"target/", &ignored()));
    assert!(!should_be_ignored(b"", &ignored()));
    assert!(!should_be_ignored(b".ruc", &Vec::new()));
    let mut a = Table::new();
    let mut b = Table::new();
    let with = traverse_write_tree(&mut a, &sample(), &ignored());
    let mut nodes = sample();
    nodes.remove(2);
    let without = traverse_write_tree(&mut b, &nodes, &ignored());
    assert_eq!(with, without);
    assert_eq!(a.len(), b.len());
}

#[test]
fn ignored_names_are_passed_over_below_the_root() {
    let only = vec![b"target".to_vec()];
    // a directory `src` that holds a file named `target`
    let mut store = Table::new();
    let id = traverse_write_tree(&mut store, &vec![dir("src", vec![file("src/target", b"x")])], &only);
    let top = get_entries(&get(&store, &id).unwrap().contents).unwrap();
    assert_eq!(top.len(), 1);
    assert_eq!(top[0].path, b"src".to_vec());
    assert_eq!(top[0].id, b"d28c5ff92df044a522508a29cf3fad0b812f672f".to_vec());
    assert_eq!(store.len(), 2);
    assert_eq!(traverse_read_tree(&store, &id).unwrap().len(), 0);
    // the listing of `src` itself
    let mut store = Table::new();
    let id = traverse_write_tree(&mut store, &vec![file("src/target", b"x")], &only);
    assert_eq!(id, b"d28c5ff92df044a522508a29cf3fad0b812f672f".to_vec());
    assert_eq!(get(&store, &id).unwrap().contents, Vec::<u8>::new());
    assert_eq!(store.len(), 1);
    // the listing of a directory that is itself named `target`
    let mut store = Table::new();
    let id = traverse_write_tree(&mut store, &vec![file("target/x", b"hi")], &only);
    assert_eq!(
        get(&store, &id).unwrap().contents,
        b"blob bc0265428e14b775a3c4eb58e2d965575e3e6d97 target/x\n".to_vec()
    );
    // a directory named `target` below the root, and what it holds
    let nested = vec![dir("a", vec![dir("a/target", vec![file("a/target/x", b"1")]), file("a/f", b"2")])];
    let mut store = Table::new();
    let id = traverse_write_tree(&mut store, &nested, &only);
    let files = traverse_read_tree(&store, &id).unwrap();
    assert_eq!(pairs(&files), vec![(b"a/f".to_vec(), b"2".to_vec())]);
    assert_eq!(empty_directory(&nested, &only), vec![b"a/f".to_vec(), b"a".to_vec()]);
}

#[test]
fn get_entries_reads_one_entry_from_each_line() {
    let entries = get_entries(b"blob 11 a\nTREE 22 d\n  commit\t33   x/y  \nother 44 z").unwrap();
    assert_eq!(entries.len(), 4);
    assert_eq!(entries[0].kind, Kind::Blob);
    assert_eq!(entries[0].id, b"11".to_vec());
    assert_eq!(entries[0].path, b"a".to_vec());
    assert_eq!(entries[1].kind, Kind::Tree);
    assert_eq!(entries[2].kind, Kind::Commit);
    assert_eq!(entries[2].id, b"33".to_vec());
    assert_eq!(entries[2].path, b"x/y".to_vec());
    assert_eq!(entries[3].kind, Kind::Unknown);
    assert_eq!(get_entries(b"").unwrap().len(), 0);
}

#[test]
fn get_entries_refuses_a_line_without_three_fields() {
    assert!(matches!(get_entries(b"blob 11\n"), Err(Error::BadFormat)));
    assert!(matches!(get_entries(b"blob 11 a b\n"), Err(Error::BadFormat)));
    assert!(matches!(get_entries(b"blob 11 a\n\nblob 22 b\n"), Err(Error::BadFormat)));
    assert!(matches!(get_entries(b"blob 11 a\nblob 22\n"), Err(Error::BadFormat)));
}

#[test]
fn a_malformed_tree_hands_out_no_file() {
    let mut store = Table::new();
    let blob = hash_contents(&mut store, b"hi", Kind::Blob);
    let mut two = b"blob ".to_vec();
    two.extend_from_slice(&blob);
    two.extend_from_slice(b" good\nblob ");
    two.extend_from_slice(&blob);
    two.extend_from_slice(b"\n");
    let short = hash_contents(&mut store, &two, Kind::Tree);
    assert!(matches!(traverse_read_tree(&store, &short), Err(Error::BadFormat)));
    let mut four = b"blob ".to_vec();
    four.extend_from_slice(&blob);
    four.extend_from_slice(b" good\nblob ");
    four.extend_from_slice(&blob);
    four.extend_from_slice(b" a b\n");
    let long = hash_contents(&mut store, &four, Kind::Tree);
    assert!(matches!(traverse_read_tree(&store, &long), Err(Error::BadFormat)));
    // a good tree that names the bad one fails as a whole
    let mut outer = b"blob ".to_vec();
    outer.extend_from_slice(&blob);
    outer.extend_from_slice(b" first\ntree ");
    outer.extend_from_slice(&long);
    outer.extend_from_slice(b" sub\n");
    let outer_id = hash_contents(&mut store, &outer, Kind::Tree);
    assert!(matches!(traverse_read_tree(&store, &outer_id), Err(Error::BadFormat)));
    let nodes = vec![file("kept", b"x")];
    assert!(matches!(read_tree(&store, &nodes, &ignored(), &outer_id), Err(Error::BadFormat)));
}

#[test]
fn reading_fails_on_what_is_no_tree() {
    let mut store = Table::new();
    let blob = hash_contents(&mut store, b"hi", Kind::Blob);
    assert!(matches!(traverse_read_tree(&store, &blob), Err(Error::BadFormat)));
    assert!(matches!(traverse_read_tree(&store, b"missing"), Err(Error::NotFound)));
    let tree = hash_contents(&mut store, b"blob missing a\n", Kind::Tree);
    assert!(matches!(traverse_read_tree(&store, &tree), Err(Error::NotFound)));
    let odd = hash_contents(&mut store, b"commit 11 a\n", Kind::Tree);
    assert!(matches!(traverse_read_tree(&store, &odd), Err(Error::BadFormat)));
    let none = hash_contents(&mut store, b"thing 11 a\n", Kind::Tree);
    assert!(matches!(traverse_read_tree(&store, &none), Err(Error::BadFormat)));
}

#[test]
fn a_tree_that_names_itself_is_corrupt() {
    let mut store = Table::new();
    store.insert(b"loop".to_vec(), b"tree\x00tree loop again\n".to_vec());
    assert!(matches!(traverse_read_tree(&store, b"loop"), Err(Error::Corrupt)));
}

#[test]
fn read_blob_takes_the_contents_of_any_object() {
    let mut store = Table::new();
    let id = hash_contents(&mut store, b"payload", Kind::Blob);
    let entry = TreeEntry { id: id, kind: Kind::Blob, path: b"d/f".to_vec() };
    let f = read_blob(&store, &entry).unwrap();
    assert_eq!(f.path, b"d/f".to_vec());
    assert_eq!(f.contents, b"payload".to_vec());
    let gone = TreeEntry { id: b"nope".to_vec(), kind: Kind::Blob, path: b"x".to_vec() };
    assert!(matches!(read_blob(&store, &gone), Err(Error::NotFound)));
}

#[test]
fn emptying_removes_what_is_not_ignored() {
    let removed = empty_directory(&sample(), &ignored());
    assert_eq!(
        removed,
        vec![
            b"readme".to_vec(),
            b"src/main.rs".to_vec(),
            b"src/deep/copy".to_vec(),
            b"src/deep/empty".to_vec(),
            b"src/deep".to_vec(),
            b"src".to_vec(),
            b"z.txt".to_vec(),
        ]
    );
    let bare = vec![dir("empty", Vec::new()), dir(".git", vec![file(".git/config", b"")])];
    assert_eq!(empty_directory(&bare, &ignored()), vec![b"empty".to_vec()]);
    assert_eq!(empty_directory(&Vec::new(), &ignored()), Vec::<Vec<u8>>::new());
}

#[test]
fn read_tree_plans_removals_then_writes() {
    let mut store = Table::new();
    let id = traverse_write_tree(&mut store, &vec![file("a.txt", b"hi")], &ignored());
    let present = vec![file("old.txt", b"x"), dir(".ruc", vec![file(".ruc/HEAD", b"")])];
    let plan = read_tree(&store, &present, &ignored(), &id).unwrap();
    assert_eq!(plan.remove, vec![b"old.txt".to_vec()]);
    assert_eq!(pairs(&plan.write), vec![(b"a.txt".to_vec(), b"hi".to_vec())]);
}

#[test]
fn an_empty_directory_leaves_no_file_behind() {
    let mut store = Table::new();
    let nodes = vec![dir("empty", Vec::new()), file("f", b"x")];
    let id = traverse_write_tree(&mut store, &nodes, &ignored());
    let top = get_entries(&get(&store, &id).unwrap().contents).unwrap();
    assert_eq!(top.len(), 2);
    assert_eq!(top[0].kind, Kind::Tree);
    assert_eq!(top[0].id, b"d28c5ff92df044a522508a29cf3fad0b812f672f".to_vec());
    let files = traverse_read_tree(&store, &id).unwrap();
    assert_eq!(pairs(&files), vec![(b"f".to_vec(), b"x".to_vec())]);
}

#[test]
fn a_path_with_a_space_does_not_read_back() {
    let mut store = Table::new();
    let id = traverse_write_tree(&mut store, &vec![file("my file", b"x")], &ignored());
    assert!(matches!(traverse_read_tree(&store, &id), Err(Error::BadFormat)));
}

#[test]
fn trees_may_be_nested_up_to_the_limit() {
    let mut store = Table::new();
    let mut nodes = vec![file("f", b"x")];
    for _ in 0..40 {
        nodes = vec![dir("d", nodes)];
    }
    let id = traverse_write_tree(&mut store, &nodes, &ignored());
    let files = traverse_read_tree(&store, &id).unwrap();
    assert_eq!(pairs(&files), vec![(b"f".to_vec(), b"x".to_vec())]);
    assert_eq!(ruc::tree::MAX_TREE_DEPTH, 1024);
}
