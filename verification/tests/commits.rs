use ruc::commit::checkout;
use ruc::commit::commit;
use ruc::commit::create_tag;
use ruc::commit::get_commit;
use ruc::commit::get_ref;
use ruc::commit::history;
use ruc::commit::parse_header_element;
use ruc::commit::ref_to_oid;
use ruc::commit::update_ref;
use ruc::commit::Commit;
use ruc::commit::Repository;
use ruc::object::get;
use ruc::object::hash_contents;
use ruc::object::Error;
use ruc::object::Kind;
use ruc::table::Table;
use ruc::tree::Item;
use ruc::tree::Node;

fn file(path: &str, contents: &[u8]) -> Node {
    Node { path: path.as_bytes().to_vec(), item: Item::File(contents.to_vec()) }
}

fn fresh() -> Repository {
    Repository {
        objects: Table::new(),
        refs: Table::new(),
        ignored: vec![b".ruc".to_vec(), b".git".to_vec(), b"target".to_vec(), b"tests".to_vec()],
    }
}

#[test]
fn head_of_a_fresh_repository_is_empty() {
    let repo = fresh();
    assert_eq!(get_ref(&repo.refs, b"HEAD"), Vec::<u8>::new());
    assert_eq!(get_ref(&repo.refs, b"refs/tags/v1"), Vec::<u8>::new());
}

#[test]
fn update_ref_creates_and_overwrites() {
    let mut refs = Table::new();
    update_ref(&mut refs, b"HEAD", b"one");
    assert_eq!(get_ref(&refs, b"HEAD"), b"one".to_vec());
    update_ref(&mut refs, b"HEAD", b"two");
    assert_eq!(get_ref(&refs, b"HEAD"), b"two".to_vec());
    update_ref(&mut refs, b"refs/heads/main", b"three");
    assert_eq!(get_ref(&refs, b"HEAD"), b"two".to_vec());
}

#[test]
fn a_tag_is_a_reference_under_refs_tags() {
    let mut refs = Table::new();
    create_tag(&mut refs, b"v1", b"abc");
    assert_eq!(get_ref(&refs, b"refs/tags/v1"), b"abc".to_vec());
    assert_eq!(get_ref(&refs, b"v1"), Vec::<u8>::new());
    assert_eq!(ref_to_oid(&refs, b"v1"), b"abc".to_vec());
    assert_eq!(ref_to_oid(&refs, b"tags/v1"), b"abc".to_vec());
}

#[test]
fn a_reference_is_preferred_to_an_id_of_the_same_name() {
    let mut repo = fresh();
    let id = hash_contents(&mut repo.objects, b"hi", Kind::Blob);
    assert_eq!(ref_to_oid(&repo.refs, &id), id);
    create_tag(&mut repo.refs, &id, b"elsewhere");
    assert_eq!(ref_to_oid(&repo.refs, &id), b"elsewhere".to_vec());
}

#[test]
fn references_are_tried_in_order() {
    let mut refs = Table::new();
    assert_eq!(ref_to_oid(&refs, b"x"), b"x".to_vec());
    update_ref(&mut refs, b"refs/heads/x", b"4");
    assert_eq!(ref_to_oid(&refs, b"x"), b"4".to_vec());
    update_ref(&mut refs, b"refs/tags/x", b"3");
    assert_eq!(ref_to_oid(&refs, b"x"), b"3".to_vec());
    update_ref(&mut refs, b"refs/x", b"2");
    assert_eq!(ref_to_oid(&refs, b"x"), b"2".to_vec());
    update_ref(&mut refs, b"x", b"1");
    assert_eq!(ref_to_oid(&refs, b"x"), b"1".to_vec());
    assert_eq!(ref_to_oid(&refs, b"HEAD"), b"HEAD".to_vec());
}

#[test]
fn header_lines_have_a_key_and_a_value() {
    assert_eq!(parse_header_element(Some(b"tree abc"), b"tree"), Some(b"abc".to_vec()));
    assert_eq!(parse_header_element(Some(b"  tree \t abc \r"), b"tree"), Some(b"abc".to_vec()));
    assert_eq!(parse_header_element(Some(b"tree abc"), b"parent"), None);
    assert_eq!(parse_header_element(Some(b"tree"), b"tree"), None);
    assert_eq!(parse_header_element(Some(b"tree a b"), b"tree"), None);
    assert_eq!(parse_header_element(Some(b""), b"tree"), None);
    assert_eq!(parse_header_element(None, b"tree"), None);
}

#[test]
fn committing_one_file() {
    let mut repo = fresh();
    let nodes = vec![file("a.txt", b"hi")];
    let id = commit(&mut repo, &nodes, b"first");
    assert_eq!(id, b"24f8abf18db4dfccf3219341b13df1bd99ff5427".to_vec());
    assert_eq!(get_ref(&repo.refs, b"HEAD"), id);
    let obj = get(&repo.objects, &id).unwrap();
    assert_eq!(obj.kind, Kind::Commit);
    assert_eq!(obj.contents, b"tree 2eda226045258a5925aba8486c1f1ae7ab6a07a2\n\nfirst".to_vec());
    let tree = get(&repo.objects, b"2eda226045258a5925aba8486c1f1ae7ab6a07a2").unwrap();
    assert_eq!(tree.kind, Kind::Tree);
    assert_eq!(tree.contents, b"blob bc0265428e14b775a3c4eb58e2d965575e3e6d97 a.txt\n".to_vec());
    let c = get_commit(&repo.objects, &id).unwrap();
    assert_eq!(c.id, id);
    assert_eq!(c.tree, b"2eda226045258a5925aba8486c1f1ae7ab6a07a2".to_vec());
    assert_eq!(c.parent, None);
    assert_eq!(c.contents, b"first".to_vec());
    let plan = checkout(&mut repo, &Vec::new(), &id).unwrap();
    assert_eq!(plan.remove.len(), 0);
    assert_eq!(plan.write.len(), 1);
    assert_eq!(plan.write[0].path, b"a.txt".to_vec());
    assert_eq!(plan.write[0].contents, b"hi".to_vec());
}

#[test]
fn a_second_commit_names_the_first_as_parent() {
    let mut repo = fresh();
    let first = commit(&mut repo, &vec![file("a", b"1")], b"one");
    let second = commit(&mut repo, &vec![file("a", b"2")], b"two\n\nwith a body\n");
    let c = get_commit(&repo.objects, &second).unwrap();
    assert_eq!(c.parent, Some(first.clone()));
    assert_eq!(c.contents, b"two\n\nwith a body\n".to_vec());
    let mut text = b"tree ".to_vec();
    text.extend_from_slice(&c.tree);
    text.extend_from_slice(b"\nparent ");
    text.extend_from_slice(&first);
    text.extend_from_slice(b"\n\ntwo\n\nwith a body\n");
    assert_eq!(get(&repo.objects, &second).unwrap().contents, text);
}

#[test]
fn history_runs_from_the_last_commit_to_the_first() {
    let mut repo = fresh();
    let c1 = commit(&mut repo, &vec![file("a", b"1")], b"one");
    let c2 = commit(&mut repo, &vec![file("a", b"2")], b"two");
    let c3 = commit(&mut repo, &vec![file("a", b"3"), file("b", b"")], b"three");
    let mut cursor = Commit::iter_as_parent(&c3);
    let mut seen = Vec::new();
    loop {
        match cursor.next(&repo.objects) {
            Some(Ok(c)) => {
                assert_eq!(c.id, cursor.id);
                seen.push((c.id, c.contents));
            }
            Some(Err(_)) => panic!("a commit of the chain could not be read"),
            None => break,
        }
    }
    assert_eq!(
        seen,
        vec![(c3, b"three".to_vec()), (c2, b"two".to_vec()), (c1, b"one".to_vec())]
    );
    assert!(cursor.next(&repo.objects).is_none());
}

#[test]
fn history_hands_out_the_failure_and_ends() {
    let mut repo = fresh();
    update_ref(&mut repo.refs, b"HEAD", b"0123456789012345678901234567890123456789");
    let c = commit(&mut repo, &vec![file("a", b"1")], b"orphan");
    let mut cursor = Commit::iter_as_parent(&c);
    let first = cursor.next(&repo.objects).unwrap().unwrap();
    assert_eq!(first.parent, Some(b"0123456789012345678901234567890123456789".to_vec()));
    assert!(matches!(cursor.next(&repo.objects), Some(Err(Error::NotFound))));
    assert!(cursor.next(&repo.objects).is_none());
    assert_eq!(cursor.id, c);
}

#[test]
fn get_commit_refuses_what_is_no_commit() {
    let mut store = Table::new();
    let blob = hash_contents(&mut store, b"tree abc\n\nmsg", Kind::Blob);
    assert!(matches!(get_commit(&store, &blob), Err(Error::BadFormat)));
    let bad = hash_contents(&mut store, b"parent abc\n\nmsg", Kind::Commit);
    assert!(matches!(get_commit(&store, &bad), Err(Error::BadFormat)));
    let empty = hash_contents(&mut store, b"", Kind::Commit);
    assert!(matches!(get_commit(&store, &empty), Err(Error::BadFormat)));
    assert!(matches!(get_commit(&store, b"missing"), Err(Error::NotFound)));
}

#[test]
fn get_commit_reads_short_commits() {
    let mut store = Table::new();
    let a = hash_contents(&mut store, b"tree abc", Kind::Commit);
    let c = get_commit(&store, &a).unwrap();
    assert_eq!(c.tree, b"abc".to_vec());
    assert_eq!(c.parent, None);
    assert_eq!(c.contents, Vec::<u8>::new());
    let b = hash_contents(&mut store, b"tree abc\nparent def", Kind::Commit);
    let c = get_commit(&store, &b).unwrap();
    assert_eq!(c.parent, Some(b"def".to_vec()));
    assert_eq!(c.contents, Vec::<u8>::new());
    let d = hash_contents(&mut store, b"tree abc\nparent def\nskipped\nkept\n", Kind::Commit);
    let c = get_commit(&store, &d).unwrap();
    assert_eq!(c.contents, b"kept\n".to_vec());
    let e = hash_contents(&mut store, b"tree abc\nskipped\nkept", Kind::Commit);
    let c = get_commit(&store, &e).unwrap();
    assert_eq!(c.parent, None);
    assert_eq!(c.contents, b"kept".to_vec());
}

#[test]
fn checkout_moves_head_and_plans_the_working_tree() {
    let mut repo = fresh();
    let c1 = commit(&mut repo, &vec![file("a", b"1"), file("gone", b"x")], b"one");
    let now = vec![file("a", b"2")];
    let c2 = commit(&mut repo, &now, b"two");
    assert_eq!(get_ref(&repo.refs, b"HEAD"), c2);
    let plan = checkout(&mut repo, &now, &c1).unwrap();
    assert_eq!(get_ref(&repo.refs, b"HEAD"), c1);
    assert_eq!(plan.remove, vec![b"a".to_vec()]);
    assert_eq!(plan.write.len(), 2);
    assert_eq!(plan.write[0].path, b"a".to_vec());
    assert_eq!(plan.write[0].contents, b"1".to_vec());
    assert_eq!(plan.write[1].path, b"gone".to_vec());
    assert_eq!(plan.write[1].contents, b"x".to_vec());
}

#[test]
fn a_failed_checkout_leaves_head() {
    let mut repo = fresh();
    let c1 = commit(&mut repo, &vec![file("a", b"1")], b"one");
    assert!(matches!(checkout(&mut repo, &Vec::new(), b"missing"), Err(Error::NotFound)));
    assert_eq!(get_ref(&repo.refs, b"HEAD"), c1);
    let broken = hash_contents(&mut repo.objects, b"tree missing\n\nmsg", Kind::Commit);
    assert!(matches!(checkout(&mut repo, &Vec::new(), &broken), Err(Error::NotFound)));
    assert_eq!(get_ref(&repo.refs, b"HEAD"), c1);
    let tree = get_commit(&repo.objects, &c1).unwrap().tree;
    assert!(matches!(checkout(&mut repo, &Vec::new(), &tree), Err(Error::BadFormat)));
    assert_eq!(get_ref(&repo.refs, b"HEAD"), c1);
}

#[test]
fn a_copy_of_a_commit_holds_the_same() {
    let c = Commit {
        id: b"i".to_vec(),
        tree: b"t".to_vec(),
        parent: Some(b"p".to_vec()),
        contents: b"m".to_vec(),
    };
    let d = c.duplicate();
    assert_eq!(d.id, c.id);
    assert_eq!(d.tree, c.tree);
    assert_eq!(d.parent, c.parent);
    assert_eq!(d.contents, c.contents);
}

#[test]
fn history_collects_the_chain() {
    let mut repo = fresh();
    let c1 = commit(&mut repo, &vec![file("a", b"1")], b"one");
    let c2 = commit(&mut repo, &vec![file("a", b"2")], b"two");
    let c3 = commit(&mut repo, &vec![file("a", b"3")], b"three");
    let all = history(&repo.objects, &c3, 100);
    assert!(all.failure.is_none());
    let ids: Vec<Vec<u8>> = all.commits.iter().map(|c| c.id.clone()).collect();
    assert_eq!(ids, vec![c3.clone(), c2.clone(), c1.clone()]);
    assert_eq!(all.commits[0].parent, Some(c2.clone()));
    assert_eq!(all.commits[2].parent, None);
    assert_eq!(all.rest, None);
    let exact = history(&repo.objects, &c3, 3);
    assert_eq!(exact.commits.len(), 3);
    assert!(exact.failure.is_none());
    assert_eq!(exact.rest, None);
    let short = history(&repo.objects, &c3, 2);
    assert_eq!(short.commits.len(), 2);
    assert_eq!(short.commits[1].id, c2);
    assert!(short.failure.is_none());
    assert_eq!(short.rest, Some(c1.clone()));
    let none = history(&repo.objects, &c3, 0);
    assert_eq!(none.commits.len(), 0);
    assert!(none.failure.is_none());
    assert_eq!(none.rest, Some(c3.clone()));
    let from_first = history(&repo.objects, &c1, 100);
    assert_eq!(from_first.commits.len(), 1);
}

#[test]
fn history_reports_the_commit_that_is_missing() {
    let mut repo = fresh();
    let gone = history(&repo.objects, b"missing", 10);
    assert_eq!(gone.commits.len(), 0);
    assert_eq!(gone.failure, Some(Error::NotFound));
    update_ref(&mut repo.refs, b"HEAD", b"0123456789012345678901234567890123456789");
    let c = commit(&mut repo, &vec![file("a", b"1")], b"orphan");
    let cut = history(&repo.objects, &c, 10);
    assert_eq!(cut.commits.len(), 1);
    assert_eq!(cut.commits[0].id, c);
    assert_eq!(cut.failure, Some(Error::NotFound));
    assert_eq!(cut.rest, None);
    let blob = hash_contents(&mut repo.objects, b"x", Kind::Blob);
    assert_eq!(history(&repo.objects, &blob, 10).failure, Some(Error::BadFormat));
}

#[test]
fn committing_the_same_twice_on_an_empty_head_gives_one_commit() {
    let mut a = fresh();
    let mut b = fresh();
    let one = commit(&mut a, &vec![file("a", b"1")], b"msg");
    let two = commit(&mut b, &vec![file("a", b"1")], b"msg");
    assert_eq!(one, two);
    let three = commit(&mut b, &vec![file("a", b"1")], b"msg");
    assert_ne!(three, two);
    assert_eq!(get_commit(&b.objects, &three).unwrap().parent, Some(two));
}

#[test]
fn a_commit_keeps_what_the_repository_ignores() {
    let mut repo = fresh();
    let nodes = vec![
        file("a", b"1"),
        Node { path: b".ruc".to_vec(), item: Item::Dir(vec![file(".ruc/HEAD", b"zzz")]) },
    ];
    let id = commit(&mut repo, &nodes, b"m");
    assert_eq!(repo.ignored.len(), 4);
    let plan = checkout(&mut repo, &nodes, &id).unwrap();
    assert_eq!(plan.remove, vec![b"a".to_vec()]);
    assert_eq!(plan.write.len(), 1);
}

#[test]
fn writes_are_added_behind_what_a_table_held() {
    let mut repo = fresh();
    commit(&mut repo, &vec![file("a", b"1")], b"one");
    let objects: Vec<Vec<u8>> = (0..repo.objects.len()).map(|i| repo.objects.slot(i).key.clone()).collect();
    let refs: Vec<Vec<u8>> = (0..repo.refs.len()).map(|i| repo.refs.slot(i).value.clone()).collect();
    let id = commit(&mut repo, &vec![file("a", b"1"), file("b", b"2")], b"two");
    assert_eq!(repo.objects.len(), objects.len() + 3);
    for (i, key) in objects.iter().enumerate() {
        assert_eq!(&repo.objects.slot(i).key, key);
    }
    assert_eq!(repo.refs.len(), refs.len() + 1);
    for (i, value) in refs.iter().enumerate() {
        assert_eq!(&repo.refs.slot(i).value, value);
    }
    assert_eq!(repo.refs.slot(refs.len()).value, id);
    create_tag(&mut repo.refs, b"v", &id);
    assert_eq!(repo.refs.len(), refs.len() + 2);
    assert_eq!(repo.refs.slot(refs.len() + 1).key, b"refs/tags/v".to_vec());
    let before = repo.objects.len();
    checkout(&mut repo, &Vec::new(), &id).unwrap();
    assert_eq!(repo.objects.len(), before);
    assert_eq!(repo.refs.len(), refs.len() + 2);
}

#[test]
fn a_chain_that_runs_in_a_circle_is_cut_by_the_limit() {
    let mut store = Table::new();
    store.insert(b"a".to_vec(), b"commit\x00tree t\nparent b\n\none".to_vec());
    store.insert(b"b".to_vec(), b"commit\x00tree t\nparent a\n\ntwo".to_vec());
    let walk = history(&store, b"a", 5);
    assert_eq!(walk.commits.len(), 5);
    assert_eq!(walk.commits[4].id, b"a".to_vec());
    assert_eq!(walk.failure, None);
    assert_eq!(walk.rest, Some(b"b".to_vec()));
}

#[test]
fn steps_go_through_the_chain_one_by_one() {
    let mut repo = fresh();
    let c1 = commit(&mut repo, &vec![file("a", b"1")], b"one");
    let c2 = commit(&mut repo, &vec![file("a", b"2")], b"two");
    let mut cursor = Commit::iter_as_parent(&c2);
    assert_eq!(cursor.parent, Some(c2.clone()));
    let first = cursor.next(&repo.objects).unwrap().unwrap();
    assert_eq!(first.id, c2);
    assert_eq!(cursor.id, c2);
    assert_eq!(cursor.parent, Some(c1.clone()));
    let second = cursor.next(&repo.objects).unwrap().unwrap();
    assert_eq!(second.id, c1);
    assert_eq!(second.parent, None);
    assert_eq!(cursor.contents, b"one".to_vec());
    assert!(cursor.next(&repo.objects).is_none());
    assert_eq!(cursor.id, c1);
}
