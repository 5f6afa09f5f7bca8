use aftp::afs::{FNode, FSError, FSHandle, FTree, FType};
use aftp::hashmapfs::{new_shared_tree, InMemoryFSHandle};

fn segs(parts: &[&str]) -> Vec<String> {
    parts.iter().map(|s| s.to_string()).collect()
}

fn root_with_hello() -> FTree {
    let mut t = FTree::new();
    t.create_at(
        &segs(&[]),
        FNode { name: "hello.txt".to_string(), f_type: FType::File("upload/h.txt".to_string()) },
    )
    .expect("seeding the root succeeds");
    t
}

#[test]
fn session_scenario_walks_and_mutates() {
    let shared = new_shared_tree(root_with_hello());
    let mut h = InMemoryFSHandle::from(shared);

    h.change_head(&segs(&[])).expect("empty relative path resolves");

    let created = h
        .create_entry(FNode { name: "docs".to_string(), f_type: FType::Folder })
        .expect("creating docs succeeds");
    assert_eq!(created.inner.name, "docs");
    assert!(created.children.is_empty());

    h.change_head(&segs(&["docs"])).expect("docs resolves");

    h.create_entry(FNode {
        name: "a.txt".to_string(),
        f_type: FType::File("upload/a.txt".to_string()),
    })
    .expect("creating a.txt succeeds");

    let children = h.list_children().expect("listing succeeds");
    assert_eq!(children.len(), 1);
    assert_eq!(children[0].name, "a.txt");
    assert!(matches!(&children[0].f_type, FType::File(r) if r == "upload/a.txt"));

    let err = h.change_head(&segs(&["missing"])).expect_err("missing path");
    assert!(matches!(err, FSError::PathNotFound));
    assert_eq!(h.head(), segs(&["docs"]));
}

#[test]
fn get_returns_the_head_entry() {
    let shared = new_shared_tree(root_with_hello());
    let mut h = InMemoryFSHandle::from(shared);
    h.change_head(&segs(&["hello.txt"])).expect("file resolves");
    let n = h.get().expect("get succeeds");
    assert_eq!(n.name, "hello.txt");
    assert!(matches!(&n.f_type, FType::File(r) if r == "upload/h.txt"));
}

#[test]
fn tree_returns_a_deep_copy() {
    let shared = new_shared_tree(root_with_hello());
    let h = InMemoryFSHandle::from(shared.clone());
    let copy = h.tree().expect("tree succeeds");
    assert_eq!(copy.inner.name, "root");
    assert_eq!(copy.children.len(), 1);
    assert_eq!(copy.children[0].inner.name, "hello.txt");
}

#[test]
fn listing_a_file_head_is_empty_not_an_error() {
    let shared = new_shared_tree(root_with_hello());
    let mut h = InMemoryFSHandle::from(shared);
    h.change_head(&segs(&["hello.txt"])).expect("file resolves");
    let children = h.list_children().expect("listing a file succeeds");
    assert!(children.is_empty());
}

#[test]
fn sessions_share_one_store() {
    let shared = new_shared_tree(root_with_hello());
    let mut first = InMemoryFSHandle::from(shared.clone());
    let mut second = InMemoryFSHandle::from(shared.clone());

    first
        .create_entry(FNode { name: "one".to_string(), f_type: FType::Folder })
        .expect("first creation succeeds");
    second
        .create_entry(FNode { name: "two".to_string(), f_type: FType::Folder })
        .expect("second creation succeeds");

    let children = first.list_children().expect("listing succeeds");
    assert_eq!(children.len(), 3);
}

#[test]
fn many_sessions_with_distinct_names_all_succeed() {
    let shared = new_shared_tree(FTree::new());
    let names = ["n1", "n2", "n3", "n4", "n5", "n6"];
    for name in names {
        let mut h = InMemoryFSHandle::from(shared.clone());
        h.create_entry(FNode { name: name.to_string(), f_type: FType::Folder })
            .expect("distinct names must all be accepted");
    }
    let h = InMemoryFSHandle::from(shared);
    let children = h.list_children().expect("listing succeeds");
    assert_eq!(children.len(), names.len());
    for (child, name) in children.iter().zip(names.iter()) {
        assert_eq!(&child.name, name);
    }
}

#[test]
fn same_name_from_two_sessions_fails_exactly_once() {
    let shared = new_shared_tree(root_with_hello());
    let mut first = InMemoryFSHandle::from(shared.clone());
    let mut second = InMemoryFSHandle::from(shared.clone());

    let a = first.create_entry(FNode { name: "same".to_string(), f_type: FType::Folder });
    let b = second.create_entry(FNode { name: "same".to_string(), f_type: FType::Folder });
    assert!(a.is_ok());
    match b {
        Err(FSError::OperationFailed(m)) => assert_eq!(m, "Entry with name already exists"),
        other => panic!("second creation must fail, got ok={}", other.is_ok()),
    }
    let children = first.list_children().expect("listing succeeds");
    assert_eq!(children.len(), 2);
}

#[test]
fn delete_entry_hands_the_subtree_back() {
    let shared = new_shared_tree(root_with_hello());
    let mut h = InMemoryFSHandle::from(shared.clone());
    h.change_head(&segs(&["hello.txt"])).expect("file resolves");
    let removed = h.delete_entry().expect("delete succeeds");
    assert_eq!(removed.inner.name, "hello.txt");
    assert_eq!(removed.file_refs(), vec!["upload/h.txt".to_string()]);

    let fresh = InMemoryFSHandle::from(shared);
    let children = fresh.list_children().expect("listing succeeds");
    assert!(children.is_empty());
}

#[test]
fn head_deleted_by_another_session_stops_resolving() {
    let shared = new_shared_tree(root_with_hello());
    let mut walker = InMemoryFSHandle::from(shared.clone());
    walker.change_head(&segs(&["hello.txt"])).expect("file resolves");

    let mut deleter = InMemoryFSHandle::from(shared);
    deleter.change_head(&segs(&["hello.txt"])).expect("file resolves");
    deleter.delete_entry().expect("delete succeeds");

    let err = walker.get().expect_err("head no longer resolves");
    assert!(matches!(err, FSError::PathNotFound));
}

#[test]
fn delete_entry_at_root_fails() {
    let shared = new_shared_tree(root_with_hello());
    let mut h = InMemoryFSHandle::from(shared);
    let err = h.delete_entry().expect_err("root cannot be deleted");
    assert!(matches!(err, FSError::OperationFailed(_)));
}

#[test]
fn change_head_canonicalizes_before_extending() {
    let shared = new_shared_tree(root_with_hello());
    let mut h = InMemoryFSHandle::from(shared);
    h.create_entry(FNode { name: "docs".to_string(), f_type: FType::Folder })
        .expect("creating docs succeeds");
    h.change_head(&segs(&["missing", "..", "docs", "."]))
        .expect("canonical form resolves");
    assert_eq!(h.head(), segs(&["docs"]));
}
