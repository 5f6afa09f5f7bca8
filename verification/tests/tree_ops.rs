use aftp::afs::{tree_eq, FNode, FSError, FTree, FType};

fn folder(name: &str, children: Vec<FTree>) -> FTree {
    FTree {
        inner: FNode { name: name.to_string(), f_type: FType::Folder },
        children,
    }
}

fn file(name: &str, content_ref: &str) -> FTree {
    FTree {
        inner: FNode { name: name.to_string(), f_type: FType::File(content_ref.to_string()) },
        children: Vec::new(),
    }
}

fn segs(parts: &[&str]) -> Vec<String> {
    parts.iter().map(|s| s.to_string()).collect()
}

fn sample() -> FTree {
    folder(
        "root",
        vec![
            file("hello.txt", "upload/one.txt"),
            folder("docs", vec![file("a.txt", "upload/two.txt"), folder("inner", vec![])]),
        ],
    )
}

#[test]
fn new_makes_an_empty_root_folder() {
    let t = FTree::new();
    assert_eq!(t.inner.name, "root");
    assert!(matches!(t.inner.f_type, FType::Folder));
    assert!(t.children.is_empty());
    assert!(t.well_formed());
}

#[test]
fn traverse_resolves_nested_paths() {
    let t = sample();
    let d = t.traverse_to_path(&segs(&["docs"])).expect("docs resolves");
    assert_eq!(d.inner.name, "docs");
    let a = t.traverse_to_path(&segs(&["docs", "a.txt"])).expect("file resolves");
    assert_eq!(a.inner.name, "a.txt");
    assert!(t.traverse_to_path(&segs(&["missing"])).is_none());
    assert!(t.traverse_to_path(&segs(&["docs", "missing"])).is_none());
}

#[test]
fn traverse_does_not_descend_through_a_file() {
    let t = sample();
    assert!(t.traverse_to_path(&segs(&["hello.txt"])).is_some());
    assert!(t.traverse_to_path(&segs(&["hello.txt", "x"])).is_none());
}

#[test]
fn traverse_mut_reaches_the_same_node() {
    let mut t = sample();
    {
        let sub = t.traverse_to_path_mut(&segs(&["docs", "inner"])).expect("resolves");
        assert_eq!(sub.inner.name, "inner");
    }
    assert!(t.traverse_to_path_mut(&segs(&["nope"])).is_none());
}

#[test]
fn create_at_appends_a_leaf() {
    let mut t = sample();
    let made = t
        .create_at(&segs(&["docs"]), FNode { name: "b.txt".to_string(), f_type: FType::File("upload/three.txt".to_string()) })
        .expect("creation succeeds");
    assert_eq!(made.inner.name, "b.txt");
    assert!(made.children.is_empty());
    let found = t.traverse_to_path(&segs(&["docs", "b.txt"])).expect("new entry resolves");
    assert!(matches!(&found.inner.f_type, FType::File(r) if r == "upload/three.txt"));
    assert!(t.well_formed());
}

#[test]
fn created_entry_is_found_under_its_creation_path() {
    let mut t = sample();
    let head = segs(&["docs", "inner"]);
    t.create_at(&head, FNode { name: "leaf.txt".to_string(), f_type: FType::File("upload/l".to_string()) })
        .expect("creation succeeds");
    let mut full = head.clone();
    full.push("leaf.txt".to_string());
    let found = t.traverse_to_path(&full).expect("created entry resolves");
    assert_eq!(found.inner.name, "leaf.txt");
    assert!(found.children.is_empty());
}

#[test]
fn create_at_rejects_duplicate_names_and_leaves_the_tree_alone() {
    let mut t = sample();
    let before = t.clone();
    let err = t
        .create_at(&segs(&["docs"]), FNode { name: "a.txt".to_string(), f_type: FType::Folder })
        .expect_err("duplicate must fail");
    match err {
        FSError::OperationFailed(m) => assert_eq!(m, "Entry with name already exists"),
        other => panic!("wrong error: {}", other.message()),
    }
    assert!(tree_eq(&t, &before));
}

#[test]
fn create_at_under_a_file_is_path_not_found() {
    let mut t = sample();
    let err = t
        .create_at(&segs(&["hello.txt"]), FNode { name: "x".to_string(), f_type: FType::Folder })
        .expect_err("creating under a file must fail");
    assert!(matches!(err, FSError::PathNotFound));
}

#[test]
fn delete_at_returns_the_whole_subtree() {
    let mut t = sample();
    let removed = t.delete_at(&segs(&["docs"])).expect("delete succeeds");
    assert_eq!(removed.inner.name, "docs");
    let mut refs = removed.file_refs();
    refs.sort();
    assert_eq!(refs, vec!["upload/two.txt".to_string()]);
    assert!(t.traverse_to_path(&segs(&["docs"])).is_none());
    assert!(t.traverse_to_path(&segs(&["hello.txt"])).is_some());
    assert!(t.well_formed());
}

#[test]
fn delete_at_of_root_fails() {
    let mut t = sample();
    let err = t.delete_at(&segs(&[])).expect_err("root cannot be deleted");
    match err {
        FSError::OperationFailed(m) => assert_eq!(m, "Cannot delete root folder"),
        other => panic!("wrong error: {}", other.message()),
    }
}

#[test]
fn delete_at_missing_is_path_not_found() {
    let mut t = sample();
    let err = t.delete_at(&segs(&["nope"])).expect_err("missing entry");
    assert!(matches!(err, FSError::PathNotFound));
}

#[test]
fn deleted_subtree_holds_every_file_that_stood_under_it() {
    let mut t = folder(
        "root",
        vec![folder(
            "d",
            vec![
                file("f1", "upload/r1"),
                folder("e", vec![file("f2", "upload/r2"), file("f3", "upload/r3")]),
            ],
        )],
    );
    let total_before: Vec<String> = {
        let mut v = t.file_refs();
        v.sort();
        v
    };
    let removed = t.delete_at(&segs(&["d"])).expect("delete succeeds");
    let mut got = removed.file_refs();
    got.sort();
    assert_eq!(got, vec!["upload/r1".to_string(), "upload/r2".to_string(), "upload/r3".to_string()]);
    let mut after = t.file_refs();
    after.extend(got.clone());
    after.sort();
    assert_eq!(after, total_before);
}

#[test]
fn flatten_lists_every_entry_depth_first() {
    let t = sample();
    let flat = t.flatten();
    let names: Vec<&str> = flat.iter().map(|n| n.name.as_str()).collect();
    assert_eq!(names, vec!["root", "hello.txt", "docs", "a.txt", "inner"]);
}

#[test]
fn well_formed_spots_duplicates_and_files_with_children() {
    let dup = folder("root", vec![folder("x", vec![]), folder("x", vec![])]);
    assert!(!dup.well_formed());
    let mut bad_file = file("f", "upload/r");
    bad_file.children.push(folder("child", vec![]));
    let t = folder("root", vec![bad_file]);
    assert!(!t.well_formed());
    assert!(sample().well_formed());
}

#[test]
fn tree_eq_compares_structurally() {
    let a = sample();
    let b = sample();
    assert!(tree_eq(&a, &b));
    let c = folder("root", vec![file("hello.txt", "upload/other.txt")]);
    assert!(!tree_eq(&a, &c));
}

#[test]
fn error_messages_read_as_reported() {
    assert_eq!(FSError::PathNotFound.message(), "Path Not Found");
    assert_eq!(
        FSError::OperationFailed("boom".to_string()).message(),
        "Operation Failed: boom"
    );
    assert_eq!(FSError::Forbidden.message(), "Forbidden");
}
