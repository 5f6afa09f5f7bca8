use aftp::afs::{tree_eq, FNode, FTree, FType};
use aftp::codec::{deserialize, serialize};

fn folder(name: &str, children: Vec<FTree>) -> FTree {
    FTree {
        inner: FNode { name: name.to_string(), f_type: FType::Folder },
        children,
    }
}

fn file(name: &str, content_ref: &str) -> FTree {
    FTree {
        inner: FNode { name: name.to_string(), f_type: FType::File(content_ref.to_string()) },
        children: Vec::new(),
    }
}

#[test]
fn round_trip_of_an_empty_root() {
    let t = FTree::new();
    let bytes = serialize(&t);
    let back = deserialize(&bytes).expect("decodes");
    assert!(tree_eq(&t, &back));
}

#[test]
fn round_trip_of_a_nested_tree() {
    let t = folder(
        "root",
        vec![
            file("hello.txt", "upload/h.txt"),
            folder(
                "docs",
                vec![file("a.txt", "upload/a.txt"), folder("inner", vec![file("b", "upload/b")])],
            ),
            folder("empty", vec![]),
        ],
    );
    let bytes = serialize(&t);
    let back = deserialize(&bytes).expect("decodes");
    assert!(tree_eq(&t, &back));
}

#[test]
fn round_trip_keeps_every_character() {
    let t = folder(
        "w\u{00e4}hle",
        vec![file("sp a.ce", "upload/\u{1F600}.bin"), file("", "")],
    );
    let bytes = serialize(&t);
    let back = deserialize(&bytes).expect("decodes");
    assert!(tree_eq(&t, &back));
}

#[test]
fn truncated_input_is_refused() {
    let t = folder("root", vec![file("a", "upload/a")]);
    let mut bytes = serialize(&t);
    bytes.pop();
    assert!(deserialize(&bytes).is_none());
}

#[test]
fn trailing_garbage_is_refused() {
    let t = FTree::new();
    let mut bytes = serialize(&t);
    bytes.push(0);
    assert!(deserialize(&bytes).is_none());
}

#[test]
fn nonsense_bytes_are_refused() {
    assert!(deserialize(&[]).is_none());
    assert!(deserialize(&[0xff; 7]).is_none());
    assert!(deserialize(&[0xff; 64]).is_none());
}
