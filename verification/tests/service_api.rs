use aftp::afs::{FNode, FSError, FTree, FType};
use aftp::api::{FItemType, OwnedFlatFItem, OwnedFlatFTree};
use aftp::auth::{authorize, client_id_from_header, ClientId, ClientIdError};
use aftp::service::{make_entry_node, plan_entry, raw_ref};

fn segs(parts: &[&str]) -> Vec<String> {
    parts.iter().map(|s| s.to_string()).collect()
}

#[test]
fn item_type_tells_folders_from_files() {
    assert!(FItemType::Folder.is_folder());
    assert!(!FItemType::Folder.is_file());
    assert!(FItemType::File.is_file());
    assert!(!FItemType::File.is_folder());
    assert!(FItemType::default().is_folder());
}

#[test]
fn item_type_projects_away_the_content_reference() {
    assert!(FItemType::from(FType::Folder).is_folder());
    assert!(FItemType::from(FType::File("upload/x".to_string())).is_file());
}

#[test]
fn flat_projection_lists_immediate_children_only() {
    let t = FTree {
        inner: FNode { name: "root".to_string(), f_type: FType::Folder },
        children: vec![
            FTree {
                inner: FNode { name: "a".to_string(), f_type: FType::File("upload/a".to_string()) },
                children: Vec::new(),
            },
            FTree {
                inner: FNode { name: "d".to_string(), f_type: FType::Folder },
                children: vec![FTree {
                    inner: FNode { name: "deep".to_string(), f_type: FType::Folder },
                    children: Vec::new(),
                }],
            },
        ],
    };
    let flat = OwnedFlatFTree::from(t);
    assert_eq!(flat.meta.name, "root");
    assert!(flat.entry_type.is_folder());
    assert_eq!(flat.sub_entries.len(), 2);
    assert_eq!(flat.sub_entries[0].name, "a");
    assert!(flat.sub_entries[0].entry_type.is_file());
    assert_eq!(flat.sub_entries[1].name, "d");
    assert!(flat.sub_entries[1].entry_type.is_folder());
}

#[test]
fn flat_item_keeps_name_and_kind() {
    let t = FTree {
        inner: FNode { name: "x.bin".to_string(), f_type: FType::File("upload/x".to_string()) },
        children: Vec::new(),
    };
    let item = OwnedFlatFItem::from(t);
    assert_eq!(item.name, "x.bin");
    assert!(item.entry_type.is_file());
}

#[test]
fn authorize_passes_listed_callers_only() {
    let allowed = segs(&["aa:bb", "cc:dd"]);
    assert!(authorize(&allowed, &ClientId("cc:dd".to_string())).is_ok());
    let err = authorize(&allowed, &ClientId("ee:ff".to_string())).expect_err("not listed");
    assert!(matches!(err, FSError::Forbidden));
    assert!(authorize(&segs(&[]), &ClientId("aa:bb".to_string())).is_err());
}

#[test]
fn client_id_comes_from_the_header() {
    let ok = client_id_from_header(Some("token".to_string())).expect("header present");
    assert_eq!(ok.0, "token");
    let err = client_id_from_header(None).expect_err("header absent");
    assert!(matches!(err, ClientIdError::Missing));
}

#[test]
fn plan_entry_classifies_by_payload_presence() {
    let token = "t".repeat(36);
    let folder = plan_entry(&segs(&["docs"]), false, &token).expect("folder plan");
    assert_eq!(folder.name, "docs");
    assert!(matches!(folder.f_type, FType::Folder));

    let file = plan_entry(&segs(&["docs", "a.txt"]), true, &token).expect("file plan");
    assert_eq!(file.name, "a.txt");
    match file.f_type {
        FType::File(r) => assert_eq!(r, format!("upload/{}.txt", token)),
        FType::Folder => panic!("payload must make a file"),
    }
}

#[test]
fn plan_entry_without_a_dot_appends_no_extension() {
    let token = "t".repeat(36);
    let file = plan_entry(&segs(&["archive"]), true, &token).expect("file plan");
    match file.f_type {
        FType::File(r) => assert_eq!(r, format!("upload/{}", token)),
        FType::Folder => panic!("payload must make a file"),
    }
}

#[test]
fn plan_entry_refuses_the_root() {
    let token = "t".repeat(36);
    let err = plan_entry(&segs(&[]), true, &token).expect_err("root overwrite");
    match err {
        FSError::OperationFailed(m) => assert_eq!(m, "Cannot overwrite root folder"),
        other => panic!("wrong error: {}", other.message()),
    }
}

#[test]
fn make_entry_node_generates_a_fresh_reference() {
    let n = make_entry_node(&segs(&["a.txt"]), true).expect("file plan");
    match &n.f_type {
        FType::File(r) => {
            assert!(r.starts_with("upload/"));
            assert!(r.ends_with(".txt"));
            assert_eq!(r.chars().count(), "upload/".len() + 36 + ".txt".len());
        },
        FType::Folder => panic!("payload must make a file"),
    }
    let again = make_entry_node(&segs(&["a.txt"]), true).expect("file plan");
    match (n.f_type, again.f_type) {
        (FType::File(r1), FType::File(r2)) => assert_ne!(r1, r2),
        _ => panic!("payload must make files"),
    }
    let d = make_entry_node(&segs(&["docs"]), false).expect("folder plan");
    assert!(matches!(d.f_type, FType::Folder));
    assert_eq!(d.name, "docs");
}

#[test]
fn raw_ref_streams_files_only() {
    let r = raw_ref(FNode { name: "a".to_string(), f_type: FType::File("upload/a".to_string()) })
        .expect("file has a reference");
    assert_eq!(r, "upload/a");
    let err = raw_ref(FNode { name: "d".to_string(), f_type: FType::Folder })
        .expect_err("folder has none");
    assert!(matches!(err, FSError::PathNotFound));
}
