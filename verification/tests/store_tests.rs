use arc::errors::ArcError;
use arc::rev::{FileSnap, Rev};
use arc::revid;
use arc::store::Store;

fn snap(path: &str, content: &str) -> FileSnap {
    FileSnap {
        path: String::from(path),
        content: String::from(content),
    }
}

#[test]
fn persist_then_retrieve_round_trip() {
    let mut store = Store::new();
    let id = revid::new();
    let rev = Rev {
        rev_id: id,
        parent_trunk: revid::empty(),
        parent_other: revid::empty(),
        files: vec![snap("a.txt", "hello"), snap("b.txt", "data")],
    };
    store.persist(rev);
    let back = store.retrieve(&id).unwrap();
    assert_eq!(back.get_id().value(), id.value());
    assert!(back.get_parent_trunk_id().is_empty());
    assert!(back.get_parent_other_id().is_empty());
    assert_eq!(back.get_files(), vec!["a.txt", "b.txt"]);
    assert_eq!(back.find_file(&String::from("a.txt")).unwrap().as_str(), "hello");
    assert_eq!(back.find_file(&String::from("b.txt")).unwrap().as_str(), "data");
    assert_eq!(back.find_file(&String::from("c.txt")), None);
}

#[test]
fn retrieve_unknown_is_not_found() {
    let store = Store::new();
    let id = revid::new();
    assert!(matches!(store.retrieve(&id), Err(ArcError::NotFound)));
    assert!(!store.contains(&id));
}

#[test]
fn parent_links_survive_storage() {
    let mut store = Store::new();
    let root = revid::new();
    store.persist(Rev {
        rev_id: root,
        parent_trunk: revid::empty(),
        parent_other: revid::empty(),
        files: Vec::new(),
    });
    let child = revid::new();
    store.persist(Rev {
        rev_id: child,
        parent_trunk: root,
        parent_other: revid::empty(),
        files: Vec::new(),
    });
    let back = store.retrieve(&child).unwrap();
    assert_eq!(back.get_parent_trunk_id().value(), root.value());
    assert!(back.get_parent_other_id().is_empty());
}

#[test]
fn fresh_id_is_unused() {
    let mut store = Store::new();
    for _ in 0..4 {
        let id = store.fresh_id();
        assert!(!id.is_empty());
        assert!(!store.contains(&id));
        store.persist(Rev {
            rev_id: id,
            parent_trunk: revid::empty(),
            parent_other: revid::empty(),
            files: Vec::new(),
        });
        assert!(store.contains(&id));
    }
}
