use arc::errors::ArcError;
use arc::merge::{find_all_files, merge3};

#[test]
fn merge3_equal_inputs_unchanged() {
    let content = String::from("alpha\nbeta\n");
    let r = merge3(
        Some(content.clone()),
        Some(content.clone()),
        Some(content.clone()),
    );
    assert_eq!(r.unwrap().unwrap(), "alpha\nbeta\n");
}

#[test]
fn merge3_combines_disjoint_edits() {
    let ancestor = String::from("one\ntwo\nthree\n");
    let trunk = String::from("ONE\ntwo\nthree\n");
    let other = String::from("one\ntwo\nTHREE\n");
    let r = merge3(Some(ancestor), Some(trunk), Some(other));
    assert_eq!(r.unwrap().unwrap(), "ONE\ntwo\nTHREE\n");
}

#[test]
fn merge3_conflict_on_same_line() {
    let ancestor = String::from("base\n");
    let trunk = String::from("left\n");
    let other = String::from("right\n");
    let r = merge3(Some(ancestor), Some(trunk), Some(other));
    assert_eq!(r.unwrap_err(), ArcError::MergeConflict);
}

#[test]
fn merge3_deletion_wins_when_other_side_unchanged() {
    let ancestor = String::from("gone\n");
    let trunk = String::from("gone\n");
    let r = merge3(Some(ancestor), Some(trunk), None);
    assert_eq!(r.unwrap(), None);
}

#[test]
fn merge3_deleted_on_both_sides() {
    let r = merge3(Some(String::from("was here\n")), None, None);
    assert_eq!(r.unwrap(), None);
}

#[test]
fn merge3_new_file_single_side_kept_verbatim() {
    let r = merge3(None, Some(String::from("fresh\n")), None);
    assert_eq!(r.unwrap().unwrap(), "fresh\n");
    let r = merge3(None, None, Some(String::from("other\n")));
    assert_eq!(r.unwrap().unwrap(), "other\n");
}

#[test]
fn merge3_new_identical_on_both_sides() {
    let r = merge3(
        None,
        Some(String::from("same\n")),
        Some(String::from("same\n")),
    );
    assert_eq!(r.unwrap().unwrap(), "same\n");
}

#[test]
fn merge3_nothing_anywhere() {
    let r = merge3(None, None, None);
    assert_eq!(r.unwrap(), None);
}

#[test]
fn find_all_files_first_occurrence_order() {
    let v1 = vec![String::from("a"), String::from("b")];
    let v2 = vec![String::from("b"), String::from("c")];
    let v3 = vec![String::from("c"), String::from("a"), String::from("d")];
    let union = find_all_files(&v1, &v2, &v3);
    assert_eq!(union, vec!["a", "b", "c", "d"]);
}

#[test]
fn find_all_files_empty_inputs() {
    let empty: Vec<String> = Vec::new();
    let union = find_all_files(&empty, &empty, &empty);
    assert!(union.is_empty());
}
