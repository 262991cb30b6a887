use arc::mach::{find_rel_path, join_paths};

#[test]
fn join_plain() {
    assert_eq!(join_paths(&String::from("a"), &String::from("b")), "a/b");
}

#[test]
fn join_keeps_single_separator() {
    assert_eq!(join_paths(&String::from("a/"), &String::from("b")), "a/b");
}

#[test]
fn join_absolute_second_wins() {
    assert_eq!(join_paths(&String::from("a"), &String::from("/b")), "/b");
}

#[test]
fn join_empty_first() {
    assert_eq!(join_paths(&String::from(""), &String::from("b")), "b");
}

#[test]
fn rel_path_under_base() {
    assert_eq!(
        find_rel_path(&String::from("/repo"), &String::from("/repo/dir/a.txt")),
        "dir/a.txt"
    );
}

#[test]
fn rel_path_outside_base() {
    assert_eq!(find_rel_path(&String::from("/x"), &String::from("/y/z")), "");
}
