use arc::errors::ArcError;
use arc::repo;
use arc::repo::Repo;
use arc::sync::{clone_repo, pull, push};

fn write(repo: &mut Repo, path: &str, content: &str) {
    repo.put_work_file(String::from(path), String::from(content));
}

fn track(repo: &mut Repo, path: &str) {
    repo.add_file(&String::from(path));
}

fn work_content(repo: &Repo, path: &str) -> Option<String> {
    repo.read_work_file(&String::from(path)).cloned()
}

fn ids_of(repo: &Repo) -> Vec<u128> {
    let mut ids = Vec::new();
    for i in 0..repo.rev_count() {
        ids.push(repo.rev_at(i).get_id().value());
    }
    ids
}

#[test]
fn sync_copies_missing_and_is_idempotent() {
    let mut source = repo::init(&String::from("/peers/src"));
    write(&mut source, "a.txt", "one");
    track(&mut source, "a.txt");
    source.commit();
    write(&mut source, "a.txt", "two");
    source.commit();

    let mut dest = repo::init(&String::from("/peers/dst"));
    dest.sync(&source);
    assert_eq!(ids_of(&dest), ids_of(&source));

    // A second run from the same source adds nothing.
    let once = ids_of(&dest);
    dest.sync(&source);
    assert_eq!(ids_of(&dest), once);

    // Synchronization is monotone: new local work survives later runs.
    write(&mut source, "a.txt", "three");
    source.commit();
    dest.sync(&source);
    assert_eq!(ids_of(&dest), ids_of(&source));
    dest.sync(&source);
    assert_eq!(ids_of(&dest), ids_of(&source));
}

#[test]
fn clone_takes_catalog_head_and_files() {
    let mut source = repo::init(&String::from("/peers/c_src"));
    write(&mut source, "a.txt", "payload");
    track(&mut source, "a.txt");
    let (r1, _) = source.commit();

    let cloned = clone_repo(&source, &String::from("/peers/c_dst"));
    assert_eq!(ids_of(&cloned), ids_of(&source));
    assert_eq!(cloned.get_head_rev().value(), r1.value());
    assert_eq!(
        cloned.get_upstream().as_ref().map(|s| s.as_str()),
        Some("/peers/c_src")
    );
    assert_eq!(cloned.get_root().as_str(), "/peers/c_dst");
    assert_eq!(work_content(&cloned, "a.txt").unwrap(), "payload");
    assert_eq!(cloned.get_tracked(), &vec![String::from("a.txt")]);
}

#[test]
fn merge_of_unrelated_histories_fails() {
    let mut left = repo::init(&String::from("/peers/u_left"));
    write(&mut left, "a.txt", "l");
    track(&mut left, "a.txt");
    left.commit();

    let mut right = repo::init(&String::from("/peers/u_right"));
    write(&mut right, "b.txt", "r");
    track(&mut right, "b.txt");
    right.commit();

    // Bring both histories into one repository, then try to merge them.
    left.sync(&right);
    let l_head = left.get_head_rev();
    let r_head = right.get_head_rev();
    assert!(matches!(
        left.merge(&l_head, &r_head),
        Err(ArcError::NoCommonAncestor)
    ));
}

#[test]
fn push_surfaces_conflict_and_merges_the_rest() {
    let mut source = repo::init(&String::from("/peers/p_src"));
    write(&mut source, "a.txt", "base\n");
    write(&mut source, "b.txt", "stay\n");
    track(&mut source, "a.txt");
    track(&mut source, "b.txt");
    source.commit();

    let mut local = clone_repo(&source, &String::from("/peers/p_dst"));

    // Incompatible edits to the same file on both sides.
    write(&mut source, "a.txt", "left\n");
    source.commit();
    write(&mut local, "a.txt", "right\n");
    write(&mut local, "d.txt", "new\n");
    track(&mut local, "d.txt");
    local.commit();

    let (merged, conflicts) = push(&mut source, &local).unwrap();
    assert_eq!(conflicts, vec!["a.txt"]);
    assert_eq!(source.get_head_rev().value(), merged.value());

    // The conflicting file is excluded from the merge revision; the
    // unrelated files merge fine.
    let rev = source.retrieve(&merged).unwrap_or_else(|_| panic!("missing"));
    assert_eq!(rev.get_files(), vec!["b.txt", "d.txt"]);
    assert_eq!(work_content(&source, "b.txt").unwrap(), "stay\n");
    assert_eq!(work_content(&source, "d.txt").unwrap(), "new\n");
    assert_eq!(work_content(&source, "a.txt"), None);
}

#[test]
fn pull_fast_forwards_behind_peer() {
    let mut source = repo::init(&String::from("/peers/f_src"));
    write(&mut source, "a.txt", "v1\n");
    track(&mut source, "a.txt");
    source.commit();

    let mut local = clone_repo(&source, &String::from("/peers/f_dst"));

    // The peer moves ahead; the clone pulls and fast-forwards.
    write(&mut source, "a.txt", "v2\n");
    let (r2, _) = source.commit();

    let before = ids_of(&source).len();
    let (merged, conflicts) = pull(&mut local, &source).unwrap();
    assert_eq!(merged.value(), r2.value());
    assert!(conflicts.is_empty());
    assert_eq!(ids_of(&local), ids_of(&source));
    assert_eq!(ids_of(&source).len(), before);
    assert_eq!(work_content(&local, "a.txt").unwrap(), "v2\n");
    assert_eq!(local.get_head_rev().value(), r2.value());
}
