use arc::errors::ArcError;
use arc::repo;
use arc::repo::Repo;
use arc::revid;
use arc::revid::RevID;

fn fresh_repo(root: &str) -> Repo {
    repo::init(&String::from(root))
}

fn write(repo: &mut Repo, path: &str, content: &str) {
    repo.put_work_file(String::from(path), String::from(content));
}

fn track(repo: &mut Repo, path: &str) {
    repo.add_file(&String::from(path));
}

fn work_content(repo: &Repo, path: &str) -> Option<String> {
    repo.read_work_file(&String::from(path)).cloned()
}

fn rev_file(repo: &Repo, id: &RevID, path: &str) -> Option<String> {
    let rev = match repo.retrieve(id) {
        Ok(rev) => rev,
        Err(_) => panic!("revision should exist"),
    };
    rev.find_file(&String::from(path)).cloned()
}

#[test]
fn init_starts_empty() {
    let repo = fresh_repo("/work/project");
    assert_eq!(repo.rev_count(), 0);
    assert!(repo.get_head_rev().is_empty());
    assert!(repo.get_tracked().is_empty());
    assert_eq!(repo.get_upstream(), &None);
    assert_eq!(repo.arc_path, "/work/project/.arc");
}

#[test]
fn scenario_commit_then_checkout_root() {
    let mut repo = fresh_repo("/work/a");
    write(&mut repo, "a.txt", "hello");
    track(&mut repo, "a.txt");
    let (r1, missing) = repo.commit();
    assert!(missing.is_empty());
    assert!(!r1.is_empty());
    assert_eq!(repo.get_head_rev().value(), r1.value());
    assert_eq!(repo.rev_count(), 1);
    assert_eq!(repo.get_tracked(), &vec![String::from("a.txt")]);
    assert_eq!(rev_file(&repo, &r1, "a.txt").unwrap(), "hello");

    // Checking the empty initial root out removes the tracked file.
    repo.checkout(&revid::empty()).unwrap();
    assert_eq!(work_content(&repo, "a.txt"), None);
    assert!(repo.get_tracked().is_empty());
    assert!(repo.get_head_rev().is_empty());
    // The committed revision itself is untouched.
    assert_eq!(rev_file(&repo, &r1, "a.txt").unwrap(), "hello");
}

#[test]
fn scenario_divergent_edits_merge() {
    let mut repo = fresh_repo("/work/b");
    write(&mut repo, "a.txt", "hello");
    track(&mut repo, "a.txt");
    let (r1, _) = repo.commit();

    // Edit a.txt on one line of history.
    write(&mut repo, "a.txt", "hello world");
    let (r2, _) = repo.commit();
    {
        let rev = repo.retrieve(&r2).unwrap_or_else(|_| panic!("missing"));
        assert_eq!(rev.get_parent_trunk_id().value(), r1.value());
        assert!(rev.get_parent_other_id().is_empty());
    }

    // Independently from R1, add b.txt.
    repo.checkout(&r1).unwrap();
    assert_eq!(work_content(&repo, "a.txt").unwrap(), "hello");
    write(&mut repo, "b.txt", "data");
    track(&mut repo, "b.txt");
    let (r3, _) = repo.commit();
    {
        let rev = repo.retrieve(&r3).unwrap_or_else(|_| panic!("missing"));
        assert_eq!(rev.get_parent_trunk_id().value(), r1.value());
    }

    // Merge the two lines of history.
    let (r4, conflicts) = repo.merge(&r2, &r3).unwrap();
    assert!(conflicts.is_empty());
    let rev = repo.retrieve(&r4).unwrap_or_else(|_| panic!("missing"));
    assert_eq!(rev.get_parent_trunk_id().value(), r2.value());
    assert_eq!(rev.get_parent_other_id().value(), r3.value());
    assert_eq!(rev.get_files(), vec!["a.txt", "b.txt"]);
    assert_eq!(rev.find_file(&String::from("a.txt")).unwrap().as_str(), "hello world");
    assert_eq!(rev.find_file(&String::from("b.txt")).unwrap().as_str(), "data");
    assert_eq!(repo.get_head_rev().value(), r4.value());
}

#[test]
fn fast_forward_creates_no_revision() {
    let mut repo = fresh_repo("/work/c");
    write(&mut repo, "a.txt", "one");
    track(&mut repo, "a.txt");
    let (r1, _) = repo.commit();
    write(&mut repo, "a.txt", "two");
    let (r2, _) = repo.commit();
    let count = repo.rev_count();

    // The descendant comes back, whichever side it stands on.
    let (m, conflicts) = repo.merge(&r1, &r2).unwrap();
    assert_eq!(m.value(), r2.value());
    assert!(conflicts.is_empty());
    assert_eq!(repo.rev_count(), count);

    let (m, _) = repo.merge(&r2, &r1).unwrap();
    assert_eq!(m.value(), r2.value());
    assert_eq!(repo.rev_count(), count);

    // Merging a revision with itself is a no-op.
    let (m, _) = repo.merge(&r2, &r2).unwrap();
    assert_eq!(m.value(), r2.value());
    assert_eq!(repo.rev_count(), count);
}

#[test]
fn commit_reports_missing_tracked_files() {
    let mut repo = fresh_repo("/work/d");
    write(&mut repo, "a.txt", "kept");
    write(&mut repo, "b.txt", "doomed");
    track(&mut repo, "a.txt");
    track(&mut repo, "b.txt");
    repo.del_work_file(&String::from("b.txt"));
    let (r1, missing) = repo.commit();
    assert_eq!(missing, vec!["b.txt"]);
    let rev = repo.retrieve(&r1).unwrap_or_else(|_| panic!("missing"));
    assert_eq!(rev.get_files(), vec!["a.txt"]);
}

#[test]
fn checkout_unknown_revision_is_not_found() {
    let mut repo = fresh_repo("/work/e");
    write(&mut repo, "a.txt", "x");
    track(&mut repo, "a.txt");
    repo.commit();
    let stranger = revid::new();
    assert_eq!(repo.checkout(&stranger), Err(ArcError::NotFound));
    // Nothing changed.
    assert_eq!(work_content(&repo, "a.txt").unwrap(), "x");
}

#[test]
fn add_file_is_idempotent_and_remove_file_deletes() {
    let mut repo = fresh_repo("/work/f");
    write(&mut repo, "a.txt", "x");
    track(&mut repo, "a.txt");
    track(&mut repo, "a.txt");
    assert_eq!(repo.get_tracked().len(), 1);
    repo.remove_file(&String::from("a.txt"));
    assert!(repo.get_tracked().is_empty());
    assert_eq!(work_content(&repo, "a.txt"), None);
}

#[test]
fn checkout_restores_exact_snapshot() {
    let mut repo = fresh_repo("/work/g");
    write(&mut repo, "a.txt", "v1");
    write(&mut repo, "b.txt", "only at first");
    track(&mut repo, "a.txt");
    track(&mut repo, "b.txt");
    let (r1, _) = repo.commit();

    repo.remove_file(&String::from("b.txt"));
    write(&mut repo, "a.txt", "v2");
    let (r2, _) = repo.commit();

    repo.checkout(&r1).unwrap();
    assert_eq!(work_content(&repo, "a.txt").unwrap(), "v1");
    assert_eq!(work_content(&repo, "b.txt").unwrap(), "only at first");

    repo.checkout(&r2).unwrap();
    assert_eq!(work_content(&repo, "a.txt").unwrap(), "v2");
    assert_eq!(work_content(&repo, "b.txt"), None);
    assert_eq!(repo.get_tracked(), &vec![String::from("a.txt")]);
}
