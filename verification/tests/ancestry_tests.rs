use arc::merge::{
    can_reach_rev, can_reach_root, find_common_ancestor, find_trunk_parents, is_fast_forward,
};
use arc::rev::Rev;
use arc::revid;
use arc::revid::RevID;
use arc::store::Store;

fn add(store: &mut Store, parent_trunk: RevID, parent_other: RevID) -> RevID {
    let id = store.fresh_id();
    store.persist(Rev {
        rev_id: id,
        parent_trunk,
        parent_other,
        files: Vec::new(),
    });
    id
}

/// A small history: a root, a trunk line, and a side line off the root.
///
/// ```text
/// r0 <- r1 <- r2      (trunk line)
///   \
///    s1               (side line)
/// ```
fn sample() -> (Store, RevID, RevID, RevID, RevID) {
    let mut store = Store::new();
    let r0 = add(&mut store, revid::empty(), revid::empty());
    let r1 = add(&mut store, r0, revid::empty());
    let r2 = add(&mut store, r1, revid::empty());
    let s1 = add(&mut store, r0, revid::empty());
    (store, r0, r1, r2, s1)
}

#[test]
fn every_revision_reaches_itself() {
    let (store, r0, r1, r2, s1) = sample();
    for id in [r0, r1, r2, s1] {
        assert!(can_reach_rev(&store, &id, &id));
    }
}

#[test]
fn empty_reaches_nothing_but_is_a_root() {
    let (store, r0, _, _, _) = sample();
    let empty = revid::empty();
    assert!(!can_reach_rev(&store, &empty, &r0));
    assert!(!can_reach_rev(&store, &empty, &empty));
    // The empty sentinel as a starting point is always root-reachable,
    // whatever is skipped.
    assert!(can_reach_root(&store, &empty, &r0));
    assert!(can_reach_root(&store, &empty, &empty));
}

#[test]
fn reachability_follows_parent_links_only_downward() {
    let (store, r0, r1, r2, s1) = sample();
    assert!(can_reach_rev(&store, &r2, &r0));
    assert!(can_reach_rev(&store, &r2, &r1));
    assert!(can_reach_rev(&store, &s1, &r0));
    assert!(!can_reach_rev(&store, &r0, &r2));
    assert!(!can_reach_rev(&store, &s1, &r2));
    assert!(!can_reach_rev(&store, &r2, &s1));
}

#[test]
fn fast_forward_means_ancestor_of_candidate() {
    let (store, r0, _, r2, s1) = sample();
    assert!(is_fast_forward(&store, &r0, &r2));
    assert!(!is_fast_forward(&store, &r2, &r0));
    assert!(!is_fast_forward(&store, &s1, &r2));
}

#[test]
fn trunk_parents_walk_the_trunk_line() {
    let (store, r0, r1, r2, s1) = sample();
    let chain: Vec<u128> = find_trunk_parents(&store, &r2)
        .iter()
        .map(|id| id.value())
        .collect();
    assert_eq!(chain, vec![r2.value(), r1.value(), r0.value()]);
    let side: Vec<u128> = find_trunk_parents(&store, &s1)
        .iter()
        .map(|id| id.value())
        .collect();
    assert_eq!(side, vec![s1.value(), r0.value()]);
}

#[test]
fn merge_revision_keeps_only_unavoidable_trunk_ancestors() {
    // From a merge revision, r1 and r2 can be bypassed through the
    // other parent s1, so the root stays reachable with either of them
    // skipped and both are pruned. Every path still passes r0, so r0 is
    // a genuine trunk-only ancestor and stays.
    let (mut store, r0, _, r2, s1) = sample();
    let m = add(&mut store, r2, s1);
    let chain: Vec<u128> = find_trunk_parents(&store, &m)
        .iter()
        .map(|id| id.value())
        .collect();
    assert_eq!(chain, vec![m.value(), r0.value()]);
}

#[test]
fn common_ancestor_of_diverged_lines() {
    let (store, r0, _, r2, s1) = sample();
    let anc = find_common_ancestor(&store, &r2, &s1);
    assert_eq!(anc.value(), r0.value());
}

#[test]
fn common_ancestor_of_unrelated_roots_is_empty() {
    let mut store = Store::new();
    let a = add(&mut store, revid::empty(), revid::empty());
    let b = add(&mut store, revid::empty(), revid::empty());
    let anc = find_common_ancestor(&store, &a, &b);
    assert!(anc.is_empty());
}
