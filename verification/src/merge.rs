//! Ancestry resolution and merging.
//!
//! Graph algorithms over the revision DAG — reachability, trunk-line
//! ancestor chains, common-ancestor search, the fast-forward test — and
//! the merge machinery: a per-file three-way text merge and the
//! classification that assembles a whole-revision merge.
//!
//! Every algorithm here recurses along parent links. A well-formed store
//! keeps its revisions in topological order (parents first), so the rank
//! of an identifier — its position in that order — bounds every walk.

use vstd::prelude::*;
use vstd::seq_lib::*;

use crate::store;
use crate::store::{graph_of, ids_of, Store};
use crate::rev::{file_content_opt, file_paths, rev_wf, snaps_view, FileData, FileSnap, Rev, RevData};
use crate::revid::RevID;

verus! {

/// The rank of an identifier in a revision sequence: one past its index,
/// or zero for an identifier that does not occur (the empty sentinel
/// included). Walks along parent links strictly descend in rank.
pub open spec fn rank(m: Seq<RevData>, v: u128) -> int {
    if ids_of(m).contains(v) {
        ids_of(m).index_of_first(v)->0 + 1
    } else {
        0
    }
}

/// In a well-formed sequence, both parents of a present revision rank
/// strictly below it, and the graph entry under an identifier bears it.
pub proof fn lemma_parent_rank(m: Seq<RevData>, v: u128)
    requires
        store::seq_wf(m),
        ids_of(m).contains(v),
    ensures
        1 <= rank(m, v) <= m.len(),
        graph_of(m).contains_key(v),
        graph_of(m)[v].id == v,
        graph_of(m)[v].parent_trunk == 0 || ids_of(m).contains(graph_of(m)[v].parent_trunk),
        graph_of(m)[v].parent_other == 0 || ids_of(m).contains(graph_of(m)[v].parent_other),
        0 <= rank(m, graph_of(m)[v].parent_trunk) < rank(m, v),
        0 <= rank(m, graph_of(m)[v].parent_other) < rank(m, v),
{
    let ids = ids_of(m);
    store::lemma_graph_of_contains(m);
    store::lemma_graph_of_index(m);
    ids.index_of_first_ensures(v);
    let i = ids.index_of_first(v)->0;
    assert(m[i].id == v);
    assert(graph_of(m)[v] == m[i]);
    let pt = m[i].parent_trunk;
    let po = m[i].parent_other;
    if pt != 0 {
        let j = choose|j: int| 0 <= j < i && ids.take(i)[j] == pt;
        assert(ids[j] == pt);
        assert(ids.contains(pt));
        ids.index_of_first_ensures(pt);
        let jp = ids.index_of_first(pt)->0;
        assert(!(jp > j)) by {
            if jp > j {
                assert(ids[j] != pt);
            }
        }
    }
    if po != 0 {
        let j = choose|j: int| 0 <= j < i && ids.take(i)[j] == po;
        assert(ids[j] == po);
        assert(ids.contains(po));
        ids.index_of_first_ensures(po);
        let jp = ids.index_of_first(po)->0;
        assert(!(jp > j)) by {
            if jp > j {
                assert(ids[j] != po);
            }
        }
    }
}

/// Reachability along parent links: `target` equals `from`, or following
/// `parent_trunk` or `parent_other` edges from `from` arrives at it. The
/// empty sentinel reaches nothing.
pub open spec fn reaches(m: Seq<RevData>, from: u128, target: u128) -> bool
    decreases rank(m, from),
        when store::seq_wf(m)
        via reaches_decreases
{
    if from == 0 {
        false
    } else if from == target {
        true
    } else if ids_of(m).contains(from) {
        reaches(m, graph_of(m)[from].parent_trunk, target) || (graph_of(m)[from].parent_other != 0
            && reaches(m, graph_of(m)[from].parent_other, target))
    } else {
        false
    }
}

#[via_fn]
proof fn reaches_decreases(m: Seq<RevData>, from: u128, target: u128) {
    if store::seq_wf(m) && from != 0 && from != target && ids_of(m).contains(from) {
        lemma_parent_rank(m, from);
    }
}

/// Root-reachability with a skipped node: true when `from` is the empty
/// sentinel (the universal root), false at `skip`, and otherwise decided
/// through both parents. Distinct from `reaches`, which treats the empty
/// sentinel as reaching nothing; the two must not be conflated.
pub open spec fn root_reaches(m: Seq<RevData>, from: u128, skip: u128) -> bool
    decreases rank(m, from),
        when store::seq_wf(m)
        via root_reaches_decreases
{
    if from == 0 {
        true
    } else if from == skip {
        false
    } else if ids_of(m).contains(from) {
        root_reaches(m, graph_of(m)[from].parent_trunk, skip) || (graph_of(m)[from].parent_other
            != 0 && root_reaches(m, graph_of(m)[from].parent_other, skip))
    } else {
        false
    }
}

#[via_fn]
proof fn root_reaches_decreases(m: Seq<RevData>, from: u128, skip: u128) {
    if store::seq_wf(m) && from != 0 && from != skip && ids_of(m).contains(from) {
        lemma_parent_rank(m, from);
    }
}

/// Law: every revision reaches itself.
pub proof fn lemma_reaches_self(m: Seq<RevData>, x: u128)
    requires
        store::seq_wf(m),
        x != 0,
    ensures
        reaches(m, x, x),
{
}

/// Law: the empty sentinel, taken as the universal root, is reachable
/// whatever node is skipped.
pub proof fn lemma_root_reaches_empty(m: Seq<RevData>, skip: u128)
    requires
        store::seq_wf(m),
    ensures
        root_reaches(m, 0, skip),
{
}

/// Whether `target_id` is reachable from `cur_id` along parent links.
pub fn can_reach_rev(repo: &Store, cur_id: &RevID, target_id: &RevID) -> (r: bool)
    requires
        repo.wf(),
    ensures
        r == reaches(repo.models(), cur_id@, target_id@),
    decreases rank(repo.models(), cur_id@),
{
    if cur_id.is_empty() {
        return false;
    }
    if cur_id.value() == target_id.value() {
        return true;
    }
    proof {
        repo.lemma_wf_facts();
    }
    match repo.find_rev(cur_id) {
        Some(found) => {
            proof {
                lemma_parent_rank(repo.models(), cur_id@);
            }
            let pt = found.parent_trunk;
            let po = found.parent_other;
            if can_reach_rev(repo, &pt, target_id) {
                true
            } else if !po.is_empty() && can_reach_rev(repo, &po, target_id) {
                true
            } else {
                false
            }
        },
        None => false,
    }
}

/// Whether the universal root is reachable from `from_id` without passing
/// through `skip_id`.
pub fn can_reach_root(repo: &Store, from_id: &RevID, skip_id: &RevID) -> (r: bool)
    requires
        repo.wf(),
    ensures
        r == root_reaches(repo.models(), from_id@, skip_id@),
    decreases rank(repo.models(), from_id@),
{
    if from_id.is_empty() {
        return true;
    }
    if from_id.value() == skip_id.value() {
        return false;
    }
    proof {
        repo.lemma_wf_facts();
    }
    match repo.find_rev(from_id) {
        Some(found) => {
            proof {
                lemma_parent_rank(repo.models(), from_id@);
            }
            let pt = found.parent_trunk;
            let po = found.parent_other;
            if can_reach_root(repo, &pt, skip_id) {
                true
            } else if !po.is_empty() && can_reach_root(repo, &po, skip_id) {
                true
            } else {
                false
            }
        },
        None => false,
    }
}

/// Whether adopting `candidate` from `from` is a fast-forward: `from` is
/// an ancestor of `candidate`.
pub fn is_fast_forward(repo: &Store, from: &RevID, candidate: &RevID) -> (r: bool)
    requires
        repo.wf(),
    ensures
        r == reaches(repo.models(), candidate@, from@),
{
    can_reach_rev(repo, candidate, from)
}

/// The identifiers visited when walking `parent_trunk` links from `from`
/// down to the empty sentinel.
pub open spec fn pt_walk(m: Seq<RevData>, from: u128) -> Seq<u128>
    decreases rank(m, from),
        when store::seq_wf(m)
        via pt_walk_decreases
{
    if from != 0 && ids_of(m).contains(from) {
        seq![from] + pt_walk(m, graph_of(m)[from].parent_trunk)
    } else {
        Seq::empty()
    }
}

#[via_fn]
proof fn pt_walk_decreases(m: Seq<RevData>, from: u128) {
    if store::seq_wf(m) && from != 0 && ids_of(m).contains(from) {
        lemma_parent_rank(m, from);
    }
}

/// Every identifier on a trunk walk names a stored revision.
pub proof fn lemma_pt_walk_in_ids(m: Seq<RevData>, from: u128)
    requires
        store::seq_wf(m),
    ensures
        forall|i: int|
            0 <= i < pt_walk(m, from).len() ==> ids_of(m).contains(#[trigger] pt_walk(m, from)[i]),
    decreases rank(m, from),
{
    if from != 0 && ids_of(m).contains(from) {
        lemma_parent_rank(m, from);
        lemma_pt_walk_in_ids(m, graph_of(m)[from].parent_trunk);
        let tail = pt_walk(m, graph_of(m)[from].parent_trunk);
        assert forall|i: int|
            0 <= i < pt_walk(m, from).len() implies ids_of(m).contains(
            #[trigger] pt_walk(m, from)[i],
        ) by {
            if i > 0 {
                assert(pt_walk(m, from)[i] == tail[i - 1]);
            }
        }
    }
}

/// The genuinely trunk-only ancestors of `from`: the trunk walk, keeping
/// each identifier only when the root stays unreachable with it skipped —
/// an identifier also obtainable by an alternate path is pruned.
pub open spec fn trunk_chain(m: Seq<RevData>, from: u128) -> Seq<u128> {
    pt_walk(m, from).filter(|v: u128| !root_reaches(m, from, v))
}

/// The ordered trunk-line ancestor chain of `from_id`.
pub fn find_trunk_parents(repo: &Store, from_id: &RevID) -> (r: Vec<RevID>)
    requires
        repo.wf(),
        from_id@ == 0 || repo.graph().contains_key(from_id@),
    ensures
        r@.map_values(|x: RevID| x@) == trunk_chain(repo.models(), from_id@),
        forall|i: int|
            0 <= i < trunk_chain(repo.models(), from_id@).len() ==> ids_of(
                repo.models(),
            ).contains(#[trigger] trunk_chain(repo.models(), from_id@)[i]),
{
    let ghost m = repo.models();
    let ghost pred = |v: u128| !root_reaches(m, from_id@, v);
    proof {
        repo.lemma_wf_facts();
    }
    let mut parents: Vec<RevID> = Vec::new();
    let mut id: RevID = *from_id;
    while id.value() != 0
        invariant
            repo.wf(),
            m == repo.models(),
            pred == (|v: u128| !root_reaches(m, from_id@, v)),
            id@ == 0 || ids_of(m).contains(id@),
            parents@.map_values(|x: RevID| x@) + pt_walk(m, id@).filter(pred) == trunk_chain(
                m,
                from_id@,
            ),
        decreases rank(m, id@),
    {
        proof {
            repo.lemma_wf_facts();
            lemma_parent_rank(m, id@);
        }
        let keep = !can_reach_root(repo, from_id, &id);
        let rev = match repo.find_rev(&id) {
            Some(rev) => rev,
            None => {
                proof {
                    assert(false);
                }
                return parents;
            },
        };
        let next = rev.parent_trunk;
        proof {
            let walk = pt_walk(m, id@);
            let tail = pt_walk(m, next@);
            assert(walk == seq![id@] + tail);
            seq_filter_distributes_over_add(seq![id@], tail, pred);
            assert(seq![id@].filter(pred) =~= if pred(id@) {
                seq![id@]
            } else {
                Seq::<u128>::empty()
            }) by {
                reveal_with_fuel(Seq::filter, 2);
            }
        }
        if keep {
            let ghost prev = parents@;
            parents.push(id);
            proof {
                assert(parents@.map_values(|x: RevID| x@) =~= prev.map_values(|x: RevID| x@)
                    + seq![id@]);
            }
        } else {
            proof {
                assert(parents@.map_values(|x: RevID| x@) + pt_walk(m, next@).filter(pred)
                    =~= parents@.map_values(|x: RevID| x@) + seq![id@].filter(pred) + pt_walk(
                    m,
                    next@,
                ).filter(pred));
            }
        }
        id = next;
        proof {
            assert(parents@.map_values(|x: RevID| x@) + pt_walk(m, id@).filter(pred)
                =~= trunk_chain(m, from_id@));
        }
    }
    proof {
        assert(pt_walk(m, 0).filter(pred) =~= Seq::<u128>::empty());
        assert(parents@.map_values(|x: RevID| x@) =~= parents@.map_values(|x: RevID| x@) + pt_walk(
            m,
            0,
        ).filter(pred));
        lemma_pt_walk_in_ids(m, from_id@);
        let chain = trunk_chain(m, from_id@);
        let walk = pt_walk(m, from_id@);
        assert forall|i: int| 0 <= i < chain.len() implies ids_of(m).contains(
            #[trigger] chain[i],
        ) by {
            walk.lemma_filter_pred(pred, i);
            lemma_filter_element_of(walk, pred, i);
        }
    }
    parents
}

/// Every element of a filtered sequence is an element of the original.
pub proof fn lemma_filter_element_of<A>(s: Seq<A>, pred: spec_fn(A) -> bool, i: int)
    requires
        0 <= i < s.filter(pred).len(),
    ensures
        s.contains(s.filter(pred)[i]),
    decreases s.len(),
{
    reveal(Seq::filter);
    if s.len() > 0 {
        let rest = s.drop_last().filter(pred);
        if pred(s.last()) && i == s.filter(pred).len() - 1 {
            assert(s[s.len() - 1] == s.filter(pred)[i]);
        } else {
            lemma_filter_element_of(s.drop_last(), pred, i);
            let j = choose|j: int| 0 <= j < s.drop_last().len() && s.drop_last()[j] == rest[i];
            assert(s[j] == s.filter(pred)[i]);
        }
    }
}

/// Filtering distributes over concatenation.
proof fn seq_filter_distributes_over_add<A>(a: Seq<A>, b: Seq<A>, pred: spec_fn(A) -> bool)
    ensures
        (a + b).filter(pred) == a.filter(pred) + b.filter(pred),
{
    Seq::filter_distributes_over_add(a, b, pred);
}

/// The first entry of `cand` that also occurs in `among` and is neither
/// endpoint; the empty sentinel when there is none.
pub open spec fn first_common(cand: Seq<u128>, among: Seq<u128>, t: u128, o: u128) -> u128
    decreases cand.len(),
{
    if cand.len() == 0 {
        0
    } else if among.contains(cand[0]) && cand[0] != t && cand[0] != o {
        cand[0]
    } else {
        first_common(cand.drop_first(), among, t, o)
    }
}

/// The common ancestor the engine uses as a merge base: the first entry
/// of the other side's trunk chain that also lies on the trunk side's
/// chain and is neither merge input. Deliberately a trunk-spine
/// heuristic, not a full lowest-common-ancestor search: histories with
/// merges on both branches can yield a sub-optimal or wrong ancestor.
pub open spec fn spec_common_ancestor(m: Seq<RevData>, trunk: u128, other: u128) -> u128 {
    first_common(trunk_chain(m, other), trunk_chain(m, trunk), trunk, other)
}

/// The merge base of two revisions; the empty identifier when their
/// histories share no usable trunk-line ancestor.
pub fn find_common_ancestor(repo: &Store, trunk_id: &RevID, other_id: &RevID) -> (r: RevID)
    requires
        repo.wf(),
        repo.graph().contains_key(trunk_id@),
        repo.graph().contains_key(other_id@),
    ensures
        r@ == spec_common_ancestor(repo.models(), trunk_id@, other_id@),
        r@ == 0 || repo.graph().contains_key(r@),
{
    let ghost m = repo.models();
    let parents_trunk = find_trunk_parents(repo, trunk_id);
    let parents_other = find_trunk_parents(repo, other_id);
    let ghost cand = parents_other@.map_values(|x: RevID| x@);
    let ghost among = parents_trunk@.map_values(|x: RevID| x@);
    proof {
        assert(cand.skip(0) =~= cand);
    }
    let mut i: usize = 0;
    while i < parents_other.len()
        invariant
            repo.wf(),
            m == repo.models(),
            cand == parents_other@.map_values(|x: RevID| x@),
            among == parents_trunk@.map_values(|x: RevID| x@),
            cand == trunk_chain(m, other_id@),
            among == trunk_chain(m, trunk_id@),
            i <= parents_other@.len(),
            cand.len() == parents_other@.len(),
            forall|j: int| 0 <= j < cand.len() ==> ids_of(m).contains(#[trigger] cand[j]),
            first_common(cand.skip(i as int), among, trunk_id@, other_id@) == first_common(
                cand,
                among,
                trunk_id@,
                other_id@,
            ),
        decreases parents_other@.len() - i,
    {
        let p = parents_other[i];
        let hit = contains_id(&parents_trunk, &p) && p.value() != trunk_id.value() && p.value()
            != other_id.value();
        proof {
            assert(cand.skip(i as int)[0] == cand[i as int]);
            assert(cand.skip(i as int).drop_first() =~= cand.skip(i + 1));
        }
        if hit {
            proof {
                repo.lemma_wf_facts();
                assert(first_common(cand.skip(i as int), among, trunk_id@, other_id@) == p@);
            }
            return p;
        }
        i = i + 1;
    }
    proof {
        assert(cand.skip(parents_other@.len() as int) =~= Seq::<u128>::empty());
    }
    crate::revid::empty()
}

/// What a three-way text merge of two variants against a common ancestor
/// yields: the merged text, or `None` on a conflict. A function of the
/// three texts alone; "absent" is passed as empty content.
pub uninterp spec fn diff3(anc: Seq<char>, trunk: Seq<char>, other: Seq<char>) -> Option<
    Seq<char>,
>;

/// Relies on `diffy::merge`: a three-way text merge of `ours` and
/// `theirs` against `ancestor`. `Ok` carries the merged text and `Err` a
/// conflict-marked rendering; which comes, and the merged text, depend on
/// the three inputs alone. When both variants equal the ancestor, every
/// region is classified as unchanged and the ancestor text comes back
/// with no conflict.
#[verifier::external_body]
fn diffy_merge3(ancestor: &str, ours: &str, theirs: &str) -> (r: Result<String, String>)
    ensures
        match r {
            Ok(s) => diff3(ancestor@, ours@, theirs@) == Some(s@),
            Err(_) => diff3(ancestor@, ours@, theirs@) is None,
        },
        ancestor@ == ours@ && ancestor@ == theirs@ ==> r is Ok && (r matches Ok(s) ==> s@
            == ancestor@),
{
    diffy::merge(ancestor, ours, theirs)
}

/// The view of an optional text.
pub open spec fn opt_view(o: Option<String>) -> Option<Seq<char>> {
    match o {
        Some(s) => Some(s@),
        None => None,
    }
}

/// The decision table of the per-file three-way merge. `Ok(Some(c))`
/// keeps the file with content `c`, `Ok(None)` omits it, `Err(())` is a
/// conflict. A side absent from its revision merges as empty content; a
/// merge against an absent side whose result is empty is a deletion and
/// omits the file.
pub open spec fn spec_merge3(
    ancestor: Option<Seq<char>>,
    trunk: Option<Seq<char>>,
    other: Option<Seq<char>>,
) -> Result<Option<Seq<char>>, ()> {
    match (ancestor, trunk, other) {
        (Some(ac), Some(tc), Some(oc)) => match diff3(ac, tc, oc) {
            Some(mc) => Ok(Some(mc)),
            None => Err(()),
        },
        (Some(ac), Some(tc), None) => match diff3(ac, tc, Seq::empty()) {
            Some(mc) => if mc.len() == 0 {
                Ok(None)
            } else {
                Ok(Some(mc))
            },
            None => Err(()),
        },
        (Some(ac), None, Some(oc)) => match diff3(ac, Seq::empty(), oc) {
            Some(mc) => if mc.len() == 0 {
                Ok(None)
            } else {
                Ok(Some(mc))
            },
            None => Err(()),
        },
        (Some(_), None, None) => Ok(None),
        (None, Some(tc), Some(oc)) => match diff3(Seq::empty(), tc, oc) {
            Some(mc) => Ok(Some(mc)),
            None => Err(()),
        },
        (None, Some(tc), None) => Ok(Some(tc)),
        (None, None, Some(oc)) => Ok(Some(oc)),
        (None, None, None) => Ok(None),
    }
}

/// The per-file three-way merge. Takes the three optional contents of
/// one file in the ancestor, trunk and other revisions; returns the
/// file's fate: kept with merged content, omitted, or `MergeConflict`.
/// A merge of three equal contents returns that content unchanged.
pub fn merge3(ancestor: Option<String>, trunk: Option<String>, other: Option<String>) -> (r:
    Result<Option<String>, crate::errors::ArcError>)
    ensures
        match r {
            Ok(None) => spec_merge3(opt_view(ancestor), opt_view(trunk), opt_view(other)) == Ok::<
                Option<Seq<char>>,
                (),
            >(None),
            Ok(Some(s)) => spec_merge3(opt_view(ancestor), opt_view(trunk), opt_view(other)) == Ok::<
                Option<Seq<char>>,
                (),
            >(Some(s@)),
            Err(e) => spec_merge3(opt_view(ancestor), opt_view(trunk), opt_view(other)) is Err && e
                == crate::errors::ArcError::MergeConflict,
        },
        opt_view(ancestor) == opt_view(trunk) && opt_view(trunk) == opt_view(other) ==> (r is Ok
            && match r {
            Ok(kept) => opt_view(kept) == opt_view(ancestor),
            Err(_) => false,
        }),
{
    proof {
        reveal_strlit("");
        assert(""@ =~= Seq::<char>::empty());
    }
    match (&ancestor, &trunk, &other) {
        (Some(ac), Some(tc), Some(oc)) => {
            match diffy_merge3(ac.as_str(), tc.as_str(), oc.as_str()) {
                Ok(mc) => Ok(Some(mc)),
                Err(_) => Err(crate::errors::ArcError::MergeConflict),
            }
        },
        (Some(ac), Some(tc), None) => {
            match diffy_merge3(ac.as_str(), tc.as_str(), "") {
                Ok(mc) => {
                    if mc.as_str().is_empty() {
                        Ok(None)
                    } else {
                        Ok(Some(mc))
                    }
                },
                Err(_) => Err(crate::errors::ArcError::MergeConflict),
            }
        },
        (Some(ac), None, Some(oc)) => {
            match diffy_merge3(ac.as_str(), "", oc.as_str()) {
                Ok(mc) => {
                    if mc.as_str().is_empty() {
                        Ok(None)
                    } else {
                        Ok(Some(mc))
                    }
                },
                Err(_) => Err(crate::errors::ArcError::MergeConflict),
            }
        },
        (Some(_), None, None) => Ok(None),
        (None, Some(tc), Some(oc)) => {
            match diffy_merge3("", tc.as_str(), oc.as_str()) {
                Ok(mc) => Ok(Some(mc)),
                Err(_) => Err(crate::errors::ArcError::MergeConflict),
            }
        },
        (None, Some(_), None) => Ok(trunk),
        (None, None, Some(_)) => Ok(other),
        (None, None, None) => Ok(None),
    }
}

/// A sequence with its duplicates dropped: each element kept at its first
/// occurrence, order preserved.
pub open spec fn dedup_first(s: Seq<Seq<char>>) -> Seq<Seq<char>>
    decreases s.len(),
{
    if s.len() == 0 {
        s
    } else {
        let prefix = dedup_first(s.drop_last());
        if s.drop_last().contains(s.last()) {
            prefix
        } else {
            prefix.push(s.last())
        }
    }
}

/// Dropping duplicates keeps membership and leaves no duplicates.
pub proof fn lemma_dedup_first(s: Seq<Seq<char>>)
    ensures
        forall|x: Seq<char>| #[trigger] dedup_first(s).contains(x) <==> s.contains(x),
        dedup_first(s).no_duplicates(),
    decreases s.len(),
{
    if s.len() > 0 {
        lemma_dedup_first(s.drop_last());
        let prefix = dedup_first(s.drop_last());
        assert forall|x: Seq<char>| #[trigger] dedup_first(s).contains(x) implies s.contains(
            x,
        ) by {
            if prefix.contains(x) {
                assert(s.drop_last().contains(x));
                let j = choose|j: int| 0 <= j < s.drop_last().len() && s.drop_last()[j] == x;
                assert(s[j] == x);
            } else {
                assert(x == s.last());
                assert(s[s.len() - 1] == x);
            }
        }
        assert forall|x: Seq<char>| s.contains(x) implies #[trigger] dedup_first(s).contains(
            x,
        ) by {
            let j = choose|j: int| 0 <= j < s.len() && s[j] == x;
            if j < s.len() - 1 {
                assert(s.drop_last()[j] == x);
                assert(s.drop_last().contains(x));
                assert(prefix.contains(x));
                if !s.drop_last().contains(s.last()) {
                    let k = choose|k: int| 0 <= k < prefix.len() && prefix[k] == x;
                    assert(dedup_first(s)[k] == x);
                }
            } else {
                if s.drop_last().contains(s.last()) {
                    assert(prefix.contains(x));
                } else {
                    assert(dedup_first(s)[dedup_first(s).len() - 1] == x);
                }
            }
        }
        if !s.drop_last().contains(s.last()) {
            assert(dedup_first(s).drop_last() =~= prefix);
            assert(!prefix.contains(s.last()));
        }
    }
}

/// The union of three path lists in first-occurrence order: ancestor
/// paths, then trunk paths, then other paths, duplicates dropped.
pub open spec fn spec_all_files(
    v1: Seq<Seq<char>>,
    v2: Seq<Seq<char>>,
    v3: Seq<Seq<char>>,
) -> Seq<Seq<char>> {
    dedup_first(v1 + v2 + v3)
}

/// Whether `x` occurs among `v`.
fn contains_path(v: &Vec<String>, x: &String) -> (r: bool)
    ensures
        r == v@.map_values(|s: String| s@).contains(x@),
{
    let ghost m = v@.map_values(|s: String| s@);
    let mut i: usize = 0;
    while i < v.len()
        invariant
            i <= v@.len(),
            m == v@.map_values(|s: String| s@),
            m.len() == v@.len(),
            forall|j: int| 0 <= j < i ==> m[j] != x@,
        decreases v@.len() - i,
    {
        if v[i] == *x {
            proof {
                assert(m[i as int] == x@);
            }
            return true;
        }
        i = i + 1;
    }
    proof {
        if m.contains(x@) {
            let j = choose|j: int| 0 <= j < m.len() && m[j] == x@;
        }
    }
    false
}

/// Appends to `out` the entries of `v` (a slice of the conceptual input
/// `all`, starting at `offset`) that `out` does not yet hold.
fn dedup_extend(out: &mut Vec<String>, v: &Vec<String>, Ghost(all): Ghost<Seq<Seq<char>>>, Ghost(
    offset,
): Ghost<int>)
    requires
        0 <= offset,
        offset + v@.len() <= all.len(),
        forall|j: int| 0 <= j < v@.len() ==> #[trigger] all[offset + j] == v@.map_values(
            |s: String| s@,
        )[j],
        old(out)@.map_values(|s: String| s@) == dedup_first(all.take(offset)),
    ensures
        final(out)@.map_values(|s: String| s@) == dedup_first(all.take(offset + v@.len())),
{
    let ghost vm = v@.map_values(|s: String| s@);
    let mut i: usize = 0;
    while i < v.len()
        invariant
            i <= v@.len(),
            vm == v@.map_values(|s: String| s@),
            vm.len() == v@.len(),
            0 <= offset,
            offset + v@.len() <= all.len(),
            forall|j: int| 0 <= j < v@.len() ==> #[trigger] all[offset + j] == vm[j],
            out@.map_values(|s: String| s@) == dedup_first(all.take(offset + i)),
        decreases v@.len() - i,
    {
        let ghost k = offset + i;
        proof {
            assert(all.take(k + 1).drop_last() =~= all.take(k));
            assert(all.take(k + 1).last() == vm[i as int]);
            lemma_dedup_first(all.take(k));
        }
        if !contains_path(out, &v[i]) {
            let ghost prev = out@;
            out.push(v[i].clone());
            proof {
                assert(out@.map_values(|s: String| s@) =~= prev.map_values(|s: String| s@)
                    + seq![vm[i as int]]);
                assert(!all.take(k).contains(vm[i as int]));
                assert(out@.map_values(|s: String| s@) =~= dedup_first(all.take(k + 1)));
            }
        } else {
            proof {
                assert(all.take(k).contains(vm[i as int]));
            }
        }
        i = i + 1;
    }
    proof {
        assert(offset + i == offset + v@.len());
    }
}

/// The union of the file paths of three revisions, in first-occurrence
/// order (ancestor, then trunk, then other), duplicates dropped.
pub fn find_all_files(v1: &Vec<String>, v2: &Vec<String>, v3: &Vec<String>) -> (r: Vec<String>)
    ensures
        r@.map_values(|s: String| s@) == spec_all_files(
            v1@.map_values(|s: String| s@),
            v2@.map_values(|s: String| s@),
            v3@.map_values(|s: String| s@),
        ),
        r@.map_values(|s: String| s@).no_duplicates(),
{
    let ghost p1 = v1@.map_values(|s: String| s@);
    let ghost p2 = v2@.map_values(|s: String| s@);
    let ghost p3 = v3@.map_values(|s: String| s@);
    let ghost all = p1 + p2 + p3;
    let mut files: Vec<String> = Vec::new();
    proof {
        assert(files@.map_values(|s: String| s@) =~= dedup_first(all.take(0)));
        assert forall|j: int| 0 <= j < p1.len() implies #[trigger] all[0 + j] == v1@.map_values(
            |s: String| s@,
        )[j] by {}
    }
    dedup_extend(&mut files, v1, Ghost(all), Ghost(0));
    proof {
        assert forall|j: int| 0 <= j < p2.len() implies #[trigger] all[p1.len() + j]
            == v2@.map_values(|s: String| s@)[j] by {}
    }
    dedup_extend(&mut files, v2, Ghost(all), Ghost(p1.len() as int));
    proof {
        assert forall|j: int|
            0 <= j < p3.len() implies #[trigger] all[p1.len() + p2.len() + j] == v3@.map_values(
            |s: String| s@,
        )[j] by {}
    }
    dedup_extend(&mut files, v3, Ghost(all), Ghost((p1.len() + p2.len()) as int));
    proof {
        assert(all.take(all.len() as int) =~= all);
        lemma_dedup_first(all);
    }
    files
}


/// The fate of one path in a three-way revision merge: its three
/// optional contents, merged.
pub open spec fn merge_outcome(
    af: Seq<FileData>,
    tf: Seq<FileData>,
    of: Seq<FileData>,
    p: Seq<char>,
) -> Result<Option<Seq<char>>, ()> {
    spec_merge3(file_content_opt(af, p), file_content_opt(tf, p), file_content_opt(of, p))
}

/// The files a three-way revision merge keeps, walking `paths` in order:
/// each path whose outcome keeps content, with that content.
pub open spec fn merged_files(
    af: Seq<FileData>,
    tf: Seq<FileData>,
    of: Seq<FileData>,
    paths: Seq<Seq<char>>,
) -> Seq<FileData>
    decreases paths.len(),
{
    if paths.len() == 0 {
        Seq::empty()
    } else {
        let rest = merged_files(af, tf, of, paths.drop_last());
        match merge_outcome(af, tf, of, paths.last()) {
            Ok(kept) => match kept {
                Some(c) => rest.push(FileData { path: paths.last(), content: c }),
                None => rest,
            },
            Err(_) => rest,
        }
    }
}

/// The paths whose three-way merge conflicts, walking `paths` in order.
pub open spec fn conflict_paths(
    af: Seq<FileData>,
    tf: Seq<FileData>,
    of: Seq<FileData>,
    paths: Seq<Seq<char>>,
) -> Seq<Seq<char>>
    decreases paths.len(),
{
    if paths.len() == 0 {
        Seq::empty()
    } else {
        let rest = conflict_paths(af, tf, of, paths.drop_last());
        match merge_outcome(af, tf, of, paths.last()) {
            Ok(_) => rest,
            Err(_) => rest.push(paths.last()),
        }
    }
}

/// The kept files take their paths from `paths`, keeping order, so a
/// duplicate-free path list yields a duplicate-free snapshot.
pub proof fn lemma_merged_files_paths(
    af: Seq<FileData>,
    tf: Seq<FileData>,
    of: Seq<FileData>,
    paths: Seq<Seq<char>>,
)
    requires
        paths.no_duplicates(),
    ensures
        file_paths(merged_files(af, tf, of, paths)).no_duplicates(),
        forall|x: Seq<char>|
            #[trigger] file_paths(merged_files(af, tf, of, paths)).contains(x) ==> paths.contains(
                x,
            ),
    decreases paths.len(),
{
    if paths.len() > 0 {
        assert(paths.drop_last().no_duplicates());
        lemma_merged_files_paths(af, tf, of, paths.drop_last());
        let rest = merged_files(af, tf, of, paths.drop_last());
        let whole = merged_files(af, tf, of, paths);
        assert forall|x: Seq<char>| #[trigger] file_paths(whole).contains(x) implies paths.contains(
            x,
        ) by {
            let j = choose|j: int| 0 <= j < file_paths(whole).len() && file_paths(whole)[j] == x;
            if j < file_paths(rest).len() {
                assert(file_paths(rest)[j] == x);
                assert(file_paths(rest).contains(x));
                let k = choose|k: int|
                    0 <= k < paths.drop_last().len() && paths.drop_last()[k] == x;
                assert(paths[k] == x);
            } else {
                assert(x == paths.last());
                assert(paths[paths.len() - 1] == x);
            }
        }
        match merge_outcome(af, tf, of, paths.last()) {
            Ok(kept) => match kept {
                Some(c) => {
                    assert(file_paths(whole) =~= file_paths(rest).push(paths.last()));
                    assert(!file_paths(rest).contains(paths.last())) by {
                        if file_paths(rest).contains(paths.last()) {
                            assert(paths.drop_last().contains(paths.last()));
                            let k = choose|k: int|
                                0 <= k < paths.drop_last().len() && paths.drop_last()[k]
                                    == paths.last();
                            assert(paths[k] == paths[paths.len() - 1]);
                        }
                    }
                    assert(file_paths(whole).drop_last() =~= file_paths(rest));
                },
                None => {},
            },
            Err(_) => {},
        }
    }
}

/// Merges three revisions file by file: classifies each path of the
/// union of their file lists by membership, merges its contents, and
/// returns the kept snapshot together with the conflicting paths. A
/// conflict excludes only its own file; the rest of the merge proceeds.
pub fn merge_rev_files(ancestor: &Rev, trunk: &Rev, other: &Rev) -> (r: (
    Vec<FileSnap>,
    Vec<String>,
))
    requires
        rev_wf(ancestor@),
        rev_wf(trunk@),
        rev_wf(other@),
    ensures
        ({
            let union = spec_all_files(
                file_paths(ancestor@.files),
                file_paths(trunk@.files),
                file_paths(other@.files),
            );
            &&& snaps_view(r.0@) == merged_files(
                ancestor@.files,
                trunk@.files,
                other@.files,
                union,
            )
            &&& r.1@.map_values(|s: String| s@) == conflict_paths(
                ancestor@.files,
                trunk@.files,
                other@.files,
                union,
            )
            &&& file_paths(snaps_view(r.0@)).no_duplicates()
        }),
{
    let ghost af = ancestor@.files;
    let ghost tf = trunk@.files;
    let ghost of = other@.files;
    let ancestor_files = ancestor.get_files();
    let trunk_files = trunk.get_files();
    let other_files = other.get_files();
    let union = find_all_files(&ancestor_files, &trunk_files, &other_files);
    let ghost u = union@.map_values(|s: String| s@);
    let mut kept: Vec<FileSnap> = Vec::new();
    let mut conflicts: Vec<String> = Vec::new();
    proof {
        assert(snaps_view(kept@) =~= merged_files(af, tf, of, u.take(0)));
        assert(conflicts@.map_values(|s: String| s@) =~= conflict_paths(af, tf, of, u.take(0)));
    }
    let mut i: usize = 0;
    while i < union.len()
        invariant
            i <= union@.len(),
            u == union@.map_values(|s: String| s@),
            u.len() == union@.len(),
            u.no_duplicates(),
            af == ancestor@.files,
            tf == trunk@.files,
            of == other@.files,
            rev_wf(ancestor@),
            rev_wf(trunk@),
            rev_wf(other@),
            snaps_view(kept@) == merged_files(af, tf, of, u.take(i as int)),
            conflicts@.map_values(|s: String| s@) == conflict_paths(af, tf, of, u.take(i as int)),
        decreases union@.len() - i,
    {
        let p = &union[i];
        let anc_c: Option<String> = match ancestor.find_file(p) {
            Some(c) => Some(c.clone()),
            None => None,
        };
        let trunk_c: Option<String> = match trunk.find_file(p) {
            Some(c) => Some(c.clone()),
            None => None,
        };
        let other_c: Option<String> = match other.find_file(p) {
            Some(c) => Some(c.clone()),
            None => None,
        };
        proof {
            assert(opt_view(anc_c) == file_content_opt(af, p@));
            assert(opt_view(trunk_c) == file_content_opt(tf, p@));
            assert(opt_view(other_c) == file_content_opt(of, p@));
            assert(u.take(i + 1).drop_last() =~= u.take(i as int));
            assert(u.take(i + 1).last() == u[i as int]);
            assert(u[i as int] == p@);
        }
        match merge3(anc_c, trunk_c, other_c) {
            Ok(Some(c)) => {
                let ghost prev = kept@;
                kept.push(FileSnap { path: p.clone(), content: c });
                proof {
                    assert(snaps_view(kept@) =~= snaps_view(prev).push(
                        FileData { path: p@, content: kept@.last()@.content },
                    ));
                    assert(snaps_view(kept@) =~= merged_files(af, tf, of, u.take(i + 1)));
                }
            },
            Ok(None) => {
                proof {
                    assert(snaps_view(kept@) =~= merged_files(af, tf, of, u.take(i + 1)));
                }
            },
            Err(_) => {
                let ghost prevc = conflicts@;
                conflicts.push(p.clone());
                proof {
                    assert(conflicts@.map_values(|s: String| s@) =~= prevc.map_values(
                        |s: String| s@,
                    ).push(p@));
                    assert(conflicts@.map_values(|s: String| s@) =~= conflict_paths(
                        af,
                        tf,
                        of,
                        u.take(i + 1),
                    ));
                }
            },
        }
        proof {
            assert(conflicts@.map_values(|s: String| s@) =~= conflict_paths(
                af,
                tf,
                of,
                u.take(i + 1),
            ));
            assert(snaps_view(kept@) =~= merged_files(af, tf, of, u.take(i + 1)));
        }
        i = i + 1;
    }
    proof {
        assert(u.take(u.len() as int) =~= u);
        lemma_merged_files_paths(af, tf, of, u);
    }
    (kept, conflicts)
}

/// Whether `x` occurs among `v`.
fn contains_id(v: &Vec<RevID>, x: &RevID) -> (r: bool)
    ensures
        r == v@.map_values(|y: RevID| y@).contains(x@),
{
    let ghost m = v@.map_values(|y: RevID| y@);
    let mut i: usize = 0;
    while i < v.len()
        invariant
            i <= v@.len(),
            m == v@.map_values(|y: RevID| y@),
            m.len() == v@.len(),
            forall|j: int| 0 <= j < i ==> m[j] != x@,
        decreases v@.len() - i,
    {
        if v[i].value() == x.value() {
            proof {
                assert(m[i as int] == x@);
            }
            return true;
        }
        i = i + 1;
    }
    proof {
        if m.contains(x@) {
            let j = choose|j: int| 0 <= j < m.len() && m[j] == x@;
        }
    }
    false
}

} // verus!
