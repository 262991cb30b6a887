//! The synchronization engine.
//!
//! Transfers of missing revisions between repositories (`Repo::sync`)
//! compose with merging and checkout into the peer-to-peer operations:
//! push, pull, and clone. No central server takes part; the peer is
//! another repository value.

use vstd::prelude::*;
use vstd::seq_lib::*;

use crate::errors::ArcError;
use crate::merge::reaches;
use crate::repo;
use crate::repo::{absent_model, merge_rev_data, spec_merge_conflicts, Repo};
use crate::rev::{file_content_opt, file_paths, has_file, RevData};
use crate::store;
use crate::store::graph_of;
use crate::revid::RevID;

verus! {

/// The catalog of `dst` after synchronizing from `src`: everything of
/// `dst`, then the revisions of `src` it lacked, in `src` order.
pub open spec fn synced_models(dst: Seq<RevData>, src: Seq<RevData>) -> Seq<RevData> {
    dst + src.filter(absent_model(graph_of(dst)))
}

/// A filter that keeps everything changes nothing.
proof fn lemma_filter_all_true(s: Seq<RevData>, pred: spec_fn(RevData) -> bool)
    requires
        forall|i: int| 0 <= i < s.len() ==> pred(#[trigger] s[i]),
    ensures
        s.filter(pred) == s,
    decreases s.len(),
{
    reveal(Seq::filter);
    if s.len() > 0 {
        lemma_filter_all_true(s.drop_last(), pred);
        assert(s.filter(pred) =~= s.drop_last().push(s.last()));
        assert(s.drop_last().push(s.last()) =~= s);
    }
}

/// Law (idempotence): synchronizing twice from the same source yields
/// the same catalog as synchronizing once — the second transfer finds
/// nothing missing. Stated over the catalog sequence and over the
/// graph.
pub proof fn lemma_sync_idempotent(dst: Seq<RevData>, src: Seq<RevData>)
    ensures
        synced_models(synced_models(dst, src), src) == synced_models(dst, src),
        graph_of(src).union_prefer_right(graph_of(src).union_prefer_right(graph_of(dst)))
            == graph_of(src).union_prefer_right(graph_of(dst)),
{
    let m1 = synced_models(dst, src);
    let pred1 = absent_model(graph_of(dst));
    let pred2 = absent_model(graph_of(m1));
    store::lemma_graph_of_contains(m1);
    store::lemma_graph_of_contains(dst);
    assert forall|j: int| 0 <= j < src.len() implies !pred2(#[trigger] src[j]) by {
        let rd = src[j];
        if graph_of(dst).contains_key(rd.id) {
            let k = choose|k: int|
                0 <= k < store::ids_of(dst).len() && store::ids_of(dst)[k] == rd.id;
            assert(store::ids_of(m1)[k] == rd.id) by {
                assert(m1[k] == dst[k]);
            }
            assert(store::ids_of(m1).contains(rd.id));
        } else {
            src.lemma_filter_contains(pred1, j);
            let filtered = src.filter(pred1);
            let k = choose|k: int| 0 <= k < filtered.len() && filtered[k] == rd;
            assert(m1[dst.len() + k] == rd);
            assert(store::ids_of(m1)[dst.len() + k] == rd.id);
            assert(store::ids_of(m1).contains(rd.id));
        }
    }
    assert(src.filter(pred2) =~= Seq::<RevData>::empty()) by {
        src.lemma_all_neg_filter_empty(pred2);
    }
    assert(synced_models(m1, src) =~= m1);
    assert(graph_of(src).union_prefer_right(graph_of(src).union_prefer_right(graph_of(dst)))
        =~= graph_of(src).union_prefer_right(graph_of(dst)));
}

/// Law (monotonicity): synchronization never removes or replaces a
/// local revision — every entry of the destination catalog survives a
/// transfer unchanged.
pub proof fn lemma_sync_monotone(dst: Map<u128, RevData>, src: Map<u128, RevData>)
    ensures
        forall|k: u128| #[trigger]
            dst.contains_key(k) ==> src.union_prefer_right(dst).contains_key(k)
                && src.union_prefer_right(dst)[k] == dst[k],
{
}

/// Pushes to the upstream peer: the peer first synchronizes from this
/// repository, then merges its own head with this repository's head
/// (its head as the trunk side), and checks the result out. The merge
/// result and any per-file conflicts come back; unrelated histories
/// fail with `NoCommonAncestor` and leave the peer's working state
/// untouched.
pub fn push(upstream: &mut Repo, local: &Repo) -> (r: Result<(RevID, Vec<String>), ArcError>)
    requires
        old(upstream).wf(),
        local.wf(),
        old(upstream).head() != 0,
        local.head() != 0,
    ensures
        final(upstream).wf(),
        final(upstream).ups() == old(upstream).ups(),
        final(upstream).root() == old(upstream).root(),
        final(upstream).arc() == old(upstream).arc(),
        sync_merge_post(
            old(upstream).models(),
            old(upstream).tracked_list(),
            old(upstream).wd(),
            old(upstream).head(),
            local.models(),
            old(upstream).head(),
            local.head(),
            *final(upstream),
            r,
        ),
{
    upstream.sync(local);
    proof {
        store::lemma_graph_of_contains(old(upstream).models());
        store::lemma_graph_of_contains(local.models());
        assert(graph_of(old(upstream).models()).contains_key(old(upstream).head()));
        assert(graph_of(local.models()).contains_key(local.head()));
        assert(upstream.graph().contains_key(old(upstream).head()));
        assert(upstream.graph().contains_key(local.head()));
    }
    let trunk_head = upstream.get_head_rev();
    let other_head = local.get_head_rev();
    run_merge_checkout(upstream, &trunk_head, &other_head)
}

/// Pulls from the upstream peer: this repository synchronizes from the
/// peer, merges the peer's head (as the trunk side) with its own head,
/// and checks the result out.
pub fn pull(local: &mut Repo, upstream: &Repo) -> (r: Result<(RevID, Vec<String>), ArcError>)
    requires
        old(local).wf(),
        upstream.wf(),
        old(local).head() != 0,
        upstream.head() != 0,
    ensures
        final(local).wf(),
        final(local).ups() == old(local).ups(),
        final(local).root() == old(local).root(),
        final(local).arc() == old(local).arc(),
        sync_merge_post(
            old(local).models(),
            old(local).tracked_list(),
            old(local).wd(),
            old(local).head(),
            upstream.models(),
            upstream.head(),
            old(local).head(),
            *final(local),
            r,
        ),
{
    local.sync(upstream);
    proof {
        store::lemma_graph_of_contains(old(local).models());
        store::lemma_graph_of_contains(upstream.models());
        assert(graph_of(old(local).models()).contains_key(old(local).head()));
        assert(graph_of(upstream.models()).contains_key(upstream.head()));
        assert(local.graph().contains_key(old(local).head()));
        assert(local.graph().contains_key(upstream.head()));
    }
    let trunk_head = upstream.get_head_rev();
    let other_head = local.get_head_rev();
    run_merge_checkout(local, &trunk_head, &other_head)
}

/// What pushing or pulling leaves behind: the repository that received
/// the transfer (`dst0_*` is its state before, `src` the peer catalog
/// it synchronized from) holds the synchronized catalog, merged at
/// heads `t` (trunk side) and `o` (other side) and checked out on
/// success.
pub open spec fn sync_merge_post(
    dst0_models: Seq<RevData>,
    dst0_tracked: Seq<Seq<char>>,
    dst0_wd: Seq<crate::rev::FileData>,
    dst0_head: u128,
    src: Seq<RevData>,
    t: u128,
    o: u128,
    dst1: Repo,
    r: Result<(RevID, Vec<String>), ArcError>,
) -> bool {
    let m1 = synced_models(dst0_models, src);
    match r {
        Ok(res) => {
            let rfiles = graph_of(dst1.models())[res.0@].files;
            &&& res.0@ != 0
            &&& (if t == o {
                dst1.models() == m1 && res.0@ == t && res.1@.len() == 0
            } else if reaches(m1, o, t) {
                dst1.models() == m1 && res.0@ == o && res.1@.len() == 0
            } else if reaches(m1, t, o) {
                dst1.models() == m1 && res.0@ == t && res.1@.len() == 0
            } else {
                &&& crate::merge::spec_common_ancestor(m1, t, o) != 0
                &&& !graph_of(m1).contains_key(res.0@)
                &&& dst1.models() == m1.push(merge_rev_data(m1, t, o, res.0@))
                &&& res.1@.map_values(|s: String| s@) == spec_merge_conflicts(m1, t, o)
            })
            &&& dst1.head() == res.0@
            &&& dst1.tracked_list() == file_paths(rfiles)
            &&& forall|p: Seq<char>| #[trigger]
                file_content_opt(dst1.wd(), p) == (if has_file(rfiles, p) {
                    file_content_opt(rfiles, p)
                } else if dst0_tracked.contains(p) {
                    None
                } else {
                    file_content_opt(dst0_wd, p)
                })
        },
        Err(e) => {
            &&& e == ArcError::NoCommonAncestor
            &&& dst1.models() == m1
            &&& dst1.head() == dst0_head
            &&& dst1.tracked_list() == dst0_tracked
            &&& dst1.wd() == dst0_wd
        },
    }
}

/// Merges the two heads in `repo` and checks the result out.
fn run_merge_checkout(repo: &mut Repo, trunk_head: &RevID, other_head: &RevID) -> (r: Result<
    (RevID, Vec<String>),
    ArcError,
>)
    requires
        old(repo).wf(),
        old(repo).graph().contains_key(trunk_head@),
        old(repo).graph().contains_key(other_head@),
        trunk_head@ != 0,
        other_head@ != 0,
    ensures
        final(repo).wf(),
        final(repo).ups() == old(repo).ups(),
        final(repo).root() == old(repo).root(),
        final(repo).arc() == old(repo).arc(),
        ({
            let m1 = old(repo).models();
            let t = trunk_head@;
            let o = other_head@;
            match r {
                Ok(res) => {
                    let rfiles = graph_of(final(repo).models())[res.0@].files;
                    &&& res.0@ != 0
                    &&& (if t == o {
                        final(repo).models() == m1 && res.0@ == t && res.1@.len() == 0
                    } else if reaches(m1, o, t) {
                        final(repo).models() == m1 && res.0@ == o && res.1@.len() == 0
                    } else if reaches(m1, t, o) {
                        final(repo).models() == m1 && res.0@ == t && res.1@.len() == 0
                    } else {
                        &&& crate::merge::spec_common_ancestor(m1, t, o) != 0
                        &&& !graph_of(m1).contains_key(res.0@)
                        &&& final(repo).models() == m1.push(merge_rev_data(m1, t, o, res.0@))
                        &&& res.1@.map_values(|s: String| s@) == spec_merge_conflicts(m1, t, o)
                    })
                    &&& final(repo).head() == res.0@
                    &&& final(repo).tracked_list() == file_paths(rfiles)
                    &&& forall|p: Seq<char>| #[trigger]
                        file_content_opt(final(repo).wd(), p) == (if has_file(rfiles, p) {
                            file_content_opt(rfiles, p)
                        } else if old(repo).tracked_list().contains(p) {
                            None
                        } else {
                            file_content_opt(old(repo).wd(), p)
                        })
                },
                Err(e) => {
                    &&& e == ArcError::NoCommonAncestor
                    &&& final(repo).models() == m1
                    &&& final(repo).head() == old(repo).head()
                    &&& final(repo).tracked_list() == old(repo).tracked_list()
                    &&& final(repo).wd() == old(repo).wd()
                },
            }
        }),
{
    let merged = match repo.merge(trunk_head, other_head) {
        Ok(res) => res,
        Err(e) => {
            return Err(e);
        },
    };
    let (merged_id, conflicts) = merged;
    proof {
        store::lemma_graph_of_contains(repo.models());
        if !(trunk_head@ == other_head@) && !reaches(old(repo).models(), other_head@, trunk_head@)
            && !reaches(old(repo).models(), trunk_head@, other_head@) {
            assert(store::ids_of(repo.models()).last() == merged_id@) by {
                assert(repo.models().last().id == merged_id@);
            }
            assert(store::ids_of(repo.models()).contains(merged_id@));
        }
        assert(repo.graph().contains_key(merged_id@));
    }
    match repo.checkout(&merged_id) {
        Ok(_) => Ok((merged_id, conflicts)),
        Err(_) => {
            proof {
                assert(false);
            }
            Err(ArcError::NotFound)
        },
    }
}

/// Clones `source`: initializes an empty repository at `dest_root`,
/// points its upstream at the source, synchronizes every revision over,
/// and checks the source's head out.
pub fn clone_repo(source: &Repo, dest_root: &String) -> (r: Repo)
    requires
        source.wf(),
    ensures
        r.wf(),
        r.models() == source.models(),
        r.head() == source.head(),
        r.ups() == Some(source.root()),
        r.root() == dest_root@,
        r.tracked_list() == (if source.head() == 0 {
            Seq::<Seq<char>>::empty()
        } else {
            file_paths(graph_of(source.models())[source.head()].files)
        }),
        forall|p: Seq<char>| #[trigger]
            file_content_opt(r.wd(), p) == (if source.head() != 0 && has_file(
                graph_of(source.models())[source.head()].files,
                p,
            ) {
                file_content_opt(graph_of(source.models())[source.head()].files, p)
            } else {
                None
            }),
{
    let mut dst = repo::init(dest_root);
    dst.set_upstream(source.get_root());
    dst.sync(source);
    proof {
        assert(graph_of(Seq::<RevData>::empty()) == Map::<u128, RevData>::empty());
        let pred = absent_model(graph_of(Seq::<RevData>::empty()));
        assert forall|i: int| 0 <= i < source.models().len() implies pred(
            #[trigger] source.models()[i],
        ) by {}
        lemma_filter_all_true(source.models(), pred);
        assert(dst.models() =~= source.models());
        store::lemma_graph_of_contains(source.models());
    }
    let head = source.get_head_rev();
    match dst.checkout(&head) {
        Ok(_) => {},
        Err(_) => {
            proof {
                assert(false);
            }
        },
    }
    dst
}

} // verus!
