//! The revision store.
//!
//! A store persists revisions under their identifiers and retrieves them
//! again. It is append-only: a revision, once persisted, never changes and
//! is never deleted. The store keeps its revisions in registration order,
//! and every revision's parents are registered before it (or are the empty
//! sentinel), so the catalog is always a closed sub-DAG with no dangling
//! references and no cycles.

use vstd::prelude::*;
use vstd::seq_lib::*;
use vstd::set_lib::*;

use crate::errors::ArcError;
use crate::revid;
use crate::revid::RevID;
use crate::rev;
use crate::rev::{Rev, RevData};

verus! {

/// The identifiers of a revision sequence, in order.
pub open spec fn ids_of(s: Seq<RevData>) -> Seq<u128> {
    s.map_values(|r: RevData| r.id)
}

/// The graph induced by a revision sequence: each identifier maps to the
/// revision bearing it (the last one, were there duplicates).
pub open spec fn graph_of(s: Seq<RevData>) -> Map<u128, RevData>
    decreases s.len(),
{
    if s.len() == 0 {
        Map::empty()
    } else {
        graph_of(s.drop_last()).insert(s.last().id, s.last())
    }
}

/// A well-formed revision sequence: every revision is well formed, no
/// identifier repeats, and each revision's parents are either the empty
/// sentinel or appear earlier in the sequence. The last point makes the
/// sequence a topological order of a closed, acyclic history graph.
pub open spec fn seq_wf(s: Seq<RevData>) -> bool {
    &&& ids_of(s).no_duplicates()
    &&& forall|i: int|
        0 <= i < s.len() ==> rev::rev_wf(#[trigger] s[i])
    &&& forall|i: int|
        0 <= i < s.len() ==> (#[trigger] s[i].parent_trunk == 0 || ids_of(s).take(i).contains(
            s[i].parent_trunk,
        ))
    &&& forall|i: int|
        0 <= i < s.len() ==> (#[trigger] s[i].parent_other == 0 || ids_of(s).take(i).contains(
            s[i].parent_other,
        ))
}

/// What a store holds under an identifier, if anything.
pub open spec fn lookup(g: Map<u128, RevData>, id: u128) -> Option<RevData> {
    if g.contains_key(id) {
        Some(g[id])
    } else {
        None
    }
}

/// Membership in the graph of a sequence is membership among its
/// identifiers.
pub proof fn lemma_graph_of_contains(s: Seq<RevData>)
    ensures
        forall|k: u128| #[trigger] graph_of(s).contains_key(k) <==> ids_of(s).contains(k),
    decreases s.len(),
{
    if s.len() > 0 {
        lemma_graph_of_contains(s.drop_last());
        assert(ids_of(s.drop_last()) =~= ids_of(s).drop_last());
        assert forall|k: u128| #[trigger] graph_of(s).contains_key(k) implies ids_of(s).contains(
            k,
        ) by {
            if k == s.last().id {
                assert(ids_of(s)[s.len() - 1] == k);
            } else {
                assert(graph_of(s.drop_last()).contains_key(k));
                assert(ids_of(s.drop_last()).contains(k));
                let j = choose|j: int| 0 <= j < ids_of(s.drop_last()).len() && ids_of(
                    s.drop_last(),
                )[j] == k;
                assert(ids_of(s)[j] == k);
            }
        }
        assert forall|k: u128| ids_of(s).contains(k) implies #[trigger] graph_of(
            s,
        ).contains_key(k) by {
            let j = choose|j: int| 0 <= j < ids_of(s).len() && ids_of(s)[j] == k;
            if j < s.len() - 1 {
                assert(ids_of(s.drop_last())[j] == k);
                assert(ids_of(s.drop_last()).contains(k));
                assert(graph_of(s.drop_last()).contains_key(k));
            } else {
                assert(k == s.last().id);
            }
        }
    }
}

/// In a duplicate-free sequence, the graph maps each identifier to the
/// revision at its index.
pub proof fn lemma_graph_of_index(s: Seq<RevData>)
    requires
        ids_of(s).no_duplicates(),
    ensures
        forall|i: int| 0 <= i < s.len() ==> graph_of(s)[#[trigger] s[i].id] == s[i],
    decreases s.len(),
{
    if s.len() > 0 {
        assert(ids_of(s.drop_last()) =~= ids_of(s).drop_last());
        lemma_graph_of_index(s.drop_last());
        assert forall|i: int| 0 <= i < s.len() implies graph_of(s)[#[trigger] s[i].id]
            == s[i] by {
            if i < s.len() - 1 {
                assert(ids_of(s)[i] == s[i].id);
                assert(ids_of(s)[s.len() - 1] == s.last().id);
                assert(s[i].id != s.last().id);
                assert(s.drop_last()[i] == s[i]);
            }
        }
    }
}

/// The graph's domain is finite, with one entry per identifier when no
/// identifier repeats.
pub proof fn lemma_graph_of_len(s: Seq<RevData>)
    requires
        ids_of(s).no_duplicates(),
    ensures
        graph_of(s).dom().finite(),
        graph_of(s).dom().len() == s.len(),
{
    broadcast use vstd::seq_lib::seq_to_set_is_finite;

    lemma_graph_of_contains(s);
    assert(graph_of(s).dom() =~= ids_of(s).to_set());
    ids_of(s).unique_seq_to_set();
}

/// Law (round trip): persisting a revision and then retrieving it under
/// its identifier yields it back, parent links and file list intact.
pub proof fn lemma_persist_retrieve_round_trip(g: Map<u128, RevData>, r: RevData)
    ensures
        lookup(g.insert(r.id, r), r.id) == Some(r),
{
}

/// An append-only catalog of revisions, keyed by identifier.
pub struct Store {
    revs: Vec<Rev>,
}

impl Store {
    /// The revisions this store holds, in registration order.
    pub closed spec fn models(self) -> Seq<RevData> {
        self.revs@.map_values(|r: Rev| r@)
    }

    /// The identifiers this store holds, in registration order.
    pub open spec fn ids(self) -> Seq<u128> {
        ids_of(self.models())
    }

    /// The graph this store holds: identifier to revision.
    pub open spec fn graph(self) -> Map<u128, RevData> {
        graph_of(self.models())
    }

    /// The store's invariant; see `seq_wf`.
    pub open spec fn wf(self) -> bool {
        seq_wf(self.models())
    }

    /// The facts every caller needs of a well-formed store: the graph is
    /// finite, coherent with the identifier sequence, and closed under
    /// parents.
    pub proof fn lemma_wf_facts(self)
        requires
            self.wf(),
        ensures
            self.graph().dom().finite(),
            self.graph().dom().len() == self.models().len(),
            forall|k: u128| #[trigger] self.graph().contains_key(k) <==> self.ids().contains(k),
            forall|k: u128| #[trigger]
                self.graph().contains_key(k) ==> {
                    &&& self.graph()[k].id == k
                    &&& rev::rev_wf(self.graph()[k])
                    &&& (self.graph()[k].parent_trunk == 0 || self.graph().contains_key(
                        self.graph()[k].parent_trunk,
                    ))
                    &&& (self.graph()[k].parent_other == 0 || self.graph().contains_key(
                        self.graph()[k].parent_other,
                    ))
                },
    {
        let s = self.models();
        lemma_graph_of_contains(s);
        lemma_graph_of_index(s);
        lemma_graph_of_len(s);
        assert forall|k: u128| #[trigger] self.graph().contains_key(k) implies {
            &&& self.graph()[k].id == k
            &&& rev::rev_wf(self.graph()[k])
            &&& (self.graph()[k].parent_trunk == 0 || self.graph().contains_key(
                self.graph()[k].parent_trunk,
            ))
            &&& (self.graph()[k].parent_other == 0 || self.graph().contains_key(
                self.graph()[k].parent_other,
            ))
        } by {
            let i = choose|i: int| 0 <= i < ids_of(s).len() && ids_of(s)[i] == k;
            assert(s[i].id == k);
            assert(graph_of(s)[k] == s[i]);
            if s[i].parent_trunk != 0 {
                let j = choose|j: int|
                    0 <= j < i && ids_of(s).take(i)[j] == s[i].parent_trunk;
                assert(ids_of(s)[j] == s[i].parent_trunk);
            }
            if s[i].parent_other != 0 {
                let j = choose|j: int|
                    0 <= j < i && ids_of(s).take(i)[j] == s[i].parent_other;
                assert(ids_of(s)[j] == s[i].parent_other);
            }
        }
    }

    /// An empty store.
    pub fn new() -> (r: Store)
        ensures
            r.wf(),
            r.models() == Seq::<RevData>::empty(),
    {
        let r = Store { revs: Vec::new() };
        proof {
            assert(r.models() =~= Seq::<RevData>::empty());
        }
        r
    }

    /// How many revisions the store holds.
    pub fn len(&self) -> (r: usize)
        ensures
            r == self.models().len(),
    {
        self.revs.len()
    }

    /// The revision at a registration index.
    pub fn rev_at(&self, i: usize) -> (r: &Rev)
        requires
            i < self.models().len(),
        ensures
            r@ == self.models()[i as int],
    {
        &self.revs[i]
    }

    /// Looks a revision up by identifier.
    pub fn find_rev(&self, id: &RevID) -> (r: Option<&Rev>)
        requires
            self.wf(),
        ensures
            match r {
                Some(found) => {
                    &&& self.graph().contains_key(id@)
                    &&& found@ == self.graph()[id@]
                    &&& found@.id == id@
                },
                None => !self.graph().contains_key(id@),
            },
    {
        proof {
            self.lemma_wf_facts();
            lemma_graph_of_index(self.models());
        }
        let ghost s = self.models();
        let mut i: usize = 0;
        while i < self.revs.len()
            invariant
                self.wf(),
                s == self.models(),
                i <= self.revs@.len(),
                s.len() == self.revs@.len(),
                forall|j: int| 0 <= j < i ==> ids_of(s)[j] != id@,
            decreases self.revs@.len() - i,
        {
            if self.revs[i].rev_id.value() == id.value() {
                proof {
                    self.lemma_wf_facts();
                    lemma_graph_of_index(s);
                    assert(ids_of(s)[i as int] == id@);
                    assert(ids_of(s).contains(id@));
                    assert(graph_of(s)[s[i as int].id] == s[i as int]);
                }
                return Some(&self.revs[i]);
            }
            proof {
                assert(ids_of(s)[i as int] == self.revs@[i as int]@.id);
            }
            i = i + 1;
        }
        proof {
            if self.graph().contains_key(id@) {
                let j = choose|j: int| 0 <= j < ids_of(s).len() && ids_of(s)[j] == id@;
                assert(ids_of(s)[j] != id@);
            }
        }
        None
    }

    /// Whether the store holds a revision under `id`.
    pub fn contains(&self, id: &RevID) -> (r: bool)
        requires
            self.wf(),
        ensures
            r == self.graph().contains_key(id@),
    {
        self.find_rev(id).is_some()
    }

    /// Retrieves the revision stored under `id`; fails with `NotFound` if
    /// no stored revision bears that identifier.
    pub fn retrieve(&self, id: &RevID) -> (r: Result<&Rev, ArcError>)
        requires
            self.wf(),
        ensures
            match r {
                Ok(found) => lookup(self.graph(), id@) == Some(found@) && found@.id == id@,
                Err(e) => lookup(self.graph(), id@) is None && e == ArcError::NotFound,
            },
    {
        match self.find_rev(id) {
            Some(found) => Ok(found),
            None => Err(ArcError::NotFound),
        }
    }

    /// Durably registers a revision under its identifier. The caller
    /// supplies a fresh, well-formed revision whose parents are already
    /// stored: the catalog stays a closed, duplicate-free sub-DAG.
    pub fn persist(&mut self, r: Rev)
        requires
            old(self).wf(),
            rev::rev_wf(r@),
            !old(self).graph().contains_key(r@.id),
            r@.parent_trunk == 0 || old(self).graph().contains_key(r@.parent_trunk),
            r@.parent_other == 0 || old(self).graph().contains_key(r@.parent_other),
        ensures
            final(self).wf(),
            final(self).models() == old(self).models().push(r@),
            final(self).ids() == old(self).ids().push(r@.id),
            final(self).graph() == old(self).graph().insert(r@.id, r@),
    {
        proof {
            old(self).lemma_wf_facts();
        }
        let ghost rv = r@;
        let ghost s0 = self.models();
        self.revs.push(r);
        proof {
            let s1 = self.models();
            assert(s1 =~= s0.push(rv));
            assert(ids_of(s1) =~= ids_of(s0).push(rv.id));
            assert(s1.drop_last() =~= s0);
            assert(graph_of(s1) == graph_of(s0).insert(rv.id, rv));
            // The pushed revision keeps the sequence well formed.
            assert(!ids_of(s0).contains(rv.id));
            assert forall|i: int| 0 <= i < s1.len() implies rev::rev_wf(#[trigger] s1[i]) by {
                if i < s0.len() {
                    assert(s1[i] == s0[i]);
                }
            }
            assert forall|i: int|
                0 <= i < s1.len() implies (#[trigger] s1[i].parent_trunk == 0 || ids_of(
                s1,
            ).take(i).contains(s1[i].parent_trunk)) by {
                if i < s0.len() {
                    assert(s1[i] == s0[i]);
                    assert(ids_of(s1).take(i) =~= ids_of(s0).take(i));
                } else {
                    assert(s1[i] == rv);
                    assert(ids_of(s1).take(i) =~= ids_of(s0));
                    if rv.parent_trunk != 0 {
                        assert(ids_of(s0).contains(rv.parent_trunk)) by {
                            lemma_graph_of_contains(s0);
                        }
                    }
                }
            }
            assert forall|i: int|
                0 <= i < s1.len() implies (#[trigger] s1[i].parent_other == 0 || ids_of(
                s1,
            ).take(i).contains(s1[i].parent_other)) by {
                if i < s0.len() {
                    assert(s1[i] == s0[i]);
                    assert(ids_of(s1).take(i) =~= ids_of(s0).take(i));
                } else {
                    assert(s1[i] == rv);
                    assert(ids_of(s1).take(i) =~= ids_of(s0));
                    if rv.parent_other != 0 {
                        assert(ids_of(s0).contains(rv.parent_other)) by {
                            lemma_graph_of_contains(s0);
                        }
                    }
                }
            }
            assert(ids_of(s1).no_duplicates()) by {
                assert(ids_of(s1).drop_last() =~= ids_of(s0));
            }
        }
    }

    /// A fresh identifier: non-empty and not yet stored. Normally the
    /// first randomly generated identifier serves; if it happens to be
    /// taken, a deterministic sweep finds a free value, which must exist
    /// because the store holds finitely many.
    pub fn fresh_id(&self) -> (r: RevID)
        requires
            self.wf(),
        ensures
            r@ != 0,
            !self.graph().contains_key(r@),
    {
        let cand = revid::new();
        if !self.contains(&cand) {
            return cand;
        }
        let n: u128 = self.revs.len() as u128;
        proof {
            assert(self.models().len() == self.revs@.len());
        }
        let mut i: u128 = 0;
        while i <= n
            invariant
                self.wf(),
                n == self.models().len(),
                n < u128::MAX,
                i <= n + 1,
                forall|v: u128| 1 <= v <= i ==> self.graph().contains_key(v),
            decreases n + 1 - i,
        {
            let c = i + 1;
            if !self.contains(&RevID::from_value(c)) {
                return RevID::from_value(c);
            }
            i = i + 1;
        }
        proof {
            // Pigeonhole: the n + 1 distinct values 1 ..= n + 1 cannot all
            // lie in a domain of n identifiers.
            self.lemma_wf_facts();
            let s = Set::<u128>::range(1, (n + 2) as u128);
            range_set_properties::<u128>(1, (n + 2) as u128);
            assert(s.subset_of(self.graph().dom()));
            lemma_len_subset(s, self.graph().dom());
            assert(false);
        }
        revid::new()
    }
}

} // verus!
