//! The repository.
//!
//! A repository owns a working directory of tracked files, a catalog of
//! revisions, and a head pointer, and coordinates commit, checkout,
//! merge and synchronization. Structural failures abort an operation
//! before any catalog state is rewritten; only per-file merge conflicts
//! are collected and reported while the operation proceeds.

use vstd::prelude::*;
use vstd::seq_lib::*;

use crate::errors::ArcError;
use crate::mach;
use crate::merge;
use crate::merge::{conflict_paths, merged_files, reaches, spec_all_files, spec_common_ancestor};
use crate::rev;
use crate::rev::{file_content_opt, file_paths, has_file, FileData, FileSnap, Rev, RevData};
use crate::revid;
use crate::revid::RevID;
use crate::store;
use crate::store::{graph_of, ids_of, Store};
use crate::workdir::WorkDir;

verus! {

/// The files a commit snapshots: each tracked path present in the
/// working directory, with its content, in tracking order.
pub open spec fn commit_snapshot(tracked_list: Seq<Seq<char>>, wd: Seq<FileData>) -> Seq<FileData>
    decreases tracked_list.len(),
{
    if tracked_list.len() == 0 {
        Seq::empty()
    } else {
        let rest = commit_snapshot(tracked_list.drop_last(), wd);
        match file_content_opt(wd, tracked_list.last()) {
            Some(c) => rest.push(FileData { path: tracked_list.last(), content: c }),
            None => rest,
        }
    }
}

/// The tracked paths a commit reports as missing: those absent from the
/// working directory, in tracking order.
pub open spec fn missing_paths(tracked_list: Seq<Seq<char>>, wd: Seq<FileData>) -> Seq<Seq<char>>
    decreases tracked_list.len(),
{
    if tracked_list.len() == 0 {
        Seq::empty()
    } else {
        let rest = missing_paths(tracked_list.drop_last(), wd);
        match file_content_opt(wd, tracked_list.last()) {
            Some(_) => rest,
            None => rest.push(tracked_list.last()),
        }
    }
}

/// The revision a commit creates.
pub open spec fn commit_rev_data(
    tracked_list: Seq<Seq<char>>,
    wd: Seq<FileData>,
    head: u128,
    nid: u128,
) -> RevData {
    RevData { id: nid, parent_trunk: head, parent_other: 0, files: commit_snapshot(tracked_list, wd) }
}

/// A commit snapshot takes its paths from the tracked list, keeping
/// order, so a duplicate-free tracked list yields a well-formed
/// snapshot.
pub proof fn lemma_commit_snapshot_paths(tracked_list: Seq<Seq<char>>, wd: Seq<FileData>)
    requires
        tracked_list.no_duplicates(),
    ensures
        file_paths(commit_snapshot(tracked_list, wd)).no_duplicates(),
        forall|x: Seq<char>|
            #[trigger] file_paths(commit_snapshot(tracked_list, wd)).contains(x) ==> tracked_list.contains(
                x,
            ),
    decreases tracked_list.len(),
{
    if tracked_list.len() > 0 {
        assert(tracked_list.drop_last().no_duplicates());
        lemma_commit_snapshot_paths(tracked_list.drop_last(), wd);
        let rest = commit_snapshot(tracked_list.drop_last(), wd);
        let whole = commit_snapshot(tracked_list, wd);
        assert forall|x: Seq<char>|
            #[trigger] file_paths(whole).contains(x) implies tracked_list.contains(x) by {
            let j = choose|j: int| 0 <= j < file_paths(whole).len() && file_paths(whole)[j] == x;
            if j < file_paths(rest).len() {
                assert(file_paths(rest)[j] == x);
                assert(file_paths(rest).contains(x));
                let k = choose|k: int|
                    0 <= k < tracked_list.drop_last().len() && tracked_list.drop_last()[k] == x;
                assert(tracked_list[k] == x);
            } else {
                assert(x == tracked_list.last());
                assert(tracked_list[tracked_list.len() - 1] == x);
            }
        }
        match file_content_opt(wd, tracked_list.last()) {
            Some(c) => {
                assert(file_paths(whole) =~= file_paths(rest).push(tracked_list.last()));
                assert(!file_paths(rest).contains(tracked_list.last())) by {
                    if file_paths(rest).contains(tracked_list.last()) {
                        assert(tracked_list.drop_last().contains(tracked_list.last()));
                        let k = choose|k: int|
                            0 <= k < tracked_list.drop_last().len() && tracked_list.drop_last()[k]
                                == tracked_list.last();
                        assert(tracked_list[k] == tracked_list[tracked_list.len() - 1]);
                    }
                }
                assert(file_paths(whole).drop_last() =~= file_paths(rest));
            },
            None => {},
        }
    }
}

/// The revisions whose identifiers are absent from graph `g`.
pub open spec fn absent_model(g: Map<u128, RevData>) -> spec_fn(RevData) -> bool {
    |rd: RevData| !g.contains_key(rd.id)
}

/// The revision a three-way merge creates: parents `trunk` and `other`,
/// files assembled by classifying the union of the three file lists
/// against the trunk-line common ancestor.
pub open spec fn merge_rev_data(m: Seq<RevData>, trunk: u128, other: u128, nid: u128) -> RevData {
    let anc = spec_common_ancestor(m, trunk, other);
    let af = graph_of(m)[anc].files;
    let tf = graph_of(m)[trunk].files;
    let of = graph_of(m)[other].files;
    RevData {
        id: nid,
        parent_trunk: trunk,
        parent_other: other,
        files: merged_files(
            af,
            tf,
            of,
            spec_all_files(file_paths(af), file_paths(tf), file_paths(of)),
        ),
    }
}

/// The conflicting paths of a three-way merge, in union order.
pub open spec fn spec_merge_conflicts(m: Seq<RevData>, trunk: u128, other: u128) -> Seq<
    Seq<char>,
> {
    let anc = spec_common_ancestor(m, trunk, other);
    let af = graph_of(m)[anc].files;
    let tf = graph_of(m)[trunk].files;
    let of = graph_of(m)[other].files;
    conflict_paths(af, tf, of, spec_all_files(file_paths(af), file_paths(tf), file_paths(of)))
}

/// A repository: a working-directory location, an optional upstream
/// peer, the tracked working set, the revision catalog, and the head
/// pointer.
pub struct Repo {
    pub root_path: String,
    pub arc_path: String,
    upstream: Option<String>,
    tracked_files: Vec<String>,
    store: Store,
    cur_rev: RevID,
    workdir: WorkDir,
}

impl Repo {
    /// The revisions of the catalog, in registration order.
    pub closed spec fn models(self) -> Seq<RevData> {
        self.store.models()
    }

    /// The catalog as a graph: identifier to revision.
    pub open spec fn graph(self) -> Map<u128, RevData> {
        graph_of(self.models())
    }

    /// The identifiers of the catalog, in registration order.
    pub open spec fn ids(self) -> Seq<u128> {
        ids_of(self.models())
    }

    /// The tracked paths, in tracking order.
    pub closed spec fn tracked_list(self) -> Seq<Seq<char>> {
        self.tracked_files@.map_values(|s: String| s@)
    }

    /// The head revision's identifier; the empty sentinel while no
    /// revision exists.
    pub closed spec fn head(self) -> u128 {
        self.cur_rev@
    }

    /// The working directory's files.
    pub closed spec fn wd(self) -> Seq<FileData> {
        self.workdir@
    }

    /// The working-directory location.
    pub closed spec fn root(self) -> Seq<char> {
        self.root_path@
    }

    /// The engine's own directory under the root.
    pub closed spec fn arc(self) -> Seq<char> {
        self.arc_path@
    }

    /// The upstream peer's path, if one was set.
    pub closed spec fn ups(self) -> Option<Seq<char>> {
        match self.upstream {
            Some(s) => Some(s@),
            None => None,
        }
    }

    /// The repository invariant: the catalog is a well-formed closed
    /// sub-DAG, the head names a cataloged revision or none, and neither
    /// the tracked list nor the working directory repeats a path.
    pub open spec fn wf(self) -> bool {
        &&& store::seq_wf(self.models())
        &&& (self.head() == 0 || ids_of(self.models()).contains(self.head()))
        &&& self.tracked_list().no_duplicates()
        &&& file_paths(self.wd()).no_duplicates()
    }

    /// The repository's root location.
    pub fn get_root(&self) -> (r: &String)
        ensures
            r@ == self.root(),
    {
        &self.root_path
    }

    /// Sets the upstream peer path.
    pub fn set_upstream(&mut self, ups: &String)
        ensures
            final(self).ups() == Some(ups@),
            final(self).models() == old(self).models(),
            final(self).tracked_list() == old(self).tracked_list(),
            final(self).head() == old(self).head(),
            final(self).wd() == old(self).wd(),
            final(self).root() == old(self).root(),
            final(self).arc() == old(self).arc(),
            old(self).wf() ==> final(self).wf(),
    {
        self.upstream = Some(ups.clone());
    }

    /// The upstream peer path, if any.
    pub fn get_upstream(&self) -> (r: &Option<String>)
        ensures
            match r {
                Some(s) => self.ups() == Some(s@),
                None => self.ups() is None,
            },
    {
        &self.upstream
    }

    /// Moves the head pointer to `rev_id`, which must be cataloged or
    /// the empty sentinel.
    pub fn set_head_rev(&mut self, rev_id: &RevID)
        requires
            old(self).wf(),
            rev_id@ == 0 || old(self).graph().contains_key(rev_id@),
        ensures
            final(self).wf(),
            final(self).head() == rev_id@,
            final(self).models() == old(self).models(),
            final(self).tracked_list() == old(self).tracked_list(),
            final(self).wd() == old(self).wd(),
            final(self).ups() == old(self).ups(),
            final(self).root() == old(self).root(),
            final(self).arc() == old(self).arc(),
    {
        proof {
            self.store.lemma_wf_facts();
        }
        self.cur_rev = *rev_id;
    }

    /// The head revision's identifier.
    pub fn get_head_rev(&self) -> (r: RevID)
        ensures
            r@ == self.head(),
    {
        self.cur_rev
    }

    /// The canonical text of the head revision's identifier.
    pub fn get_head_rev_str(&self) -> (r: String)
        ensures
            r@ == revid::uuid_simple(self.head()),
    {
        self.cur_rev.to_text()
    }

    /// Registers a revision in the catalog, content first: the revision
    /// is persisted whole, so catalog membership always implies
    /// retrievable content.
    pub fn add_rev(&mut self, r: Rev)
        requires
            old(self).wf(),
            rev::rev_wf(r@),
            !old(self).graph().contains_key(r@.id),
            r@.parent_trunk == 0 || old(self).graph().contains_key(r@.parent_trunk),
            r@.parent_other == 0 || old(self).graph().contains_key(r@.parent_other),
        ensures
            final(self).wf(),
            final(self).models() == old(self).models().push(r@),
            final(self).graph() == old(self).graph().insert(r@.id, r@),
            final(self).tracked_list() == old(self).tracked_list(),
            final(self).head() == old(self).head(),
            final(self).wd() == old(self).wd(),
            final(self).ups() == old(self).ups(),
            final(self).root() == old(self).root(),
            final(self).arc() == old(self).arc(),
    {
        let ghost ids0 = ids_of(self.models());
        self.store.persist(r);
        proof {
            assert(ids_of(self.models()) =~= ids0.push(r@.id));
            if old(self).head() != 0 {
                let j = choose|j: int| 0 <= j < ids0.len() && ids0[j] == old(self).head();
                assert(ids_of(self.models())[j] == old(self).head());
            }
        }
    }

    /// Whether the catalog holds `rev_id`.
    pub fn contains_rev(&self, rev_id: &RevID) -> (r: bool)
        requires
            self.wf(),
        ensures
            r == self.graph().contains_key(rev_id@),
    {
        self.store.contains(rev_id)
    }

    /// Retrieves the cataloged revision under `rev_id`; fails with
    /// `NotFound` if there is none.
    pub fn retrieve(&self, rev_id: &RevID) -> (r: Result<&Rev, ArcError>)
        requires
            self.wf(),
        ensures
            match r {
                Ok(found) => store::lookup(self.graph(), rev_id@) == Some(found@) && found@.id
                    == rev_id@,
                Err(e) => store::lookup(self.graph(), rev_id@) is None && e == ArcError::NotFound,
            },
    {
        self.store.retrieve(rev_id)
    }

    /// How many revisions the catalog holds.
    pub fn rev_count(&self) -> (r: usize)
        ensures
            r == self.models().len(),
    {
        self.store.len()
    }

    /// The cataloged revision at a registration index.
    pub fn rev_at(&self, i: usize) -> (r: &Rev)
        requires
            i < self.models().len(),
        ensures
            r@ == self.models()[i as int],
    {
        self.store.rev_at(i)
    }

    /// The tracked paths.
    pub fn get_tracked(&self) -> (r: &Vec<String>)
        ensures
            r@.map_values(|s: String| s@) == self.tracked_list(),
    {
        &self.tracked_files
    }

    /// The content of the working-directory file under `path`, if any.
    pub fn read_work_file(&self, path: &String) -> (r: Option<&String>)
        requires
            self.wf(),
        ensures
            match r {
                Some(c) => file_content_opt(self.wd(), path@) == Some(c@),
                None => file_content_opt(self.wd(), path@) is None && !has_file(self.wd(), path@),
            },
    {
        self.workdir.read(path)
    }

    /// Writes `content` under `path` in the working directory.
    pub fn put_work_file(&mut self, path: String, content: String)
        requires
            old(self).wf(),
        ensures
            final(self).wf(),
            file_content_opt(final(self).wd(), path@) == Some(content@),
            forall|p: Seq<char>|
                p != path@ ==> #[trigger] file_content_opt(final(self).wd(), p)
                    == file_content_opt(old(self).wd(), p),
            final(self).models() == old(self).models(),
            final(self).tracked_list() == old(self).tracked_list(),
            final(self).head() == old(self).head(),
            final(self).ups() == old(self).ups(),
            final(self).root() == old(self).root(),
            final(self).arc() == old(self).arc(),
    {
        self.workdir.put(path, content);
    }

    /// Deletes the working-directory file under `path`, if any.
    pub fn del_work_file(&mut self, path: &String)
        requires
            old(self).wf(),
        ensures
            final(self).wf(),
            !has_file(final(self).wd(), path@),
            forall|p: Seq<char>|
                p != path@ ==> #[trigger] file_content_opt(final(self).wd(), p)
                    == file_content_opt(old(self).wd(), p),
            final(self).models() == old(self).models(),
            final(self).tracked_list() == old(self).tracked_list(),
            final(self).head() == old(self).head(),
            final(self).ups() == old(self).ups(),
            final(self).root() == old(self).root(),
            final(self).arc() == old(self).arc(),
    {
        self.workdir.del(path);
    }

    /// Tracks `rel_path`. The file must exist in the working directory;
    /// tracking an already-tracked path changes nothing.
    pub fn add_file(&mut self, rel_path: &String)
        requires
            old(self).wf(),
            has_file(old(self).wd(), rel_path@),
        ensures
            final(self).wf(),
            final(self).tracked_list() == if old(self).tracked_list().contains(rel_path@) {
                old(self).tracked_list()
            } else {
                old(self).tracked_list().push(rel_path@)
            },
            final(self).models() == old(self).models(),
            final(self).head() == old(self).head(),
            final(self).wd() == old(self).wd(),
            final(self).ups() == old(self).ups(),
            final(self).root() == old(self).root(),
            final(self).arc() == old(self).arc(),
    {
        let ghost t0 = self.tracked_list();
        if !contains_string(&self.tracked_files, rel_path) {
            let ghost prev = self.tracked_files@;
            self.tracked_files.push(rel_path.clone());
            proof {
                assert(self.tracked_list() =~= t0.push(rel_path@));
                assert(self.tracked_list().drop_last() =~= t0);
            }
        }
    }

    /// Stops tracking `rel_path` and deletes it from the working
    /// directory if it still exists there.
    pub fn remove_file(&mut self, rel_path: &String)
        requires
            old(self).wf(),
        ensures
            final(self).wf(),
            final(self).tracked_list() == old(self).tracked_list().filter(
                |p: Seq<char>| p != rel_path@,
            ),
            !has_file(final(self).wd(), rel_path@),
            forall|p: Seq<char>|
                p != rel_path@ ==> #[trigger] file_content_opt(final(self).wd(), p)
                    == file_content_opt(old(self).wd(), p),
            final(self).models() == old(self).models(),
            final(self).head() == old(self).head(),
            final(self).ups() == old(self).ups(),
            final(self).root() == old(self).root(),
            final(self).arc() == old(self).arc(),
    {
        let ghost t0 = self.tracked_list();
        let ghost pred = |p: Seq<char>| p != rel_path@;
        let mut kept: Vec<String> = Vec::new();
        proof {
            assert(kept@.map_values(|s: String| s@) =~= t0.take(0).filter(pred));
        }
        let mut i: usize = 0;
        while i < self.tracked_files.len()
            invariant
                i <= self.tracked_files@.len(),
                t0 == self.tracked_list(),
                pred == (|p: Seq<char>| p != rel_path@),
                t0.len() == self.tracked_files@.len(),
                kept@.map_values(|s: String| s@) == t0.take(i as int).filter(pred),
            decreases self.tracked_files@.len() - i,
        {
            proof {
                assert(t0.take(i + 1) =~= t0.take(i as int) + seq![t0[i as int]]);
                Seq::filter_distributes_over_add(t0.take(i as int), seq![t0[i as int]], pred);
                assert(seq![t0[i as int]].filter(pred) =~= if pred(t0[i as int]) {
                    seq![t0[i as int]]
                } else {
                    Seq::<Seq<char>>::empty()
                }) by {
                    reveal_with_fuel(Seq::filter, 2);
                }
            }
            if !(self.tracked_files[i] == *rel_path) {
                let ghost prev = kept@;
                kept.push(self.tracked_files[i].clone());
                proof {
                    assert(kept@.map_values(|s: String| s@) =~= prev.map_values(|s: String| s@)
                        + seq![t0[i as int]]);
                    assert(kept@.map_values(|s: String| s@) =~= t0.take(i + 1).filter(pred));
                }
            }
            i = i + 1;
        }
        proof {
            assert(t0.take(t0.len() as int) =~= t0);
        }
        self.tracked_files = kept;
        self.workdir.del(rel_path);
        proof {
            lemma_filter_no_dup(t0, pred);
        }
    }

    /// Replaces the tracked working set with `files`.
    pub fn update_files(&mut self, files: &Vec<String>)
        requires
            old(self).wf(),
            files@.map_values(|s: String| s@).no_duplicates(),
        ensures
            final(self).wf(),
            final(self).tracked_list() == files@.map_values(|s: String| s@),
            final(self).models() == old(self).models(),
            final(self).head() == old(self).head(),
            final(self).wd() == old(self).wd(),
            final(self).ups() == old(self).ups(),
            final(self).root() == old(self).root(),
            final(self).arc() == old(self).arc(),
    {
        self.tracked_files = files.clone();
    }

    /// Commits the tracked working set: snapshots every tracked file
    /// present in the working directory into a new revision whose trunk
    /// parent is the current head, registers it, and heads it. Tracked
    /// paths missing from the working directory are omitted and
    /// reported; the commit still succeeds with whatever files exist.
    pub fn commit(&mut self) -> (r: (RevID, Vec<String>))
        requires
            old(self).wf(),
        ensures
            final(self).wf(),
            r.0@ != 0,
            !old(self).graph().contains_key(r.0@),
            final(self).models() == old(self).models().push(
                commit_rev_data(old(self).tracked_list(), old(self).wd(), old(self).head(), r.0@),
            ),
            final(self).graph() == old(self).graph().insert(
                r.0@,
                commit_rev_data(old(self).tracked_list(), old(self).wd(), old(self).head(), r.0@),
            ),
            final(self).head() == r.0@,
            r.1@.map_values(|s: String| s@) == missing_paths(old(self).tracked_list(), old(self).wd()),
            final(self).tracked_list() == old(self).tracked_list(),
            final(self).wd() == old(self).wd(),
            final(self).ups() == old(self).ups(),
            final(self).root() == old(self).root(),
            final(self).arc() == old(self).arc(),
    {
        let ghost t0 = self.tracked_list();
        let ghost wd0 = self.wd();
        let mut snaps: Vec<FileSnap> = Vec::new();
        let mut missing: Vec<String> = Vec::new();
        proof {
            assert(rev::snaps_view(snaps@) =~= commit_snapshot(t0.take(0), wd0));
            assert(missing@.map_values(|s: String| s@) =~= missing_paths(t0.take(0), wd0));
        }
        let mut i: usize = 0;
        while i < self.tracked_files.len()
            invariant
                i <= self.tracked_files@.len(),
                self.wf(),
                t0 == self.tracked_list(),
                wd0 == self.wd(),
                t0.len() == self.tracked_files@.len(),
                rev::snaps_view(snaps@) == commit_snapshot(t0.take(i as int), wd0),
                missing@.map_values(|s: String| s@) == missing_paths(t0.take(i as int), wd0),
            decreases self.tracked_files@.len() - i,
        {
            let path = &self.tracked_files[i];
            proof {
                assert(t0.take(i + 1).drop_last() =~= t0.take(i as int));
                assert(t0.take(i + 1).last() == t0[i as int]);
                assert(t0[i as int] == path@);
            }
            match self.workdir.read(path) {
                Some(content) => {
                    let ghost prev = snaps@;
                    let snap = FileSnap { path: path.clone(), content: content.clone() };
                    snaps.push(snap);
                    proof {
                        assert(rev::snaps_view(snaps@) =~= rev::snaps_view(prev).push(
                            snaps@.last()@,
                        ));
                        assert(rev::snaps_view(snaps@) =~= commit_snapshot(t0.take(i + 1), wd0));
                        assert(missing@.map_values(|s: String| s@) =~= missing_paths(
                            t0.take(i + 1),
                            wd0,
                        ));
                    }
                },
                None => {
                    let ghost prevm = missing@;
                    missing.push(path.clone());
                    proof {
                        assert(missing@.map_values(|s: String| s@) =~= prevm.map_values(
                            |s: String| s@,
                        ).push(path@));
                        assert(missing@.map_values(|s: String| s@) =~= missing_paths(
                            t0.take(i + 1),
                            wd0,
                        ));
                        assert(rev::snaps_view(snaps@) =~= commit_snapshot(t0.take(i + 1), wd0));
                    }
                },
            }
            i = i + 1;
        }
        proof {
            assert(t0.take(t0.len() as int) =~= t0);
            lemma_commit_snapshot_paths(t0, wd0);
        }
        let nid = self.store.fresh_id();
        let new_rev = Rev {
            rev_id: nid,
            parent_trunk: self.cur_rev,
            parent_other: revid::empty(),
            files: snaps,
        };
        proof {
            if old(self).head() != 0 {
                self.store.lemma_wf_facts();
            }
        }
        let ghost ids0 = ids_of(self.models());
        self.store.persist(new_rev);
        self.cur_rev = nid;
        proof {
            assert(ids_of(self.models()) =~= ids0.push(nid@));
            assert(ids_of(self.models())[ids0.len() as int] == nid@);
        }
        (nid, missing)
    }

    /// Checks a revision out: fails with `NotFound` unless `rev_id` is
    /// cataloged or is the empty sentinel (the initial, empty root).
    /// Deletes every currently tracked file from the working directory,
    /// materializes the target revision's files into it, replaces the
    /// tracked working set with the target's file list, and moves the
    /// head. Destructive by design: uncommitted working-directory edits
    /// to tracked files are discarded.
    pub fn checkout(&mut self, rev_id: &RevID) -> (r: Result<(), ArcError>)
        requires
            old(self).wf(),
        ensures
            final(self).wf(),
            final(self).models() == old(self).models(),
            final(self).ups() == old(self).ups(),
            final(self).root() == old(self).root(),
            final(self).arc() == old(self).arc(),
            match r {
                Ok(_) => {
                    let rfiles = if rev_id@ == 0 {
                        Seq::<FileData>::empty()
                    } else {
                        old(self).graph()[rev_id@].files
                    };
                    &&& (rev_id@ == 0 || old(self).graph().contains_key(rev_id@))
                    &&& final(self).head() == rev_id@
                    &&& final(self).tracked_list() == file_paths(rfiles)
                    &&& forall|p: Seq<char>| #[trigger] file_content_opt(final(self).wd(), p) == (
                        if has_file(rfiles, p) {
                            file_content_opt(rfiles, p)
                        } else if old(self).tracked_list().contains(p) {
                            None
                        } else {
                            file_content_opt(old(self).wd(), p)
                        })
                },
                Err(e) => {
                    &&& e == ArcError::NotFound
                    &&& rev_id@ != 0
                    &&& !old(self).graph().contains_key(rev_id@)
                    &&& final(self).head() == old(self).head()
                    &&& final(self).tracked_list() == old(self).tracked_list()
                    &&& final(self).wd() == old(self).wd()
                },
            },
    {
        let ghost t0 = self.tracked_list();
        let ghost wd0 = self.wd();
        if !rev_id.is_empty() {
            if !self.store.contains(rev_id) {
                return Err(ArcError::NotFound);
            }
        }
        proof {
            self.store.lemma_wf_facts();
        }
        // Delete every tracked file from the working directory.
        let mut i: usize = 0;
        while i < self.tracked_files.len()
            invariant
                i <= self.tracked_files@.len(),
                t0 == self.tracked_list(),
                t0 == old(self).tracked_list(),
                wd0 == old(self).wd(),
                t0.len() == self.tracked_files@.len(),
                self.tracked_files@ == old(self).tracked_files@,
                self.store == old(self).store,
                self.cur_rev == old(self).cur_rev,
                self.upstream == old(self).upstream,
                self.root_path == old(self).root_path,
                self.arc_path == old(self).arc_path,
                self.wf(),
                forall|p: Seq<char>| #[trigger] file_content_opt(self.wd(), p) == (if t0.take(
                    i as int,
                ).contains(p) {
                    None::<Seq<char>>
                } else {
                    file_content_opt(wd0, p)
                }),
            decreases self.tracked_files@.len() - i,
        {
            let path = self.tracked_files[i].clone();
            let ghost wd_before = self.wd();
            self.workdir.del(&path);
            proof {
                assert(t0[i as int] == path@);
                assert forall|p: Seq<char>| #[trigger] file_content_opt(self.wd(), p) == (
                if t0.take(i + 1).contains(p) {
                    None::<Seq<char>>
                } else {
                    file_content_opt(wd0, p)
                }) by {
                    lemma_take_contains_step(t0, i as int, p);
                    if p == path@ {
                        assert(!has_file(self.wd(), p));
                        assert(t0.take(i + 1).contains(p)) by {
                            assert(t0.take(i + 1)[i as int] == p);
                        }
                    } else {
                        assert(file_content_opt(self.wd(), p) == file_content_opt(wd_before, p));
                    }
                }
            }
            i = i + 1;
        }
        proof {
            assert(t0.take(t0.len() as int) =~= t0);
        }
        if rev_id.is_empty() {
            self.tracked_files = Vec::new();
            self.cur_rev = revid::empty();
            proof {
                assert(self.tracked_list() =~= Seq::<Seq<char>>::empty());
                assert(file_paths(Seq::<FileData>::empty()) =~= Seq::<Seq<char>>::empty());
                assert forall|p: Seq<char>| !has_file(Seq::<FileData>::empty(), p) by {}
            }
            return Ok(());
        }
        let rev = match self.store.find_rev(rev_id) {
            Some(rev) => rev,
            None => {
                proof {
                    assert(false);
                }
                return Err(ArcError::NotFound);
            },
        };
        let ghost rf = rev@.files;
        proof {
            assert(rev::rev_wf(rev@));
            assert(file_paths(rf).no_duplicates());
        }
        let new_tracked = rev.get_files();
        let ghost wd1 = self.wd();
        // Materialize the revision's files into the working directory.
        let mut i: usize = 0;
        while i < rev.files.len()
            invariant
                i <= rev.files@.len(),
                rf == rev@.files,
                rf.len() == rev.files@.len(),
                file_paths(rf).no_duplicates(),
                self.store == old(self).store,
                self.tracked_files@ == old(self).tracked_files@,
                self.cur_rev == old(self).cur_rev,
                self.upstream == old(self).upstream,
                self.root_path == old(self).root_path,
                self.arc_path == old(self).arc_path,
                old(self).wf(),
                self.workdir.wf(),
                file_paths(self.wd()).no_duplicates(),
                forall|p: Seq<char>| #[trigger] file_content_opt(self.wd(), p) == (if has_file(
                    rf.take(i as int),
                    p,
                ) {
                    file_content_opt(rf.take(i as int), p)
                } else {
                    file_content_opt(wd1, p)
                }),
            decreases rev.files@.len() - i,
        {
            let path = rev.files[i].path.clone();
            let content = rev.files[i].content.clone();
            let ghost wd_before = self.wd();
            self.workdir.put(path, content);
            proof {
                assert(rf[i as int] == rev.files@[i as int]@);
                lemma_take_paths_no_dup(rf, i + 1);
                assert(rf.take(i + 1) =~= rf.take(i as int).push(rf[i as int]));
                assert(!has_file(rf.take(i as int), rf[i as int].path)) by {
                    let r0 = rf.take(i as int);
                    if has_file(r0, rf[i as int].path) {
                        let j = choose|j: int| 0 <= j < r0.len() && r0[j].path == rf[i as int].path;
                        assert(file_paths(rf)[j] == file_paths(rf)[i as int]);
                    }
                }
                assert forall|p: Seq<char>| #[trigger] file_content_opt(self.wd(), p) == (
                if has_file(rf.take(i + 1), p) {
                    file_content_opt(rf.take(i + 1), p)
                } else {
                    file_content_opt(wd1, p)
                }) by {
                    if p == rf[i as int].path {
                        lemma_take_paths_no_dup(rf, i + 1);
                        crate::rev::lemma_file_content_at(rf.take(i + 1), i as int);
                        assert(has_file(rf.take(i + 1), p)) by {
                            assert(rf.take(i + 1)[i as int].path == p);
                        }
                        assert(file_content_opt(self.wd(), p) == Some(rf[i as int].content));
                    } else {
                        lemma_take_paths_no_dup(rf, i as int);
                        crate::workdir::lemma_content_push_other(
                            rf.take(i as int),
                            rf[i as int],
                            p,
                        );
                        assert(file_content_opt(self.wd(), p) == file_content_opt(wd_before, p));
                        assert(has_file(rf.take(i + 1), p) == has_file(rf.take(i as int), p)) by {
                            let r1 = rf.take(i + 1);
                            let r0 = rf.take(i as int);
                            if has_file(r1, p) {
                                let j = choose|j: int| 0 <= j < r1.len() && r1[j].path == p;
                                assert(j < i);
                                assert(r0[j].path == p);
                            }
                            if has_file(r0, p) {
                                let j = choose|j: int| 0 <= j < r0.len() && r0[j].path == p;
                                assert(r1[j].path == p);
                            }
                        }
                    }
                }
            }
            i = i + 1;
        }
        proof {
            assert(rf.take(rf.len() as int) =~= rf);
        }
        self.tracked_files = new_tracked;
        self.cur_rev = *rev_id;
        proof {
            self.store.lemma_wf_facts();
            assert(ids_of(self.models()).contains(rev_id@));
            assert forall|p: Seq<char>| #[trigger] file_content_opt(self.wd(), p) == (if has_file(
                rf,
                p,
            ) {
                file_content_opt(rf, p)
            } else if t0.contains(p) {
                None::<Seq<char>>
            } else {
                file_content_opt(wd0, p)
            }) by {
                if !has_file(rf, p) {
                    assert(file_content_opt(self.wd(), p) == file_content_opt(wd1, p));
                }
            }
        }
        Ok(())
    }

    /// Merges two cataloged revisions. A decision procedure, in order:
    /// equal inputs are a no-op; a side reachable from the other is a
    /// fast-forward, returning the descendant with no new revision
    /// created; otherwise a three-way merge against the trunk-line
    /// common ancestor builds a new revision with `trunk_id` and
    /// `other_id` as parents, registers and heads it. Unrelated
    /// histories fail with `NoCommonAncestor` before anything is
    /// written. Per-file conflicts exclude only their own file and come
    /// back as the second component; the merge itself still succeeds.
    pub fn merge(&mut self, trunk_id: &RevID, other_id: &RevID) -> (r: Result<
        (RevID, Vec<String>),
        ArcError,
    >)
        requires
            old(self).wf(),
            old(self).graph().contains_key(trunk_id@),
            old(self).graph().contains_key(other_id@),
        ensures
            final(self).wf(),
            final(self).tracked_list() == old(self).tracked_list(),
            final(self).wd() == old(self).wd(),
            final(self).ups() == old(self).ups(),
            final(self).root() == old(self).root(),
            final(self).arc() == old(self).arc(),
            match r {
                Ok(res) => {
                    let m = old(self).models();
                    if trunk_id@ == other_id@ {
                        &&& res.0@ == trunk_id@
                        &&& res.1@.len() == 0
                        &&& final(self).models() == m
                        &&& final(self).head() == old(self).head()
                    } else if reaches(m, other_id@, trunk_id@) {
                        &&& res.0@ == other_id@
                        &&& res.1@.len() == 0
                        &&& final(self).models() == m
                        &&& final(self).head() == old(self).head()
                    } else if reaches(m, trunk_id@, other_id@) {
                        &&& res.0@ == trunk_id@
                        &&& res.1@.len() == 0
                        &&& final(self).models() == m
                        &&& final(self).head() == old(self).head()
                    } else {
                        &&& spec_common_ancestor(m, trunk_id@, other_id@) != 0
                        &&& res.0@ != 0
                        &&& !old(self).graph().contains_key(res.0@)
                        &&& final(self).models() == m.push(
                            merge_rev_data(m, trunk_id@, other_id@, res.0@),
                        )
                        &&& final(self).head() == res.0@
                        &&& res.1@.map_values(|s: String| s@) == spec_merge_conflicts(
                            m,
                            trunk_id@,
                            other_id@,
                        )
                    }
                },
                Err(e) => {
                    &&& e == ArcError::NoCommonAncestor
                    &&& trunk_id@ != other_id@
                    &&& !reaches(old(self).models(), other_id@, trunk_id@)
                    &&& !reaches(old(self).models(), trunk_id@, other_id@)
                    &&& spec_common_ancestor(old(self).models(), trunk_id@, other_id@) == 0
                    &&& final(self).models() == old(self).models()
                    &&& final(self).head() == old(self).head()
                },
            },
    {
        let ghost m = self.models();
        if trunk_id.value() == other_id.value() {
            return Ok((*trunk_id, Vec::new()));
        }
        if merge::can_reach_rev(&self.store, other_id, trunk_id) {
            return Ok((*other_id, Vec::new()));
        }
        if merge::can_reach_rev(&self.store, trunk_id, other_id) {
            return Ok((*trunk_id, Vec::new()));
        }
        let ancestor_id = merge::find_common_ancestor(&self.store, trunk_id, other_id);
        if ancestor_id.is_empty() {
            return Err(ArcError::NoCommonAncestor);
        }
        proof {
            self.store.lemma_wf_facts();
        }
        let ancestor_rev = match self.store.find_rev(&ancestor_id) {
            Some(rev) => rev,
            None => {
                proof {
                    assert(false);
                }
                return Err(ArcError::NoCommonAncestor);
            },
        };
        let trunk_rev = match self.store.find_rev(trunk_id) {
            Some(rev) => rev,
            None => {
                proof {
                    assert(false);
                }
                return Err(ArcError::NoCommonAncestor);
            },
        };
        let other_rev = match self.store.find_rev(other_id) {
            Some(rev) => rev,
            None => {
                proof {
                    assert(false);
                }
                return Err(ArcError::NoCommonAncestor);
            },
        };
        let (kept, conflicts) = merge::merge_rev_files(ancestor_rev, trunk_rev, other_rev);
        let nid = self.store.fresh_id();
        let new_rev = Rev {
            rev_id: nid,
            parent_trunk: *trunk_id,
            parent_other: *other_id,
            files: kept,
        };
        let ghost ids0 = ids_of(self.models());
        self.store.persist(new_rev);
        self.cur_rev = nid;
        proof {
            assert(ids_of(self.models()) =~= ids0.push(nid@));
            assert(ids_of(self.models())[ids0.len() as int] == nid@);
        }
        Ok((nid, conflicts))
    }

    /// Synchronizes from a peer: every revision the peer knows and this
    /// repository does not is copied, content and metadata whole, into
    /// this catalog, in the peer's registration order. Idempotent and
    /// monotone: nothing local is ever removed or replaced, and a second
    /// run from the same peer adds nothing.
    pub fn sync(&mut self, other_repo: &Repo)
        requires
            old(self).wf(),
            other_repo.wf(),
        ensures
            final(self).wf(),
            final(self).models() == old(self).models() + other_repo.models().filter(
                absent_model(old(self).graph()),
            ),
            final(self).graph() == other_repo.graph().union_prefer_right(old(self).graph()),
            final(self).head() == old(self).head(),
            final(self).tracked_list() == old(self).tracked_list(),
            final(self).wd() == old(self).wd(),
            final(self).ups() == old(self).ups(),
            final(self).root() == old(self).root(),
            final(self).arc() == old(self).arc(),
    {
        let ghost g0 = self.graph();
        let ghost src = other_repo.models();
        let ghost pred = absent_model(g0);
        proof {
            assert(src.take(0).filter(pred) =~= Seq::<RevData>::empty()) by {
                reveal_with_fuel(Seq::filter, 2);
                assert(src.take(0) =~= Seq::<RevData>::empty());
            }
            assert(self.models() =~= old(self).models() + src.take(0).filter(pred));
            store::lemma_graph_of_contains(src);
            other_repo.store.lemma_wf_facts();
        }
        let n = other_repo.store.len();
        let mut i: usize = 0;
        while i < n
            invariant
                i <= src.len(),
                n == src.len(),
                src == other_repo.models(),
                pred == absent_model(g0),
                g0 == old(self).graph(),
                old(self).wf(),
                other_repo.wf(),
                store::seq_wf(self.models()),
                self.models() == old(self).models() + src.take(i as int).filter(pred),
                forall|k: u128| #[trigger]
                    graph_of(self.models()).contains_key(k) <==> (g0.contains_key(k) || exists|j: int|
                        0 <= j < i && ids_of(src)[j] == k),
                forall|k: u128| #[trigger]
                    graph_of(self.models()).contains_key(k) ==> graph_of(self.models())[k] == (
                    if g0.contains_key(k) {
                        g0[k]
                    } else {
                        graph_of(src)[k]
                    }),
                self.tracked_files@ == old(self).tracked_files@,
                self.cur_rev == old(self).cur_rev,
                self.upstream == old(self).upstream,
                self.workdir == old(self).workdir,
                self.root_path == old(self).root_path,
                self.arc_path == old(self).arc_path,
            decreases src.len() - i,
        {
            let rev = other_repo.store.rev_at(i);
            let id = rev.rev_id;
            proof {
                other_repo.store.lemma_wf_facts();
                store::lemma_graph_of_index(src);
                assert(ids_of(src)[i as int] == src[i as int].id);
                assert(id@ == src[i as int].id);
                assert(src.take(i + 1) =~= src.take(i as int) + seq![src[i as int]]);
                Seq::filter_distributes_over_add(src.take(i as int), seq![src[i as int]], pred);
                assert(seq![src[i as int]].filter(pred) =~= if pred(src[i as int]) {
                    seq![src[i as int]]
                } else {
                    Seq::<RevData>::empty()
                }) by {
                    reveal_with_fuel(Seq::filter, 2);
                }
            }
            if !self.store.contains(&id) {
                proof {
                    // The copied revision's parents are already present:
                    // the peer registers parents first, and everything it
                    // registered before this entry is here by now.
                    assert(!g0.contains_key(id@));
                    assert(pred(src[i as int]));
                    let rd = src[i as int];
                    if rd.parent_trunk != 0 {
                        let j = choose|j: int|
                            0 <= j < i && ids_of(src).take(i as int)[j] == rd.parent_trunk;
                        assert(ids_of(src)[j] == rd.parent_trunk);
                        assert(graph_of(self.models()).contains_key(rd.parent_trunk));
                    }
                    if rd.parent_other != 0 {
                        let j = choose|j: int|
                            0 <= j < i && ids_of(src).take(i as int)[j] == rd.parent_other;
                        assert(ids_of(src)[j] == rd.parent_other);
                        assert(graph_of(self.models()).contains_key(rd.parent_other));
                    }
                    assert(rev::rev_wf(rd));
                }
                let copy = rev.duplicate();
                let ghost m_before = self.models();
                self.store.persist(copy);
                proof {
                    assert(self.models() =~= old(self).models() + src.take(i + 1).filter(pred));
                    assert forall|k: u128| #[trigger]
                        graph_of(self.models()).contains_key(k) <==> (g0.contains_key(k)
                            || exists|j: int| 0 <= j < i + 1 && ids_of(src)[j] == k) by {
                        if k == id@ {
                            assert(ids_of(src)[i as int] == k);
                        } else {
                            assert(graph_of(self.models()).contains_key(k)
                                == graph_of(m_before).contains_key(k));
                        }
                    }
                    assert(graph_of(src)[id@] == src[i as int]);
                }
            } else {
                proof {
                    // Already present: it was local all along, or the
                    // peer's identifiers would repeat.
                    assert(g0.contains_key(id@)) by {
                        if !g0.contains_key(id@) {
                            let j = choose|j: int| 0 <= j < i && ids_of(src)[j] == id@;
                            assert(ids_of(src)[j] == ids_of(src)[i as int]);
                        }
                    }
                    assert(!pred(src[i as int]));
                    assert(self.models() =~= old(self).models() + src.take(i + 1).filter(pred));
                }
            }
            i = i + 1;
        }
        proof {
            assert(src.take(src.len() as int) =~= src);
            store::lemma_graph_of_contains(src);
            assert(graph_of(self.models()) =~= graph_of(src).union_prefer_right(g0)) by {
                assert forall|k: u128|
                    graph_of(self.models()).contains_key(k) <==> graph_of(
                        src,
                    ).union_prefer_right(g0).contains_key(k) by {
                    if graph_of(src).contains_key(k) {
                        let j = choose|j: int| 0 <= j < ids_of(src).len() && ids_of(src)[j] == k;
                    }
                    if exists|j: int| 0 <= j < src.len() && ids_of(src)[j] == k {
                        let j = choose|j: int| 0 <= j < src.len() && ids_of(src)[j] == k;
                        assert(ids_of(src).contains(k));
                    }
                }
            }
            if old(self).head() != 0 {
                let j = choose|j: int|
                    0 <= j < ids_of(old(self).models()).len() && ids_of(old(self).models())[j]
                        == old(self).head();
                assert(ids_of(self.models())[j] == old(self).head()) by {
                    assert(self.models()[j] == old(self).models()[j]);
                }
            }
        }
    }
}

/// One step of walking a path list: membership in a longer prefix.
proof fn lemma_take_contains_step(t: Seq<Seq<char>>, i: int, p: Seq<char>)
    requires
        0 <= i < t.len(),
    ensures
        t.take(i + 1).contains(p) <==> (t.take(i).contains(p) || p == t[i]),
{
    let t1 = t.take(i + 1);
    let t_i = t.take(i);
    if t1.contains(p) {
        let j = choose|j: int| 0 <= j < t1.len() && t1[j] == p;
        if j < i {
            assert(t_i[j] == p);
        }
    }
    if t_i.contains(p) {
        let j = choose|j: int| 0 <= j < t_i.len() && t_i[j] == p;
        assert(t1[j] == p);
    }
    if p == t[i] {
        assert(t1[i] == p);
    }
}

/// A prefix of a duplicate-free snapshot is duplicate free.
proof fn lemma_take_paths_no_dup(m: Seq<FileData>, k: int)
    requires
        file_paths(m).no_duplicates(),
        0 <= k <= m.len(),
    ensures
        file_paths(m.take(k)).no_duplicates(),
{
    assert(file_paths(m.take(k)) =~= file_paths(m).take(k));
    let r = file_paths(m).take(k);
    assert forall|j: int, l: int| 0 <= j < l < r.len() implies r[j] != r[l] by {
        assert(r[j] == file_paths(m)[j]);
        assert(r[l] == file_paths(m)[l]);
    }
}

/// Whether `x` occurs among `v`.
fn contains_string(v: &Vec<String>, x: &String) -> (r: bool)
    ensures
        r == v@.map_values(|s: String| s@).contains(x@),
{
    let ghost m = v@.map_values(|s: String| s@);
    let mut i: usize = 0;
    while i < v.len()
        invariant
            i <= v@.len(),
            m == v@.map_values(|s: String| s@),
            m.len() == v@.len(),
            forall|j: int| 0 <= j < i ==> m[j] != x@,
        decreases v@.len() - i,
    {
        if v[i] == *x {
            proof {
                assert(m[i as int] == x@);
            }
            return true;
        }
        i = i + 1;
    }
    proof {
        if m.contains(x@) {
            let j = choose|j: int| 0 <= j < m.len() && m[j] == x@;
        }
    }
    false
}

/// A filtered duplicate-free sequence stays duplicate free.
proof fn lemma_filter_no_dup(s: Seq<Seq<char>>, pred: spec_fn(Seq<char>) -> bool)
    requires
        s.no_duplicates(),
    ensures
        s.filter(pred).no_duplicates(),
    decreases s.len(),
{
    reveal(Seq::filter);
    if s.len() > 0 {
        assert(s.drop_last().no_duplicates());
        lemma_filter_no_dup(s.drop_last(), pred);
        if pred(s.last()) {
            assert(!s.drop_last().filter(pred).contains(s.last())) by {
                if s.drop_last().filter(pred).contains(s.last()) {
                    let j = choose|j: int|
                        0 <= j < s.drop_last().filter(pred).len() && s.drop_last().filter(pred)[j]
                            == s.last();
                    merge::lemma_filter_element_of(s.drop_last(), pred, j);
                    let k = choose|k: int|
                        0 <= k < s.drop_last().len() && s.drop_last()[k] == s.last();
                    assert(s[k] == s[s.len() - 1]);
                }
            }
            assert(s.filter(pred).drop_last() =~= s.drop_last().filter(pred));
        }
    }
}

/// Initializes an empty repository rooted at `root_path`: no upstream,
/// nothing tracked, an empty catalog, the empty head. Creating the
/// directories, and refusing a root that already holds a repository,
/// is the surrounding program's business.
pub fn init(root_path: &String) -> (r: Repo)
    ensures
        r.wf(),
        r.models() == Seq::<RevData>::empty(),
        r.tracked_list() == Seq::<Seq<char>>::empty(),
        r.wd() == Seq::<FileData>::empty(),
        r.head() == 0,
        r.ups() is None,
        r.root() == root_path@,
        r.arc() == mach::spec_join_paths(root_path@, ".arc"@),
{
    let arc_path = mach::join_paths(root_path, &String::from_str(".arc"));
    let r = Repo {
        root_path: root_path.clone(),
        arc_path,
        upstream: None,
        tracked_files: Vec::new(),
        store: Store::new(),
        cur_rev: revid::empty(),
        workdir: WorkDir::new(),
    };
    proof {
        assert(r.tracked_list() =~= Seq::<Seq<char>>::empty());
    }
    r
}

} // verus!
