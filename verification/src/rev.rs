//! The revision entity.
//!
//! A revision is an immutable node of the history graph: its identifier,
//! its two parent links (the trunk lineage and, for merge revisions, the
//! other lineage), and a full snapshot of every file it tracks. Storage is
//! full-copy per revision: every revision carries each file's complete
//! content.

use vstd::prelude::*;

use crate::revid;
use crate::revid::RevID;

verus! {

/// One file of a revision snapshot: a relative path and the file's full
/// content.
pub struct FileSnap {
    pub path: String,
    pub content: String,
}

/// The mathematical model of a `FileSnap`.
pub struct FileData {
    pub path: Seq<char>,
    pub content: Seq<char>,
}

impl View for FileSnap {
    type V = FileData;

    open spec fn view(&self) -> FileData {
        FileData { path: self.path@, content: self.content@ }
    }
}

/// A revision: identity, parent links, and file snapshot. Once persisted
/// in a store, a revision's parent links and file list never change.
pub struct Rev {
    pub rev_id: RevID,
    pub parent_trunk: RevID,
    pub parent_other: RevID,
    pub files: Vec<FileSnap>,
}

/// The mathematical model of a `Rev`.
pub struct RevData {
    pub id: u128,
    pub parent_trunk: u128,
    pub parent_other: u128,
    pub files: Seq<FileData>,
}

/// The model of a snapshot vector.
pub open spec fn snaps_view(files: Seq<FileSnap>) -> Seq<FileData> {
    files.map_values(|f: FileSnap| f@)
}

impl View for Rev {
    type V = RevData;

    open spec fn view(&self) -> RevData {
        RevData {
            id: self.rev_id@,
            parent_trunk: self.parent_trunk@,
            parent_other: self.parent_other@,
            files: snaps_view(self.files@),
        }
    }
}

/// Looks the snapshot entry under `path` up in a duplicate-free snapshot
/// vector.
pub fn find_snap<'a>(files: &'a Vec<FileSnap>, path: &String) -> (r: Option<&'a String>)
    requires
        file_paths(snaps_view(files@)).no_duplicates(),
    ensures
        match r {
            Some(c) => file_content_opt(snaps_view(files@), path@) == Some(c@),
            None => file_content_opt(snaps_view(files@), path@) is None,
        },
{
    let ghost m = snaps_view(files@);
    let mut i: usize = 0;
    while i < files.len()
        invariant
            i <= files.len(),
            m == snaps_view(files@),
            m.len() == files@.len(),
            file_paths(m).no_duplicates(),
            forall|j: int| 0 <= j < i ==> m[j].path != path@,
        decreases files.len() - i,
    {
        if files[i].path == *path {
            proof {
                assert(m[i as int].path == path@);
                lemma_file_content_at(m, i as int);
            }
            return Some(&files[i].content);
        }
        proof {
            assert(m[i as int] == files@[i as int]@);
        }
        i = i + 1;
    }
    proof {
        if has_file(m, path@) {
            let j = choose|j: int| 0 <= j < m.len() && m[j].path == path@;
        }
    }
    None
}

/// The paths of a file snapshot, in snapshot order.
pub open spec fn file_paths(files: Seq<FileData>) -> Seq<Seq<char>> {
    files.map_values(|f: FileData| f.path)
}

/// Whether a snapshot holds a file under `path`.
pub open spec fn has_file(files: Seq<FileData>, path: Seq<char>) -> bool {
    exists|i: int| 0 <= i < files.len() && files[i].path == path
}

/// The content a snapshot holds under `path`, if any. Meaningful when no
/// two entries share a path, which every well-formed snapshot guarantees.
pub open spec fn file_content_opt(files: Seq<FileData>, path: Seq<char>) -> Option<Seq<char>> {
    if has_file(files, path) {
        let i = choose|i: int| 0 <= i < files.len() && files[i].path == path;
        Some(files[i].content)
    } else {
        None
    }
}

/// In a duplicate-free snapshot, the entry at each index is what lookup
/// under its path yields.
pub proof fn lemma_file_content_at(files: Seq<FileData>, i: int)
    requires
        file_paths(files).no_duplicates(),
        0 <= i < files.len(),
    ensures
        file_content_opt(files, files[i].path) == Some(files[i].content),
{
    assert(has_file(files, files[i].path));
    let j = choose|j: int| 0 <= j < files.len() && files[j].path == files[i].path;
    assert(file_paths(files)[i] == files[i].path);
    assert(file_paths(files)[j] == files[j].path);
    assert(j == i);
}

/// A well-formed revision: a non-empty identifier and no two snapshot
/// entries under the same path.
pub open spec fn rev_wf(r: RevData) -> bool {
    &&& r.id != 0
    &&& file_paths(r.files).no_duplicates()
}

impl Rev {
    /// The revision's identifier.
    pub fn get_id(&self) -> (r: &RevID)
        ensures
            r@ == self@.id,
    {
        &self.rev_id
    }

    /// The canonical text of the revision's identifier.
    pub fn get_id_str(&self) -> (r: String)
        ensures
            r@ == revid::uuid_simple(self@.id),
    {
        self.rev_id.to_text()
    }

    /// The trunk parent link; the empty identifier only for the very first
    /// revision of a repository.
    pub fn get_parent_trunk_id(&self) -> (r: &RevID)
        ensures
            r@ == self@.parent_trunk,
    {
        &self.parent_trunk
    }

    /// The other parent link; the empty identifier unless this revision is
    /// a merge.
    pub fn get_parent_other_id(&self) -> (r: &RevID)
        ensures
            r@ == self@.parent_other,
    {
        &self.parent_other
    }

    /// The tracked paths of this revision, in snapshot order.
    pub fn get_files(&self) -> (r: Vec<String>)
        ensures
            r@.map_values(|p: String| p@) == file_paths(self@.files),
    {
        let mut paths: Vec<String> = Vec::new();
        let mut i: usize = 0;
        while i < self.files.len()
            invariant
                i <= self.files.len(),
                paths@.len() == i,
                paths@.map_values(|p: String| p@) == file_paths(self@.files).take(i as int),
            decreases self.files.len() - i,
        {
            let ghost prev = paths@;
            paths.push(self.files[i].path.clone());
            proof {
                let f = |p: String| p@;
                assert(paths@ == prev.push(self.files@[i as int].path));
                assert forall|j: int| 0 <= j < paths@.len() implies paths@.map_values(f)[j]
                    == file_paths(self@.files).take(i + 1)[j] by {
                    if j < i {
                        assert(prev.map_values(f)[j] == file_paths(self@.files).take(i as int)[j]);
                    }
                }
                assert(paths@.map_values(f) =~= file_paths(self@.files).take(i + 1));
            }
            i = i + 1;
        }
        assert(file_paths(self@.files).take(self.files.len() as int) =~= file_paths(self@.files));
        paths
    }

    /// The content this revision stores for `path`, if the path is part of
    /// the snapshot.
    pub fn find_file(&self, path: &String) -> (r: Option<&String>)
        requires
            file_paths(self@.files).no_duplicates(),
        ensures
            match r {
                Some(c) => file_content_opt(self@.files, path@) == Some(c@),
                None => file_content_opt(self@.files, path@) is None,
            },
    {
        find_snap(&self.files, path)
    }
}

impl Rev {
    /// A deep copy of this revision.
    pub fn duplicate(&self) -> (r: Rev)
        ensures
            r@ == self@,
    {
        let mut files: Vec<FileSnap> = Vec::new();
        let mut i: usize = 0;
        while i < self.files.len()
            invariant
                i <= self.files@.len(),
                snaps_view(files@) == snaps_view(self.files@).take(i as int),
            decreases self.files@.len() - i,
        {
            let ghost prev = files@;
            files.push(
                FileSnap { path: self.files[i].path.clone(), content: self.files[i].content.clone() },
            );
            proof {
                assert(snaps_view(files@) =~= snaps_view(prev).push(self.files@[i as int]@));
                assert(snaps_view(files@) =~= snaps_view(self.files@).take(i + 1));
            }
            i = i + 1;
        }
        proof {
            assert(snaps_view(self.files@).take(self.files@.len() as int) =~= snaps_view(
                self.files@,
            ));
        }
        Rev {
            rev_id: self.rev_id,
            parent_trunk: self.parent_trunk,
            parent_other: self.parent_other,
            files,
        }
    }
}

/// Builds a revision with the given identity and parent links and an empty
/// snapshot.
pub fn new(rev_id: RevID, parent_trunk: RevID, parent_other: RevID) -> (r: Rev)
    ensures
        r@.id == rev_id@,
        r@.parent_trunk == parent_trunk@,
        r@.parent_other == parent_other@,
        r@.files == Seq::<FileData>::empty(),
{
    Rev { rev_id, parent_trunk, parent_other, files: Vec::new() }
}

} // verus!
