//! The working directory, modelled as a value.
//!
//! A repository's working directory is the set of files under its root,
//! each a path with its content. The engine computes on this model; the
//! surrounding program mirrors it from and to the real directory before
//! and after each operation.

use vstd::prelude::*;

use crate::rev::{
    file_content_opt, file_paths, has_file, lemma_file_content_at, snaps_view, FileData, FileSnap,
    find_snap,
};

verus! {

/// A working directory: files under a repository root, each path held at
/// most once.
pub struct WorkDir {
    files: Vec<FileSnap>,
}

impl View for WorkDir {
    type V = Seq<FileData>;

    closed spec fn view(&self) -> Seq<FileData> {
        snaps_view(self.files@)
    }
}

impl WorkDir {
    /// The invariant: no path occurs twice.
    pub open spec fn wf(self) -> bool {
        file_paths(self@).no_duplicates()
    }

    /// An empty working directory.
    pub fn new() -> (r: WorkDir)
        ensures
            r.wf(),
            r@ == Seq::<FileData>::empty(),
    {
        let r = WorkDir { files: Vec::new() };
        proof {
            assert(r@ =~= Seq::<FileData>::empty());
        }
        r
    }

    /// Whether a file exists under `path`.
    pub fn has(&self, path: &String) -> (r: bool)
        requires
            self.wf(),
        ensures
            r == has_file(self@, path@),
    {
        self.read(path).is_some()
    }

    /// The content of the file under `path`, if it exists.
    pub fn read(&self, path: &String) -> (r: Option<&String>)
        requires
            self.wf(),
        ensures
            match r {
                Some(c) => file_content_opt(self@, path@) == Some(c@),
                None => file_content_opt(self@, path@) is None && !has_file(self@, path@),
            },
    {
        find_snap(&self.files, path)
    }

    /// Deletes the file under `path`, if any.
    pub fn del(&mut self, path: &String)
        requires
            old(self).wf(),
        ensures
            final(self).wf(),
            !has_file(final(self)@, path@),
            forall|p: Seq<char>|
                p != path@ ==> #[trigger] file_content_opt(final(self)@, p) == file_content_opt(
                    old(self)@,
                    p,
                ),
    {
        let ghost m0 = self@;
        let mut i: usize = 0;
        while i < self.files.len()
            invariant
                i <= self.files.len(),
                self@ == m0,
                m0 == old(self)@,
                self.wf(),
                m0.len() == self.files@.len(),
                forall|j: int| 0 <= j < i ==> m0[j].path != path@,
            decreases self.files.len() - i,
        {
            if self.files[i].path == *path {
                self.files.remove(i);
                proof {
                    let m1 = self@;
                    assert(m1 =~= m0.remove(i as int));
                    assert(file_paths(m1) =~= file_paths(m0).remove(i as int));
                    lemma_paths_remove_no_dup(m0, i as int);
                    assert forall|p: Seq<char>|
                        p != path@ implies #[trigger] file_content_opt(m1, p) == file_content_opt(
                        m0,
                        p,
                    ) by {
                        lemma_content_remove_other(m0, i as int, p);
                    }
                    assert(!has_file(m1, path@)) by {
                        if has_file(m1, path@) {
                            let j = choose|j: int| 0 <= j < m1.len() && m1[j].path == path@;
                            let j0 = if j < i { j } else { j + 1 };
                            assert(m0[j0] == m1[j]);
                            assert(file_paths(m0)[j0] == path@);
                            assert(file_paths(m0)[i as int] == path@);
                        }
                    }
                }
                return ;
            }
            proof {
                assert(m0[i as int] == self.files@[i as int]@);
            }
            i = i + 1;
        }
        proof {
            if has_file(self@, path@) {
                let j = choose|j: int| 0 <= j < m0.len() && m0[j].path == path@;
            }
        }
    }

    /// Writes `content` under `path`, replacing any file already there.
    pub fn put(&mut self, path: String, content: String)
        requires
            old(self).wf(),
        ensures
            final(self).wf(),
            file_content_opt(final(self)@, path@) == Some(content@),
            has_file(final(self)@, path@),
            forall|p: Seq<char>|
                p != path@ ==> #[trigger] file_content_opt(final(self)@, p) == file_content_opt(
                    old(self)@,
                    p,
                ),
    {
        self.del(&path);
        let ghost m1 = self@;
        let ghost snap = FileData { path: path@, content: content@ };
        self.files.push(FileSnap { path, content });
        proof {
            let m2 = self@;
            assert(m2 =~= m1.push(snap));
            assert(file_paths(m2) =~= file_paths(m1).push(snap.path));
            assert(file_paths(m2).drop_last() =~= file_paths(m1));
            assert(!file_paths(m1).contains(snap.path)) by {
                if file_paths(m1).contains(snap.path) {
                    let j = choose|j: int|
                        0 <= j < file_paths(m1).len() && file_paths(m1)[j] == snap.path;
                    assert(m1[j].path == snap.path);
                    assert(has_file(m1, snap.path));
                }
            }
            assert(file_paths(m2).no_duplicates());
            lemma_file_content_at(m2, m2.len() - 1);
            assert forall|p: Seq<char>|
                p != snap.path implies #[trigger] file_content_opt(m2, p) == file_content_opt(
                m1,
                p,
            ) by {
                lemma_content_push_other(m1, snap, p);
            }
        }
    }
}

/// Removing an entry from a duplicate-free snapshot keeps it duplicate
/// free.
proof fn lemma_paths_remove_no_dup(m: Seq<FileData>, i: int)
    requires
        file_paths(m).no_duplicates(),
        0 <= i < m.len(),
    ensures
        file_paths(m.remove(i)).no_duplicates(),
{
    assert(file_paths(m.remove(i)) =~= file_paths(m).remove(i));
    file_paths(m).remove_ensures(i);
    let r = file_paths(m).remove(i);
    assert forall|j: int, k: int| 0 <= j < k < r.len() implies r[j] != r[k] by {
        let j0 = if j < i {
            j
        } else {
            j + 1
        };
        let k0 = if k < i {
            k
        } else {
            k + 1
        };
        assert(r[j] == file_paths(m)[j0]);
        assert(r[k] == file_paths(m)[k0]);
    }
}

/// Removing the entry at one path leaves lookups at every other path
/// unchanged.
pub proof fn lemma_content_remove_other(m: Seq<FileData>, i: int, p: Seq<char>)
    requires
        file_paths(m).no_duplicates(),
        0 <= i < m.len(),
        p != m[i].path,
    ensures
        file_content_opt(m.remove(i), p) == file_content_opt(m, p),
{
    let r = m.remove(i);
    assert(file_paths(r) =~= file_paths(m).remove(i));
    lemma_paths_remove_no_dup(m, i);
    if has_file(m, p) {
        let j = choose|j: int| 0 <= j < m.len() && m[j].path == p;
        assert(j != i);
        let j1 = if j < i {
            j
        } else {
            j - 1
        };
        assert(r[j1] == m[j]);
        lemma_file_content_at(m, j);
        lemma_file_content_at(r, j1);
    } else {
        if has_file(r, p) {
            let j = choose|j: int| 0 <= j < r.len() && r[j].path == p;
            let j0 = if j < i {
                j
            } else {
                j + 1
            };
            assert(m[j0] == r[j]);
            assert(has_file(m, p));
        }
    }
}

/// Appending an entry under a fresh path leaves lookups at every other
/// path unchanged.
pub proof fn lemma_content_push_other(m: Seq<FileData>, f: FileData, p: Seq<char>)
    requires
        file_paths(m).no_duplicates(),
        !has_file(m, f.path),
        p != f.path,
    ensures
        file_content_opt(m.push(f), p) == file_content_opt(m, p),
{
    let r = m.push(f);
    assert(file_paths(r) =~= file_paths(m).push(f.path));
    assert(!file_paths(m).contains(f.path)) by {
        if file_paths(m).contains(f.path) {
            let j = choose|j: int| 0 <= j < file_paths(m).len() && file_paths(m)[j] == f.path;
            assert(m[j].path == f.path);
        }
    }
    assert(file_paths(r).drop_last() =~= file_paths(m));
    assert(file_paths(r).no_duplicates());
    if has_file(m, p) {
        let j = choose|j: int| 0 <= j < m.len() && m[j].path == p;
        assert(r[j] == m[j]);
        lemma_file_content_at(m, j);
        lemma_file_content_at(r, j);
    } else {
        if has_file(r, p) {
            let j = choose|j: int| 0 <= j < r.len() && r[j].path == p;
            assert(j < m.len() || r[j] == f);
            assert(has_file(m, p));
        }
    }
}

} // verus!
