//! Error taxonomy of the engine.
//!
//! Structural errors abort a whole operation before any catalog state is
//! rewritten; per-file merge conflicts are collected and reported without
//! aborting the surrounding merge.

use vstd::prelude::*;

verus! {

/// The error taxonomy of the version-control engine.
#[derive(Clone, Copy, Debug, PartialEq, Eq, Structural)]
pub enum ArcError {
    /// A repository, revision or file that should exist does not.
    NotFound,
    /// A malformed identifier or malformed metadata.
    FormatError,
    /// `init` on a directory that already holds a repository.
    AlreadyInitialized,
    /// A merge of two unrelated histories; aborts the merge.
    NoCommonAncestor,
    /// A per-file three-way merge conflict; recorded, the file is excluded,
    /// and the overall merge proceeds.
    MergeConflict,
    /// A file listed by a revision is absent from its store: backing
    /// corruption, fatal.
    MissingWorkingFile,
    /// A tracked file was missing from disk at commit time; the file is
    /// omitted from the commit and reported.
    PartialCommit,
}

} // verus!
