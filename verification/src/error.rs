//! Error kinds of the store engine.

use vstd::prelude::*;

verus! {

/// A terminal failure of one store operation.
///
/// Per-entry skips during `push`, `pull` and the restoration step of
/// `untrack` are deliberately not errors; they are reported as outcomes.
#[derive(Clone, Copy, Debug, PartialEq, Eq, Structural)]
pub enum StoreError {
    /// No repository could be resolved from the working directory.
    NotARepo,
    /// The store directory or its manifest file does not exist yet.
    StoreNotInitialized,
    /// The path given to `track` does not exist in the worktree.
    FileNotFound,
    /// A strategy token other than `symlink` or `copy`.
    InvalidStrategy,
    /// A filter named a path that no manifest entry carries.
    UntrackedFile,
    /// A `push` filter named a path that is not tracked with `Copy`.
    NotCopyTracked,
    /// Writing a copy failed because something stands in its way.
    CopyFailed,
    /// The manifest file could not be read or written.
    ManifestIoFailed,
}

impl StoreError {
    /// A short label for reporting.
    pub fn label(&self) -> (r: &'static str)
        ensures
            r@ == self.label_spec(),
    {
        match self {
            StoreError::NotARepo => "not inside a repository",
            StoreError::StoreNotInitialized => "store not initialized",
            StoreError::FileNotFound => "file not found",
            StoreError::InvalidStrategy => "invalid strategy",
            StoreError::UntrackedFile => "file is not tracked",
            StoreError::NotCopyTracked => "file is not copy-tracked",
            StoreError::CopyFailed => "copy failed",
            StoreError::ManifestIoFailed => "manifest could not be read or written",
        }
    }

    pub open spec fn label_spec(self) -> Seq<char> {
        match self {
            StoreError::NotARepo => "not inside a repository"@,
            StoreError::StoreNotInitialized => "store not initialized"@,
            StoreError::FileNotFound => "file not found"@,
            StoreError::InvalidStrategy => "invalid strategy"@,
            StoreError::UntrackedFile => "file is not tracked"@,
            StoreError::NotCopyTracked => "file is not copy-tracked"@,
            StoreError::CopyFailed => "copy failed"@,
            StoreError::ManifestIoFailed => "manifest could not be read or written"@,
        }
    }
}

} // verus!
