//! What the overlay reports as changed.
use vstd::prelude::*;
use crate::path::BytePath;

verus! {

/// How a path differs from the pinned commit.
#[derive(Clone, Copy, PartialEq, Eq, Structural, Debug)]
pub enum ChangeKind {
    Added,
    Modified,
    Deleted,
    TypeChanged,
    ModeChanged,
    Renamed,
}

/// One changed path.
#[derive(Debug)]
pub struct StatusChange {
    pub path: BytePath,
    pub kind: ChangeKind,
    /// Where a renamed path came from.
    pub from: Option<BytePath>,
    /// The qualified ID of the old side.
    pub old_oid: Option<String>,
    /// The mode the path has now.
    pub new_mode: Option<u32>,
    /// Whether the bytes differ.
    pub content_change: bool,
}

/// A workspace's changes.
#[derive(Debug)]
pub struct Status {
    pub changes: Vec<StatusChange>,
    /// Directories that are gone as a whole.
    pub directory_deletions: Vec<BytePath>,
}

impl Status {
    /// Whether nothing changed.
    pub fn is_clean(&self) -> (res: bool)
        ensures
            res == (self.changes@.len() == 0 && self.directory_deletions@.len() == 0),
    {
        self.changes.len() == 0 && self.directory_deletions.len() == 0
    }
}

} // verus!
