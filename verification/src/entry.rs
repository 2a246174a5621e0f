//! Tree entries: what a path is in a commit.
use vstd::prelude::*;
use crate::bytes::copy_bytes;
use crate::object::{ObjectId, ObjectIdView};
use crate::path::BytePath;
use crate::time::Timestamp;

verus! {

/// Git's tree mode of a regular file.
pub const REGULAR: u32 = 0o100644;

/// Git's tree mode of an executable file.
pub const EXECUTABLE: u32 = 0o100755;

/// Git's tree mode of a symbolic link.
pub const SYMLINK: u32 = 0o120000;

/// Git's tree mode of a directory.
pub const DIRECTORY: u32 = 0o040000;

/// Git's tree mode of a submodule.
pub const GITLINK: u32 = 0o160000;

/// What an entry is.
#[derive(Clone, Copy, PartialEq, Eq, Structural, Debug)]
pub enum EntryKind {
    Regular,
    Executable,
    Symlink,
    Directory,
    Gitlink,
    /// A mode the filesystem does not model.
    Unsupported(u32),
}

impl EntryKind {
    /// The kind a Git tree mode stands for.
    pub open spec fn of_mode(mode: u32) -> EntryKind {
        if mode == REGULAR {
            EntryKind::Regular
        } else if mode == EXECUTABLE {
            EntryKind::Executable
        } else if mode == SYMLINK {
            EntryKind::Symlink
        } else if mode == DIRECTORY {
            EntryKind::Directory
        } else if mode == GITLINK {
            EntryKind::Gitlink
        } else {
            EntryKind::Unsupported(mode)
        }
    }

    /// The kind a Git tree mode stands for.
    pub fn from_mode(mode: u32) -> (res: EntryKind)
        ensures
            res == EntryKind::of_mode(mode),
    {
        if mode == REGULAR {
            EntryKind::Regular
        } else if mode == EXECUTABLE {
            EntryKind::Executable
        } else if mode == SYMLINK {
            EntryKind::Symlink
        } else if mode == DIRECTORY {
            EntryKind::Directory
        } else if mode == GITLINK {
            EntryKind::Gitlink
        } else {
            EntryKind::Unsupported(mode)
        }
    }

    /// Whether the entry presents itself as a directory. A submodule does.
    pub open spec fn dir_like(self) -> bool {
        self == EntryKind::Directory || self == EntryKind::Gitlink
    }

    /// Whether the entry presents itself as a directory.
    pub fn is_dir_like(self) -> (res: bool)
        ensures
            res == self.dir_like(),
    {
        matches!(self, EntryKind::Directory) || matches!(self, EntryKind::Gitlink)
    }
}

/// An optional byte string as a sequence.
pub open spec fn opt_bytes(v: Option<Vec<u8>>) -> Option<Seq<u8>> {
    match v {
        Some(b) => Some(b@),
        None => None,
    }
}

/// An optional text as a sequence.
pub open spec fn opt_text(v: Option<String>) -> Option<Seq<char>> {
    match v {
        Some(t) => Some(t@),
        None => None,
    }
}

/// A copy of an optional byte string.
pub fn copy_opt_bytes(v: &Option<Vec<u8>>) -> (res: Option<Vec<u8>>)
    ensures
        opt_bytes(res) == opt_bytes(*v),
{
    match v {
        Some(b) => Some(copy_bytes(b.as_slice())),
        None => None,
    }
}

/// A copy of an optional text.
pub fn copy_opt_text(v: &Option<String>) -> (res: Option<String>)
    ensures
        opt_text(res) == opt_text(*v),
{
    match v {
        Some(t) => Some(t.clone()),
        None => None,
    }
}

/// One entry of a tree.
#[derive(Debug)]
pub struct TreeEntryInfo {
    pub path: BytePath,
    pub kind: EntryKind,
    pub mode: u32,
    pub oid: ObjectId,
    pub size: u64,
    pub symlink_target: Option<Vec<u8>>,
    pub blob_ticket: Option<String>,
}

/// What a [`TreeEntryInfo`] denotes.
#[verifier::ext_equal]
pub struct TreeEntryView {
    pub path: Seq<u8>,
    pub kind: EntryKind,
    pub mode: u32,
    pub oid: ObjectIdView,
    pub size: u64,
    pub symlink_target: Option<Seq<u8>>,
    pub blob_ticket: Option<Seq<char>>,
}

impl View for TreeEntryInfo {
    type V = TreeEntryView;

    open spec fn view(&self) -> TreeEntryView {
        TreeEntryView {
            path: self.path@,
            kind: self.kind,
            mode: self.mode,
            oid: self.oid@,
            size: self.size,
            symlink_target: opt_bytes(self.symlink_target),
            blob_ticket: opt_text(self.blob_ticket),
        }
    }
}

impl TreeEntryInfo {
    /// An owned copy.
    pub fn duplicate(&self) -> (res: TreeEntryInfo)
        ensures
            res@ == self@,
    {
        TreeEntryInfo {
            path: self.path.duplicate(),
            kind: self.kind,
            mode: self.mode,
            oid: self.oid.duplicate(),
            size: self.size,
            symlink_target: copy_opt_bytes(&self.symlink_target),
            blob_ticket: copy_opt_text(&self.blob_ticket),
        }
    }
}

/// The snapshot root as a tree entry.
pub open spec fn root_view(tree: ObjectIdView) -> TreeEntryView {
    TreeEntryView {
        path: Seq::empty(),
        kind: EntryKind::Directory,
        mode: DIRECTORY,
        oid: tree,
        size: 0,
        symlink_target: None,
        blob_ticket: None,
    }
}

/// The snapshot root as a tree entry.
pub fn root_entry(tree: ObjectId) -> (res: TreeEntryInfo)
    ensures
        res@ == root_view(tree@),
{
    TreeEntryInfo {
        path: BytePath::root(),
        kind: EntryKind::Directory,
        mode: DIRECTORY,
        oid: tree,
        size: 0,
        symlink_target: None,
        blob_ticket: None,
    }
}

/// One file a tree walk found.
#[derive(Debug)]
pub struct WalkEntry {
    pub path: BytePath,
    pub mode: u32,
    pub oid: ObjectId,
    pub size: u64,
}

/// What a [`WalkEntry`] denotes.
#[verifier::ext_equal]
pub struct WalkEntryView {
    pub path: Seq<u8>,
    pub mode: u32,
    pub oid: ObjectIdView,
    pub size: u64,
}

impl View for WalkEntry {
    type V = WalkEntryView;

    open spec fn view(&self) -> WalkEntryView {
        WalkEntryView { path: self.path@, mode: self.mode, oid: self.oid@, size: self.size }
    }
}

impl WalkEntry {
    /// An owned copy.
    pub fn duplicate(&self) -> (res: WalkEntry)
        ensures
            res@ == self@,
    {
        WalkEntry {
            path: self.path.duplicate(),
            mode: self.mode,
            oid: self.oid.duplicate(),
            size: self.size,
        }
    }
}

/// Who made a commit, and when.
#[derive(Debug)]
pub struct Signature {
    pub name: Vec<u8>,
    pub email: Vec<u8>,
    pub time: Timestamp,
    pub tz_offset_minutes: i32,
}

/// A commit's own data.
#[derive(Debug)]
pub struct CommitMeta {
    pub commit: ObjectId,
    pub tree: ObjectId,
    pub parents: Vec<ObjectId>,
    pub author: Signature,
    pub committer: Signature,
    pub message: Vec<u8>,
    /// The time every projected entry reports.
    pub snapshot_time: Timestamp,
}

/// A ref and what it points at; `peeled` is the commit behind a tag object.
#[derive(Debug)]
pub struct RefTarget {
    pub name: String,
    pub target: ObjectId,
    pub peeled: Option<ObjectId>,
}

} // verus!
