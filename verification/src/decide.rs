//! What each kernel operation does, decided from the inode it names.
//!
//! A decision names the outside work to do, or the error to answer with; it
//! touches neither the disk nor the network.
use vstd::prelude::*;
use crate::bytes::bytes_eq;
use crate::entry::EntryKind;
use crate::errno::Errno;
use crate::error::{ErrorCode, GfsError};
use crate::inode::{Record, RecordView, ROOT_INO};
use crate::limits::MAX_NAME_BYTES;
use crate::node::{
    base_facts, copy_facts, facts_of, opt_facts, BaseFacts, BaseFactsView, Content, ContentView,
    FileType, Node, NodeView, OdbNode, OdbNodeView, OverlayEntry, OverlayKind,
};
use crate::object::ObjectId;
use crate::path::{joined, BytePath};
use crate::subtree::{git_dir_bytes, git_dir_name, git_part, git_rel, odb_part, odb_rel};
use crate::time::Timestamp;

verus! {

/// Refuse a component that is too long to be created.
///
/// A base path with such a name stays readable; what is refused is making one.
pub fn check_name(name: &[u8]) -> (res: Result<(), Errno>)
    ensures
        res == (if name@.len() > MAX_NAME_BYTES {
            Err::<(), Errno>(Errno::NameTooLong)
        } else {
            Ok(())
        }),
{
    if name.len() > MAX_NAME_BYTES {
        return Err(Errno::NameTooLong);
    }
    Ok(())
}

/// Whether a name below a parent belongs to `.git`: the root's own entry, and
/// everything below a real or projected directory.
pub open spec fn in_git(parent: RecordView, name: Seq<u8>) -> bool {
    (parent.ino == ROOT_INO && name == git_dir_name()) || parent.node is Git || parent.node is Odb
}

/// Whether a name below a parent belongs to `.git`.
pub fn routes_to_git(parent: &Record, name: &[u8]) -> (res: bool)
    ensures
        res == in_git(parent@, name@),
{
    let git = git_dir_bytes();
    (parent.ino == ROOT_INO && bytes_eq(name, git.as_slice())) || parent.node.is_git()
        || parent.node.is_odb()
}

/// What the pinned commit holds at a directory, as far as the record says.
pub open spec fn known_base(r: RecordView) -> Option<BaseFactsView> {
    match r.node {
        NodeView::Base(e) => facts_of(e),
        _ => None,
    }
}

/// What the pinned commit holds at a directory about to be mutated in.
pub fn parent_base(parent: &Record) -> (res: Option<BaseFacts>)
    ensures
        opt_facts(res) == known_base(parent@),
{
    match &parent.node {
        Node::Base(entry) => base_facts(entry),
        Node::Overlay(_) | Node::Git(_) | Node::Odb(_) => None,
    }
}

/// Where a row's base blob lives in the pinned commit: under the name it had
/// there, when the row was moved.
pub open spec fn blob_home(r: RecordView) -> Seq<u8> {
    match r.node {
        NodeView::Overlay(row) => if row.content is Base && row.renamed_from is Some {
            row.renamed_from->0
        } else {
            r.path
        },
        _ => r.path,
    }
}

/// Where a row's base blob lives in the pinned commit.
pub fn blob_path(record: &Record) -> (res: BytePath)
    ensures
        res@ == blob_home(record@),
{
    match &record.node {
        Node::Overlay(entry) => {
            let from_base = match entry.content {
                Content::Base(_) => true,
                Content::Nothing | Content::Local(_) => false,
            };
            if from_base {
                match &entry.renamed_from {
                    Some(path) => return path.duplicate(),
                    None => {},
                }
            }
            record.path.duplicate()
        },
        Node::Base(_) | Node::Git(_) | Node::Odb(_) => record.path.duplicate(),
    }
}

// ---------------------------------------------------------------------------
// Lookup
// ---------------------------------------------------------------------------
/// Where a name is looked up.
#[derive(Debug)]
pub enum LookupPlan {
    Refuse(Errno),
    /// Stat the real file at this path below `.git`.
    Real(Vec<u8>),
    /// Ask the projection for this path.
    Projected(Vec<u8>),
    /// Resolve the path in the merged view.
    Merged,
}

/// Where a name is looked up: `.git` first, so that nothing in the tree can
/// shadow it, and the projection before the disk.
pub open spec fn lookup_outcome(parent: RecordView, name: Seq<u8>, res: LookupPlan) -> bool {
    if in_git(parent, name) {
        match git_part(joined(parent.path, name)) {
            None => res == LookupPlan::Refuse(Errno::NoEntry),
            Some(rel) => match odb_part(rel) {
                Some(orel) => res matches LookupPlan::Projected(r) && r@ == orel,
                None => res matches LookupPlan::Real(r) && r@ == rel,
            },
        }
    } else {
        res is Merged
    }
}

/// Where a name is looked up.
pub fn plan_lookup(parent: &Record, name: &[u8]) -> (res: LookupPlan)
    ensures
        lookup_outcome(parent@, name@, res),
{
    if !routes_to_git(parent, name) {
        return LookupPlan::Merged;
    }
    let path = parent.path.join(name);
    match git_rel(path.as_bytes()) {
        None => LookupPlan::Refuse(Errno::NoEntry),
        Some(rel) => match odb_rel(rel.as_slice()) {
            Some(orel) => LookupPlan::Projected(orel),
            None => LookupPlan::Real(rel),
        },
    }
}

/// Where a node that was found stands: where it says it does, or below the
/// parent it was found in.
pub open spec fn found_at(parent: RecordView, name: Seq<u8>, node: NodeView) -> Seq<u8> {
    match node {
        NodeView::Base(e) => e.path,
        NodeView::Overlay(row) => row.path,
        NodeView::Git(_) | NodeView::Odb(_) => joined(parent.path, name),
    }
}

/// Where a node that was found stands.
pub fn found_path(parent: &Record, name: &[u8], node: &Node) -> (res: BytePath)
    ensures
        res@ == found_at(parent@, name@, node@),
{
    match node {
        Node::Base(entry) => entry.path.duplicate(),
        Node::Overlay(entry) => entry.path.duplicate(),
        Node::Git(_) | Node::Odb(_) => parent.path.join(name),
    }
}

/// Where an inode's attributes come from: a real file is asked again, anything
/// else is answered from its record.
pub open spec fn getattr_outcome(r: Option<RecordView>, res: Route) -> bool {
    match r {
        None => res == Route::Refuse(Errno::Stale),
        Some(r) => match r.node {
            NodeView::Git(_) => match git_part(r.path) {
                None => res == Route::Refuse(Errno::Stale),
                Some(rel) => res matches Route::Real(x) && x@ == rel,
            },
            _ => res is Merged,
        },
    }
}

/// Where an inode's attributes come from.
pub fn plan_getattr(record: Option<&Record>) -> (res: Route)
    ensures
        getattr_outcome(opt_record(record), res),
{
    match record {
        None => Route::Refuse(Errno::Stale),
        Some(record) => {
            if !record.node.is_git() {
                return Route::Merged;
            }
            match git_rel(record.path.as_bytes()) {
                None => Route::Refuse(Errno::Stale),
                Some(rel) => Route::Real(rel),
            }
        },
    }
}

/// When an inode was last changed and read.
#[derive(Clone, Copy, PartialEq, Eq, Structural, Debug)]
pub struct Times {
    pub atime: Timestamp,
    pub mtime: Timestamp,
    pub ctime: Timestamp,
}

/// The times an inode reports: its own, or for the root the ones the overlay
/// keeps for it, which has no row there.
pub fn reported_times(record: &Record, own: Times, root: Option<(Timestamp, Timestamp)>) -> (res:
    Times)
    ensures
        res == (match root {
            Some((mtime, ctime)) => if record.path@.len() == 0 {
                Times { atime: mtime, mtime, ctime }
            } else {
                own
            },
            None => own,
        }),
{
    match root {
        Some((mtime, ctime)) => if record.path.is_empty() {
            Times { atime: mtime, mtime, ctime }
        } else {
            own
        },
        None => own,
    }
}

/// Whether a file may be created at a path: nothing may be there.
pub fn check_vacant(node: &Option<Node>) -> (res: Result<(), Errno>)
    ensures
        res == (if *node is Some {
            Err::<(), Errno>(Errno::Exists)
        } else {
            Ok(())
        }),
{
    match node {
        Some(_) => Err(Errno::Exists),
        None => Ok(()),
    }
}

/// Whether a path may be removed: something must be there.
pub fn check_occupied(node: &Option<Node>) -> (res: Result<(), Errno>)
    ensures
        res == (if *node is Some {
            Ok::<(), Errno>(())
        } else {
            Err(Errno::NoEntry)
        }),
{
    match node {
        Some(_) => Ok(()),
        None => Err(Errno::NoEntry),
    }
}

// ---------------------------------------------------------------------------
// Opening and copying up
// ---------------------------------------------------------------------------
/// How a file is opened.
#[derive(Clone, Copy, PartialEq, Eq, Structural, Debug)]
pub enum AccessMode {
    ReadOnly,
    WriteOnly,
    ReadWrite,
}

/// What opening a file takes.
#[derive(Debug)]
pub enum OpenPlan {
    Refuse(Errno),
    /// Open the real file at this path below `.git`.
    Real { rel: Vec<u8>, read: bool, write: bool, truncate: bool },
    /// A file of the projection; nothing to open.
    Projected { file: String },
    /// Give the path local content and open it for writing.
    CopyUp,
    /// Open local content for reading.
    Local { id: u64 },
    /// Open a base blob, which lives at this path of the pinned commit.
    Blob { path: BytePath, oid: ObjectId },
}

/// What opening a file takes: the projection is read-only, only regular files
/// open, a mode that is not modelled is an error rather than approximated, and
/// a writer or a truncation gets content of its own.
pub open spec fn open_outcome(r: RecordView, acc: AccessMode, truncating: bool, res: OpenPlan) -> bool {
    let writable = acc != AccessMode::ReadOnly;
    match r.node {
        NodeView::Odb(node) => if writable {
            res == OpenPlan::Refuse(Errno::ReadOnly)
        } else {
            match node {
                OdbNodeView::Dir => res == OpenPlan::Refuse(Errno::IsDirectory),
                OdbNodeView::File { path, .. } => res matches OpenPlan::Projected { file: p } && p@
                    == path,
            }
        },
        NodeView::Git(meta) => match meta.kind {
            FileType::Directory => res == OpenPlan::Refuse(Errno::IsDirectory),
            FileType::Symlink => res == OpenPlan::Refuse(Errno::Loop),
            _ => match git_part(r.path) {
                None => res == OpenPlan::Refuse(Errno::Stale),
                Some(part) => res matches OpenPlan::Real { rel, read, write, truncate } && rel@
                    == part && read == (acc != AccessMode::WriteOnly) && write == writable
                    && truncate == (truncating && writable),
            },
        },
        NodeView::Overlay(row) => if row.kind == OverlayKind::Directory {
            res == OpenPlan::Refuse(Errno::IsDirectory)
        } else if row.kind == OverlayKind::Symlink {
            res == OpenPlan::Refuse(Errno::Loop)
        } else if writable || truncating {
            res is CopyUp
        } else {
            match row.content {
                ContentView::Local(n) => res == (OpenPlan::Local { id: n }),
                ContentView::Base(blob) => res matches OpenPlan::Blob { path, oid } && path@
                    == blob_home(r) && oid@ == blob,
                ContentView::Nothing => res == OpenPlan::Refuse(Errno::Io),
            }
        },
        NodeView::Base(e) => match e.kind {
            EntryKind::Symlink => res == OpenPlan::Refuse(Errno::Loop),
            EntryKind::Directory | EntryKind::Gitlink => res == OpenPlan::Refuse(Errno::IsDirectory),
            EntryKind::Unsupported(_) => res == OpenPlan::Refuse(Errno::Io),
            _ => if writable || truncating {
                res is CopyUp
            } else {
                res matches OpenPlan::Blob { path, oid } && path@ == r.path && oid@ == e.oid
            },
        },
    }
}

/// What opening a file takes.
pub fn plan_open(record: &Record, acc: AccessMode, truncating: bool) -> (res: OpenPlan)
    ensures
        open_outcome(record@, acc, truncating, res),
{
    let writable = acc != AccessMode::ReadOnly;
    match &record.node {
        Node::Odb(node) => {
            if writable {
                return OpenPlan::Refuse(Errno::ReadOnly);
            }
            match node {
                OdbNode::Dir => OpenPlan::Refuse(Errno::IsDirectory),
                OdbNode::File { path, .. } => OpenPlan::Projected { file: path.clone() },
            }
        },
        Node::Git(meta) => match meta.kind {
            FileType::Directory => OpenPlan::Refuse(Errno::IsDirectory),
            FileType::Symlink => OpenPlan::Refuse(Errno::Loop),
            FileType::RegularFile | FileType::NamedPipe | FileType::CharDevice
            | FileType::BlockDevice | FileType::Socket => match git_rel(record.path.as_bytes()) {
                None => OpenPlan::Refuse(Errno::Stale),
                Some(rel) => OpenPlan::Real {
                    rel,
                    read: acc != AccessMode::WriteOnly,
                    write: writable,
                    truncate: truncating && writable,
                },
            },
        },
        Node::Overlay(entry) => {
            if entry.kind == OverlayKind::Directory {
                return OpenPlan::Refuse(Errno::IsDirectory);
            }
            if entry.kind == OverlayKind::Symlink {
                return OpenPlan::Refuse(Errno::Loop);
            }
            if writable || truncating {
                return OpenPlan::CopyUp;
            }
            match &entry.content {
                Content::Local(id) => OpenPlan::Local { id: *id },
                Content::Base(oid) => OpenPlan::Blob {
                    path: blob_path(record),
                    oid: oid.duplicate(),
                },
                Content::Nothing => OpenPlan::Refuse(Errno::Io),
            }
        },
        Node::Base(entry) => match entry.kind {
            EntryKind::Symlink => OpenPlan::Refuse(Errno::Loop),
            EntryKind::Directory | EntryKind::Gitlink => OpenPlan::Refuse(Errno::IsDirectory),
            EntryKind::Unsupported(_) => OpenPlan::Refuse(Errno::Io),
            EntryKind::Regular | EntryKind::Executable => if writable || truncating {
                OpenPlan::CopyUp
            } else {
                OpenPlan::Blob { path: record.path.duplicate(), oid: entry.oid.duplicate() }
            },
        },
    }
}

/// How a path gets local content.
#[derive(Debug)]
pub enum CopyUp {
    Refuse(GfsError),
    /// It has it already.
    Ready(OverlayEntry),
    /// It has it already, and what it has is to be discarded.
    Truncate,
    /// Materialize it empty: a caller that replaces the whole file does not
    /// pay for the version it throws away.
    Empty { base: Option<BaseFacts> },
    /// Materialize it from this blob of the pinned commit.
    Fetch { path: BytePath, oid: ObjectId, base: Option<BaseFacts> },
}

/// How a path gets local content.
pub open spec fn copy_up_outcome(r: RecordView, truncating: bool, res: CopyUp) -> bool {
    match r.node {
        NodeView::Overlay(row) => match row.content {
            ContentView::Local(_) => if truncating && row.size > 0 {
                res is Truncate
            } else {
                res matches CopyUp::Ready(e) && e@ == row
            },
            ContentView::Base(blob) => if truncating {
                res matches CopyUp::Empty { base } && opt_facts(base) == row.base
            } else {
                res matches CopyUp::Fetch { path, oid, base } && path@ == blob_home(r) && oid@
                    == blob && opt_facts(base) == row.base
            },
            ContentView::Nothing => if truncating {
                res matches CopyUp::Empty { base } && opt_facts(base) == row.base
            } else {
                res matches CopyUp::Refuse(e) && e.reads(
                    ErrorCode::Internal,
                    "nothing to copy up from"@,
                )
            },
        },
        NodeView::Base(entry) => if truncating {
            res matches CopyUp::Empty { base } && opt_facts(base) == facts_of(entry)
        } else {
            res matches CopyUp::Fetch { path, oid, base } && path@ == r.path && oid@ == entry.oid
                && opt_facts(base) == facts_of(entry)
        },
        _ => res matches CopyUp::Refuse(e) && e.reads(
            ErrorCode::InvalidArgument,
            "the .git subtree has no overlay"@,
        ),
    }
}

/// How a path gets local content.
pub fn plan_copy_up(record: &Record, truncating: bool) -> (res: CopyUp)
    ensures
        copy_up_outcome(record@, truncating, res),
{
    match &record.node {
        Node::Overlay(entry) => match &entry.content {
            Content::Local(_) => if truncating && entry.size > 0 {
                CopyUp::Truncate
            } else {
                CopyUp::Ready(entry.duplicate())
            },
            Content::Base(oid) => if truncating {
                CopyUp::Empty { base: copy_facts(&entry.base) }
            } else {
                CopyUp::Fetch {
                    path: blob_path(record),
                    oid: oid.duplicate(),
                    base: copy_facts(&entry.base),
                }
            },
            Content::Nothing => if truncating {
                CopyUp::Empty { base: copy_facts(&entry.base) }
            } else {
                CopyUp::Refuse(GfsError::internal("nothing to copy up from"))
            },
        },
        Node::Base(entry) => if truncating {
            CopyUp::Empty { base: base_facts(entry) }
        } else {
            CopyUp::Fetch {
                path: record.path.duplicate(),
                oid: entry.oid.duplicate(),
                base: base_facts(entry),
            }
        },
        Node::Git(_) | Node::Odb(_) => CopyUp::Refuse(
            GfsError::invalid("the .git subtree has no overlay"),
        ),
    }
}

/// Replacing a whole file never fetches the version it throws away.
pub proof fn law_truncation_fetches_nothing(r: RecordView, res: CopyUp)
    requires
        copy_up_outcome(r, true, res),
    ensures
        !(res is Fetch),
{
}

// ---------------------------------------------------------------------------
// Making entries
// ---------------------------------------------------------------------------
/// Where a new entry goes.
#[derive(Debug)]
pub enum MakePlan {
    Refuse(Errno),
    /// On the real disk, at this path below `.git`.
    Real(Vec<u8>),
    /// In the overlay.
    Merged,
}

/// Where a mutation of a path below `.git` lands: on the disk, never in the
/// projection.
pub open spec fn real_target(path: Seq<u8>) -> Result<Seq<u8>, Errno> {
    match git_part(path) {
        None => Err(Errno::ReadOnly),
        Some(rel) => if odb_part(rel) is Some {
            Err(Errno::ReadOnly)
        } else {
            Ok(rel)
        },
    }
}

/// Where a mutation of a path below `.git` lands.
pub fn real_path(path: &BytePath) -> (res: Result<Vec<u8>, Errno>)
    ensures
        match real_target(path@) {
            Ok(rel) => res matches Ok(r) && r@ == rel,
            Err(e) => res == Err::<Vec<u8>, Errno>(e),
        },
{
    match git_rel(path.as_bytes()) {
        None => Err(Errno::ReadOnly),
        Some(rel) => if odb_rel(rel.as_slice()).is_some() {
            Err(Errno::ReadOnly)
        } else {
            Ok(rel)
        },
    }
}

/// Where a new entry goes: nothing is made in the projection, a name must fit,
/// and below `.git` the disk is the place.
pub open spec fn make_outcome(parent: RecordView, name: Seq<u8>, res: MakePlan) -> bool {
    if parent.node is Odb {
        res == MakePlan::Refuse(Errno::ReadOnly)
    } else if name.len() > MAX_NAME_BYTES {
        res == MakePlan::Refuse(Errno::NameTooLong)
    } else if parent.node is Git {
        match real_target(joined(parent.path, name)) {
            Ok(rel) => res matches MakePlan::Real(r) && r@ == rel,
            Err(e) => res == MakePlan::Refuse(e),
        }
    } else {
        res is Merged
    }
}

/// Where a new file, directory or symlink goes.
pub fn plan_make(parent: &Record, name: &[u8]) -> (res: MakePlan)
    ensures
        make_outcome(parent@, name@, res),
{
    if parent.node.is_odb() {
        return MakePlan::Refuse(Errno::ReadOnly);
    }
    match check_name(name) {
        Err(e) => return MakePlan::Refuse(e),
        Ok(()) => {},
    }
    if parent.node.is_git() {
        let path = parent.path.join(name);
        return match real_path(&path) {
            Ok(rel) => MakePlan::Real(rel),
            Err(e) => MakePlan::Refuse(e),
        };
    }
    MakePlan::Merged
}

/// How a real file is created: exclusive creation is the lockfile protocol and
/// is passed on as it is.
#[derive(Clone, Copy, PartialEq, Eq, Structural, Debug)]
pub struct CreateOptions {
    pub read: bool,
    pub truncate: bool,
    pub exclusive: bool,
    pub mode: u32,
}

/// How a real file is created.
pub fn create_options(
    acc: AccessMode,
    truncating: bool,
    exclusive: bool,
    mode: u32,
    umask: u32,
) -> (res: CreateOptions)
    ensures
        res == (CreateOptions {
            read: acc != AccessMode::WriteOnly,
            truncate: truncating,
            exclusive,
            mode: mode & !umask & 0o7777,
        }),
{
    CreateOptions {
        read: acc != AccessMode::WriteOnly,
        truncate: truncating,
        exclusive,
        mode: mode & !umask & 0o7777,
    }
}

/// Whether a mode is executable: the one permission bit a tree records.
pub fn is_executable(mode: u32, umask: u32) -> (res: bool)
    ensures
        res == (mode & !umask & 0o111 != 0),
{
    mode & !umask & 0o111 != 0
}

/// Whether a hard link is made, and where: only below `.git`, where the
/// backing has them.
pub open spec fn link_outcome(
    source: Option<RecordView>,
    parent: Option<RecordView>,
    name: Seq<u8>,
    res: Result<(Vec<u8>, Vec<u8>), Errno>,
) -> bool {
    if source is None || parent is None {
        res == Err::<(Vec<u8>, Vec<u8>), Errno>(Errno::Stale)
    } else if !(source->0.node is Git && parent->0.node is Git) {
        res == Err::<(Vec<u8>, Vec<u8>), Errno>(Errno::NotPermitted)
    } else if name.len() > MAX_NAME_BYTES {
        res == Err::<(Vec<u8>, Vec<u8>), Errno>(Errno::NameTooLong)
    } else {
        match git_part(source->0.path) {
            None => res == Err::<(Vec<u8>, Vec<u8>), Errno>(Errno::NotPermitted),
            Some(from) => if odb_part(from) is Some {
                res == Err::<(Vec<u8>, Vec<u8>), Errno>(Errno::ReadOnly)
            } else {
                match real_target(joined(parent->0.path, name)) {
                    Ok(to) => res matches Ok(pair) && pair.0@ == from && pair.1@ == to,
                    Err(e) => res == Err::<(Vec<u8>, Vec<u8>), Errno>(e),
                }
            },
        }
    }
}

/// Optional record as its meaning.
pub open spec fn opt_record(r: Option<&Record>) -> Option<RecordView> {
    match r {
        Some(r) => Some(r@),
        None => None,
    }
}

/// Whether a hard link is made, and between which paths below `.git`.
pub fn plan_link(source: Option<&Record>, parent: Option<&Record>, name: &[u8]) -> (res: Result<
    (Vec<u8>, Vec<u8>),
    Errno,
>)
    ensures
        link_outcome(opt_record(source), opt_record(parent), name@, res),
{
    let (source, parent) = match (source, parent) {
        (Some(s), Some(p)) => (s, p),
        _ => return Err(Errno::Stale),
    };
    if !(source.node.is_git() && parent.node.is_git()) {
        return Err(Errno::NotPermitted);
    }
    check_name(name)?;
    let from = match git_rel(source.path.as_bytes()) {
        None => return Err(Errno::NotPermitted),
        Some(rel) => rel,
    };
    if odb_rel(from.as_slice()).is_some() {
        return Err(Errno::ReadOnly);
    }
    let path = parent.path.join(name);
    match real_path(&path) {
        Ok(to) => Ok((from, to)),
        Err(e) => Err(e),
    }
}

// ---------------------------------------------------------------------------
// Removing and renaming
// ---------------------------------------------------------------------------
/// Where a removal happens.
pub open spec fn remove_outcome(parent: Option<RecordView>, name: Seq<u8>, res: MakePlan) -> bool {
    match parent {
        None => res == MakePlan::Refuse(Errno::Stale),
        Some(p) => if p.node is Odb {
            res == MakePlan::Refuse(Errno::ReadOnly)
        } else if p.node is Git {
            match real_target(joined(p.path, name)) {
                Ok(rel) => res matches MakePlan::Real(r) && r@ == rel,
                Err(e) => res == MakePlan::Refuse(e),
            }
        } else {
            res is Merged
        },
    }
}

/// Where a removal happens.
pub fn plan_remove(parent: Option<&Record>, name: &[u8]) -> (res: MakePlan)
    ensures
        remove_outcome(opt_record(parent), name@, res),
{
    let parent = match parent {
        None => return MakePlan::Refuse(Errno::Stale),
        Some(p) => p,
    };
    if parent.node.is_odb() {
        return MakePlan::Refuse(Errno::ReadOnly);
    }
    if parent.node.is_git() {
        let path = parent.path.join(name);
        return match real_path(&path) {
            Ok(rel) => MakePlan::Real(rel),
            Err(e) => MakePlan::Refuse(e),
        };
    }
    MakePlan::Merged
}

/// Where a rename happens.
#[derive(Debug)]
pub enum RenamePlan {
    Refuse(Errno),
    /// Between two real paths below `.git`.
    Real { from_rel: Vec<u8>, to_rel: Vec<u8> },
    /// Between two paths of the merged view.
    Merged { from: BytePath, to: BytePath },
}

/// Where a rename happens. Swapping and whiteouts are not implemented, nothing
/// in the projection moves, and a rename never crosses between `.git` and the
/// tree.
pub open spec fn rename_outcome(
    swap: bool,
    from_parent: Option<RecordView>,
    name: Seq<u8>,
    to_parent: Option<RecordView>,
    newname: Seq<u8>,
    res: RenamePlan,
) -> bool {
    if swap {
        res == RenamePlan::Refuse(Errno::Invalid)
    } else if from_parent is None || to_parent is None {
        res == RenamePlan::Refuse(Errno::Stale)
    } else {
        let f = from_parent->0;
        let t = to_parent->0;
        let from = joined(f.path, name);
        let to = joined(t.path, newname);
        if f.node is Odb || t.node is Odb {
            res == RenamePlan::Refuse(Errno::ReadOnly)
        } else if (f.node is Git) != (t.node is Git) {
            res == RenamePlan::Refuse(Errno::CrossDevice)
        } else if newname.len() > MAX_NAME_BYTES {
            res == RenamePlan::Refuse(Errno::NameTooLong)
        } else if f.node is Git {
            match (git_part(from), git_part(to)) {
                (Some(a), Some(b)) => if odb_part(a) is Some || odb_part(b) is Some {
                    res == RenamePlan::Refuse(Errno::ReadOnly)
                } else {
                    res matches RenamePlan::Real { from_rel: x, to_rel: y } && x@ == a && y@ == b
                },
                _ => res == RenamePlan::Refuse(Errno::CrossDevice),
            }
        } else {
            res matches RenamePlan::Merged { from: x, to: y } && x@ == from && y@ == to
        }
    }
}

/// Where a rename happens.
pub fn plan_rename(
    swap: bool,
    from_parent: Option<&Record>,
    name: &[u8],
    to_parent: Option<&Record>,
    newname: &[u8],
) -> (res: RenamePlan)
    ensures
        rename_outcome(
            swap,
            opt_record(from_parent),
            name@,
            opt_record(to_parent),
            newname@,
            res,
        ),
{
    if swap {
        return RenamePlan::Refuse(Errno::Invalid);
    }
    let from_parent = match from_parent {
        None => return RenamePlan::Refuse(Errno::Stale),
        Some(p) => p,
    };
    let to_parent = match to_parent {
        None => return RenamePlan::Refuse(Errno::Stale),
        Some(p) => p,
    };
    if from_parent.node.is_odb() || to_parent.node.is_odb() {
        return RenamePlan::Refuse(Errno::ReadOnly);
    }
    let on_disk = from_parent.node.is_git();
    if on_disk != to_parent.node.is_git() {
        return RenamePlan::Refuse(Errno::CrossDevice);
    }
    match check_name(newname) {
        Err(e) => return RenamePlan::Refuse(e),
        Ok(()) => {},
    }
    let from = from_parent.path.join(name);
    let to = to_parent.path.join(newname);
    if on_disk {
        return match (git_rel(from.as_bytes()), git_rel(to.as_bytes())) {
            (Some(a), Some(b)) => if odb_rel(a.as_slice()).is_some() || odb_rel(
                b.as_slice(),
            ).is_some() {
                RenamePlan::Refuse(Errno::ReadOnly)
            } else {
                RenamePlan::Real { from_rel: a, to_rel: b }
            },
            _ => RenamePlan::Refuse(Errno::CrossDevice),
        };
    }
    RenamePlan::Merged { from, to }
}

/// A rename between two places of one world stays in that world.
pub proof fn law_a_rename_never_crosses(
    from_parent: RecordView,
    name: Seq<u8>,
    to_parent: RecordView,
    newname: Seq<u8>,
    res: RenamePlan,
)
    requires
        rename_outcome(false, Some(from_parent), name, Some(to_parent), newname, res),
    ensures
        res is Real ==> from_parent.node is Git && to_parent.node is Git,
        res is Merged ==> !(from_parent.node is Git) && !(to_parent.node is Git)
            && !(from_parent.node is Odb) && !(to_parent.node is Odb),
{
}

/// Whether what is renamed is a directory; an absent source and one of `.git`
/// are refused.
pub fn renamed_is_dir(source: &Option<Node>) -> (res: Result<bool, Errno>)
    ensures
        res == (match *source {
            None => Err::<bool, Errno>(Errno::NoEntry),
            Some(node) => match node@ {
                NodeView::Git(_) | NodeView::Odb(_) => Err(Errno::CrossDevice),
                _ => Ok(node@.directory()),
            },
        }),
{
    match source {
        None => Err(Errno::NoEntry),
        Some(node) => if node.is_git() || node.is_odb() {
            Err(Errno::CrossDevice)
        } else {
            Ok(node.is_directory())
        },
    }
}

/// Whether a rename's target is a directory: only one can be "not empty".
pub fn target_is_dir(target: &Option<Node>) -> (res: bool)
    ensures
        res == (match *target {
            None => false,
            Some(node) => node@.directory(),
        }),
{
    match target {
        None => false,
        Some(node) => node.is_directory(),
    }
}

// ---------------------------------------------------------------------------
// Attributes
// ---------------------------------------------------------------------------
/// A requested modification time.
#[derive(Clone, Copy, PartialEq, Eq, Structural, Debug)]
pub enum TimeOrNow {
    Now,
    At(Timestamp),
}

/// What a caller asks to change of an inode. Access times are accepted and
/// discarded.
#[derive(Clone, Copy, PartialEq, Eq, Structural, Debug)]
pub struct AttrChange {
    pub mode: Option<u32>,
    pub uid: Option<u32>,
    pub gid: Option<u32>,
    pub size: Option<u64>,
    pub atime: Option<TimeOrNow>,
    pub mtime: Option<TimeOrNow>,
}

/// One step of a change in the overlay.
#[derive(Clone, Copy, PartialEq, Eq, Structural, Debug)]
pub enum AttrStep {
    /// Give the path local content; a truncation to nothing fetches nothing.
    CopyUp { truncating: bool },
    Truncate(u64),
    SetExecutable(bool),
    SetTimes(Option<Timestamp>),
    /// The root keeps its times apart from the rows.
    TouchRoot(Option<Timestamp>),
}

/// What changing attributes takes.
#[derive(Debug)]
pub enum SetattrPlan {
    Refuse(Errno),
    /// Nothing changes; answer with the attributes there are.
    Unchanged,
    /// Change the real file at this path below `.git`.
    Real { rel: Vec<u8>, mode: Option<u32>, size: Option<u64>, mtime: Option<TimeOrNow> },
    /// Do these steps in the overlay.
    Merged { base: Option<BaseFacts>, steps: Vec<AttrStep> },
}

/// The steps of a change in the overlay: content, then mode, then times.
pub open spec fn attr_steps(c: AttrChange, root: bool) -> Seq<AttrStep> {
    let sized = match c.size {
        Some(size) => seq![AttrStep::CopyUp { truncating: size == 0 }, AttrStep::Truncate(size)],
        None => Seq::empty(),
    };
    let moded = match c.mode {
        Some(mode) => seq![AttrStep::SetExecutable(mode & 0o111 != 0)],
        None => Seq::empty(),
    };
    let timed = match c.mtime {
        Some(t) => {
            let at = match t {
                TimeOrNow::At(t) => Some(t),
                TimeOrNow::Now => None,
            };
            if root {
                seq![AttrStep::TouchRoot(at)]
            } else {
                seq![AttrStep::SetTimes(at)]
            }
        },
        None => Seq::empty(),
    };
    sized + moded + timed
}

/// The base facts behind a record of the merged view.
pub open spec fn record_base(r: RecordView) -> Option<BaseFactsView> {
    match r.node {
        NodeView::Overlay(row) => row.base,
        NodeView::Base(e) => facts_of(e),
        _ => None,
    }
}

/// What changing attributes takes. Touching a file of the projection is
/// accepted and does nothing; changing one is refused.
pub open spec fn setattr_outcome(r: RecordView, c: AttrChange, res: SetattrPlan) -> bool {
    match r.node {
        NodeView::Odb(_) => if c.mode is None && c.size is None && c.uid is None && c.gid is None
            && (c.atime is Some || c.mtime is Some) {
            res is Unchanged
        } else {
            res == SetattrPlan::Refuse(Errno::ReadOnly)
        },
        NodeView::Git(_) => match git_part(r.path) {
            None => res == SetattrPlan::Refuse(Errno::Stale),
            Some(part) => res matches SetattrPlan::Real { rel, mode, size, mtime } && rel@ == part
                && mode == (match c.mode {
                Some(m) => Some(m & 0o7777),
                None => None,
            }) && size == c.size && mtime == c.mtime,
        },
        _ => res matches SetattrPlan::Merged { base, steps } && opt_facts(base) == record_base(r)
            && steps@ == attr_steps(c, r.path.len() == 0),
    }
}

/// What changing attributes takes.
pub fn plan_setattr(record: &Record, c: &AttrChange) -> (res: SetattrPlan)
    ensures
        setattr_outcome(record@, *c, res),
{
    if record.node.is_odb() {
        let times_only = c.mode.is_none() && c.size.is_none() && c.uid.is_none() && c.gid.is_none();
        if times_only && (c.atime.is_some() || c.mtime.is_some()) {
            return SetattrPlan::Unchanged;
        }
        return SetattrPlan::Refuse(Errno::ReadOnly);
    }
    if record.node.is_git() {
        return match git_rel(record.path.as_bytes()) {
            None => SetattrPlan::Refuse(Errno::Stale),
            Some(rel) => {
                let mode = match c.mode {
                    Some(m) => Some(m & 0o7777),
                    None => None,
                };
                SetattrPlan::Real { rel, mode, size: c.size, mtime: c.mtime }
            },
        };
    }
    let base = match &record.node {
        Node::Overlay(entry) => copy_facts(&entry.base),
        Node::Base(entry) => base_facts(entry),
        Node::Git(_) | Node::Odb(_) => None,
    };
    let mut steps: Vec<AttrStep> = Vec::new();
    match c.size {
        Some(size) => {
            steps.push(AttrStep::CopyUp { truncating: size == 0 });
            steps.push(AttrStep::Truncate(size));
        },
        None => {},
    }
    match c.mode {
        Some(mode) => {
            steps.push(AttrStep::SetExecutable(mode & 0o111 != 0));
        },
        None => {},
    }
    match c.mtime {
        Some(t) => {
            let at = match t {
                TimeOrNow::At(t) => Some(t),
                TimeOrNow::Now => None,
            };
            if record.path.is_empty() {
                steps.push(AttrStep::TouchRoot(at));
            } else {
                steps.push(AttrStep::SetTimes(at));
            }
        },
        None => {},
    }
    assert(steps@ =~= attr_steps(*c, record.path@.len() == 0));
    SetattrPlan::Merged { base, steps }
}

/// What a symlink's target takes.
#[derive(Debug)]
pub enum ReadlinkPlan {
    Refuse(Errno),
    /// Read the real link at this path below `.git`.
    Real(Vec<u8>),
    /// The record holds it.
    Known(Vec<u8>),
    /// It is a blob of the pinned commit, of this length.
    Blob { path: BytePath, oid: ObjectId, size: u64 },
}

/// What a symlink's target takes.
pub open spec fn readlink_outcome(r: RecordView, res: ReadlinkPlan) -> bool {
    match r.node {
        NodeView::Git(meta) => if meta.kind != FileType::Symlink {
            res == ReadlinkPlan::Refuse(Errno::Invalid)
        } else {
            match git_part(r.path) {
                None => res == ReadlinkPlan::Refuse(Errno::Stale),
                Some(rel) => res matches ReadlinkPlan::Real(x) && x@ == rel,
            }
        },
        NodeView::Overlay(row) => if row.kind != OverlayKind::Symlink {
            res == ReadlinkPlan::Refuse(Errno::Invalid)
        } else {
            match row.symlink_target {
                Some(target) => res matches ReadlinkPlan::Known(t) && t@ == target,
                None => match row.content {
                    ContentView::Base(blob) => res matches ReadlinkPlan::Blob { path, oid, size }
                        && path@ == blob_home(r) && oid@ == blob && size == row.size,
                    _ => res == ReadlinkPlan::Refuse(Errno::Io),
                },
            }
        },
        NodeView::Base(e) => if e.kind != EntryKind::Symlink {
            res == ReadlinkPlan::Refuse(Errno::Invalid)
        } else {
            match e.symlink_target {
                Some(target) => res matches ReadlinkPlan::Known(t) && t@ == target,
                None => res matches ReadlinkPlan::Blob { path, oid, size } && path@ == r.path
                    && oid@ == e.oid && size == e.size,
            }
        },
        NodeView::Odb(_) => res == ReadlinkPlan::Refuse(Errno::Invalid),
    }
}

/// What a symlink's target takes.
pub fn plan_readlink(record: &Record) -> (res: ReadlinkPlan)
    ensures
        readlink_outcome(record@, res),
{
    match &record.node {
        Node::Git(meta) => {
            if meta.kind != FileType::Symlink {
                return ReadlinkPlan::Refuse(Errno::Invalid);
            }
            match git_rel(record.path.as_bytes()) {
                None => ReadlinkPlan::Refuse(Errno::Stale),
                Some(rel) => ReadlinkPlan::Real(rel),
            }
        },
        Node::Overlay(entry) => {
            if entry.kind != OverlayKind::Symlink {
                return ReadlinkPlan::Refuse(Errno::Invalid);
            }
            match &entry.symlink_target {
                Some(target) => ReadlinkPlan::Known(target.clone()),
                None => match &entry.content {
                    Content::Base(oid) => ReadlinkPlan::Blob {
                        path: blob_path(record),
                        oid: oid.duplicate(),
                        size: entry.size,
                    },
                    Content::Nothing | Content::Local(_) => ReadlinkPlan::Refuse(Errno::Io),
                },
            }
        },
        Node::Base(entry) => {
            if entry.kind != EntryKind::Symlink {
                return ReadlinkPlan::Refuse(Errno::Invalid);
            }
            match &entry.symlink_target {
                Some(target) => ReadlinkPlan::Known(target.clone()),
                None => ReadlinkPlan::Blob {
                    path: record.path.duplicate(),
                    oid: entry.oid.duplicate(),
                    size: entry.size,
                },
            }
        },
        Node::Odb(_) => ReadlinkPlan::Refuse(Errno::Invalid),
    }
}

/// Where a directory or an allocation goes.
#[derive(Debug)]
pub enum Route {
    Refuse(Errno),
    /// The real file at this path below `.git`.
    Real(Vec<u8>),
    /// Nothing to do.
    Done,
    /// The overlay.
    Merged,
}

/// What making a directory durable takes: the real directory, nothing in the
/// projection, the overlay's journal otherwise. An unknown inode syncs the
/// journal.
pub open spec fn sync_dir_outcome(r: Option<RecordView>, res: Route) -> bool {
    match r {
        Some(r) => match r.node {
            NodeView::Git(_) => match git_part(r.path) {
                None => res == Route::Refuse(Errno::Stale),
                Some(rel) => res matches Route::Real(x) && x@ == rel,
            },
            NodeView::Odb(_) => res is Done,
            _ => res is Merged,
        },
        None => res is Merged,
    }
}

/// What making a directory durable takes.
pub fn plan_fsyncdir(record: Option<&Record>) -> (res: Route)
    ensures
        sync_dir_outcome(opt_record(record), res),
{
    match record {
        Some(record) => {
            if record.node.is_git() {
                return match git_rel(record.path.as_bytes()) {
                    None => Route::Refuse(Errno::Stale),
                    Some(rel) => Route::Real(rel),
                };
            }
            if record.node.is_odb() {
                return Route::Done;
            }
            Route::Merged
        },
        None => Route::Merged,
    }
}

/// What allocating space takes. Only plain allocation has a representation.
pub open spec fn allocate_outcome(mode: i32, r: Option<RecordView>, res: Route) -> bool {
    if mode != 0 {
        res == Route::Refuse(Errno::OperationUnsupported)
    } else {
        match r {
            None => res == Route::Refuse(Errno::Stale),
            Some(r) => match r.node {
                NodeView::Odb(_) => res == Route::Refuse(Errno::ReadOnly),
                NodeView::Git(_) => match real_target(r.path) {
                    Ok(rel) => res matches Route::Real(x) && x@ == rel,
                    Err(e) => res == Route::Refuse(e),
                },
                _ => res is Merged,
            },
        }
    }
}

/// What allocating space takes.
pub fn plan_fallocate(mode: i32, record: Option<&Record>) -> (res: Route)
    ensures
        allocate_outcome(mode, opt_record(record), res),
{
    if mode != 0 {
        return Route::Refuse(Errno::OperationUnsupported);
    }
    let record = match record {
        None => return Route::Refuse(Errno::Stale),
        Some(r) => r,
    };
    if record.node.is_odb() {
        return Route::Refuse(Errno::ReadOnly);
    }
    if record.node.is_git() {
        return match real_path(&record.path) {
            Ok(rel) => Route::Real(rel),
            Err(e) => Route::Refuse(e),
        };
    }
    Route::Merged
}

/// The size an allocation extends a file to; none when it is long enough.
pub open spec fn extended(offset: u64, length: u64, current: u64) -> Option<u64> {
    let wanted: u64 = if offset + length > u64::MAX {
        u64::MAX
    } else {
        (offset + length) as u64
    };
    if wanted <= current {
        None
    } else {
        Some(wanted)
    }
}

/// The size an allocation extends a file to; none when it is long enough.
pub fn allocation(offset: u64, length: u64, current: u64) -> (res: Option<u64>)
    ensures
        res == extended(offset, length, current),
{
    let wanted = offset.saturating_add(length);
    if wanted <= current {
        None
    } else {
        Some(wanted)
    }
}

/// How a parent's times advance after an entry appeared in it or left.
#[derive(Debug)]
pub enum Touch {
    /// A real directory's times advance by themselves; the projection has none.
    Nothing,
    /// The root keeps its times apart from the rows.
    Root,
    /// The row of this directory.
    Directory { base: Option<BaseFacts> },
}

/// How a parent's times advance after an entry appeared in it or left.
pub fn plan_touch(parent: &Record) -> (res: Touch)
    ensures
        match parent@.node {
            NodeView::Git(_) | NodeView::Odb(_) => res is Nothing,
            _ => if parent@.path.len() == 0 {
                res is Root
            } else {
                res matches Touch::Directory { base } && opt_facts(base) == known_base(parent@)
            },
        },
{
    if parent.node.is_git() || parent.node.is_odb() {
        return Touch::Nothing;
    }
    if parent.path.is_empty() {
        return Touch::Root;
    }
    Touch::Directory { base: parent_base(parent) }
}

/// What a seek looks for.
#[derive(Clone, Copy, PartialEq, Eq, Structural, Debug)]
pub enum Whence {
    Data,
    Hole,
    Other,
}

/// Where a seek lands. No file has holes, so everything is data and the only
/// hole is the end.
pub open spec fn seek_result(size: u64, offset: i64, whence: Whence) -> Result<i64, Errno> {
    if offset < 0 || size > i64::MAX || offset >= size {
        Err(Errno::NoSuchOffset)
    } else {
        match whence {
            Whence::Data => Ok(offset),
            Whence::Hole => Ok(size as i64),
            Whence::Other => Err(Errno::Invalid),
        }
    }
}

/// Where a seek lands.
pub fn seek(record: &Record, offset: i64, whence: Whence) -> (res: Result<i64, Errno>)
    ensures
        res == seek_result(record@.node.size(), offset, whence),
{
    let size = record.node.size();
    if offset < 0 || size > i64::MAX as u64 || offset as u64 >= size {
        return Err(Errno::NoSuchOffset);
    }
    match whence {
        Whence::Data => Ok(offset),
        Whence::Hole => Ok(size as i64),
        Whence::Other => Err(Errno::Invalid),
    }
}

/// Whether access is granted: only the projection is read-only for everyone.
pub open spec fn access_result(odb: bool, perm: u16, read: bool, write: bool, execute: bool) -> Result<
    (),
    Errno,
> {
    if write && odb {
        Err(Errno::ReadOnly)
    } else if execute && perm & 0o111 == 0 {
        Err(Errno::Access)
    } else if read && perm & 0o444 == 0 {
        Err(Errno::Access)
    } else {
        Ok(())
    }
}

/// Whether access is granted.
pub fn access(record: &Record, perm: u16, read: bool, write: bool, execute: bool) -> (res: Result<
    (),
    Errno,
>)
    ensures
        res == access_result(record@.node is Odb, perm, read, write, execute),
{
    if write && record.node.is_odb() {
        return Err(Errno::ReadOnly);
    }
    if execute && perm & 0o111 == 0 {
        return Err(Errno::Access);
    }
    if read && perm & 0o444 == 0 {
        return Err(Errno::Access);
    }
    Ok(())
}

/// What a filesystem reports of its capacity.
#[derive(Clone, Copy, PartialEq, Eq, Structural, Debug)]
pub struct Capacity {
    pub blocks: u64,
    pub free: u64,
    pub files: u64,
    pub files_free: u64,
    pub block_size: u32,
    pub name_max: u32,
}

/// Blocks needed for a number of bytes.
pub open spec fn blocks_for(bytes: u64) -> int {
    (bytes + 4095) / 4096
}

/// The overlay's quota as a capacity. Inode counts are notional.
pub open spec fn quota_capacity(quota: u64, local: u64, entries: u64) -> Capacity {
    let blocks = quota / 4096;
    let used = if blocks_for(local) < blocks {
        blocks_for(local)
    } else {
        blocks as int
    };
    Capacity {
        blocks,
        free: (blocks - used) as u64,
        files: 1048576,
        files_free: if entries < 1048576 {
            (1048576 - entries) as u64
        } else {
            0
        },
        block_size: 4096,
        name_max: 255,
    }
}

/// The overlay's quota as a capacity: what a job may write, not what the host
/// has free.
pub fn statfs(quota: u64, local: u64, entries: u64) -> (res: Capacity)
    ensures
        res == quota_capacity(quota, local, entries),
{
    let blocks: u64 = quota / 4096;
    let needed: u64 = if local % 4096 == 0 {
        local / 4096
    } else {
        local / 4096 + 1
    };
    let used: u64 = if needed < blocks {
        needed
    } else {
        blocks
    };
    let files_free: u64 = if entries < 1048576 {
        1048576 - entries
    } else {
        0
    };
    Capacity {
        blocks,
        free: blocks - used,
        files: 1048576,
        files_free,
        block_size: 4096,
        name_max: 255,
    }
}

} // verus!
