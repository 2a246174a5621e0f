//! What stands behind an inode: an entry of the pinned tree, a row of the
//! overlay, a real file of `.git`, or a file of the object-store projection.
use vstd::prelude::*;
use crate::entry::{copy_opt_bytes, opt_bytes, EntryKind, TreeEntryInfo, TreeEntryView};
use crate::object::{ObjectId, ObjectIdView};
use crate::path::{base_name, BytePath};
use crate::time::Timestamp;

verus! {

/// The file types a directory listing reports.
#[derive(Clone, Copy, PartialEq, Eq, Structural, Debug)]
pub enum FileType {
    RegularFile,
    Directory,
    Symlink,
    NamedPipe,
    CharDevice,
    BlockDevice,
    Socket,
}

/// The kinds of entry the overlay holds.
#[derive(Clone, Copy, PartialEq, Eq, Structural, Debug)]
pub enum OverlayKind {
    Regular,
    Executable,
    Symlink,
    Directory,
}

impl OverlayKind {
    /// The overlay kind of a tree entry; none for kinds it does not model.
    pub open spec fn of_entry(kind: EntryKind) -> Option<OverlayKind> {
        match kind {
            EntryKind::Regular => Some(OverlayKind::Regular),
            EntryKind::Executable => Some(OverlayKind::Executable),
            EntryKind::Symlink => Some(OverlayKind::Symlink),
            EntryKind::Directory => Some(OverlayKind::Directory),
            EntryKind::Gitlink => None,
            EntryKind::Unsupported(_) => None,
        }
    }

    /// The overlay kind of a tree entry; none for kinds it does not model.
    pub fn from_entry_kind(kind: EntryKind) -> (res: Option<OverlayKind>)
        ensures
            res == OverlayKind::of_entry(kind),
    {
        match kind {
            EntryKind::Regular => Some(OverlayKind::Regular),
            EntryKind::Executable => Some(OverlayKind::Executable),
            EntryKind::Symlink => Some(OverlayKind::Symlink),
            EntryKind::Directory => Some(OverlayKind::Directory),
            EntryKind::Gitlink => None,
            EntryKind::Unsupported(_) => None,
        }
    }

    /// The tree entry kind of an overlay kind.
    pub open spec fn entry_kind(self) -> EntryKind {
        match self {
            OverlayKind::Regular => EntryKind::Regular,
            OverlayKind::Executable => EntryKind::Executable,
            OverlayKind::Symlink => EntryKind::Symlink,
            OverlayKind::Directory => EntryKind::Directory,
        }
    }

    /// The tree entry kind of an overlay kind.
    pub fn to_entry_kind(self) -> (res: EntryKind)
        ensures
            res == self.entry_kind(),
    {
        match self {
            OverlayKind::Regular => EntryKind::Regular,
            OverlayKind::Executable => EntryKind::Executable,
            OverlayKind::Symlink => EntryKind::Symlink,
            OverlayKind::Directory => EntryKind::Directory,
        }
    }
}

/// Where an overlay row's bytes are.
#[derive(Debug)]
pub enum Content {
    /// The row has no content of its own.
    Nothing,
    /// A file of the overlay's content store.
    Local(u64),
    /// Still the pinned commit's blob.
    Base(ObjectId),
}

/// What a [`Content`] denotes.
pub enum ContentView {
    Nothing,
    Local(u64),
    Base(ObjectIdView),
}

impl View for Content {
    type V = ContentView;

    open spec fn view(&self) -> ContentView {
        match *self {
            Content::Nothing => ContentView::Nothing,
            Content::Local(id) => ContentView::Local(id),
            Content::Base(oid) => ContentView::Base(oid@),
        }
    }
}

impl Content {
    /// An owned copy.
    pub fn duplicate(&self) -> (res: Content)
        ensures
            res@ == self@,
    {
        match self {
            Content::Nothing => Content::Nothing,
            Content::Local(id) => Content::Local(*id),
            Content::Base(oid) => Content::Base(oid.duplicate()),
        }
    }
}

/// What the pinned commit holds at a path.
#[derive(Debug)]
pub struct BaseFacts {
    pub oid: ObjectId,
    pub kind: EntryKind,
    pub size: u64,
}

/// What a [`BaseFacts`] denotes.
#[verifier::ext_equal]
pub struct BaseFactsView {
    pub oid: ObjectIdView,
    pub kind: EntryKind,
    pub size: u64,
}

impl View for BaseFacts {
    type V = BaseFactsView;

    open spec fn view(&self) -> BaseFactsView {
        BaseFactsView { oid: self.oid@, kind: self.kind, size: self.size }
    }
}

/// Optional base facts as their meaning.
pub open spec fn opt_facts(v: Option<BaseFacts>) -> Option<BaseFactsView> {
    match v {
        Some(f) => Some(f@),
        None => None,
    }
}

/// A copy of optional base facts.
pub fn copy_facts(v: &Option<BaseFacts>) -> (res: Option<BaseFacts>)
    ensures
        opt_facts(res) == opt_facts(*v),
{
    match v {
        Some(f) => Some(BaseFacts { oid: f.oid.duplicate(), kind: f.kind, size: f.size }),
        None => None,
    }
}

/// The base facts a mutation records, from a tree entry; none for kinds the
/// overlay does not model, so that a mutation against one is refused.
pub open spec fn facts_of(e: TreeEntryView) -> Option<BaseFactsView> {
    if OverlayKind::of_entry(e.kind) is None {
        None
    } else {
        Some(BaseFactsView { oid: e.oid, kind: e.kind, size: e.size })
    }
}

/// The base facts a mutation records, from a tree entry.
pub fn base_facts(entry: &TreeEntryInfo) -> (res: Option<BaseFacts>)
    ensures
        opt_facts(res) == facts_of(entry@),
{
    match OverlayKind::from_entry_kind(entry.kind) {
        None => None,
        Some(_) => Some(
            BaseFacts { oid: entry.oid.duplicate(), kind: entry.kind, size: entry.size },
        ),
    }
}

/// Optional path as its bytes.
pub open spec fn opt_path(v: Option<BytePath>) -> Option<Seq<u8>> {
    match v {
        Some(p) => Some(p@),
        None => None,
    }
}

fn copy_opt_path(v: &Option<BytePath>) -> (res: Option<BytePath>)
    ensures
        opt_path(res) == opt_path(*v),
{
    match v {
        Some(p) => Some(p.duplicate()),
        None => None,
    }
}

/// One row of the overlay.
#[derive(Debug)]
pub struct OverlayEntry {
    pub path: BytePath,
    pub ino: u64,
    pub kind: OverlayKind,
    pub content: Content,
    pub size: u64,
    pub symlink_target: Option<Vec<u8>>,
    /// What the pinned commit held where the row diverged from it.
    pub base: Option<BaseFacts>,
    /// Where the row was moved from.
    pub renamed_from: Option<BytePath>,
}

/// What an [`OverlayEntry`] denotes.
#[verifier::ext_equal]
pub struct OverlayView {
    pub path: Seq<u8>,
    pub ino: u64,
    pub kind: OverlayKind,
    pub content: ContentView,
    pub size: u64,
    pub symlink_target: Option<Seq<u8>>,
    pub base: Option<BaseFactsView>,
    pub renamed_from: Option<Seq<u8>>,
}

impl View for OverlayEntry {
    type V = OverlayView;

    open spec fn view(&self) -> OverlayView {
        OverlayView {
            path: self.path@,
            ino: self.ino,
            kind: self.kind,
            content: self.content@,
            size: self.size,
            symlink_target: opt_bytes(self.symlink_target),
            base: opt_facts(self.base),
            renamed_from: opt_path(self.renamed_from),
        }
    }
}

impl OverlayEntry {
    /// An owned copy.
    pub fn duplicate(&self) -> (res: OverlayEntry)
        ensures
            res@ == self@,
    {
        OverlayEntry {
            path: self.path.duplicate(),
            ino: self.ino,
            kind: self.kind,
            content: self.content.duplicate(),
            size: self.size,
            symlink_target: copy_opt_bytes(&self.symlink_target),
            base: copy_facts(&self.base),
            renamed_from: copy_opt_path(&self.renamed_from),
        }
    }

    /// The last component of the row's path; empty for the root.
    pub fn name(&self) -> (res: Vec<u8>)
        ensures
            res@ == base_name(self.path@),
    {
        match self.path.file_name() {
            Some(name) => name,
            None => {
                proof {
                    crate::path::lemma_last_slash(self.path@);
                    assert(base_name(self.path@) =~= Seq::<u8>::empty());
                }
                Vec::new()
            },
        }
    }
}

/// A snapshot of a real file's attributes.
#[derive(Clone, Copy, PartialEq, Eq, Structural, Debug)]
pub struct GitMeta {
    pub kind: FileType,
    pub size: u64,
    pub perm: u16,
    pub nlink: u32,
    pub mtime: Timestamp,
    pub ctime: Timestamp,
}

/// An entry of the object-store projection.
#[derive(Debug)]
pub enum OdbNode {
    Dir,
    File { path: String, size: u64 },
}

/// What an [`OdbNode`] denotes.
pub enum OdbNodeView {
    Dir,
    File { path: Seq<char>, size: u64 },
}

impl View for OdbNode {
    type V = OdbNodeView;

    open spec fn view(&self) -> OdbNodeView {
        match *self {
            OdbNode::Dir => OdbNodeView::Dir,
            OdbNode::File { path, size } => OdbNodeView::File { path: path@, size },
        }
    }
}

impl OdbNode {
    /// An owned copy.
    pub fn duplicate(&self) -> (res: OdbNode)
        ensures
            res@ == self@,
    {
        match self {
            OdbNode::Dir => OdbNode::Dir,
            OdbNode::File { path, size } => OdbNode::File { path: path.clone(), size: *size },
        }
    }
}

/// What an inode is backed by.
#[derive(Debug)]
pub enum Node {
    Base(TreeEntryInfo),
    Overlay(Box<OverlayEntry>),
    Git(GitMeta),
    Odb(OdbNode),
}

/// What a [`Node`] denotes.
pub enum NodeView {
    Base(TreeEntryView),
    Overlay(OverlayView),
    Git(GitMeta),
    Odb(OdbNodeView),
}

impl View for Node {
    type V = NodeView;

    open spec fn view(&self) -> NodeView {
        match *self {
            Node::Base(e) => NodeView::Base(e@),
            Node::Overlay(e) => NodeView::Overlay((*e)@),
            Node::Git(meta) => NodeView::Git(meta),
            Node::Odb(node) => NodeView::Odb(node@),
        }
    }
}

impl NodeView {
    /// Whether the inode is a regular file.
    pub open spec fn regular_file(self) -> bool {
        match self {
            NodeView::Base(e) => e.kind == EntryKind::Regular || e.kind == EntryKind::Executable,
            NodeView::Overlay(e) => e.kind == OverlayKind::Regular || e.kind
                == OverlayKind::Executable,
            NodeView::Git(meta) => meta.kind == FileType::RegularFile,
            NodeView::Odb(node) => node is File,
        }
    }

    /// The inode number the node brings with it.
    pub open spec fn preferred(self) -> Option<u64> {
        match self {
            NodeView::Overlay(e) => Some(e.ino),
            _ => None,
        }
    }

    /// Whether the inode is a directory, a submodule among them.
    pub open spec fn directory(self) -> bool {
        match self {
            NodeView::Base(e) => e.kind.dir_like(),
            NodeView::Overlay(e) => e.kind == OverlayKind::Directory,
            NodeView::Git(meta) => meta.kind == FileType::Directory,
            NodeView::Odb(node) => node is Dir,
        }
    }

    /// The size the inode reports.
    pub open spec fn size(self) -> u64 {
        match self {
            NodeView::Base(e) => e.size,
            NodeView::Overlay(e) => e.size,
            NodeView::Git(meta) => meta.size,
            NodeView::Odb(OdbNodeView::Dir) => 0,
            NodeView::Odb(OdbNodeView::File { path, size }) => size,
        }
    }
}

impl Node {
    /// Whether this inode belongs to the `.git` passthrough subtree.
    pub fn is_git(&self) -> (res: bool)
        ensures
            res == (self@ is Git),
    {
        matches!(self, Node::Git(_))
    }

    /// Whether this inode belongs to the read-only object projection.
    pub fn is_odb(&self) -> (res: bool)
        ensures
            res == (self@ is Odb),
    {
        matches!(self, Node::Odb(_))
    }

    /// Whether this inode is a regular file.
    pub fn is_regular_file(&self) -> (res: bool)
        ensures
            res == self@.regular_file(),
    {
        match self {
            Node::Base(e) => matches!(e.kind, EntryKind::Regular) || matches!(
                e.kind,
                EntryKind::Executable
            ),
            Node::Overlay(e) => matches!(e.kind, OverlayKind::Regular) || matches!(
                e.kind,
                OverlayKind::Executable
            ),
            Node::Git(meta) => matches!(meta.kind, FileType::RegularFile),
            Node::Odb(node) => matches!(node, OdbNode::File { .. }),
        }
    }

    /// The inode number the node insists on, if it has one of its own.
    pub fn preferred_ino(&self) -> (res: Option<u64>)
        ensures
            res == self@.preferred(),
    {
        match self {
            Node::Overlay(e) => Some(e.ino),
            _ => None,
        }
    }

    /// Whether this inode is a directory, a submodule among them.
    pub fn is_directory(&self) -> (res: bool)
        ensures
            res == self@.directory(),
    {
        match self {
            Node::Base(e) => e.kind.is_dir_like(),
            Node::Overlay(e) => matches!(e.kind, OverlayKind::Directory),
            Node::Git(meta) => matches!(meta.kind, FileType::Directory),
            Node::Odb(node) => matches!(node, OdbNode::Dir),
        }
    }

    /// The size the inode reports.
    pub fn size(&self) -> (res: u64)
        ensures
            res == self@.size(),
    {
        match self {
            Node::Base(e) => e.size,
            Node::Overlay(e) => e.size,
            Node::Git(meta) => meta.size,
            Node::Odb(OdbNode::Dir) => 0,
            Node::Odb(OdbNode::File { size, .. }) => *size,
        }
    }

    /// An owned copy.
    pub fn duplicate(&self) -> (res: Node)
        ensures
            res@ == self@,
    {
        match self {
            Node::Base(e) => Node::Base(e.duplicate()),
            Node::Overlay(e) => Node::Overlay(Box::new(e.duplicate())),
            Node::Git(meta) => Node::Git(*meta),
            Node::Odb(node) => Node::Odb(node.duplicate()),
        }
    }
}

} // verus!
