//! Directory listings of the merged view, held by an open directory handle.
use vstd::prelude::*;
use crate::bytes::{bytes_eq, views};
use crate::entry::{EntryKind, TreeEntryInfo, TreeEntryView};
use crate::errno::Errno;
use crate::inode::{Record, RecordView, ROOT_INO};
use crate::node::{
    base_facts, copy_facts, facts_of, opt_facts, BaseFacts, BaseFactsView, FileType, GitMeta, Node,
    NodeView, OdbNode, OdbNodeView, OverlayEntry, OverlayKind, OverlayView,
};
use crate::path::{base_name, BytePath};
use crate::subtree::{
    git_dir_bytes, git_dir_name, git_part, git_rel, objects_bytes, objects_name, odb_part, odb_rel,
    state_subdir, state_subdir_bytes,
};
use crate::time::Timestamp;

verus! {

/// The type a tree entry is listed as: a submodule is a directory, and a mode
/// that is not modelled is a file.
pub open spec fn listed_type(kind: EntryKind) -> FileType {
    match kind {
        EntryKind::Directory | EntryKind::Gitlink => FileType::Directory,
        EntryKind::Symlink => FileType::Symlink,
        _ => FileType::RegularFile,
    }
}

/// The type a tree entry is listed as.
pub fn file_type(kind: EntryKind) -> (res: FileType)
    ensures
        res == listed_type(kind),
{
    match kind {
        EntryKind::Directory | EntryKind::Gitlink => FileType::Directory,
        EntryKind::Symlink => FileType::Symlink,
        EntryKind::Regular | EntryKind::Executable | EntryKind::Unsupported(_) => FileType::RegularFile,
    }
}

/// What a stat reports of a node beside its size and times.
#[derive(Clone, Copy, PartialEq, Eq, Structural, Debug)]
pub struct Shape {
    pub kind: FileType,
    pub perm: u16,
    pub links: u32,
}

/// The permission bits of a tree entry: a tree records whether a file is
/// executable, and nothing else.
pub open spec fn permissions(kind: EntryKind) -> u16 {
    match kind {
        EntryKind::Regular => 0o644,
        EntryKind::Executable | EntryKind::Directory | EntryKind::Gitlink => 0o755,
        EntryKind::Symlink => 0o777,
        EntryKind::Unsupported(_) => 0o444,
    }
}

/// What a tree entry reports.
pub open spec fn entry_shape(kind: EntryKind) -> Shape {
    Shape {
        kind: listed_type(kind),
        perm: permissions(kind),
        links: if kind.dir_like() {
            2
        } else {
            1
        },
    }
}

/// What a node reports: a tree entry by its kind, a real file what the disk
/// says, and the projection is read-only.
pub open spec fn node_shape(node: NodeView) -> Shape {
    match node {
        NodeView::Base(e) => entry_shape(e.kind),
        NodeView::Overlay(e) => entry_shape(e.kind.entry_kind()),
        NodeView::Git(meta) => Shape { kind: meta.kind, perm: meta.perm, links: meta.nlink },
        NodeView::Odb(OdbNodeView::Dir) => Shape {
            kind: FileType::Directory,
            perm: 0o555,
            links: 2,
        },
        NodeView::Odb(OdbNodeView::File { .. }) => Shape {
            kind: FileType::RegularFile,
            perm: 0o444,
            links: 1,
        },
    }
}

fn shape_of(kind: EntryKind) -> (res: Shape)
    ensures
        res == entry_shape(kind),
{
    let perm: u16 = match kind {
        EntryKind::Regular => 0o644,
        EntryKind::Executable | EntryKind::Directory | EntryKind::Gitlink => 0o755,
        EntryKind::Symlink => 0o777,
        EntryKind::Unsupported(_) => 0o444,
    };
    let links: u32 = if kind.is_dir_like() {
        2
    } else {
        1
    };
    Shape { kind: file_type(kind), perm, links }
}

/// What a node reports.
pub fn shape(node: &Node) -> (res: Shape)
    ensures
        res == node_shape(node@),
{
    match node {
        Node::Base(e) => shape_of(e.kind),
        Node::Overlay(e) => shape_of(e.kind.to_entry_kind()),
        Node::Git(meta) => Shape { kind: meta.kind, perm: meta.perm, links: meta.nlink },
        Node::Odb(OdbNode::Dir) => Shape { kind: FileType::Directory, perm: 0o555, links: 2 },
        Node::Odb(OdbNode::File { .. }) => Shape {
            kind: FileType::RegularFile,
            perm: 0o444,
            links: 1,
        },
    }
}

/// A resolved child in a directory listing.
#[derive(Debug)]
pub enum Child {
    Base(TreeEntryInfo),
    Overlay(Box<OverlayEntry>),
    Git { name: Vec<u8>, meta: GitMeta },
    Odb { name: Vec<u8>, node: OdbNode },
}

/// What a [`Child`] denotes.
pub enum ChildView {
    Base(TreeEntryView),
    Overlay(OverlayView),
    Git { name: Seq<u8>, meta: GitMeta },
    Odb { name: Seq<u8>, node: OdbNodeView },
}

impl View for Child {
    type V = ChildView;

    open spec fn view(&self) -> ChildView {
        match *self {
            Child::Base(e) => ChildView::Base(e@),
            Child::Overlay(e) => ChildView::Overlay((*e)@),
            Child::Git { name, meta } => ChildView::Git { name: name@, meta },
            Child::Odb { name, node } => ChildView::Odb { name: name@, node: node@ },
        }
    }
}

impl ChildView {
    pub open spec fn name(self) -> Seq<u8> {
        match self {
            ChildView::Base(e) => base_name(e.path),
            ChildView::Overlay(e) => base_name(e.path),
            ChildView::Git { name, .. } => name,
            ChildView::Odb { name, .. } => name,
        }
    }

    pub open spec fn node(self) -> NodeView {
        match self {
            ChildView::Base(e) => NodeView::Base(e),
            ChildView::Overlay(e) => NodeView::Overlay(e),
            ChildView::Git { meta, .. } => NodeView::Git(meta),
            ChildView::Odb { node, .. } => NodeView::Odb(node),
        }
    }

    pub open spec fn listed_type(self) -> FileType {
        match self {
            ChildView::Base(e) => listed_type(e.kind),
            ChildView::Overlay(e) => listed_type(e.kind.entry_kind()),
            ChildView::Git { meta, .. } => meta.kind,
            ChildView::Odb { node, .. } => if node is Dir {
                FileType::Directory
            } else {
                FileType::RegularFile
            },
        }
    }
}

impl Child {
    /// The child's last path component.
    pub fn name(&self) -> (res: Vec<u8>)
        ensures
            res@ == self@.name(),
    {
        match self {
            Child::Base(entry) => entry_name(entry),
            Child::Overlay(entry) => entry.name(),
            Child::Git { name, .. } => name.clone(),
            Child::Odb { name, .. } => name.clone(),
        }
    }

    /// What the child's inode is backed by.
    pub fn node(&self) -> (res: Node)
        ensures
            res@ == self@.node(),
    {
        match self {
            Child::Base(entry) => Node::Base(entry.duplicate()),
            Child::Overlay(entry) => Node::Overlay(Box::new(entry.duplicate())),
            Child::Git { meta, .. } => Node::Git(*meta),
            Child::Odb { node, .. } => Node::Odb(node.duplicate()),
        }
    }

    /// The type a listing reports.
    pub fn file_type(&self) -> (res: FileType)
        ensures
            res == self@.listed_type(),
    {
        match self {
            Child::Base(entry) => file_type(entry.kind),
            Child::Overlay(entry) => file_type(entry.kind.to_entry_kind()),
            Child::Git { meta, .. } => meta.kind,
            Child::Odb { node, .. } => match node {
                OdbNode::Dir => FileType::Directory,
                OdbNode::File { .. } => FileType::RegularFile,
            },
        }
    }
}

/// The last component of a tree entry's path; empty for the root.
pub fn entry_name(entry: &TreeEntryInfo) -> (res: Vec<u8>)
    ensures
        res@ == base_name(entry.path@),
{
    match entry.path.file_name() {
        Some(name) => name,
        None => {
            proof {
                crate::path::lemma_last_slash(entry.path@);
                assert(base_name(entry.path@) =~= Seq::<u8>::empty());
            }
            Vec::new()
        },
    }
}

/// The children as their meaning.
pub open spec fn child_views(children: Seq<Child>) -> Seq<ChildView> {
    Seq::new(children.len(), |i: int| children[i]@)
}

/// What the overlay says of a path.
#[derive(Debug)]
pub enum Resolution {
    /// The overlay's own row.
    Overlay(Box<OverlayEntry>),
    /// Deleted, or masked by a directory above.
    Absent,
    /// The overlay has nothing to say.
    Base,
}

/// What a [`Resolution`] denotes.
pub enum ResolutionView {
    Overlay(OverlayView),
    Absent,
    Base,
}

impl View for Resolution {
    type V = ResolutionView;

    open spec fn view(&self) -> ResolutionView {
        match *self {
            Resolution::Overlay(e) => ResolutionView::Overlay((*e)@),
            Resolution::Absent => ResolutionView::Absent,
            Resolution::Base => ResolutionView::Base,
        }
    }
}

/// What a path of the pinned tree is in the merged view: the overlay's answer
/// replaces the base's, "this path is gone" included.
pub open spec fn merged_node(answer: ResolutionView, base: Option<TreeEntryView>) -> Option<NodeView> {
    match answer {
        ResolutionView::Overlay(row) => Some(NodeView::Overlay(row)),
        ResolutionView::Absent => None,
        ResolutionView::Base => match base {
            Some(e) => Some(NodeView::Base(e)),
            None => None,
        },
    }
}

/// What a path is, and what the pinned commit holds there.
#[derive(Debug)]
pub struct Resolved {
    /// The merged view's answer; none when the path does not exist.
    pub node: Option<Node>,
    /// What the pinned commit holds, visible or not.
    pub base: Option<BaseFacts>,
}

/// An optional node as its meaning.
pub open spec fn opt_node(n: Option<Node>) -> Option<NodeView> {
    match n {
        Some(n) => Some(n@),
        None => None,
    }
}

/// What the pinned commit holds at a path: as the overlay's row recorded it,
/// for a path that is hidden too, or as the base says.
pub open spec fn resolved_base(
    answer: ResolutionView,
    row: Option<OverlayView>,
    base: Option<TreeEntryView>,
) -> Option<BaseFactsView> {
    match answer {
        ResolutionView::Overlay(row) => row.base,
        ResolutionView::Absent => match row {
            Some(row) => row.base,
            None => None,
        },
        ResolutionView::Base => match base {
            Some(e) => facts_of(e),
            None => None,
        },
    }
}

/// Resolve a path: the overlay's answer first, and the base only where the
/// overlay has nothing to say. `row` is the row the overlay keeps at the path,
/// `base` what the base listing holds there.
pub fn resolve_path(
    answer: Resolution,
    row: Option<OverlayEntry>,
    base: Option<TreeEntryInfo>,
) -> (res: Resolved)
    ensures
        ({
            let row_view = match row {
                Some(r) => Some(r@),
                None => None,
            };
            let base_view = match base {
                Some(e) => Some(e@),
                None => None,
            };
            opt_node(res.node) == merged_node(answer@, base_view) && opt_facts(res.base)
                == resolved_base(answer@, row_view, base_view)
        }),
{
    match answer {
        Resolution::Overlay(entry) => {
            let base = copy_facts(&entry.base);
            Resolved { node: Some(Node::Overlay(entry)), base }
        },
        Resolution::Absent => Resolved {
            node: None,
            base: match row {
                Some(row) => row.base,
                None => None,
            },
        },
        Resolution::Base => match base {
            Some(entry) => {
                let facts = base_facts(&entry);
                Resolved { node: Some(Node::Base(entry)), base: facts }
            },
            None => Resolved { node: None, base: None },
        },
    }
}

/// The names of a base listing.
pub open spec fn names_of(entries: Seq<TreeEntryInfo>) -> Seq<Seq<u8>> {
    Seq::new(entries.len(), |i: int| base_name(entries[i].path@))
}

/// Every name the base has in a directory; none where the overlay masks it.
pub fn base_child_names(masked: bool, entries: &Vec<TreeEntryInfo>) -> (res: Vec<Vec<u8>>)
    ensures
        views(res@) == (if masked {
            Seq::empty()
        } else {
            names_of(entries@)
        }),
{
    let mut names: Vec<Vec<u8>> = Vec::new();
    if masked {
        assert(views(names@) =~= Seq::empty());
        return names;
    }
    let mut i: usize = 0;
    while i < entries.len()
        invariant
            i <= entries@.len(),
            views(names@) == names_of(entries@).take(i as int),
        decreases entries.len() - i,
    {
        let ghost before = names@;
        let name = entry_name(&entries[i]);
        names.push(name);
        assert(views(names@) =~= names_of(entries@).take(i + 1)) by {
            assert(views(names@) =~= views(before).push(name@));
        }
        i = i + 1;
    }
    assert(names_of(entries@).take(i as int) =~= names_of(entries@));
    names
}

/// The visible children among the first `n` entries of a base listing.
pub open spec fn visible(
    entries: Seq<TreeEntryInfo>,
    answers: Seq<Resolution>,
    n: nat,
) -> Seq<ChildView>
    decreases n,
{
    if n == 0 {
        Seq::empty()
    } else {
        let before = visible(entries, answers, (n - 1) as nat);
        match answers[n - 1]@ {
            ResolutionView::Overlay(row) => before.push(ChildView::Overlay(row)),
            ResolutionView::Absent => before,
            ResolutionView::Base => before.push(ChildView::Base(entries[n - 1]@)),
        }
    }
}

/// The overlay's extra children.
pub open spec fn extra_views(extras: Seq<OverlayEntry>) -> Seq<ChildView> {
    Seq::new(extras.len(), |i: int| ChildView::Overlay(extras[i]@))
}

/// What is still to be done to complete a listing.
#[derive(Debug)]
pub enum Fill {
    Nothing,
    /// List the real directory at this path below `.git`.
    RealListing(Vec<u8>),
    /// Merge the base listing with the overlay.
    MergedListing,
}

/// The state of an open directory.
///
/// Base children always precede the overlay's extra ones, so a child's offset
/// never moves for the life of the handle.
#[derive(Debug)]
pub struct DirState {
    /// The directory's own path, used to build child paths.
    pub path: BytePath,
    pub children: Vec<Child>,
    /// Whether `children` is the whole listing.
    pub complete: bool,
    /// A real directory, below `.git`, whose listing is still to be taken.
    pub git_pending: Option<Vec<u8>>,
}

/// What a [`DirState`] denotes.
#[verifier::ext_equal]
pub struct DirView {
    pub path: Seq<u8>,
    pub children: Seq<ChildView>,
    pub complete: bool,
    pub git_pending: Option<Seq<u8>>,
}

impl View for DirState {
    type V = DirView;

    open spec fn view(&self) -> DirView {
        DirView {
            path: self.path@,
            children: child_views(self.children@),
            complete: self.complete,
            git_pending: crate::entry::opt_bytes(self.git_pending),
        }
    }
}

/// The projection's entry in the listing of its parent.
pub open spec fn projection_child() -> ChildView {
    ChildView::Odb { name: objects_name(), node: OdbNodeView::Dir }
}

/// The listing of a real directory.
pub open spec fn git_children(listed: Seq<(Vec<u8>, GitMeta)>) -> Seq<ChildView> {
    Seq::new(listed.len(), |i: int| ChildView::Git { name: listed[i].0@, meta: listed[i].1 })
}

/// The listing of a directory of the projection.
pub open spec fn odb_children(listed: Seq<(Vec<u8>, OdbNode)>) -> Seq<ChildView> {
    Seq::new(listed.len(), |i: int| ChildView::Odb { name: listed[i].0@, node: listed[i].1@ })
}

impl DirState {
    /// What is still to be done.
    pub fn needs(&self) -> (res: Fill)
        ensures
            match self@.git_pending {
                Some(rel) => res matches Fill::RealListing(r) && r@ == rel,
                None => if self@.complete {
                    res is Nothing
                } else {
                    res is MergedListing
                },
            },
    {
        match &self.git_pending {
            Some(rel) => Fill::RealListing(rel.clone()),
            None => if self.complete {
                Fill::Nothing
            } else {
                Fill::MergedListing
            },
        }
    }

    /// Take a real directory's listing. The projection appears in the listing
    /// of its parent, as an entry of its own world.
    pub fn fill_git(&mut self, listed: Vec<(Vec<u8>, GitMeta)>, has_projection: bool)
        requires
            old(self)@.git_pending is Some,
        ensures
            final(self)@ == (DirView {
                path: old(self)@.path,
                children: if has_projection && old(self)@.git_pending == Some(state_subdir()) {
                    git_children(listed@).push(projection_child())
                } else {
                    git_children(listed@)
                },
                complete: true,
                git_pending: None,
            }),
    {
        let mut children: Vec<Child> = Vec::new();
        let mut i: usize = 0;
        while i < listed.len()
            invariant
                i <= listed@.len(),
                children@.len() == i,
                forall|k: int| 0 <= k < i ==> (#[trigger] children@[k])@ == git_children(listed@)[k],
            decreases listed.len() - i,
        {
            children.push(Child::Git { name: listed[i].0.clone(), meta: listed[i].1 });
            i = i + 1;
        }
        assert(child_views(children@) =~= git_children(listed@));
        let ghost plain = children@;
        let state_dir = state_subdir_bytes();
        let parent = match &self.git_pending {
            Some(rel) => bytes_eq(rel.as_slice(), state_dir.as_slice()),
            None => false,
        };
        if has_projection && parent {
            children.push(Child::Odb { name: objects_bytes(), node: OdbNode::Dir });
            assert(child_views(children@) =~= child_views(plain).push(projection_child()));
        }
        self.children = children;
        self.complete = true;
        self.git_pending = None;
    }

    /// Merge a base listing with what the overlay says of each entry, then the
    /// overlay's extra children. A masked base gives no entries.
    pub fn fill_merged(
        &mut self,
        entries: &Vec<TreeEntryInfo>,
        answers: &Vec<Resolution>,
        extras: &Vec<OverlayEntry>,
    )
        requires
            entries@.len() == answers@.len(),
        ensures
            final(self)@ == (DirView {
                children: old(self)@.children + visible(entries@, answers@, entries@.len())
                    + extra_views(extras@),
                complete: true,
                ..old(self)@
            }),
    {
        let ghost before = self@.children;
        let mut i: usize = 0;
        assert(before + visible(entries@, answers@, 0) =~= before);
        while i < entries.len()
            invariant
                i <= entries@.len(),
                entries@.len() == answers@.len(),
                self@.children == before + visible(entries@, answers@, i as nat),
                self@.path == old(self)@.path,
                self@.git_pending == old(self)@.git_pending,
                self.complete == old(self).complete,
            decreases entries.len() - i,
        {
            let ghost now = self.children@;
            match &answers[i] {
                Resolution::Absent => {},
                Resolution::Overlay(row) => {
                    self.children.push(Child::Overlay(Box::new(row.duplicate())));
                    assert(child_views(self.children@) =~= child_views(now).push(
                        self.children@[now.len() as int]@,
                    ));
                },
                Resolution::Base => {
                    self.children.push(Child::Base(entries[i].duplicate()));
                    assert(child_views(self.children@) =~= child_views(now).push(
                        self.children@[now.len() as int]@,
                    ));
                },
            }
            assert(self@.children =~= before + visible(entries@, answers@, (i + 1) as nat));
            i = i + 1;
        }
        let ghost middle = self@.children;
        let mut j: usize = 0;
        assert(middle + extra_views(extras@).take(0) =~= middle);
        while j < extras.len()
            invariant
                j <= extras@.len(),
                self@.children == middle + extra_views(extras@).take(j as int),
                self@.path == old(self)@.path,
                self@.git_pending == old(self)@.git_pending,
                self.complete == old(self).complete,
            decreases extras.len() - j,
        {
            let ghost now = self.children@;
            self.children.push(Child::Overlay(Box::new(extras[j].duplicate())));
            assert(child_views(self.children@) =~= child_views(now).push(
                ChildView::Overlay(extras@[j as int]@),
            ));
            assert(self@.children =~= middle + extra_views(extras@).take(j + 1));
            j = j + 1;
        }
        assert(extra_views(extras@).take(j as int) =~= extra_views(extras@));
        self.complete = true;
    }
}

/// The listing agrees with lookup: a base entry is listed exactly when the
/// merged view has it, as what the merged view says it is.
pub proof fn law_listing_agrees_with_lookup(
    entries: Seq<TreeEntryInfo>,
    answers: Seq<Resolution>,
    n: nat,
    k: int,
)
    requires
        0 <= k < n <= entries.len(),
        entries.len() == answers.len(),
    ensures
        match merged_node(answers[k]@, Some(entries[k]@)) {
            Some(node) => exists|i: int|
                0 <= i < visible(entries, answers, n).len() && (#[trigger] visible(
                    entries,
                    answers,
                    n,
                )[i]).node() == node,
            None => visible(entries, answers, (k + 1) as nat) == visible(entries, answers, k as nat),
        },
    decreases n,
{
    let all = visible(entries, answers, n);
    let before = visible(entries, answers, (n - 1) as nat);
    if k < n - 1 {
        law_listing_agrees_with_lookup(entries, answers, (n - 1) as nat, k);
        if let Some(node) = merged_node(answers[k]@, Some(entries[k]@)) {
            let i = choose|i: int| 0 <= i < before.len() && (#[trigger] before[i]).node() == node;
            assert(all[i] == before[i]);
        }
    } else {
        if let Some(node) = merged_node(answers[k]@, Some(entries[k]@)) {
            assert(all[before.len() as int].node() == node);
        }
    }
}

/// Completing a listing never moves a child: what was listed keeps its offset.
pub proof fn law_offsets_do_not_move(
    before: Seq<ChildView>,
    entries: Seq<TreeEntryInfo>,
    answers: Seq<Resolution>,
    extras: Seq<OverlayEntry>,
    i: int,
)
    requires
        0 <= i < before.len(),
    ensures
        (before + visible(entries, answers, entries.len()) + extra_views(extras))[i] == before[i],
{
}

/// How a directory is opened.
#[derive(Debug)]
pub enum Opendir {
    Refuse(Errno),
    /// A directory of the projection, listed from its own tree.
    Projection(Vec<u8>),
    Open(DirState),
}

/// The placeholder attributes `.git` is listed with at the root.
pub open spec fn git_dir_meta() -> GitMeta {
    GitMeta {
        kind: FileType::Directory,
        size: 0,
        perm: 0o755,
        nlink: 2,
        mtime: Timestamp { secs: 0, nanos: 0 },
        ctime: Timestamp { secs: 0, nanos: 0 },
    }
}

/// A directory nothing has been listed of.
pub open spec fn unlisted(path: Seq<u8>) -> DirView {
    DirView { path, children: Seq::empty(), complete: false, git_pending: None }
}

/// How a directory is opened: only directories can be, a submodule is an empty
/// one, and the root lists `.git` first.
pub open spec fn opendir_outcome(r: RecordView, res: Opendir) -> bool {
    match r.node {
        NodeView::Git(meta) => if meta.kind != FileType::Directory {
            res == Opendir::Refuse(Errno::NotDirectory)
        } else {
            match git_part(r.path) {
                None => res == Opendir::Refuse(Errno::Stale),
                Some(rel) => res matches Opendir::Open(d) && d@ == (DirView {
                    git_pending: Some(rel),
                    ..unlisted(r.path)
                }),
            }
        },
        NodeView::Odb(node) => if node is File {
            res == Opendir::Refuse(Errno::NotDirectory)
        } else {
            res matches Opendir::Projection(rel) && rel@ == projected_dir(r.path)
        },
        NodeView::Overlay(row) => if row.kind == OverlayKind::Directory {
            res matches Opendir::Open(d) && d@ == unlisted(r.path)
        } else {
            res == Opendir::Refuse(Errno::NotDirectory)
        },
        NodeView::Base(e) => match e.kind {
            EntryKind::Gitlink => res matches Opendir::Open(d) && d@ == (DirView {
                complete: true,
                ..unlisted(r.path)
            }),
            EntryKind::Directory => res matches Opendir::Open(d) && d@ == (DirView {
                children: if r.ino == ROOT_INO {
                    seq![ChildView::Git { name: git_dir_name(), meta: git_dir_meta() }]
                } else {
                    Seq::empty()
                },
                ..unlisted(r.path)
            }),
            _ => res == Opendir::Refuse(Errno::NotDirectory),
        },
    }
}

/// The projection's part of a mount path; its root for any other path.
pub open spec fn projected_dir(path: Seq<u8>) -> Seq<u8> {
    match git_part(path) {
        Some(rel) => match odb_part(rel) {
            Some(orel) => orel,
            None => Seq::empty(),
        },
        None => Seq::empty(),
    }
}

/// How a directory is opened.
pub fn plan_opendir(record: &Record) -> (res: Opendir)
    ensures
        opendir_outcome(record@, res),
{
    let mut state = DirState {
        path: record.path.duplicate(),
        children: Vec::new(),
        complete: false,
        git_pending: None,
    };
    assert(child_views(state.children@) =~= Seq::<ChildView>::empty());
    match &record.node {
        Node::Git(meta) => {
            if meta.kind != FileType::Directory {
                return Opendir::Refuse(Errno::NotDirectory);
            }
            match git_rel(record.path.as_bytes()) {
                None => Opendir::Refuse(Errno::Stale),
                Some(rel) => {
                    state.git_pending = Some(rel);
                    Opendir::Open(state)
                },
            }
        },
        Node::Odb(node) => {
            match node {
                OdbNode::File { .. } => return Opendir::Refuse(Errno::NotDirectory),
                OdbNode::Dir => {},
            }
            let rel = match git_rel(record.path.as_bytes()) {
                Some(rel) => match odb_rel(rel.as_slice()) {
                    Some(orel) => orel,
                    None => Vec::new(),
                },
                None => Vec::new(),
            };
            assert(rel@ =~= projected_dir(record.path@));
            Opendir::Projection(rel)
        },
        Node::Overlay(entry) => {
            if entry.kind == OverlayKind::Directory {
                Opendir::Open(state)
            } else {
                Opendir::Refuse(Errno::NotDirectory)
            }
        },
        Node::Base(entry) => match entry.kind {
            EntryKind::Gitlink => {
                state.complete = true;
                Opendir::Open(state)
            },
            EntryKind::Directory => {
                if record.ino == ROOT_INO {
                    let zero = Timestamp { secs: 0, nanos: 0 };
                    state.children.push(
                        Child::Git {
                            name: git_dir_bytes(),
                            meta: GitMeta {
                                kind: FileType::Directory,
                                size: 0,
                                perm: 0o755,
                                nlink: 2,
                                mtime: zero,
                                ctime: zero,
                            },
                        },
                    );
                    assert(child_views(state.children@) =~= seq![
                        ChildView::Git { name: git_dir_name(), meta: git_dir_meta() },
                    ]);
                }
                Opendir::Open(state)
            },
            EntryKind::Regular | EntryKind::Executable | EntryKind::Symlink
            | EntryKind::Unsupported(_) => Opendir::Refuse(Errno::NotDirectory),
        },
    }
}

/// The open state of a directory of the projection, from its listing.
pub fn projected_directory(path: &BytePath, listed: Vec<(Vec<u8>, OdbNode)>) -> (res: DirState)
    ensures
        res@ == (DirView {
            children: odb_children(listed@),
            complete: true,
            ..unlisted(path@)
        }),
{
    let mut children: Vec<Child> = Vec::new();
    let mut i: usize = 0;
    while i < listed.len()
        invariant
            i <= listed@.len(),
            children@.len() == i,
            forall|k: int| 0 <= k < i ==> (#[trigger] children@[k])@ == odb_children(listed@)[k],
        decreases listed.len() - i,
    {
        children.push(Child::Odb { name: listed[i].0.clone(), node: listed[i].1.duplicate() });
        i = i + 1;
    }
    assert(child_views(children@) =~= odb_children(listed@));
    DirState { path: path.duplicate(), children, complete: true, git_pending: None }
}

} // verus!
