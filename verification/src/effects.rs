//! What the decisions come to: laws of opening, copying up, changing, moving
//! and finding files, over a model of the bytes behind them.
use vstd::prelude::*;
use crate::bytes::has_prefix;
use crate::decide::{
    access_result, allocate_outcome, copy_up_outcome, create_options, extended, found_at,
    getattr_outcome, is_executable, link_outcome, lookup_outcome, make_outcome, open_outcome,
    plan_touch, quota_capacity, readlink_outcome, remove_outcome, rename_outcome, reported_times,
    seek_result, setattr_outcome, sync_dir_outcome, AccessMode, AttrChange, AttrStep, CopyUp,
    CreateOptions, LookupPlan, MakePlan, OpenPlan, ReadlinkPlan, RenamePlan, Route, SetattrPlan,
    TimeOrNow, Times, Touch, Whence,
};
use crate::entry::EntryKind;
use crate::errno::Errno;
use crate::fs::{
    after_write, file_flags, memory_range, plan_fsync, write_plan, FsView, OpenFile, OpenFileView,
    SyncPlan, WritePlan,
};
use crate::inode::{Record, RecordView, ROOT_INO};
use crate::limits::MAX_NAME_BYTES;
use crate::node::{
    opt_facts, BaseFactsView, ContentView, FileType, NodeView, OdbNodeView, OverlayKind,
    OverlayView,
};
use crate::object::ObjectIdView;
use crate::path::{base_name, joined, law_join_then_split, parent};
use crate::subtree::{git_dir_name, git_part, odb_part, projection_dir};
use crate::time::Timestamp;

verus! {

// ---------------------------------------------------------------------------
// Bytes
// ---------------------------------------------------------------------------
/// The bytes there are: of the pinned commit's objects, and of the overlay's
/// own content.
pub struct Store {
    pub blobs: Map<ObjectIdView, Seq<u8>>,
    pub locals: Map<u64, Seq<u8>>,
}

/// The bytes a row or an entry of the merged view has, whatever it is called
/// and whichever mode it has; none for what has no content.
pub open spec fn content_bytes(r: RecordView, store: Store) -> Option<Seq<u8>> {
    match r.node {
        NodeView::Base(e) => Some(store.blobs[e.oid]),
        NodeView::Overlay(row) => match row.content {
            ContentView::Local(id) => Some(store.locals[id]),
            ContentView::Base(oid) => Some(store.blobs[oid]),
            ContentView::Nothing => None,
        },
        _ => None,
    }
}

/// Whether a record is a plain file of the merged view.
pub open spec fn merged_file(r: RecordView) -> bool {
    match r.node {
        NodeView::Base(e) => e.kind == EntryKind::Regular || e.kind == EntryKind::Executable,
        NodeView::Overlay(row) => row.kind == OverlayKind::Regular || row.kind
            == OverlayKind::Executable,
        _ => false,
    }
}

/// Whether a record is of the merged view: the pinned tree or the overlay.
pub open spec fn merged(r: RecordView) -> bool {
    r.node is Base || r.node is Overlay
}

/// Whether a path is the one at which the pinned commit holds a record's
/// object: where a moved row came from, and the record's own path otherwise.
pub open spec fn commit_path(r: RecordView, path: Seq<u8>) -> bool {
    match r.node {
        NodeView::Overlay(row) => match row.renamed_from {
            Some(from) => path == from,
            None => path == r.path,
        },
        _ => path == r.path,
    }
}

/// Whether a path below `.git` is what a part of it names.
pub open spec fn names_git(path: Seq<u8>, rel: Seq<u8>) -> bool {
    path == joined(git_dir_name(), rel) || (path == git_dir_name() && rel.len() == 0)
}

/// Whether a part of `.git` lies in the projection.
pub open spec fn projected(rel: Seq<u8>) -> bool {
    rel == projection_dir() || exists|below: Seq<u8>| rel == #[trigger] joined(
        projection_dir(),
        below,
    )
}

/// A part below `.git` names its path, and a path has no other.
pub proof fn lemma_git_part(path: Seq<u8>)
    ensures
        match git_part(path) {
            Some(rel) => names_git(path, rel),
            None => forall|rel: Seq<u8>| !(#[trigger] names_git(path, rel)),
        },
        forall|rel: Seq<u8>| #[trigger] names_git(path, rel) ==> git_part(path) == Some(rel),
{
    let dir = git_dir_name();
    let p = dir + seq![47u8];
    if path != dir && has_prefix(path, p) {
        assert(path =~= joined(dir, path.subrange(dir.len() as int + 1, path.len() as int))) by {
            assert(path.subrange(0, p.len() as int) == p);
            assert forall|i: int| 0 <= i < p.len() implies path[i] == p[i] by {
                assert(path.subrange(0, p.len() as int)[i] == p[i]);
            }
        }
    }
    assert forall|rel: Seq<u8>| #[trigger] names_git(path, rel) implies git_part(path) == Some(rel) by {
        if path == joined(dir, rel) {
            assert(path.subrange(0, p.len() as int) =~= p);
            assert(path.subrange(dir.len() as int + 1, path.len() as int) =~= rel);
            assert(path.len() > dir.len());
        } else {
            assert(rel =~= Seq::<u8>::empty());
        }
    }
}

/// A part of `.git` has a part of the projection exactly when it lies in it.
pub proof fn lemma_odb_part(rel: Seq<u8>)
    ensures
        odb_part(rel) is Some <==> projected(rel),
        odb_part(rel) matches Some(part) ==> rel == joined(projection_dir(), part) || (rel
            == projection_dir() && part.len() == 0),
{
    let dir = projection_dir();
    let p = dir + seq![47u8];
    if rel != dir && has_prefix(rel, p) {
        let part = rel.subrange(dir.len() as int + 1, rel.len() as int);
        assert(rel =~= joined(dir, part)) by {
            assert forall|i: int| 0 <= i < p.len() implies rel[i] == p[i] by {
                assert(rel.subrange(0, p.len() as int)[i] == p[i]);
            }
        }
    }
    if projected(rel) && rel != dir {
        let part = choose|below: Seq<u8>| rel == #[trigger] joined(dir, below);
        assert(rel.subrange(0, p.len() as int) =~= p);
    }
}

// ---------------------------------------------------------------------------
// Opening
// ---------------------------------------------------------------------------
/// What an opened file reads.
pub open spec fn opened_bytes(plan: OpenPlan, store: Store) -> Option<Seq<u8>> {
    match plan {
        OpenPlan::Local { id } => Some(store.locals[id]),
        OpenPlan::Blob { oid, .. } => Some(store.blobs[oid@]),
        _ => None,
    }
}

/// A file that has content opens for reading and gives that content, under
/// whatever name and mode it has by now; an object of the pinned commit is
/// asked for by its own ID and where the commit holds it.
pub proof fn law_a_file_opens_to_its_content(r: RecordView, store: Store, res: OpenPlan)
    requires
        open_outcome(r, AccessMode::ReadOnly, false, res),
        merged_file(r),
        content_bytes(r, store) is Some,
    ensures
        !(res is Refuse),
        opened_bytes(res, store) == content_bytes(r, store),
        res matches OpenPlan::Blob { path, oid } ==> commit_path(r, path@) && (match r.node {
            NodeView::Base(e) => oid@ == e.oid,
            NodeView::Overlay(row) => row.content == ContentView::Base(oid@),
            _ => false,
        }),
        res matches OpenPlan::Local { id } ==> (r.node matches NodeView::Overlay(row) && row.content
            == ContentView::Local(id)),
{
}

/// Moving a file or changing its mode does not change what an open reads: two
/// rows with one content open alike.
pub proof fn law_a_moved_file_opens_alike(
    a: RecordView,
    b: RecordView,
    store: Store,
    from_a: OpenPlan,
    from_b: OpenPlan,
)
    requires
        merged_file(a),
        merged_file(b),
        content_bytes(a, store) is Some,
        content_bytes(b, store) == content_bytes(a, store),
        open_outcome(a, AccessMode::ReadOnly, false, from_a),
        open_outcome(b, AccessMode::ReadOnly, false, from_b),
    ensures
        opened_bytes(from_a, store) == opened_bytes(from_b, store),
        opened_bytes(from_a, store) is Some,
{
}

/// Whoever writes or truncates a file of the merged view gets content of its
/// own, and nobody else does; a file that has no content is refused as broken
/// only to its readers.
pub proof fn law_a_writer_gets_its_own_content(
    r: RecordView,
    acc: AccessMode,
    truncating: bool,
    res: OpenPlan,
)
    requires
        open_outcome(r, acc, truncating, res),
    ensures
        res is CopyUp <==> merged_file(r) && (acc != AccessMode::ReadOnly || truncating),
        merged_file(r) && res is Refuse ==> acc == AccessMode::ReadOnly && !truncating
            && res == OpenPlan::Refuse(Errno::Io) && (r.node matches NodeView::Overlay(row)
            && row.content is Nothing),
{
}

/// A directory does not open as a file, nor does a link, nor a mode that is not
/// modelled, and each says which it is.
pub proof fn law_only_files_open(r: RecordView, acc: AccessMode, truncating: bool, res: OpenPlan)
    requires
        open_outcome(r, acc, truncating, res),
        !(r.node is Odb),
    ensures
        r.node.directory() <==> res == OpenPlan::Refuse(Errno::IsDirectory),
        r.node matches NodeView::Base(e) ==> {
            &&& e.kind == EntryKind::Symlink ==> res == OpenPlan::Refuse(Errno::Loop)
            &&& e.kind is Unsupported ==> res == OpenPlan::Refuse(Errno::Io)
        },
        r.node matches NodeView::Overlay(row) ==> (row.kind == OverlayKind::Symlink ==> res
            == OpenPlan::Refuse(Errno::Loop)),
        r.node matches NodeView::Git(meta) ==> (meta.kind == FileType::Symlink ==> res
            == OpenPlan::Refuse(Errno::Loop)),
{
}

/// A real file opens at its own path below `.git`, for what it is opened for:
/// it is truncated only for a writer.
pub proof fn law_a_real_file_opens_in_place(
    r: RecordView,
    acc: AccessMode,
    truncating: bool,
    res: OpenPlan,
)
    requires
        open_outcome(r, acc, truncating, res),
    ensures
        res matches OpenPlan::Real { rel, read, write, truncate } ==> {
            &&& names_git(r.path, rel@)
            &&& r.node is Git
            &&& read <==> acc == AccessMode::ReadOnly || acc == AccessMode::ReadWrite
            &&& write <==> acc == AccessMode::WriteOnly || acc == AccessMode::ReadWrite
            &&& truncate ==> write && truncating
            &&& truncating && write ==> truncate
        },
        r.node is Git && r.node.regular_file() && (exists|rel: Seq<u8>| names_git(r.path, rel))
            ==> res is Real,
{
    lemma_git_part(r.path);
}

/// The projection is read and never written: a file of it opens as itself for
/// a reader, and a writer is told that it is read-only.
pub proof fn law_the_projection_is_read_only(
    r: RecordView,
    acc: AccessMode,
    truncating: bool,
    res: OpenPlan,
)
    requires
        open_outcome(r, acc, truncating, res),
        r.node is Odb,
    ensures
        acc != AccessMode::ReadOnly ==> res == OpenPlan::Refuse(Errno::ReadOnly),
        acc == AccessMode::ReadOnly ==> match r.node->Odb_0 {
            OdbNodeView::Dir => res == OpenPlan::Refuse(Errno::IsDirectory),
            OdbNodeView::File { path, .. } => res matches OpenPlan::Projected { file } && file@
                == path,
        },
{
}

// ---------------------------------------------------------------------------
// Copying up
// ---------------------------------------------------------------------------
/// The local bytes a path has once a plan was carried out.
pub open spec fn copied_bytes(plan: CopyUp, store: Store) -> Option<Seq<u8>> {
    match plan {
        CopyUp::Refuse(_) => None,
        CopyUp::Ready(row) => match row@.content {
            ContentView::Local(id) => Some(store.locals[id]),
            _ => None,
        },
        CopyUp::Truncate | CopyUp::Empty { .. } => Some(Seq::empty()),
        CopyUp::Fetch { oid, .. } => Some(store.blobs[oid@]),
    }
}

/// What the pinned commit holds where a record of the merged view diverged
/// from it, as the record says: the row's own note, or the entry itself where
/// the overlay models its kind.
pub open spec fn diverged_from(r: RecordView, base: Option<BaseFactsView>) -> bool {
    match r.node {
        NodeView::Overlay(row) => base == row.base,
        NodeView::Base(e) => match base {
            Some(facts) => facts.oid == e.oid && facts.kind == e.kind && facts.size == e.size,
            None => e.kind == EntryKind::Gitlink || e.kind is Unsupported,
        },
        _ => base is None,
    }
}

/// Copying up keeps the bytes a path has; copying up to truncate leaves none
/// and fetches nothing. What the pinned commit holds there is remembered.
pub proof fn law_copying_up_keeps_the_bytes(
    r: RecordView,
    truncating: bool,
    store: Store,
    res: CopyUp,
)
    requires
        copy_up_outcome(r, truncating, res),
        merged(r),
        r.node matches NodeView::Overlay(row) ==> (row.content matches ContentView::Local(id)
            ==> store.locals[id].len() == row.size),
    ensures
        truncating ==> copied_bytes(res, store) == Some(Seq::<u8>::empty()) && !(res is Fetch),
        !truncating ==> copied_bytes(res, store) == content_bytes(r, store),
        res is Refuse <==> !truncating && content_bytes(r, store) is None,
        res matches CopyUp::Fetch { path, oid, base } ==> diverged_from(r, opt_facts(base))
            && commit_path(r, path@),
        res matches CopyUp::Empty { base } ==> diverged_from(r, opt_facts(base)),
        res matches CopyUp::Ready(row) ==> r.node == NodeView::Overlay(row@),
        res is Ready || res is Truncate ==> (r.node matches NodeView::Overlay(row)
            && row.content is Local),
{
    if r.node is Overlay && r.node->Overlay_0.content is Local {
        let id = r.node->Overlay_0.content->Local_0;
        if truncating && r.node->Overlay_0.size == 0 {
            assert(store.locals[id] =~= Seq::<u8>::empty());
        }
    }
}

// ---------------------------------------------------------------------------
// Changing attributes
// ---------------------------------------------------------------------------
/// A file while its attributes change: its bytes, whether they are the
/// overlay's own, whether it is executable, and when it and the root were last
/// changed.
pub struct FileModel {
    pub bytes: Seq<u8>,
    pub local: bool,
    pub executable: bool,
    pub mtime: Timestamp,
    pub root_mtime: Timestamp,
}

/// Bytes cut or extended with zeros to a length.
pub open spec fn resized(bytes: Seq<u8>, len: nat) -> Seq<u8> {
    Seq::new(
        len,
        |i: int|
            if i < bytes.len() {
                bytes[i]
            } else {
                0u8
            },
    )
}

/// A file after one step. Only bytes of its own can be cut or extended: a step
/// that would change the pinned commit's fails.
pub open spec fn stepped(f: FileModel, step: AttrStep, now: Timestamp) -> Option<FileModel> {
    match step {
        AttrStep::CopyUp { truncating } => Some(
            FileModel {
                bytes: if truncating {
                    Seq::empty()
                } else {
                    f.bytes
                },
                local: true,
                ..f
            },
        ),
        AttrStep::Truncate(size) => if f.local {
            Some(FileModel { bytes: resized(f.bytes, size as nat), ..f })
        } else {
            None
        },
        AttrStep::SetExecutable(executable) => Some(FileModel { executable, ..f }),
        AttrStep::SetTimes(at) => Some(
            FileModel {
                mtime: match at {
                    Some(t) => t,
                    None => now,
                },
                ..f
            },
        ),
        AttrStep::TouchRoot(at) => Some(
            FileModel {
                root_mtime: match at {
                    Some(t) => t,
                    None => now,
                },
                ..f
            },
        ),
    }
}

/// A file after the first `n` steps.
pub open spec fn all_stepped(f: FileModel, steps: Seq<AttrStep>, n: nat, now: Timestamp) -> Option<
    FileModel,
>
    decreases n,
{
    if n == 0 {
        Some(f)
    } else {
        match all_stepped(f, steps, (n - 1) as nat, now) {
            Some(g) => stepped(g, steps[n - 1], now),
            None => None,
        }
    }
}

/// The time a caller asked for.
pub open spec fn asked_time(t: TimeOrNow, now: Timestamp) -> Timestamp {
    match t {
        TimeOrNow::Now => now,
        TimeOrNow::At(at) => at,
    }
}

/// Changing attributes changes what was asked for and nothing else. A new size
/// cuts the file's bytes or extends them with zeros and keeps those before it;
/// a mode makes the file executable or not; a time is set where it belongs.
pub proof fn law_a_change_changes_what_was_asked(
    r: RecordView,
    c: AttrChange,
    f: FileModel,
    now: Timestamp,
    res: SetattrPlan,
)
    requires
        setattr_outcome(r, c, res),
        merged(r),
    ensures
        res matches SetattrPlan::Merged { base, steps } && diverged_from(r, opt_facts(base)) && (
        all_stepped(f, steps@, steps@.len(), now) matches Some(g) && {
            &&& g.bytes == (match c.size {
                Some(size) => resized(f.bytes, size as nat),
                None => f.bytes,
            })
            &&& g.local == (f.local || c.size is Some)
            &&& g.executable == (match c.mode {
                Some(mode) => mode & 0o111 != 0,
                None => f.executable,
            })
            &&& g.mtime == (if c.mtime is Some && r.path.len() > 0 {
                asked_time(c.mtime->0, now)
            } else {
                f.mtime
            })
            &&& g.root_mtime == (if c.mtime is Some && r.path.len() == 0 {
                asked_time(c.mtime->0, now)
            } else {
                f.root_mtime
            })
        }),
        // The old bytes are fetched unless all of them go.
        res matches SetattrPlan::Merged { steps, .. } ==> forall|i: int|
            0 <= i < steps@.len() ==> (#[trigger] steps@[i] matches AttrStep::CopyUp { truncating }
                ==> c.size is Some && truncating == (c.size->0 == 0)),
{
    let steps = res->steps@;
    let n = steps.len();
    reveal_with_fuel(all_stepped, 5);
    assert(resized(Seq::<u8>::empty(), 0) =~= resized(f.bytes, 0));
    assert(n <= 4);
    if c.size is Some {
        assert(steps[0] is CopyUp && steps[1] is Truncate);
    }
}

/// A size that is set keeps what comes before it.
pub proof fn law_a_new_size_keeps_what_is_before_it(bytes: Seq<u8>, len: nat)
    ensures
        resized(bytes, len).len() == len,
        forall|i: int| 0 <= i < len && i < bytes.len() ==> resized(bytes, len)[i] == bytes[i],
        forall|i: int| bytes.len() <= i < len ==> resized(bytes, len)[i] == 0,
        resized(bytes, bytes.len()) == bytes,
{
    assert(resized(bytes, bytes.len()) =~= bytes);
}

/// A real file is changed at its own path below `.git`, and by what was asked:
/// the size and the time as they are, the mode by its permission bits. A file
/// of the projection is never changed; only touching it is let pass.
pub proof fn law_a_change_below_git(r: RecordView, c: AttrChange, res: SetattrPlan)
    requires
        setattr_outcome(r, c, res),
    ensures
        res matches SetattrPlan::Real { rel, mode, size, mtime } ==> {
            &&& r.node is Git
            &&& names_git(r.path, rel@)
            &&& size == c.size
            &&& mtime == c.mtime
            &&& mode is Some <==> c.mode is Some
            &&& c.mode is Some ==> mode->0 & 0o7777 == c.mode->0 & 0o7777 && mode->0 <= 0o7777
        },
        r.node is Git && (exists|rel: Seq<u8>| names_git(r.path, rel)) ==> res is Real,
        r.node is Odb ==> res is Unchanged || res == SetattrPlan::Refuse(Errno::ReadOnly),
        res is Unchanged <==> r.node is Odb && c.size is None && c.mode is None && c.uid is None
            && c.gid is None && (c.atime is Some || c.mtime is Some),
{
    lemma_git_part(r.path);
    if c.mode is Some {
        let m = c.mode->0;
        assert((m & 0o7777) & 0o7777 == m & 0o7777 && (m & 0o7777) <= 0o7777) by (bit_vector);
    }
}

// ---------------------------------------------------------------------------
// Names below a parent
// ---------------------------------------------------------------------------
/// Whether bytes can be one component of a path.
pub open spec fn is_component(name: Seq<u8>) -> bool {
    name.len() > 0 && forall|k: int| 0 <= k < name.len() ==> name[k] != 47
}

/// Whether a path is the child of a directory under a name.
pub open spec fn is_child(path: Seq<u8>, dir: Seq<u8>, name: Seq<u8>) -> bool {
    parent(path) == dir && base_name(path) == name
}

/// Whether a part of `.git` is the child of a directory under a name.
pub open spec fn is_git_child(rel: Seq<u8>, dir: Seq<u8>, name: Seq<u8>) -> bool {
    exists|path: Seq<u8>| #[trigger] names_git(path, rel) && is_child(path, dir, name)
}

proof fn lemma_child(dir: Seq<u8>, name: Seq<u8>)
    requires
        is_component(name),
    ensures
        is_child(joined(dir, name), dir, name),
        forall|rel: Seq<u8>| #[trigger] names_git(joined(dir, name), rel) ==> is_git_child(
            rel,
            dir,
            name,
        ),
{
    law_join_then_split(dir, name);
}

/// A rename moves a name of the old parent to a name of the new parent: the
/// two ends split into the directories and the names it was given, on the disk
/// as in the merged view, and neither end lies in the projection. It is refused
/// only for a reason that it names.
pub proof fn law_a_rename_leads_from_one_parent_to_the_other(
    swap: bool,
    from_parent: Option<RecordView>,
    name: Seq<u8>,
    to_parent: Option<RecordView>,
    newname: Seq<u8>,
    res: RenamePlan,
)
    requires
        rename_outcome(swap, from_parent, name, to_parent, newname, res),
        is_component(name),
        is_component(newname),
    ensures
        res matches RenamePlan::Merged { from, to } ==> {
            &&& from_parent is Some && to_parent is Some
            &&& is_child(from@, from_parent->0.path, name)
            &&& is_child(to@, to_parent->0.path, newname)
        },
        res matches RenamePlan::Real { from_rel, to_rel } ==> {
            &&& from_parent is Some && to_parent is Some
            &&& is_git_child(from_rel@, from_parent->0.path, name)
            &&& is_git_child(to_rel@, to_parent->0.path, newname)
            &&& !projected(from_rel@)
            &&& !projected(to_rel@)
        },
        res is Merged <==> !swap && from_parent is Some && to_parent is Some && merged(
            from_parent->0,
        ) && merged(to_parent->0) && newname.len() <= MAX_NAME_BYTES,
        swap ==> res == RenamePlan::Refuse(Errno::Invalid),
        !swap && (from_parent is None || to_parent is None) ==> res == RenamePlan::Refuse(
            Errno::Stale,
        ),
        !swap && from_parent is Some && to_parent is Some ==> {
            let f = from_parent->0;
            let t = to_parent->0;
            &&& f.node is Odb || t.node is Odb ==> res == RenamePlan::Refuse(Errno::ReadOnly)
            &&& (f.node is Git && merged(t)) || (t.node is Git && merged(f)) ==> res
                == RenamePlan::Refuse(Errno::CrossDevice)
            &&& f.node is Git && t.node is Git && newname.len() <= MAX_NAME_BYTES ==> match res {
                RenamePlan::Real { .. } => true,
                RenamePlan::Refuse(e) => {
                    ||| e == Errno::ReadOnly && exists|rel: Seq<u8>| #[trigger]
                        projected(rel) && (names_git(joined(f.path, name), rel) || names_git(
                            joined(t.path, newname),
                            rel,
                        ))
                    ||| e == Errno::CrossDevice && ((forall|rel: Seq<u8>|
                        !(#[trigger] names_git(joined(f.path, name), rel))) || (forall|rel: Seq<u8>|
                        !(#[trigger] names_git(joined(t.path, newname), rel))))
                },
                RenamePlan::Merged { .. } => false,
            }
            &&& res == RenamePlan::Refuse(Errno::NameTooLong) ==> newname.len() > MAX_NAME_BYTES
        },
{
    if from_parent is Some && to_parent is Some {
        let from = joined(from_parent->0.path, name);
        let to = joined(to_parent->0.path, newname);
        lemma_child(from_parent->0.path, name);
        lemma_child(to_parent->0.path, newname);
        lemma_git_part(from);
        lemma_git_part(to);
        if git_part(from) is Some {
            lemma_odb_part(git_part(from)->0);
        }
        if git_part(to) is Some {
            lemma_odb_part(git_part(to)->0);
        }
    }
}

/// What is made goes where it was asked for: on the disk under the name of the
/// parent, never in the projection, and in the overlay otherwise.
pub proof fn law_what_is_made_is_a_child_of_its_parent(p: RecordView, name: Seq<u8>, res: MakePlan)
    requires
        make_outcome(p, name, res),
        is_component(name),
    ensures
        res matches MakePlan::Real(rel) ==> p.node is Git && is_git_child(rel@, p.path, name)
            && !projected(rel@),
        res is Merged <==> merged(p) && name.len() <= MAX_NAME_BYTES,
        p.node is Odb ==> res == MakePlan::Refuse(Errno::ReadOnly),
        !(p.node is Odb) && name.len() > MAX_NAME_BYTES ==> res == MakePlan::Refuse(
            Errno::NameTooLong,
        ),
        p.node is Git && name.len() <= MAX_NAME_BYTES ==> (match res {
            MakePlan::Real(_) => true,
            MakePlan::Refuse(e) => e == Errno::ReadOnly && forall|rel: Seq<u8>| #[trigger]
                names_git(joined(p.path, name), rel) ==> projected(rel),
            MakePlan::Merged => false,
        }),
{
    let path = joined(p.path, name);
    lemma_child(p.path, name);
    lemma_git_part(path);
    if git_part(path) is Some {
        lemma_odb_part(git_part(path)->0);
    }
}

/// What is removed is what was named: on the disk under the name of the
/// parent, never in the projection, and in the overlay otherwise.
pub proof fn law_what_is_removed_is_a_child_of_its_parent(
    p: Option<RecordView>,
    name: Seq<u8>,
    res: MakePlan,
)
    requires
        remove_outcome(p, name, res),
        is_component(name),
    ensures
        p is None ==> res == MakePlan::Refuse(Errno::Stale),
        res matches MakePlan::Real(rel) ==> p is Some && p->0.node is Git && is_git_child(
            rel@,
            p->0.path,
            name,
        ) && !projected(rel@),
        res is Merged <==> p is Some && merged(p->0),
        p is Some && p->0.node is Odb ==> res == MakePlan::Refuse(Errno::ReadOnly),
        p is Some && p->0.node is Git ==> (match res {
            MakePlan::Real(_) => true,
            MakePlan::Refuse(e) => e == Errno::ReadOnly && forall|rel: Seq<u8>| #[trigger]
                names_git(joined(p->0.path, name), rel) ==> projected(rel),
            MakePlan::Merged => false,
        }),
{
    if p is Some {
        let path = joined(p->0.path, name);
        lemma_child(p->0.path, name);
        lemma_git_part(path);
        if git_part(path) is Some {
            lemma_odb_part(git_part(path)->0);
        }
    }
}

/// A hard link joins the source's own file to the name below the parent, both
/// on the disk and neither in the projection.
pub proof fn law_a_link_joins_source_and_name(
    source: Option<RecordView>,
    p: Option<RecordView>,
    name: Seq<u8>,
    res: Result<(Vec<u8>, Vec<u8>), Errno>,
)
    requires
        link_outcome(source, p, name, res),
        is_component(name),
    ensures
        res matches Ok(ends) ==> {
            &&& source is Some && p is Some
            &&& source->0.node is Git && p->0.node is Git
            &&& names_git(source->0.path, ends.0@)
            &&& is_git_child(ends.1@, p->0.path, name)
            &&& !projected(ends.0@)
            &&& !projected(ends.1@)
        },
        source is Some && p is Some && (merged(source->0) || merged(p->0)) ==> res == Err::<
            (Vec<u8>, Vec<u8>),
            Errno,
        >(Errno::NotPermitted),
{
    if source is Some && p is Some {
        let path = joined(p->0.path, name);
        lemma_child(p->0.path, name);
        lemma_git_part(path);
        lemma_git_part(source->0.path);
        if git_part(path) is Some {
            lemma_odb_part(git_part(path)->0);
        }
        if git_part(source->0.path) is Some {
            lemma_odb_part(git_part(source->0.path)->0);
        }
    }
}

/// A name is looked up in one world. Nothing of the tree shadows `.git`: the
/// root's `.git` and everything below a real or projected directory is asked
/// of the disk or the projection, under the parent's own path, and whatever
/// lies in the projection is asked of it; everything else is asked of the
/// merged view.
pub proof fn law_a_name_is_looked_up_in_its_world(p: RecordView, name: Seq<u8>, res: LookupPlan)
    requires
        lookup_outcome(p, name, res),
        is_component(name),
    ensures
        p.ino == ROOT_INO && name == git_dir_name() ==> !(res is Merged),
        p.node is Git || p.node is Odb ==> !(res is Merged),
        merged(p) && !(p.ino == ROOT_INO && name == git_dir_name()) ==> res is Merged,
        res matches LookupPlan::Real(rel) ==> is_git_child(rel@, p.path, name) && !projected(rel@),
        res matches LookupPlan::Projected(part) ==> exists|rel: Seq<u8>| #[trigger]
            is_git_child(rel, p.path, name) && projected(rel) && (rel == joined(
                projection_dir(),
                part@,
            ) || (rel == projection_dir() && part@.len() == 0)),
        res is Refuse ==> res == LookupPlan::Refuse(Errno::NoEntry) && forall|rel: Seq<u8>|
            !(#[trigger] names_git(joined(p.path, name), rel)),
{
    let path = joined(p.path, name);
    lemma_child(p.path, name);
    lemma_git_part(path);
    if git_part(path) is Some {
        let rel = git_part(path)->0;
        lemma_odb_part(rel);
        assert(is_git_child(rel, p.path, name));
    }
}

/// A real file is asked about, synced and allocated at its own path; what is
/// not on the disk never is.
pub proof fn law_real_files_are_handled_in_place(
    r: RecordView,
    mode: i32,
    attr: Route,
    sync: Route,
    space: Route,
)
    requires
        getattr_outcome(Some(r), attr),
        sync_dir_outcome(Some(r), sync),
        allocate_outcome(mode, Some(r), space),
    ensures
        attr matches Route::Real(rel) ==> r.node is Git && names_git(r.path, rel@),
        sync matches Route::Real(rel) ==> r.node is Git && names_git(r.path, rel@),
        space matches Route::Real(rel) ==> r.node is Git && names_git(r.path, rel@) && !projected(
            rel@,
        ),
        r.node is Git && (exists|rel: Seq<u8>| names_git(r.path, rel)) ==> attr is Real
            && sync is Real,
        !(r.node is Git) ==> attr is Merged,
        merged(r) ==> sync is Merged && (mode == 0 ==> space is Merged),
        r.node is Odb ==> sync is Done && (mode == 0 ==> space == Route::Refuse(Errno::ReadOnly)),
        mode != 0 ==> space == Route::Refuse(Errno::OperationUnsupported),
        !(attr is Done) && !(space is Done),
{
    lemma_git_part(r.path);
    if git_part(r.path) is Some {
        lemma_odb_part(git_part(r.path)->0);
    }
}

// ---------------------------------------------------------------------------
// Links, seeks, access and space
// ---------------------------------------------------------------------------
/// Whether a record is a symbolic link of the merged view.
pub open spec fn merged_link(r: RecordView) -> bool {
    match r.node {
        NodeView::Base(e) => e.kind == EntryKind::Symlink,
        NodeView::Overlay(row) => row.kind == OverlayKind::Symlink,
        _ => false,
    }
}

/// The target a link has: the one its record holds, or the bytes of its object.
pub open spec fn link_bytes(r: RecordView, store: Store) -> Option<Seq<u8>> {
    match r.node {
        NodeView::Base(e) => match e.symlink_target {
            Some(target) => Some(target),
            None => Some(store.blobs[e.oid]),
        },
        NodeView::Overlay(row) => match (row.symlink_target, row.content) {
            (Some(target), _) => Some(target),
            (None, ContentView::Base(oid)) => Some(store.blobs[oid]),
            (None, _) => None,
        },
        _ => None,
    }
}

/// What a plan to read a link gives.
pub open spec fn read_link_bytes(plan: ReadlinkPlan, store: Store) -> Option<Seq<u8>> {
    match plan {
        ReadlinkPlan::Known(target) => Some(target@),
        ReadlinkPlan::Blob { oid, .. } => Some(store.blobs[oid@]),
        _ => None,
    }
}

/// Reading a link gives its target, an object where the commit holds it and by
/// its length; only links are read.
pub proof fn law_a_link_reads_as_its_target(r: RecordView, store: Store, res: ReadlinkPlan)
    requires
        readlink_outcome(r, res),
    ensures
        merged_link(r) ==> read_link_bytes(res, store) == link_bytes(r, store),
        merged_link(r) && res is Refuse ==> res == ReadlinkPlan::Refuse(Errno::Io) && link_bytes(
            r,
            store,
        ) is None,
        res matches ReadlinkPlan::Blob { path, size, .. } ==> commit_path(r, path@) && size
            == r.node.size(),
        res matches ReadlinkPlan::Real(rel) ==> r.node is Git && names_git(r.path, rel@),
        merged(r) && !merged_link(r) ==> res == ReadlinkPlan::Refuse(Errno::Invalid),
        r.node is Odb ==> res == ReadlinkPlan::Refuse(Errno::Invalid),
        r.node matches NodeView::Git(meta) ==> (meta.kind != FileType::Symlink ==> res
            == ReadlinkPlan::Refuse(Errno::Invalid)) && (meta.kind == FileType::Symlink && (
        exists|rel: Seq<u8>| names_git(r.path, rel)) ==> res is Real),
{
    lemma_git_part(r.path);
}

/// Whether a file of a size holds data at an offset: all of it is data, and
/// what lies behind its end is one hole.
pub open spec fn holds_data(size: u64, at: int) -> bool {
    0 <= at < size
}

/// A seek for data or for a hole lands on the first of it at or behind the
/// offset, and one from outside the file finds neither.
pub proof fn law_a_seek_lands_on_the_first(size: u64, offset: i64)
    ensures
        seek_result(size, offset, Whence::Data) matches Ok(p) ==> offset <= p && holds_data(
            size,
            p as int,
        ) && forall|q: int| offset <= q < p ==> !holds_data(size, q),
        seek_result(size, offset, Whence::Hole) matches Ok(p) ==> offset <= p && !holds_data(
            size,
            p as int,
        ) && forall|q: int| offset <= q < p ==> holds_data(size, q),
        holds_data(size, offset as int) && size <= i64::MAX ==> seek_result(
            size,
            offset,
            Whence::Data,
        ) is Ok && seek_result(size, offset, Whence::Hole) is Ok,
        !holds_data(size, offset as int) ==> seek_result(size, offset, Whence::Data) == Err::<
            i64,
            Errno,
        >(Errno::NoSuchOffset) && seek_result(size, offset, Whence::Hole) == Err::<i64, Errno>(
            Errno::NoSuchOffset,
        ),
{
}

/// Access is granted unless a permission that is asked for is missing from the
/// mode, or a write is asked of the projection; asking for less is never
/// refused where more is granted.
pub proof fn law_access_is_by_permission(odb: bool, perm: u16, r: bool, w: bool, x: bool)
    ensures
        access_result(odb, perm, r, w, x) is Ok <==> (r ==> perm & 0o444 != 0) && (x ==> perm
            & 0o111 != 0) && (w ==> !odb),
        access_result(odb, perm, r, w, x) is Ok ==> access_result(odb, perm, false, w, x) is Ok
            && access_result(odb, perm, r, false, x) is Ok && access_result(
            odb,
            perm,
            r,
            w,
            false,
        ) is Ok,
        w && odb ==> access_result(odb, perm, r, w, x) == Err::<(), Errno>(Errno::ReadOnly),
        !(w && odb) && access_result(odb, perm, r, w, x) is Err ==> access_result(odb, perm, r, w, x)
            == Err::<(), Errno>(Errno::Access),
{
}

/// An allocation makes a file long enough and never shorter.
pub proof fn law_an_allocation_covers_its_range(offset: u64, length: u64, current: u64)
    ensures
        match extended(offset, length, current) {
            None => offset + length <= current || current == u64::MAX,
            Some(n) => n > current && (offset + length <= u64::MAX ==> n == offset + length),
        },
{
}

/// What is free and what is used add up to the quota in whole blocks: nothing
/// is free of what is used, and what is left could still be written.
pub proof fn law_capacity_adds_up(quota: u64, local: u64, entries: u64)
    ensures
        ({
            let c = quota_capacity(quota, local, entries);
            &&& c.blocks * c.block_size <= quota < (c.blocks + 1) * c.block_size
            &&& c.free <= c.blocks
            &&& local <= c.blocks * c.block_size ==> (c.blocks - c.free) * c.block_size >= local && (
            c.blocks - c.free) * c.block_size < local + c.block_size
            &&& local >= quota ==> c.free == 0
            &&& c.files_free <= c.files
            &&& entries <= c.files ==> c.files - c.files_free == entries
        }),
{
}

// ---------------------------------------------------------------------------
// Descriptors
// ---------------------------------------------------------------------------
/// A read of bytes in memory gives those from the offset on, as many as were
/// asked for and are there.
pub proof fn law_a_read_gives_the_bytes_from_its_offset(content: Seq<u8>, offset: u64, size: u32)
    ensures
        ({
            let (from, to) = memory_range(content.len(), offset, size);
            let got = content.subrange(from, to);
            &&& 0 <= from <= to <= content.len()
            &&& forall|i: int| 0 <= i < got.len() ==> #[trigger] got[i] == content[offset + i]
            &&& got.len() <= size
            &&& got.len() < size ==> offset + got.len() >= content.len()
            &&& offset <= content.len() ==> offset + got.len() <= content.len()
            &&& offset >= content.len() ==> got.len() == 0
        }),
{
}

/// Bytes after data was written at an offset: what lay outside stays, and a
/// gap reads as zeros.
pub open spec fn written(bytes: Seq<u8>, offset: nat, data: Seq<u8>) -> Seq<u8> {
    Seq::new(
        if bytes.len() > offset + data.len() {
            bytes.len()
        } else {
            offset + data.len()
        },
        |i: int|
            if offset <= i < offset + data.len() {
                data[i - offset]
            } else if i < bytes.len() {
                bytes[i]
            } else {
                0u8
            },
    )
}

/// Writing to a file that has no name any more leaves its inode with the size
/// that its bytes then have, and changes nothing else of any inode.
pub proof fn law_a_write_grows_the_file(
    s: FsView,
    ino: u64,
    row: OverlayView,
    bytes: Seq<u8>,
    offset: u64,
    data: Seq<u8>,
)
    requires
        s.table.records.contains_key(ino),
        s.table.records[ino].node == NodeView::Overlay(row),
        row.size == bytes.len(),
        data.len() > 0,
        offset + data.len() <= u64::MAX,
    ensures
        ({
            let t = after_write(s, ino, offset, data.len() as u64, None);
            &&& t.table.records.contains_key(ino)
            &&& t.table.records[ino].node matches NodeView::Overlay(now) && now.size == written(
                bytes,
                offset as nat,
                data,
            ).len() && now == (OverlayView { size: now.size, ..row })
            &&& t.table.records[ino].path == s.table.records[ino].path
            &&& forall|other: u64|
                other != ino && #[trigger] s.table.records.contains_key(other)
                    ==> t.table.records.contains_key(other) && t.table.records[other]
                    == s.table.records[other]
            &&& t.files == s.files
            &&& t.dirs == s.dirs
        }),
{
}

/// A write goes to what the descriptor was opened on, and only through a
/// descriptor that is writable; making that descriptor durable reaches what was
/// written; and the kernel keeps no pages of anything that can be written.
pub proof fn law_a_write_goes_to_what_was_opened(file: &OpenFile, sync: SyncPlan)
    requires
        call_ensures(plan_fsync, (Some(file),), sync),
    ensures
        file@ matches OpenFileView::Local { content_id, writable } ==> {
            &&& writable ==> write_plan(Some(file@)) == WritePlan::Local(content_id) && sync
                == SyncPlan::ContentThenJournal(content_id)
            &&& !writable ==> write_plan(Some(file@)) == WritePlan::Refuse(Errno::BadDescriptor)
        },
        file@ matches OpenFileView::Git { writable } ==> {
            &&& writable ==> write_plan(Some(file@)) == WritePlan::Real && sync == SyncPlan::Real
            &&& !writable ==> write_plan(Some(file@)) == WritePlan::Refuse(Errno::BadDescriptor)
        },
        file@ is Blob || file@ is Memory || file@ is Odb ==> write_plan(Some(file@))
            == WritePlan::Refuse(Errno::BadDescriptor),
        write_plan(None) == WritePlan::Refuse(Errno::BadDescriptor),
        file_flags(file@).keep_cache ==> write_plan(Some(file@)) is Refuse,
        file@ is Local || file@ is Git || file@ is Odb ==> !file_flags(file@).keep_cache,
        file@ is Blob || file@ is Memory ==> file_flags(file@).keep_cache,
{
}

/// A real file is created with the permissions that were asked for and that
/// the mask leaves, and it is executable exactly when one of those says so.
pub proof fn law_a_mask_takes_permissions_away(
    acc: AccessMode,
    truncating: bool,
    exclusive: bool,
    mode: u32,
    umask: u32,
    options: CreateOptions,
    executable: bool,
)
    requires
        call_ensures(create_options, (acc, truncating, exclusive, mode, umask), options),
        call_ensures(is_executable, (mode, umask), executable),
    ensures
        options.mode & umask == 0,
        options.mode & mode == options.mode,
        options.mode <= 0o7777,
        options.mode | (mode & 0o7777 & umask) == mode & 0o7777,
        executable <==> options.mode & 0o111 != 0,
        options.read <==> acc == AccessMode::ReadOnly || acc == AccessMode::ReadWrite,
        options.truncate == truncating,
        options.exclusive == exclusive,
{
    let m = mode & !umask & 0o7777;
    assert(m & umask == 0) by (bit_vector)
        requires
            m == mode & !umask & 0o7777,
    ;
    assert(m & mode == m && m <= 0o7777) by (bit_vector)
        requires
            m == mode & !umask & 0o7777,
    ;
    assert(m | (mode & 0o7777 & umask) == mode & 0o7777) by (bit_vector)
        requires
            m == mode & !umask & 0o7777,
    ;
    assert((mode & !umask & 0o111 != 0) == (m & 0o111 != 0)) by (bit_vector)
        requires
            m == mode & !umask & 0o7777,
    ;
}

/// What was found stands below the parent it was found in, whichever world it
/// is of, as long as it says nothing else itself.
pub proof fn law_what_was_found_stands_below_its_parent(
    p: RecordView,
    name: Seq<u8>,
    node: NodeView,
)
    requires
        node matches NodeView::Base(e) ==> e.path == joined(p.path, name),
        node matches NodeView::Overlay(row) ==> row.path == joined(p.path, name),
        is_component(name),
    ensures
        is_child(found_at(p, name, node), p.path, name),
{
    lemma_child(p.path, name);
}

/// After an entry came or went, the times of the directory that held it
/// advance where they are kept: on the disk by themselves, for the root apart,
/// and else in its row, which remembers the pinned commit's directory.
pub proof fn law_a_directory_is_touched_where_it_is_kept(
    p: &Record,
    own: Times,
    root: Option<(Timestamp, Timestamp)>,
    touch: Touch,
    times: Times,
)
    requires
        call_ensures(plan_touch, (p,), touch),
        call_ensures(reported_times, (p, own, root), times),
    ensures
        touch is Nothing <==> !merged(p@),
        touch is Root <==> merged(p@) && p@.path.len() == 0,
        touch matches Touch::Directory { base } ==> (p@.node is Base ==> diverged_from(
            p@,
            opt_facts(base),
        )),
        p@.path.len() > 0 || root is None ==> times == own,
        p@.path.len() == 0 && root is Some ==> times.mtime == (root->0).0 && times.ctime == (
        root->0).1 && times.atime == times.mtime,
{
}

} // verus!
