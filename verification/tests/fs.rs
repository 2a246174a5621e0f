use gfs::decide::{
    access, allocation, blob_path, check_name, check_occupied, check_vacant, create_options,
    found_path, is_executable, parent_base, plan_copy_up, plan_fallocate, plan_fsyncdir,
    plan_getattr, plan_link, plan_lookup, plan_make, plan_open, plan_readlink, plan_remove,
    plan_rename, plan_setattr, plan_touch, renamed_is_dir, reported_times, routes_to_git, seek, statfs,
    target_is_dir, AccessMode, AttrChange, AttrStep, CopyUp, LookupPlan, MakePlan, OpenPlan,
    ReadlinkPlan, RenamePlan, Route, SetattrPlan, TimeOrNow, Times, Touch, Whence,
};
use gfs::directory::{
    base_child_names, file_type, plan_opendir, projected_directory, resolve_path, shape, DirState,
    Fill, Opendir, Resolution, Shape,
};
use gfs::entry::{EntryKind, TreeEntryInfo};
use gfs::errno::{
    errno_of, errno_of_overlay, odb_read_errno, overlay_as_service_error, Condition, Errno,
    OverlayError,
};
use gfs::error::{ErrorCode, GfsError};
use gfs::fs::{
    memory_slice, plan_fsync, plan_write, DirStep, FsConfig, Gfs, OpenFile, SyncPlan, WritePlan,
    NEGATIVE_INO,
};
use gfs::inode::{Record, ROOT_INO};
use gfs::node::{
    base_facts, Content, FileType, GitMeta, Node, OdbNode, OverlayEntry, OverlayKind,
};
use gfs::object::{HashAlgorithm, ObjectId};
use gfs::path::BytePath;
use gfs::time::Timestamp;

fn oid(byte: u8) -> ObjectId {
    ObjectId::from_raw(HashAlgorithm::Sha1, &[byte; 20]).unwrap()
}

fn path(text: &str) -> BytePath {
    BytePath::new(text.as_bytes().to_vec())
}

fn entry(at: &str, kind: EntryKind) -> TreeEntryInfo {
    TreeEntryInfo {
        path: path(at),
        kind,
        mode: 0o100_644,
        oid: oid(1),
        size: 10,
        symlink_target: None,
        blob_ticket: None,
    }
}

fn base(at: &str) -> Node {
    Node::Base(entry(at, EntryKind::Regular))
}

fn row(at: &str, content: Content) -> OverlayEntry {
    OverlayEntry {
        path: path(at),
        ino: 99,
        kind: OverlayKind::Regular,
        content,
        size: 4,
        symlink_target: None,
        base: None,
        renamed_from: None,
    }
}

fn meta(kind: FileType) -> GitMeta {
    GitMeta {
        kind,
        size: 3,
        perm: 0o644,
        nlink: 1,
        mtime: Timestamp::from_secs(0),
        ctime: Timestamp::from_secs(0),
    }
}

fn record(ino: u64, at: &str, node: Node) -> Record {
    Record {
        ino,
        path: path(at),
        node,
        generation: 0,
        lookups: 1,
        opens: 0,
    }
}

fn root() -> Record {
    record(
        ROOT_INO,
        "",
        Node::Base(entry("", EntryKind::Directory)),
    )
}

fn git_dir(at: &str) -> Record {
    record(50, at, Node::Git(meta(FileType::Directory)))
}

fn projected(at: &str) -> Record {
    record(51, at, Node::Odb(OdbNode::Dir))
}

#[test]
fn a_negative_entry_is_signalled_by_inode_zero() {
    assert_eq!(NEGATIVE_INO, 0);
    assert!(FsConfig::default().negative_ttl > 0);
}

#[test]
fn a_gitlink_reports_as_a_directory() {
    assert_eq!(file_type(EntryKind::Gitlink), FileType::Directory);
    assert_eq!(
        file_type(EntryKind::Unsupported(0o120_755)),
        FileType::RegularFile
    );
}

#[test]
fn an_unmodelled_git_mode_yields_no_base_facts() {
    assert!(base_facts(&entry("x", EntryKind::Regular)).is_some());
    assert!(base_facts(&entry("x", EntryKind::Gitlink)).is_none());
    assert!(base_facts(&entry("x", EntryKind::Unsupported(0o120_755))).is_none());
}

#[test]
fn git_shadows_the_tree() {
    assert!(routes_to_git(&root(), b".git"));
    assert!(!routes_to_git(&root(), b"src"));
    assert!(matches!(plan_lookup(&root(), b".git"), LookupPlan::Real(r) if r.is_empty()));
    assert!(matches!(plan_lookup(&root(), b"src"), LookupPlan::Merged));
    assert!(
        matches!(plan_lookup(&git_dir(".git/gfs"), b"objects"), LookupPlan::Projected(r) if r.is_empty())
    );
    assert!(
        matches!(plan_lookup(&git_dir(".git"), b"HEAD"), LookupPlan::Real(r) if r == b"HEAD")
    );
}

#[test]
fn a_name_that_is_too_long_is_refused() {
    assert_eq!(check_name(&[b'a'; 255]), Ok(()));
    assert_eq!(check_name(&[b'a'; 256]), Err(Errno::NameTooLong));
}

#[test]
fn opening_is_decided_by_what_the_inode_is() {
    let open = |r: &Record, acc| plan_open(r, acc, false);
    let file = record(2, "f", base("f"));
    assert!(matches!(
        open(&file, AccessMode::ReadOnly),
        OpenPlan::Blob { .. }
    ));
    assert!(matches!(open(&file, AccessMode::ReadWrite), OpenPlan::CopyUp));
    assert!(matches!(
        plan_open(&file, AccessMode::ReadOnly, true),
        OpenPlan::CopyUp
    ));
    assert!(matches!(
        open(&root(), AccessMode::ReadOnly),
        OpenPlan::Refuse(Errno::IsDirectory)
    ));
    assert!(matches!(
        open(&projected(".git/gfs/objects"), AccessMode::WriteOnly),
        OpenPlan::Refuse(Errno::ReadOnly)
    ));
    let link = record(3, "l", Node::Base(entry("l", EntryKind::Symlink)));
    assert!(matches!(
        open(&link, AccessMode::ReadOnly),
        OpenPlan::Refuse(Errno::Loop)
    ));
    let odd = record(4, "o", Node::Base(entry("o", EntryKind::Unsupported(1))));
    assert!(matches!(
        open(&odd, AccessMode::ReadOnly),
        OpenPlan::Refuse(Errno::Io)
    ));
    let local = record(5, "w", Node::Overlay(Box::new(row("w", Content::Local(7)))));
    assert!(matches!(
        open(&local, AccessMode::ReadOnly),
        OpenPlan::Local { id: 7 }
    ));
    let real = record(6, ".git/HEAD", Node::Git(meta(FileType::RegularFile)));
    assert!(matches!(
        open(&real, AccessMode::WriteOnly),
        OpenPlan::Real { read: false, write: true, .. }
    ));
}

#[test]
fn truncating_fetches_nothing() {
    let file = record(2, "f", base("f"));
    assert!(matches!(plan_copy_up(&file, true), CopyUp::Empty { .. }));
    assert!(matches!(plan_copy_up(&file, false), CopyUp::Fetch { .. }));
    let local = record(5, "w", Node::Overlay(Box::new(row("w", Content::Local(7)))));
    assert!(matches!(plan_copy_up(&local, false), CopyUp::Ready(_)));
    assert!(matches!(plan_copy_up(&local, true), CopyUp::Truncate));
    assert!(matches!(
        plan_copy_up(&git_dir(".git"), false),
        CopyUp::Refuse(_)
    ));
}

#[test]
fn a_moved_row_reads_the_blob_under_its_old_name() {
    let mut moved = row("new", Content::Base(oid(3)));
    moved.renamed_from = Some(path("old"));
    let r = record(7, "new", Node::Overlay(Box::new(moved)));
    assert_eq!(blob_path(&r).as_bytes(), b"old");
    assert_eq!(blob_path(&record(2, "f", base("f"))).as_bytes(), b"f");
}

#[test]
fn the_projection_takes_no_changes() {
    let p = projected(".git/gfs/objects");
    assert!(matches!(
        plan_make(&p, b"x"),
        MakePlan::Refuse(Errno::ReadOnly)
    ));
    assert!(matches!(
        plan_remove(Some(&p), b"x"),
        MakePlan::Refuse(Errno::ReadOnly)
    ));
    assert!(matches!(
        plan_make(&git_dir(".git/gfs"), b"objects"),
        MakePlan::Refuse(Errno::ReadOnly)
    ));
    assert!(
        matches!(plan_make(&git_dir(".git"), b"x"), MakePlan::Real(r) if r == b"x")
    );
    assert!(matches!(plan_make(&root(), b"x"), MakePlan::Merged));
    assert!(matches!(
        plan_remove(None, b"x"),
        MakePlan::Refuse(Errno::Stale)
    ));
}

#[test]
fn a_rename_stays_on_its_side() {
    let r = root();
    let g = git_dir(".git");
    assert!(matches!(
        plan_rename(false, Some(&r), b"a", Some(&g), b"b"),
        RenamePlan::Refuse(Errno::CrossDevice)
    ));
    assert!(matches!(
        plan_rename(true, Some(&r), b"a", Some(&r), b"b"),
        RenamePlan::Refuse(Errno::Invalid)
    ));
    assert!(matches!(
        plan_rename(false, None, b"a", Some(&r), b"b"),
        RenamePlan::Refuse(Errno::Stale)
    ));
    match plan_rename(false, Some(&r), b"a", Some(&r), b"b") {
        RenamePlan::Merged { from, to } => {
            assert_eq!(from.as_bytes(), b"a");
            assert_eq!(to.as_bytes(), b"b");
        }
        other => panic!("{other:?}"),
    }
    match plan_rename(false, Some(&g), b"a", Some(&g), b"b") {
        RenamePlan::Real { from_rel, to_rel } => {
            assert_eq!((from_rel, to_rel), (b"a".to_vec(), b"b".to_vec()))
        }
        other => panic!("{other:?}"),
    }
    assert_eq!(renamed_is_dir(&None), Err(Errno::NoEntry));
    assert_eq!(renamed_is_dir(&Some(base("x"))), Ok(false));
    assert!(!target_is_dir(&None));
}

#[test]
fn links_exist_only_below_git() {
    let r = root();
    assert_eq!(
        plan_link(Some(&r), Some(&r), b"x"),
        Err(Errno::NotPermitted)
    );
    let source = record(6, ".git/a", Node::Git(meta(FileType::RegularFile)));
    assert_eq!(
        plan_link(Some(&source), Some(&git_dir(".git")), b"b"),
        Ok((b"a".to_vec(), b"b".to_vec()))
    );
}

fn change() -> AttrChange {
    AttrChange {
        mode: None,
        uid: None,
        gid: None,
        size: None,
        atime: None,
        mtime: None,
    }
}

#[test]
fn attributes_are_changed_in_order() {
    let file = record(2, "f", base("f"));
    let c = AttrChange {
        mode: Some(0o755),
        size: Some(0),
        mtime: Some(TimeOrNow::Now),
        ..change()
    };
    match plan_setattr(&file, &c) {
        SetattrPlan::Merged { steps, base } => {
            assert!(base.is_some());
            assert_eq!(
                steps,
                vec![
                    AttrStep::CopyUp { truncating: true },
                    AttrStep::Truncate(0),
                    AttrStep::SetExecutable(true),
                    AttrStep::SetTimes(None),
                ]
            );
        }
        other => panic!("{other:?}"),
    }
    // The root keeps its times apart.
    let touch = AttrChange {
        mtime: Some(TimeOrNow::Now),
        ..change()
    };
    assert!(matches!(
        plan_setattr(&root(), &touch),
        SetattrPlan::Merged { steps, .. } if steps == vec![AttrStep::TouchRoot(None)]
    ));
    // A projected pack may be freshened, and nothing else.
    let pack = record(
        8,
        ".git/gfs/objects/pack/p",
        Node::Odb(OdbNode::File {
            path: "pack/p".to_owned(),
            size: 1,
        }),
    );
    assert!(matches!(plan_setattr(&pack, &touch), SetattrPlan::Unchanged));
    assert!(matches!(
        plan_setattr(&pack, &change()),
        SetattrPlan::Refuse(Errno::ReadOnly)
    ));
}

#[test]
fn a_link_is_read_from_its_entry_or_its_blob() {
    let mut known = entry("l", EntryKind::Symlink);
    known.symlink_target = Some(b"t".to_vec());
    assert!(matches!(
        plan_readlink(&record(2, "l", Node::Base(known))),
        ReadlinkPlan::Known(t) if t == b"t"
    ));
    assert!(matches!(
        plan_readlink(&record(2, "l", Node::Base(entry("l", EntryKind::Symlink)))),
        ReadlinkPlan::Blob { size: 10, .. }
    ));
    assert!(matches!(
        plan_readlink(&record(2, "f", base("f"))),
        ReadlinkPlan::Refuse(Errno::Invalid)
    ));
}

#[test]
fn each_subtree_syncs_itself() {
    assert!(matches!(plan_fsyncdir(None), Route::Merged));
    assert!(
        matches!(plan_fsyncdir(Some(&git_dir(".git/refs"))), Route::Real(r) if r == b"refs")
    );
    assert!(matches!(
        plan_fsyncdir(Some(&projected(".git/gfs/objects"))),
        Route::Done
    ));
    assert!(matches!(plan_getattr(None), Route::Refuse(Errno::Stale)));
    assert!(matches!(plan_getattr(Some(&root())), Route::Merged));
    assert!(
        matches!(plan_getattr(Some(&git_dir(".git/refs"))), Route::Real(r) if r == b"refs")
    );
}

#[test]
fn only_plain_allocation_is_known() {
    assert!(matches!(
        plan_fallocate(1, Some(&root())),
        Route::Refuse(Errno::OperationUnsupported)
    ));
    assert!(matches!(
        plan_fallocate(0, None),
        Route::Refuse(Errno::Stale)
    ));
    assert_eq!(allocation(10, 5, 15), None);
    assert_eq!(allocation(10, 5, 14), Some(15));
    assert_eq!(allocation(u64::MAX, 5, 1), Some(u64::MAX));
}

#[test]
fn a_touched_parent_is_the_root_a_directory_or_nothing() {
    assert!(matches!(plan_touch(&root()), Touch::Root));
    assert!(matches!(plan_touch(&git_dir(".git")), Touch::Nothing));
    let dir = record(2, "d", Node::Base(entry("d", EntryKind::Directory)));
    assert!(matches!(plan_touch(&dir), Touch::Directory { base: Some(_) }));
    assert!(parent_base(&dir).is_some());
}

#[test]
fn the_only_hole_is_at_the_end() {
    let file = record(2, "f", base("f"));
    assert_eq!(seek(&file, 3, Whence::Data), Ok(3));
    assert_eq!(seek(&file, 3, Whence::Hole), Ok(10));
    assert_eq!(seek(&file, 10, Whence::Data), Err(Errno::NoSuchOffset));
    assert_eq!(seek(&file, -1, Whence::Data), Err(Errno::NoSuchOffset));
    assert_eq!(seek(&file, 0, Whence::Other), Err(Errno::Invalid));
}

#[test]
fn access_is_granted_by_the_permission_bits() {
    let file = record(2, "f", base("f"));
    assert_eq!(access(&file, 0o644, true, true, false), Ok(()));
    assert_eq!(access(&file, 0o644, false, false, true), Err(Errno::Access));
    assert_eq!(access(&file, 0o200, true, false, false), Err(Errno::Access));
    assert_eq!(
        access(&projected(".git/gfs/objects"), 0o755, false, true, false),
        Err(Errno::ReadOnly)
    );
}

#[test]
fn free_space_is_what_the_quota_leaves() {
    let c = statfs(40960, 4097, 3);
    assert_eq!((c.blocks, c.free), (10, 8));
    assert_eq!((c.files, c.files_free), (1 << 20, (1 << 20) - 3));
    assert_eq!(c.name_max, 255);
    assert_eq!(statfs(4096, 99999, u64::MAX).free, 0);
}

#[test]
fn a_created_file_takes_its_options_from_the_flags() {
    let o = create_options(AccessMode::WriteOnly, true, true, 0o7777, 0o022);
    assert!(!o.read && o.truncate && o.exclusive);
    assert_eq!(o.mode, 0o7755);
    assert!(is_executable(0o755, 0o022));
    assert!(!is_executable(0o111, 0o111));
}

#[test]
fn a_deleted_path_stays_deleted_and_remembers_its_base() {
    let mut hidden = row("f", Content::Nothing);
    hidden.base = base_facts(&entry("f", EntryKind::Regular));
    let r = resolve_path(
        Resolution::Absent,
        Some(hidden),
        Some(entry("f", EntryKind::Regular)),
    );
    assert!(r.node.is_none());
    assert!(r.base.is_some());
    assert_eq!(check_vacant(&r.node), Ok(()));
    assert_eq!(check_occupied(&r.node), Err(Errno::NoEntry));

    let seen = resolve_path(
        Resolution::Base,
        None,
        Some(entry("f", EntryKind::Regular)),
    );
    assert!(matches!(&seen.node, Some(Node::Base(_))));
    assert_eq!(check_vacant(&seen.node), Err(Errno::Exists));
    assert_eq!(check_occupied(&seen.node), Ok(()));
    assert_eq!(
        found_path(&root(), b"f", seen.node.as_ref().unwrap()).as_bytes(),
        b"f"
    );

    let shadow = resolve_path(
        Resolution::Overlay(Box::new(row("f", Content::Local(1)))),
        None,
        None,
    );
    assert!(matches!(shadow.node, Some(Node::Overlay(_))));
    assert!(shadow.base.is_none());
}

#[test]
fn a_masked_directory_has_no_base_names() {
    let entries = vec![entry("d/a", EntryKind::Regular)];
    assert_eq!(base_child_names(false, &entries), vec![b"a".to_vec()]);
    assert!(base_child_names(true, &entries).is_empty());
}

fn unlisted(at: &str) -> DirState {
    DirState {
        path: path(at),
        children: Vec::new(),
        complete: false,
        git_pending: None,
    }
}

#[test]
fn a_listing_is_the_base_without_the_deleted_and_with_the_added() {
    let mut d = unlisted("d");
    assert!(matches!(d.needs(), Fill::MergedListing));
    d.fill_merged(
        &vec![
            entry("d/a", EntryKind::Regular),
            entry("d/b", EntryKind::Regular),
            entry("d/c", EntryKind::Regular),
        ],
        &vec![
            Resolution::Base,
            Resolution::Absent,
            Resolution::Overlay(Box::new(row("d/c", Content::Local(1)))),
        ],
        &vec![row("d/z", Content::Local(2))],
    );
    let names: Vec<Vec<u8>> = d.children.iter().map(|c| c.name()).collect();
    assert_eq!(names, vec![b"a".to_vec(), b"c".to_vec(), b"z".to_vec()]);
    assert!(matches!(d.needs(), Fill::Nothing));
}

#[test]
fn the_root_lists_git_first() {
    match plan_opendir(&root()) {
        Opendir::Open(d) => {
            assert_eq!(d.children[0].name(), b".git");
            assert_eq!(d.children[0].file_type(), FileType::Directory);
        }
        other => panic!("{other:?}"),
    }
    let link = record(3, "m", Node::Base(entry("m", EntryKind::Gitlink)));
    assert!(matches!(
        plan_opendir(&link),
        Opendir::Open(d) if d.complete && d.children.is_empty()
    ));
    assert!(matches!(
        plan_opendir(&record(2, "f", base("f"))),
        Opendir::Refuse(Errno::NotDirectory)
    ));
    assert!(matches!(
        plan_opendir(&projected(".git/gfs/objects/pack")),
        Opendir::Projection(r) if r == b"pack"
    ));
    let p = projected_directory(&path(".git/gfs/objects"), vec![(b"pack".to_vec(), OdbNode::Dir)]);
    assert!(p.complete);
    assert_eq!(p.children.len(), 1);
}

#[test]
fn the_projection_appears_below_the_state_directory() {
    match plan_opendir(&git_dir(".git/gfs")) {
        Opendir::Open(mut d) => {
            assert!(matches!(d.needs(), Fill::RealListing(r) if r == b"gfs"));
            d.fill_git(
                vec![(b"journal".to_vec(), meta(FileType::RegularFile))],
                true,
            );
            let names: Vec<Vec<u8>> = d.children.iter().map(|c| c.name()).collect();
            assert_eq!(names, vec![b"journal".to_vec(), b"objects".to_vec()]);
        }
        other => panic!("{other:?}"),
    }
}

fn gfs() -> Gfs {
    Gfs::new(
        entry("", EntryKind::Directory),
        &[],
        FsConfig::default(),
    )
}

#[test]
fn handles_are_never_used_twice() {
    let mut fs = gfs();
    let (r, ttl) = fs.found(path("f"), base("f"), false);
    assert_eq!(ttl, FsConfig::default().ttl);
    let (a, flags) = fs.open_file(r.ino, OpenFile::Memory);
    assert!(flags.keep_cache && flags.no_flush);
    fs.release(r.ino, a);
    let (b, _) = fs.open_file(r.ino, OpenFile::Memory);
    assert_ne!(a, b);
    assert_eq!(fs.open_handles(), 1);
    assert_eq!(fs.stats().opens, 2);
    assert_eq!(fs.stats().lookups, 1);
    assert_eq!(fs.inode_counts(), (2, 2));
}

#[test]
fn an_absence_below_the_object_store_is_remembered_longer() {
    let mut fs = gfs();
    let c = FsConfig::default();
    assert_eq!(fs.not_found(&root(), false), c.negative_ttl);
    assert_eq!(fs.not_found(&git_dir(".git/refs"), true), c.negative_ttl);
    assert_eq!(
        fs.not_found(&git_dir(".git/objects/ab"), true),
        c.object_negative_ttl
    );
    assert_eq!(fs.stats().negative_lookups, 3);
}

#[test]
fn an_entry_the_kernel_did_not_take_is_given_back() {
    let mut fs = gfs();
    let mut d = unlisted("");
    d.fill_merged(
        &vec![entry("a", EntryKind::Regular)],
        &vec![Resolution::Base],
        &Vec::new(),
    );
    let (fh, _) = fs.open_directory(ROOT_INO, d);
    assert!(matches!(fs.list(fh, ROOT_INO, 0, true), DirStep::Entry(e) if e.name == b"."));
    assert!(matches!(fs.list(fh, ROOT_INO, 1, true), DirStep::Entry(e) if e.name == b".."));
    let ino = match fs.list(fh, ROOT_INO, 2, true) {
        DirStep::Entry(e) => {
            assert_eq!(e.name, b"a");
            assert_eq!(e.next, 3);
            e.ino
        }
        other => panic!("{other:?}"),
    };
    assert!(fs.record(ino).is_some());
    fs.refused(ino);
    assert!(fs.record(ino).is_none());
    // A plain listing takes no reference at all.
    assert!(matches!(fs.list(fh, ROOT_INO, 2, false), DirStep::Entry(e) if e.ino == ino));
    assert!(fs.record(ino).is_none());
    assert!(matches!(fs.list(fh, ROOT_INO, 3, true), DirStep::End));
    assert!(matches!(
        fs.list(fh + 1, ROOT_INO, 2, true),
        DirStep::BadDescriptor
    ));
    fs.release_directory(ROOT_INO, fh);
    assert_eq!(fs.open_handles(), 0);
}

#[test]
fn publishing_a_row_takes_no_reference() {
    let mut fs = gfs();
    let r = fs.republish(&path("w"), row("w", Content::Local(1)));
    assert!(fs.record(r.ino).is_none());
    let (kept, _) = fs.found(path("w"), Node::Overlay(Box::new(row("w", Content::Local(1)))), false);
    fs.republish(&path("w"), row("w", Content::Local(2)));
    assert_eq!(fs.record(kept.ino).unwrap().lookups, 1);
}

#[test]
fn a_write_to_an_unlinked_file_grows_its_record() {
    let mut fs = gfs();
    let (r, _) = fs.found(path("w"), Node::Overlay(Box::new(row("w", Content::Local(1)))), false);
    fs.wrote(r.ino, 10, 5, None);
    assert_eq!(fs.record(r.ino).unwrap().node.size(), 15);
    fs.wrote(r.ino, 0, 1, None);
    assert_eq!(fs.record(r.ino).unwrap().node.size(), 15);
}

#[test]
fn a_descriptor_decides_what_is_written_and_synced() {
    let local = OpenFile::Local {
        content_id: 4,
        writable: true,
    };
    let readonly = OpenFile::Local {
        content_id: 4,
        writable: false,
    };
    assert_eq!(plan_write(Some(&local)), WritePlan::Local(4));
    assert_eq!(
        plan_write(Some(&readonly)),
        WritePlan::Refuse(Errno::BadDescriptor)
    );
    assert_eq!(
        plan_write(Some(&OpenFile::Git { writable: true })),
        WritePlan::Real
    );
    assert_eq!(plan_write(None), WritePlan::Refuse(Errno::BadDescriptor));
    assert_eq!(plan_fsync(Some(&local)), SyncPlan::ContentThenJournal(4));
    assert_eq!(plan_fsync(Some(&OpenFile::Memory)), SyncPlan::Nothing);
    assert_eq!(plan_fsync(None), SyncPlan::Journal);
}

#[test]
fn a_read_in_memory_stops_at_the_end() {
    assert_eq!(memory_slice(10, 3, 4), (3, 7));
    assert_eq!(memory_slice(10, 8, 4), (8, 10));
    assert_eq!(memory_slice(10, 99, 4), (10, 10));
}

#[test]
fn the_root_reports_the_times_the_overlay_keeps() {
    let at = |s: i64| Timestamp::from_secs(s);
    let own = Times {
        atime: at(1),
        mtime: at(1),
        ctime: at(1),
    };
    let kept = Some((at(5), at(6)));
    assert_eq!(
        reported_times(&root(), own, kept),
        Times {
            atime: at(5),
            mtime: at(5),
            ctime: at(6)
        }
    );
    assert_eq!(reported_times(&root(), own, None), own);
    assert_eq!(reported_times(&record(2, "f", base("f")), own, kept), own);
}

#[test]
fn an_overlay_failure_has_a_service_code() {
    let e = overlay_as_service_error(OverlayError {
        condition: Condition::QuotaExceeded,
        message: "full".to_owned(),
    });
    assert_eq!(e.code, ErrorCode::ResourceLimit);
    let full = OverlayError {
        condition: Condition::NotEmpty,
        message: String::new(),
    };
    assert_eq!(errno_of_overlay(&full), Errno::NotEmpty);
    assert_eq!(errno_of(&GfsError::not_found("x")), Errno::NoEntry);
    assert_eq!(odb_read_errno(ErrorCode::FailedPrecondition), Errno::Stale);
    assert_eq!(odb_read_errno(ErrorCode::NotFound), Errno::Io);
}

#[test]
fn each_question_to_the_server_is_counted() {
    let mut fs = gfs();
    fs.note_metadata_request();
    fs.note_directory_page();
    fs.note_directory_page();
    fs.note_listing_hit();
    let stats = fs.stats();
    assert_eq!(stats.metadata_requests, 1);
    assert_eq!(stats.directory_pages, 2);
    assert_eq!(stats.listing_hits, 1);
    assert_eq!(stats.lookups, 0);
}

#[test]
fn a_node_reports_the_bits_a_tree_records() {
    let of = |kind: EntryKind| shape(&Node::Base(entry("x", kind)));
    let said = |kind: FileType, perm: u16, links: u32| Shape { kind, perm, links };
    assert_eq!(of(EntryKind::Regular), said(FileType::RegularFile, 0o644, 1));
    assert_eq!(of(EntryKind::Executable), said(FileType::RegularFile, 0o755, 1));
    assert_eq!(of(EntryKind::Symlink), said(FileType::Symlink, 0o777, 1));
    assert_eq!(of(EntryKind::Directory), said(FileType::Directory, 0o755, 2));
    assert_eq!(of(EntryKind::Gitlink), said(FileType::Directory, 0o755, 2));
    assert_eq!(
        shape(&Node::Odb(OdbNode::Dir)),
        said(FileType::Directory, 0o555, 2)
    );
    assert_eq!(
        shape(&Node::Overlay(Box::new(row("y", Content::Local(1))))),
        said(FileType::RegularFile, 0o644, 1)
    );
}

#[test]
fn a_threshold_of_zero_turns_prefetching_off() {
    let fs = gfs();
    let c = FsConfig::default();
    let limits = fs.prefetch_limits();
    assert_eq!(limits.tree_max_entries, c.tree_prefetch_max_entries);
    assert_eq!(limits.content_max_bytes, c.read_prefetch_max_bytes);
    assert_eq!(limits.budget_reserve_percent, c.prefetch_budget_reserve_percent);
    assert_eq!(fs.read_threshold(), Some(c.read_prefetch_threshold));
    assert!(fs.recognizes_walks());
    let off = Gfs::new(
        entry("", EntryKind::Directory),
        &[],
        FsConfig {
            walk_prefetch_threshold: 0,
            read_prefetch_threshold: 0,
            ..FsConfig::default()
        },
    );
    assert_eq!(off.read_threshold(), None);
    assert!(!off.recognizes_walks());
}
