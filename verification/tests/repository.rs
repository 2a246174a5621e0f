use gfs::entry::{DIRECTORY, EXECUTABLE, GITLINK, REGULAR, SYMLINK, EntryKind};
use gfs::entry::root_entry;
use gfs::error::{ErrorCode, GfsError};
use gfs::limits;
use gfs::object::{HashAlgorithm, ObjectId};
use gfs::path::BytePath;
use gfs::repository::{
    abbreviation_error, blob_beside, blob_size, check_blob_size, create_lease_anchor,
    delete_lease_anchor, descend, diff_commits, entry_info, entry_needs, git_mode, is_reserved_ref,
    is_visible, list_directory, not_a_commit, not_found, page, page_size, permits, read_blob,
    ref_error, reserved_refs, resolve, resolve_expression, run_error, signature_beside, to_filemode,
    to_signature, touches, update_work_ref, visible_refs, walk_paths_collect, walk_start, work_ref_error,
    work_ref_updated,
    write_tree, AnchorPlan, CommitSignature, DecodedEntry, DeltaSide, Descent, EntryNeeds,
    FileMode, GitFailure, Libgit2Repository, ListTarget, LogStep, LogWindow, RefState,
    ResolvedRevision, RunFailure, TreeChange, TreeChangeKind, TreeDelta, TreeStep, TreeWalk,
    WalkOf, WorkRefPlan,
};
use gfs::time::Timestamp;

fn oid(byte: u8) -> ObjectId {
    ObjectId::from_raw(HashAlgorithm::Sha1, &[byte; 20]).unwrap()
}

fn path(text: &str) -> BytePath {
    BytePath::new(text.as_bytes().to_vec())
}

fn decoded(name: &str, mode: u32, byte: u8) -> DecodedEntry {
    DecodedEntry {
        name: name.as_bytes().to_vec(),
        mode,
        oid: oid(byte),
    }
}

/// The root of a small tree: a file, a link, a script, two directories.
fn root_tree() -> Vec<DecodedEntry> {
    vec![
        decoded("README.md", REGULAR, 1),
        decoded("rel-link", SYMLINK, 2),
        decoded("script.sh", EXECUTABLE, 3),
        decoded("src", DIRECTORY, 0x51),
        decoded("vendor", DIRECTORY, 0x52),
    ]
}

fn tree(oid: &ObjectId) -> Vec<DecodedEntry> {
    match oid.as_bytes()[0] {
        0x50 => root_tree(),
        0x51 => vec![decoded("main.rs", REGULAR, 4)],
        0x52 => vec![decoded("submodule", GITLINK, 5)],
        other => panic!("no tree {other}"),
    }
}

/// Look a path up from the root, reading each tree on the way.
fn lookup(text: &str) -> Option<DecodedEntry> {
    let components = path(text).components();
    let mut at = oid(0x50);
    let mut depth = 0;
    loop {
        match descend(&components, depth, &tree(&at)) {
            Descent::Absent => return None,
            Descent::Found(e) => return Some(e),
            Descent::Into(next) => at = next,
        }
        depth += 1;
    }
}

fn walk(of: WalkOf) -> Vec<(Vec<u8>, u32)> {
    let mut walk = TreeWalk::new(of, oid(0x50), BytePath::root());
    let mut out = Vec::new();
    while let Some((at, prefix)) = walk.next() {
        for v in walk.accept(&prefix, &tree(&at)) {
            out.push((v.path.as_bytes().to_vec(), v.mode));
        }
    }
    out
}

#[test]
fn an_abbreviation_resolves_and_an_ambiguous_one_is_reported_not_guessed() {
    let e = abbreviation_error(GitFailure::Ambiguous, "");
    assert_eq!(e.code, ErrorCode::InvalidArgument);
    assert!(e.message.contains("ambiguous"));
    assert_eq!(
        abbreviation_error(GitFailure::NotFound, "").code,
        ErrorCode::NotFound
    );
    assert_eq!(
        abbreviation_error(GitFailure::Other, "odd").message,
        "cannot resolve abbreviation: odd"
    );
}

#[test]
fn a_tag_that_peels_to_a_tree_is_rejected_with_a_typed_error() {
    let err = not_a_commit(Some("tree".to_owned()));
    assert_eq!(err.code, ErrorCode::InvalidArgument);
    assert!(
        err.message.contains("tree"),
        "the error must name what it found: {}",
        err.message
    );
    assert_eq!(
        not_a_commit(None).message,
        "revision resolves to a object of unknown type rather than a commit"
    );
}

#[test]
fn a_missing_ref_is_not_found_rather_than_an_internal_error() {
    assert_eq!(
        ref_error(GitFailure::NotFound, "").code,
        ErrorCode::NotFound
    );
    assert_eq!(
        ref_error(GitFailure::Other, "x").message,
        "cannot resolve ref: x"
    );
}

#[test]
fn resolution_refuses_the_reserved_namespace_even_when_the_ref_exists() {
    let anchor = "refs/gfs/mounts/m-test";
    assert_eq!(
        resolve(anchor, None).unwrap_err().code,
        ErrorCode::ReservedNamespace
    );
    assert_eq!(
        resolve("gfs/mounts/m-test", Some(anchor.to_owned()))
            .unwrap_err()
            .code,
        ErrorCode::ReservedNamespace
    );
    assert_eq!(
        resolve("main", Some("refs/heads/main".to_owned())).unwrap(),
        Some("refs/heads/main".to_owned())
    );

    // And the anchor is absent from ref enumeration.
    let names = vec![
        "refs/tags/v1".to_owned(),
        anchor.to_owned(),
        "refs/heads/main".to_owned(),
    ];
    assert_eq!(visible_refs(&names), vec![2, 0]);
    assert_eq!(reserved_refs(&names), vec![1]);
}

#[test]
fn entry_lookup_matches_git_ls_tree_for_every_mode() {
    let script = lookup("script.sh").unwrap();
    assert_eq!(entry_needs(script.mode), EntryNeeds::Size);
    let info = entry_info(path("script.sh"), &script, 12, None);
    assert_eq!(info.kind, EntryKind::Executable);
    assert_eq!(info.size, 12);

    let link = lookup("rel-link").unwrap();
    assert_eq!(entry_needs(link.mode), EntryNeeds::Target);
    let info = entry_info(path("rel-link"), &link, 0, Some(b"plain.txt".to_vec()));
    assert_eq!(info.kind, EntryKind::Symlink);
    assert_eq!(info.symlink_target.as_deref(), Some(&b"plain.txt"[..]));
    assert_eq!(info.size, 9);

    let dir = lookup("src").unwrap();
    assert_eq!(entry_needs(dir.mode), EntryNeeds::Nothing);
    assert_eq!(entry_info(path("src"), &dir, 7, None).size, 0);
}

#[test]
fn a_gitlink_is_an_empty_readonly_directory_rather_than_an_error() {
    let entry = lookup("vendor/submodule").unwrap();
    assert_eq!(EntryKind::from_mode(entry.mode), EntryKind::Gitlink);
    assert_eq!(entry.mode, GITLINK);

    // Listing it yields an empty page, not an error.
    assert!(matches!(
        list_directory(Some(entry)).unwrap(),
        ListTarget::Empty
    ));

    // And a path *inside* a gitlink is absent rather than an error.
    assert!(lookup("vendor/submodule/anything").is_none());
}

#[test]
fn deep_paths_traverse_every_component() {
    let e = lookup("src/main.rs").unwrap();
    assert_eq!(e.mode, REGULAR);
    assert!(e.oid.same(&oid(4)));
    assert!(lookup("src/absent.rs").is_none());
}

#[test]
fn a_path_whose_parent_is_a_file_is_absent_rather_than_an_error() {
    assert!(lookup("README.md/nested").is_none());
}

#[test]
fn the_root_is_reported_as_a_directory_whose_oid_is_the_commit_tree() {
    let root = root_entry(oid(0x50));
    assert_eq!(root.kind, EntryKind::Directory);
    assert!(root.oid.same(&oid(0x50)));
}

/// A directory of more than five thousand entries, with a file and a directory
/// whose names stand the other way round in Git's order.
fn many() -> Vec<DecodedEntry> {
    let mut entries: Vec<DecodedEntry> = (0..5200)
        .map(|n| decoded(&format!("file-{n:05}"), REGULAR, 1))
        .collect();
    entries.push(decoded("pager.h", REGULAR, 2));
    entries.push(decoded("pager", DIRECTORY, 3));
    entries
}

#[test]
fn paging_a_large_directory_returns_every_entry_exactly_once() {
    // A page boundary between `pager.h` and `pager/` is where paging on bare
    // names would lose one of them.
    for limit in [100, 5201, 1, 7] {
        let tree = many();
        let expected = tree.len();
        assert!(expected > 5000);

        let mut seen: Vec<Vec<u8>> = Vec::new();
        let mut token: Option<Vec<u8>> = None;
        let mut pages = 0;
        loop {
            let found = page(&tree, token, limit);
            pages += 1;
            assert!(pages <= expected, "pagination did not terminate");
            for e in &tree[found.start..found.end] {
                seen.push(e.name.clone());
            }
            match found.next {
                None => break,
                Some(t) => token = Some(t),
            }
        }
        assert_eq!(seen.len(), expected, "pagination lost or duplicated entries");
        let unique: std::collections::BTreeSet<&Vec<u8>> = seen.iter().collect();
        assert_eq!(unique.len(), seen.len(), "pagination returned a duplicate");
        assert!(seen.iter().any(|p| p == b"pager.h"));
        assert!(seen.iter().any(|p| p == b"pager"));
    }
}

#[test]
fn a_page_starts_behind_its_token_and_names_the_next() {
    let tree = root_tree();
    let first = page(&tree, None, 2);
    assert_eq!((first.start, first.end), (0, 2));
    assert_eq!(first.next.as_deref(), Some(&b"rel-link"[..]));
    let next = page(&tree, first.next, 2);
    assert_eq!((next.start, next.end), (2, 4));
    // A directory is told from a file of its name by the slash.
    assert_eq!(next.next.as_deref(), Some(&b"src/"[..]));
    let last = page(&tree, next.next, 2);
    assert_eq!((last.start, last.end), (4, 5));
    assert_eq!(last.next, None);
    let behind = page(&tree, Some(b"zzz".to_vec()), 2);
    assert_eq!((behind.start, behind.end), (5, 5));
}

#[test]
fn a_page_size_above_the_limit_is_clamped_rather_than_honoured() {
    let clamped = page(&many(), None, usize::MAX);
    assert!(clamped.end - clamped.start <= limits::MAX_DIRECTORY_PAGE_SIZE as usize);
    assert_eq!(
        page_size(usize::MAX),
        limits::MAX_DIRECTORY_PAGE_SIZE as usize
    );
    assert_eq!(page_size(0), 1);
    assert_eq!(page_size(100), 100);
}

#[test]
fn listing_a_file_is_invalid_and_listing_a_missing_path_is_not_found() {
    assert_eq!(
        list_directory(lookup("README.md")).unwrap_err().code,
        ErrorCode::InvalidArgument
    );
    assert_eq!(
        list_directory(lookup("no/such/dir")).unwrap_err().code,
        ErrorCode::NotFound
    );
    assert!(matches!(
        list_directory(lookup("src")).unwrap(),
        ListTarget::Tree(t) if t.same(&oid(0x51))
    ));
}

#[test]
fn only_a_blob_has_a_blob_size() {
    assert_eq!(blob_size(true, 12 * 1024 * 1024).unwrap(), 12 * 1024 * 1024);
    assert_eq!(
        blob_size(false, 1).unwrap_err().message,
        "object is not a blob"
    );
}

#[test]
fn reading_a_blob_verifies_its_object_id() {
    // The name `git hash-object` gives "# basic\n".
    let name = gfs::cache::hash_blob(HashAlgorithm::Sha1, b"# basic\n").unwrap();
    let bytes = read_blob(&name, b"# basic\n".to_vec()).unwrap();
    assert_eq!(bytes, b"# basic\n");

    let e = read_blob(&oid(0x50), b"# basic\n".to_vec()).unwrap_err();
    assert_eq!(e.code, ErrorCode::Internal);
    assert!(e.message.contains("corrupt"));
    assert_eq!(
        blob_beside(&oid(1), Err("no memory".to_owned()), Vec::new())
            .unwrap_err()
            .message,
        "cannot hash blob for verification: no memory"
    );
}

#[test]
fn an_oid_from_the_wrong_algorithm_is_refused_before_a_lookup() {
    let repo = Libgit2Repository::open("/srv/basic.git".to_owned(), Ok(HashAlgorithm::Sha1), 2, 1 << 20).unwrap();
    let sha256 = ObjectId::from_raw(HashAlgorithm::Sha256, &[0xab; 32]).unwrap();
    let err = repo.git_oid(&sha256).unwrap_err();
    assert_eq!(err.code, ErrorCode::InvalidArgument);
    assert!(err.message.contains("sha256"), "{}", err.message);
    assert_eq!(repo.git_oid(&oid(1)).unwrap(), vec![1u8; 20]);
    assert_eq!(repo.path(), "/srv/basic.git");
    assert_eq!(repo.limits(), (2, 1 << 20));
}

#[test]
fn an_unsupported_format_is_refused_before_anything_is_opened() {
    let verdict = GfsError::new(ErrorCode::UnsupportedRepositoryFormat, "reftable refs");
    let err = Libgit2Repository::open("/nowhere".to_owned(), Err(verdict), 2, 1).unwrap_err();
    assert_eq!(err.code, ErrorCode::UnsupportedRepositoryFormat);
    assert_eq!(err.message, "reftable refs");
}

#[test]
fn a_digest_libgit2_cannot_hold_is_refused() {
    let repo = Libgit2Repository::open("/srv/wide.git".to_owned(), Ok(HashAlgorithm::Sha256), 2, 1 << 20).unwrap();
    let id = ObjectId::from_raw(HashAlgorithm::Sha256, &[0xab; 32]).unwrap();
    let err = repo.git_oid(&id).unwrap_err();
    assert_eq!(err.code, ErrorCode::InvalidArgument);
    assert_eq!(err.message, "raw byte array must be 20 bytes");
}

#[test]
fn a_batch_reports_per_path_results_and_one_bad_path_does_not_fail_the_rest() {
    let results: Vec<Option<DecodedEntry>> = ["README.md", "no/such/file", "src/main.rs"]
        .iter()
        .map(|p| lookup(p))
        .collect();
    assert_eq!(results.len(), 3);
    assert!(results[0].is_some());
    assert!(results[1].is_none());
    assert!(results[2].is_some());
}

#[test]
fn a_lease_anchor_outside_the_reserved_namespace_is_refused() {
    for bad in ["refs/heads/sneaky", "refs/tags/v9", "refs/mounts/x"] {
        assert_eq!(
            create_lease_anchor(bad, &oid(1), &RefState::Missing)
                .unwrap_err()
                .code,
            ErrorCode::InvalidArgument,
            "{bad} must be refused as a lease anchor"
        );
    }
}

#[test]
fn creating_an_anchor_is_idempotent_for_the_same_commit_and_conflicts_otherwise() {
    let anchor = "refs/gfs/mounts/m-1";
    let (main, older) = (oid(1), oid(2));
    assert_eq!(
        create_lease_anchor(anchor, &main, &RefState::Missing).unwrap(),
        AnchorPlan::Create
    );
    assert_eq!(
        create_lease_anchor(anchor, &main, &RefState::At(Some(oid(1)))).unwrap(),
        AnchorPlan::Done
    );
    assert_eq!(
        create_lease_anchor(anchor, &older, &RefState::At(Some(oid(1))))
            .unwrap_err()
            .code,
        ErrorCode::Conflict
    );
    assert_eq!(
        create_lease_anchor(anchor, &main, &RefState::At(None))
            .unwrap_err()
            .code,
        ErrorCode::Conflict
    );

    // Deletion is idempotent too.
    assert!(delete_lease_anchor(anchor, true).unwrap());
    assert!(!delete_lease_anchor(anchor, false).unwrap());
    assert!(delete_lease_anchor("refs/heads/main", true).is_err());
}

#[test]
fn a_missing_object_is_told_from_a_broken_one() {
    let e = not_found(GitFailure::NotFound, "commit", "");
    assert_eq!(e.code, ErrorCode::NotFound);
    assert_eq!(e.message, "no such commit");
    assert_eq!(
        not_found(GitFailure::Other, "commit", "bad pack").message,
        "reading commit failed: bad pack"
    );
}

#[test]
fn visibility_tracks_reachability_from_visible_refs_only() {
    let tips = vec![oid(1), oid(2)];
    // A tip is visible, and so is its ancestor.
    assert!(is_visible(&oid(2), &tips, &vec![false, false]));
    assert!(is_visible(&oid(3), &tips, &vec![false, true]));
    assert!(!is_visible(&oid(3), &tips, &vec![false, false]));
    // A lease anchor is no visible ref.
    assert!(is_reserved_ref("refs/gfs/mounts/m-vis"));
    assert!(!is_reserved_ref("refs/heads/gfs"));
}

/// Walk a history of `n` revisions.
fn log(n: usize, skip: usize, limit: usize) -> (Vec<usize>, bool) {
    let mut window = LogWindow::new(skip, limit);
    let mut taken = Vec::new();
    for revision in 0..n {
        match window.step() {
            LogStep::Skip => {}
            LogStep::Take => taken.push(revision),
            LogStep::Stop => return (taken, true),
        }
    }
    (taken, false)
}

#[test]
fn a_log_walks_ancestry_newest_first_and_pages_without_gaps() {
    let (all, has_more) = log(3, 0, 100);
    assert!(!has_more, "the whole history fits in one page of 100");
    assert_eq!(all, vec![0, 1, 2]);

    let (first, more) = log(3, 0, 1);
    assert_eq!(first.len(), 1);
    assert!(more, "one commit of a multi-commit history leaves more");
    let (second, _) = log(3, 1, 1);
    assert_eq!(second[0], all[1]);
}

#[test]
fn a_log_limit_equal_to_the_history_does_not_claim_more() {
    let (all, _) = log(3, 0, 100);
    let (exact, has_more) = log(3, 0, all.len());
    assert_eq!(exact.len(), all.len());
    assert!(
        !has_more,
        "a page that covered the history must not claim more"
    );
}

#[test]
fn a_path_walk_reports_the_entries_the_searchable_walk_drops() {
    let searchable: Vec<Vec<u8>> = walk(WalkOf::Files).into_iter().map(|(p, _)| p).collect();
    let named = walk(WalkOf::Paths);
    let named_paths: Vec<Vec<u8>> = named.iter().map(|(p, _)| p.clone()).collect();
    assert!(named_paths.iter().any(|p| p == b"rel-link"));
    assert!(!searchable.iter().any(|p| p == b"rel-link"));
    assert!(
        named_paths.iter().any(|p| p == b"vendor/submodule"),
        "walk_paths lost the gitlink"
    );
    // Directories are recursed into, never emitted.
    assert!(named.iter().all(|(_, mode)| *mode != DIRECTORY));
    // And it is a superset of the searchable corpus, not a different one.
    for p in &searchable {
        assert!(named_paths.contains(p));
    }
    assert_eq!(
        searchable,
        vec![
            b"README.md".to_vec(),
            b"script.sh".to_vec(),
            b"src/main.rs".to_vec()
        ]
    );
}

#[test]
fn a_path_walk_of_a_missing_directory_is_an_error_not_an_empty_result() {
    assert_eq!(
        walk_start(lookup("no/such/dir")).unwrap_err().code,
        ErrorCode::NotFound
    );
    assert_eq!(
        walk_start(lookup("vendor/submodule")).unwrap_err().code,
        ErrorCode::InvalidArgument
    );
    assert!(walk_start(lookup("src")).unwrap().same(&oid(0x51)));
    // Collecting paths to remove is another matter.
    assert!(walk_paths_collect(Err(GfsError::not_found("no such directory")))
        .unwrap()
        .is_empty());
    assert!(walk_paths_collect(Err(GfsError::internal("broken"))).is_err());
    assert_eq!(walk_paths_collect(Ok(vec![path("a")])).unwrap().len(), 1);
}

fn sig(name: &str) -> CommitSignature {
    CommitSignature {
        name: name.to_owned(),
        email: "test@example.invalid".to_owned(),
        when_secs: 1_700_000_000,
        offset_minutes: 0,
    }
}

#[test]
fn an_identity_is_recorded_as_git_records_it() {
    let s = to_signature(&sig(" Test ")).unwrap();
    assert_eq!(s.name, b"Test");
    assert_eq!(s.email, b"test@example.invalid");
    assert_eq!(s.time, Timestamp::from_secs(1_700_000_000));
    let e = to_signature(&sig("<Test>"));
    assert!(e.is_err() || e.unwrap().name == b"Test");
    assert!(to_signature(&sig("")).is_err());
    assert_eq!(
        signature_beside(Err("empty".to_owned())).unwrap_err().message,
        "not a usable Git identity: empty"
    );
}

#[test]
fn each_change_of_a_tree_becomes_a_step() {
    let steps = write_tree(&vec![
        TreeChange {
            path: path("added.txt"),
            kind: TreeChangeKind::Upsert {
                mode: REGULAR,
                content: b"new\n".to_vec(),
            },
        },
        TreeChange {
            path: path("README.md"),
            kind: TreeChangeKind::Delete,
        },
    ])
    .unwrap();
    assert_eq!(steps.len(), 2);
    assert!(matches!(
        &steps[0],
        TreeStep::Upsert { path, mode: FileMode::Blob } if path == "added.txt"
    ));
    assert!(matches!(&steps[1], TreeStep::Remove { path } if path == "README.md"));
}

#[test]
fn a_path_that_is_no_text_is_refused_by_name() {
    let e = write_tree(&vec![TreeChange {
        path: BytePath::new(vec![b'a', 0xff]),
        kind: TreeChangeKind::Delete,
    }])
    .unwrap_err();
    assert_eq!(e.code, ErrorCode::InvalidArgument);
    assert_eq!(
        e.message,
        "cannot commit the non-UTF-8 path \"a\u{fffd}\"; this is a known limitation"
    );
}

#[test]
fn a_ref_outside_the_reserved_namespace_is_refused() {
    let err = update_work_ref("refs/heads/sneaky", None, false).unwrap_err();
    let text = err.to_text();
    assert!(text.contains("reserved namespace"), "{text}");
    assert!(text.contains("prunes"), "the reason must be stated: {text}");
}

#[test]
fn creating_a_work_ref_twice_is_a_conflict_not_an_overwrite() {
    let name = "refs/gfs/work/tester/feature";
    assert!(matches!(
        update_work_ref(name, None, false).unwrap(),
        WorkRefPlan::Create
    ));
    let err = update_work_ref(name, None, true).unwrap_err();
    assert_eq!(err.code, ErrorCode::Conflict);
    assert!(err.to_text().contains("already exists"));
}

#[test]
fn a_work_ref_update_is_a_compare_and_swap() {
    let name = "refs/gfs/work/tester/race";
    match update_work_ref(name, Some(&oid(7)), true).unwrap() {
        WorkRefPlan::CompareAndSwap { expected } => assert!(expected.same(&oid(7))),
        other => panic!("{other:?}"),
    }
    // The second writer expected the first's base, and must be told.
    let err = work_ref_error(name, GitFailure::Modified, "");
    assert_eq!(err.code, ErrorCode::Conflict);
    assert!(err.to_text().contains("moved"));
    assert_eq!(
        work_ref_error(name, GitFailure::Other, "disk").code,
        ErrorCode::Internal
    );
}

#[test]
fn a_mode_a_commit_cannot_carry_is_refused() {
    let err = write_tree(&vec![TreeChange {
        path: path("weird"),
        kind: TreeChangeKind::Upsert {
            mode: DIRECTORY,
            content: Vec::new(),
        },
    }])
    .unwrap_err();
    assert!(err.to_text().contains("file mode"));
    assert_eq!(err.message, "40000 is not a file mode a commit can carry");
    for mode in [REGULAR, EXECUTABLE, SYMLINK, GITLINK] {
        assert_eq!(git_mode(to_filemode(mode).unwrap()), mode);
    }
    assert_eq!(git_mode(FileMode::BlobGroupWritable), 0o100664);
    assert_eq!(git_mode(FileMode::Unreadable), 0);
}

fn side(at: Option<&str>, mode: u32, present: bool) -> DeltaSide {
    DeltaSide {
        path: at.map(path),
        mode,
        oid: oid(9),
        size: 4,
        present,
    }
}

#[test]
fn a_file_that_became_a_link_leaves_the_searchable_corpus() {
    let d = diff_commits(side(Some("a"), REGULAR, true), side(Some("a"), SYMLINK, true)).unwrap();
    assert!(matches!(d, TreeDelta::Removed { .. }));
    assert_eq!(d.path().as_bytes(), b"a");
    let d = diff_commits(side(None, 0, false), side(Some("b"), EXECUTABLE, true)).unwrap();
    assert!(matches!(d, TreeDelta::Upserted { size: 4, .. }));
    assert!(diff_commits(side(Some("l"), SYMLINK, true), side(None, 0, false)).is_none());
    assert!(diff_commits(side(None, 0, false), side(None, REGULAR, true)).is_none());
}

#[test]
fn a_blob_over_the_limit_is_not_read() {
    check_blob_size(limits::MAX_BLOB_BYTES).unwrap();
    let e = check_blob_size(limits::MAX_BLOB_BYTES + 1).unwrap_err();
    assert_eq!(e.code, ErrorCode::ResourceLimit);
    assert_eq!(
        e.message,
        "blob is larger than the 1073741824 byte limit"
    );
}

#[test]
fn an_ancestor_has_no_ref_name() {
    let base = || ResolvedRevision {
        commit: oid(1),
        tree: oid(2),
        ref_name: Some("refs/heads/main".to_owned()),
        ref_version: 3,
        snapshot_time: Timestamp::from_secs(5),
    };
    assert!(resolve_expression(base(), None).ref_name.is_some());
    let walked = resolve_expression(base(), Some((oid(7), oid(8), Timestamp::from_secs(4))));
    assert!(walked.ref_name.is_none());
    assert!(walked.commit.same(&oid(7)));
    assert!(walked.tree.same(&oid(8)));
    assert_eq!(walked.ref_version, 3);
}

#[test]
fn an_operation_that_did_not_run_says_why() {
    assert_eq!(run_error(RunFailure::PoolClosed).code, ErrorCode::Unavailable);
    assert_eq!(run_error(RunFailure::Cancelled).code, ErrorCode::Cancelled);
    assert_eq!(run_error(RunFailure::Panicked).code, ErrorCode::Internal);
    assert_eq!((permits(0), permits(5)), (1, 5));
}

#[test]
fn of_two_updates_that_expect_one_ref_the_second_is_refused() {
    let name = "refs/gfs/work/tester/race";
    let mut at = oid(1);
    let mut made = Vec::new();
    for new in [oid(2), oid(3)] {
        match update_work_ref(name, Some(&oid(1)), true).unwrap() {
            WorkRefPlan::CompareAndSwap { expected } => {
                made.push(at.same(&expected));
                if at.same(&expected) {
                    at = new;
                }
            }
            other => panic!("{other:?}"),
        }
    }
    assert_eq!(made, [true, false]);
    assert!(at.same(&oid(2)), "the first update stands");
}

#[test]
fn pages_of_different_sizes_give_every_entry_once() {
    let tree = many();
    let mut seen = Vec::new();
    let mut token: Option<Vec<u8>> = None;
    for n in 0.. {
        let found = page(&tree, token, [1, 400, 3, 5199][n % 4]);
        seen.extend(found.start..found.end);
        match found.next {
            None => break,
            next => token = next,
        }
    }
    let all: Vec<usize> = (0..tree.len()).collect();
    assert_eq!(seen, all);
}

#[test]
fn a_walk_visits_everything_under_its_root_once() {
    let mut names: Vec<Vec<u8>> = walk(WalkOf::Paths).into_iter().map(|v| v.0).collect();
    names.sort();
    assert_eq!(
        names,
        [
            &b"README.md"[..],
            b"rel-link",
            b"script.sh",
            b"src/main.rs",
            b"vendor/submodule",
        ]
    );
    let mut files: Vec<Vec<u8>> = walk(WalkOf::Files).into_iter().map(|v| v.0).collect();
    files.sort();
    assert_eq!(files, [&b"README.md"[..], b"script.sh", b"src/main.rs"]);
}

#[test]
fn applying_a_diff_gives_the_other_commit() {
    let mut files: std::collections::BTreeMap<Vec<u8>, u32> =
        [(b"a".to_vec(), REGULAR), (b"b".to_vec(), REGULAR), (b"c".to_vec(), REGULAR)]
            .into_iter()
            .collect();
    let changes = [
        (side(Some("a"), REGULAR, true), side(None, 0, false)),
        (side(Some("b"), REGULAR, true), side(Some("b"), EXECUTABLE, true)),
        (side(Some("c"), REGULAR, true), side(Some("c"), SYMLINK, true)),
        (side(None, 0, false), side(Some("d"), REGULAR, true)),
    ];
    for (before, after) in changes {
        match diff_commits(before, after) {
            Some(TreeDelta::Removed { path }) => {
                files.remove(path.as_bytes());
            }
            Some(TreeDelta::Upserted { path, mode, .. }) => {
                files.insert(path.as_bytes().to_vec(), mode);
            }
            None => {}
        }
    }
    let left: Vec<(Vec<u8>, u32)> = files.into_iter().collect();
    assert_eq!(left, [(b"b".to_vec(), EXECUTABLE), (b"d".to_vec(), REGULAR)]);
}

#[test]
fn a_log_of_paths_has_the_commits_that_changed_one() {
    let at = |byte: u8| Some(decoded("f", REGULAR, byte));
    assert!(touches(&vec![], &vec![]), "no paths, every commit");
    assert!(!touches(&vec![at(1), None], &vec![at(1), None]));
    assert!(touches(&vec![at(1), at(2)], &vec![at(1), at(3)]));
    assert!(touches(&vec![None], &vec![at(1)]), "the commit that adds it");
    assert!(touches(&vec![at(1)], &vec![None]), "the commit that removes it");
    assert!(touches(
        &vec![at(1)],
        &vec![Some(decoded("f", EXECUTABLE, 1))]
    ));
}

#[test]
fn non_utf8_paths_round_trip_through_lookup_and_listing() {
    let names = [
        &b"back\\slash.txt"[..],
        b"latin1-caf\xe9.txt",
        b"latin1-\xff-name.txt",
        b"with\nnewline.txt",
        b"with space.txt",
        b"with\"quote.txt",
    ];
    let tree: Vec<DecodedEntry> = names
        .iter()
        .map(|name| DecodedEntry {
            name: name.to_vec(),
            mode: REGULAR,
            oid: oid(1),
        })
        .collect();
    let found = page(&tree, None, 100);
    let listed: Vec<&[u8]> = tree[found.start..found.end]
        .iter()
        .map(|e| e.name.as_slice())
        .collect();
    for expected in names {
        assert!(listed.contains(&expected), "missing {expected:?} from listing");
        // And each is individually addressable by its exact bytes.
        let components = BytePath::new(expected.to_vec()).components();
        match descend(&components, 0, &tree) {
            Descent::Found(e) => assert_eq!(e.name, expected),
            other => panic!("cannot look up {expected:?}: {other:?}"),
        }
    }
}

#[test]
fn a_refused_work_ref_update_says_why() {
    let name = "refs/gfs/work/tester/race";
    let swap = update_work_ref(name, Some(&oid(7)), true).unwrap();
    work_ref_updated(name, &swap, None).unwrap();
    let moved = Some((GitFailure::Modified, "no match".to_owned()));
    assert_eq!(
        work_ref_updated(name, &swap, moved).unwrap_err().code,
        ErrorCode::Conflict
    );
    let create = update_work_ref(name, None, false).unwrap();
    let failed = Some((GitFailure::Other, "disk full".to_owned()));
    let e = work_ref_updated(name, &create, failed).unwrap_err();
    assert_eq!(e.code, ErrorCode::Internal);
    assert_eq!(e.message, format!("cannot create {name}: disk full"));
}

#[test]
fn a_commit_has_no_diff_to_itself() {
    // A path that differs in what is not searchable, and none that differs.
    assert!(diff_commits(side(Some("l"), SYMLINK, true), side(Some("l"), SYMLINK, true)).is_none());
    assert!(diff_commits(side(None, 0, false), side(Some("l"), SYMLINK, true)).is_none());
}
