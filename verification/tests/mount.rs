use gfs::budget::HydrationBudget;
use gfs::cache::BlobCache;
use gfs::control::{DiffStatus, OverlayStats, PlannedChange, Request};
use gfs::entry::{CommitMeta, EntryKind, Signature, TreeEntryInfo};
use gfs::error::{ErrorCode, GfsError};
use gfs::fs::{FsConfig, Gfs};
use gfs::lease::{LeaseMonitor, LeasePolicy};
use gfs::local::{MountId, RepositoryId};
use gfs::mount::{
    accept_grant, adopt_or_refuse_state_dir, blame, cat, changes_for_commit, commit_plan,
    diff_base, diff_revs, fsmonitor_changes, handle, log, ls, overlay_dir, raises_alert,
    resolve_here, status_report, Action, Blame, BlameHunk, CommitChange, DiffFileChange, Grant,
    Mount, MountFacts, PendingCommit, Pin, Resolve, RevDiff, SocketFate,
};
use gfs::node::{Content, OverlayEntry, OverlayKind};
use gfs::object::{HashAlgorithm, ObjectId};
use gfs::odb::{BlockStore, ViewCounters};
use gfs::path::BytePath;
use gfs::status::{ChangeKind, Status, StatusChange};
use gfs::time::Timestamp;

fn oid(byte: u8) -> ObjectId {
    ObjectId::from_raw(HashAlgorithm::Sha1, &[byte; 20]).unwrap()
}

fn path(text: &str) -> BytePath {
    BytePath::new(text.as_bytes().to_vec())
}

fn qualified(byte: u8) -> String {
    oid(byte).to_qualified()
}

fn pin(byte: u8) -> Pin {
    Pin {
        commit: oid(byte),
        tree: oid(byte + 1),
        ref_name: Some("refs/heads/main".to_owned()),
        snapshot_time: Timestamp::from_secs(9),
    }
}

#[test]
fn a_stale_socket_is_removed_and_a_live_one_is_refused() {
    // A stale socket file with nothing listening: adopted.
    assert_eq!(
        adopt_or_refuse_state_dir(true, false, "/state").unwrap(),
        SocketFate::Stale
    );
    assert_eq!(
        adopt_or_refuse_state_dir(false, false, "/state").unwrap(),
        SocketFate::Absent
    );

    // A real listener: refused, because two daemons over one state directory
    // would each believe they own the lease.
    let e = adopt_or_refuse_state_dir(true, true, "/state").unwrap_err();
    assert_eq!(e.code, ErrorCode::Conflict);
}

#[test]
fn a_repin_counts_a_generation_and_reports_both_commits() {
    let mut m = Mount::new("main".to_owned(), pin(1));
    assert_eq!(m.generation(), 1);
    assert!(m.can_repin());
    let target = m.refresh(true).unwrap();
    let report = m.repin(target, Ok(pin(5))).unwrap();
    assert_eq!((report.previous_generation, report.generation), (1, 2));
    assert_eq!(report.previous_commit, qualified(1));
    assert_eq!(report.commit, qualified(5));
    assert!(!report.unchanged);
    assert!(m.pinned_commit().same(&oid(5)));

    // The token of the generation before asks for a full scan.
    let status = Status {
        changes: Vec::new(),
        directory_deletions: Vec::new(),
    };
    let before = fsmonitor_changes(1, "", &status).token;
    assert!(fsmonitor_changes(2, &before, &status).full_rescan);
    assert!(!fsmonitor_changes(1, &before, &status).full_rescan);
}

#[test]
fn a_dirty_workspace_is_neither_refreshed_nor_switched() {
    let m = Mount::new("main".to_owned(), pin(1));
    assert_eq!(
        m.refresh(false).unwrap_err().code,
        ErrorCode::FailedPrecondition
    );
    assert_eq!(m.refresh(true).unwrap().selector, "main");
    assert!(m.switch_to(false, "v2".to_owned(), None).is_err());
    assert_eq!(m.selector(), "main");
    assert_eq!(m.ref_name().as_deref(), Some("refs/heads/main"));
}

#[test]
fn a_switch_changes_nothing_until_it_is_resolved() {
    let mut m = Mount::new("main".to_owned(), pin(1));
    let target = m
        .switch_to(true, "typo".to_owned(), Some("work".to_owned()))
        .unwrap();
    let e = m.repin(target, Err(GfsError::not_found("typo"))).unwrap_err();
    assert_eq!(e.code, ErrorCode::NotFound);
    assert_eq!(m.selector(), "main");
    assert_eq!(m.work_branch(), None);
    assert_eq!(m.generation(), 1);
    assert!(m.pinned_commit().same(&oid(1)));
    assert_eq!(m.refresh(true).unwrap().selector, "main");

    let target = m
        .switch_to(true, "v2".to_owned(), Some("work".to_owned()))
        .unwrap();
    m.repin(target, Ok(pin(5))).unwrap();
    assert_eq!(m.selector(), "v2");
    assert_eq!(m.work_branch().as_deref(), Some("work"));

    // A commit made here is adopted on the branch it was made on.
    let target = m.adopt_commit("c0ffee");
    m.repin(target, Ok(pin(7))).unwrap();
    assert_eq!(m.selector(), "c0ffee");
    assert_eq!(m.work_branch().as_deref(), Some("work"));
}

#[test]
fn local_commits_are_not_left_behind() {
    let m = Mount::new("main".to_owned(), pin(0xab));
    m.check_local_head(None).unwrap();
    m.check_local_head(Some("ab".repeat(20))).unwrap();
    let e = m.check_local_head(Some("cd".repeat(20))).unwrap_err();
    assert_eq!(e.code, ErrorCode::FailedPrecondition);
    assert!(e.message.contains("push them before switching"), "{}", e.message);
}

#[test]
fn a_mount_shuts_down_once() {
    let mut m = Mount::new("main".to_owned(), pin(1));
    assert!(m.shutdown());
    assert!(!m.shutdown());
}

#[test]
fn each_generation_has_its_own_overlay() {
    assert_ne!(overlay_dir("/s", 1), overlay_dir("/s", 2));
    assert!(overlay_dir("/s", 2).starts_with("/s/"));
}

fn grant() -> Grant {
    Grant {
        commit_oid: qualified(1),
        tree_oid: qualified(2),
        mount_id: Ok(MountId::new("m-1".to_owned())),
        ref_name: None,
        snapshot_time: Some(Timestamp::from_secs(3)),
        lease_expiry: Some(Timestamp::from_secs(4)),
        heartbeat_interval_seconds: 0,
        work_ref_root: String::new(),
    }
}

#[test]
fn a_grant_is_checked_before_it_is_used() {
    let policy = LeasePolicy::standard();
    let g = accept_grant(grant(), policy).unwrap();
    assert!(g.pin.commit.same(&oid(1)));
    assert_eq!(g.lease_expiry, Timestamp::from_secs(4));
    assert!(g.work_ref_root.is_none());
    let mut bad = grant();
    bad.commit_oid = "nonsense".to_owned();
    assert!(accept_grant(bad, policy).is_err());
    let mut bad = grant();
    bad.mount_id = Err(GfsError::invalid("not a mount ID"));
    assert_eq!(accept_grant(bad, policy).unwrap_err().message, "not a mount ID");
    // The cadence is the server's; the policy's applies where it names none.
    let mut silent = grant();
    silent.heartbeat_interval_seconds = 0;
    assert_eq!(
        accept_grant(silent, policy).unwrap().interval_secs,
        policy.heartbeat_interval_secs
    );
}

#[test]
fn a_request_with_paths_is_decoded() {
    match handle(Request::Ls {
        rev: None,
        path_b64url: "YS9i".to_owned(),
        page_size: 3,
    })
    .unwrap()
    {
        Action::Ls {
            path: p, page_size, ..
        } => {
            assert_eq!(p.as_bytes(), b"a/b");
            assert_eq!(page_size, 3);
        }
        other => panic!("{other:?}"),
    }
    assert!(handle(Request::Cat {
        rev: None,
        path_b64url: "***".to_owned()
    })
    .is_err());
    assert!(matches!(handle(Request::Unmount).unwrap(), Action::Unmount));
}

#[test]
fn a_selector_is_the_pin_or_is_asked_for() {
    assert!(matches!(resolve_here(&oid(1), "HEAD"), Resolve::Pinned));
    assert!(matches!(resolve_here(&oid(1), "v9"), Resolve::Ask(s) if s == "v9"));
}

#[test]
fn a_diff_has_a_parent_or_the_empty_tree() {
    let parents = vec![oid(1), oid(2)];
    assert!(diff_base(&parents, None).unwrap().unwrap().same(&oid(1)));
    assert!(diff_base(&parents, Some(2)).unwrap().unwrap().same(&oid(2)));
    assert!(diff_base(&Vec::new(), None).unwrap().is_none());
    let e = diff_base(&parents, Some(3)).unwrap_err();
    assert_eq!(
        e.message,
        "that commit has 2 parent(s), so there is no parent 3"
    );
}

#[test]
fn a_diff_report_encodes_its_paths() {
    let report = diff_revs(
        Some(oid(1)),
        &oid(2),
        &RevDiff {
            rendered: b"hi".to_vec(),
            files: vec![DiffFileChange {
                path: path("b"),
                old_path: Some(path("a")),
                status: DiffStatus::Renamed,
                additions: 1,
                deletions: 2,
                binary: false,
                old_mode: 0o100644,
                new_mode: 0o100755,
            }],
            truncated: true,
        },
    );
    assert_eq!(report.base_commit, Some(qualified(1)));
    assert_eq!(report.rendered_b64url, "aGk");
    assert_eq!(report.files[0].path_b64url, "Yg");
    assert_eq!(report.files[0].old_path_b64url.as_deref(), Some("YQ"));
    assert!(report.truncated);
}

fn who() -> Signature {
    Signature {
        name: b"n".to_vec(),
        email: b"e".to_vec(),
        time: Timestamp::from_secs(7),
        tz_offset_minutes: -60,
    }
}

fn meta() -> CommitMeta {
    CommitMeta {
        commit: oid(1),
        tree: oid(2),
        parents: vec![oid(3)],
        author: who(),
        committer: who(),
        message: b"m".to_vec(),
        snapshot_time: Timestamp::from_secs(9),
    }
}

#[test]
fn a_log_names_the_ref_only_from_the_pin() {
    let name = Some("refs/heads/main".to_owned());
    let report = log(&oid(1), true, &name, &vec![meta()], false);
    assert_eq!(report.ref_name, name);
    assert_eq!(report.commits[0].parents, vec![qualified(3)]);
    assert_eq!(report.commits[0].author_time, 7);
    let other = log(&oid(1), false, &name, &Vec::new(), true);
    assert!(other.ref_name.is_none());
    assert!(other.has_more);
}

fn entry(at: &str, kind: EntryKind) -> TreeEntryInfo {
    TreeEntryInfo {
        path: path(at),
        kind,
        mode: 0o100644,
        oid: oid(4),
        size: 2,
        symlink_target: None,
        blob_ticket: Some("t".to_owned()),
    }
}

#[test]
fn a_listing_and_a_file_are_reported() {
    let report = ls(&oid(1), &vec![entry("a", EntryKind::Regular)]);
    assert_eq!(report.entries[0].path_b64url, "YQ");
    assert_eq!(report.entries[0].oid, qualified(4));
    let (blob, ticket) = cat(Some(entry("a", EntryKind::Regular))).unwrap();
    assert!(blob.same(&oid(4)));
    assert_eq!(ticket, "t");
    assert_eq!(cat(None).unwrap_err().code, ErrorCode::NotFound);
    let mut dir = entry("d", EntryKind::Directory);
    dir.blob_ticket = None;
    assert_eq!(cat(Some(dir)).unwrap_err().code, ErrorCode::InvalidArgument);
}

#[test]
fn a_blame_carries_its_hunks() {
    let report = blame(
        &oid(1),
        &path("a"),
        &Blame {
            hunks: vec![BlameHunk {
                final_start_line: 1,
                lines: 2,
                commit: oid(2),
                orig_path: path("b"),
                orig_start_line: 3,
                author: who(),
                boundary: true,
            }],
            content: b"hi".to_vec(),
            truncated: false,
        },
    );
    assert_eq!(report.content_b64url, "aGk");
    assert_eq!(report.hunks[0].orig_path_b64url, "Yg");
    assert_eq!(report.hunks[0].commit, qualified(2));
}

fn change(at: &str, kind: ChangeKind) -> StatusChange {
    StatusChange {
        path: path(at),
        kind,
        from: None,
        old_oid: None,
        new_mode: Some(0o100644),
        content_change: true,
    }
}

fn row(at: &str) -> OverlayEntry {
    OverlayEntry {
        path: path(at),
        ino: 9,
        kind: OverlayKind::Regular,
        content: Content::Local(1),
        size: 2,
        symlink_target: None,
        base: None,
        renamed_from: None,
    }
}

#[test]
fn a_commit_takes_what_was_added_and_drops_what_was_deleted() {
    let changes = vec![
        change("new", ChangeKind::Added),
        change("old", ChangeKind::Deleted),
    ];
    let out = changes_for_commit(
        &changes,
        &vec!["new".to_owned(), "old".to_owned()],
        &vec![Some(row("new")), None],
        vec![Ok(b"hi".to_vec()), Ok(Vec::new())],
    )
    .unwrap();
    assert!(out
        .iter()
        .any(|c| matches!(c, CommitChange::Upsert { content, .. } if content == b"hi")));
    assert!(out
        .iter()
        .any(|c| matches!(c, CommitChange::Delete { path } if path.as_bytes() == b"old")));

    let plan = commit_plan(
        &PendingCommit {
            base_commit: oid(1),
            changes: out,
            deleted_directories: vec![path("gone")],
        },
        Some("work".to_owned()),
    )
    .unwrap();
    assert_eq!(plan.base_commit, qualified(1));
    assert!(plan
        .changes
        .iter()
        .any(|c| matches!(c, PlannedChange::Upsert { content_b64url, .. } if content_b64url == "aGk")));
    assert_eq!(plan.deleted_directories, vec!["Z29uZQ".to_owned()]);

    let failed = changes_for_commit(
        &vec![change("new", ChangeKind::Added)],
        &vec!["new".to_owned()],
        &vec![Some(row("new"))],
        vec![Err(GfsError::internal("disk"))],
    );
    assert_eq!(failed.unwrap_err().message, "disk");
    let missing = changes_for_commit(
        &vec![change("new", ChangeKind::Added)],
        &vec!["\\xffnew".to_owned()],
        &vec![None],
        vec![Ok(Vec::new())],
    );
    assert_eq!(
        missing.unwrap_err().message,
        "the overlay reports \\xffnew as changed but holds no entry for it"
    );
}

#[test]
fn git_is_told_what_differs() {
    let status = Status {
        changes: vec![change("a", ChangeKind::Modified)],
        directory_deletions: vec![path("d")],
    };
    let answer = fsmonitor_changes(1, "gfs:1", &status);
    assert!(!answer.full_rescan);
    assert_eq!(answer.token, "gfs:1");
    assert_eq!(answer.paths, vec!["a".to_owned(), "d/".to_owned()]);
    assert!(!status.is_clean());
    let m = Mount::new("main".to_owned(), pin(1));
    assert_eq!(status_report(&m, status).base_commit, qualified(1));
}

#[test]
fn an_alert_is_raised_once_at_the_threshold() {
    assert!(!raises_alert(1, 2));
    assert!(raises_alert(2, 2));
}

#[test]
fn a_report_says_what_the_workspace_is_pinned_to() {
    let mut m = Mount::new("main".to_owned(), pin(1));
    let target = m
        .switch_to(true, "v2".to_owned(), Some("work".to_owned()))
        .unwrap();
    m.repin(target, Ok(pin(5))).unwrap();
    let root = TreeEntryInfo {
        path: BytePath::root(),
        kind: EntryKind::Directory,
        mode: 0o040_000,
        oid: oid(6),
        size: 0,
        symlink_target: None,
        blob_ticket: None,
    };
    let fs = Gfs::new(root, &[], FsConfig::default());
    let monitor = LeaseMonitor::new(
        MountId::new("m-1".to_owned()),
        Timestamp::from_secs(100),
        30,
        LeasePolicy::standard(),
    );
    let repository_id = RepositoryId::new("repo".to_owned());
    let report = m.inspect(MountFacts {
        workspace: "/work",
        state_dir: "/state",
        repository_id: &repository_id,
        mount_id: monitor.mount_id(),
        publication: "direct",
        daemon_pid: 7,
        owner_uid: 1000,
        overlay: OverlayStats {
            quota_bytes: 3,
            local_bytes: 2,
            entries: 1,
        },
        health: monitor.health_at(Timestamp::from_secs(1)),
        stats: fs.stats(),
        cache: BlobCache::new(10).stats(),
        budget: HydrationBudget::new(11).report(),
        odb: BlockStore::open(&Vec::new(), 12).stats(),
        odb_job: ViewCounters::new().snapshot(),
        inodes: fs.inode_counts(),
    });
    assert_eq!(report.mount_id, "m-1");
    assert_eq!(report.repository_id, "repo");
    assert_eq!(report.revision_selector, "v2");
    assert_eq!(report.work_branch.as_deref(), Some("work"));
    assert_eq!(report.commit, qualified(5));
    assert_eq!(report.tree, qualified(6));
    assert_eq!(report.generation, 2);
    assert_eq!(report.workspace, "/work");
    assert_eq!(report.budget.limit_bytes, 11);
    assert_eq!(report.odb.residency_limit_bytes, 12);
    assert_eq!((report.live_inodes, report.assigned_inodes), (1, 1));
    assert!(!report.read_only);
}
