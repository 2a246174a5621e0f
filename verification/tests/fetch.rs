use gfs::blobs::{wanted_blobs, PreloadedBase};
use gfs::budget::HydrationBudget;
use gfs::entry::{EntryKind, TreeEntryInfo};
use gfs::errno::Condition;
use gfs::error::{ErrorCode, GfsError};
use gfs::fetch::{
    base_node, blob_origin, permit_fetch, BaseQuestion, BlobOrigin, DescendantWalk, ListingFetch,
    Retry,
};
use gfs::fs::{FsConfig, Gfs};
use gfs::node::{Content, OverlayEntry, OverlayKind};
use gfs::object::{HashAlgorithm, ObjectId};
use gfs::path::BytePath;
use gfs::search::{
    convert_completion, merge_scan, ExecutionStatus, LocalOutcome, Match, ScanFrame, SearchOutcome,
    SearchStream, StreamMessage, TruncationReason, WireCompletion,
};
use gfs::status::{ChangeKind, StatusChange};

fn oid(byte: u8) -> ObjectId {
    ObjectId::from_raw(HashAlgorithm::Sha1, &[byte; 20]).unwrap()
}

fn path(text: &str) -> BytePath {
    BytePath::new(text.as_bytes().to_vec())
}

fn entry(at: &str, kind: EntryKind) -> TreeEntryInfo {
    TreeEntryInfo {
        path: path(at),
        kind,
        mode: 0o100_644,
        oid: oid(1),
        size: 10,
        symlink_target: None,
        blob_ticket: Some("ticket".to_owned()),
    }
}

#[test]
fn a_retryable_failure_is_retried_with_a_doubling_delay() {
    let mut r = Retry::new();
    assert_eq!(r.failed(ErrorCode::Unavailable, 3), Some(20));
    assert_eq!(r.failed(ErrorCode::Unavailable, 3), Some(40));
    assert_eq!(r.failed(ErrorCode::Unavailable, 3), None);
    assert_eq!(Retry::new().failed(ErrorCode::NotFound, 3), None);
}

#[test]
fn a_listing_is_paged_to_its_end() {
    let mut f = ListingFetch::new();
    assert!(!f.accept(vec![entry("d/a", EntryKind::Regular)], b"t".to_vec()));
    assert_eq!(f.token, b"t");
    assert!(f.accept(vec![entry("d/b", EntryKind::Regular)], Vec::new()));
    assert_eq!(f.entries.len(), 2);
}

#[test]
fn the_descendants_of_a_directory_are_collected_up_to_a_limit() {
    let mut w = DescendantWalk::new(&path("d"), "d".to_owned(), 2);
    let (relative, absolute) = w.next().unwrap();
    assert!(relative.is_empty());
    assert_eq!(absolute.as_bytes(), b"d");
    w.accept(
        &relative,
        &vec![
            entry("d/sub", EntryKind::Directory),
            entry("d/module", EntryKind::Gitlink),
        ],
    )
    .unwrap();
    let (relative, absolute) = w.next().unwrap();
    assert_eq!(absolute.as_bytes(), b"d/sub");
    w.accept(&relative, &vec![entry("d/sub/f", EntryKind::Regular)])
        .unwrap();
    assert!(w.next().is_none());
    let found = w.into_found();
    let names: Vec<&[u8]> = found.iter().map(|f| f.relative.as_bytes()).collect();
    assert_eq!(names, vec![&b"sub"[..], b"sub/f"]);

    let mut w = DescendantWalk::new(&path("d"), "d".to_owned(), 0);
    let (relative, _) = w.next().unwrap();
    let e = w
        .accept(&relative, &vec![entry("d/f", EntryKind::Regular)])
        .unwrap_err();
    assert_eq!(e.code, ErrorCode::ResourceLimit);
    assert_eq!(e.message, "renaming d would move more than 0 entries");
}

fn gfs() -> Gfs {
    Gfs::new(entry("", EntryKind::Directory), &[], FsConfig::default())
}

#[test]
fn a_fetch_is_paid_for_before_it_starts() {
    assert_eq!(blob_origin(true, false), BlobOrigin::Memory);
    assert_eq!(blob_origin(false, true), BlobOrigin::Cache);
    assert_eq!(blob_origin(false, false), BlobOrigin::Server);

    let mut fs = gfs();
    let mut budget = HydrationBudget::new(10);
    let fresh = || Some(entry("f", EntryKind::Regular));
    assert_eq!(
        permit_fetch(&mut fs, &mut budget, &oid(1), fresh()).unwrap(),
        "ticket"
    );
    assert_eq!(budget.report().charged_bytes, 10);
    // The server answered about another blob.
    assert!(permit_fetch(&mut fs, &mut budget, &oid(2), fresh()).is_err());
    assert_eq!(
        permit_fetch(&mut fs, &mut budget, &oid(1), None)
            .unwrap_err()
            .code,
        ErrorCode::NotFound
    );
    // Over the budget.
    let mut other = entry("g", EntryKind::Regular);
    other.oid = oid(3);
    let e = permit_fetch(&mut fs, &mut budget, &oid(3), Some(other)).unwrap_err();
    assert_eq!(e.code, ErrorCode::ResourceLimit);
    assert_eq!(fs.stats().hydration_refusals, 1);
}

fn change(kind: ChangeKind, content_change: bool) -> StatusChange {
    StatusChange {
        path: path("f"),
        kind,
        from: None,
        old_oid: Some(oid(4).to_qualified()),
        new_mode: Some(0o100644),
        content_change,
    }
}

fn row(content: Content) -> OverlayEntry {
    OverlayEntry {
        path: path("f"),
        ino: 5,
        kind: OverlayKind::Regular,
        content,
        size: 1,
        symlink_target: None,
        base: None,
        renamed_from: None,
    }
}

#[test]
fn a_modified_file_needs_its_old_side() {
    let wanted = wanted_blobs(
        &vec![change(ChangeKind::Modified, true)],
        &vec![Some(row(Content::Local(1)))],
    )
    .unwrap();
    assert_eq!(wanted.len(), 1);
    assert!(wanted[0].0.same(&oid(4)));
}

#[test]
fn a_blob_is_read_from_what_was_loaded() {
    let mut base = PreloadedBase::new();
    assert!(base.is_empty());
    base.insert(&oid(1), b"x".to_vec());
    assert_eq!(base.len(), 1);
    assert!(base.contains(&oid(1)));
    assert_eq!(base.read(&oid(1), "f").unwrap(), b"x");
    let e = base.read(&oid(2), "f").unwrap_err();
    assert_eq!(e.condition, Condition::Io);
    assert!(e.message.starts_with("the base blob for f (sha1:02"), "{}", e.message);
    assert!(e.message.ends_with(") was not pre-fetched"), "{}", e.message);
}

fn found(name: &str) -> Match {
    Match {
        path: name.as_bytes().to_vec(),
        line: 1,
        column: 1,
        matched: Vec::new(),
        line_text: Vec::new(),
        before: Vec::new(),
        after: Vec::new(),
        line_truncated: false,
        blob_oid: String::new(),
    }
}

fn slice(names: &[&str], truncated: bool) -> LocalOutcome {
    LocalOutcome {
        matches: names.iter().map(|n| found(n)).collect(),
        excluded: vec![("binary".to_owned(), 1)],
        eligible_paths: 2,
        bytes_read: 3,
        truncated,
    }
}

fn frame() -> ScanFrame {
    ScanFrame {
        scope: b"d".to_vec(),
        declared_exclusions: vec!["x".to_owned()],
        commit: "c".to_owned(),
        candidates: 9,
        elapsed_ms: 1,
    }
}

#[test]
fn slices_of_a_scan_add_up_in_order() {
    match merge_scan(
        vec![Ok(slice(&["a", "b"], false)), Ok(slice(&["c"], false))],
        10,
        frame(),
    )
    .unwrap()
    {
        SearchOutcome::Completed(r) => {
            let names: Vec<&[u8]> = r.matches.iter().map(|m| m.path.as_slice()).collect();
            assert_eq!(names, vec![&b"a"[..], b"b", b"c"]);
            assert_eq!(r.completion.execution_status, ExecutionStatus::Complete);
            assert_eq!(r.completion.coverage.excluded, vec![("binary".to_owned(), 2)]);
            assert_eq!(r.completion.coverage.eligible_paths, 4);
            assert_eq!(r.completion.bytes_read, 6);
        }
        other => panic!("{other:?}"),
    }
}

#[test]
fn a_scan_over_its_limit_is_cut_and_says_so() {
    match merge_scan(vec![Ok(slice(&["a", "b"], false))], 1, frame()).unwrap() {
        SearchOutcome::Completed(r) => {
            assert_eq!(r.matches.len(), 1);
            assert_eq!(r.completion.truncation, Some(TruncationReason::ResultLimit));
            assert_eq!(r.completion.stop_budget.as_deref(), Some("the result limit"));
        }
        other => panic!("{other:?}"),
    }
    match merge_scan(vec![Ok(slice(&["a"], true))], 5, frame()).unwrap() {
        SearchOutcome::Completed(r) => {
            assert_eq!(r.completion.truncation, Some(TruncationReason::TimeBudget));
        }
        other => panic!("{other:?}"),
    }
    assert!(merge_scan(vec![Err(GfsError::internal("x"))], 5, frame()).is_err());
}

fn completion() -> WireCompletion {
    WireCompletion {
        says_complete: true,
        truncation_reason: Some("display_budget".to_owned()),
        coverage: None,
        index_generation: 4,
        commit_oid: "c".to_owned(),
        stop_budget: None,
        candidates_considered: 0,
        bytes_read: 0,
        elapsed_ms: 0,
    }
}

#[test]
fn a_stream_without_a_completion_is_no_answer() {
    let mut s = SearchStream::new();
    s.accept(StreamMessage::Match(found("a")));
    s.accept(StreamMessage::Empty);
    assert!(matches!(
        s.finish(),
        SearchOutcome::FailedBeforeCompletion(_)
    ));

    let mut s = SearchStream::new();
    s.accept(StreamMessage::Match(found("a")));
    s.accept(StreamMessage::Completion(completion()));
    assert!(matches!(
        s.finish(),
        SearchOutcome::Completed(r) if r.matches.len() == 1
    ));

    let c = convert_completion(completion());
    assert_eq!(c.truncation, Some(TruncationReason::DisplayBudget));
    assert_eq!(c.execution_status, ExecutionStatus::Complete);
    assert!(matches!(
        SearchStream::new().fail(GfsError::internal("cut")),
        SearchOutcome::FailedBeforeCompletion(m) if m == "cut"
    ));
}

#[test]
fn an_entry_is_answered_by_the_listing_of_its_directory() {
    assert!(matches!(base_node(&BytePath::root(), Ok(())), Ok(BaseQuestion::Server)));
    let refused = Err(GfsError::invalid("a path leaves its directory"));
    assert!(base_node(&path("../x"), refused).is_err());
    match base_node(&path("src/a/mod.rs"), Ok(())).unwrap() {
        BaseQuestion::Listed { dir, name } => {
            assert_eq!(dir.as_bytes(), b"src/a");
            assert_eq!(name, b"mod.rs");
        }
        other => panic!("{other:?}"),
    }
    match base_node(&path("README"), Ok(())).unwrap() {
        BaseQuestion::Listed { dir, name } => {
            assert!(dir.is_empty());
            assert_eq!(name, b"README");
        }
        other => panic!("{other:?}"),
    }
}

#[test]
fn slices_in_path_order_make_an_answer_in_path_order() {
    match merge_scan(
        vec![Ok(slice(&["a", "a", "b/c"], false)), Ok(slice(&["b/d", "e"], false))],
        4,
        frame(),
    )
    .unwrap()
    {
        SearchOutcome::Completed(r) => {
            let names: Vec<&[u8]> = r.matches.iter().map(|m| m.path.as_slice()).collect();
            assert_eq!(names, vec![&b"a"[..], b"a", b"b/c", b"b/d"]);
        }
        other => panic!("{other:?}"),
    }
}
