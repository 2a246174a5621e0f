use gfs::client::{
    absent_or_error, code_from_wire, diff_context, http_error, prepare_snapshot, range_header,
    ErrorBody, MountBinding, SnapshotClient, SnapshotState,
};
use gfs::entry::root_entry;
use gfs::error::{ErrorCode, GfsError};
use gfs::local::repository_id_for;
use gfs::object::{HashAlgorithm, ObjectId};
use gfs::time::Timestamp;

/// A body's two texts, where it is an object that holds them.
fn parsed(body: &[u8]) -> Option<ErrorBody> {
    let value: serde_json::Value = serde_json::from_slice(body).ok()?;
    Some(ErrorBody {
        code: value.get("code")?.as_str()?.to_owned(),
        message: value.get("message")?.as_str()?.to_owned(),
    })
}

#[test]
fn every_error_code_round_trips_through_the_wire_name() {
    for code in [
        ErrorCode::InvalidArgument,
        ErrorCode::NotFound,
        ErrorCode::PermissionDenied,
        ErrorCode::Unauthenticated,
        ErrorCode::Expired,
        ErrorCode::FailedPrecondition,
        ErrorCode::Conflict,
        ErrorCode::ResourceLimit,
        ErrorCode::SnapshotBuilding,
        ErrorCode::NotIndexable,
        ErrorCode::UnsupportedRepositoryFormat,
        ErrorCode::ReservedNamespace,
        ErrorCode::Unavailable,
        ErrorCode::DeadlineExceeded,
        ErrorCode::Cancelled,
        ErrorCode::Internal,
    ] {
        assert_eq!(
            code_from_wire(&code.as_str().to_owned()),
            Some(code),
            "{code:?}"
        );
    }
}

#[test]
fn an_unknown_code_falls_back_to_the_status_line() {
    let body = br#"{"code":"SOMETHING_NEWER","message":"from a future server"}"#;
    let e = http_error(503, parsed(body));
    assert_eq!(e.code, ErrorCode::Unavailable);
    assert!(e.is_retryable());
}

#[test]
fn a_json_body_wins_over_the_status_code() {
    // 503 is both UNAVAILABLE and SNAPSHOT_BUILDING; only the body distinguishes.
    let body = br#"{"code":"SNAPSHOT_BUILDING","message":"index is building"}"#;
    let e = http_error(503, parsed(body));
    assert_eq!(e.code, ErrorCode::SnapshotBuilding);
    assert_eq!(e.message, "index is building");
}

#[test]
fn a_non_json_body_still_produces_a_typed_error() {
    let e = http_error(403, parsed(b"<html>nope</html>"));
    assert_eq!(e.code, ErrorCode::PermissionDenied);
    assert_eq!(e.message, "blob request failed with 403 Forbidden");
}

#[test]
fn each_status_has_its_code() {
    for (status, code) in [
        (400, ErrorCode::InvalidArgument),
        (401, ErrorCode::Unauthenticated),
        (403, ErrorCode::PermissionDenied),
        (404, ErrorCode::NotFound),
        (500, ErrorCode::Internal),
    ] {
        assert_eq!(http_error(status, None).code, code, "{status}");
    }
    assert_eq!(
        http_error(404, None).message,
        "blob request failed with 404 Not Found"
    );
}

#[test]
fn only_a_missing_path_is_an_absence() {
    assert!(absent_or_error(GfsError::not_found("gone")).unwrap().is_none());
    assert!(absent_or_error(GfsError::internal("broken")).is_err());
}

fn oid(byte: u8) -> ObjectId {
    ObjectId::from_raw(HashAlgorithm::Sha1, &[byte; 20]).unwrap()
}

#[test]
fn a_snapshot_is_ready_building_or_failed() {
    assert!(prepare_snapshot(SnapshotState::Ready, &oid(1), None).unwrap());
    assert!(!prepare_snapshot(SnapshotState::Building, &oid(1), None).unwrap());
    let e = prepare_snapshot(SnapshotState::Failed, &oid(1), Some("too big".to_owned()));
    assert!(e.unwrap_err().message.contains("too big"));
    assert!(prepare_snapshot(SnapshotState::Unrecognized, &oid(1), None).is_err());
}

#[test]
fn no_context_is_told_from_the_default_context() {
    assert_eq!(diff_context(None), (0, false));
    assert_eq!(diff_context(Some(0)), (0, true));
    assert_eq!(diff_context(Some(7)), (7, false));
}

fn client(capability: &str) -> SnapshotClient {
    SnapshotClient::new(
        "http://host:8430/",
        "secret",
        MountBinding {
            repository_id: repository_id_for(b"/tmp/a"),
            commit: oid(0xab),
            algorithm: HashAlgorithm::Sha1,
            snapshot_time: Timestamp::from_secs(1),
        },
        capability.to_owned(),
    )
}

#[test]
fn urls_name_the_repository_and_the_object() {
    let c = client("");
    let repo = repository_id_for(b"/tmp/a");
    let url = c.blob_url(&oid(0xab), "t1");
    assert!(url.starts_with("http://host:8430/"), "{url}");
    assert!(url.contains(repo.as_str()), "{url}");
    assert!(url.contains(&"ab".repeat(20)), "{url}");
    assert!(url.contains("t1"), "{url}");
    assert!(c.manifest_url().contains(repo.as_str()));
    assert!(c.odb_url("pack/pack-1.pack").contains("pack/pack-1.pack"));
    assert_eq!(range_header(0, 9), "bytes=0-9");
}

#[test]
fn a_renewed_capability_replaces_the_old_one() {
    let mut c = client("first");
    assert_eq!(c.capability_for_persistence(), "first");
    c.set_capability("second".to_owned());
    assert_eq!(c.capability_for_persistence(), "second");
}

#[test]
fn a_log_starts_at_the_pin_unless_told_otherwise() {
    let c = client("");
    assert!(c.log_start(None).same(&oid(0xab)));
    assert!(c.log_start(Some(oid(2))).same(&oid(2)));
}

#[test]
fn a_renewal_without_an_expiry_expires_now() {
    let mut c = client("first");
    let (now, later) = (Timestamp::from_secs(5), Timestamp::from_secs(9));
    assert_eq!(c.renew_mount("second".to_owned(), Some(later), now), later);
    assert_eq!(c.capability_for_persistence(), "second");
    assert_eq!(c.renew_mount("third".to_owned(), None, now), now);
    assert_eq!(c.capability_for_persistence(), "third");
}

#[test]
fn a_path_that_failed_is_absent_from_a_batch() {
    let answers = vec![
        Ok(Some(root_entry(oid(1)))),
        Err(GfsError::internal("broken")),
        Ok(None),
        Ok(Some(root_entry(oid(2)))),
    ];
    let entries = SnapshotClient::batch_get_entry(answers);
    assert_eq!(entries.len(), 4);
    assert!(entries[0].as_ref().unwrap().oid.same(&oid(1)));
    assert!(entries[1].is_none() && entries[2].is_none());
    assert!(entries[3].as_ref().unwrap().oid.same(&oid(2)));
}

#[test]
fn a_request_carries_the_token_and_not_the_capability() {
    let c = client("capability");
    assert_eq!(c.bearer().as_deref(), Some("Bearer secret"));
    assert_eq!(c.authorization().as_deref(), Some("capability"));
}
