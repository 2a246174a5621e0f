use gfs::control::{
    checked_reply, connect_error, ConnectFailure, HostResponse, Request, Response,
};
use gfs::error::{ErrorCode, GfsError};
use gfs::mount::{handle, Action};

#[test]
fn an_error_comes_back_out_of_a_response() {
    let request = Request::Refresh;
    assert!(matches!(handle(request).unwrap(), Action::Refresh));

    let response = Response::from_error(&GfsError::not_found("nothing here"));
    let error = response.into_result().unwrap_err();
    assert_eq!(error.code, ErrorCode::NotFound);
    assert_eq!(error.message, "nothing here");
}

#[test]
fn a_missing_socket_is_not_found_rather_than_unavailable() {
    let e = connect_error(
        ConnectFailure::NotFound,
        "/nonexistent/gfs/control.sock",
        "No such file or directory (os error 2)",
    );
    assert_eq!(e.code, ErrorCode::NotFound);
    assert!(e.message.contains("/nonexistent/gfs/control.sock"));
}

#[test]
fn each_connection_failure_has_its_code() {
    for (failure, code) in [
        (ConnectFailure::ConnectionRefused, ErrorCode::NotFound),
        (ConnectFailure::PermissionDenied, ErrorCode::PermissionDenied),
        (ConnectFailure::Other, ErrorCode::Unavailable),
    ] {
        assert_eq!(connect_error(failure, "s", "r").code, code);
    }
    assert_eq!(
        connect_error(ConnectFailure::Other, "s", "r").message,
        "no GFS daemon is listening on s: r"
    );
}

#[test]
fn a_blank_reply_is_a_hang_up() {
    assert_eq!(
        checked_reply(" \t\n".to_owned()).unwrap_err().code,
        ErrorCode::Unavailable
    );
    assert_eq!(checked_reply(" x \n".to_owned()).unwrap(), " x \n");
}

#[test]
fn a_response_that_is_no_error_is_a_result() {
    assert!(matches!(
        Response::Unmounted.into_result().unwrap(),
        Response::Unmounted
    ));
    assert!(Response::Unmounted.stops());
    assert!(!Response::from_error(&GfsError::internal("x")).stops());
    let e = Response::from_result(Err(GfsError::invalid("bad")));
    assert_eq!(e.into_result().unwrap_err().code, ErrorCode::InvalidArgument);
}

#[test]
fn host_errors_survive_the_protocol() {
    let e = HostResponse::from_error(&GfsError::new(ErrorCode::Conflict, "taken"))
        .into_result()
        .unwrap_err();
    assert_eq!(e.code, ErrorCode::Conflict);
    assert_eq!(e.message, "taken");
    assert!(HostResponse::Destroyed.into_result().is_ok());
}

#[test]
fn a_code_nobody_knows_reads_as_internal() {
    let e = Response::Error {
        code: "SOMETHING_NEWER".to_owned(),
        message: "m".to_owned(),
    }
    .into_result()
    .unwrap_err();
    assert_eq!(e.code, ErrorCode::Internal);
    assert_eq!(e.message, "m");
}

#[test]
fn every_code_comes_back_out_of_a_response() {
    let codes = [
        ErrorCode::InvalidArgument,
        ErrorCode::NotFound,
        ErrorCode::PermissionDenied,
        ErrorCode::Unauthenticated,
        ErrorCode::Expired,
        ErrorCode::FailedPrecondition,
        ErrorCode::Conflict,
        ErrorCode::ResourceLimit,
        ErrorCode::SnapshotBuilding,
        ErrorCode::NotIndexable,
        ErrorCode::UnsupportedRepositoryFormat,
        ErrorCode::ReservedNamespace,
        ErrorCode::Unavailable,
        ErrorCode::DeadlineExceeded,
        ErrorCode::Cancelled,
        ErrorCode::Internal,
    ];
    for code in codes {
        let e = GfsError::new(code, "m");
        let back = Response::from_error(&e).into_result().unwrap_err();
        assert_eq!((back.code, back.message.as_str()), (code, "m"));
        let back = HostResponse::from_error(&e).into_result().unwrap_err();
        assert_eq!((back.code, back.message.as_str()), (code, "m"));
    }
}
