//! The error numbers a filesystem operation answers with.
use vstd::prelude::*;
use crate::error::{ErrorCode, GfsError};

verus! {

/// An error number.
#[derive(Clone, Copy, PartialEq, Eq, Structural, Debug)]
pub enum Errno {
    /// The inode is no longer known.
    Stale,
    ReadOnly,
    Io,
    NoEntry,
    Exists,
    IsDirectory,
    NotDirectory,
    /// A symlink where a file was expected.
    Loop,
    Invalid,
    BadDescriptor,
    NoSuchOffset,
    Access,
    NotPermitted,
    CrossDevice,
    NameTooLong,
    OperationUnsupported,
    AttributeUnsupported,
    /// A budget or a quota is spent.
    QuotaExceeded,
    NotEmpty,
    /// A number some backing reported, passed through.
    Raw(i32),
}

/// Why the overlay refused.
#[derive(Clone, Copy, PartialEq, Eq, Structural, Debug)]
pub enum Condition {
    QuotaExceeded,
    NoEntry,
    Exists,
    NotDirectory,
    IsDirectory,
    NotEmpty,
    Invalid,
    Io,
}

/// An overlay refusal.
#[derive(Debug)]
pub struct OverlayError {
    pub condition: Condition,
    pub message: String,
}

/// The service code an overlay refusal is reported under.
pub open spec fn service_code(condition: Condition) -> ErrorCode {
    match condition {
        Condition::QuotaExceeded => ErrorCode::ResourceLimit,
        Condition::NoEntry => ErrorCode::NotFound,
        Condition::Io => ErrorCode::Internal,
        _ => ErrorCode::InvalidArgument,
    }
}

/// An overlay refusal seen from a path that speaks the service vocabulary.
pub fn overlay_as_service_error(e: OverlayError) -> (res: GfsError)
    ensures
        res.reads(service_code(e.condition), e.message@),
{
    let code = match e.condition {
        Condition::QuotaExceeded => ErrorCode::ResourceLimit,
        Condition::NoEntry => ErrorCode::NotFound,
        Condition::Io => ErrorCode::Internal,
        Condition::Exists | Condition::NotDirectory | Condition::IsDirectory | Condition::NotEmpty
        | Condition::Invalid => ErrorCode::InvalidArgument,
    };
    GfsError::of(code, e.message)
}

/// What an operation answers when the service refused it. A refusal for want
/// of budget is told from a full disk, and whatever may pass on a retry is an
/// I/O error.
pub open spec fn service_errno(code: ErrorCode) -> Errno {
    match code {
        ErrorCode::NotFound => Errno::NoEntry,
        ErrorCode::PermissionDenied => Errno::Access,
        ErrorCode::Unauthenticated => Errno::Access,
        ErrorCode::ReservedNamespace => Errno::Access,
        ErrorCode::InvalidArgument => Errno::Invalid,
        ErrorCode::ResourceLimit => Errno::QuotaExceeded,
        ErrorCode::Expired => Errno::Stale,
        ErrorCode::FailedPrecondition => Errno::Stale,
        _ => Errno::Io,
    }
}

/// What an operation answers when the service refused it.
pub fn errno_of(e: &GfsError) -> (res: Errno)
    ensures
        res == service_errno(e.code),
{
    match e.code {
        ErrorCode::NotFound => Errno::NoEntry,
        ErrorCode::PermissionDenied => Errno::Access,
        ErrorCode::Unauthenticated => Errno::Access,
        ErrorCode::ReservedNamespace => Errno::Access,
        ErrorCode::InvalidArgument => Errno::Invalid,
        ErrorCode::ResourceLimit => Errno::QuotaExceeded,
        ErrorCode::Expired => Errno::Stale,
        ErrorCode::FailedPrecondition => Errno::Stale,
        _ => Errno::Io,
    }
}

/// What an operation answers when the overlay refused it.
pub open spec fn overlay_errno(condition: Condition) -> Errno {
    match condition {
        Condition::QuotaExceeded => Errno::QuotaExceeded,
        Condition::NoEntry => Errno::NoEntry,
        Condition::Exists => Errno::Exists,
        Condition::NotDirectory => Errno::NotDirectory,
        Condition::IsDirectory => Errno::IsDirectory,
        Condition::NotEmpty => Errno::NotEmpty,
        Condition::Invalid => Errno::Invalid,
        Condition::Io => Errno::Io,
    }
}

/// What an operation answers when the overlay refused it.
pub fn errno_of_overlay(e: &OverlayError) -> (res: Errno)
    ensures
        res == overlay_errno(e.condition),
{
    match e.condition {
        Condition::QuotaExceeded => Errno::QuotaExceeded,
        Condition::NoEntry => Errno::NoEntry,
        Condition::Exists => Errno::Exists,
        Condition::NotDirectory => Errno::NotDirectory,
        Condition::IsDirectory => Errno::IsDirectory,
        Condition::NotEmpty => Errno::NotEmpty,
        Condition::Invalid => Errno::Invalid,
        Condition::Io => Errno::Io,
    }
}

/// What a projected read that failed answers: a file that was repacked away is
/// gone rather than wrong; anything else is an I/O error.
pub open spec fn projected_errno(code: ErrorCode) -> Errno {
    if code == ErrorCode::FailedPrecondition {
        Errno::Stale
    } else {
        Errno::Io
    }
}

/// What a projected read that failed answers.
pub fn odb_read_errno(code: ErrorCode) -> (res: Errno)
    ensures
        res == projected_errno(code),
{
    if code == ErrorCode::FailedPrecondition {
        Errno::Stale
    } else {
        Errno::Io
    }
}

} // verus!
