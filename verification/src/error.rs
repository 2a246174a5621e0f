//! The error vocabulary every component speaks.
use vstd::prelude::*;

verus! {

/// What kind of failure an error is.
#[derive(Clone, Copy, PartialEq, Eq, Structural, Debug)]
pub enum ErrorCode {
    InvalidArgument,
    NotFound,
    PermissionDenied,
    Unauthenticated,
    Expired,
    FailedPrecondition,
    Conflict,
    ResourceLimit,
    SnapshotBuilding,
    NotIndexable,
    UnsupportedRepositoryFormat,
    ReservedNamespace,
    Unavailable,
    DeadlineExceeded,
    Cancelled,
    Internal,
}

/// The name a code has on the wire.
pub open spec fn wire_name(code: ErrorCode) -> Seq<char> {
    match code {
        ErrorCode::InvalidArgument => "INVALID_ARGUMENT"@,
        ErrorCode::NotFound => "NOT_FOUND"@,
        ErrorCode::PermissionDenied => "PERMISSION_DENIED"@,
        ErrorCode::Unauthenticated => "UNAUTHENTICATED"@,
        ErrorCode::Expired => "EXPIRED"@,
        ErrorCode::FailedPrecondition => "FAILED_PRECONDITION"@,
        ErrorCode::Conflict => "CONFLICT"@,
        ErrorCode::ResourceLimit => "RESOURCE_LIMIT"@,
        ErrorCode::SnapshotBuilding => "SNAPSHOT_BUILDING"@,
        ErrorCode::NotIndexable => "NOT_INDEXABLE"@,
        ErrorCode::UnsupportedRepositoryFormat => "UNSUPPORTED_REPOSITORY_FORMAT"@,
        ErrorCode::ReservedNamespace => "RESERVED_NAMESPACE"@,
        ErrorCode::Unavailable => "UNAVAILABLE"@,
        ErrorCode::DeadlineExceeded => "DEADLINE_EXCEEDED"@,
        ErrorCode::Cancelled => "CANCELLED"@,
        ErrorCode::Internal => "INTERNAL"@,
    }
}

impl ErrorCode {
    /// The name this code has on the wire.
    pub fn as_str(self) -> (res: &'static str)
        ensures
            res@ == wire_name(self),
    {
        match self {
            ErrorCode::InvalidArgument => "INVALID_ARGUMENT",
            ErrorCode::NotFound => "NOT_FOUND",
            ErrorCode::PermissionDenied => "PERMISSION_DENIED",
            ErrorCode::Unauthenticated => "UNAUTHENTICATED",
            ErrorCode::Expired => "EXPIRED",
            ErrorCode::FailedPrecondition => "FAILED_PRECONDITION",
            ErrorCode::Conflict => "CONFLICT",
            ErrorCode::ResourceLimit => "RESOURCE_LIMIT",
            ErrorCode::SnapshotBuilding => "SNAPSHOT_BUILDING",
            ErrorCode::NotIndexable => "NOT_INDEXABLE",
            ErrorCode::UnsupportedRepositoryFormat => "UNSUPPORTED_REPOSITORY_FORMAT",
            ErrorCode::ReservedNamespace => "RESERVED_NAMESPACE",
            ErrorCode::Unavailable => "UNAVAILABLE",
            ErrorCode::DeadlineExceeded => "DEADLINE_EXCEEDED",
            ErrorCode::Cancelled => "CANCELLED",
            ErrorCode::Internal => "INTERNAL",
        }
    }

    /// Whether trying the same request again can succeed.
    pub open spec fn may_retry(self) -> bool {
        self == ErrorCode::Unavailable || self == ErrorCode::SnapshotBuilding
    }

    /// Whether trying the same request again can succeed.
    pub fn retryable(self) -> (res: bool)
        ensures
            res == self.may_retry(),
    {
        matches!(self, ErrorCode::Unavailable) || matches!(self, ErrorCode::SnapshotBuilding)
    }
}

/// A failure: its kind, and a message for a person.
#[derive(Debug)]
pub struct GfsError {
    pub code: ErrorCode,
    pub message: String,
}

impl GfsError {
    /// Whether the error has this code and this message.
    pub open spec fn reads(self, code: ErrorCode, message: Seq<char>) -> bool {
        self.code == code && self.message@ == message
    }

    pub fn new(code: ErrorCode, message: &str) -> (res: GfsError)
        ensures
            res.reads(code, message@),
    {
        GfsError { code, message: message.to_owned() }
    }

    pub fn of(code: ErrorCode, message: String) -> (res: GfsError)
        ensures
            res.code == code,
            res.message == message,
    {
        GfsError { code, message }
    }

    pub fn invalid(message: &str) -> (res: GfsError)
        ensures
            res.reads(ErrorCode::InvalidArgument, message@),
    {
        GfsError::new(ErrorCode::InvalidArgument, message)
    }

    pub fn internal(message: &str) -> (res: GfsError)
        ensures
            res.reads(ErrorCode::Internal, message@),
    {
        GfsError::new(ErrorCode::Internal, message)
    }

    pub fn not_found(message: &str) -> (res: GfsError)
        ensures
            res.reads(ErrorCode::NotFound, message@),
    {
        GfsError::new(ErrorCode::NotFound, message)
    }

    /// Whether trying the same request again can succeed.
    pub fn is_retryable(&self) -> (res: bool)
        ensures
            res == self.code.may_retry(),
    {
        self.code.retryable()
    }

    /// The message, for a person.
    pub fn to_text(&self) -> (res: String)
        ensures
            res@ == self.message@,
    {
        self.message.clone()
    }

    /// An owned copy.
    pub fn duplicate(&self) -> (res: GfsError)
        ensures
            res.reads(self.code, self.message@),
    {
        GfsError { code: self.code, message: self.message.clone() }
    }
}

/// Every code has a wire name of its own.
pub proof fn law_wire_names_are_distinct(a: ErrorCode, b: ErrorCode)
    ensures
        wire_name(a) == wire_name(b) ==> a == b,
{
    reveal_strlit("INVALID_ARGUMENT");
    reveal_strlit("NOT_FOUND");
    reveal_strlit("PERMISSION_DENIED");
    reveal_strlit("UNAUTHENTICATED");
    reveal_strlit("EXPIRED");
    reveal_strlit("FAILED_PRECONDITION");
    reveal_strlit("CONFLICT");
    reveal_strlit("RESOURCE_LIMIT");
    reveal_strlit("SNAPSHOT_BUILDING");
    reveal_strlit("NOT_INDEXABLE");
    reveal_strlit("UNSUPPORTED_REPOSITORY_FORMAT");
    reveal_strlit("RESERVED_NAMESPACE");
    reveal_strlit("UNAVAILABLE");
    reveal_strlit("DEADLINE_EXCEEDED");
    reveal_strlit("CANCELLED");
    reveal_strlit("INTERNAL");
    assert("INVALID_ARGUMENT"@.len() == 16 && "INVALID_ARGUMENT"@[0] == 'I');
    assert("NOT_FOUND"@.len() == 9 && "NOT_FOUND"@[0] == 'N');
    assert("PERMISSION_DENIED"@.len() == 17 && "PERMISSION_DENIED"@[0] == 'P');
    assert("UNAUTHENTICATED"@.len() == 15 && "UNAUTHENTICATED"@[0] == 'U');
    assert("EXPIRED"@.len() == 7 && "EXPIRED"@[0] == 'E');
    assert("FAILED_PRECONDITION"@.len() == 19 && "FAILED_PRECONDITION"@[0] == 'F');
    assert("CONFLICT"@.len() == 8 && "CONFLICT"@[0] == 'C');
    assert("RESOURCE_LIMIT"@.len() == 14 && "RESOURCE_LIMIT"@[0] == 'R');
    assert("SNAPSHOT_BUILDING"@.len() == 17 && "SNAPSHOT_BUILDING"@[0] == 'S');
    assert("NOT_INDEXABLE"@.len() == 13 && "NOT_INDEXABLE"@[0] == 'N');
    assert("UNSUPPORTED_REPOSITORY_FORMAT"@.len() == 29 && "UNSUPPORTED_REPOSITORY_FORMAT"@[0] == 'U');
    assert("RESERVED_NAMESPACE"@.len() == 18 && "RESERVED_NAMESPACE"@[0] == 'R');
    assert("UNAVAILABLE"@.len() == 11 && "UNAVAILABLE"@[0] == 'U');
    assert("DEADLINE_EXCEEDED"@.len() == 17 && "DEADLINE_EXCEEDED"@[0] == 'D');
    assert("CANCELLED"@.len() == 9 && "CANCELLED"@[0] == 'C');
    assert("INTERNAL"@.len() == 8 && "INTERNAL"@[0] == 'I');
}

} // verus!
