//! The control protocol: what a daemon is asked, and what it answers.
//!
//! Payloads of the search, find and export collaborators are carried as the
//! text they encode them to.
use vstd::prelude::*;
use crate::budget::BudgetReport;
use crate::cache::CacheStats;
use crate::error::{law_wire_names_are_distinct, wire_name, ErrorCode, GfsError};
use crate::fs::FsStats;
use crate::lease::{HealthState, LeaseHealth};
use crate::odb::{OdbStats, OdbViewStats};
use crate::status::Status;
use crate::strings::{trim_text, trimmed};
use crate::time::Timestamp;

verus! {

/// How a diff is rendered.
#[derive(Clone, Copy, PartialEq, Eq, Structural, Debug)]
pub enum DiffFormat {
    Patch,
    NameStatus,
    Stat,
}

/// How a file differs between two commits.
#[derive(Clone, Copy, PartialEq, Eq, Structural, Debug)]
pub enum DiffStatus {
    Added,
    Deleted,
    Modified,
    Renamed,
    Copied,
    TypeChanged,
}

/// What a mount's daemon is asked.
#[derive(Debug)]
pub enum Request {
    Inspect,
    Health,
    Refresh,
    Switch { selector: String, branch: Option<String> },
    Status,
    FsMonitorChanges { token: String },
    Diff,
    Export { bundle: String },
    Search(String),
    Log {
        skip: u32,
        limit: u32,
        from: Option<String>,
        first_parent: bool,
        paths_b64url: Vec<String>,
    },
    DiffRevs {
        from: Option<String>,
        to: String,
        parent: Option<u32>,
        format: DiffFormat,
        context_lines: Option<u32>,
        paths_b64url: Vec<String>,
    },
    Ls { rev: Option<String>, path_b64url: String, page_size: u32 },
    Cat { rev: Option<String>, path_b64url: String },
    Blame { rev: Option<String>, path_b64url: String },
    Find(String),
    CommitPlan,
    AdoptCommit { commit: String },
    Unmount,
}

/// What the overlay holds.
#[derive(Clone, Copy, PartialEq, Eq, Structural, Debug)]
pub struct OverlayStats {
    pub quota_bytes: u64,
    pub local_bytes: u64,
    pub entries: u64,
}

/// Everything about one mount.
#[derive(Debug)]
pub struct MountReport {
    pub mount_id: String,
    pub repository_id: String,
    pub revision_selector: String,
    pub work_branch: Option<String>,
    pub commit: String,
    pub tree: String,
    pub ref_name: Option<String>,
    pub snapshot_time: Timestamp,
    pub workspace: String,
    pub publication: String,
    pub generation: u64,
    pub state_dir: String,
    pub daemon_pid: u32,
    pub owner_uid: u32,
    pub read_only: bool,
    pub overlay: OverlayStats,
    pub health: LeaseHealth,
    pub stats: FsStats,
    pub cache: CacheStats,
    pub budget: BudgetReport,
    pub odb: OdbStats,
    pub odb_job: OdbViewStats,
    pub live_inodes: usize,
    pub assigned_inodes: usize,
}

/// One commit of a log.
#[derive(Debug)]
pub struct LogEntry {
    pub commit: String,
    pub tree: String,
    pub parents: Vec<String>,
    pub author_name: Vec<u8>,
    pub author_email: Vec<u8>,
    pub author_time: i64,
    pub author_tz_offset_minutes: i32,
    pub committer_name: Vec<u8>,
    pub committer_email: Vec<u8>,
    pub committer_time: i64,
    pub committer_tz_offset_minutes: i32,
    pub message: Vec<u8>,
}

/// A page of history.
#[derive(Debug)]
pub struct LogReport {
    pub base_commit: String,
    pub ref_name: Option<String>,
    pub commits: Vec<LogEntry>,
    pub has_more: bool,
}

/// One file of a diff.
#[derive(Debug)]
pub struct DiffFileEntry {
    pub path_b64url: String,
    pub old_path_b64url: Option<String>,
    pub status: DiffStatus,
    pub additions: u32,
    pub deletions: u32,
    pub binary: bool,
    pub old_mode: u32,
    pub new_mode: u32,
}

/// A diff of two commits.
#[derive(Debug)]
pub struct RevDiffReport {
    pub base_commit: Option<String>,
    pub commit: String,
    pub rendered_b64url: String,
    pub files: Vec<DiffFileEntry>,
    pub truncated: bool,
}

/// Consecutive lines with one origin.
#[derive(Debug)]
pub struct BlameHunkEntry {
    pub final_start_line: u32,
    pub lines: u32,
    pub commit: String,
    pub orig_path_b64url: String,
    pub orig_start_line: u32,
    pub author_name: Vec<u8>,
    pub author_email: Vec<u8>,
    pub author_time: i64,
    pub author_tz_offset_minutes: i32,
    pub boundary: bool,
}

/// One entry of a listing.
#[derive(Debug)]
pub struct LsEntry {
    pub path_b64url: String,
    pub mode: u32,
    pub size: u64,
    pub oid: String,
}

/// A listing of a directory at a commit.
#[derive(Debug)]
pub struct LsReport {
    pub commit: String,
    pub entries: Vec<LsEntry>,
}

/// The origins of a file's lines.
#[derive(Debug)]
pub struct BlameReport {
    pub commit: String,
    pub path_b64url: String,
    pub hunks: Vec<BlameHunkEntry>,
    pub content_b64url: String,
    pub truncated: bool,
}

/// What a re-pin did.
#[derive(Debug)]
pub struct RefreshReport {
    pub previous_generation: u64,
    pub generation: u64,
    pub previous_commit: String,
    pub commit: String,
    pub unchanged: bool,
}

/// What a commit of the workspace would hold.
#[derive(Debug)]
pub struct CommitPlan {
    pub base_commit: String,
    pub work_branch: Option<String>,
    pub changes: Vec<PlannedChange>,
    pub deleted_directories: Vec<String>,
}

/// One change of a planned commit; paths and content in base64.
#[derive(Debug)]
pub enum PlannedChange {
    Upsert { path: String, mode: u32, content_b64url: String },
    Delete { path: String },
}

/// A workspace's changes against its pin.
#[derive(Debug)]
pub struct StatusReport {
    pub base_commit: String,
    pub ref_name: Option<String>,
    pub work_branch: Option<String>,
    pub status: Status,
}

/// What Git's fsmonitor is told.
#[derive(Debug)]
pub struct FsMonitorAnswer {
    pub token: String,
    pub paths: Vec<String>,
    /// The caller's token is of another generation.
    pub full_rescan: bool,
}

/// What a mount's daemon answers.
#[derive(Debug)]
pub enum Response {
    Inspect(Box<MountReport>),
    Health(LeaseHealth),
    Refresh(RefreshReport),
    CommitPlan(Box<CommitPlan>),
    Status(Box<StatusReport>),
    FsMonitorChanges(Box<FsMonitorAnswer>),
    Diff { patch_b64url: String },
    Export(String),
    Search(String),
    Log(Box<LogReport>),
    RevDiff(Box<RevDiffReport>),
    Blame(Box<BlameReport>),
    Ls(Box<LsReport>),
    Cat { commit: String, content_b64url: String },
    Find(String),
    Unmounted,
    Error { code: String, message: String },
}

/// The code a wire name stands for. A name this protocol does not know is an
/// internal error.
pub open spec fn control_code(name: Seq<char>) -> ErrorCode {
    if name == "INVALID_ARGUMENT"@ {
        ErrorCode::InvalidArgument
    } else if name == "NOT_FOUND"@ {
        ErrorCode::NotFound
    } else if name == "PERMISSION_DENIED"@ {
        ErrorCode::PermissionDenied
    } else if name == "UNAUTHENTICATED"@ {
        ErrorCode::Unauthenticated
    } else if name == "EXPIRED"@ {
        ErrorCode::Expired
    } else if name == "FAILED_PRECONDITION"@ {
        ErrorCode::FailedPrecondition
    } else if name == "CONFLICT"@ {
        ErrorCode::Conflict
    } else if name == "RESOURCE_LIMIT"@ {
        ErrorCode::ResourceLimit
    } else if name == "SNAPSHOT_BUILDING"@ {
        ErrorCode::SnapshotBuilding
    } else if name == "NOT_INDEXABLE"@ {
        ErrorCode::NotIndexable
    } else if name == "UNSUPPORTED_REPOSITORY_FORMAT"@ {
        ErrorCode::UnsupportedRepositoryFormat
    } else if name == "RESERVED_NAMESPACE"@ {
        ErrorCode::ReservedNamespace
    } else if name == "UNAVAILABLE"@ {
        ErrorCode::Unavailable
    } else if name == "DEADLINE_EXCEEDED"@ {
        ErrorCode::DeadlineExceeded
    } else if name == "CANCELLED"@ {
        ErrorCode::Cancelled
    } else {
        ErrorCode::Internal
    }
}

/// The code a wire name stands for.
pub fn code_from_wire(name: &String) -> (res: ErrorCode)
    ensures
        res == control_code(name@),
{
    if *name == "INVALID_ARGUMENT".to_owned() {
        ErrorCode::InvalidArgument
    } else if *name == "NOT_FOUND".to_owned() {
        ErrorCode::NotFound
    } else if *name == "PERMISSION_DENIED".to_owned() {
        ErrorCode::PermissionDenied
    } else if *name == "UNAUTHENTICATED".to_owned() {
        ErrorCode::Unauthenticated
    } else if *name == "EXPIRED".to_owned() {
        ErrorCode::Expired
    } else if *name == "FAILED_PRECONDITION".to_owned() {
        ErrorCode::FailedPrecondition
    } else if *name == "CONFLICT".to_owned() {
        ErrorCode::Conflict
    } else if *name == "RESOURCE_LIMIT".to_owned() {
        ErrorCode::ResourceLimit
    } else if *name == "SNAPSHOT_BUILDING".to_owned() {
        ErrorCode::SnapshotBuilding
    } else if *name == "NOT_INDEXABLE".to_owned() {
        ErrorCode::NotIndexable
    } else if *name == "UNSUPPORTED_REPOSITORY_FORMAT".to_owned() {
        ErrorCode::UnsupportedRepositoryFormat
    } else if *name == "RESERVED_NAMESPACE".to_owned() {
        ErrorCode::ReservedNamespace
    } else if *name == "UNAVAILABLE".to_owned() {
        ErrorCode::Unavailable
    } else if *name == "DEADLINE_EXCEEDED".to_owned() {
        ErrorCode::DeadlineExceeded
    } else if *name == "CANCELLED".to_owned() {
        ErrorCode::Cancelled
    } else {
        ErrorCode::Internal
    }
}

impl Response {
    /// An error as an answer.
    pub fn from_error(e: &GfsError) -> (res: Response)
        ensures
            res matches Response::Error { code, message } && code@ == wire_name(e.code) && message@
                == e.message@,
    {
        Response::Error { code: e.code.as_str().to_owned(), message: e.message.clone() }
    }

    /// An answer as a result: an error answer is the error it carries.
    pub fn into_result(self) -> (res: Result<Response, GfsError>)
        ensures
            match self {
                Response::Error { code, message } => res matches Err(e) && e.reads(
                    control_code(code@),
                    message@,
                ),
                _ => res == Ok::<Response, GfsError>(self),
            },
            self matches Response::Error { code, .. } ==> forall|c: ErrorCode|
                code@ == #[trigger] wire_name(c) ==> (res matches Err(e) && e.code == c),
    {
        proof {
            assert forall|c: ErrorCode| control_code(#[trigger] wire_name(c)) == c by {
                law_errors_survive_the_protocol(c);
            }
        }
        match self {
            Response::Error { code, message } => Err(GfsError::of(code_from_wire(&code), message)),
            other => Ok(other),
        }
    }

    /// An answer from an outcome.
    pub fn from_result(outcome: Result<Response, GfsError>) -> (res: Response)
        ensures
            match outcome {
                Ok(r) => res == r,
                Err(e) => res matches Response::Error { code, message } && code@ == wire_name(e.code)
                    && message@ == e.message@,
            },
    {
        match outcome {
            Ok(r) => r,
            Err(e) => Response::from_error(&e),
        }
    }

    /// Whether the daemon stops after this answer.
    pub fn stops(&self) -> (res: bool)
        ensures
            res == (*self is Unmounted),
    {
        match self {
            Response::Unmounted => true,
            _ => false,
        }
    }
}

/// An error that goes through the protocol comes out as it went in, whatever
/// its code.
pub proof fn law_errors_survive_the_protocol(code: ErrorCode)
    ensures
        control_code(wire_name(code)) == code,
{
    law_wire_names_are_distinct(code, ErrorCode::SnapshotBuilding);
    law_wire_names_are_distinct(code, ErrorCode::NotIndexable);
    law_wire_names_are_distinct(code, ErrorCode::UnsupportedRepositoryFormat);
    law_wire_names_are_distinct(code, ErrorCode::ReservedNamespace);
    law_wire_names_are_distinct(code, ErrorCode::InvalidArgument);
    law_wire_names_are_distinct(code, ErrorCode::NotFound);
    law_wire_names_are_distinct(code, ErrorCode::PermissionDenied);
    law_wire_names_are_distinct(code, ErrorCode::Unauthenticated);
    law_wire_names_are_distinct(code, ErrorCode::Expired);
    law_wire_names_are_distinct(code, ErrorCode::FailedPrecondition);
    law_wire_names_are_distinct(code, ErrorCode::Conflict);
    law_wire_names_are_distinct(code, ErrorCode::ResourceLimit);
    law_wire_names_are_distinct(code, ErrorCode::Unavailable);
    law_wire_names_are_distinct(code, ErrorCode::DeadlineExceeded);
    law_wire_names_are_distinct(code, ErrorCode::Cancelled);
}

/// What a host is asked to mount.
#[derive(Debug)]
pub struct MountRequest {
    pub state_format_version: u32,
    pub workspace: String,
    pub state_dir: String,
    pub cache_dir: String,
    pub repository_id: String,
    pub revision_selector: String,
    pub cache_quota_bytes: u64,
    pub overlay_quota_bytes: u64,
    pub allow_other: bool,
    pub fuse_threads: Option<usize>,
    pub grpc_endpoint: Option<String>,
    pub http_endpoint: Option<String>,
    pub token: Option<String>,
}

/// What a host is asked.
#[derive(Debug)]
pub enum HostRequest {
    Info,
    CreateMount(Box<MountRequest>),
    ListMounts,
    DestroyMount { workspace: String },
    Shutdown,
}

/// What a host says of itself.
#[derive(Debug)]
pub struct HostInfo {
    pub version: String,
    pub state_format_version: u32,
    pub api_version: String,
    pub pid: u32,
    pub socket: String,
    pub grpc_endpoint: String,
    pub http_endpoint: String,
    pub mounts: usize,
}

/// What a host says of one mount.
#[derive(Debug)]
pub struct MountSummary {
    pub workspace: String,
    pub state_dir: String,
    pub repository_id: String,
    pub mount_id: String,
    pub revision_selector: String,
    pub commit: String,
    pub generation: u64,
    pub health: HealthState,
}

/// What a host answers.
#[derive(Debug)]
pub enum HostResponse {
    Info(Box<HostInfo>),
    Mounted(Box<MountReport>),
    Mounts { mounts: Vec<MountSummary> },
    Destroyed,
    ShuttingDown,
    Error { code: String, message: String },
}

impl HostResponse {
    /// An error as an answer.
    pub fn from_error(e: &GfsError) -> (res: HostResponse)
        ensures
            res matches HostResponse::Error { code, message } && code@ == wire_name(e.code)
                && message@ == e.message@,
    {
        HostResponse::Error { code: e.code.as_str().to_owned(), message: e.message.clone() }
    }

    /// An answer as a result: an error answer is the error it carries.
    pub fn into_result(self) -> (res: Result<HostResponse, GfsError>)
        ensures
            match self {
                HostResponse::Error { code, message } => res matches Err(e) && e.reads(
                    control_code(code@),
                    message@,
                ),
                _ => res == Ok::<HostResponse, GfsError>(self),
            },
            self matches HostResponse::Error { code, .. } ==> forall|c: ErrorCode|
                code@ == #[trigger] wire_name(c) ==> (res matches Err(e) && e.code == c),
    {
        proof {
            assert forall|c: ErrorCode| control_code(#[trigger] wire_name(c)) == c by {
                law_errors_survive_the_protocol(c);
            }
        }
        match self {
            HostResponse::Error { code, message } => Err(
                GfsError::of(code_from_wire(&code), message),
            ),
            other => Ok(other),
        }
    }
}

/// Why a daemon could not be reached.
#[derive(Clone, Copy, PartialEq, Eq, Structural, Debug)]
pub enum ConnectFailure {
    NotFound,
    ConnectionRefused,
    PermissionDenied,
    Other,
}

/// The code of a daemon that could not be reached: nobody listening is "not
/// found", not "unavailable".
pub open spec fn connect_code(failure: ConnectFailure) -> ErrorCode {
    match failure {
        ConnectFailure::NotFound | ConnectFailure::ConnectionRefused => ErrorCode::NotFound,
        ConnectFailure::PermissionDenied => ErrorCode::PermissionDenied,
        ConnectFailure::Other => ErrorCode::Unavailable,
    }
}

/// The error of a daemon that could not be reached.
pub fn connect_error(failure: ConnectFailure, socket: &str, reason: &str) -> (res: GfsError)
    ensures
        res.reads(
            connect_code(failure),
            "no GFS daemon is listening on "@ + socket@ + ": "@ + reason@,
        ),
{
    let code = match failure {
        ConnectFailure::NotFound => ErrorCode::NotFound,
        ConnectFailure::ConnectionRefused => ErrorCode::NotFound,
        ConnectFailure::PermissionDenied => ErrorCode::PermissionDenied,
        ConnectFailure::Other => ErrorCode::Unavailable,
    };
    let mut message = "no GFS daemon is listening on ".to_owned();
    message.append(socket);
    message.append(": ");
    message.append(reason);
    GfsError::of(code, message)
}

/// A reply line, which must not be blank: a daemon that hung up said nothing.
pub fn checked_reply(reply: String) -> (res: Result<String, GfsError>)
    ensures
        trimmed(reply@).len() == 0 ==> (res matches Err(e) && e.reads(
            ErrorCode::Unavailable,
            "the daemon closed the control connection without replying"@,
        )),
        trimmed(reply@).len() != 0 ==> (res matches Ok(r) && r@ == reply@),
{
    let bare = trim_text(reply.as_str());
    if bare.as_str().unicode_len() == 0 {
        return Err(
            GfsError::new(
                ErrorCode::Unavailable,
                "the daemon closed the control connection without replying",
            ),
        );
    }
    Ok(reply)
}

} // verus!
