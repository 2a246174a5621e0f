//! What the snapshot service is asked over the wire, and what its answers
//! mean.
use vstd::prelude::*;
use crate::control::DiffFormat;
use crate::entry::TreeEntryInfo;
use crate::error::{law_wire_names_are_distinct, wire_name, ErrorCode, GfsError};
use crate::local::RepositoryId;
use crate::object::{HashAlgorithm, ObjectId, ObjectIdView};
use crate::path::BytePath;
use crate::strings::{opt_view, trim_end_char, without_trailing};
use crate::text::{decimal, push_decimal};
use crate::time::Timestamp;

verus! {

/// What a mount is bound to.
#[derive(Debug)]
pub struct MountBinding {
    pub repository_id: RepositoryId,
    pub commit: ObjectId,
    pub algorithm: HashAlgorithm,
    pub snapshot_time: Timestamp,
}

/// Which commits a log lists.
#[derive(Debug)]
pub struct LogQuery {
    pub skip: u32,
    pub limit: u32,
    pub first_parent: bool,
    pub paths: Vec<BytePath>,
}

/// What a diff of two commits holds.
#[derive(Debug)]
pub struct DiffQuery {
    pub paths: Vec<BytePath>,
    pub format: DiffFormat,
    pub context_lines: Option<u32>,
    pub max_bytes: u64,
}

/// One page of a directory listing.
#[derive(Debug)]
pub struct DirectoryPage {
    pub entries: Vec<TreeEntryInfo>,
    pub next_page_token: Vec<u8>,
}

/// One page of a recursive listing.
#[derive(Debug)]
pub struct TreePage {
    pub entries: Vec<TreeEntryInfo>,
    pub directories: Vec<BytePath>,
    pub next_page_token: Vec<u8>,
}

// ---------------------------------------------------------------------------
// Errors
// ---------------------------------------------------------------------------
/// Whether a code is the one a wire name stands for, and none where it stands
/// for none.
pub open spec fn named(name: Seq<char>, res: Option<ErrorCode>) -> bool {
    match res {
        Some(code) => wire_name(code) == name,
        None => forall|code: ErrorCode| #[trigger] wire_name(code) != name,
    }
}

/// The code a wire name stands for; none for a name of a newer server.
pub fn code_from_wire(name: &String) -> (res: Option<ErrorCode>)
    ensures
        named(name@, res),
{
    if *name == ErrorCode::InvalidArgument.as_str().to_owned() {
        Some(ErrorCode::InvalidArgument)
    } else if *name == ErrorCode::NotFound.as_str().to_owned() {
        Some(ErrorCode::NotFound)
    } else if *name == ErrorCode::PermissionDenied.as_str().to_owned() {
        Some(ErrorCode::PermissionDenied)
    } else if *name == ErrorCode::Unauthenticated.as_str().to_owned() {
        Some(ErrorCode::Unauthenticated)
    } else if *name == ErrorCode::Expired.as_str().to_owned() {
        Some(ErrorCode::Expired)
    } else if *name == ErrorCode::FailedPrecondition.as_str().to_owned() {
        Some(ErrorCode::FailedPrecondition)
    } else if *name == ErrorCode::Conflict.as_str().to_owned() {
        Some(ErrorCode::Conflict)
    } else if *name == ErrorCode::ResourceLimit.as_str().to_owned() {
        Some(ErrorCode::ResourceLimit)
    } else if *name == ErrorCode::SnapshotBuilding.as_str().to_owned() {
        Some(ErrorCode::SnapshotBuilding)
    } else if *name == ErrorCode::NotIndexable.as_str().to_owned() {
        Some(ErrorCode::NotIndexable)
    } else if *name == ErrorCode::UnsupportedRepositoryFormat.as_str().to_owned() {
        Some(ErrorCode::UnsupportedRepositoryFormat)
    } else if *name == ErrorCode::ReservedNamespace.as_str().to_owned() {
        Some(ErrorCode::ReservedNamespace)
    } else if *name == ErrorCode::Unavailable.as_str().to_owned() {
        Some(ErrorCode::Unavailable)
    } else if *name == ErrorCode::DeadlineExceeded.as_str().to_owned() {
        Some(ErrorCode::DeadlineExceeded)
    } else if *name == ErrorCode::Cancelled.as_str().to_owned() {
        Some(ErrorCode::Cancelled)
    } else if *name == ErrorCode::Internal.as_str().to_owned() {
        Some(ErrorCode::Internal)
    } else {
        None
    }
}

/// Every code comes back from its wire name.
pub proof fn law_codes_round_trip(code: ErrorCode, parsed: Option<ErrorCode>)
    ensures
        named(wire_name(code), parsed) == (parsed == Some(code)),
{
    match parsed {
        Some(p) => law_wire_names_are_distinct(p, code),
        None => {},
    }
}

/// The code of a bare status line.
pub open spec fn status_code(status: u16) -> ErrorCode {
    if status == 400 {
        ErrorCode::InvalidArgument
    } else if status == 401 {
        ErrorCode::Unauthenticated
    } else if status == 403 {
        ErrorCode::PermissionDenied
    } else if status == 404 {
        ErrorCode::NotFound
    } else if status == 409 {
        ErrorCode::Conflict
    } else if status == 422 {
        ErrorCode::FailedPrecondition
    } else if status == 429 {
        ErrorCode::ResourceLimit
    } else if status == 503 {
        ErrorCode::Unavailable
    } else if status == 504 {
        ErrorCode::DeadlineExceeded
    } else {
        ErrorCode::Internal
    }
}

/// A status as its line shows it: the number, and its reason where it has one.
pub uninterp spec fn status_line(status: u16) -> Seq<char>;

/// Calls `http::StatusCode::from_u16` and its `Display`. Claims that the
/// result is a function of the number. Numbers outside three digits have no
/// status.
#[verifier::external_body]
fn status_text(status: u16) -> (res: String)
    requires
        100 <= status <= 999,
    ensures
        res@ == status_line(status),
{
    match http::StatusCode::from_u16(status) {
        Ok(code) => code.to_string(),
        Err(e) => e.to_string(),
    }
}

/// What the body of a failed response says of itself.
#[derive(Debug)]
pub struct ErrorBody {
    pub code: String,
    pub message: String,
}

/// The error a failed response is: what its body says, where the body names a
/// known code; what its status says, otherwise.
pub open spec fn response_error(status: u16, body: Option<ErrorBody>, res: GfsError) -> bool {
    if body is Some && exists|c: ErrorCode| #[trigger] wire_name(c) == body->0.code@ {
        wire_name(res.code) == body->0.code@ && res.message@ == body->0.message@
    } else {
        res.reads(status_code(status), "blob request failed with "@ + status_line(status))
    }
}

/// The error a failed response is. A body that is no such object is `None`.
pub fn http_error(status: u16, body: Option<ErrorBody>) -> (res: GfsError)
    requires
        100 <= status <= 999,
    ensures
        response_error(status, body, res),
{
    match body {
        Some(body) => {
            match code_from_wire(&body.code) {
                Some(c) => return GfsError::of(c, body.message),
                None => {},
            }
        },
        None => {},
    }
    let code = if status == 400 {
        ErrorCode::InvalidArgument
    } else if status == 401 {
        ErrorCode::Unauthenticated
    } else if status == 403 {
        ErrorCode::PermissionDenied
    } else if status == 404 {
        ErrorCode::NotFound
    } else if status == 409 {
        ErrorCode::Conflict
    } else if status == 422 {
        ErrorCode::FailedPrecondition
    } else if status == 429 {
        ErrorCode::ResourceLimit
    } else if status == 503 {
        ErrorCode::Unavailable
    } else if status == 504 {
        ErrorCode::DeadlineExceeded
    } else {
        ErrorCode::Internal
    };
    let mut text = "blob request failed with ".to_owned();
    text.append(status_text(status).as_str());
    GfsError::of(code, text)
}

/// A path the service does not know is absent; any other error stands.
pub fn absent_or_error(e: GfsError) -> (res: Result<Option<TreeEntryInfo>, GfsError>)
    ensures
        if e.code == ErrorCode::NotFound {
            res == Ok::<Option<TreeEntryInfo>, GfsError>(None)
        } else {
            res == Err::<Option<TreeEntryInfo>, GfsError>(e)
        },
{
    if e.code == ErrorCode::NotFound {
        Ok(None)
    } else {
        Err(e)
    }
}

// ---------------------------------------------------------------------------
// The search index
// ---------------------------------------------------------------------------
/// How far the server is with the search index.
#[derive(Clone, Copy, PartialEq, Eq, Structural, Debug)]
pub enum SnapshotState {
    Ready,
    Building,
    Failed,
    Unrecognized,
}

/// Whether the search index is ready.
pub fn prepare_snapshot(state: SnapshotState, commit: &ObjectId, reason: Option<String>) -> (res: Result<
    bool,
    GfsError,
>)
    ensures
        match state {
            SnapshotState::Ready => res == Ok::<bool, GfsError>(true),
            SnapshotState::Building => res == Ok::<bool, GfsError>(false),
            SnapshotState::Failed => res matches Err(e) && e.reads(
                ErrorCode::Internal,
                "the server could not build the search index for "@ + commit@.qualified() + ": "@ + (
                match opt_view(reason) {
                    Some(r) => r,
                    None => "no reason given"@,
                }),
            ),
            SnapshotState::Unrecognized => res matches Err(e) && e.reads(
                ErrorCode::Internal,
                "the server reported an unrecognized snapshot state"@,
            ),
        },
{
    match state {
        SnapshotState::Ready => Ok(true),
        SnapshotState::Building => Ok(false),
        SnapshotState::Failed => {
            let mut message = "the server could not build the search index for ".to_owned();
            message.append(commit.to_qualified().as_str());
            message.append(": ");
            match reason {
                Some(r) => {
                    message.append(r.as_str());
                },
                None => {
                    message.append("no reason given");
                },
            }
            Err(GfsError::of(ErrorCode::Internal, message))
        },
        SnapshotState::Unrecognized => Err(
            GfsError::internal("the server reported an unrecognized snapshot state"),
        ),
    }
}

// ---------------------------------------------------------------------------
// Requests
// ---------------------------------------------------------------------------
/// How many context lines a diff request asks for: the count, and whether a
/// count of nothing is meant as such rather than as the default.
pub fn diff_context(context_lines: Option<u32>) -> (res: (u32, bool))
    ensures
        res == (match context_lines {
            Some(n) => (n, n == 0),
            None => (0u32, false),
        }),
{
    match context_lines {
        Some(n) => (n, n == 0),
        None => (0, false),
    }
}

/// The client's own state: where it talks to, as whom, and what it may read.
#[derive(Debug)]
pub struct SnapshotClient {
    http_endpoint: String,
    token: String,
    binding: MountBinding,
    capability: String,
}

/// What a [`SnapshotClient`] denotes.
#[verifier::ext_equal]
pub struct ClientView {
    pub http_endpoint: Seq<char>,
    pub token: Seq<char>,
    pub repository_id: Seq<char>,
    pub commit: ObjectIdView,
    pub algorithm: HashAlgorithm,
    pub snapshot_time: Timestamp,
    pub capability: Seq<char>,
}

impl View for SnapshotClient {
    type V = ClientView;

    closed spec fn view(&self) -> ClientView {
        ClientView {
            http_endpoint: self.http_endpoint@,
            token: self.token@,
            repository_id: self.binding.repository_id@,
            commit: self.binding.commit@,
            algorithm: self.binding.algorithm,
            snapshot_time: self.binding.snapshot_time,
            capability: self.capability@,
        }
    }
}

impl SnapshotClient {
    /// A client of an endpoint; slashes at the endpoint's end do not count.
    pub fn new(http_endpoint: &str, token: &str, binding: MountBinding, capability: String) -> (res:
        SnapshotClient)
        ensures
            res@ == (ClientView {
                http_endpoint: without_trailing(http_endpoint@, '/'),
                token: token@,
                repository_id: binding.repository_id@,
                commit: binding.commit@,
                algorithm: binding.algorithm,
                snapshot_time: binding.snapshot_time,
                capability: capability@,
            }),
    {
        SnapshotClient {
            http_endpoint: trim_end_char(http_endpoint, '/'),
            token: token.to_owned(),
            binding,
            capability,
        }
    }

    pub fn binding(&self) -> (res: &MountBinding)
        ensures
            res.repository_id@ == self@.repository_id,
            res.commit@ == self@.commit,
            res.algorithm == self@.algorithm,
            res.snapshot_time == self@.snapshot_time,
    {
        &self.binding
    }

    /// Take the capability a renewal gave.
    pub fn set_capability(&mut self, capability: String)
        ensures
            final(self)@ == (ClientView { capability: capability@, ..old(self)@ }),
    {
        self.capability = capability;
    }

    /// Take what a renewal gave: the capability, and the expiry, which is now
    /// where the server names none.
    pub fn renew_mount(
        &mut self,
        capability: String,
        lease_expiry: Option<Timestamp>,
        now: Timestamp,
    ) -> (res: Timestamp)
        ensures
            final(self)@ == (ClientView { capability: capability@, ..old(self)@ }),
            res == (match lease_expiry {
                Some(t) => t,
                None => now,
            }),
    {
        self.set_capability(capability);
        match lease_expiry {
            Some(t) => t,
            None => now,
        }
    }

    /// The entries of a batch, one for each path asked for: a path that failed
    /// has none, as one that is not there.
    pub fn batch_get_entry(results: Vec<Result<Option<TreeEntryInfo>, GfsError>>) -> (res: Vec<
        Option<TreeEntryInfo>,
    >)
        ensures
            res@.len() == results@.len(),
            forall|i: int|
                0 <= i < results@.len() ==> #[trigger] res@[i] == (match results@[i] {
                    Ok(entry) => entry,
                    Err(_) => None,
                }),
    {
        let ghost all = results@;
        let mut left = results;
        let mut back: Vec<Option<TreeEntryInfo>> = Vec::new();
        while left.len() > 0
            invariant
                left@.len() + back@.len() == all.len(),
                left@ == all.take(left@.len() as int),
                forall|i: int|
                    0 <= i < back@.len() ==> #[trigger] back@[i] == (match all[all.len() - 1 - i] {
                        Ok(entry) => entry,
                        Err(_) => None,
                    }),
            decreases left@.len(),
        {
            let ghost before = left@;
            match left.pop() {
                Some(Ok(entry)) => back.push(entry),
                Some(Err(_)) => back.push(None),
                None => {},
            }
            assert(left@ =~= all.take(left@.len() as int));
            assert(before.last() == all[before.len() - 1]);
        }
        let ghost n = back@;
        let mut out: Vec<Option<TreeEntryInfo>> = Vec::new();
        while back.len() > 0
            invariant
                n.len() == all.len(),
                out@.len() + back@.len() == n.len(),
                back@ == n.take(back@.len() as int),
                forall|i: int| 0 <= i < out@.len() ==> #[trigger] out@[i] == n[n.len() - 1 - i],
            decreases back@.len(),
        {
            let ghost before = back@;
            match back.pop() {
                Some(entry) => out.push(entry),
                None => {},
            }
            assert(back@ =~= n.take(back@.len() as int));
            assert(before.last() == n[before.len() - 1]);
        }
        out
    }

    /// The capability, to be kept across restarts.
    pub fn capability_for_persistence(&self) -> (res: String)
        ensures
            res@ == self@.capability,
    {
        self.capability.clone()
    }

    /// What a request is authorized by; none without a capability.
    pub fn authorization(&self) -> (res: Option<String>)
        ensures
            self@.capability.len() == 0 ==> res is None,
            self@.capability.len() > 0 ==> (res matches Some(c) && c@ == self@.capability),
    {
        if self.capability.as_str().unicode_len() == 0 {
            None
        } else {
            Some(self.capability.clone())
        }
    }

    /// The value of the authorization header; none without a token.
    pub fn bearer(&self) -> (res: Option<String>)
        ensures
            self@.token.len() == 0 ==> res is None,
            self@.token.len() > 0 ==> (res matches Some(h) && h@ == "Bearer "@ + self@.token),
    {
        if self.token.as_str().unicode_len() == 0 {
            return None;
        }
        let mut out = "Bearer ".to_owned();
        out.append(self.token.as_str());
        Some(out)
    }

    /// Where a blob is read from.
    pub fn blob_url(&self, oid: &ObjectId, ticket: &str) -> (res: String)
        ensures
            res@ == self@.http_endpoint + "/v1/repos/"@ + self@.repository_id + "/blobs/"@
                + oid@.qualified() + "?ticket="@ + ticket@,
    {
        let mut out = self.http_endpoint.clone();
        out.append("/v1/repos/");
        out.append(self.binding.repository_id.as_str());
        out.append("/blobs/");
        out.append(oid.to_qualified().as_str());
        out.append("?ticket=");
        out.append(ticket);
        out
    }

    /// Where the object store's manifest is read from.
    pub fn manifest_url(&self) -> (res: String)
        ensures
            res@ == self@.http_endpoint + "/v1/repos/"@ + self@.repository_id + "/odb"@,
    {
        let mut out = self.http_endpoint.clone();
        out.append("/v1/repos/");
        out.append(self.binding.repository_id.as_str());
        out.append("/odb");
        out
    }

    /// Where a file of the object store is read from.
    pub fn odb_url(&self, path: &str) -> (res: String)
        ensures
            res@ == self@.http_endpoint + "/v1/repos/"@ + self@.repository_id + "/odb"@ + "/"@
                + path@,
    {
        let mut out = self.manifest_url();
        out.append("/");
        out.append(path);
        out
    }

    /// The commit a log starts at: the pin, unless another is named.
    pub fn log_start(&self, from: Option<ObjectId>) -> (res: ObjectId)
        ensures
            res@ == (match from {
                Some(oid) => oid@,
                None => self@.commit,
            }),
    {
        match from {
            Some(oid) => oid,
            None => self.binding.commit.duplicate(),
        }
    }
}

/// The range header of the bytes from `start` to `end`, both included.
pub fn range_header(start: u64, end: u64) -> (res: String)
    ensures
        res@ == "bytes="@ + decimal(start as nat) + "-"@ + decimal(end as nat),
{
    let mut out = "bytes=".to_owned();
    push_decimal(&mut out, start);
    out.append("-");
    push_decimal(&mut out, end);
    out
}

} // verus!
