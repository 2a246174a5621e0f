//! One mounted workspace: what it is pinned to, what it answers, and when it
//! may move.
use vstd::prelude::*;
use crate::base64url::{b64url, b64url_decode, b64url_decoded, b64url_encode};
use crate::budget::BudgetReport;
use crate::bytes::copy_bytes;
use crate::cache::CacheStats;
use crate::client::LogQuery;
use crate::control::{
    BlameHunkEntry, BlameReport, CommitPlan, DiffFileEntry, DiffFormat, DiffStatus, FsMonitorAnswer,
    LogEntry, LogReport, LsEntry, LsReport, MountReport, MountSummary, OverlayStats, PlannedChange,
    RefreshReport, Request, RevDiffReport, StatusReport,
};
use crate::entry::{copy_opt_text, opt_text, CommitMeta, Signature, TreeEntryInfo};
use crate::error::{ErrorCode, GfsError};
use crate::fs::FsStats;
use crate::lease::{HealthState, LeaseHealth, LeasePolicy};
use crate::local::{MountId, RepositoryId};
use crate::node::{opt_path, OverlayEntry, OverlayView};
use crate::object::{ObjectId, ObjectIdView};
use crate::odb::{OdbStats, OdbViewStats};
use crate::path::BytePath;
use crate::status::{ChangeKind, Status, StatusChange};
use crate::strings::{find_char, join_text, joined_text, opt_view};
use crate::text::{
    decimal, decimal_text, hex, lemma_decimal_injective, lossy, lossy_text, push_decimal, utf8,
};
use crate::time::Timestamp;

verus! {

// ---------------------------------------------------------------------------
// The pin
// ---------------------------------------------------------------------------
/// What a [`Mount`] denotes.
#[verifier::ext_equal]
pub struct MountView {
    pub selector: Seq<char>,
    pub work_branch: Option<Seq<char>>,
    /// The generation of the pin; each re-pin is the next one.
    pub epoch: u64,
    pub commit: ObjectIdView,
    pub tree: ObjectIdView,
    pub ref_name: Option<Seq<char>>,
    pub snapshot_time: Timestamp,
    pub shutting_down: bool,
}

/// What a [`Target`] denotes.
#[verifier::ext_equal]
pub struct TargetView {
    pub selector: Seq<char>,
    pub work_branch: Option<Seq<char>>,
}

/// What a workspace is to look at: a selector, and the work branch it is on.
#[derive(Debug)]
pub struct Target {
    pub selector: String,
    pub work_branch: Option<String>,
}

impl View for Target {
    type V = TargetView;

    open spec fn view(&self) -> TargetView {
        TargetView { selector: self.selector@, work_branch: opt_text(self.work_branch) }
    }
}

impl MountView {
    /// What the workspace looks at.
    pub open spec fn target(self) -> TargetView {
        TargetView { selector: self.selector, work_branch: self.work_branch }
    }

    /// The next generation, at what a target was resolved to.
    pub open spec fn repinned(self, target: TargetView, pin: Pin) -> MountView {
        MountView {
            selector: target.selector,
            work_branch: target.work_branch,
            epoch: (self.epoch + 1) as u64,
            commit: pin.commit@,
            tree: pin.tree@,
            ref_name: opt_text(pin.ref_name),
            snapshot_time: pin.snapshot_time,
            ..self
        }
    }
}

/// What a workspace is pinned to.
#[derive(Debug)]
pub struct Pin {
    pub commit: ObjectId,
    pub tree: ObjectId,
    pub ref_name: Option<String>,
    pub snapshot_time: Timestamp,
}

/// What a report says of a workspace beside its pin.
#[derive(Debug)]
pub struct MountFacts<'a> {
    pub workspace: &'a str,
    pub state_dir: &'a str,
    pub repository_id: &'a RepositoryId,
    pub mount_id: &'a MountId,
    /// How the workspace is reached.
    pub publication: &'a str,
    pub daemon_pid: u32,
    pub owner_uid: u32,
    pub overlay: OverlayStats,
    pub health: LeaseHealth,
    pub stats: FsStats,
    pub cache: CacheStats,
    pub budget: BudgetReport,
    pub odb: OdbStats,
    pub odb_job: OdbViewStats,
    /// Live inodes, and paths ever numbered.
    pub inodes: (usize, usize),
}

/// A mounted workspace's own state.
#[derive(Debug)]
pub struct Mount {
    selector: String,
    work_branch: Option<String>,
    epoch: u64,
    pin: Pin,
    shutting_down: bool,
}

impl View for Mount {
    type V = MountView;

    closed spec fn view(&self) -> MountView {
        MountView {
            selector: self.selector@,
            work_branch: opt_text(self.work_branch),
            epoch: self.epoch,
            commit: self.pin.commit@,
            tree: self.pin.tree@,
            ref_name: opt_text(self.pin.ref_name),
            snapshot_time: self.pin.snapshot_time,
            shutting_down: self.shutting_down,
        }
    }
}

impl Mount {
    /// A workspace at its first pin.
    pub fn new(selector: String, pin: Pin) -> (res: Mount)
        ensures
            res@ == (MountView {
                selector: selector@,
                work_branch: None,
                epoch: 1,
                commit: pin.commit@,
                tree: pin.tree@,
                ref_name: opt_text(pin.ref_name),
                snapshot_time: pin.snapshot_time,
                shutting_down: false,
            }),
    {
        Mount { selector, work_branch: None, epoch: 1, pin, shutting_down: false }
    }

    pub fn selector(&self) -> (res: String)
        ensures
            res@ == self@.selector,
    {
        self.selector.clone()
    }

    pub fn work_branch(&self) -> (res: Option<String>)
        ensures
            opt_text(res) == self@.work_branch,
    {
        copy_opt_text(&self.work_branch)
    }

    pub fn pinned_commit(&self) -> (res: ObjectId)
        ensures
            res@ == self@.commit,
    {
        self.pin.commit.duplicate()
    }

    pub fn generation(&self) -> (res: u64)
        ensures
            res == self@.epoch,
    {
        self.epoch
    }

    pub fn ref_name(&self) -> (res: Option<String>)
        ensures
            opt_text(res) == self@.ref_name,
    {
        copy_opt_text(&self.pin.ref_name)
    }

    /// What a host says of this workspace.
    pub fn summary(
        &self,
        workspace: &str,
        state_dir: &str,
        repository_id: &RepositoryId,
        mount_id: &MountId,
        health: HealthState,
    ) -> (res: MountSummary)
        ensures
            res.workspace@ == workspace@,
            res.state_dir@ == state_dir@,
            res.repository_id@ == repository_id@,
            res.mount_id@ == mount_id@,
            res.revision_selector@ == self@.selector,
            res.commit@ == self@.commit.qualified(),
            res.generation == self@.epoch,
            res.health == health,
    {
        MountSummary {
            workspace: workspace.to_owned(),
            state_dir: state_dir.to_owned(),
            repository_id: repository_id.as_str().to_owned(),
            mount_id: mount_id.as_str().to_owned(),
            revision_selector: self.selector.clone(),
            commit: self.pin.commit.to_qualified(),
            generation: self.epoch,
            health,
        }
    }

    /// Everything about this workspace. It is never read-only.
    pub fn inspect(&self, facts: MountFacts<'_>) -> (res: MountReport)
        ensures
            res.mount_id@ == facts.mount_id@,
            res.repository_id@ == facts.repository_id@,
            res.revision_selector@ == self@.selector,
            opt_text(res.work_branch) == self@.work_branch,
            res.commit@ == self@.commit.qualified(),
            res.tree@ == self@.tree.qualified(),
            opt_text(res.ref_name) == self@.ref_name,
            res.snapshot_time == self@.snapshot_time,
            res.workspace@ == facts.workspace@,
            res.publication@ == facts.publication@,
            res.generation == self@.epoch,
            res.state_dir@ == facts.state_dir@,
            res.daemon_pid == facts.daemon_pid,
            res.owner_uid == facts.owner_uid,
            !res.read_only,
            res.overlay == facts.overlay,
            res.health == facts.health,
            res.stats == facts.stats,
            res.cache == facts.cache,
            res.budget == facts.budget,
            res.odb == facts.odb,
            res.odb_job == facts.odb_job,
            res.live_inodes == facts.inodes.0,
            res.assigned_inodes == facts.inodes.1,
    {
        MountReport {
            mount_id: facts.mount_id.as_str().to_owned(),
            repository_id: facts.repository_id.as_str().to_owned(),
            revision_selector: self.selector.clone(),
            work_branch: copy_opt_text(&self.work_branch),
            commit: self.pin.commit.to_qualified(),
            tree: self.pin.tree.to_qualified(),
            ref_name: copy_opt_text(&self.pin.ref_name),
            snapshot_time: self.pin.snapshot_time,
            workspace: facts.workspace.to_owned(),
            publication: facts.publication.to_owned(),
            generation: self.epoch,
            state_dir: facts.state_dir.to_owned(),
            daemon_pid: facts.daemon_pid,
            owner_uid: facts.owner_uid,
            read_only: false,
            overlay: facts.overlay,
            health: facts.health,
            stats: facts.stats,
            cache: facts.cache,
            budget: facts.budget,
            odb: facts.odb,
            odb_job: facts.odb_job,
            live_inodes: facts.inodes.0,
            assigned_inodes: facts.inodes.1,
        }
    }

    /// Whether a refresh may start, and what it looks at: what the workspace
    /// looks at now. A workspace with local changes is left alone.
    pub fn refresh(&self, clean: bool) -> (res: Result<Target, GfsError>)
        ensures
            clean ==> (res matches Ok(target) && target@ == self@.target()),
            !clean ==> (res matches Err(e) && e.reads(
                ErrorCode::FailedPrecondition,
                "the workspace has local changes; export them or discard them before refreshing (three-way refresh is out of scope)"@,
            )),
    {
        if !clean {
            return Err(
                GfsError::new(
                    ErrorCode::FailedPrecondition,
                    "the workspace has local changes; export them or discard them before refreshing (three-way refresh is out of scope)",
                ),
            );
        }
        Ok(Target { selector: self.selector.clone(), work_branch: copy_opt_text(&self.work_branch) })
    }

    /// Whether a switch may start, and what it looks at. Nothing changes until
    /// that is resolved. A workspace with local changes is left alone.
    pub fn switch_to(&self, clean: bool, selector: String, branch: Option<String>) -> (res: Result<
        Target,
        GfsError,
    >)
        ensures
            clean ==> (res matches Ok(target) && target@ == (TargetView {
                selector: selector@,
                work_branch: opt_text(branch),
            })),
            !clean ==> (res matches Err(e) && e.reads(
                ErrorCode::FailedPrecondition,
                "the workspace has local changes; commit or discard them before switching"@,
            )),
    {
        if !clean {
            return Err(
                GfsError::new(
                    ErrorCode::FailedPrecondition,
                    "the workspace has local changes; commit or discard them before switching",
                ),
            );
        }
        Ok(Target { selector, work_branch: branch })
    }

    /// What a workspace looks at to adopt a commit that was just made here: the
    /// commit, on the branch it is on.
    pub fn adopt_commit(&self, commit: &str) -> (res: Target)
        ensures
            res@ == (TargetView { selector: commit@, work_branch: self@.work_branch }),
    {
        Target { selector: commit.to_owned(), work_branch: copy_opt_text(&self.work_branch) }
    }

    /// Whether a re-pin may go on: local commits would be left behind.
    pub fn check_local_head(&self, local: Option<String>) -> (res: Result<(), GfsError>)
        ensures
            match opt_view(local) {
                None => res is Ok,
                Some(head) => if head == hex(self@.commit.digest) {
                    res is Ok
                } else {
                    res matches Err(e) && exists|short: Seq<char>|
                        shortened(head, short) && #[trigger] e.reads(
                            ErrorCode::FailedPrecondition,
                            ahead(short, self@.commit),
                        )
                },
            },
    {
        let local = match local {
            None => return Ok(()),
            Some(l) => l,
        };
        let pinned = self.pin.commit.to_hex();
        if local == pinned {
            return Ok(());
        }
        let short = shorten(local.as_str());
        let mut message = "the workspace has local commits (".to_owned();
        message.append(short.as_str());
        message.append(" is ahead of the pinned ");
        message.append(pinned.as_str());
        message.append("); push them before switching");
        assert(shortened(local@, short@));
        let e = GfsError::of(ErrorCode::FailedPrecondition, message);
        assert(e.reads(ErrorCode::FailedPrecondition, ahead(short@, self@.commit)));
        Err(e)
    }

    /// Whether another generation can be counted.
    pub fn can_repin(&self) -> (res: bool)
        ensures
            res == (self@.epoch < u64::MAX),
    {
        self.epoch < u64::MAX
    }

    /// Look at what a target was resolved to, as the next generation; the
    /// answer is what changed. A target that was not resolved changes nothing.
    pub fn repin(&mut self, target: Target, resolved: Result<Pin, GfsError>) -> (res: Result<
        RefreshReport,
        GfsError,
    >)
        requires
            old(self)@.epoch < u64::MAX,
        ensures
            match resolved {
                Err(e) => final(self)@ == old(self)@ && res == Err::<RefreshReport, GfsError>(e),
                Ok(pin) => {
                    &&& final(self)@ == old(self)@.repinned(target@, pin)
                    &&& res matches Ok(report)
                    &&& report.previous_generation == old(self)@.epoch
                    &&& report.generation == old(self)@.epoch + 1
                    &&& report.previous_commit@ == old(self)@.commit.qualified()
                    &&& report.commit@ == pin.commit@.qualified()
                    &&& report.unchanged == (old(self)@.commit == pin.commit@)
                },
            },
    {
        let pin = match resolved {
            Ok(pin) => pin,
            Err(e) => return Err(e),
        };
        let report = RefreshReport {
            previous_generation: self.epoch,
            generation: self.epoch + 1,
            previous_commit: self.pin.commit.to_qualified(),
            commit: pin.commit.to_qualified(),
            unchanged: self.pin.commit.same(&pin.commit),
        };
        self.selector = target.selector;
        self.work_branch = target.work_branch;
        self.epoch = self.epoch + 1;
        self.pin = pin;
        Ok(report)
    }

    /// Begin to shut down; the answer is whether this is the first time.
    pub fn shutdown(&mut self) -> (res: bool)
        ensures
            final(self)@ == (MountView { shutting_down: true, ..old(self)@ }),
            res == !old(self)@.shutting_down,
    {
        let first = !self.shutting_down;
        self.shutting_down = true;
        first
    }
}

/// What a re-pin that would leave commits behind says.
pub open spec fn ahead(short: Seq<char>, pinned: ObjectIdView) -> Seq<char> {
    "the workspace has local commits ("@ + short + " is ahead of the pinned "@ + hex(pinned.digest)
        + "); push them before switching"@
}

/// The first twelve bytes of a text, or all of it where they do not end a
/// character.
pub open spec fn shortened(text: Seq<char>, short: Seq<char>) -> bool {
    if utf8(text).len() >= 12 && vstd::utf8::is_char_boundary(utf8(text), 12) {
        utf8(short) == utf8(text).subrange(0, 12)
    } else {
        short == text
    }
}

fn shorten(text: &str) -> (res: String)
    ensures
        shortened(text@, res@),
{
    if text.as_bytes().len() >= 12 && text.is_char_boundary(12) {
        let (head, _) = text.split_at(12);
        head.to_owned()
    } else {
        text.to_owned()
    }
}

/// The directory of a generation's overlay.
pub open spec fn overlay_path(state_dir: Seq<char>, epoch: u64) -> Seq<char> {
    joined_text(joined_text(state_dir, "overlay"@), decimal(epoch as nat))
}

/// The directory of a generation's overlay.
pub fn overlay_dir(state_dir: &str, epoch: u64) -> (res: String)
    ensures
        res@ == overlay_path(state_dir@, epoch),
{
    let dir = join_text(state_dir, "overlay");
    join_text(dir.as_str(), decimal_text(epoch).as_str())
}

/// Each epoch has an overlay directory of its own, so a superseded overlay is
/// never written again.
pub proof fn law_each_epoch_has_its_own_overlay(state_dir: Seq<char>, a: u64, b: u64)
    requires
        overlay_path(state_dir, a) == overlay_path(state_dir, b),
    ensures
        a == b,
{
    let dir = joined_text(state_dir, "overlay"@);
    let x = decimal(a as nat);
    let y = decimal(b as nat);
    let head = if dir.len() == 0 || dir.last() == '/' {
        dir
    } else {
        dir + "/"@
    };
    assert(overlay_path(state_dir, a) == head + x && overlay_path(state_dir, b) == head + y);
    assert((head + x).skip(head.len() as int) =~= x);
    assert((head + y).skip(head.len() as int) =~= y);
    lemma_decimal_injective(a as nat, b as nat);
}

// ---------------------------------------------------------------------------
// The grant a pin comes from
// ---------------------------------------------------------------------------
/// What the server answers to a request for a pin.
#[derive(Debug)]
pub struct Grant {
    pub commit_oid: String,
    pub tree_oid: String,
    /// What the parser of mount IDs made of the server's.
    pub mount_id: Result<MountId, GfsError>,
    pub ref_name: Option<String>,
    pub snapshot_time: Option<Timestamp>,
    pub lease_expiry: Option<Timestamp>,
    /// Zero leaves the interval to the policy.
    pub heartbeat_interval_seconds: u64,
    /// Empty where work refs are not allowed.
    pub work_ref_root: String,
}

/// A grant that can be used.
#[derive(Debug)]
pub struct Granted {
    pub pin: Pin,
    pub mount_id: MountId,
    pub lease_expiry: Timestamp,
    pub interval_secs: u64,
    pub work_ref_root: Option<String>,
}

/// Whether a text names an object.
pub open spec fn readable(text: Seq<char>) -> bool {
    exists|oid: ObjectIdView|
        oid.digest.len() == oid.algorithm.width() && #[trigger] oid.qualified() == text
}

/// What a grant comes to.
pub open spec fn grant_outcome(g: Grant, policy: LeasePolicy, res: Result<Granted, GfsError>) -> bool {
    if !readable(g.commit_oid@) {
        res matches Err(e) && e.reads(
            ErrorCode::Internal,
            "server returned an unparseable commit: "@ + "not a qualified object ID"@,
        )
    } else if !readable(g.tree_oid@) {
        res matches Err(e) && e.reads(
            ErrorCode::Internal,
            "server returned an unparseable tree: "@ + "not a qualified object ID"@,
        )
    } else if g.mount_id is Err {
        res == Err::<Granted, GfsError>(g.mount_id->Err_0)
    } else if g.snapshot_time is None {
        res matches Err(e) && e.reads(ErrorCode::Internal, "server returned no snapshot time"@)
    } else if g.lease_expiry is None {
        res matches Err(e) && e.reads(ErrorCode::Internal, "server returned no lease expiry"@)
    } else {
        res matches Ok(out) && out.pin.commit@.qualified() == g.commit_oid@
            && out.pin.tree@.qualified() == g.tree_oid@ && opt_text(out.pin.ref_name) == opt_text(
            g.ref_name,
        ) && out.pin.snapshot_time == g.snapshot_time->0 && out.mount_id == g.mount_id->Ok_0
            && out.lease_expiry == g.lease_expiry->0 && out.interval_secs == (
        if g.heartbeat_interval_seconds == 0 {
            policy.heartbeat_interval_secs
        } else {
            g.heartbeat_interval_seconds
        }) && opt_text(out.work_ref_root) == (if g.work_ref_root@.len() == 0 {
            None
        } else {
            Some(g.work_ref_root@)
        })
    }
}

/// Take a grant. The cadence of renewals is the server's; only where it names
/// none does the policy's apply.
pub fn accept_grant(grant: Grant, policy: LeasePolicy) -> (res: Result<Granted, GfsError>)
    ensures
        grant_outcome(grant, policy, res),
{
    let commit = match ObjectId::parse_qualified(grant.commit_oid.as_str()) {
        Ok(oid) => oid,
        Err(e) => {
            let mut message = "server returned an unparseable commit: ".to_owned();
            message.append(e.to_text().as_str());
            return Err(GfsError::of(ErrorCode::Internal, message));
        },
    };
    let tree = match ObjectId::parse_qualified(grant.tree_oid.as_str()) {
        Ok(oid) => oid,
        Err(e) => {
            let mut message = "server returned an unparseable tree: ".to_owned();
            message.append(e.to_text().as_str());
            return Err(GfsError::of(ErrorCode::Internal, message));
        },
    };
    let mount_id = match grant.mount_id {
        Ok(id) => id,
        Err(e) => return Err(e),
    };
    let snapshot_time = match grant.snapshot_time {
        Some(t) => t,
        None => return Err(GfsError::internal("server returned no snapshot time")),
    };
    let lease_expiry = match grant.lease_expiry {
        Some(t) => t,
        None => return Err(GfsError::internal("server returned no lease expiry")),
    };
    let interval_secs = if grant.heartbeat_interval_seconds == 0 {
        policy.heartbeat_interval_secs
    } else {
        grant.heartbeat_interval_seconds
    };
    let work_ref_root = if grant.work_ref_root.as_str().unicode_len() == 0 {
        None
    } else {
        Some(grant.work_ref_root)
    };
    Ok(
        Granted {
            pin: Pin { commit, tree, ref_name: grant.ref_name, snapshot_time },
            mount_id,
            lease_expiry,
            interval_secs,
            work_ref_root,
        },
    )
}

/// What becomes of a state directory's control socket.
#[derive(Clone, Copy, PartialEq, Eq, Structural, Debug)]
pub enum SocketFate {
    /// There is none.
    Absent,
    /// Nobody listens on it; remove it.
    Stale,
}

/// Whether a state directory may be taken over: not while a daemon lives in
/// it.
pub fn adopt_or_refuse_state_dir(exists: bool, live: bool, state_dir: &str) -> (res: Result<
    SocketFate,
    GfsError,
>)
    ensures
        !exists ==> res == Ok::<SocketFate, GfsError>(SocketFate::Absent),
        exists && !live ==> res == Ok::<SocketFate, GfsError>(SocketFate::Stale),
        exists && live ==> (res matches Err(e) && e.reads(
            ErrorCode::Conflict,
            "a live GFS daemon already owns "@ + state_dir@
                + "; unmount it before mounting again"@,
        )),
{
    if !exists {
        return Ok(SocketFate::Absent);
    }
    if live {
        let mut message = "a live GFS daemon already owns ".to_owned();
        message.append(state_dir);
        message.append("; unmount it before mounting again");
        return Err(GfsError::of(ErrorCode::Conflict, message));
    }
    Ok(SocketFate::Stale)
}

// ---------------------------------------------------------------------------
// Requests
// ---------------------------------------------------------------------------
/// What a request asks the mount to do, its paths decoded.
#[derive(Debug)]
pub enum Action {
    Inspect,
    Health,
    Refresh,
    Switch { selector: String, branch: Option<String> },
    Status,
    FsMonitorChanges { token: String },
    Diff,
    Export { bundle: String },
    Search(String),
    Log { from: Option<String>, query: LogQuery },
    /// Its paths are decoded once its revisions are resolved.
    DiffRevs {
        base: Option<String>,
        to: String,
        parent: Option<u32>,
        format: DiffFormat,
        context_lines: Option<u32>,
        paths_b64url: Vec<String>,
    },
    Ls { rev: Option<String>, path: BytePath, page_size: u32 },
    Cat { rev: Option<String>, path: BytePath },
    Blame { rev: Option<String>, path: BytePath },
    Find(String),
    CommitPlan,
    AdoptCommit { commit: String },
    Unmount,
}

/// Decoded paths, when every one decodes.
pub open spec fn decoded_paths(texts: Seq<String>, n: nat) -> Option<Seq<Seq<u8>>>
    decreases n,
{
    if n == 0 {
        Some(Seq::empty())
    } else {
        match decoded_paths(texts, (n - 1) as nat) {
            None => None,
            Some(before) => match b64url_decoded(texts[n - 1]@) {
                Some(path) => Some(before.push(path)),
                None => None,
            },
        }
    }
}

/// Paths as their bytes.
pub open spec fn path_views(paths: Seq<BytePath>) -> Seq<Seq<u8>> {
    Seq::new(paths.len(), |i: int| paths[i]@)
}

/// Paths decoded from a request.
pub fn decode_paths(texts: &Vec<String>) -> (res: Result<Vec<BytePath>, GfsError>)
    ensures
        match decoded_paths(texts@, texts@.len()) {
            Some(paths) => res matches Ok(p) && path_views(p@) == paths,
            None => res matches Err(e) && e.reads(ErrorCode::InvalidArgument, "not base64url"@),
        },
{
    let mut paths: Vec<BytePath> = Vec::new();
    let mut i: usize = 0;
    assert(path_views(paths@) =~= Seq::<Seq<u8>>::empty());
    while i < texts.len()
        invariant
            i <= texts@.len(),
            decoded_paths(texts@, i as nat) == Some(path_views(paths@)),
        decreases texts.len() - i,
    {
        match b64url_decode(texts[i].as_str()) {
            Ok(bytes) => {
                let ghost before = paths@;
                paths.push(BytePath::new(bytes));
                assert(path_views(paths@) =~= path_views(before).push(bytes@));
            },
            Err(e) => {
                proof {
                    lemma_undecodable(texts@, (i + 1) as nat, texts@.len());
                }
                return Err(e);
            },
        }
        i = i + 1;
    }
    Ok(paths)
}

proof fn lemma_undecodable(texts: Seq<String>, a: nat, b: nat)
    requires
        a <= b,
        decoded_paths(texts, a) is None,
    ensures
        decoded_paths(texts, b) is None,
    decreases b,
{
    if a < b {
        lemma_undecodable(texts, a, (b - 1) as nat);
    }
}

/// What a request asks for. Only a path that does not decode is refused here.
pub open spec fn handle_outcome(r: Request, res: Result<Action, GfsError>) -> bool {
    match r {
        Request::Inspect => res == Ok::<Action, GfsError>(Action::Inspect),
        Request::Health => res == Ok::<Action, GfsError>(Action::Health),
        Request::Refresh => res == Ok::<Action, GfsError>(Action::Refresh),
        Request::Switch { selector, branch } => res == Ok::<Action, GfsError>(
            Action::Switch { selector, branch },
        ),
        Request::Status => res == Ok::<Action, GfsError>(Action::Status),
        Request::FsMonitorChanges { token } => res == Ok::<Action, GfsError>(
            Action::FsMonitorChanges { token },
        ),
        Request::Diff => res == Ok::<Action, GfsError>(Action::Diff),
        Request::Export { bundle } => res == Ok::<Action, GfsError>(Action::Export { bundle }),
        Request::Search(query) => res == Ok::<Action, GfsError>(Action::Search(query)),
        Request::Find(query) => res == Ok::<Action, GfsError>(Action::Find(query)),
        Request::CommitPlan => res == Ok::<Action, GfsError>(Action::CommitPlan),
        Request::AdoptCommit { commit } => res == Ok::<Action, GfsError>(
            Action::AdoptCommit { commit },
        ),
        Request::Unmount => res == Ok::<Action, GfsError>(Action::Unmount),
        Request::DiffRevs { from, to, parent, format, context_lines, paths_b64url } => res == Ok::<
            Action,
            GfsError,
        >(
            Action::DiffRevs { base: from, to, parent, format, context_lines, paths_b64url },
        ),
        Request::Log { skip, limit, from, first_parent, paths_b64url } => match decoded_paths(
            paths_b64url@,
            paths_b64url@.len(),
        ) {
            Some(paths) => res matches Ok(Action::Log { from: f, query }) && f == from && query.skip
                == skip && query.limit == limit && query.first_parent == first_parent
                && path_views(query.paths@) == paths,
            None => undecodable(res),
        },
        Request::Ls { rev, path_b64url, page_size } => match b64url_decoded(path_b64url@) {
            Some(bytes) => res matches Ok(Action::Ls { rev: r, path, page_size: n }) && r == rev
                && path@ == bytes && n == page_size,
            None => undecodable(res),
        },
        Request::Cat { rev, path_b64url } => match b64url_decoded(path_b64url@) {
            Some(bytes) => res matches Ok(Action::Cat { rev: r, path }) && r == rev && path@
                == bytes,
            None => undecodable(res),
        },
        Request::Blame { rev, path_b64url } => match b64url_decoded(path_b64url@) {
            Some(bytes) => res matches Ok(Action::Blame { rev: r, path }) && r == rev && path@
                == bytes,
            None => undecodable(res),
        },
    }
}

/// A path did not decode.
pub open spec fn undecodable(res: Result<Action, GfsError>) -> bool {
    res matches Err(e) && e.reads(ErrorCode::InvalidArgument, "not base64url"@)
}

/// What a request asks for.
pub fn handle(request: Request) -> (res: Result<Action, GfsError>)
    ensures
        handle_outcome(request, res),
{
    match request {
        Request::Inspect => Ok(Action::Inspect),
        Request::Health => Ok(Action::Health),
        Request::Refresh => Ok(Action::Refresh),
        Request::Switch { selector, branch } => Ok(Action::Switch { selector, branch }),
        Request::Status => Ok(Action::Status),
        Request::FsMonitorChanges { token } => Ok(Action::FsMonitorChanges { token }),
        Request::Diff => Ok(Action::Diff),
        Request::Export { bundle } => Ok(Action::Export { bundle }),
        Request::Search(query) => Ok(Action::Search(query)),
        Request::Find(query) => Ok(Action::Find(query)),
        Request::CommitPlan => Ok(Action::CommitPlan),
        Request::AdoptCommit { commit } => Ok(Action::AdoptCommit { commit }),
        Request::Unmount => Ok(Action::Unmount),
        Request::DiffRevs { from, to, parent, format, context_lines, paths_b64url } => Ok(
            Action::DiffRevs { base: from, to, parent, format, context_lines, paths_b64url },
        ),
        Request::Log { skip, limit, from, first_parent, paths_b64url } => match decode_paths(
            &paths_b64url,
        ) {
            Ok(paths) => Ok(
                Action::Log { from, query: LogQuery { skip, limit, first_parent, paths } },
            ),
            Err(e) => Err(e),
        },
        Request::Ls { rev, path_b64url, page_size } => match b64url_decode(path_b64url.as_str()) {
            Ok(bytes) => Ok(Action::Ls { rev, path: BytePath::new(bytes), page_size }),
            Err(e) => Err(e),
        },
        Request::Cat { rev, path_b64url } => match b64url_decode(path_b64url.as_str()) {
            Ok(bytes) => Ok(Action::Cat { rev, path: BytePath::new(bytes) }),
            Err(e) => Err(e),
        },
        Request::Blame { rev, path_b64url } => match b64url_decode(path_b64url.as_str()) {
            Ok(bytes) => Ok(Action::Blame { rev, path: BytePath::new(bytes) }),
            Err(e) => Err(e),
        },
    }
}

// ---------------------------------------------------------------------------
// Revisions
// ---------------------------------------------------------------------------
/// How a revision is resolved.
#[derive(Debug)]
pub enum Resolve {
    /// It is the pinned commit.
    Pinned,
    /// Ask the server for this selector.
    Ask(String),
}

/// Where the navigation suffix of a selector starts.
pub open spec fn suffix_start(selector: Seq<char>) -> int {
    let tilde = find_char(selector, '~', 0);
    let caret = find_char(selector, '^', 0);
    if tilde < caret {
        tilde
    } else {
        caret
    }
}

/// How a revision is resolved: here `HEAD` is the pinned commit, whatever the
/// server's own is.
pub fn resolve_here(pin: &ObjectId, selector: &str) -> (res: Resolve)
    ensures
        ({
            let at = suffix_start(selector@);
            let suffix = selector@.skip(at);
            if selector@.take(at) != "HEAD"@ {
                res matches Resolve::Ask(s) && s@ == selector@
            } else if suffix.len() == 0 {
                res is Pinned
            } else {
                res matches Resolve::Ask(s) && s@ == pin@.qualified() + suffix
            }
        }),
{
    let n = selector.unicode_len();
    let tilde = crate::strings::char_position(selector, '~');
    let caret = crate::strings::char_position(selector, '^');
    let at = if tilde < caret {
        tilde
    } else {
        caret
    };
    let base = selector.substring_char(0, at).to_owned();
    assert(base@ =~= selector@.take(at as int));
    if base != "HEAD".to_owned() {
        return Resolve::Ask(selector.to_owned());
    }
    if at == n {
        return Resolve::Pinned;
    }
    let suffix = selector.substring_char(at, n);
    assert(suffix@ =~= selector@.skip(at as int));
    let mut out = pin.to_qualified();
    out.append(suffix);
    Resolve::Ask(out)
}

/// The parent a commit is diffed against when no base is named.
pub open spec fn parent_index(parent: Option<u32>) -> int {
    match parent {
        Some(n) => if n == 0 {
            0
        } else {
            n - 1
        },
        None => 0,
    }
}

/// The commit a commit is diffed against when no base is named: its first
/// parent, or the one asked for. A root commit has none; a parent it does not
/// have is refused.
pub fn diff_base(parents: &Vec<ObjectId>, parent: Option<u32>) -> (res: Result<
    Option<ObjectId>,
    GfsError,
>)
    ensures
        ({
            let i = parent_index(parent);
            if i < parents@.len() {
                res matches Ok(Some(p)) && p@ == parents@[i]@
            } else if i == 0 {
                res == Ok::<Option<ObjectId>, GfsError>(None)
            } else {
                res matches Err(e) && e.reads(
                    ErrorCode::InvalidArgument,
                    "that commit has "@ + decimal(parents@.len())
                        + " parent(s), so there is no parent "@ + decimal((i + 1) as nat),
                )
            }
        }),
{
    let index: u64 = match parent {
        Some(n) => if n == 0 {
            0
        } else {
            n as u64 - 1
        },
        None => 0,
    };
    if index < parents.len() as u64 {
        return Ok(Some(parents[index as usize].duplicate()));
    }
    if index == 0 {
        return Ok(None);
    }
    let mut message = "that commit has ".to_owned();
    push_decimal(&mut message, parents.len() as u64);
    message.append(" parent(s), so there is no parent ");
    push_decimal(&mut message, index + 1);
    Err(GfsError::of(ErrorCode::InvalidArgument, message))
}

/// One file of a diff, as the server gives it.
#[derive(Debug)]
pub struct DiffFileChange {
    pub path: BytePath,
    pub old_path: Option<BytePath>,
    pub status: DiffStatus,
    pub additions: u32,
    pub deletions: u32,
    pub binary: bool,
    pub old_mode: u32,
    pub new_mode: u32,
}

/// A diff, as the server gives it.
#[derive(Debug)]
pub struct RevDiff {
    pub rendered: Vec<u8>,
    pub files: Vec<DiffFileChange>,
    pub truncated: bool,
}

/// Whether an entry reports a file of a diff.
pub open spec fn reports_file(e: DiffFileEntry, f: DiffFileChange) -> bool {
    &&& e.path_b64url@ == b64url(f.path@)
    &&& opt_text(e.old_path_b64url) == (match opt_path(f.old_path) {
        Some(p) => Some(b64url(p)),
        None => None,
    })
    &&& e.status == f.status
    &&& e.additions == f.additions
    &&& e.deletions == f.deletions
    &&& e.binary == f.binary
    &&& e.old_mode == f.old_mode
    &&& e.new_mode == f.new_mode
}

fn diff_file(f: &DiffFileChange) -> (res: DiffFileEntry)
    ensures
        reports_file(res, *f),
{
    let old_path_b64url = match &f.old_path {
        Some(p) => Some(b64url_encode(p.as_bytes())),
        None => None,
    };
    DiffFileEntry {
        path_b64url: b64url_encode(f.path.as_bytes()),
        old_path_b64url,
        status: f.status,
        additions: f.additions,
        deletions: f.deletions,
        binary: f.binary,
        old_mode: f.old_mode,
        new_mode: f.new_mode,
    }
}

/// A diff of two commits, for the control protocol.
pub fn diff_revs(base: Option<ObjectId>, to: &ObjectId, diff: &RevDiff) -> (res: RevDiffReport)
    ensures
        opt_text(res.base_commit) == (match base {
            Some(b) => Some(b@.qualified()),
            None => None,
        }),
        res.commit@ == to@.qualified(),
        res.rendered_b64url@ == b64url(diff.rendered@),
        res.files@.len() == diff.files@.len(),
        forall|i: int|
            0 <= i < diff.files@.len() ==> reports_file(#[trigger] res.files@[i], diff.files@[i]),
        res.truncated == diff.truncated,
{
    let mut files: Vec<DiffFileEntry> = Vec::new();
    let mut i: usize = 0;
    while i < diff.files.len()
        invariant
            i <= diff.files@.len(),
            files@.len() == i,
            forall|k: int| 0 <= k < i ==> reports_file(#[trigger] files@[k], diff.files@[k]),
        decreases diff.files.len() - i,
    {
        files.push(diff_file(&diff.files[i]));
        i = i + 1;
    }
    let base_commit = match base {
        Some(b) => Some(b.to_qualified()),
        None => None,
    };
    RevDiffReport {
        base_commit,
        commit: to.to_qualified(),
        rendered_b64url: b64url_encode(diff.rendered.as_slice()),
        files,
        truncated: diff.truncated,
    }
}

// ---------------------------------------------------------------------------
// History
// ---------------------------------------------------------------------------
/// Whether an entry reports a commit.
pub open spec fn reports_commit(e: LogEntry, c: CommitMeta) -> bool {
    &&& e.commit@ == c.commit@.qualified()
    &&& e.tree@ == c.tree@.qualified()
    &&& e.parents@.len() == c.parents@.len()
    &&& forall|i: int|
        0 <= i < c.parents@.len() ==> (#[trigger] e.parents@[i])@ == c.parents@[i]@.qualified()
    &&& e.author_name@ == c.author.name@
    &&& e.author_email@ == c.author.email@
    &&& e.author_time == c.author.time.secs
    &&& e.author_tz_offset_minutes == c.author.tz_offset_minutes
    &&& e.committer_name@ == c.committer.name@
    &&& e.committer_email@ == c.committer.email@
    &&& e.committer_time == c.committer.time.secs
    &&& e.committer_tz_offset_minutes == c.committer.tz_offset_minutes
    &&& e.message@ == c.message@
}

/// A commit, for the control protocol.
pub fn log_entry(c: &CommitMeta) -> (res: LogEntry)
    ensures
        reports_commit(res, *c),
{
    let mut parents: Vec<String> = Vec::new();
    let mut i: usize = 0;
    while i < c.parents.len()
        invariant
            i <= c.parents@.len(),
            parents@.len() == i,
            forall|k: int| 0 <= k < i ==> (#[trigger] parents@[k])@ == c.parents@[k]@.qualified(),
        decreases c.parents.len() - i,
    {
        parents.push(c.parents[i].to_qualified());
        i = i + 1;
    }
    LogEntry {
        commit: c.commit.to_qualified(),
        tree: c.tree.to_qualified(),
        parents,
        author_name: copy_bytes(c.author.name.as_slice()),
        author_email: copy_bytes(c.author.email.as_slice()),
        author_time: c.author.time.secs,
        author_tz_offset_minutes: c.author.tz_offset_minutes,
        committer_name: copy_bytes(c.committer.name.as_slice()),
        committer_email: copy_bytes(c.committer.email.as_slice()),
        committer_time: c.committer.time.secs,
        committer_tz_offset_minutes: c.committer.tz_offset_minutes,
        message: copy_bytes(c.message.as_slice()),
    }
}

/// A page of history. A log from a named revision is of no ref.
pub fn log(
    start: &ObjectId,
    from_pin: bool,
    ref_name: &Option<String>,
    commits: &Vec<CommitMeta>,
    has_more: bool,
) -> (res: LogReport)
    ensures
        res.base_commit@ == start@.qualified(),
        opt_text(res.ref_name) == (if from_pin {
            opt_text(*ref_name)
        } else {
            None
        }),
        res.commits@.len() == commits@.len(),
        forall|i: int|
            0 <= i < commits@.len() ==> reports_commit(#[trigger] res.commits@[i], commits@[i]),
        res.has_more == has_more,
{
    let mut entries: Vec<LogEntry> = Vec::new();
    let mut i: usize = 0;
    while i < commits.len()
        invariant
            i <= commits@.len(),
            entries@.len() == i,
            forall|k: int| 0 <= k < i ==> reports_commit(#[trigger] entries@[k], commits@[k]),
        decreases commits.len() - i,
    {
        entries.push(log_entry(&commits[i]));
        i = i + 1;
    }
    let ref_name = if from_pin {
        copy_opt_text(ref_name)
    } else {
        None
    };
    LogReport { base_commit: start.to_qualified(), ref_name, commits: entries, has_more }
}

/// Whether an entry lists a tree entry.
pub open spec fn lists(e: LsEntry, t: TreeEntryInfo) -> bool {
    &&& e.path_b64url@ == b64url(t.path@)
    &&& e.mode == t.mode
    &&& e.size == t.size
    &&& e.oid@ == t.oid@.qualified()
}

/// A listing of a directory at a commit, from all its pages.
pub fn ls(commit: &ObjectId, entries: &Vec<TreeEntryInfo>) -> (res: LsReport)
    ensures
        res.commit@ == commit@.qualified(),
        res.entries@.len() == entries@.len(),
        forall|i: int| 0 <= i < entries@.len() ==> lists(#[trigger] res.entries@[i], entries@[i]),
{
    let mut out: Vec<LsEntry> = Vec::new();
    let mut i: usize = 0;
    while i < entries.len()
        invariant
            i <= entries@.len(),
            out@.len() == i,
            forall|k: int| 0 <= k < i ==> lists(#[trigger] out@[k], entries@[k]),
        decreases entries.len() - i,
    {
        let e = &entries[i];
        out.push(
            LsEntry {
                path_b64url: b64url_encode(e.path.as_bytes()),
                mode: e.mode,
                size: e.size,
                oid: e.oid.to_qualified(),
            },
        );
        i = i + 1;
    }
    LsReport { commit: commit.to_qualified(), entries: out }
}

/// What a file at a commit is read with: its object and a ticket.
pub fn cat(entry: Option<TreeEntryInfo>) -> (res: Result<(ObjectId, String), GfsError>)
    ensures
        match entry {
            None => res matches Err(e) && e.reads(
                ErrorCode::NotFound,
                "no such path in this commit"@,
            ),
            Some(t) => match t@.blob_ticket {
                None => res matches Err(e) && e.reads(
                    ErrorCode::InvalidArgument,
                    "that path has no file content to print"@,
                ),
                Some(ticket) => res matches Ok(pair) && pair.0@ == t@.oid && pair.1@ == ticket,
            },
        },
{
    match entry {
        None => Err(GfsError::not_found("no such path in this commit")),
        Some(t) => match t.blob_ticket {
            None => Err(GfsError::invalid("that path has no file content to print")),
            Some(ticket) => Ok((t.oid, ticket)),
        },
    }
}

/// Consecutive lines with one origin, as the server gives them.
#[derive(Debug)]
pub struct BlameHunk {
    pub final_start_line: u32,
    pub lines: u32,
    pub commit: ObjectId,
    pub orig_path: BytePath,
    pub orig_start_line: u32,
    pub author: Signature,
    pub boundary: bool,
}

/// The origins of a file's lines, as the server gives them.
#[derive(Debug)]
pub struct Blame {
    pub hunks: Vec<BlameHunk>,
    pub content: Vec<u8>,
    pub truncated: bool,
}

/// Whether an entry reports a hunk.
pub open spec fn reports_hunk(e: BlameHunkEntry, h: BlameHunk) -> bool {
    &&& e.final_start_line == h.final_start_line
    &&& e.lines == h.lines
    &&& e.commit@ == h.commit@.qualified()
    &&& e.orig_path_b64url@ == b64url(h.orig_path@)
    &&& e.orig_start_line == h.orig_start_line
    &&& e.author_name@ == h.author.name@
    &&& e.author_email@ == h.author.email@
    &&& e.author_time == h.author.time.secs
    &&& e.author_tz_offset_minutes == h.author.tz_offset_minutes
    &&& e.boundary == h.boundary
}

/// The origins of a file's lines, for the control protocol.
pub fn blame(commit: &ObjectId, path: &BytePath, origins: &Blame) -> (res: BlameReport)
    ensures
        res.commit@ == commit@.qualified(),
        res.path_b64url@ == b64url(path@),
        res.hunks@.len() == origins.hunks@.len(),
        forall|i: int|
            0 <= i < origins.hunks@.len() ==> reports_hunk(#[trigger] res.hunks@[i], origins.hunks@[i]),
        res.content_b64url@ == b64url(origins.content@),
        res.truncated == origins.truncated,
{
    let mut hunks: Vec<BlameHunkEntry> = Vec::new();
    let mut i: usize = 0;
    while i < origins.hunks.len()
        invariant
            i <= origins.hunks@.len(),
            hunks@.len() == i,
            forall|k: int| 0 <= k < i ==> reports_hunk(#[trigger] hunks@[k], origins.hunks@[k]),
        decreases origins.hunks.len() - i,
    {
        let h = &origins.hunks[i];
        hunks.push(
            BlameHunkEntry {
                final_start_line: h.final_start_line,
                lines: h.lines,
                commit: h.commit.to_qualified(),
                orig_path_b64url: b64url_encode(h.orig_path.as_bytes()),
                orig_start_line: h.orig_start_line,
                author_name: copy_bytes(h.author.name.as_slice()),
                author_email: copy_bytes(h.author.email.as_slice()),
                author_time: h.author.time.secs,
                author_tz_offset_minutes: h.author.tz_offset_minutes,
                boundary: h.boundary,
            },
        );
        i = i + 1;
    }
    BlameReport {
        commit: commit.to_qualified(),
        path_b64url: b64url_encode(path.as_bytes()),
        hunks,
        content_b64url: b64url_encode(origins.content.as_slice()),
        truncated: origins.truncated,
    }
}

// ---------------------------------------------------------------------------
// Committing
// ---------------------------------------------------------------------------
/// One change of a commit.
#[derive(Debug)]
pub enum CommitChange {
    Upsert { path: BytePath, mode: u32, content: Vec<u8> },
    Delete { path: BytePath },
}

/// What a [`CommitChange`] denotes.
pub enum CommitChangeView {
    Upsert { path: Seq<u8>, mode: u32, content: Seq<u8> },
    Delete { path: Seq<u8> },
}

impl View for CommitChange {
    type V = CommitChangeView;

    open spec fn view(&self) -> CommitChangeView {
        match *self {
            CommitChange::Upsert { path, mode, content } => CommitChangeView::Upsert {
                path: path@,
                mode,
                content: content@,
            },
            CommitChange::Delete { path } => CommitChangeView::Delete { path: path@ },
        }
    }
}

/// Changes as their meaning.
pub open spec fn commit_views(changes: Seq<CommitChange>) -> Seq<CommitChangeView> {
    Seq::new(changes.len(), |i: int| changes[i]@)
}

/// What a workspace would commit.
#[derive(Debug)]
pub struct PendingCommit {
    pub base_commit: ObjectId,
    pub changes: Vec<CommitChange>,
    pub deleted_directories: Vec<BytePath>,
}

/// A row's content: a symlink's target is in the row, anything else was read.
pub open spec fn row_content(row: OverlayView, read: Seq<u8>) -> Seq<u8> {
    match row.symlink_target {
        Some(target) => target,
        None => read,
    }
}

/// The first thing that is wrong with the change at `i`, if anything is: no
/// row, no mode, or content that could not be read. `shown` is its path as
/// messages show it.
pub open spec fn change_fault(
    c: StatusChange,
    shown: Seq<char>,
    row: Option<OverlayEntry>,
    read: Result<Vec<u8>, GfsError>,
    e: GfsError,
) -> bool {
    if row is None {
        e.reads(
            ErrorCode::Internal,
            "the overlay reports "@ + shown + " as changed but holds no entry for it"@,
        )
    } else if c.new_mode is None {
        e.reads(ErrorCode::Internal, shown + " changed with no new mode"@)
    } else {
        read matches Err(r) && e == r
    }
}

/// Whether a change can be committed.
pub open spec fn committable(
    c: StatusChange,
    row: Option<OverlayEntry>,
    read: Result<Vec<u8>, GfsError>,
) -> bool {
    c.kind == ChangeKind::Deleted || (row is Some && c.new_mode is Some && ((row->0)@.symlink_target
        is Some || read is Ok))
}

/// What one change contributes to a commit: a rename is the old path's
/// deletion and the new path's content.
pub open spec fn contributes(
    c: StatusChange,
    row: Option<OverlayEntry>,
    read: Result<Vec<u8>, GfsError>,
) -> Seq<CommitChangeView> {
    if c.kind == ChangeKind::Deleted {
        seq![CommitChangeView::Delete { path: c.path@ }]
    } else {
        let gone = if c.kind == ChangeKind::Renamed && c.from is Some {
            seq![CommitChangeView::Delete { path: (c.from->0)@ }]
        } else {
            Seq::empty()
        };
        gone.push(
            CommitChangeView::Upsert {
                path: c.path@,
                mode: c.new_mode->0,
                content: row_content(
                    (row->0)@,
                    match read {
                        Ok(bytes) => bytes@,
                        Err(_) => Seq::empty(),
                    },
                ),
            },
        )
    }
}

/// What the first `n` changes contribute.
pub open spec fn contributions(
    changes: Seq<StatusChange>,
    rows: Seq<Option<OverlayEntry>>,
    reads: Seq<Result<Vec<u8>, GfsError>>,
    n: nat,
) -> Seq<CommitChangeView>
    decreases n,
{
    if n == 0 {
        Seq::empty()
    } else {
        contributions(changes, rows, reads, (n - 1) as nat) + contributes(
            changes[n - 1],
            rows[n - 1],
            reads[n - 1],
        )
    }
}

/// The first change that cannot be committed, from `k` on.
pub open spec fn first_fault(
    changes: Seq<StatusChange>,
    rows: Seq<Option<OverlayEntry>>,
    reads: Seq<Result<Vec<u8>, GfsError>>,
    k: int,
) -> int
    decreases changes.len() - k,
{
    if k >= changes.len() || k < 0 {
        changes.len() as int
    } else if !committable(changes[k], rows[k], reads[k]) {
        k
    } else {
        first_fault(changes, rows, reads, k + 1)
    }
}

/// What came of collecting a commit's changes.
pub open spec fn commit_outcome(
    changes: Seq<StatusChange>,
    shown: Seq<String>,
    rows: Seq<Option<OverlayEntry>>,
    reads: Seq<Result<Vec<u8>, GfsError>>,
    res: Result<Vec<CommitChange>, GfsError>,
) -> bool {
    let fault = first_fault(changes, rows, reads, 0);
    if fault < changes.len() {
        res matches Err(e) && change_fault(
            changes[fault],
            shown[fault]@,
            rows[fault],
            reads[fault],
            e,
        )
    } else {
        res matches Ok(list) && commit_views(list@) == contributions(
            changes,
            rows,
            reads,
            changes.len(),
        )
    }
}

fn push_change(list: &mut Vec<CommitChange>, change: CommitChange)
    ensures
        commit_views(final(list)@) == commit_views(old(list)@).push(change@),
{
    let ghost before = list@;
    list.push(change);
    assert(commit_views(list@) =~= commit_views(before).push(change@));
}

/// The changes of a commit, from what the overlay reports, the rows it holds
/// for the changed paths, and what reading their content gave. `shown` has the
/// changed paths as messages show them.
pub fn changes_for_commit(
    changes: &Vec<StatusChange>,
    shown: &Vec<String>,
    rows: &Vec<Option<OverlayEntry>>,
    reads: Vec<Result<Vec<u8>, GfsError>>,
) -> (res: Result<Vec<CommitChange>, GfsError>)
    requires
        shown@.len() == changes@.len(),
        rows@.len() == changes@.len(),
        reads@.len() == changes@.len(),
    ensures
        commit_outcome(changes@, shown@, rows@, reads@, res),
{
    let mut list: Vec<CommitChange> = Vec::new();
    let mut i: usize = 0;
    assert(commit_views(list@) =~= Seq::<CommitChangeView>::empty());
    while i < changes.len()
        invariant
            i <= changes@.len(),
            shown@.len() == changes@.len(),
            rows@.len() == changes@.len(),
            reads@.len() == changes@.len(),
            first_fault(changes@, rows@, reads@, 0) == first_fault(
                changes@,
                rows@,
                reads@,
                i as int,
            ),
            commit_views(list@) == contributions(changes@, rows@, reads@, i as nat),
        decreases changes.len() - i,
    {
        let c = &changes[i];
        let ghost before = commit_views(list@);
        if c.kind == ChangeKind::Deleted {
            push_change(&mut list, CommitChange::Delete { path: c.path.duplicate() });
            assert(before.push(CommitChangeView::Delete { path: c.path@ }) =~= before
                + contributes(*c, rows@[i as int], reads@[i as int]));
        } else {
            let row = match &rows[i] {
                Some(row) => row,
                None => {
                    let mut message = "the overlay reports ".to_owned();
                    message.append(shown[i].as_str());
                    message.append(" as changed but holds no entry for it");
                    return Err(GfsError::of(ErrorCode::Internal, message));
                },
            };
            let mode = match c.new_mode {
                Some(mode) => mode,
                None => {
                    let mut message = shown[i].clone();
                    message.append(" changed with no new mode");
                    return Err(GfsError::of(ErrorCode::Internal, message));
                },
            };
            let content = match &row.symlink_target {
                Some(target) => copy_bytes(target.as_slice()),
                None => match &reads[i] {
                    Ok(bytes) => copy_bytes(bytes.as_slice()),
                    Err(e) => return Err(GfsError { code: e.code, message: e.message.clone() }),
                },
            };
            if c.kind == ChangeKind::Renamed {
                match &c.from {
                    Some(from) => push_change(
                        &mut list,
                        CommitChange::Delete { path: from.duplicate() },
                    ),
                    None => {},
                }
            }
            push_change(
                &mut list,
                CommitChange::Upsert { path: c.path.duplicate(), mode, content },
            );
            assert(commit_views(list@) =~= before + contributes(
                *c,
                rows@[i as int],
                reads@[i as int],
            ));
        }
        i = i + 1;
    }
    Ok(list)
}

/// Whether a planned change carries a change.
pub open spec fn plans(p: PlannedChange, c: CommitChangeView) -> bool {
    match c {
        CommitChangeView::Upsert { path, mode, content } => p matches PlannedChange::Upsert {
            path: pp,
            mode: m,
            content_b64url,
        } && pp@ == b64url(path) && m == mode && content_b64url@ == b64url(content),
        CommitChangeView::Delete { path } => p matches PlannedChange::Delete { path: pp } && pp@
            == b64url(path),
    }
}

/// The plan of a commit. A clean workspace has nothing to commit.
pub fn commit_plan(pending: &PendingCommit, work_branch: Option<String>) -> (res: Result<
    CommitPlan,
    GfsError,
>)
    ensures
        pending.changes@.len() == 0 && pending.deleted_directories@.len() == 0 ==> (res matches Err(
            e,
        ) && e.reads(
            ErrorCode::FailedPrecondition,
            "nothing to commit; the workspace is clean"@,
        )),
        pending.changes@.len() > 0 || pending.deleted_directories@.len() > 0 ==> (res matches Ok(p)
            && p.base_commit@ == pending.base_commit@.qualified() && opt_text(p.work_branch)
            == opt_text(work_branch) && p.changes@.len() == pending.changes@.len() && (forall|i: int|
            0 <= i < pending.changes@.len() ==> plans(
                #[trigger] p.changes@[i],
                pending.changes@[i]@,
            )) && p.deleted_directories@.len() == pending.deleted_directories@.len() && (forall|
            i: int,
        |
            0 <= i < pending.deleted_directories@.len() ==> (#[trigger] p.deleted_directories@[i])@
                == b64url(pending.deleted_directories@[i]@))),
{
    if pending.changes.len() == 0 && pending.deleted_directories.len() == 0 {
        return Err(
            GfsError::new(
                ErrorCode::FailedPrecondition,
                "nothing to commit; the workspace is clean",
            ),
        );
    }
    let mut changes: Vec<PlannedChange> = Vec::new();
    let mut i: usize = 0;
    while i < pending.changes.len()
        invariant
            i <= pending.changes@.len(),
            changes@.len() == i,
            forall|k: int|
                0 <= k < i ==> plans(#[trigger] changes@[k], pending.changes@[k]@),
        decreases pending.changes.len() - i,
    {
        let planned = match &pending.changes[i] {
            CommitChange::Upsert { path, mode, content } => PlannedChange::Upsert {
                path: b64url_encode(path.as_bytes()),
                mode: *mode,
                content_b64url: b64url_encode(content.as_slice()),
            },
            CommitChange::Delete { path } => PlannedChange::Delete {
                path: b64url_encode(path.as_bytes()),
            },
        };
        changes.push(planned);
        i = i + 1;
    }
    let mut deleted_directories: Vec<String> = Vec::new();
    let mut j: usize = 0;
    while j < pending.deleted_directories.len()
        invariant
            j <= pending.deleted_directories@.len(),
            deleted_directories@.len() == j,
            forall|k: int|
                0 <= k < j ==> (#[trigger] deleted_directories@[k])@ == b64url(
                    pending.deleted_directories@[k]@,
                ),
        decreases pending.deleted_directories.len() - j,
    {
        deleted_directories.push(b64url_encode(pending.deleted_directories[j].as_bytes()));
        j = j + 1;
    }
    Ok(
        CommitPlan {
            base_commit: pending.base_commit.to_qualified(),
            work_branch,
            changes,
            deleted_directories,
        },
    )
}

/// A workspace's changes against its pin.
pub fn status_report(mount: &Mount, status: Status) -> (res: StatusReport)
    ensures
        res.base_commit@ == mount@.commit.qualified(),
        opt_text(res.ref_name) == mount@.ref_name,
        opt_text(res.work_branch) == mount@.work_branch,
        res.status == status,
{
    StatusReport {
        base_commit: mount.pinned_commit().to_qualified(),
        ref_name: mount.ref_name(),
        work_branch: mount.work_branch(),
        status,
    }
}

/// The token of a generation.
pub open spec fn generation_token(generation: u64) -> Seq<char> {
    "gfs:"@ + decimal(generation as nat)
}

/// The paths of the first `n` changes: each path, and where it came from.
pub open spec fn changed_paths(changes: Seq<StatusChange>, n: nat) -> Seq<Seq<char>>
    decreases n,
{
    if n == 0 {
        Seq::empty()
    } else {
        let before = changed_paths(changes, (n - 1) as nat).push(lossy(changes[n - 1].path@));
        match opt_path(changes[n - 1].from) {
            Some(from) => before.push(lossy(from)),
            None => before,
        }
    }
}

/// The paths of the first `n` deleted directories, with a slash.
pub open spec fn deleted_paths(dirs: Seq<BytePath>, n: nat) -> Seq<Seq<char>>
    decreases n,
{
    if n == 0 {
        Seq::empty()
    } else {
        deleted_paths(dirs, (n - 1) as nat).push(lossy(dirs[n - 1]@) + "/"@)
    }
}

/// Texts as their meaning.
pub open spec fn text_views(texts: Seq<String>) -> Seq<Seq<char>> {
    Seq::new(texts.len(), |i: int| texts[i]@)
}

fn push_text(list: &mut Vec<String>, text: String)
    ensures
        text_views(final(list)@) == text_views(old(list)@).push(text@),
{
    let ghost before = list@;
    list.push(text);
    assert(text_views(list@) =~= text_views(before).push(text@));
}

/// What Git's fsmonitor is told: everything that differs from the pin. A
/// token of another generation asks for a full scan.
pub fn fsmonitor_changes(generation: u64, caller_token: &str, status: &Status) -> (res:
    FsMonitorAnswer)
    ensures
        res.token@ == generation_token(generation),
        res.full_rescan == (caller_token@ != generation_token(generation)),
        text_views(res.paths@) == changed_paths(status.changes@, status.changes@.len())
            + deleted_paths(status.directory_deletions@, status.directory_deletions@.len()),
{
    let mut token = "gfs:".to_owned();
    push_decimal(&mut token, generation);
    let full_rescan = caller_token.to_owned() != token;
    let mut paths: Vec<String> = Vec::new();
    let mut i: usize = 0;
    assert(text_views(paths@) =~= changed_paths(status.changes@, 0));
    while i < status.changes.len()
        invariant
            i <= status.changes@.len(),
            text_views(paths@) == changed_paths(status.changes@, i as nat),
        decreases status.changes.len() - i,
    {
        let c = &status.changes[i];
        push_text(&mut paths, lossy_text(c.path.as_bytes()));
        match &c.from {
            Some(from) => push_text(&mut paths, lossy_text(from.as_bytes())),
            None => {},
        }
        i = i + 1;
    }
    let ghost changed = text_views(paths@);
    let mut j: usize = 0;
    assert(text_views(paths@) =~= changed + deleted_paths(status.directory_deletions@, 0));
    while j < status.directory_deletions.len()
        invariant
            j <= status.directory_deletions@.len(),
            text_views(paths@) == changed + deleted_paths(
                status.directory_deletions@,
                j as nat,
            ),
        decreases status.directory_deletions.len() - j,
    {
        let mut text = lossy_text(status.directory_deletions[j].as_bytes());
        text.append("/");
        let ghost before = text_views(paths@);
        push_text(&mut paths, text);
        assert(text_views(paths@) =~= changed + deleted_paths(
            status.directory_deletions@,
            (j + 1) as nat,
        ));
        j = j + 1;
    }
    FsMonitorAnswer { token, paths, full_rescan }
}

/// A token is good for its own generation alone: every re-pin asks for a full
/// scan.
pub proof fn law_a_repin_invalidates_tokens(a: u64, b: u64)
    ensures
        generation_token(a) == generation_token(b) ==> a == b,
{
    if generation_token(a) == generation_token(b) {
        let da = decimal(a as nat);
        let db = decimal(b as nat);
        assert(da =~= generation_token(a).skip("gfs:"@.len() as int));
        assert(db =~= generation_token(b).skip("gfs:"@.len() as int));
        crate::text::lemma_decimal_injective(a as nat, b as nat);
    }
}

/// Whether a failed renewal raises the alert.
pub fn raises_alert(failures: u32, alert_after: u32) -> (res: bool)
    ensures
        res == (failures >= alert_after),
{
    failures >= alert_after
}

} // verus!
