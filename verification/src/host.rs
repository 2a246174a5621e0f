//! The host: one process that serves many mounts.
use vstd::prelude::*;
use crate::bytemap::ByteMap;
use crate::bytes::{copy_bytes, lemma_lex_asymmetric, lemma_lex_irreflexive, lex_lt};
use crate::control::{HostInfo, HostResponse, MountRequest, MountSummary};
use crate::error::{ErrorCode, GfsError};
use crate::fs::FsConfig;
use crate::lease::LeasePolicy;
use crate::limits::{API_VERSION, STATE_FORMAT_VERSION};
use crate::local::RepositoryId;
use crate::sorting::{
    index_views, key_views, lemma_sorted_order, sort_indices, sorted_order, NameOrder,
};
use crate::strings::{join_text, joined_text, opt_view};
use crate::text::{decimal, lemma_decimal_injective, push_decimal, utf8};

verus! {

/// How a host is configured.
#[derive(Debug)]
pub struct HostConfig {
    pub socket: String,
    pub grpc_endpoint: String,
    pub http_endpoint: String,
    pub token: String,
    pub lease_policy: LeasePolicy,
    pub fs: FsConfig,
    pub odb_residency_bytes: u64,
}

/// What a mount is started with.
#[derive(Debug)]
pub struct MountSpec {
    pub workspace: String,
    pub state_dir: String,
    pub cache_dir: String,
    pub grpc_endpoint: String,
    pub http_endpoint: String,
    pub token: String,
    pub repository_id: String,
    pub revision_selector: String,
    pub cache_quota_bytes: u64,
    pub overlay_quota_bytes: u64,
    pub fs: FsConfig,
    pub threads: usize,
    pub allow_other: bool,
    pub auto_unmount: bool,
    pub lease_policy: LeasePolicy,
}

/// The directory of a user's sockets: the session's own where there is one, a
/// directory of the user's below `/tmp` otherwise.
pub open spec fn runtime_path(session: Option<Seq<char>>, uid: u32) -> Seq<char> {
    match session {
        Some(dir) => joined_text(dir, "gfs"@),
        None => "/tmp/gfs-"@ + decimal(uid as nat),
    }
}

/// The directory of a user's sockets.
pub fn runtime_dir(session: Option<String>, uid: u32) -> (res: String)
    ensures
        res@ == runtime_path(opt_view(session), uid),
{
    match session {
        Some(dir) => join_text(dir.as_str(), "gfs"),
        None => {
            let mut out = "/tmp/gfs-".to_owned();
            push_decimal(&mut out, uid as u64);
            out
        },
    }
}

/// Two users of one machine never share the directory below `/tmp`.
pub proof fn law_users_never_share_a_directory(a: u32, b: u32)
    requires
        runtime_path(None, a) == runtime_path(None, b),
    ensures
        a == b,
{
    let head = "/tmp/gfs-"@;
    let x = decimal(a as nat);
    let y = decimal(b as nat);
    assert((head + x).skip(head.len() as int) =~= x);
    assert((head + y).skip(head.len() as int) =~= y);
    lemma_decimal_injective(a as nat, b as nat);
}

/// The socket a host listens on unless told otherwise.
pub fn default_socket(runtime_dir: &str) -> (res: String)
    ensures
        res@ == joined_text(runtime_dir@, "host.sock"@),
{
    join_text(runtime_dir, "host.sock")
}

/// What becomes of a socket a host wants to listen on.
#[derive(Clone, Copy, PartialEq, Eq, Structural, Debug)]
pub enum BindPlan {
    /// Bind it.
    Bind,
    /// Nobody listens on the one that is there; remove it, then bind.
    RemoveThenBind,
}

/// Whether a host may listen: not where another does.
pub fn bind(exists: bool, live: bool, socket: &str) -> (res: Result<BindPlan, GfsError>)
    ensures
        !exists ==> res == Ok::<BindPlan, GfsError>(BindPlan::Bind),
        exists && !live ==> res == Ok::<BindPlan, GfsError>(BindPlan::RemoveThenBind),
        exists && live ==> (res matches Err(e) && e.reads(
            ErrorCode::Conflict,
            "a GFS host is already listening on "@ + socket@,
        )),
{
    if !exists {
        return Ok(BindPlan::Bind);
    }
    if live {
        let mut message = "a GFS host is already listening on ".to_owned();
        message.append(socket);
        return Err(GfsError::of(ErrorCode::Conflict, message));
    }
    Ok(BindPlan::RemoveThenBind)
}

/// Whether a host has its lock, given why it was refused, if it was: one host
/// holds it at a time.
pub fn acquire_lock(path: &str, refused: Option<String>) -> (res: Result<(), GfsError>)
    ensures
        match refused {
            None => res is Ok,
            Some(reason) => res matches Err(e) && e.reads(
                ErrorCode::Conflict,
                "another GFS host holds "@ + path@ + " ("@ + reason@ + ")"@,
            ),
        },
{
    match refused {
        None => Ok(()),
        Some(reason) => {
            let mut message = "another GFS host holds ".to_owned();
            message.append(path);
            message.append(" (");
            message.append(reason.as_str());
            message.append(")");
            Err(GfsError::of(ErrorCode::Conflict, message))
        },
    }
}

/// A text, or the one it defaults to.
pub open spec fn or_else(text: Option<Seq<char>>, fallback: Seq<char>) -> Seq<char> {
    match text {
        Some(t) => t,
        None => fallback,
    }
}

fn text_or(text: Option<String>, fallback: &String) -> (res: String)
    ensures
        res@ == or_else(opt_view(text), fallback@),
{
    match text {
        Some(t) => t,
        None => fallback.clone(),
    }
}

/// What a request to mount comes to: a client of another build is refused, so
/// is a repository ID its parser refuses, and what a request leaves out is the
/// host's.
pub open spec fn create_outcome(
    r: MountRequest,
    repository_id: Result<RepositoryId, GfsError>,
    c: HostConfig,
    default_threads: usize,
    res: Result<MountSpec, GfsError>,
) -> bool {
    if r.state_format_version != STATE_FORMAT_VERSION {
        res matches Err(e) && e.reads(
            ErrorCode::FailedPrecondition,
            "this client speaks state format "@ + decimal(r.state_format_version as nat)
                + " and the running host speaks "@ + decimal(STATE_FORMAT_VERSION as nat)
                + "; restart the host (`gfs daemon stop`) to pick up the new build"@,
        )
    } else if repository_id is Err {
        res == Err::<MountSpec, GfsError>(repository_id->Err_0)
    } else {
        res matches Ok(s) && s.workspace@ == r.workspace@ && s.state_dir@ == r.state_dir@
            && s.cache_dir@ == r.cache_dir@ && s.grpc_endpoint@ == or_else(
            opt_view(r.grpc_endpoint),
            c.grpc_endpoint@,
        ) && s.http_endpoint@ == or_else(opt_view(r.http_endpoint), c.http_endpoint@) && s.token@
            == or_else(opt_view(r.token), c.token@) && s.repository_id@ == repository_id->Ok_0@
            && s.revision_selector@ == r.revision_selector@ && s.cache_quota_bytes
            == r.cache_quota_bytes && s.overlay_quota_bytes == r.overlay_quota_bytes && s.fs == c.fs
            && s.threads == (match r.fuse_threads {
            Some(n) => n,
            None => default_threads,
        }) && s.allow_other == r.allow_other && s.auto_unmount == r.allow_other && s.lease_policy
            == c.lease_policy
    }
}

/// What a request to mount comes to, given what the parser of repository IDs
/// made of the one it names.
pub fn create_mount(
    request: MountRequest,
    repository_id: Result<RepositoryId, GfsError>,
    config: &HostConfig,
    default_threads: usize,
) -> (res: Result<MountSpec, GfsError>)
    ensures
        create_outcome(request, repository_id, *config, default_threads, res),
{
    if request.state_format_version != STATE_FORMAT_VERSION {
        let mut message = "this client speaks state format ".to_owned();
        push_decimal(&mut message, request.state_format_version as u64);
        message.append(" and the running host speaks ");
        push_decimal(&mut message, STATE_FORMAT_VERSION as u64);
        message.append("; restart the host (`gfs daemon stop`) to pick up the new build");
        return Err(GfsError::of(ErrorCode::FailedPrecondition, message));
    }
    let repository_id = match repository_id {
        Ok(id) => id,
        Err(e) => return Err(e),
    };
    let threads = match request.fuse_threads {
        Some(n) => n,
        None => default_threads,
    };
    Ok(
        MountSpec {
            workspace: request.workspace,
            state_dir: request.state_dir,
            cache_dir: request.cache_dir,
            grpc_endpoint: text_or(request.grpc_endpoint, &config.grpc_endpoint),
            http_endpoint: text_or(request.http_endpoint, &config.http_endpoint),
            token: text_or(request.token, &config.token),
            repository_id: repository_id.as_str().to_owned(),
            revision_selector: request.revision_selector,
            cache_quota_bytes: request.cache_quota_bytes,
            overlay_quota_bytes: request.overlay_quota_bytes,
            fs: config.fs,
            threads,
            allow_other: request.allow_other,
            auto_unmount: request.allow_other,
            lease_policy: config.lease_policy,
        },
    )
}

/// The bytes a workspace path is ordered by: component by component, so a
/// separator comes before any other byte.
pub open spec fn path_order_key(path: Seq<u8>) -> Seq<u8> {
    Seq::new(
        path.len(),
        |i: int|
            if path[i] == 47 {
                0u8
            } else {
                path[i]
            },
    )
}

fn order_key(path: &String) -> (res: Vec<u8>)
    ensures
        res@ == path_order_key(utf8(path@)),
{
    let bytes = path.as_str().as_bytes();
    let mut out: Vec<u8> = Vec::new();
    let mut i: usize = 0;
    while i < bytes.len()
        invariant
            i <= bytes@.len(),
            bytes@ == utf8(path@),
            out@.len() == i,
            forall|k: int| 0 <= k < i ==> #[trigger] out@[k] == path_order_key(bytes@)[k],
        decreases bytes.len() - i,
    {
        let b = bytes[i];
        out.push(
            if b == 47 {
                0
            } else {
                b
            },
        );
        i = i + 1;
    }
    assert(out@ =~= path_order_key(utf8(path@)));
    out
}

/// Whether two summaries say the same.
pub open spec fn same_summary(a: MountSummary, b: MountSummary) -> bool {
    &&& a.workspace@ == b.workspace@
    &&& a.state_dir@ == b.state_dir@
    &&& a.repository_id@ == b.repository_id@
    &&& a.mount_id@ == b.mount_id@
    &&& a.revision_selector@ == b.revision_selector@
    &&& a.commit@ == b.commit@
    &&& a.generation == b.generation
    &&& a.health == b.health
}

fn copy_summary(s: &MountSummary) -> (res: MountSummary)
    ensures
        same_summary(res, *s),
{
    MountSummary {
        workspace: s.workspace.clone(),
        state_dir: s.state_dir.clone(),
        repository_id: s.repository_id.clone(),
        mount_id: s.mount_id.clone(),
        revision_selector: s.revision_selector.clone(),
        commit: s.commit.clone(),
        generation: s.generation,
        health: s.health,
    }
}

/// The keys summaries are ordered by.
pub open spec fn summary_keys(mounts: Seq<MountSummary>) -> Seq<Seq<u8>> {
    Seq::new(mounts.len(), |i: int| path_order_key(utf8(mounts[i].workspace@)))
}

/// The mounts a host serves, ordered by workspace.
pub fn list(mounts: &Vec<MountSummary>) -> (res: Vec<MountSummary>)
    ensures
        ({
            let order = sorted_order(NameOrder::Bytes, summary_keys(mounts@));
            &&& res@.len() == order.len()
            &&& forall|i: int|
                0 <= i < order.len() ==> same_summary(#[trigger] res@[i], mounts@[order[i]])
        }),
{
    let mut keys: Vec<Vec<u8>> = Vec::new();
    let mut j: usize = 0;
    while j < mounts.len()
        invariant
            j <= mounts@.len(),
            keys@.len() == j,
            forall|k: int| 0 <= k < j ==> (#[trigger] keys@[k])@ == summary_keys(mounts@)[k],
        decreases mounts.len() - j,
    {
        keys.push(order_key(&mounts[j].workspace));
        j = j + 1;
    }
    assert(key_views(keys@) =~= summary_keys(mounts@));
    let order = sort_indices(NameOrder::Bytes, &keys);
    let ghost o = index_views(order@);
    let mut out: Vec<MountSummary> = Vec::new();
    let mut i: usize = 0;
    while i < order.len()
        invariant
            i <= order@.len(),
            o == index_views(order@),
            order@.len() == mounts@.len(),
            forall|k: int| 0 <= k < order@.len() ==> #[trigger] order@[k] < mounts@.len(),
            out@.len() == i,
            forall|k: int| 0 <= k < i ==> same_summary(#[trigger] out@[k], mounts@[o[k]]),
        decreases order.len() - i,
    {
        assert(o[i as int] == order@[i as int]);
        out.push(copy_summary(&mounts[order[i]]));
        i = i + 1;
    }
    out
}

/// The list shows every mount once, ordered by workspace.
pub proof fn law_every_mount_is_listed_once(mounts: Seq<MountSummary>)
    ensures
        ({
            let keys = summary_keys(mounts);
            let order = sorted_order(NameOrder::Bytes, keys);
            &&& order.len() == mounts.len()
            &&& forall|v: int|
                order.to_multiset().count(v) == (if 0 <= v < mounts.len() {
                    1nat
                } else {
                    0nat
                })
            &&& forall|i: int, j: int|
                0 <= i < j < order.len() ==> !lex_lt(
                    keys[#[trigger] order[j]],
                    keys[#[trigger] order[i]],
                )
        }),
{
    let keys = summary_keys(mounts);
    lemma_sorted_order(NameOrder::Bytes, keys, keys.len());
    assert forall|a: Seq<u8>, b: Seq<u8>| #[trigger] lex_lt(a, b) implies !lex_lt(b, a) by {
        lemma_lex_asymmetric(a, b);
    }
    assert forall|a: Seq<u8>| !#[trigger] lex_lt(a, a) by {
        lemma_lex_irreflexive(a, 0);
    }
}

/// The workspaces a host serves, by their path.
#[derive(Debug)]
pub struct MountHost {
    config: HostConfig,
    mounts: ByteMap<u8>,
}

impl MountHost {
    /// The paths served.
    pub closed spec fn view(&self) -> Set<Seq<u8>> {
        self.mounts@.dom()
    }

    /// The configuration.
    pub closed spec fn settings(&self) -> HostConfig {
        self.config
    }

    /// The registry is in order.
    pub closed spec fn wf(&self) -> bool {
        self.mounts.wf()
    }

    /// A host that serves nothing yet.
    pub fn new(config: HostConfig) -> (res: MountHost)
        ensures
            res.wf(),
            res@ == Set::<Seq<u8>>::empty(),
            res.settings() == config,
    {
        let mounts: ByteMap<u8> = ByteMap::new();
        let res = MountHost { config, mounts };
        assert(res@ =~= Set::<Seq<u8>>::empty());
        res
    }

    pub fn config(&self) -> (res: &HostConfig)
        ensures
            *res == self.settings(),
    {
        &self.config
    }

    /// What the host says of itself.
    pub fn info(&self, version: &str, pid: u32) -> (res: HostInfo)
        requires
            self.wf(),
        ensures
            res.version@ == version@,
            res.state_format_version == STATE_FORMAT_VERSION,
            res.api_version@ == API_VERSION@,
            res.pid == pid,
            res.socket@ == self.settings().socket@,
            res.grpc_endpoint@ == self.settings().grpc_endpoint@,
            res.http_endpoint@ == self.settings().http_endpoint@,
            res.mounts == self@.len(),
    {
        HostInfo {
            version: version.to_owned(),
            state_format_version: STATE_FORMAT_VERSION,
            api_version: API_VERSION.to_owned(),
            pid,
            socket: self.config.socket.clone(),
            grpc_endpoint: self.config.grpc_endpoint.clone(),
            http_endpoint: self.config.http_endpoint.clone(),
            mounts: self.mounts.len(),
        }
    }

    /// Whether a mount may be started at a workspace: one is served once.
    pub fn mount(&self, workspace: &str) -> (res: Result<(), GfsError>)
        requires
            self.wf(),
        ensures
            res is Ok <==> !self@.contains(utf8(workspace@)),
            res matches Err(e) ==> e.reads(
                ErrorCode::Conflict,
                "this host already serves a mount at "@ + workspace@ + "; unmount it first"@,
            ),
    {
        if self.mounts.contains(workspace.as_bytes()) {
            let mut message = "this host already serves a mount at ".to_owned();
            message.append(workspace);
            message.append("; unmount it first");
            return Err(GfsError::of(ErrorCode::Conflict, message));
        }
        Ok(())
    }

    /// Whether a workspace is served.
    pub fn mount_at(&self, workspace: &str) -> (res: bool)
        requires
            self.wf(),
        ensures
            res == self@.contains(utf8(workspace@)),
    {
        self.mounts.contains(workspace.as_bytes())
    }

    /// Serve a workspace.
    pub fn register(&mut self, workspace: &str)
        requires
            old(self).wf(),
        ensures
            final(self).wf(),
            final(self)@ == old(self)@.insert(utf8(workspace@)),
            final(self).settings() == old(self).settings(),
    {
        let ghost s = self@;
        self.mounts.insert(copy_bytes(workspace.as_bytes()), 0);
        assert(self@ =~= s.insert(utf8(workspace@)));
    }

    /// Stop serving a workspace that ended by itself.
    pub fn forget(&mut self, workspace: &str) -> (res: bool)
        requires
            old(self).wf(),
        ensures
            final(self).wf(),
            final(self)@ == old(self)@.remove(utf8(workspace@)),
            final(self).settings() == old(self).settings(),
            res == old(self)@.contains(utf8(workspace@)),
    {
        let ghost s = self@;
        let gone = self.mounts.remove(workspace.as_bytes());
        assert(self@ =~= s.remove(utf8(workspace@)));
        gone.is_some()
    }

    /// Stop serving a workspace.
    pub fn destroy_mount(&mut self, workspace: &str) -> (res: Result<(), GfsError>)
        requires
            old(self).wf(),
        ensures
            final(self).wf(),
            final(self)@ == old(self)@.remove(utf8(workspace@)),
            final(self).settings() == old(self).settings(),
            res is Ok <==> old(self)@.contains(utf8(workspace@)),
            res matches Err(e) ==> e.reads(
                ErrorCode::NotFound,
                "this host serves no mount at "@ + workspace@,
            ),
    {
        if self.forget(workspace) {
            return Ok(());
        }
        let mut message = "this host serves no mount at ".to_owned();
        message.append(workspace);
        Err(GfsError::of(ErrorCode::NotFound, message))
    }

    /// Stop serving everything.
    pub fn shutdown(&mut self)
        ensures
            final(self).wf(),
            final(self)@ == Set::<Seq<u8>>::empty(),
            final(self).settings() == old(self).settings(),
    {
        self.mounts = ByteMap::new();
        assert(self@ =~= Set::<Seq<u8>>::empty());
    }
}

/// One workspace, one mount: once a workspace is served another mount there is
/// refused, once it is gone a mount is accepted again, and no other workspace
/// is touched by either.
pub proof fn law_a_workspace_has_one_mount(
    before: MountHost,
    served: MountHost,
    gone: MountHost,
    workspace: Seq<u8>,
)
    requires
        served@ == before@.insert(workspace),
        gone@ == served@.remove(workspace),
    ensures
        served@.contains(workspace),
        !gone@.contains(workspace),
        forall|other: Seq<u8>|
            other != workspace ==> (before@.contains(other) <==> #[trigger] gone@.contains(other)),
        !before@.contains(workspace) ==> gone@ == before@,
{
    if !before@.contains(workspace) {
        assert(gone@ =~= before@);
    }
}

/// Whether the host stops after an answer.
pub fn stops(response: &HostResponse) -> (res: bool)
    ensures
        res == (*response is ShuttingDown),
{
    match response {
        HostResponse::ShuttingDown => true,
        _ => false,
    }
}

} // verus!
