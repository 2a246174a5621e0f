//! What a directory shows and what is moved, leased and mounted: laws of the
//! merged view, of what a stat reports, of a renamed directory's descendants,
//! of leases, and of what a request to mount leaves to the host.
use vstd::prelude::*;
use crate::budget::BudgetView;
use crate::bytes::views;
use crate::control::{connect_code, ConnectFailure, MountRequest};
use crate::directory::{
    base_child_names, merged_node, node_shape, opendir_outcome, opt_node, resolve_path, visible,
    ChildView, Opendir, Resolution, ResolutionView, Resolved,
};
use crate::effects::{is_component, names_git};
use crate::entry::{EntryKind, TreeEntryInfo, TreeEntryView};
use crate::errno::Errno;
use crate::error::{ErrorCode, GfsError};
use crate::fetch::{base_node, budget_after, fetch_outcome, BaseQuestion, DescendantView, WalkView};
use crate::host::{create_outcome, HostConfig, MountSpec};
use crate::inode::{RecordView, ROOT_INO};
use crate::lease::{HealthState, LeaseView};
use crate::limits::STATE_FORMAT_VERSION;
use crate::local::RepositoryId;
use crate::node::{facts_of, opt_facts, FileType, NodeView, OverlayEntry, OverlayKind};
use crate::object::ObjectIdView;
use crate::path::{base_name, joined, BytePath};
use crate::subtree::git_dir_name;
use crate::time::Timestamp;

verus! {

// ---------------------------------------------------------------------------
// The merged view
// ---------------------------------------------------------------------------
/// A path is what the overlay says it is, gone where the overlay says so, and
/// what the pinned commit holds where the overlay is silent. What the commit
/// holds is known besides, for a path that is hidden too.
pub proof fn law_the_overlay_goes_first(
    answer: Resolution,
    row: Option<OverlayEntry>,
    base: Option<TreeEntryInfo>,
    res: Resolved,
)
    requires
        call_ensures(resolve_path, (answer, row, base), res),
    ensures
        answer@ matches ResolutionView::Overlay(r) ==> opt_node(res.node) == Some(
            NodeView::Overlay(r),
        ) && opt_facts(res.base) == r.base,
        answer@ is Absent ==> res.node is None,
        answer@ is Absent && row is Some ==> opt_facts(res.base) == (row->0)@.base,
        answer@ is Absent && row is None ==> res.base is None,
        answer@ is Base ==> (res.node is Some <==> base is Some),
        answer@ is Base && base is Some ==> opt_node(res.node) == Some(NodeView::Base((base->0)@)),
        answer@ is Base && base is None ==> res.base is None,
        answer@ is Base && res.base is Some ==> (opt_facts(res.base)->0).oid == (base->0)@.oid && (
        opt_facts(res.base)->0).size == (base->0)@.size && (opt_facts(res.base)->0).kind == (
        base->0)@.kind,
{
}

/// Every child that is listed is in the merged view: it is what the view says
/// of some entry of the base, and no entry is listed twice.
pub proof fn law_what_is_listed_is_in_the_view(
    entries: Seq<TreeEntryInfo>,
    answers: Seq<Resolution>,
    n: nat,
)
    requires
        n <= entries.len(),
        entries.len() == answers.len(),
    ensures
        visible(entries, answers, n).len() <= n,
        forall|i: int|
            0 <= i < visible(entries, answers, n).len() ==> exists|k: int|
                0 <= k < n && merged_node((#[trigger] answers[k])@, Some(entries[k]@)) == Some(
                    (#[trigger] visible(entries, answers, n)[i]).node(),
                ),
    decreases n,
{
    if n > 0 {
        let before = visible(entries, answers, (n - 1) as nat);
        let all = visible(entries, answers, n);
        law_what_is_listed_is_in_the_view(entries, answers, (n - 1) as nat);
        assert forall|i: int| 0 <= i < all.len() implies exists|k: int|
            0 <= k < n && merged_node((#[trigger] answers[k])@, Some(entries[k]@)) == Some(
                (#[trigger] all[i]).node(),
            ) by {
            if i < before.len() {
                assert(all[i] == before[i]);
                let k = choose|k: int|
                    0 <= k < n - 1 && merged_node((#[trigger] answers[k])@, Some(entries[k]@))
                        == Some(before[i].node());
                assert(merged_node(answers[k]@, Some(entries[k]@)) == Some(all[i].node()));
            } else {
                assert(merged_node(answers[n - 1]@, Some(entries[n - 1]@)) == Some(all[i].node()));
            }
        }
    }
}

/// The base's names are those of its entries, in order; a base that is masked
/// has none.
pub proof fn law_base_names_are_the_entries(
    masked: bool,
    entries: &Vec<TreeEntryInfo>,
    res: Vec<Vec<u8>>,
)
    requires
        call_ensures(base_child_names, (masked, entries), res),
    ensures
        masked ==> res@.len() == 0,
        !masked ==> res@.len() == entries@.len() && forall|i: int|
            0 <= i < entries@.len() ==> (#[trigger] res@[i])@ == base_name(entries@[i].path@),
{
    assert(views(res@).len() == res@.len());
    if !masked {
        assert forall|i: int| 0 <= i < entries@.len() implies (#[trigger] res@[i])@ == base_name(
            entries@[i].path@,
        ) by {
            assert(views(res@)[i] == res@[i]@);
        }
    }
}

/// A listing and a stat agree on what a child is, and a directory is what they
/// say is one. Only what is executable or a directory may be entered or run,
/// and nothing of the projection may be written.
pub proof fn law_a_listing_agrees_with_a_stat(child: ChildView, node: NodeView)
    ensures
        child.listed_type() == node_shape(child.node()).kind,
        node_shape(node).kind == FileType::Directory <==> node.directory(),
        node matches NodeView::Git(meta) ==> node_shape(node).perm == meta.perm && node_shape(
            node,
        ).links == meta.nlink && node_shape(node).kind == meta.kind,
        node is Odb ==> node_shape(node).perm & 0o222 == 0,
        node matches NodeView::Base(e) ==> {
            &&& e.kind == EntryKind::Regular ==> node_shape(node).perm & 0o111 == 0
            &&& e.kind == EntryKind::Executable || node.directory() ==> node_shape(node).perm
                & 0o111 == 0o111
            &&& e.kind is Unsupported ==> node_shape(node).perm & 0o333 == 0
            &&& e.kind == EntryKind::Symlink ==> node_shape(node).kind == FileType::Symlink
        },
        node matches NodeView::Overlay(row) ==> {
            &&& row.kind == OverlayKind::Regular ==> node_shape(node).perm & 0o111 == 0
            &&& row.kind == OverlayKind::Executable || node.directory() ==> node_shape(node).perm
                & 0o111 == 0o111
            &&& row.kind == OverlayKind::Symlink ==> node_shape(node).kind == FileType::Symlink
        },
        node is Base || node is Overlay || node is Odb ==> (node_shape(node).links == 2
            <==> node.directory()) && node_shape(node).perm & 0o444 == 0o444,
{
    assert(0o644u16 & 0o111 == 0 && 0o755u16 & 0o111 == 0o111 && 0o444u16 & 0o333 == 0) by (bit_vector);
    assert(0o444u16 & 0o222 == 0 && 0o555u16 & 0o222 == 0) by (bit_vector);
    assert(0o644u16 & 0o444 == 0o444 && 0o755u16 & 0o444 == 0o444 && 0o777u16 & 0o444 == 0o444
        && 0o444u16 & 0o444 == 0o444 && 0o555u16 & 0o444 == 0o444) by (bit_vector);
}

/// A row is of the kind it was copied up from: an overlay kind is the kind of
/// its tree entry, and a mode is the kind of one entry alone.
pub proof fn law_kinds_translate_back(kind: OverlayKind, entry: EntryKind, a: u32, b: u32)
    ensures
        OverlayKind::of_entry(kind.entry_kind()) == Some(kind),
        OverlayKind::of_entry(entry) matches Some(k) ==> k.entry_kind() == entry,
        OverlayKind::of_entry(entry) is None <==> entry == EntryKind::Gitlink || entry is Unsupported,
        EntryKind::of_mode(a) == EntryKind::of_mode(b) ==> a == b,
        EntryKind::of_mode(0o100644) == EntryKind::Regular,
        EntryKind::of_mode(0o100755) == EntryKind::Executable,
        EntryKind::of_mode(0o120000) == EntryKind::Symlink,
        EntryKind::of_mode(0o040000) == EntryKind::Directory,
        EntryKind::of_mode(0o160000) == EntryKind::Gitlink,
        EntryKind::of_mode(a) matches EntryKind::Unsupported(m) ==> m == a,
{
}

/// A directory opens as itself, with nothing listed yet but `.git` at the root
/// and nothing at all to list in a submodule; anything else is refused as no
/// directory. A real one is listed at its own path.
pub proof fn law_only_directories_are_listed(r: RecordView, res: Opendir)
    requires
        opendir_outcome(r, res),
    ensures
        !r.node.directory() <==> res == Opendir::Refuse(Errno::NotDirectory),
        res matches Opendir::Open(d) ==> {
            &&& d@.path == r.path
            &&& d@.git_pending is Some <==> r.node is Git
            &&& d@.git_pending matches Some(rel) ==> names_git(r.path, rel)
            &&& d@.complete <==> (r.node matches NodeView::Base(e) && e.kind == EntryKind::Gitlink)
            &&& d@.children.len() > 0 ==> r.ino == ROOT_INO && d@.children.len() == 1
                && d@.children[0].name() == git_dir_name() && d@.children[0].listed_type()
                == FileType::Directory
            &&& r.ino == ROOT_INO && (r.node matches NodeView::Base(e) && e.kind
                == EntryKind::Directory) ==> d@.children.len() == 1
        },
        r.node is Odb && r.node.directory() ==> res is Projection,
        res is Projection ==> r.node is Odb,
        (r.node is Base || r.node is Overlay) && r.node.directory() ==> res is Open,
{
    if r.node is Git {
        crate::effects::lemma_git_part(r.path);
    }
}

/// What the pinned commit holds at a path is asked of the listing of its
/// directory, under its own name; only the root is asked of the server.
pub proof fn law_a_path_is_asked_of_its_directory(
    path: &BytePath,
    valid: Result<(), GfsError>,
    dir: Seq<u8>,
    name: Seq<u8>,
    res: Result<BaseQuestion, GfsError>,
)
    requires
        call_ensures(base_node, (path, valid), res),
        is_component(name),
    ensures
        valid is Ok && path@ == joined(dir, name) ==> (res matches Ok(BaseQuestion::Listed {
            dir: d,
            name: n,
        }) && d@ == dir && n@ == name),
        valid is Ok && path@.len() == 0 ==> res == Ok::<BaseQuestion, GfsError>(
            BaseQuestion::Server,
        ),
        valid matches Err(e) ==> res == Err::<BaseQuestion, GfsError>(e),
{
    crate::path::law_join_then_split(dir, name);
}

// ---------------------------------------------------------------------------
// Descendants of a renamed directory
// ---------------------------------------------------------------------------
/// Whether a descendant is what is found of an entry below a directory: the
/// same object, kind, size and target, under the entry's name.
pub open spec fn found_of(d: DescendantView, relative: Seq<u8>, e: TreeEntryView) -> bool {
    &&& d.relative == joined(relative, base_name(e.path))
    &&& d.facts.oid == e.oid
    &&& d.facts.kind == e.kind
    &&& d.facts.size == e.size
    &&& d.symlink_target == e.symlink_target
}

/// Each entry of a listing that the overlay models is found behind what was
/// found before, and each directory of it is to be listed next; an entry that
/// is not modelled is neither.
pub proof fn law_a_walk_finds_every_entry(
    s: WalkView,
    relative: Seq<u8>,
    entries: Seq<TreeEntryInfo>,
    n: nat,
)
    requires
        n < entries.len(),
    ensures
        s.seen_all(relative, entries, 0) == s,
        ({
            let before = s.seen_all(relative, entries, n);
            let after = s.seen_all(relative, entries, n + 1);
            let e = entries[n as int]@;
            let child = joined(relative, base_name(e.path));
            &&& e.kind == EntryKind::Gitlink || e.kind is Unsupported ==> after.found
                == before.found
            &&& !(e.kind == EntryKind::Gitlink || e.kind is Unsupported) ==> after.found.len()
                == before.found.len() + 1 && after.found.drop_last() == before.found && found_of(
                after.found.last(),
                relative,
                e,
            )
            &&& e.kind == EntryKind::Directory ==> after.queue == before.queue.push(child)
            &&& e.kind != EntryKind::Directory ==> after.queue == before.queue
            &&& after.dir == before.dir
            &&& after.limit == before.limit
        }),
{
    let before = s.seen_all(relative, entries, n);
    let after = s.seen_all(relative, entries, n + 1);
    let e = entries[n as int]@;
    assert(after == before.seen(relative, e));
    if facts_of(e) is Some {
        assert(after.found.drop_last() =~= before.found);
    }
}

/// A blob is fetched with its own ticket, once the server has named the same
/// object at the pinned path and the budget allows it; anything else fetches
/// nothing, and only a blob that is asked for is charged.
pub proof fn law_a_fetch_is_of_the_pinned_blob(
    budget: BudgetView,
    oid: ObjectIdView,
    fresh: Option<TreeEntryView>,
    res: Result<String, GfsError>,
)
    requires
        fetch_outcome(budget, oid, fresh, res),
    ensures
        res is Ok <==> fresh is Some && (fresh->0).oid == oid && budget.allows(oid, (fresh->0).size),
        res matches Ok(ticket) ==> ((fresh->0).blob_ticket matches Some(t) ==> ticket@ == t),
        fresh is None || (fresh->0).oid != oid ==> budget_after(budget, oid, fresh) == budget,
        fresh is Some && (fresh->0).oid == oid ==> budget_after(budget, oid, fresh) == budget.asked(
            oid,
            (fresh->0).size,
        ),
        res matches Err(e) ==> {
            &&& fresh is None ==> e.code == ErrorCode::NotFound
            &&& fresh is Some && (fresh->0).oid != oid ==> e.code == ErrorCode::Internal
            &&& fresh is Some && (fresh->0).oid == oid ==> e.code == ErrorCode::ResourceLimit
        },
{
}

// ---------------------------------------------------------------------------
// Leases and hosts
// ---------------------------------------------------------------------------
/// A lease is critical exactly once its grace is over, and a warning when it
/// expired or too many renewals failed in a row; a renewal forgets the
/// failures, and a failure adds one and keeps everything else.
pub proof fn law_a_lease_stands_as_it_was_kept(
    s: LeaseView,
    now: Timestamp,
    expiry: Timestamp,
    message: Seq<char>,
)
    requires
        s.expiry.secs + s.policy.renewal_grace_secs <= i64::MAX,
        s.failures < u32::MAX,
    ensures
        now.secs > s.expiry.secs + s.policy.renewal_grace_secs ==> s.state_at(now)
            == HealthState::Critical,
        now.secs < s.expiry.secs + s.policy.renewal_grace_secs ==> s.state_at(now)
            != HealthState::Critical,
        now.secs > s.expiry.secs ==> s.state_at(now) != HealthState::Healthy,
        s.failures >= s.policy.alert_after_failures ==> s.state_at(now) != HealthState::Healthy,
        now.secs < s.expiry.secs && s.failures < s.policy.alert_after_failures ==> s.state_at(now)
            == HealthState::Healthy,
        ({
            let t = s.missed(message);
            &&& t.failures == s.failures + 1
            &&& t.last_error == Some(message)
            &&& t.expiry == s.expiry
            &&& t.last_renewal == s.last_renewal
            &&& t.interval_secs == s.interval_secs
            &&& t.mount_id == s.mount_id
            &&& t.policy == s.policy
        }),
        ({
            let t = s.renewed(expiry, now);
            &&& t.failures == 0
            &&& t.last_error is None
            &&& t.expiry == expiry
            &&& t.last_renewal == Some(now)
            &&& t.interval_secs == s.interval_secs
            &&& t.mount_id == s.mount_id
            &&& t.policy == s.policy
        }),
{
}

/// A mount is what the request asks for, and what it leaves out is the host's;
/// a client of another state format is refused, whatever it asks.
pub proof fn law_a_request_outweighs_the_host(
    r: MountRequest,
    id: Result<RepositoryId, GfsError>,
    c: HostConfig,
    default_threads: usize,
    res: Result<MountSpec, GfsError>,
)
    requires
        create_outcome(r, id, c, default_threads, res),
    ensures
        res is Ok <==> r.state_format_version == STATE_FORMAT_VERSION && id is Ok,
        r.state_format_version != STATE_FORMAT_VERSION ==> (res matches Err(e) && e.code
            == ErrorCode::FailedPrecondition),
        r.state_format_version == STATE_FORMAT_VERSION && id is Err ==> res == Err::<
            MountSpec,
            GfsError,
        >(id->Err_0),
        res matches Ok(s) ==> {
            &&& s.workspace@ == r.workspace@
            &&& s.state_dir@ == r.state_dir@
            &&& s.cache_dir@ == r.cache_dir@
            &&& s.repository_id@ == (id->Ok_0)@
            &&& s.revision_selector@ == r.revision_selector@
            &&& s.cache_quota_bytes == r.cache_quota_bytes
            &&& s.overlay_quota_bytes == r.overlay_quota_bytes
            &&& s.allow_other == r.allow_other
            &&& s.auto_unmount == r.allow_other
            &&& s.fs == c.fs
            &&& s.lease_policy == c.lease_policy
            &&& r.grpc_endpoint matches Some(t) ==> s.grpc_endpoint@ == t@
            &&& r.grpc_endpoint is None ==> s.grpc_endpoint@ == c.grpc_endpoint@
            &&& r.http_endpoint matches Some(t) ==> s.http_endpoint@ == t@
            &&& r.http_endpoint is None ==> s.http_endpoint@ == c.http_endpoint@
            &&& r.token matches Some(t) ==> s.token@ == t@
            &&& r.token is None ==> s.token@ == c.token@
            &&& r.fuse_threads matches Some(n) ==> s.threads == n
            &&& r.fuse_threads is None ==> s.threads == default_threads
        },
{
}

/// A daemon nobody listens for is not there; only a failure of another kind is
/// worth another try.
pub proof fn law_a_missing_daemon_is_not_found(failure: ConnectFailure)
    ensures
        connect_code(failure).may_retry() <==> failure == ConnectFailure::Other,
        connect_code(failure) == ErrorCode::NotFound <==> failure == ConnectFailure::NotFound
            || failure == ConnectFailure::ConnectionRefused,
        connect_code(failure) == ErrorCode::PermissionDenied <==> failure
            == ConnectFailure::PermissionDenied,
{
}

} // verus!
