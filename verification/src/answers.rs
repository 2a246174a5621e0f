//! What a mount's answers come to: laws of commits, reports, requests and
//! re-pins, as whoever reads them sees them.
use vstd::prelude::*;
use crate::base64url::{b64url_decoded, law_b64url_round_trip};
use crate::control::{
    BlameReport, CommitPlan, FsMonitorAnswer, LogReport, LsReport, PlannedChange, Request,
    RevDiffReport,
};
use crate::entry::{opt_text, CommitMeta, TreeEntryInfo};
use crate::error::GfsError;
use crate::lease::LeasePolicy;
use crate::mount::{
    blame, cat, changed_paths, commit_outcome, commit_plan, commit_views, committable,
    contributions, contributes, decoded_paths, deleted_paths, diff_base, diff_revs, first_fault,
    fsmonitor_changes, grant_outcome, handle_outcome, law_a_repin_invalidates_tokens, log, ls,
    path_views, resolve_here, text_views, Action, Blame, CommitChange, CommitChangeView, Grant,
    Granted, Mount, PendingCommit, Pin, Resolve, RevDiff, Target, TargetView,
};
use crate::node::OverlayEntry;
use crate::object::ObjectId;
use crate::path::BytePath;
use crate::status::{ChangeKind, Status, StatusChange};
use crate::strings::find_char;
use crate::text::lossy;

verus! {

// ---------------------------------------------------------------------------
// Committing
// ---------------------------------------------------------------------------
/// A file of a tree: its mode and its bytes.
pub struct FileAt {
    pub mode: u32,
    pub content: Seq<u8>,
}

/// The files of a tree after the first `n` changes of a commit.
pub open spec fn committed(
    base: Map<Seq<u8>, FileAt>,
    changes: Seq<CommitChangeView>,
    n: nat,
) -> Map<Seq<u8>, FileAt>
    decreases n,
{
    if n == 0 {
        base
    } else {
        let before = committed(base, changes, (n - 1) as nat);
        match changes[n - 1] {
            CommitChangeView::Upsert { path, mode, content } => before.insert(
                path,
                FileAt { mode, content },
            ),
            CommitChangeView::Delete { path } => before.remove(path),
        }
    }
}

/// The content a change gives its path: the target of a link, or what was read.
pub open spec fn new_content(row: OverlayEntry, read: Result<Vec<u8>, GfsError>) -> Seq<u8> {
    match row@.symlink_target {
        Some(target) => target,
        None => match read {
            Ok(bytes) => bytes@,
            Err(_) => Seq::empty(),
        },
    }
}

/// Whether no path is changed twice: paths differ, and nothing is moved away
/// from a path that is changed.
pub open spec fn apart(changes: Seq<StatusChange>) -> bool {
    &&& forall|i: int, j: int|
        0 <= i < j < changes.len() ==> (#[trigger] changes[i]).path@ != (
        #[trigger] changes[j]).path@
    &&& forall|i: int, j: int|
        0 <= i < changes.len() && 0 <= j < changes.len() && (#[trigger] changes[i]).from is Some
            ==> (changes[i].from->0)@ != (#[trigger] changes[j]).path@
}

/// Whether a change touches a path.
pub open spec fn touches_path(c: StatusChange, path: Seq<u8>) -> bool {
    path == c.path@ || (c.kind == ChangeKind::Renamed && c.from is Some && path == (c.from->0)@)
}

/// Whether a tree is what the first `n` changes make of a base: what was
/// deleted is gone, what was moved is gone from where it was, every other
/// changed path has its new mode and content, and nothing else differs.
pub open spec fn reached(
    base: Map<Seq<u8>, FileAt>,
    t: Map<Seq<u8>, FileAt>,
    changes: Seq<StatusChange>,
    rows: Seq<Option<OverlayEntry>>,
    reads: Seq<Result<Vec<u8>, GfsError>>,
    n: nat,
) -> bool {
    &&& forall|i: int|
        0 <= i < n && (#[trigger] changes[i]).kind == ChangeKind::Deleted ==> !t.contains_key(
            changes[i].path@,
        )
    &&& forall|i: int|
        0 <= i < n && (#[trigger] changes[i]).kind != ChangeKind::Deleted ==> t.contains_key(
            changes[i].path@,
        ) && t[changes[i].path@] == (FileAt {
            mode: changes[i].new_mode->0,
            content: new_content(rows[i]->0, reads[i]),
        })
    &&& forall|i: int|
        0 <= i < n && (#[trigger] changes[i]).kind == ChangeKind::Renamed && changes[i].from is Some
            ==> !t.contains_key((changes[i].from->0)@)
    &&& forall|path: Seq<u8>|
        (forall|i: int| 0 <= i < n ==> !touches_path(#[trigger] changes[i], path)) ==> (
        #[trigger] t.contains_key(path) <==> base.contains_key(path)) && t[path] == base[path]
}

proof fn lemma_committed_prefix(
    base: Map<Seq<u8>, FileAt>,
    a: Seq<CommitChangeView>,
    b: Seq<CommitChangeView>,
    n: nat,
)
    requires
        n <= a.len(),
    ensures
        committed(base, a + b, n) == committed(base, a, n),
    decreases n,
{
    if n > 0 {
        lemma_committed_prefix(base, a, b, (n - 1) as nat);
    }
}

/// The files after the first `n` changes of the workspace.
proof fn lemma_committed(
    changes: Seq<StatusChange>,
    rows: Seq<Option<OverlayEntry>>,
    reads: Seq<Result<Vec<u8>, GfsError>>,
    base: Map<Seq<u8>, FileAt>,
    n: nat,
)
    requires
        n <= changes.len(),
        apart(changes),
    ensures
        ({
            let list = contributions(changes, rows, reads, n);
            reached(base, committed(base, list, list.len()), changes, rows, reads, n)
        }),
    decreases n,
{
    if n > 0 {
        let k = n - 1;
        let c = changes[k];
        let earlier = contributions(changes, rows, reads, k as nat);
        let own = contributes(c, rows[k], reads[k]);
        let list = contributions(changes, rows, reads, n);
        lemma_committed(changes, rows, reads, base, k as nat);
        lemma_committed_prefix(base, earlier, own, earlier.len());
        let before = committed(base, earlier, earlier.len());
        let t = committed(base, list, list.len());
        assert(list == earlier + own);
        reveal_with_fuel(committed, 3);
        if own.len() == 2 {
            assert(list.len() == earlier.len() + 2);
            assert(list[earlier.len() as int] == own[0]);
            assert(list[earlier.len() as int + 1] == own[1]);
            assert(t == committed(base, list, earlier.len()).remove((c.from->0)@).insert(
                c.path@,
                t[c.path@],
            ));
        } else {
            assert(own.len() == 1);
            assert(list.len() == earlier.len() + 1);
            assert(list[earlier.len() as int] == own[0]);
        }
        assert forall|path: Seq<u8>|
            (forall|i: int| 0 <= i < n ==> !touches_path(#[trigger] changes[i], path)) implies (
        #[trigger] t.contains_key(path) <==> base.contains_key(path)) && t[path] == base[path] by {
            assert(!touches_path(changes[k], path));
            assert(before.contains_key(path) <==> base.contains_key(path));
        }
        assert forall|i: int|
            0 <= i < n && (#[trigger] changes[i]).kind == ChangeKind::Renamed
                && changes[i].from is Some implies !t.contains_key((changes[i].from->0)@) by {
            assert((changes[i].from->0)@ != changes[k].path@);
        }
    }
}

proof fn lemma_no_fault(
    changes: Seq<StatusChange>,
    rows: Seq<Option<OverlayEntry>>,
    reads: Seq<Result<Vec<u8>, GfsError>>,
    k: int,
)
    requires
        0 <= k <= changes.len(),
    ensures
        k <= first_fault(changes, rows, reads, k) <= changes.len(),
        first_fault(changes, rows, reads, k) == changes.len() <==> forall|i: int|
            k <= i < changes.len() ==> committable(#[trigger] changes[i], rows[i], reads[i]),
    decreases changes.len() - k,
{
    if k < changes.len() {
        lemma_no_fault(changes, rows, reads, k + 1);
        if first_fault(changes, rows, reads, k) == changes.len() {
            assert forall|i: int| k <= i < changes.len() implies committable(
                #[trigger] changes[i],
                rows[i],
                reads[i],
            ) by {
                if i > k {
                    assert(first_fault(changes, rows, reads, k + 1) == changes.len());
                }
            }
        }
    }
}

/// Committing a workspace's changes on top of its base gives the workspace:
/// what was deleted is gone, what was moved is gone from where it was, every
/// other changed path has its new mode and content, and nothing else differs.
/// The changes are collected whenever every path that is kept has a row, a mode
/// and content.
pub proof fn law_a_commit_leads_to_the_workspace(
    changes: Seq<StatusChange>,
    shown: Seq<String>,
    rows: Seq<Option<OverlayEntry>>,
    reads: Seq<Result<Vec<u8>, GfsError>>,
    base: Map<Seq<u8>, FileAt>,
    res: Result<Vec<CommitChange>, GfsError>,
)
    requires
        commit_outcome(changes, shown, rows, reads, res),
        apart(changes),
    ensures
        res matches Ok(list) ==> reached(
            base,
            committed(base, commit_views(list@), commit_views(list@).len()),
            changes,
            rows,
            reads,
            changes.len(),
        ),
        res is Ok <==> forall|i: int|
            0 <= i < changes.len() ==> (#[trigger] changes[i]).kind == ChangeKind::Deleted || (
            rows[i] is Some && changes[i].new_mode is Some && ((rows[i]->0)@.symlink_target is Some
                || reads[i] is Ok)),
        res matches Err(e) ==> exists|i: int|
            0 <= i < changes.len() && (#[trigger] changes[i]).kind != ChangeKind::Deleted && (rows[i]
                is None || changes[i].new_mode is None || reads[i] == Err::<Vec<u8>, GfsError>(e)),
{
    lemma_committed(changes, rows, reads, base, changes.len());
    lemma_no_fault(changes, rows, reads, 0);
    let fault = first_fault(changes, rows, reads, 0);
    if fault < changes.len() {
        lemma_fault_is_faulty(changes, rows, reads, 0);
        assert(!committable(changes[fault], rows[fault], reads[fault]));
    } else {
        assert forall|i: int| 0 <= i < changes.len() implies (#[trigger] changes[i]).kind
            == ChangeKind::Deleted || (rows[i] is Some && changes[i].new_mode is Some && ((
        rows[i]->0)@.symlink_target is Some || reads[i] is Ok)) by {
            assert(committable(changes[i], rows[i], reads[i]));
        }
    }
}

proof fn lemma_fault_is_faulty(
    changes: Seq<StatusChange>,
    rows: Seq<Option<OverlayEntry>>,
    reads: Seq<Result<Vec<u8>, GfsError>>,
    k: int,
)
    requires
        0 <= k <= changes.len(),
        first_fault(changes, rows, reads, k) < changes.len(),
    ensures
        ({
            let fault = first_fault(changes, rows, reads, k);
            k <= fault && !committable(changes[fault], rows[fault], reads[fault])
        }),
    decreases changes.len() - k,
{
    if committable(changes[k], rows[k], reads[k]) {
        lemma_fault_is_faulty(changes, rows, reads, k + 1);
    }
}

/// Whether text stands for bytes.
pub open spec fn stands_for(text: Seq<char>, bytes: Seq<u8>) -> bool {
    b64url_decoded(text) == Some(bytes)
}

/// A plan that is read back is the commit that was pending: its base, its
/// branch, every change with its path, mode and content, and every directory
/// that is gone. Only a workspace without changes has no plan.
pub proof fn law_a_plan_carries_the_commit(
    pending: &PendingCommit,
    branch: Option<String>,
    res: Result<CommitPlan, GfsError>,
)
    requires
        call_ensures(commit_plan, (pending, branch), res),
    ensures
        res is Err <==> pending.changes@.len() == 0 && pending.deleted_directories@.len() == 0,
        res matches Ok(plan) ==> {
            &&& plan.base_commit@ == pending.base_commit@.qualified()
            &&& opt_text(plan.work_branch) == opt_text(branch)
            &&& plan.changes@.len() == pending.changes@.len()
            &&& forall|i: int|
                0 <= i < pending.changes@.len() ==> match (
                #[trigger] plan.changes@[i],
                pending.changes@[i],
                ) {
                    (
                        PlannedChange::Upsert { path, mode, content_b64url },
                        CommitChange::Upsert { path: p, mode: m, content },
                    ) => stands_for(path@, p@) && mode == m && stands_for(
                        content_b64url@,
                        content@,
                    ),
                    (
                        PlannedChange::Delete { path },
                        CommitChange::Delete { path: p },
                    ) => stands_for(path@, p@),
                    _ => false,
                }
            &&& plan.deleted_directories@.len() == pending.deleted_directories@.len()
            &&& forall|i: int|
                0 <= i < plan.deleted_directories@.len() ==> stands_for(
                    (#[trigger] plan.deleted_directories@[i])@,
                    pending.deleted_directories@[i]@,
                )
        },
{
    if res is Ok {
        let plan = res->Ok_0;
        assert forall|i: int| 0 <= i < pending.changes@.len() implies match (
        #[trigger] plan.changes@[i],
        pending.changes@[i],
        ) {
            (
                PlannedChange::Upsert { path, mode, content_b64url },
                CommitChange::Upsert { path: p, mode: m, content },
            ) => stands_for(path@, p@) && mode == m && stands_for(content_b64url@, content@),
            (PlannedChange::Delete { path }, CommitChange::Delete { path: p }) => stands_for(
                path@,
                p@,
            ),
            _ => false,
        } by {
            match pending.changes@[i] {
                CommitChange::Upsert { path, content, .. } => {
                    law_b64url_round_trip(path@);
                    law_b64url_round_trip(content@);
                },
                CommitChange::Delete { path } => {
                    law_b64url_round_trip(path@);
                },
            }
        }
        assert forall|i: int| 0 <= i < plan.deleted_directories@.len() implies stands_for(
            (#[trigger] plan.deleted_directories@[i])@,
            pending.deleted_directories@[i]@,
        ) by {
            law_b64url_round_trip(pending.deleted_directories@[i]@);
        }
    }
}

// ---------------------------------------------------------------------------
// Reports
// ---------------------------------------------------------------------------
/// A report of a diff says of every file what the diff says.
pub proof fn law_a_diff_report_carries_the_diff(
    base: Option<ObjectId>,
    to: &ObjectId,
    diff: &RevDiff,
    res: RevDiffReport,
)
    requires
        call_ensures(diff_revs, (base, to, diff), res),
    ensures
        res.commit@ == to@.qualified(),
        base is None <==> res.base_commit is None,
        base is Some ==> (res.base_commit->0)@ == (base->0)@.qualified(),
        stands_for(res.rendered_b64url@, diff.rendered@),
        res.truncated == diff.truncated,
        res.files@.len() == diff.files@.len(),
        forall|i: int|
            0 <= i < diff.files@.len() ==> {
                let e = #[trigger] res.files@[i];
                let f = diff.files@[i];
                &&& stands_for(e.path_b64url@, f.path@)
                &&& e.old_path_b64url is Some <==> f.old_path is Some
                &&& f.old_path is Some ==> stands_for(
                    (e.old_path_b64url->0)@,
                    (f.old_path->0)@,
                )
                &&& e.status == f.status
                &&& e.additions == f.additions
                &&& e.deletions == f.deletions
                &&& e.binary == f.binary
                &&& e.old_mode == f.old_mode
                &&& e.new_mode == f.new_mode
            },
{
    law_b64url_round_trip(diff.rendered@);
    assert forall|i: int| 0 <= i < diff.files@.len() implies {
        let e = #[trigger] res.files@[i];
        let f = diff.files@[i];
        &&& stands_for(e.path_b64url@, f.path@)
        &&& e.old_path_b64url is Some <==> f.old_path is Some
        &&& f.old_path is Some ==> stands_for((e.old_path_b64url->0)@, (f.old_path->0)@)
        &&& e.status == f.status
        &&& e.additions == f.additions
        &&& e.deletions == f.deletions
        &&& e.binary == f.binary
        &&& e.old_mode == f.old_mode
        &&& e.new_mode == f.new_mode
    } by {
        law_b64url_round_trip(diff.files@[i].path@);
        if diff.files@[i].old_path is Some {
            law_b64url_round_trip((diff.files@[i].old_path->0)@);
        }
    }
}

/// A page of history says of every commit what the commit says, in order; a log
/// from a named revision is of no ref.
pub proof fn law_a_log_carries_the_commits(
    start: &ObjectId,
    from_pin: bool,
    ref_name: &Option<String>,
    commits: &Vec<CommitMeta>,
    has_more: bool,
    res: LogReport,
)
    requires
        call_ensures(log, (start, from_pin, ref_name, commits, has_more), res),
    ensures
        res.base_commit@ == start@.qualified(),
        res.ref_name is Some ==> from_pin,
        from_pin ==> opt_text(res.ref_name) == opt_text(*ref_name),
        res.has_more == has_more,
        res.commits@.len() == commits@.len(),
        forall|i: int|
            0 <= i < commits@.len() ==> {
                let e = #[trigger] res.commits@[i];
                let c = commits@[i];
                &&& e.commit@ == c.commit@.qualified()
                &&& e.tree@ == c.tree@.qualified()
                &&& e.parents@.len() == c.parents@.len()
                &&& forall|k: int|
                    0 <= k < c.parents@.len() ==> (#[trigger] e.parents@[k])@
                        == c.parents@[k]@.qualified()
                &&& e.author_name@ == c.author.name@
                &&& e.author_email@ == c.author.email@
                &&& e.author_time == c.author.time.secs
                &&& e.author_tz_offset_minutes == c.author.tz_offset_minutes
                &&& e.committer_name@ == c.committer.name@
                &&& e.committer_email@ == c.committer.email@
                &&& e.committer_time == c.committer.time.secs
                &&& e.committer_tz_offset_minutes == c.committer.tz_offset_minutes
                &&& e.message@ == c.message@
            },
{
}

/// A listing says of every entry what the tree says, in order, and a file is
/// printed from its own object with its own ticket.
pub proof fn law_a_listing_carries_the_entries(
    commit: &ObjectId,
    entries: &Vec<TreeEntryInfo>,
    res: LsReport,
    printed: Option<TreeEntryInfo>,
    from: Result<(ObjectId, String), GfsError>,
)
    requires
        call_ensures(ls, (commit, entries), res),
        call_ensures(cat, (printed,), from),
    ensures
        res.commit@ == commit@.qualified(),
        res.entries@.len() == entries@.len(),
        forall|i: int|
            0 <= i < entries@.len() ==> {
                let e = #[trigger] res.entries@[i];
                &&& stands_for(e.path_b64url@, entries@[i].path@)
                &&& e.mode == entries@[i].mode
                &&& e.size == entries@[i].size
                &&& e.oid@ == entries@[i].oid@.qualified()
            },
        from is Ok <==> printed is Some && (printed->0)@.blob_ticket is Some,
        from matches Ok((oid, ticket)) ==> oid@ == (printed->0)@.oid && Some(ticket@) == (
        printed->0)@.blob_ticket,
{
    assert forall|i: int| 0 <= i < entries@.len() implies {
        let e = #[trigger] res.entries@[i];
        &&& stands_for(e.path_b64url@, entries@[i].path@)
        &&& e.mode == entries@[i].mode
        &&& e.size == entries@[i].size
        &&& e.oid@ == entries@[i].oid@.qualified()
    } by {
        law_b64url_round_trip(entries@[i].path@);
    }
}

/// A report of a file's origins says of every stretch of lines what its origin
/// says.
pub proof fn law_a_blame_report_carries_the_origins(
    commit: &ObjectId,
    path: &BytePath,
    origins: &Blame,
    res: BlameReport,
)
    requires
        call_ensures(blame, (commit, path, origins), res),
    ensures
        res.commit@ == commit@.qualified(),
        stands_for(res.path_b64url@, path@),
        stands_for(res.content_b64url@, origins.content@),
        res.truncated == origins.truncated,
        res.hunks@.len() == origins.hunks@.len(),
        forall|i: int|
            0 <= i < origins.hunks@.len() ==> {
                let e = #[trigger] res.hunks@[i];
                let h = origins.hunks@[i];
                &&& e.final_start_line == h.final_start_line
                &&& e.lines == h.lines
                &&& e.commit@ == h.commit@.qualified()
                &&& stands_for(e.orig_path_b64url@, h.orig_path@)
                &&& e.orig_start_line == h.orig_start_line
                &&& e.author_name@ == h.author.name@
                &&& e.author_email@ == h.author.email@
                &&& e.author_time == h.author.time.secs
                &&& e.author_tz_offset_minutes == h.author.tz_offset_minutes
                &&& e.boundary == h.boundary
            },
{
    law_b64url_round_trip(path@);
    law_b64url_round_trip(origins.content@);
    assert forall|i: int| 0 <= i < origins.hunks@.len() implies {
        let e = #[trigger] res.hunks@[i];
        let h = origins.hunks@[i];
        &&& e.final_start_line == h.final_start_line
        &&& e.lines == h.lines
        &&& e.commit@ == h.commit@.qualified()
        &&& stands_for(e.orig_path_b64url@, h.orig_path@)
        &&& e.orig_start_line == h.orig_start_line
        &&& e.author_name@ == h.author.name@
        &&& e.author_email@ == h.author.email@
        &&& e.author_time == h.author.time.secs
        &&& e.author_tz_offset_minutes == h.author.tz_offset_minutes
        &&& e.boundary == h.boundary
    } by {
        law_b64url_round_trip(origins.hunks@[i].orig_path@);
    }
}

// ---------------------------------------------------------------------------
// The monitor
// ---------------------------------------------------------------------------
/// Whether a text names something that changed: a changed path, where one was
/// moved from, or a directory that is gone, with a slash.
pub open spec fn names_change(text: Seq<char>, status: Status) -> bool {
    ||| exists|i: int|
        0 <= i < status.changes@.len() && lossy((#[trigger] status.changes@[i]).path@) == text
    ||| exists|i: int|
        0 <= i < status.changes@.len() && (#[trigger] status.changes@[i]).from is Some && lossy(
            (status.changes@[i].from->0)@,
        ) == text
    ||| exists|i: int|
        0 <= i < status.directory_deletions@.len() && lossy(
            (#[trigger] status.directory_deletions@[i])@,
        ) + "/"@ == text
}

proof fn lemma_changed_paths(status: Status, n: nat)
    requires
        n <= status.changes@.len(),
    ensures
        forall|i: int|
            0 <= i < n ==> changed_paths(status.changes@, n).contains(
                lossy((#[trigger] status.changes@[i]).path@),
            ),
        forall|i: int|
            0 <= i < n && (#[trigger] status.changes@[i]).from is Some ==> changed_paths(
                status.changes@,
                n,
            ).contains(lossy((status.changes@[i].from->0)@)),
        forall|k: int|
            0 <= k < changed_paths(status.changes@, n).len() ==> names_change(
                #[trigger] changed_paths(status.changes@, n)[k],
                status,
            ),
    decreases n,
{
    if n > 0 {
        lemma_changed_paths(status, (n - 1) as nat);
        let before = changed_paths(status.changes@, (n - 1) as nat);
        let all = changed_paths(status.changes@, n);
        let c = status.changes@[n - 1];
        let b = before.len() as int;
        assert(all[b] == lossy(c.path@));
        assert(forall|k: int| 0 <= k < b ==> #[trigger] all[k] == before[k]);
        if c.from is Some {
            assert(all[b + 1] == lossy((c.from->0)@));
        }
        assert forall|i: int| 0 <= i < n implies all.contains(
            lossy((#[trigger] status.changes@[i]).path@),
        ) by {
            if i < n - 1 {
                let text = lossy(status.changes@[i].path@);
                assert(before.contains(text));
                let k = choose|k: int| 0 <= k < before.len() && before[k] == text;
                assert(all[k] == text);
            }
        }
        assert forall|i: int| 0 <= i < n && (#[trigger] status.changes@[i]).from is Some implies all.contains(
            lossy((status.changes@[i].from->0)@),
        ) by {
            if i < n - 1 {
                let text = lossy((status.changes@[i].from->0)@);
                assert(before.contains(text));
                let k = choose|k: int| 0 <= k < before.len() && before[k] == text;
                assert(all[k] == text);
            }
        }
        assert forall|k: int| 0 <= k < all.len() implies names_change(
            #[trigger] all[k],
            status,
        ) by {
            if k < b {
                assert(names_change(before[k], status));
            }
        }
    }
}

proof fn lemma_deleted_paths(status: Status, n: nat)
    requires
        n <= status.directory_deletions@.len(),
    ensures
        deleted_paths(status.directory_deletions@, n).len() == n,
        forall|i: int|
            0 <= i < n ==> #[trigger] deleted_paths(status.directory_deletions@, n)[i] == lossy(
                status.directory_deletions@[i]@,
            ) + "/"@,
    decreases n,
{
    if n > 0 {
        lemma_deleted_paths(status, (n - 1) as nat);
    }
}

/// The monitor's answer names everything that changed and nothing else, and
/// its token is good for the same generation and no other.
pub proof fn law_the_monitor_names_every_change(
    generation: u64,
    token: &str,
    status: &Status,
    res: FsMonitorAnswer,
    later: u64,
    next: &str,
    now: &Status,
    again: FsMonitorAnswer,
)
    requires
        call_ensures(fsmonitor_changes, (generation, token, status), res),
        call_ensures(fsmonitor_changes, (later, next, now), again),
        next@ == res.token@,
    ensures
        forall|i: int|
            0 <= i < status.changes@.len() ==> text_views(res.paths@).contains(
                lossy((#[trigger] status.changes@[i]).path@),
            ),
        forall|i: int|
            0 <= i < status.changes@.len() && (#[trigger] status.changes@[i]).from is Some
                ==> text_views(res.paths@).contains(lossy((status.changes@[i].from->0)@)),
        forall|i: int|
            0 <= i < status.directory_deletions@.len() ==> text_views(res.paths@).contains(
                lossy((#[trigger] status.directory_deletions@[i])@) + "/"@,
            ),
        forall|k: int|
            0 <= k < res.paths@.len() ==> names_change((#[trigger] res.paths@[k])@, *status),
        again.full_rescan <==> generation != later,
{
    let n = status.changes@.len();
    let m = status.directory_deletions@.len();
    lemma_changed_paths(*status, n);
    lemma_deleted_paths(*status, m);
    let a = changed_paths(status.changes@, n);
    let b = deleted_paths(status.directory_deletions@, m);
    let all = text_views(res.paths@);
    assert(all == a + b);
    assert(forall|k: int| 0 <= k < a.len() ==> #[trigger] all[k] == a[k]);
    assert(forall|k: int| 0 <= k < b.len() ==> #[trigger] b[k] == all[a.len() + k]);
    assert forall|text: Seq<char>| a.contains(text) implies #[trigger] all.contains(text) by {
        let k = choose|k: int| 0 <= k < a.len() && a[k] == text;
        assert(all[k] == text);
    }
    assert forall|i: int| 0 <= i < m implies all.contains(
        lossy((#[trigger] status.directory_deletions@[i])@) + "/"@,
    ) by {
        assert(b[i] == all[a.len() + i]);
    }
    assert forall|k: int| 0 <= k < res.paths@.len() implies names_change(
        (#[trigger] res.paths@[k])@,
        *status,
    ) by {
        assert(all[k] == res.paths@[k]@);
        if k < a.len() {
            assert(names_change(a[k], *status));
        } else {
            let i = k - a.len();
            assert(all[k] == b[i]);
            assert(lossy(status.directory_deletions@[i]@) + "/"@ == all[k]);
        }
    }
    law_a_repin_invalidates_tokens(generation, later);
}

// ---------------------------------------------------------------------------
// Requests and revisions
// ---------------------------------------------------------------------------
/// Whether texts stand for paths, one for one.
pub open spec fn all_stand_for(texts: Seq<String>, paths: Seq<BytePath>) -> bool {
    texts.len() == paths.len() && forall|i: int|
        0 <= i < texts.len() ==> stands_for((#[trigger] texts[i])@, paths[i]@)
}

proof fn lemma_decoded_paths(texts: Seq<String>, n: nat)
    requires
        n <= texts.len(),
    ensures
        decoded_paths(texts, n) matches Some(paths) ==> paths.len() == n && forall|i: int|
            0 <= i < n ==> b64url_decoded((#[trigger] texts[i])@) == Some(paths[i]),
        decoded_paths(texts, n) is None ==> exists|i: int|
            0 <= i < n && b64url_decoded((#[trigger] texts[i])@) is None,
    decreases n,
{
    if n > 0 {
        lemma_decoded_paths(texts, (n - 1) as nat);
    }
}

/// Whether an action is what a request asks for.
pub open spec fn asks(r: Request, a: Action) -> bool {
    match (r, a) {
        (Request::Inspect, Action::Inspect) => true,
        (Request::Health, Action::Health) => true,
        (Request::Refresh, Action::Refresh) => true,
        (Request::Status, Action::Status) => true,
        (Request::Diff, Action::Diff) => true,
        (Request::CommitPlan, Action::CommitPlan) => true,
        (Request::Unmount, Action::Unmount) => true,
        (
            Request::Switch { selector, branch },
            Action::Switch { selector: s, branch: b },
        ) => selector == s && branch == b,
        (
            Request::FsMonitorChanges { token },
            Action::FsMonitorChanges { token: t },
        ) => token == t,
        (Request::Export { bundle }, Action::Export { bundle: b }) => bundle == b,
        (Request::Search(q), Action::Search(p)) => q == p,
        (Request::Find(q), Action::Find(p)) => q == p,
        (Request::AdoptCommit { commit }, Action::AdoptCommit { commit: c }) => commit == c,
        (
            Request::Log { skip, limit, from, first_parent, paths_b64url },
            Action::Log { from: f, query },
        ) => skip == query.skip && limit == query.limit && from == f && first_parent
            == query.first_parent && all_stand_for(paths_b64url@, query.paths@),
        (
            Request::DiffRevs { from, to, parent, format, context_lines, paths_b64url },
            Action::DiffRevs {
                base,
                to: t,
                parent: p,
                format: f,
                context_lines: c,
                paths_b64url: texts,
            },
        ) => from == base && to == t && parent == p && format == f && context_lines == c
            && paths_b64url == texts,
        (
            Request::Ls { rev, path_b64url, page_size },
            Action::Ls { rev: r, path, page_size: n },
        ) => rev == r && stands_for(path_b64url@, path@) && page_size == n,
        (Request::Cat { rev, path_b64url }, Action::Cat { rev: r, path }) => rev == r
            && stands_for(path_b64url@, path@),
        (Request::Blame { rev, path_b64url }, Action::Blame { rev: r, path }) => rev == r
            && stands_for(path_b64url@, path@),
        _ => false,
    }
}

/// Whether every path of a request stands for some bytes.
pub open spec fn paths_stand(r: Request) -> bool {
    match r {
        Request::Log { paths_b64url, .. } => forall|i: int|
            0 <= i < paths_b64url@.len() ==> b64url_decoded((#[trigger] paths_b64url@[i])@) is Some,
        Request::Ls { path_b64url, .. } => b64url_decoded(path_b64url@) is Some,
        Request::Cat { path_b64url, .. } => b64url_decoded(path_b64url@) is Some,
        Request::Blame { path_b64url, .. } => b64url_decoded(path_b64url@) is Some,
        _ => true,
    }
}

/// A request leads to what it asks for; only one whose paths stand for nothing
/// is refused.
pub proof fn law_a_request_leads_to_what_it_asks(r: Request, res: Result<Action, GfsError>)
    requires
        handle_outcome(r, res),
    ensures
        res matches Ok(a) ==> asks(r, a),
        res is Ok <==> paths_stand(r),
{
    if r is Log {
        let texts = r->Log_paths_b64url@;
        lemma_decoded_paths(texts, texts.len());
        if res is Ok {
            let query = res->Ok_0->query;
            let paths = query.paths@;
            assert(path_views(paths).len() == paths.len());
            assert forall|i: int| 0 <= i < texts.len() implies stands_for(
                (#[trigger] texts[i])@,
                paths[i]@,
            ) by {
                assert(path_views(paths)[i] == paths[i]@);
            }
        }
    }
}

proof fn lemma_first_char(text: Seq<char>, c: char, k: int)
    requires
        0 <= k <= text.len(),
    ensures
        k <= find_char(text, c, k) <= text.len(),
        find_char(text, c, k) < text.len() ==> text[find_char(text, c, k)] == c,
        forall|i: int| k <= i < find_char(text, c, k) ==> text[i] != c,
    decreases text.len() - k,
{
    if k < text.len() && text[k] != c {
        lemma_first_char(text, c, k + 1);
    }
}

/// `HEAD` is the pinned commit, and a walk from `HEAD` is the same walk from
/// it; any other selector is the server's to resolve.
pub proof fn law_head_is_the_pin(
    pin: &ObjectId,
    selector: &str,
    base: Seq<char>,
    suffix: Seq<char>,
    res: Resolve,
)
    requires
        call_ensures(resolve_here, (pin, selector), res),
        selector@ == base + suffix,
        suffix.len() > 0 ==> suffix[0] == '~' || suffix[0] == '^',
        forall|i: int| 0 <= i < base.len() ==> base[i] != '~' && base[i] != '^',
    ensures
        base != "HEAD"@ ==> (res matches Resolve::Ask(s) && s@ == selector@),
        base == "HEAD"@ && suffix.len() == 0 ==> res is Pinned,
        base == "HEAD"@ && suffix.len() > 0 ==> (res matches Resolve::Ask(s) && s@
            == pin@.qualified() + suffix),
{
    let text = selector@;
    lemma_first_char(text, '~', 0);
    lemma_first_char(text, '^', 0);
    let t = find_char(text, '~', 0);
    let c = find_char(text, '^', 0);
    let at = if t < c {
        t
    } else {
        c
    };
    assert forall|i: int| 0 <= i < base.len() implies text[i] == base[i] by {}
    if suffix.len() > 0 {
        assert(text[base.len() as int] == suffix[0]);
    }
    assert(at == base.len());
    assert(text.take(at) =~= base);
    assert(text.skip(at) =~= suffix);
}

/// A commit is diffed against the parent that was asked for, counted from one,
/// and against its first where none was; a root commit against nothing.
pub proof fn law_a_commit_is_diffed_against_its_parent(
    parents: &Vec<ObjectId>,
    parent: Option<u32>,
    res: Result<Option<ObjectId>, GfsError>,
)
    requires
        call_ensures(diff_base, (parents, parent), res),
    ensures
        parent matches Some(n) ==> {
            &&& 1 <= n <= parents@.len() ==> (res matches Ok(Some(p)) && p@ == parents@[n - 1]@)
            &&& n > 1 && n > parents@.len() ==> res is Err
        },
        (parent is None || parent == Some(0u32)) && parents@.len() > 0 ==> (res matches Ok(Some(p))
            && p@ == parents@[0]@),
        (parent is None || parent == Some(0u32) || parent == Some(1u32)) && parents@.len() == 0
            ==> res == Ok::<Option<ObjectId>, GfsError>(None),
{
}

// ---------------------------------------------------------------------------
// The pin
// ---------------------------------------------------------------------------
/// A grant that is taken is the server's: its commit and tree, its names, its
/// times and its cadence.
pub proof fn law_a_grant_is_the_servers(
    g: Grant,
    policy: LeasePolicy,
    res: Result<Granted, GfsError>,
)
    requires
        grant_outcome(g, policy, res),
    ensures
        res matches Ok(out) ==> {
            &&& out.pin.commit@.qualified() == g.commit_oid@
            &&& out.pin.tree@.qualified() == g.tree_oid@
            &&& opt_text(out.pin.ref_name) == opt_text(g.ref_name)
            &&& Some(out.pin.snapshot_time) == g.snapshot_time
            &&& Some(out.lease_expiry) == g.lease_expiry
            &&& Ok::<crate::local::MountId, GfsError>(out.mount_id) == g.mount_id
            &&& g.heartbeat_interval_seconds > 0 ==> out.interval_secs
                == g.heartbeat_interval_seconds
            &&& g.heartbeat_interval_seconds == 0 ==> out.interval_secs
                == policy.heartbeat_interval_secs
            &&& out.work_ref_root is Some <==> g.work_ref_root@.len() > 0
            &&& out.work_ref_root is Some ==> (out.work_ref_root->0)@ == g.work_ref_root@
        },
        res is Err ==> g.mount_id is Err || g.snapshot_time is None || g.lease_expiry is None || (
        forall|oid: crate::object::ObjectIdView|
            oid.digest.len() == oid.algorithm.width() ==> #[trigger] oid.qualified()
                != g.commit_oid@) || (forall|oid: crate::object::ObjectIdView|
            oid.digest.len() == oid.algorithm.width() ==> #[trigger] oid.qualified()
                != g.tree_oid@),
{
}

/// A refresh looks at the same target again, a switch at the one it names, and
/// adopting a commit at that commit on the same branch; each is the next
/// generation, at what the target was resolved to. None starts over local
/// changes.
pub proof fn law_a_repin_is_the_next_generation(
    m: &Mount,
    clean: bool,
    selector: String,
    branch: Option<String>,
    commit: &str,
    pin: Pin,
    refreshed: Result<Target, GfsError>,
    switched: Result<Target, GfsError>,
    adopted: Target,
)
    requires
        call_ensures(Mount::refresh, (m, clean), refreshed),
        call_ensures(Mount::switch_to, (m, clean, selector, branch), switched),
        call_ensures(Mount::adopt_commit, (m, commit), adopted),
        m@.epoch < u64::MAX,
    ensures
        refreshed is Ok <==> clean,
        switched is Ok <==> clean,
        refreshed matches Ok(t) ==> m@.repinned(t@, pin).selector == m@.selector && m@.repinned(
            t@,
            pin,
        ).work_branch == m@.work_branch,
        switched matches Ok(t) ==> m@.repinned(t@, pin).selector == selector@ && m@.repinned(
            t@,
            pin,
        ).work_branch == opt_text(branch),
        m@.repinned(adopted@, pin).selector == commit@,
        m@.repinned(adopted@, pin).work_branch == m@.work_branch,
        forall|t: TargetView|
            {
                let next = #[trigger] m@.repinned(t, pin);
                &&& next.epoch == m@.epoch + 1
                &&& next.commit == pin.commit@
                &&& next.tree == pin.tree@
                &&& next.ref_name == opt_text(pin.ref_name)
                &&& next.snapshot_time == pin.snapshot_time
                &&& next.shutting_down == m@.shutting_down
            },
{
}

} // verus!
