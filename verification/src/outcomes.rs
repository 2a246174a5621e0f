//! What searches, change sets and requests come to: laws of merged answers,
//! streams, wanted blobs, scans, bounds, addresses and errors.
use vstd::prelude::*;
use crate::blobs::{named, needs_old, wanted_of, with_new_side};
use crate::bytes::lex_lt;
use crate::client::{absent_or_error, diff_context, response_error, ErrorBody, SnapshotClient};
use crate::entry::{EntryKind, TreeEntryInfo, WalkEntryView};
use crate::errno::{overlay_errno, projected_errno, service_code, service_errno, Condition, Errno};
use crate::error::{ErrorCode, GfsError};
use crate::limits;
use crate::local::{
    diff_bounds, page_limit, scan_list, search_root, searched, walk_paths, SearchRoot,
};
use crate::node::{opt_path, ContentView, OverlayEntry};
use crate::object::{ObjectId, ObjectIdView};
use crate::search::{
    all_bytes, all_eligible, all_excluded, all_matches, completion_reads, merge_reports,
    stream_completion, stream_matches, tally, Completion, ExecutionStatus, LocalOutcome, Match,
    ScanFrame, SearchOutcome, SearchResult, SearchStream, StreamMessage, TruncationReason,
    WireCompletion,
};
use crate::sorting::{
    lemma_sorted_lists_each_once, lemma_sorted_order, lists_each_once, sorted_order, NameOrder,
};
use crate::status::{ChangeKind, StatusChange};

verus! {

// ---------------------------------------------------------------------------
// Searching
// ---------------------------------------------------------------------------
/// How many matches the first `n` slices found.
pub open spec fn found_before(slices: Seq<LocalOutcome>, n: nat) -> nat
    decreases n,
{
    if n == 0 {
        0
    } else {
        found_before(slices, (n - 1) as nat) + slices[n - 1].matches@.len()
    }
}

/// Whether a list gives the matches of the first `n` slices, each in its place,
/// as far as the list goes.
pub open spec fn in_place(slices: Seq<LocalOutcome>, n: nat, list: Seq<Match>) -> bool {
    forall|i: int, a: int|
        0 <= i < n && 0 <= a < slices[i].matches@.len() && found_before(slices, i as nat) + a
            < list.len() ==> list[found_before(slices, i as nat) + a]
            == #[trigger] slices[i].matches@[a]
}

proof fn lemma_all_matches(slices: Seq<LocalOutcome>, n: nat)
    requires
        n <= slices.len(),
    ensures
        all_matches(slices.take(n as int)).len() == found_before(slices, n),
        in_place(slices, n, all_matches(slices.take(n as int))),
    decreases n,
{
    let some = slices.take(n as int);
    if n > 0 {
        lemma_all_matches(slices, (n - 1) as nat);
        assert(some.drop_last() =~= slices.take(n - 1));
        assert(some.last() == slices[n - 1]);
        let before = all_matches(slices.take(n - 1));
        let all = all_matches(some);
        assert(all == before + slices[n - 1].matches@);
        assert forall|i: int, a: int|
            0 <= i < n && 0 <= a < slices[i].matches@.len() && found_before(slices, i as nat) + a
                < all.len() implies all[found_before(slices, i as nat) + a]
            == #[trigger] slices[i].matches@[a] by {
            let k = found_before(slices, i as nat) + a;
            if i < n - 1 {
                lemma_found_grows(slices, (i + 1) as nat, (n - 1) as nat);
                assert(before[k] == slices[i].matches@[a]);
            } else {
                assert(all[k] == slices[n - 1].matches@[a]);
            }
        }
    }
}

proof fn lemma_found_grows(slices: Seq<LocalOutcome>, m: nat, n: nat)
    requires
        m <= n,
    ensures
        found_before(slices, m) <= found_before(slices, n),
    decreases n,
{
    if m < n {
        lemma_found_grows(slices, m, (n - 1) as nat);
    }
}

/// A merged answer gives the matches of the slices one after the other, each
/// in its place, up to the limit. It says that it is complete exactly when no
/// slice stopped early and nothing was cut, and names the limit when it cut.
pub proof fn law_a_merged_answer_holds_every_match(
    slices: Seq<LocalOutcome>,
    max_results: u32,
    frame: ScanFrame,
    r: SearchResult,
)
    requires
        merge_reports(slices, max_results, frame, r),
    ensures
        ({
            let total = found_before(slices, slices.len());
            let stopped = exists|i: int| 0 <= i < slices.len() && (#[trigger] slices[i]).truncated;
            &&& in_place(slices, slices.len(), r.matches@)
            &&& r.matches@.len() <= total
            &&& max_results > 0 ==> r.matches@.len() <= max_results
            &&& total > 0 ==> r.matches@.len() > 0
            &&& r.matches@.len() < total ==> r.matches@.len() >= max_results
            &&& r.completion.execution_status == ExecutionStatus::Complete <==> r.matches@.len()
                == total && !stopped
            &&& r.completion.truncation is Some <==> r.completion.execution_status
                == ExecutionStatus::Truncated
            &&& r.completion.truncation == Some(TruncationReason::ResultLimit) <==> r.matches@.len()
                < total
            &&& r.completion.stop_budget is Some <==> r.completion.truncation is Some
            &&& r.completion.commit == frame.commit
            &&& r.completion.coverage.scope == frame.scope
            &&& r.completion.coverage.declared_exclusions == frame.declared_exclusions
            &&& r.completion.candidates_considered == frame.candidates
            &&& r.completion.elapsed_ms == frame.elapsed_ms
        }),
{
    lemma_all_matches(slices, slices.len());
    assert(slices.take(slices.len() as int) =~= slices);
}

/// Whatever a slice counted is counted in the whole: one slice more adds what
/// it found eligible, read and excluded.
pub proof fn law_counts_add_up(slices: Seq<LocalOutcome>, slice: LocalOutcome, reason: Seq<char>)
    ensures
        all_eligible(slices.push(slice)) == all_eligible(slices) + slice.eligible_paths,
        all_bytes(slices.push(slice)) == all_bytes(slices) + slice.bytes_read,
        all_excluded(slices.push(slice), reason) == all_excluded(slices, reason) + tally(
            slice.excluded@,
            reason,
        ),
        all_eligible(Seq::<LocalOutcome>::empty()) == 0,
        all_bytes(Seq::<LocalOutcome>::empty()) == 0,
        all_excluded(Seq::<LocalOutcome>::empty(), reason) == 0,
{
    assert(slices.push(slice).drop_last() =~= slices);
}

/// The name of a reason on the wire.
pub open spec fn reason_name(r: TruncationReason) -> Seq<char> {
    match r {
        TruncationReason::ResultLimit => "result_limit"@,
        TruncationReason::TimeBudget => "time_budget"@,
        TruncationReason::BytesBudget => "bytes_budget"@,
        TruncationReason::CandidateBudget => "candidate_budget"@,
        TruncationReason::DisplayBudget => "display_budget"@,
        TruncationReason::NoRequiredLiteral => "no_required_literal"@,
        TruncationReason::BackendFailure => "backend_failure"@,
    }
}

/// A completion that travelled says what was sent: every reason comes back from
/// its name, only an exhaustive search is complete, and the counts are the
/// sender's.
pub proof fn law_a_completion_survives_the_wire(
    c: WireCompletion,
    r: Completion,
    reason: TruncationReason,
)
    requires
        completion_reads(c, r),
    ensures
        r.execution_status == ExecutionStatus::Complete <==> c.says_complete,
        c.truncation_reason is None <==> r.truncation is None,
        c.truncation_reason matches Some(name) ==> (name@ == reason_name(reason) ==> r.truncation
            == Some(reason)),
        c.coverage matches Some(coverage) ==> r.coverage == coverage,
        c.coverage is None ==> r.coverage.eligible_paths == 0 && r.coverage.excluded@.len() == 0,
        r.index_generation == c.index_generation,
        r.commit == c.commit_oid,
        r.stop_budget == c.stop_budget,
        r.candidates_considered == c.candidates_considered,
        r.bytes_read == c.bytes_read,
        r.elapsed_ms == c.elapsed_ms,
{
    reveal_strlit("result_limit");
    reveal_strlit("time_budget");
    reveal_strlit("bytes_budget");
    reveal_strlit("candidate_budget");
    reveal_strlit("display_budget");
    reveal_strlit("no_required_literal");
    reveal_strlit("backend_failure");
    assert("result_limit"@[0] == 'r' && "time_budget"@[0] == 't' && "bytes_budget"@[0] == 'b'
        && "candidate_budget"@[0] == 'c' && "display_budget"@[0] == 'd'
        && "no_required_literal"@[0] == 'n' && "backend_failure"@[1] == 'a' && "bytes_budget"@[1]
        == 'y' && "backend_failure"@[0] == 'b');
}

proof fn lemma_stream(messages: Seq<StreamMessage>)
    ensures
        forall|i: int|
            0 <= i < messages.len() && (#[trigger] messages[i]) is Match ==> stream_matches(
                messages,
            ).contains(messages[i]->Match_0),
        forall|k: int|
            0 <= k < stream_matches(messages).len() ==> exists|i: int|
                0 <= i < messages.len() && #[trigger] messages[i] == StreamMessage::Match(
                    #[trigger] stream_matches(messages)[k],
                ),
        stream_completion(messages) is Some <==> exists|i: int|
            0 <= i < messages.len() && (#[trigger] messages[i]) is Completion,
        stream_completion(messages) matches Some(c) ==> exists|i: int|
            0 <= i < messages.len() && #[trigger] messages[i] == StreamMessage::Completion(c)
                && forall|j: int| i < j < messages.len() ==> !((#[trigger] messages[j]) is Completion),
    decreases messages.len(),
{
    if messages.len() > 0 {
        let before = messages.drop_last();
        let n = before.len() as int;
        lemma_stream(before);
        assert(forall|i: int| 0 <= i < n ==> #[trigger] messages[i] == before[i]);
        let had = stream_matches(before);
        let all = stream_matches(messages);
        assert(forall|k: int| 0 <= k < had.len() ==> #[trigger] all[k] == had[k]);
        assert forall|i: int| 0 <= i < messages.len() && (#[trigger] messages[i]) is Match implies all.contains(
            messages[i]->Match_0,
        ) by {
            if i < n {
                assert(before[i] is Match);
                let k = choose|k: int| 0 <= k < had.len() && had[k] == before[i]->Match_0;
                assert(all[k] == messages[i]->Match_0);
            } else {
                assert(all[had.len() as int] == messages[i]->Match_0);
            }
        }
        assert forall|k: int| 0 <= k < all.len() implies exists|i: int|
            0 <= i < messages.len() && #[trigger] messages[i] == StreamMessage::Match(
                #[trigger] all[k],
            ) by {
            if k < had.len() {
                let i = choose|i: int|
                    0 <= i < before.len() && #[trigger] before[i] == StreamMessage::Match(had[k]);
                assert(messages[i] == StreamMessage::Match(all[k]));
            } else {
                assert(messages[n] == StreamMessage::Match(all[k]));
            }
        }
        if messages.last() is Completion {
            assert(messages[n] is Completion);
        } else if stream_completion(before) is Some {
            let c = stream_completion(before)->0;
            let i = choose|i: int|
                0 <= i < before.len() && #[trigger] before[i] == StreamMessage::Completion(c)
                    && forall|j: int|
                    i < j < before.len() ==> !((#[trigger] before[j]) is Completion);
            assert(messages[i] == StreamMessage::Completion(c));
            assert forall|j: int| i < j < messages.len() implies !((
            #[trigger] messages[j]) is Completion) by {
                if j < n {
                    assert(!(before[j] is Completion));
                }
            }
        }
    }
}

/// A stream is an answer exactly when a completion came, and then it holds
/// every match that came and no other.
pub proof fn law_a_stream_is_an_answer_when_it_completes(
    stream: SearchStream,
    messages: Seq<StreamMessage>,
    res: SearchOutcome,
)
    requires
        stream.has_read(messages),
        call_ensures(SearchStream::finish, (stream,), res),
    ensures
        res is Completed <==> exists|i: int|
            0 <= i < messages.len() && (#[trigger] messages[i]) is Completion,
        res matches SearchOutcome::Completed(r) ==> {
            &&& forall|i: int|
                0 <= i < messages.len() && (#[trigger] messages[i]) is Match ==> r.matches@.contains(
                    messages[i]->Match_0,
                )
            &&& forall|k: int|
                0 <= k < r.matches@.len() ==> exists|i: int|
                    0 <= i < messages.len() && #[trigger] messages[i] == StreamMessage::Match(
                        #[trigger] r.matches@[k],
                    )
            &&& exists|i: int|
                0 <= i < messages.len() && (#[trigger] messages[i]) is Completion
                    && completion_reads(messages[i]->Completion_0, r.completion)
        },
{
    lemma_stream(messages);
}

// ---------------------------------------------------------------------------
// Wanted blobs
// ---------------------------------------------------------------------------
/// Whether the old side of a change has to be read: its bytes differ and there
/// was one. A rename's two sides are the same bytes.
pub open spec fn has_old_side(c: StatusChange) -> bool {
    c.old_oid is Some && c.content_change && c.kind != ChangeKind::Renamed
}

/// Whether a blob is the old side of a change, at the path it had.
pub open spec fn is_old_side(c: StatusChange, blob: (ObjectIdView, Seq<u8>)) -> bool {
    &&& has_old_side(c)
    &&& blob.0.qualified() == (c.old_oid->0)@
    &&& c.from matches Some(p) ==> blob.1 == p@
    &&& c.from is None ==> blob.1 == c.path@
}

/// Whether a blob is the new side of a change whose bytes are still the base's,
/// at the path where the base has them.
pub open spec fn is_new_side(
    c: StatusChange,
    row: Option<OverlayEntry>,
    blob: (ObjectIdView, Seq<u8>),
) -> bool {
    &&& row is Some
    &&& (row->0)@.content == ContentView::Base(blob.0)
    &&& (row->0)@.renamed_from matches Some(p) ==> blob.1 == p
    &&& (row->0)@.renamed_from is None ==> blob.1 == c.path@
}

/// Whether a list holds exactly the sides of the first `n` changes.
pub open spec fn holds_sides(
    changes: Seq<StatusChange>,
    rows: Seq<Option<OverlayEntry>>,
    n: nat,
    list: Seq<(ObjectIdView, Seq<u8>)>,
) -> bool {
    &&& forall|i: int|
        0 <= i < n && has_old_side(#[trigger] changes[i]) ==> exists|k: int|
            0 <= k < list.len() && is_old_side(changes[i], #[trigger] list[k])
    &&& forall|i: int, blob: (ObjectIdView, Seq<u8>)|
        0 <= i < n && #[trigger] is_new_side(changes[i], rows[i], blob) ==> list.contains(blob)
    &&& forall|k: int|
        0 <= k < list.len() ==> exists|i: int|
            0 <= i < n && (is_old_side(#[trigger] changes[i], #[trigger] list[k]) || is_new_side(
                changes[i],
                rows[i],
                list[k],
            ))
}

proof fn lemma_wanted(changes: Seq<StatusChange>, rows: Seq<Option<OverlayEntry>>, n: nat)
    requires
        n <= changes.len(),
        rows.len() == changes.len(),
    ensures
        wanted_of(changes, rows, n) matches Some(list) ==> holds_sides(changes, rows, n, list),
        wanted_of(changes, rows, n) is None ==> exists|i: int|
            0 <= i < n && has_old_side(#[trigger] changes[i]) && named(
                (changes[i].old_oid->0)@,
            ) is None,
    decreases n,
{
    if n > 0 {
        let m = (n - 1) as nat;
        lemma_wanted(changes, rows, m);
        let c = changes[n - 1];
        let row = rows[n - 1];
        if wanted_of(changes, rows, m) is Some {
            let before = wanted_of(changes, rows, m)->0;
            if needs_old(c) && named((c.old_oid->0)@) is None {
                assert(has_old_side(changes[n - 1]));
            } else {
                let list = wanted_of(changes, rows, n)->0;
                let mid = if needs_old(c) {
                    before.push(
                        (
                            named((c.old_oid->0)@)->0,
                            match opt_path(c.from) {
                                Some(p) => p,
                                None => c.path@,
                            },
                        ),
                    )
                } else {
                    before
                };
                assert(list == with_new_side(mid, c, row));
                assert(forall|k: int| 0 <= k < before.len() ==> #[trigger] list[k] == before[k]);
                assert(forall|k: int| 0 <= k < mid.len() ==> #[trigger] list[k] == mid[k]);
                if needs_old(c) {
                    let b = before.len() as int;
                    assert(list[b] == mid[b]);
                    assert(is_old_side(c, list[b]));
                }
                assert forall|i: int| 0 <= i < n && has_old_side(#[trigger] changes[i]) implies exists|
                    k: int,
                |
                    0 <= k < list.len() && is_old_side(changes[i], #[trigger] list[k]) by {
                    if i < m {
                        let k = choose|k: int|
                            0 <= k < before.len() && is_old_side(changes[i], #[trigger] before[k]);
                        assert(is_old_side(changes[i], list[k]));
                    } else {
                        assert(is_old_side(changes[i], list[before.len() as int]));
                    }
                }
                assert forall|i: int, blob: (ObjectIdView, Seq<u8>)|
                    0 <= i < n && #[trigger] is_new_side(
                        changes[i],
                        rows[i],
                        blob,
                    ) implies list.contains(blob) by {
                    if i < m {
                        assert(before.contains(blob));
                        let k = choose|k: int| 0 <= k < before.len() && before[k] == blob;
                        assert(list[k] == blob);
                    } else {
                        assert(list[mid.len() as int] == blob);
                    }
                }
                assert forall|k: int| 0 <= k < list.len() implies exists|i: int|
                    0 <= i < n && (is_old_side(#[trigger] changes[i], #[trigger] list[k])
                        || is_new_side(changes[i], rows[i], list[k])) by {
                    if k < before.len() {
                        let i = choose|i: int|
                            0 <= i < m && (is_old_side(#[trigger] changes[i], before[k])
                                || is_new_side(changes[i], rows[i], before[k]));
                        assert(is_old_side(changes[i], list[k]) || is_new_side(
                            changes[i],
                            rows[i],
                            list[k],
                        ));
                    } else if k < mid.len() {
                        assert(is_old_side(changes[n - 1], list[k]));
                    } else {
                        assert(is_new_side(changes[n - 1], rows[n - 1], list[k]));
                    }
                }
            }
        }
    }
}

/// A change set wants exactly the blobs its sides are made of, each where the
/// pinned commit has it; it is refused only for an old side whose ID cannot be
/// read.
pub proof fn law_a_change_set_wants_its_sides(
    changes: Seq<StatusChange>,
    rows: Seq<Option<OverlayEntry>>,
)
    requires
        rows.len() == changes.len(),
    ensures
        wanted_of(changes, rows, changes.len()) matches Some(list) ==> holds_sides(
            changes,
            rows,
            changes.len(),
            list,
        ),
        wanted_of(changes, rows, changes.len()) is None ==> exists|i: int|
            0 <= i < changes.len() && has_old_side(#[trigger] changes[i]) && forall|
                oid: ObjectIdView,
            |
                oid.digest.len() == oid.algorithm.width() ==> #[trigger] oid.qualified() != (
                changes[i].old_oid->0)@,
{
    lemma_wanted(changes, rows, changes.len());
    if wanted_of(changes, rows, changes.len()) is None {
        let i = choose|i: int|
            0 <= i < changes.len() && has_old_side(#[trigger] changes[i]) && named(
                (changes[i].old_oid->0)@,
            ) is None;
        assert(has_old_side(changes[i]));
        assert forall|oid: ObjectIdView|
            oid.digest.len() == oid.algorithm.width() implies #[trigger] oid.qualified() != (
        changes[i].old_oid->0)@ by {}
    }
}

// ---------------------------------------------------------------------------
// Scans and bounds
// ---------------------------------------------------------------------------
/// Whether an entry is a file that a search reads.
pub open spec fn plain_file(e: WalkEntryView) -> bool {
    e.mode == 0o100644 || e.mode == 0o100755
}

proof fn lemma_searched(entries: Seq<WalkEntryView>, n: nat)
    requires
        n <= entries.len(),
    ensures
        forall|i: int|
            0 <= i < n && plain_file(#[trigger] entries[i]) ==> searched(entries, n).contains(
                entries[i],
            ),
        forall|k: int|
            0 <= k < searched(entries, n).len() ==> plain_file(#[trigger] searched(entries, n)[k])
                && entries.contains(searched(entries, n)[k]),
    decreases n,
{
    if n > 0 {
        lemma_searched(entries, (n - 1) as nat);
        let before = searched(entries, (n - 1) as nat);
        let all = searched(entries, n);
        assert(forall|k: int| 0 <= k < before.len() ==> #[trigger] all[k] == before[k]);
        assert forall|i: int| 0 <= i < n && plain_file(#[trigger] entries[i]) implies all.contains(
            entries[i],
        ) by {
            if i < n - 1 {
                let k = choose|k: int| 0 <= k < before.len() && before[k] == entries[i];
                assert(all[k] == entries[i]);
            } else {
                assert(all[before.len() as int] == entries[i]);
            }
        }
    }
}

/// A scan reads every file of the walk and nothing else, in byte order of the
/// paths.
pub proof fn law_a_scan_reads_every_file(entries: Seq<WalkEntryView>)
    ensures
        forall|i: int|
            0 <= i < entries.len() && plain_file(#[trigger] entries[i]) ==> scan_list(
                entries,
            ).contains(entries[i]),
        forall|k: int|
            0 <= k < scan_list(entries).len() ==> plain_file(#[trigger] scan_list(entries)[k])
                && entries.contains(scan_list(entries)[k]),
        forall|k: int, m: int|
            0 <= k < m < scan_list(entries).len() ==> !lex_lt(
                (#[trigger] scan_list(entries)[m]).path,
                (#[trigger] scan_list(entries)[k]).path,
            ),
{
    let kept = searched(entries, entries.len());
    let paths = walk_paths(kept);
    let order = sorted_order(NameOrder::Bytes, paths);
    let list = scan_list(entries);
    lemma_searched(entries, entries.len());
    lemma_sorted_order(NameOrder::Bytes, paths, paths.len());
    lemma_sorted_lists_each_once(NameOrder::Bytes, paths);
    assert(lists_each_once(order, kept.len()));
    assert forall|i: int| 0 <= i < entries.len() && plain_file(#[trigger] entries[i]) implies list.contains(
        entries[i],
    ) by {
        assert(kept.contains(entries[i]));
        let v = choose|v: int| 0 <= v < kept.len() && kept[v] == entries[i];
        assert(order.contains(v));
        let k = choose|k: int| 0 <= k < order.len() && order[k] == v;
        assert(list[k] == entries[i]);
    }
    assert forall|k: int| 0 <= k < list.len() implies plain_file(#[trigger] list[k])
        && entries.contains(list[k]) by {
        assert(list[k] == kept[order[k]]);
    }
    assert forall|k: int, m: int| 0 <= k < m < list.len() implies !lex_lt(
        (#[trigger] list[m]).path,
        (#[trigger] list[k]).path,
    ) by {
        let a = order[k];
        let b = order[m];
        assert(list[k].path == paths[a] && list[m].path == paths[b]);
        crate::sorting::lemma_precedes_total(NameOrder::Bytes, paths[a], paths[b]);
    }
}

/// A page is as large as was asked for, within the bound; a diff has the
/// context and the bytes that were asked for, within theirs; what is not asked
/// for has its default.
pub proof fn law_requests_are_bounded(
    requested: u32,
    default: usize,
    max: usize,
    page: usize,
    context: Option<u32>,
    default_context: u32,
    max_bytes: u64,
    bounds: (u32, u64),
    scope: &[u8],
    kind: &Option<EntryKind>,
    root: SearchRoot,
    wire: (u32, bool),
)
    requires
        call_ensures(page_limit, (requested, default, max), page),
        call_ensures(diff_bounds, (context, default_context, max_bytes), bounds),
        call_ensures(search_root, (scope, kind), root),
        call_ensures(diff_context, (context,), wire),
    ensures
        requested == 0 ==> page == default,
        requested > 0 ==> page <= max && page <= requested && (page == max || page == requested),
        bounds.0 <= limits::MAX_DIFF_CONTEXT_LINES,
        context matches Some(n) ==> bounds.0 <= n && (n <= limits::MAX_DIFF_CONTEXT_LINES
            ==> bounds.0 == n),
        context is None && default_context <= limits::MAX_DIFF_CONTEXT_LINES ==> bounds.0
            == default_context,
        max_bytes == 0 ==> bounds.1 == limits::DEFAULT_DIFF_BYTES,
        max_bytes > 0 ==> bounds.1 <= max_bytes && bounds.1 <= limits::MAX_DIFF_BYTES && (
        max_bytes <= limits::MAX_DIFF_BYTES ==> bounds.1 == max_bytes),
        root == SearchRoot::Nothing <==> scope@.len() > 0 && *kind is None,
        root == SearchRoot::OneFile <==> scope@.len() > 0 && *kind is Some && !((*kind)->0
            == EntryKind::Directory || (*kind)->0 == EntryKind::Gitlink),
        context matches Some(n) ==> wire.0 == n && (wire.1 <==> n == 0),
        context is None ==> wire.0 == 0 && !wire.1,
{
}

// ---------------------------------------------------------------------------
// Addresses and errors
// ---------------------------------------------------------------------------
/// Everything of a repository is read below one address: the store's manifest,
/// its files below that, and each blob by its own ID with its own ticket.
pub proof fn law_addresses_lie_below_the_repository(
    client: &SnapshotClient,
    oid: &ObjectId,
    ticket: &str,
    path: &str,
    blob: String,
    manifest: String,
    file: String,
    from: Option<ObjectId>,
    start: ObjectId,
)
    requires
        call_ensures(SnapshotClient::blob_url, (client, oid, ticket), blob),
        call_ensures(SnapshotClient::manifest_url, (client,), manifest),
        call_ensures(SnapshotClient::odb_url, (client, path), file),
        call_ensures(SnapshotClient::log_start, (client, from), start),
    ensures
        ({
            let base = client@.http_endpoint + "/v1/repos/"@ + client@.repository_id;
            &&& manifest@ == base + "/odb"@
            &&& file@ == manifest@ + "/"@ + path@
            &&& blob@ == base + "/blobs/"@ + oid@.qualified() + "?ticket="@ + ticket@
            &&& from is None ==> start@ == client@.commit
            &&& from is Some ==> start@ == (from->0)@
        }),
{
}

/// A failed response is the error its body names, where that is a known one,
/// and otherwise what its status says; a path the service does not know is
/// absent, and no other error is taken for an absence.
pub proof fn law_a_response_is_its_error(
    status: u16,
    body: Option<ErrorBody>,
    res: GfsError,
    code: ErrorCode,
    absent: Result<Option<TreeEntryInfo>, GfsError>,
)
    requires
        response_error(status, body, res),
        call_ensures(absent_or_error, (res,), absent),
    ensures
        body is Some && (body->0).code@ == crate::error::wire_name(code) ==> res.code == code
            && res.message@ == (body->0).message@,
        body is None ==> {
            &&& status == 400 <==> res.code == ErrorCode::InvalidArgument
            &&& status == 401 <==> res.code == ErrorCode::Unauthenticated
            &&& status == 403 <==> res.code == ErrorCode::PermissionDenied
            &&& status == 404 <==> res.code == ErrorCode::NotFound
            &&& status == 409 <==> res.code == ErrorCode::Conflict
            &&& status == 422 <==> res.code == ErrorCode::FailedPrecondition
            &&& status == 429 <==> res.code == ErrorCode::ResourceLimit
            &&& status == 503 <==> res.code == ErrorCode::Unavailable
            &&& status == 504 <==> res.code == ErrorCode::DeadlineExceeded
        },
        absent is Ok <==> res.code == ErrorCode::NotFound,
        absent matches Ok(entry) ==> entry is None,
        absent matches Err(e) ==> e == res,
{
    if body is Some && (body->0).code@ == crate::error::wire_name(code) {
        crate::error::law_wire_names_are_distinct(res.code, code);
    }
}

/// Refusals of the overlay keep apart on their way to a caller; whatever may
/// pass on a retry is an I/O error; and what the overlay refuses is answered
/// alike whichever vocabulary it went through, as far as that one tells.
pub proof fn law_refusals_keep_their_meaning(a: Condition, b: Condition, code: ErrorCode)
    ensures
        overlay_errno(a) == overlay_errno(b) ==> a == b,
        code.may_retry() ==> service_errno(code) == Errno::Io,
        service_errno(code) == Errno::NoEntry <==> code == ErrorCode::NotFound,
        service_errno(code) == Errno::QuotaExceeded <==> code == ErrorCode::ResourceLimit,
        service_errno(code) == Errno::Access <==> code == ErrorCode::PermissionDenied || code
            == ErrorCode::Unauthenticated || code == ErrorCode::ReservedNamespace,
        service_errno(code) == Errno::Stale <==> code == ErrorCode::Expired || code
            == ErrorCode::FailedPrecondition,
        service_errno(code) == Errno::Invalid <==> code == ErrorCode::InvalidArgument,
        service_errno(service_code(a)) == overlay_errno(a) || service_errno(service_code(a))
            == Errno::Invalid,
        service_errno(service_code(Condition::NoEntry)) == overlay_errno(Condition::NoEntry),
        service_errno(service_code(Condition::Io)) == overlay_errno(Condition::Io),
        service_errno(service_code(Condition::QuotaExceeded)) == overlay_errno(
            Condition::QuotaExceeded,
        ),
        projected_errno(code) == Errno::Stale <==> code == ErrorCode::FailedPrecondition,
        projected_errno(code) == Errno::Stale || projected_errno(code) == Errno::Io,
{
}

} // verus!
