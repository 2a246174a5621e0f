//! Search results: the merge of a parallel scan and the reading of a result
//! stream.
use vstd::prelude::*;
use crate::bytes::lex_lt;
use crate::error::GfsError;

verus! {

/// One matching line.
#[derive(Debug)]
pub struct Match {
    pub path: Vec<u8>,
    pub line: u64,
    pub column: u64,
    pub matched: Vec<u8>,
    pub line_text: Vec<u8>,
    pub before: Vec<Vec<u8>>,
    pub after: Vec<Vec<u8>>,
    pub line_truncated: bool,
    pub blob_oid: String,
}

/// Whether a search covered everything it set out to.
#[derive(Clone, Copy, PartialEq, Eq, Structural, Debug)]
pub enum ExecutionStatus {
    Complete,
    Truncated,
}

/// Why a search stopped early.
#[derive(Clone, Copy, PartialEq, Eq, Structural, Debug)]
pub enum TruncationReason {
    ResultLimit,
    TimeBudget,
    BytesBudget,
    CandidateBudget,
    DisplayBudget,
    NoRequiredLiteral,
    BackendFailure,
}

/// What a search looked at.
#[derive(Debug)]
pub struct Coverage {
    pub scope: Vec<u8>,
    pub eligible_paths: u64,
    /// How many paths each reason excluded; no reason occurs twice.
    pub excluded: Vec<(String, u64)>,
    pub declared_exclusions: Vec<String>,
}

/// How a search ended.
#[derive(Debug)]
pub struct Completion {
    pub execution_status: ExecutionStatus,
    pub truncation: Option<TruncationReason>,
    pub coverage: Coverage,
    pub index_generation: u64,
    pub commit: String,
    pub stop_budget: Option<String>,
    pub candidates_considered: u64,
    pub bytes_read: u64,
    pub elapsed_ms: u64,
}

#[derive(Debug)]
pub struct SearchResult {
    pub matches: Vec<Match>,
    pub completion: Completion,
}

/// A finished search, or why there is no answer.
#[derive(Debug)]
pub enum SearchOutcome {
    Completed(SearchResult),
    FailedBeforeCompletion(String),
}

/// What one slice of a parallel scan found.
#[derive(Debug)]
pub struct LocalOutcome {
    pub matches: Vec<Match>,
    pub excluded: Vec<(String, u64)>,
    pub eligible_paths: u64,
    pub bytes_read: u64,
    pub truncated: bool,
}

// ---------------------------------------------------------------------------
// Counting exclusions
// ---------------------------------------------------------------------------
/// The total recorded for one reason.
pub open spec fn tally(list: Seq<(String, u64)>, reason: Seq<char>) -> nat
    decreases list.len(),
{
    if list.len() == 0 {
        0
    } else {
        tally(list.drop_last(), reason) + (if list.last().0@ == reason {
            list.last().1 as nat
        } else {
            0
        })
    }
}

/// Whether no reason occurs twice.
pub open spec fn distinct_reasons(list: Seq<(String, u64)>) -> bool {
    forall|i: int, j: int|
        0 <= i < j < list.len() ==> (#[trigger] list[i]).0@ != (#[trigger] list[j]).0@
}

proof fn lemma_tally_absent(list: Seq<(String, u64)>, reason: Seq<char>)
    requires
        forall|i: int| 0 <= i < list.len() ==> (#[trigger] list[i]).0@ != reason,
    ensures
        tally(list, reason) == 0,
    decreases list.len(),
{
    if list.len() > 0 {
        lemma_tally_absent(list.drop_last(), reason);
    }
}

proof fn lemma_tally_at(list: Seq<(String, u64)>, i: int, reason: Seq<char>)
    requires
        0 <= i < list.len(),
        distinct_reasons(list),
        list[i].0@ == reason,
    ensures
        tally(list, reason) == list[i].1,
    decreases list.len(),
{
    let head = list.drop_last();
    if i == list.len() - 1 {
        lemma_tally_absent(head, reason);
    } else {
        assert(head[i] == list[i]);
        lemma_tally_at(head, i, reason);
    }
}

proof fn lemma_tally_update(list: Seq<(String, u64)>, i: int, v: u64, reason: Seq<char>)
    requires
        0 <= i < list.len(),
    ensures
        tally(list.update(i, (list[i].0, v)), reason) == tally(list, reason) + (if list[i].0@
            == reason {
            v - list[i].1
        } else {
            0
        }),
    decreases list.len(),
{
    let updated = list.update(i, (list[i].0, v));
    if i == list.len() - 1 {
        assert(updated.drop_last() =~= list.drop_last());
    } else {
        lemma_tally_update(list.drop_last(), i, v, reason);
        assert(updated.drop_last() =~= list.drop_last().update(i, (list[i].0, v)));
    }
}

/// Add `count` to a reason's total.
fn bump(list: &mut Vec<(String, u64)>, reason: &String, count: u64)
    requires
        distinct_reasons(old(list)@),
        tally(old(list)@, reason@) + count <= u64::MAX,
    ensures
        distinct_reasons(final(list)@),
        forall|r: Seq<char>| #[trigger]
            tally(final(list)@, r) == tally(old(list)@, r) + (if r == reason@ {
                count as nat
            } else {
                0
            }),
{
    let mut i: usize = 0;
    while i < list.len()
        invariant
            list@ == old(list)@,
            i <= list@.len(),
            distinct_reasons(list@),
            tally(list@, reason@) + count <= u64::MAX,
            forall|k: int| 0 <= k < i ==> (#[trigger] list@[k]).0@ != reason@,
        decreases list.len() - i,
    {
        if list[i].0 == *reason {
            proof {
                lemma_tally_at(list@, i as int, reason@);
            }
            let name = list[i].0.clone();
            let total: u64 = list[i].1 + count;
            let ghost before = list@;
            list[i] = (name, total);
            proof {
                assert(list@ =~= before.update(i as int, (before[i as int].0, total)));
                assert forall|r: Seq<char>| #[trigger] tally(list@, r) == tally(before, r) + (if r
                    == reason@ {
                    count as nat
                } else {
                    0
                }) by {
                    lemma_tally_update(before, i as int, total, r);
                }
            }
            return;
        }
        i = i + 1;
    }
    let ghost before = list@;
    list.push((reason.clone(), count));
    proof {
        assert(list@.drop_last() =~= before);
    }
}

// ---------------------------------------------------------------------------
// Merging slices
// ---------------------------------------------------------------------------
/// All matches of the slices, in slice order.
pub open spec fn all_matches(slices: Seq<LocalOutcome>) -> Seq<Match>
    decreases slices.len(),
{
    if slices.len() == 0 {
        Seq::empty()
    } else {
        all_matches(slices.drop_last()) + slices.last().matches@
    }
}

/// How often a reason excluded a path, over all slices.
pub open spec fn all_excluded(slices: Seq<LocalOutcome>, reason: Seq<char>) -> nat
    decreases slices.len(),
{
    if slices.len() == 0 {
        0
    } else {
        all_excluded(slices.drop_last(), reason) + tally(slices.last().excluded@, reason)
    }
}

/// How many paths the slices found eligible.
pub open spec fn all_eligible(slices: Seq<LocalOutcome>) -> nat
    decreases slices.len(),
{
    if slices.len() == 0 {
        0
    } else {
        all_eligible(slices.drop_last()) + slices.last().eligible_paths as nat
    }
}

/// How many bytes the slices read.
pub open spec fn all_bytes(slices: Seq<LocalOutcome>) -> nat
    decreases slices.len(),
{
    if slices.len() == 0 {
        0
    } else {
        all_bytes(slices.drop_last()) + slices.last().bytes_read as nat
    }
}

/// Whether a slice stopped early.
pub open spec fn any_truncated(slices: Seq<LocalOutcome>) -> bool {
    exists|i: int| 0 <= i < slices.len() && (#[trigger] slices[i]).truncated
}

/// The slices before the first that failed.
pub open spec fn successes(outcomes: Seq<Result<LocalOutcome, GfsError>>) -> Seq<LocalOutcome>
    decreases outcomes.len(),
{
    if outcomes.len() == 0 {
        Seq::empty()
    } else {
        match outcomes[0] {
            Ok(slice) => seq![slice] + successes(outcomes.skip(1)),
            Err(_) => Seq::empty(),
        }
    }
}

/// The first failure.
pub open spec fn first_failure(outcomes: Seq<Result<LocalOutcome, GfsError>>) -> Option<GfsError>
    decreases outcomes.len(),
{
    if outcomes.len() == 0 {
        None
    } else {
        match outcomes[0] {
            Ok(_) => first_failure(outcomes.skip(1)),
            Err(e) => Some(e),
        }
    }
}

/// Whether the totals of the slices fit their counters.
pub open spec fn totals_fit(slices: Seq<LocalOutcome>) -> bool {
    &&& all_eligible(slices) <= u64::MAX
    &&& all_bytes(slices) <= u64::MAX
    &&& forall|r: Seq<char>| #[trigger] all_excluded(slices, r) <= u64::MAX
}

proof fn lemma_totals_grow(slices: Seq<LocalOutcome>, n: int)
    requires
        0 <= n <= slices.len(),
    ensures
        all_eligible(slices.take(n)) <= all_eligible(slices),
        all_bytes(slices.take(n)) <= all_bytes(slices),
        forall|r: Seq<char>| #[trigger]
            all_excluded(slices.take(n), r) <= all_excluded(slices, r),
    decreases slices.len() - n,
{
    if n == slices.len() {
        assert(slices.take(n) =~= slices);
    } else {
        lemma_totals_grow(slices, n + 1);
        assert(slices.take(n + 1).drop_last() =~= slices.take(n));
        assert forall|r: Seq<char>| #[trigger]
            all_excluded(slices.take(n), r) <= all_excluded(slices, r) by {
            assert(all_excluded(slices.take(n + 1), r) <= all_excluded(slices, r));
        }
    }
}

proof fn lemma_tally_prefix(list: Seq<(String, u64)>, n: int, r: Seq<char>)
    requires
        0 <= n <= list.len(),
    ensures
        tally(list.take(n), r) <= tally(list, r),
    decreases list.len() - n,
{
    if n == list.len() {
        assert(list.take(n) =~= list);
    } else {
        lemma_tally_prefix(list, n + 1, r);
        assert(list.take(n + 1).drop_last() =~= list.take(n));
    }
}

/// Add one slice's exclusions to the totals.
fn bump_all(list: &mut Vec<(String, u64)>, more: &Vec<(String, u64)>)
    requires
        distinct_reasons(old(list)@),
        forall|r: Seq<char>| #[trigger]
            tally(old(list)@, r) + tally(more@, r) <= u64::MAX,
    ensures
        distinct_reasons(final(list)@),
        forall|r: Seq<char>| #[trigger]
            tally(final(list)@, r) == tally(old(list)@, r) + tally(more@, r),
{
    let mut i: usize = 0;
    assert(more@.take(0) =~= Seq::<(String, u64)>::empty());
    while i < more.len()
        invariant
            i <= more@.len(),
            distinct_reasons(list@),
            forall|r: Seq<char>| #[trigger]
                tally(old(list)@, r) + tally(more@, r) <= u64::MAX,
            forall|r: Seq<char>| #[trigger]
                tally(list@, r) == tally(old(list)@, r) + tally(more@.take(i as int), r),
        decreases more.len() - i,
    {
        proof {
            let r = more@[i as int].0@;
            assert(more@.take(i + 1).drop_last() =~= more@.take(i as int));
            lemma_tally_prefix(more@, i + 1, r);
            assert(tally(old(list)@, r) + tally(more@, r) <= u64::MAX);
            assert(tally(list@, r) == tally(old(list)@, r) + tally(more@.take(i as int), r));
        }
        let ghost before = list@;
        bump(list, &more[i].0, more[i].1);
        proof {
            assert forall|r: Seq<char>| #[trigger]
                tally(list@, r) == tally(old(list)@, r) + tally(more@.take(i + 1), r) by {
                assert(tally(before, r) == tally(old(list)@, r) + tally(more@.take(i as int), r));
            }
        }
        i = i + 1;
    }
    assert(more@.take(i as int) =~= more@);
}

/// What a merged scan reports besides its matches and totals.
#[derive(Debug)]
pub struct ScanFrame {
    pub scope: Vec<u8>,
    pub declared_exclusions: Vec<String>,
    pub commit: String,
    pub candidates: u64,
    pub elapsed_ms: u64,
}

/// How many results a caller gets at most: at least one.
pub open spec fn result_cap(max_results: u32) -> nat {
    if max_results == 0 {
        1
    } else {
        max_results as nat
    }
}

/// What merging the slices of a scan reports.
pub open spec fn merge_reports(
    slices: Seq<LocalOutcome>,
    max_results: u32,
    frame: ScanFrame,
    r: SearchResult,
) -> bool {
    let found = all_matches(slices);
    let over = found.len() > result_cap(max_results);
    let truncated = any_truncated(slices) || over;
    &&& r.matches@ == (if over {
        found.take(result_cap(max_results) as int)
    } else {
        found
    })
    &&& r.completion.execution_status == (if truncated {
        ExecutionStatus::Truncated
    } else {
        ExecutionStatus::Complete
    })
    &&& r.completion.truncation == (if !truncated {
        None
    } else if over {
        Some(TruncationReason::ResultLimit)
    } else {
        Some(TruncationReason::TimeBudget)
    })
    &&& match r.completion.stop_budget {
        None => !truncated,
        Some(text) => truncated && text@ == (if over {
            "the result limit"@
        } else {
            "the local scan's time budget"@
        }),
    }
    &&& r.completion.coverage.scope == frame.scope
    &&& r.completion.coverage.eligible_paths == all_eligible(slices)
    &&& distinct_reasons(r.completion.coverage.excluded@)
    &&& forall|reason: Seq<char>| #[trigger]
        tally(r.completion.coverage.excluded@, reason) == all_excluded(slices, reason)
    &&& r.completion.coverage.declared_exclusions == frame.declared_exclusions
    &&& r.completion.index_generation == 0
    &&& r.completion.commit == frame.commit
    &&& r.completion.candidates_considered == frame.candidates
    &&& r.completion.bytes_read == all_bytes(slices)
    &&& r.completion.elapsed_ms == frame.elapsed_ms
}

/// Whether matches come in byte order of their paths.
pub open spec fn in_path_order(matches: Seq<Match>) -> bool {
    forall|i: int, j: int|
        0 <= i < j < matches.len() ==> !lex_lt(
            (#[trigger] matches[j]).path@,
            (#[trigger] matches[i]).path@,
        )
}

/// Whether no match of a slice lies behind one of a later slice.
pub open spec fn slices_in_order(slices: Seq<LocalOutcome>) -> bool {
    forall|i: int, j: int, a: int, b: int|
        0 <= i < j < slices.len() && 0 <= a < slices[i].matches@.len() && 0 <= b
            < slices[j].matches@.len() ==> !lex_lt(
            (#[trigger] slices[j].matches@[b]).path@,
            (#[trigger] slices[i].matches@[a]).path@,
        )
}

proof fn lemma_comes_from_a_slice(slices: Seq<LocalOutcome>, k: int) -> (at: (int, int))
    requires
        0 <= k < all_matches(slices).len(),
    ensures
        0 <= at.0 < slices.len(),
        0 <= at.1 < slices[at.0].matches@.len(),
        slices[at.0].matches@[at.1] == all_matches(slices)[k],
    decreases slices.len(),
{
    let before = all_matches(slices.drop_last());
    if k < before.len() {
        let at = lemma_comes_from_a_slice(slices.drop_last(), k);
        at
    } else {
        (slices.len() - 1, k - before.len())
    }
}

/// Slices of one walk, each answered in path order, merge into one answer in
/// path order.
pub proof fn law_a_merged_answer_is_in_path_order(slices: Seq<LocalOutcome>)
    requires
        slices_in_order(slices),
        forall|i: int| 0 <= i < slices.len() ==> in_path_order((#[trigger] slices[i]).matches@),
    ensures
        in_path_order(all_matches(slices)),
    decreases slices.len(),
{
    if slices.len() > 0 {
        let front = slices.drop_last();
        let n = front.len() as int;
        assert forall|i: int, j: int, a: int, b: int|
            0 <= i < j < front.len() && 0 <= a < front[i].matches@.len() && 0 <= b
                < front[j].matches@.len() implies !lex_lt(
            (#[trigger] front[j].matches@[b]).path@,
            (#[trigger] front[i].matches@[a]).path@,
        ) by {
            assert(slices[j].matches@[b] == front[j].matches@[b]);
            assert(slices[i].matches@[a] == front[i].matches@[a]);
        }
        law_a_merged_answer_is_in_path_order(front);
        let before = all_matches(front);
        let all = all_matches(slices);
        assert forall|i: int, j: int| 0 <= i < j < all.len() implies !lex_lt(
            (#[trigger] all[j]).path@,
            (#[trigger] all[i]).path@,
        ) by {
            if j < before.len() {
                assert(before[i] == all[i] && before[j] == all[j]);
            } else if i >= before.len() {
                assert(slices[n].matches@[i - before.len()] == all[i]);
                assert(slices[n].matches@[j - before.len()] == all[j]);
            } else {
                let at = lemma_comes_from_a_slice(front, i);
                assert(slices[at.0].matches@[at.1] == all[i]);
                assert(slices[n].matches@[j - before.len()] == all[j]);
            }
        }
    }
}

/// Merge the outcomes of a parallel scan, in slice order. The first failure is
/// the answer; otherwise the matches come slice after slice, each in its own
/// order, cut at the limit.
pub fn merge_scan(
    outcomes: Vec<Result<LocalOutcome, GfsError>>,
    max_results: u32,
    frame: ScanFrame,
) -> (res: Result<SearchOutcome, GfsError>)
    requires
        totals_fit(successes(outcomes@)),
    ensures
        match first_failure(outcomes@) {
            Some(e) => res == Err::<SearchOutcome, GfsError>(e),
            None => res matches Ok(SearchOutcome::Completed(r)) && merge_reports(
                successes(outcomes@),
                max_results,
                frame,
                r,
            ),
        },
{
    let ghost slices = successes(outcomes@);
    let mut left = outcomes;
    let mut matches: Vec<Match> = Vec::new();
    let mut excluded: Vec<(String, u64)> = Vec::new();
    let mut eligible_paths: u64 = 0;
    let mut bytes_read: u64 = 0;
    let mut truncated: bool = false;
    let ghost mut done: int = 0;
    assert(slices.take(0) =~= Seq::<LocalOutcome>::empty());
    assert(slices.skip(0) =~= slices);
    while left.len() > 0
        invariant
            slices == successes(outcomes@),
            totals_fit(slices),
            0 <= done <= slices.len(),
            slices.skip(done) == successes(left@),
            first_failure(outcomes@) == first_failure(left@),
            matches@ == all_matches(slices.take(done)),
            distinct_reasons(excluded@),
            forall|r: Seq<char>| #[trigger]
                tally(excluded@, r) == all_excluded(slices.take(done), r),
            eligible_paths == all_eligible(slices.take(done)),
            bytes_read == all_bytes(slices.take(done)),
            truncated == any_truncated(slices.take(done)),
        decreases left@.len(),
    {
        let ghost before = left@;
        let outcome = left.remove(0);
        assert(left@ =~= before.skip(1));
        let slice = match outcome {
            Ok(slice) => slice,
            Err(e) => {
                return Err(e);
            },
        };
        proof {
            assert(successes(before) == seq![slice] + successes(left@));
            assert(slices.skip(done)[0] == slice);
            assert(slices[done] == slice);
            assert(slices.skip(done + 1) =~= slices.skip(done).skip(1));
            assert((seq![slice] + successes(left@)).skip(1) =~= successes(left@));
            assert(slices.take(done + 1).drop_last() =~= slices.take(done));
            assert(slices.take(done + 1).last() == slice);
            lemma_totals_grow(slices, done + 1);
            assert forall|r: Seq<char>| #[trigger]
                tally(excluded@, r) + tally(slice.excluded@, r) <= u64::MAX by {
                assert(all_excluded(slices.take(done + 1), r) <= all_excluded(slices, r));
                assert(all_excluded(slices, r) <= u64::MAX);
            }
        }
        let mut more = slice.matches;
        matches.append(&mut more);
        bump_all(&mut excluded, &slice.excluded);
        eligible_paths = eligible_paths + slice.eligible_paths;
        bytes_read = bytes_read + slice.bytes_read;
        truncated = truncated || slice.truncated;
        proof {
            let now = slices.take(done + 1);
            let then_ = slices.take(done);
            if any_truncated(then_) {
                let i = choose|i: int| 0 <= i < then_.len() && (#[trigger] then_[i]).truncated;
                assert(now[i].truncated);
            }
            if slice.truncated {
                assert(now[done].truncated);
            }
            if any_truncated(now) {
                let i = choose|i: int| 0 <= i < now.len() && (#[trigger] now[i]).truncated;
                if i < done {
                    assert(then_[i].truncated);
                }
            }
            done = done + 1;
        }
    }
    proof {
        assert(left@ =~= Seq::<Result<LocalOutcome, GfsError>>::empty());
        assert(slices.skip(done) =~= Seq::<LocalOutcome>::empty());
        assert(done == slices.len()) by {
            assert(slices.skip(done).len() == slices.len() - done);
        }
        assert(slices.take(done) =~= slices);
    }
    let cap: usize = if max_results == 0 {
        1
    } else {
        max_results as usize
    };
    let over_limit = matches.len() > cap;
    if over_limit {
        matches.truncate(cap);
        truncated = true;
    }
    let truncation = if !truncated {
        None
    } else if over_limit {
        Some(TruncationReason::ResultLimit)
    } else {
        Some(TruncationReason::TimeBudget)
    };
    let stop_budget = if !truncated {
        None
    } else if over_limit {
        Some("the result limit".to_owned())
    } else {
        Some("the local scan's time budget".to_owned())
    };
    let execution_status = if truncated {
        ExecutionStatus::Truncated
    } else {
        ExecutionStatus::Complete
    };
    let completion = Completion {
        execution_status,
        truncation,
        coverage: Coverage {
            scope: frame.scope,
            eligible_paths,
            excluded,
            declared_exclusions: frame.declared_exclusions,
        },
        index_generation: 0,
        commit: frame.commit,
        stop_budget,
        candidates_considered: frame.candidates,
        bytes_read,
        elapsed_ms: frame.elapsed_ms,
    };
    Ok(SearchOutcome::Completed(SearchResult { matches, completion }))
}

// ---------------------------------------------------------------------------
// Reading a result stream
// ---------------------------------------------------------------------------
/// A completion as it travels: the status as a flag, the reason by name.
#[derive(Debug)]
pub struct WireCompletion {
    /// Whether the status is the one that says the search was exhaustive.
    pub says_complete: bool,
    pub truncation_reason: Option<String>,
    pub coverage: Option<Coverage>,
    pub index_generation: u64,
    pub commit_oid: String,
    pub stop_budget: Option<String>,
    pub candidates_considered: u64,
    pub bytes_read: u64,
    pub elapsed_ms: u64,
}

/// The reason a name stands for; an unknown name is a backend failure.
pub open spec fn reason_named(name: Seq<char>) -> TruncationReason {
    if name == "result_limit"@ {
        TruncationReason::ResultLimit
    } else if name == "time_budget"@ {
        TruncationReason::TimeBudget
    } else if name == "bytes_budget"@ {
        TruncationReason::BytesBudget
    } else if name == "candidate_budget"@ {
        TruncationReason::CandidateBudget
    } else if name == "display_budget"@ {
        TruncationReason::DisplayBudget
    } else if name == "no_required_literal"@ {
        TruncationReason::NoRequiredLiteral
    } else {
        TruncationReason::BackendFailure
    }
}

fn reason_of(name: &String) -> (res: TruncationReason)
    ensures
        res == reason_named(name@),
{
    if *name == "result_limit".to_owned() {
        TruncationReason::ResultLimit
    } else if *name == "time_budget".to_owned() {
        TruncationReason::TimeBudget
    } else if *name == "bytes_budget".to_owned() {
        TruncationReason::BytesBudget
    } else if *name == "candidate_budget".to_owned() {
        TruncationReason::CandidateBudget
    } else if *name == "display_budget".to_owned() {
        TruncationReason::DisplayBudget
    } else if *name == "no_required_literal".to_owned() {
        TruncationReason::NoRequiredLiteral
    } else {
        TruncationReason::BackendFailure
    }
}

/// What a travelling completion says. A status other than the exhaustive one
/// reads as truncated, never as complete.
pub open spec fn completion_reads(c: WireCompletion, r: Completion) -> bool {
    &&& r.execution_status == (if c.says_complete {
        ExecutionStatus::Complete
    } else {
        ExecutionStatus::Truncated
    })
    &&& r.truncation == (match c.truncation_reason {
        Some(name) => Some(reason_named(name@)),
        None => None,
    })
    &&& match c.coverage {
        Some(coverage) => r.coverage == coverage,
        None => r.coverage.scope@ == Seq::<u8>::empty() && r.coverage.eligible_paths == 0
            && r.coverage.excluded@ == Seq::<(String, u64)>::empty()
            && r.coverage.declared_exclusions@ == Seq::<String>::empty(),
    }
    &&& r.index_generation == c.index_generation
    &&& r.commit == c.commit_oid
    &&& r.stop_budget == c.stop_budget
    &&& r.candidates_considered == c.candidates_considered
    &&& r.bytes_read == c.bytes_read
    &&& r.elapsed_ms == c.elapsed_ms
}

/// What a travelling completion says.
pub fn convert_completion(c: WireCompletion) -> (res: Completion)
    ensures
        completion_reads(c, res),
{
    let truncation = match &c.truncation_reason {
        Some(name) => Some(reason_of(name)),
        None => None,
    };
    let coverage = match c.coverage {
        Some(coverage) => coverage,
        None => Coverage {
            scope: Vec::new(),
            eligible_paths: 0,
            excluded: Vec::new(),
            declared_exclusions: Vec::new(),
        },
    };
    Completion {
        execution_status: if c.says_complete {
            ExecutionStatus::Complete
        } else {
            ExecutionStatus::Truncated
        },
        truncation,
        coverage,
        index_generation: c.index_generation,
        commit: c.commit_oid,
        stop_budget: c.stop_budget,
        candidates_considered: c.candidates_considered,
        bytes_read: c.bytes_read,
        elapsed_ms: c.elapsed_ms,
    }
}

/// One message of a result stream.
#[derive(Debug)]
pub enum StreamMessage {
    Match(Match),
    Completion(WireCompletion),
    Empty,
}

/// A result stream being read.
#[derive(Debug)]
pub struct SearchStream {
    pub matches: Vec<Match>,
    pub completion: Option<WireCompletion>,
}

/// The matches among the messages, in order.
pub open spec fn stream_matches(messages: Seq<StreamMessage>) -> Seq<Match>
    decreases messages.len(),
{
    if messages.len() == 0 {
        Seq::empty()
    } else {
        match messages.last() {
            StreamMessage::Match(m) => stream_matches(messages.drop_last()).push(m),
            _ => stream_matches(messages.drop_last()),
        }
    }
}

/// The last completion among the messages.
pub open spec fn stream_completion(messages: Seq<StreamMessage>) -> Option<WireCompletion>
    decreases messages.len(),
{
    if messages.len() == 0 {
        None
    } else {
        match messages.last() {
            StreamMessage::Completion(c) => Some(c),
            _ => stream_completion(messages.drop_last()),
        }
    }
}

impl SearchStream {
    /// Whether this is the state after reading `messages`.
    pub open spec fn has_read(&self, messages: Seq<StreamMessage>) -> bool {
        self.matches@ == stream_matches(messages) && self.completion == stream_completion(messages)
    }

    pub fn new() -> (res: SearchStream)
        ensures
            res.has_read(Seq::empty()),
    {
        let res = SearchStream { matches: Vec::new(), completion: None };
        assert(res.matches@ =~= Seq::<Match>::empty());
        res
    }

    /// Read one message.
    pub fn accept(&mut self, message: StreamMessage)
        ensures
            forall|read: Seq<StreamMessage>|
                old(self).has_read(read) ==> #[trigger] final(self).has_read(read.push(message)),
    {
        proof {
            assert forall|read: Seq<StreamMessage>| true implies #[trigger] read.push(message).drop_last() == read by {
                assert(read.push(message).drop_last() =~= read);
            }
        }
        match message {
            StreamMessage::Match(m) => {
                self.matches.push(m);
            },
            StreamMessage::Completion(c) => {
                self.completion = Some(c);
            },
            StreamMessage::Empty => {},
        }
    }

    /// The stream ended: with a completion it is an answer, without one it is
    /// none.
    pub fn finish(self) -> (res: SearchOutcome)
        ensures
            match self.completion {
                Some(c) => res matches SearchOutcome::Completed(r) && r.matches == self.matches
                    && completion_reads(c, r.completion),
                None => res matches SearchOutcome::FailedBeforeCompletion(text) && text@
                    == "the search stream ended without a completion message"@,
            },
    {
        match self.completion {
            Some(c) => SearchOutcome::Completed(
                SearchResult { matches: self.matches, completion: convert_completion(c) },
            ),
            None => SearchOutcome::FailedBeforeCompletion(
                "the search stream ended without a completion message".to_owned(),
            ),
        }
    }

    /// The stream broke: whatever arrived is no answer.
    pub fn fail(self, error: GfsError) -> (res: SearchOutcome)
        ensures
            res == SearchOutcome::FailedBeforeCompletion(error.message),
    {
        SearchOutcome::FailedBeforeCompletion(error.message)
    }
}

} // verus!
