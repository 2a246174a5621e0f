//! The hard hydration budget: the one limit a job cannot talk its way past.
//!
//! Each blob is charged once, so the budget measures how much of the
//! repository a job looked at rather than how often bytes crossed the network.
use vstd::prelude::*;
use crate::bytemap::ByteMap;
use crate::error::{ErrorCode, GfsError};
use crate::object::{ObjectId, ObjectIdView};
use crate::text::{decimal, push_decimal};

verus! {

/// What the budget has done.
#[derive(Clone, Copy, PartialEq, Eq, Structural, Debug)]
pub struct BudgetReport {
    pub limit_bytes: u64,
    pub charged_bytes: u64,
    pub unique_blobs: u64,
    pub refusals: u64,
    /// Blobs fetched again after the cache evicted them: free against the
    /// limit.
    pub refetches: u64,
    pub refetched_bytes: u64,
}

/// What a [`HydrationBudget`] denotes.
#[verifier::ext_equal]
pub struct BudgetView {
    /// Zero means unlimited.
    pub limit: u64,
    /// Unique bytes charged. Never decreases.
    pub charged: u64,
    /// The blobs already charged.
    pub seen: Set<Seq<u8>>,
    pub refusals: u64,
    pub refetches: u64,
    pub refetched_bytes: u64,
}

impl BudgetView {
    /// No more is charged than the limit allows.
    pub open spec fn wf(self) -> bool {
        &&& self.seen.finite()
        &&& self.limit > 0 ==> self.charged <= self.limit
    }

    /// Whether a blob was charged before.
    pub open spec fn knows(self, oid: ObjectIdView) -> bool {
        self.seen.contains(oid.key())
    }

    /// Whether a read is let through.
    pub open spec fn allows(self, oid: ObjectIdView, size: u64) -> bool {
        self.limit == 0 || self.knows(oid) || self.charged + size <= self.limit
    }

    /// After asking for a blob. An unlimited budget keeps no account, a blob
    /// charged before is free, and a refused one is not remembered.
    pub open spec fn asked(self, oid: ObjectIdView, size: u64) -> BudgetView {
        if self.limit == 0 {
            self
        } else if self.knows(oid) {
            BudgetView {
                refetches: self.refetches.wrapping_add(1),
                refetched_bytes: self.refetched_bytes.wrapping_add(size),
                ..self
            }
        } else if self.charged + size > self.limit {
            BudgetView { refusals: self.refusals.wrapping_add(1), ..self }
        } else {
            BudgetView {
                charged: (self.charged + size) as u64,
                seen: self.seen.insert(oid.key()),
                ..self
            }
        }
    }
}

/// What a refusal says.
pub open spec fn refusal(charged: u64, limit: u64, size: u64) -> Seq<char> {
    "the job's hydration budget is spent: "@ + decimal(charged as nat) + " of "@ + decimal(
        limit as nat,
    ) + " bytes used, and this read needs "@ + decimal(size as nat)
        + " more. Use `gfs rg` and `gfs find` instead of scanning the tree, or raise --hydration-budget."@
}

/// A per-job ceiling on bytes hydrated from the server.
#[derive(Debug)]
pub struct HydrationBudget {
    limit: u64,
    charged: u64,
    seen: ByteMap<u8>,
    refusals: u64,
    refetches: u64,
    refetched_bytes: u64,
}

impl View for HydrationBudget {
    type V = BudgetView;

    closed spec fn view(&self) -> BudgetView {
        BudgetView {
            limit: self.limit,
            charged: self.charged,
            seen: self.seen@.dom(),
            refusals: self.refusals,
            refetches: self.refetches,
            refetched_bytes: self.refetched_bytes,
        }
    }
}

impl HydrationBudget {
    /// The account is in order.
    pub closed spec fn wf(&self) -> bool {
        self.seen.wf() && self@.wf()
    }

    /// A budget of so many bytes; zero is unlimited.
    pub fn new(limit_bytes: u64) -> (res: HydrationBudget)
        ensures
            res.wf(),
            res@ == (BudgetView {
                limit: limit_bytes,
                charged: 0,
                seen: Set::empty(),
                refusals: 0,
                refetches: 0,
                refetched_bytes: 0,
            }),
    {
        let seen: ByteMap<u8> = ByteMap::new();
        let res = HydrationBudget {
            limit: limit_bytes,
            charged: 0,
            seen,
            refusals: 0,
            refetches: 0,
            refetched_bytes: 0,
        };
        assert(res@.seen =~= Set::empty());
        res
    }

    pub fn is_unlimited(&self) -> (res: bool)
        ensures
            res == (self@.limit == 0),
    {
        self.limit == 0
    }

    /// Let `size` bytes of a blob through and charge them, or refuse.
    ///
    /// Checking and charging are one step: a fetch that fails afterwards stays
    /// charged, which errs toward refusing early.
    pub fn admit_blob(&mut self, oid: &ObjectId, size: u64) -> (res: Result<(), GfsError>)
        requires
            old(self).wf(),
        ensures
            final(self).wf(),
            final(self)@ == old(self)@.asked(oid@, size),
            res is Ok <==> old(self)@.allows(oid@, size),
            res matches Err(e) ==> e.reads(
                ErrorCode::ResourceLimit,
                refusal(old(self)@.charged, old(self)@.limit, size),
            ),
    {
        if self.limit == 0 {
            return Ok(());
        }
        let key = oid.key();
        if self.seen.contains(key.as_slice()) {
            self.refetches = self.refetches.wrapping_add(1);
            self.refetched_bytes = self.refetched_bytes.wrapping_add(size);
            return Ok(());
        }
        if size > self.limit - self.charged {
            self.refusals = self.refusals.wrapping_add(1);
            let mut message = "the job's hydration budget is spent: ".to_owned();
            push_decimal(&mut message, self.charged);
            message.append(" of ");
            push_decimal(&mut message, self.limit);
            message.append(" bytes used, and this read needs ");
            push_decimal(&mut message, size);
            message.append(
                " more. Use `gfs rg` and `gfs find` instead of scanning the tree, or raise --hydration-budget.",
            );
            return Err(GfsError::of(ErrorCode::ResourceLimit, message));
        }
        self.seen.insert(key, 0);
        self.charged = self.charged + size;
        proof {
            assert(self@.seen =~= old(self)@.seen.insert(oid@.key()));
        }
        Ok(())
    }

    pub fn report(&self) -> (res: BudgetReport)
        requires
            self.wf(),
        ensures
            res == (BudgetReport {
                limit_bytes: self@.limit,
                charged_bytes: self@.charged,
                unique_blobs: self@.seen.len() as u64,
                refusals: self@.refusals,
                refetches: self@.refetches,
                refetched_bytes: self@.refetched_bytes,
            }),
    {
        BudgetReport {
            limit_bytes: self.limit,
            charged_bytes: self.charged,
            unique_blobs: self.seen.len() as u64,
            refusals: self.refusals,
            refetches: self.refetches,
            refetched_bytes: self.refetched_bytes,
        }
    }
}

/// A blob is charged once, however often it is asked for again.
pub proof fn law_a_blob_is_charged_once(s: BudgetView, oid: ObjectIdView, size: u64, again: u64)
    requires
        s.wf(),
        s.allows(oid, size),
    ensures
        s.limit > 0 ==> s.asked(oid, size).knows(oid),
        s.asked(oid, size).allows(oid, again),
        s.asked(oid, size).asked(oid, again).charged == s.asked(oid, size).charged,
{
}

/// The limit is never passed, and what was charged is never given back.
pub proof fn law_the_limit_holds(s: BudgetView, oid: ObjectIdView, size: u64)
    requires
        s.wf(),
    ensures
        s.asked(oid, size).wf(),
        s.asked(oid, size).charged >= s.charged,
        s.limit > 0 ==> s.asked(oid, size).charged <= s.limit,
{
}

/// A refused blob is not remembered as charged, and a smaller one still fits.
pub proof fn law_a_refusal_charges_nothing(
    s: BudgetView,
    oid: ObjectIdView,
    size: u64,
    other: ObjectIdView,
    less: u64,
)
    requires
        s.wf(),
        !s.allows(oid, size),
    ensures
        s.asked(oid, size).charged == s.charged,
        s.asked(oid, size).seen == s.seen,
        s.asked(oid, size).allows(other, less) == s.allows(other, less),
{
}

/// The account after a history of reads asked for, from a fresh budget.
pub open spec fn history(limit: u64, asks: Seq<(ObjectIdView, u64)>) -> BudgetView
    decreases asks.len(),
{
    if asks.len() == 0 {
        BudgetView {
            limit,
            charged: 0,
            seen: Set::empty(),
            refusals: 0,
            refetches: 0,
            refetched_bytes: 0,
        }
    } else {
        history(limit, asks.drop_last()).asked(asks.last().0, asks.last().1)
    }
}

/// Whether the `i`-th read of a history was let through.
pub open spec fn granted(limit: u64, asks: Seq<(ObjectIdView, u64)>, i: int) -> bool {
    history(limit, asks.take(i)).allows(asks[i].0, asks[i].1)
}

/// Whether the `i`-th read of a history was let through before it.
pub open spec fn repeated(limit: u64, asks: Seq<(ObjectIdView, u64)>, i: int) -> bool {
    exists|j: int|
        0 <= j < i && #[trigger] granted(limit, asks, j) && asks[j].0.key() == asks[i].0.key()
}

/// How many blobs were let through for the first time, and their bytes.
pub open spec fn firsts(limit: u64, asks: Seq<(ObjectIdView, u64)>) -> (nat, nat)
    decreases asks.len(),
{
    if asks.len() == 0 {
        (0, 0)
    } else {
        let (n, bytes) = firsts(limit, asks.drop_last());
        let i = asks.len() - 1;
        if granted(limit, asks, i) && !repeated(limit, asks, i) {
            (n + 1, bytes + asks[i].1 as nat)
        } else {
            (n, bytes)
        }
    }
}

/// How many reads were let through again, and their bytes.
pub open spec fn repeats(limit: u64, asks: Seq<(ObjectIdView, u64)>) -> (nat, nat)
    decreases asks.len(),
{
    if asks.len() == 0 {
        (0, 0)
    } else {
        let (n, bytes) = repeats(limit, asks.drop_last());
        let i = asks.len() - 1;
        if granted(limit, asks, i) && repeated(limit, asks, i) {
            (n + 1, bytes + asks[i].1 as nat)
        } else {
            (n, bytes)
        }
    }
}

proof fn lemma_shorter(limit: u64, asks: Seq<(ObjectIdView, u64)>, j: int)
    requires
        0 <= j < asks.len() - 1,
    ensures
        granted(limit, asks.drop_last(), j) == granted(limit, asks, j),
        asks.drop_last()[j] == asks[j],
{
    assert(asks.drop_last().take(j) =~= asks.take(j));
}

/// What a budget remembers is what it let through.
pub proof fn law_what_was_let_through_is_remembered(
    limit: u64,
    asks: Seq<(ObjectIdView, u64)>,
    key: Seq<u8>,
)
    requires
        limit > 0,
    ensures
        history(limit, asks).limit == limit,
        history(limit, asks).wf(),
        history(limit, asks).seen.contains(key) <==> exists|j: int|
            0 <= j < asks.len() && #[trigger] granted(limit, asks, j) && asks[j].0.key() == key,
    decreases asks.len(),
{
    if asks.len() > 0 {
        let front = asks.drop_last();
        let last = asks.len() - 1;
        law_what_was_let_through_is_remembered(limit, front, key);
        assert(asks.take(last) =~= front);
        let before = history(limit, front);
        assert forall|j: int| 0 <= j < last implies #[trigger] granted(limit, asks, j) == granted(
            limit,
            front,
            j,
        ) && front[j] == asks[j] by {
            lemma_shorter(limit, asks, j);
        }
        if before.seen.contains(key) {
            let j = choose|j: int|
                0 <= j < front.len() && #[trigger] granted(limit, front, j) && front[j].0.key()
                    == key;
            lemma_shorter(limit, asks, j);
            assert(granted(limit, asks, j));
        }
        if history(limit, asks).seen.contains(key) && !before.seen.contains(key) {
            assert(granted(limit, asks, last));
        }
        if exists|j: int|
            0 <= j < asks.len() && #[trigger] granted(limit, asks, j) && asks[j].0.key() == key {
            let j = choose|j: int|
                0 <= j < asks.len() && #[trigger] granted(limit, asks, j) && asks[j].0.key() == key;
            if j < last {
                assert(granted(limit, front, j));
            }
        }
    }
}

/// Each blob is charged once: over a history, the bytes charged are those of
/// the reads let through for the first time, the blobs counted are those
/// reads, and what was let through again is counted apart. No sum is cut, as
/// long as the counters hold it.
pub proof fn law_a_history_adds_up(limit: u64, asks: Seq<(ObjectIdView, u64)>)
    requires
        limit > 0,
        repeats(limit, asks).0 <= u64::MAX,
        repeats(limit, asks).1 <= u64::MAX,
    ensures
        ({
            let s = history(limit, asks);
            &&& s.charged == firsts(limit, asks).1
            &&& s.charged <= limit
            &&& s.seen.len() == firsts(limit, asks).0
            &&& s.refetches == repeats(limit, asks).0
            &&& s.refetched_bytes == repeats(limit, asks).1
        }),
    decreases asks.len(),
{
    if asks.len() > 0 {
        let front = asks.drop_last();
        let last = asks.len() - 1;
        law_a_history_adds_up(limit, front);
        assert(asks.take(last) =~= front);
        let before = history(limit, front);
        let key = asks[last].0.key();
        law_what_was_let_through_is_remembered(limit, front, key);
        assert forall|j: int| 0 <= j < last implies #[trigger] granted(limit, asks, j) == granted(
            limit,
            front,
            j,
        ) && front[j] == asks[j] by {
            lemma_shorter(limit, asks, j);
        }
        if before.seen.contains(key) {
            let j = choose|j: int|
                0 <= j < front.len() && #[trigger] granted(limit, front, j) && front[j].0.key()
                    == key;
            lemma_shorter(limit, asks, j);
            assert(granted(limit, asks, j));
            assert(repeated(limit, asks, last));
        }
        if repeated(limit, asks, last) {
            let j = choose|j: int|
                0 <= j < last && #[trigger] granted(limit, asks, j) && asks[j].0.key() == key;
            assert(granted(limit, front, j));
        }
        assert(before.knows(asks[last].0) == repeated(limit, asks, last));
    }
}

/// Nothing a budget counts goes back, as long as the counters hold it.
pub proof fn law_no_counter_goes_back(
    limit: u64,
    asks: Seq<(ObjectIdView, u64)>,
    next: (ObjectIdView, u64),
)
    requires
        limit > 0,
        history(limit, asks).refusals < u64::MAX,
        history(limit, asks).refetches < u64::MAX,
        history(limit, asks).refetched_bytes + next.1 <= u64::MAX,
    ensures
        ({
            let s = history(limit, asks);
            let t = history(limit, asks.push(next));
            &&& s.charged <= t.charged
            &&& s.seen.subset_of(t.seen)
            &&& s.refusals <= t.refusals
            &&& s.refetches <= t.refetches
            &&& s.refetched_bytes <= t.refetched_bytes
        }),
{
    assert(asks.push(next).drop_last() =~= asks);
    law_what_was_let_through_is_remembered(limit, asks, next.0.key());
}

} // verus!
