//! What the mount asks the server for, and how often.
use vstd::prelude::*;
use crate::budget::{refusal, HydrationBudget};
use crate::directory::entry_name;
use crate::entry::{copy_opt_bytes, opt_bytes, EntryKind, TreeEntryInfo, TreeEntryView};
use crate::error::{ErrorCode, GfsError};
use crate::fs::{FsStats, FsView, Gfs};
use crate::node::{base_facts, facts_of, BaseFacts, BaseFactsView};
use crate::object::{ObjectId, ObjectIdView};
use crate::path::{base_name, joined, parent, parent_of, BytePath};
use crate::text::{decimal, push_decimal};

verus! {

// ---------------------------------------------------------------------------
// Retrying
// ---------------------------------------------------------------------------
/// A bounded retry with a doubling pause.
#[derive(Clone, Copy, PartialEq, Eq, Structural, Debug)]
pub struct Retry {
    /// Attempts made so far, the running one among them.
    pub attempt: u32,
    /// Milliseconds to wait before the next.
    pub delay_millis: u64,
}

impl Retry {
    /// The first attempt; the first pause is twenty milliseconds.
    pub fn new() -> (res: Retry)
        ensures
            res == (Retry { attempt: 1, delay_millis: 20 }),
    {
        Retry { attempt: 1, delay_millis: 20 }
    }

    /// After a failure: how long to wait before the next attempt, or none when
    /// the failure stands. Only a retryable failure is tried again.
    pub fn failed(&mut self, code: ErrorCode, attempts: u32) -> (res: Option<u64>)
        requires
            old(self).delay_millis <= u64::MAX / 2,
        ensures
            if code.may_retry() && old(self).attempt < attempts {
                &&& res == Some(old(self).delay_millis)
                &&& *final(self) == (Retry {
                    attempt: (old(self).attempt + 1) as u32,
                    delay_millis: (old(self).delay_millis * 2) as u64,
                })
            } else {
                res is None && *final(self) == *old(self)
            },
    {
        if code.retryable() && self.attempt < attempts {
            let delay = self.delay_millis;
            self.delay_millis = delay * 2;
            self.attempt = self.attempt + 1;
            return Some(delay);
        }
        None
    }
}

// ---------------------------------------------------------------------------
// One entry of the pinned commit
// ---------------------------------------------------------------------------
/// How what the pinned commit holds at a path is found out.
#[derive(Debug)]
pub enum BaseQuestion {
    /// The root is in no listing: the server is asked.
    Server,
    /// A name in the listing of its directory, which also answers for names
    /// that are not there.
    Listed { dir: BytePath, name: Vec<u8> },
}

/// How what the pinned commit holds at a path is found out, given what the
/// validation of the path came to. A path that is not valid is not asked for.
pub fn base_node(path: &BytePath, valid: Result<(), GfsError>) -> (res: Result<
    BaseQuestion,
    GfsError,
>)
    ensures
        match valid {
            Err(e) => res == Err::<BaseQuestion, GfsError>(e),
            Ok(_) => match res {
                Ok(BaseQuestion::Server) => path@.len() == 0,
                Ok(BaseQuestion::Listed { dir, name }) => path@.len() > 0 && dir@ == parent(path@)
                    && name@ == base_name(path@),
                Err(_) => false,
            },
        },
{
    match valid {
        Ok(()) => {},
        Err(e) => return Err(e),
    }
    Ok(
        match path.file_name() {
            None => BaseQuestion::Server,
            Some(name) => BaseQuestion::Listed { dir: parent_of(path), name },
        },
    )
}

// ---------------------------------------------------------------------------
// Listings, page by page
// ---------------------------------------------------------------------------
/// A directory listing being fetched page by page.
#[derive(Debug)]
pub struct ListingFetch {
    pub entries: Vec<TreeEntryInfo>,
    /// Where the next page starts.
    pub token: Vec<u8>,
}

impl ListingFetch {
    /// Nothing fetched yet.
    pub fn new() -> (res: ListingFetch)
        ensures
            res.entries@ == Seq::<TreeEntryInfo>::empty(),
            res.token@ == Seq::<u8>::empty(),
    {
        ListingFetch { entries: Vec::new(), token: Vec::new() }
    }

    /// Take one page; the answer is whether it was the last.
    pub fn accept(&mut self, page: Vec<TreeEntryInfo>, next: Vec<u8>) -> (res: bool)
        ensures
            final(self).entries@ == old(self).entries@ + page@,
            final(self).token@ == next@,
            res == (next@.len() == 0),
    {
        let mut page = page;
        self.entries.append(&mut page);
        let last = next.len() == 0;
        self.token = next;
        last
    }
}

// ---------------------------------------------------------------------------
// Descendants of a renamed directory
// ---------------------------------------------------------------------------
/// A base entry below a renamed directory.
#[derive(Debug)]
pub struct BaseDescendant {
    /// The path below the directory.
    pub relative: BytePath,
    pub facts: BaseFacts,
    pub symlink_target: Option<Vec<u8>>,
}

/// What a [`BaseDescendant`] denotes.
#[verifier::ext_equal]
pub struct DescendantView {
    pub relative: Seq<u8>,
    pub facts: BaseFactsView,
    pub symlink_target: Option<Seq<u8>>,
}

impl View for BaseDescendant {
    type V = DescendantView;

    open spec fn view(&self) -> DescendantView {
        DescendantView {
            relative: self.relative@,
            facts: self.facts@,
            symlink_target: opt_bytes(self.symlink_target),
        }
    }
}

/// What a walk over a directory's descendants has found.
#[verifier::ext_equal]
pub struct WalkView {
    /// The directory walked.
    pub dir: Seq<u8>,
    /// The directory as messages show it.
    pub shown: Seq<char>,
    /// Directories below it still to be listed, the next one last.
    pub queue: Seq<Seq<u8>>,
    pub found: Seq<DescendantView>,
    /// How many entries a rename may move.
    pub limit: usize,
}

impl WalkView {
    /// After one entry of the directory `relative`: a directory is to be
    /// listed too, and an entry the overlay does not model is left out.
    pub open spec fn seen(self, relative: Seq<u8>, e: TreeEntryView) -> WalkView {
        let child = joined(relative, base_name(e.path));
        WalkView {
            queue: if e.kind == EntryKind::Directory {
                self.queue.push(child)
            } else {
                self.queue
            },
            found: match facts_of(e) {
                Some(facts) => self.found.push(
                    DescendantView { relative: child, facts, symlink_target: e.symlink_target },
                ),
                None => self.found,
            },
            ..self
        }
    }

    /// After `n` entries.
    pub open spec fn seen_all(self, relative: Seq<u8>, entries: Seq<TreeEntryInfo>, n: nat) -> WalkView
        decreases n,
    {
        if n == 0 {
            self
        } else {
            self.seen_all(relative, entries, (n - 1) as nat).seen(relative, entries[n - 1]@)
        }
    }
}

/// What a rename of too much says.
pub open spec fn too_many(shown: Seq<char>, limit: usize) -> Seq<char> {
    "renaming "@ + shown + " would move more than "@ + decimal(limit as nat) + " entries"@
}

/// A walk over a directory's base descendants, for a rename that has to
/// materialize the subtree. It stops as soon as the rename is too large.
#[derive(Debug)]
pub struct DescendantWalk {
    dir: BytePath,
    shown: String,
    queue: Vec<BytePath>,
    found: Vec<BaseDescendant>,
    limit: usize,
}

spec fn path_views(paths: Seq<BytePath>) -> Seq<Seq<u8>> {
    Seq::new(paths.len(), |i: int| paths[i]@)
}

/// Descendants as their meaning.
pub open spec fn descendant_views(found: Seq<BaseDescendant>) -> Seq<DescendantView> {
    Seq::new(found.len(), |i: int| found[i]@)
}

impl View for DescendantWalk {
    type V = WalkView;

    closed spec fn view(&self) -> WalkView {
        WalkView {
            dir: self.dir@,
            shown: self.shown@,
            queue: path_views(self.queue@),
            found: descendant_views(self.found@),
            limit: self.limit,
        }
    }
}

impl DescendantWalk {
    /// A walk that has the directory itself to list. `shown` is the directory
    /// as messages show it.
    pub fn new(dir: &BytePath, shown: String, limit: usize) -> (res: DescendantWalk)
        ensures
            res@ == (WalkView {
                dir: dir@,
                shown: shown@,
                queue: seq![Seq::empty()],
                found: Seq::empty(),
                limit,
            }),
    {
        let mut queue: Vec<BytePath> = Vec::new();
        queue.push(BytePath::root());
        let found: Vec<BaseDescendant> = Vec::new();
        let res = DescendantWalk { dir: dir.duplicate(), shown, queue, found, limit };
        assert(res@.queue =~= seq![Seq::<u8>::empty()]);
        assert(res@.found =~= Seq::<DescendantView>::empty());
        res
    }

    /// The next directory to list: its path below the walked directory, and
    /// its own path. None when all are listed.
    pub fn next(&mut self) -> (res: Option<(BytePath, BytePath)>)
        ensures
            match res {
                None => old(self)@.queue.len() == 0 && final(self)@ == old(self)@,
                Some(d) => old(self)@.queue.len() > 0 && d.0@ == old(self)@.queue.last() && d.1@ == (
                if d.0@.len() == 0 {
                    old(self)@.dir
                } else {
                    joined(old(self)@.dir, d.0@)
                }) && final(self)@ == (WalkView {
                    queue: old(self)@.queue.drop_last(),
                    ..old(self)@
                }),
            },
    {
        let ghost s = self@;
        match self.queue.pop() {
            None => None,
            Some(relative) => {
                assert(self@.queue =~= s.queue.drop_last());
                let absolute = if relative.is_empty() {
                    self.dir.duplicate()
                } else {
                    self.dir.join(relative.as_bytes())
                };
                Some((relative, absolute))
            },
        }
    }

    /// Take the listing of a directory. A rename that moves too much is refused
    /// at the entry that makes it so.
    pub fn accept(&mut self, relative: &BytePath, entries: &Vec<TreeEntryInfo>) -> (res: Result<
        (),
        GfsError,
    >)
        requires
            old(self)@.found.len() <= old(self)@.limit,
        ensures
            ({
                let all = old(self)@.seen_all(relative@, entries@, entries@.len());
                if all.found.len() <= old(self)@.limit {
                    res is Ok && final(self)@ == all
                } else {
                    res matches Err(e) && e.reads(
                        ErrorCode::ResourceLimit,
                        too_many(old(self)@.shown, old(self)@.limit),
                    ) && exists|k: nat|
                        k < entries@.len() && final(self)@ == old(self)@.seen_all(
                            relative@,
                            entries@,
                            k + 1,
                        ) && (#[trigger] old(self)@.seen_all(relative@, entries@, k)).found.len()
                            == old(self)@.limit && final(self)@.found.len() > old(self)@.limit
                }
            }),
    {
        let ghost s = self@;
        let mut i: usize = 0;
        while i < entries.len()
            invariant
                i <= entries@.len(),
                s == old(self)@,
                self@ == s.seen_all(relative@, entries@, i as nat),
                self@.found.len() <= self@.limit,
                self@.limit == s.limit,
                self@.dir == s.dir,
                self@.shown == s.shown,
            decreases entries.len() - i,
        {
            let ghost before = self@;
            let entry = &entries[i];
            let name = entry_name(entry);
            let child = relative.join(name.as_slice());
            if entry.kind == EntryKind::Directory {
                let ghost q = self.queue@;
                self.queue.push(child.duplicate());
                assert(path_views(self.queue@) =~= path_views(q).push(child@));
            }
            match base_facts(entry) {
                Some(facts) => {
                    let ghost f = self.found@;
                    let d = BaseDescendant {
                        relative: child,
                        facts,
                        symlink_target: copy_opt_bytes(&entry.symlink_target),
                    };
                    self.found.push(d);
                    assert(descendant_views(self.found@) =~= descendant_views(f).push(d@));
                    if self.found.len() > self.limit {
                        proof {
                            lemma_seen_grows(
                                s,
                                relative@,
                                entries@,
                                (i + 1) as nat,
                                entries@.len(),
                            );
                            assert(self@ =~= before.seen(relative@, entry@));
                            assert(s.seen_all(relative@, entries@, (i + 1) as nat) == self@);
                            assert(self@.found.len() > s.limit);
                        }
                        let mut message = "renaming ".to_owned();
                        message.append(self.shown.as_str());
                        message.append(" would move more than ");
                        push_decimal(&mut message, self.limit as u64);
                        message.append(" entries");
                        assert(message@ == too_many(s.shown, s.limit));
                        return Err(GfsError::of(ErrorCode::ResourceLimit, message));
                    }
                },
                None => {},
            }
            assert(self@ =~= before.seen(relative@, entry@));
            i = i + 1;
        }
        Ok(())
    }

    /// What the walk found.
    pub fn into_found(self) -> (res: Vec<BaseDescendant>)
        ensures
            descendant_views(res@) == self@.found,
    {
        self.found
    }
}

proof fn lemma_seen_grows(s: WalkView, relative: Seq<u8>, entries: Seq<TreeEntryInfo>, a: nat, b: nat)
    requires
        a <= b <= entries.len(),
    ensures
        s.seen_all(relative, entries, a).found.len() <= s.seen_all(relative, entries, b).found.len(),
    decreases b,
{
    if a < b {
        lemma_seen_grows(s, relative, entries, a, (b - 1) as nat);
    }
}

/// A walk that succeeds never holds more than a rename may move.
pub proof fn law_a_walk_stays_within_its_limit(
    s: WalkView,
    relative: Seq<u8>,
    entries: Seq<TreeEntryInfo>,
    n: nat,
)
    requires
        n <= entries.len(),
    ensures
        s.seen_all(relative, entries, n).found.len() <= s.found.len() + n,
        s.seen_all(relative, entries, n).limit == s.limit,
        s.seen_all(relative, entries, n).dir == s.dir,
    decreases n,
{
    if n > 0 {
        law_a_walk_stays_within_its_limit(s, relative, entries, (n - 1) as nat);
    }
}

// ---------------------------------------------------------------------------
// Blobs
// ---------------------------------------------------------------------------
/// Where a base blob comes from.
#[derive(Clone, Copy, PartialEq, Eq, Structural, Debug)]
pub enum BlobOrigin {
    /// The source holds it in memory: no cache file, no budget.
    Memory,
    /// It is cached; no ticket and no round trip are needed.
    Cache,
    /// It must be fetched, with a ticket.
    Server,
}

/// Where a base blob comes from.
pub fn blob_origin(in_memory: bool, cached: bool) -> (res: BlobOrigin)
    ensures
        res == (if in_memory {
            BlobOrigin::Memory
        } else if cached {
            BlobOrigin::Cache
        } else {
            BlobOrigin::Server
        }),
{
    if in_memory {
        BlobOrigin::Memory
    } else if cached {
        BlobOrigin::Cache
    } else {
        BlobOrigin::Server
    }
}

/// What the answer about a blob that is about to be fetched comes to.
pub open spec fn fetch_outcome(
    budget: crate::budget::BudgetView,
    oid: ObjectIdView,
    fresh: Option<TreeEntryView>,
    res: Result<String, GfsError>,
) -> bool {
    match fresh {
        None => res matches Err(e) && e.reads(
            ErrorCode::NotFound,
            "the path vanished from a pinned commit"@,
        ),
        Some(entry) => if entry.oid != oid {
            res matches Err(e) && e.reads(
                ErrorCode::Internal,
                "the server returned a different blob for a pinned path"@,
            )
        } else if !budget.allows(oid, entry.size) {
            res matches Err(e) && e.reads(
                ErrorCode::ResourceLimit,
                refusal(budget.charged, budget.limit, entry.size),
            )
        } else {
            res matches Ok(ticket) && ticket@ == (match entry.blob_ticket {
                Some(t) => t,
                None => Seq::empty(),
            })
        },
    }
}

/// The budget after that: only a blob that is the pinned one is asked for.
pub open spec fn budget_after(
    budget: crate::budget::BudgetView,
    oid: ObjectIdView,
    fresh: Option<TreeEntryView>,
) -> crate::budget::BudgetView {
    match fresh {
        Some(entry) => if entry.oid == oid {
            budget.asked(oid, entry.size)
        } else {
            budget
        },
        None => budget,
    }
}

/// Check the server's answer about a blob and charge it, before any byte of it
/// is fetched; the answer is the ticket to fetch it with.
pub fn permit_fetch(
    fs: &mut Gfs,
    budget: &mut HydrationBudget,
    oid: &ObjectId,
    fresh: Option<TreeEntryInfo>,
) -> (res: Result<String, GfsError>)
    requires
        old(fs).wf(),
        old(budget).wf(),
    ensures
        final(fs).wf(),
        final(budget).wf(),
        ({
            let answer = match fresh {
                Some(e) => Some(e@),
                None => None,
            };
            let refused = (answer matches Some(e) && e.oid == oid@ && !old(budget)@.allows(
                oid@,
                e.size,
            ));
            &&& fetch_outcome(old(budget)@, oid@, answer, res)
            &&& final(budget)@ == budget_after(old(budget)@, oid@, answer)
            &&& final(fs)@ == (if refused {
                FsView {
                    stats: FsStats {
                        hydration_refusals: old(fs)@.stats.hydration_refusals.wrapping_add(1),
                        ..old(fs)@.stats
                    },
                    ..old(fs)@
                }
            } else {
                old(fs)@
            })
        }),
{
    let entry = match fresh {
        None => return Err(GfsError::not_found("the path vanished from a pinned commit")),
        Some(e) => e,
    };
    if !entry.oid.same(oid) {
        return Err(GfsError::internal("the server returned a different blob for a pinned path"));
    }
    match budget.admit_blob(oid, entry.size) {
        Err(e) => {
            fs.note_refusal();
            return Err(e);
        },
        Ok(()) => {},
    }
    match entry.blob_ticket {
        Some(t) => Ok(t),
        None => Ok(String::new()),
    }
}

} // verus!
