//! The object-store projection: which blocks of which files are local, what a
//! read must fetch, and what eviction gives back.
//!
//! The store decides; a driver performs. A read is planned, each contiguous
//! run of absent blocks is fetched and written by the driver and then recorded,
//! recording says which blocks to deallocate, and the read is finished.
use vstd::prelude::*;
use crate::error::{ErrorCode, GfsError};
use crate::residency::{
    lemma_dropped, law_a_pinned_block_is_never_a_victim, law_admitting, law_touching, BlockKey,
    Residency, ResidencyView,
};
use crate::text::{decimal, push_decimal};

verus! {

/// Bytes of one block.
pub const BLOCK: u64 = 65536;

/// One file the manifest lists.
#[derive(Debug)]
pub struct OdbFile {
    pub path: String,
    pub size: u64,
}

/// What the store has done and holds.
#[derive(Clone, Copy, PartialEq, Eq, Structural, Debug)]
pub struct OdbStats {
    pub blocks_fetched: u64,
    pub bytes_fetched: u64,
    pub block_hits: u64,
    pub resident_bytes: u64,
    pub residency_limit_bytes: u64,
    pub evicted_blocks: u64,
    pub refetched_blocks: u64,
    pub refetched_bytes: u64,
}

/// What one read cost.
#[derive(Clone, Copy, PartialEq, Eq, Structural, Debug)]
pub struct ReadCost {
    pub blocks_fetched: u64,
    pub bytes_fetched: u64,
    pub block_hits: u64,
}

/// One view's accumulated share.
#[derive(Clone, Copy, PartialEq, Eq, Structural, Debug)]
pub struct OdbViewStats {
    pub blocks_fetched: u64,
    pub bytes_fetched: u64,
    pub block_hits: u64,
}

/// One workspace's share of the shared store's traffic. The counters wrap.
#[derive(Debug)]
pub struct ViewCounters {
    totals: OdbViewStats,
}

impl ViewCounters {
    pub closed spec fn view(&self) -> OdbViewStats {
        self.totals
    }

    pub fn new() -> (res: ViewCounters)
        ensures
            res@ == (OdbViewStats { blocks_fetched: 0, bytes_fetched: 0, block_hits: 0 }),
    {
        ViewCounters {
            totals: OdbViewStats { blocks_fetched: 0, bytes_fetched: 0, block_hits: 0 },
        }
    }

    /// Attribute one read.
    pub fn add(&mut self, cost: &ReadCost)
        ensures
            final(self)@ == (OdbViewStats {
                blocks_fetched: old(self)@.blocks_fetched.wrapping_add(cost.blocks_fetched),
                bytes_fetched: old(self)@.bytes_fetched.wrapping_add(cost.bytes_fetched),
                block_hits: old(self)@.block_hits.wrapping_add(cost.block_hits),
            }),
    {
        self.totals = OdbViewStats {
            blocks_fetched: self.totals.blocks_fetched.wrapping_add(cost.blocks_fetched),
            bytes_fetched: self.totals.bytes_fetched.wrapping_add(cost.bytes_fetched),
            block_hits: self.totals.block_hits.wrapping_add(cost.block_hits),
        };
    }

    pub fn snapshot(&self) -> (res: OdbViewStats)
        ensures
            res == self@,
    {
        self.totals
    }
}

/// What a row of reads cost together: blocks and bytes fetched, and hits.
pub open spec fn costs(reads: Seq<ReadCost>) -> (nat, nat, nat)
    decreases reads.len(),
{
    if reads.len() == 0 {
        (0, 0, 0)
    } else {
        let (blocks, bytes, hits) = costs(reads.drop_last());
        let r = reads.last();
        (blocks + r.blocks_fetched as nat, bytes + r.bytes_fetched as nat, hits + r.block_hits as nat)
    }
}

/// The counters after a row of reads was attributed.
pub open spec fn attributed(reads: Seq<ReadCost>) -> OdbViewStats
    decreases reads.len(),
{
    if reads.len() == 0 {
        OdbViewStats { blocks_fetched: 0, bytes_fetched: 0, block_hits: 0 }
    } else {
        let s = attributed(reads.drop_last());
        let r = reads.last();
        OdbViewStats {
            blocks_fetched: s.blocks_fetched.wrapping_add(r.blocks_fetched),
            bytes_fetched: s.bytes_fetched.wrapping_add(r.bytes_fetched),
            block_hits: s.block_hits.wrapping_add(r.block_hits),
        }
    }
}

proof fn lemma_costs_without(reads: Seq<ReadCost>, i: int)
    requires
        0 <= i < reads.len(),
    ensures
        costs(reads).0 == costs(reads.remove(i)).0 + reads[i].blocks_fetched,
        costs(reads).1 == costs(reads.remove(i)).1 + reads[i].bytes_fetched,
        costs(reads).2 == costs(reads.remove(i)).2 + reads[i].block_hits,
    decreases reads.len(),
{
    if i == reads.len() - 1 {
        assert(reads.remove(i) =~= reads.drop_last());
    } else {
        lemma_costs_without(reads.drop_last(), i);
        assert(reads.remove(i).drop_last() =~= reads.drop_last().remove(i));
        assert(reads.remove(i).last() == reads.last());
    }
}

/// The counters are the sums of what was attributed, as long as they hold
/// them.
pub proof fn law_the_counters_are_the_sums(reads: Seq<ReadCost>)
    requires
        costs(reads).0 <= u64::MAX,
        costs(reads).1 <= u64::MAX,
        costs(reads).2 <= u64::MAX,
    ensures
        attributed(reads).blocks_fetched == costs(reads).0,
        attributed(reads).bytes_fetched == costs(reads).1,
        attributed(reads).block_hits == costs(reads).2,
    decreases reads.len(),
{
    if reads.len() > 0 {
        law_the_counters_are_the_sums(reads.drop_last());
    }
}

/// The order in which reads are attributed changes no sum.
pub proof fn law_the_order_of_reads_does_not_matter(a: Seq<ReadCost>, b: Seq<ReadCost>)
    requires
        a.to_multiset() == b.to_multiset(),
    ensures
        costs(a) == costs(b),
    decreases a.len(),
{
    broadcast use vstd::seq_lib::group_to_multiset_ensures;

    assert(a.len() == a.to_multiset().len() && b.len() == b.to_multiset().len());
    if a.len() > 0 {
        let r = a.last();
        assert(a.contains(r));
        assert(a.to_multiset().count(r) > 0);
        assert(b.contains(r));
        let i = b.index_of(r);
        lemma_costs_without(b, i);
        assert(a.drop_last() =~= a.remove(a.len() - 1));
        assert(a.drop_last().to_multiset() =~= b.remove(i).to_multiset());
        law_the_order_of_reads_does_not_matter(a.drop_last(), b.remove(i));
    }
}

// ---------------------------------------------------------------------------
// Bitmaps
// ---------------------------------------------------------------------------
/// Whether a bit is set; bits beyond the words are not.
pub open spec fn bit(words: Seq<u64>, block: u64) -> bool {
    block / 64 < words.len() && words[(block / 64) as int] & (1u64 << (block % 64)) != 0
}

proof fn lemma_bit_set(w: u64, a: u64, b: u64)
    requires
        a < 64,
        b < 64,
    ensures
        ((w | (1u64 << a)) & (1u64 << b) != 0) == (a == b || w & (1u64 << b) != 0),
{
    assert(((w | (1u64 << a)) & (1u64 << b) != 0) == (a == b || w & (1u64 << b) != 0)) by (bit_vector)
        requires
            a < 64,
            b < 64,
    ;
}

proof fn lemma_bit_clear(w: u64, a: u64, b: u64)
    requires
        a < 64,
        b < 64,
    ensures
        ((w & !(1u64 << a)) & (1u64 << b) != 0) == (a != b && w & (1u64 << b) != 0),
{
    assert(((w & !(1u64 << a)) & (1u64 << b) != 0) == (a != b && w & (1u64 << b) != 0))
        by (bit_vector)
        requires
            a < 64,
            b < 64,
    ;
}

/// Whether a bit is set.
pub fn bit_get(words: &Vec<u64>, block: u64) -> (res: bool)
    ensures
        res == bit(words@, block),
{
    let word: u64 = block / 64;
    if word < words.len() as u64 {
        words[word as usize] & (1u64 << (block % 64)) != 0
    } else {
        false
    }
}

/// The words with a bit set; a bit beyond them is not recorded.
pub open spec fn with_bit(words: Seq<u64>, block: u64) -> Seq<u64> {
    if block / 64 < words.len() {
        let i = (block / 64) as int;
        words.update(i, words[i] | (1u64 << (block % 64)))
    } else {
        words
    }
}

/// The words with a bit clear.
pub open spec fn without_bit(words: Seq<u64>, block: u64) -> Seq<u64> {
    if block / 64 < words.len() {
        let i = (block / 64) as int;
        words.update(i, words[i] & !(1u64 << (block % 64)))
    } else {
        words
    }
}

/// Set a bit.
pub fn bit_set(words: &mut Vec<u64>, block: u64)
    ensures
        final(words)@ == with_bit(old(words)@, block),
{
    let word: u64 = block / 64;
    if word < words.len() as u64 {
        let i = word as usize;
        words[i] = words[i] | (1u64 << (block % 64));
    }
}

/// Clear a bit.
pub fn bit_clear(words: &mut Vec<u64>, block: u64)
    ensures
        final(words)@ == without_bit(old(words)@, block),
{
    let word: u64 = block / 64;
    if word < words.len() as u64 {
        let i = word as usize;
        words[i] = words[i] & !(1u64 << (block % 64));
    }
}

/// Setting a bit sets that one and no other, clearing it clears that one and
/// no other, and clearing undoes setting. A bit beyond the words is never set.
pub proof fn law_one_bit_at_a_time(words: Seq<u64>, block: u64)
    ensures
        with_bit(words, block).len() == words.len(),
        without_bit(words, block).len() == words.len(),
        forall|b: u64| #[trigger]
            bit(with_bit(words, block), b) == (bit(words, b) || (b == block && block / 64
                < words.len())),
        forall|b: u64| #[trigger]
            bit(without_bit(words, block), b) == (bit(words, b) && b != block),
        without_bit(with_bit(words, block), block) == without_bit(words, block),
        block / 64 >= words.len() ==> with_bit(words, block) == words && !bit(words, block),
{
    if block / 64 < words.len() {
        let i = (block / 64) as int;
        let w = words[i];
        let s = block % 64;
        assert forall|b: u64| #[trigger]
            bit(with_bit(words, block), b) == (bit(words, b) || b == block) by {
            lemma_bit_set(w, s, b % 64);
        }
        assert forall|b: u64| #[trigger]
            bit(without_bit(words, block), b) == (bit(words, b) && b != block) by {
            lemma_bit_clear(w, s, b % 64);
        }
        assert((w | (1u64 << s)) & !(1u64 << s) == w & !(1u64 << s)) by (bit_vector);
        assert(without_bit(with_bit(words, block), block) =~= without_bit(words, block));
    }
}

proof fn lemma_zero_words(words: Seq<u64>, b: u64)
    requires
        forall|i: int| 0 <= i < words.len() ==> words[i] == 0,
    ensures
        !bit(words, b),
{
    let s = b % 64;
    assert(0u64 & (1u64 << s) == 0) by (bit_vector);
}

// ---------------------------------------------------------------------------
// Files
// ---------------------------------------------------------------------------
/// What the store knows of one file.
#[verifier::ext_equal]
pub struct FileView {
    pub path: Seq<char>,
    pub size: u64,
    /// Blocks whose bytes are local.
    pub present: Set<u64>,
    /// Blocks that have ever been fetched.
    pub ever: Set<u64>,
}

/// A block's length: the last block of a file is usually partial.
pub open spec fn block_len(size: u64, block: u64) -> u64 {
    if size - block * BLOCK < BLOCK {
        (size - block * BLOCK) as u64
    } else {
        BLOCK
    }
}

#[derive(Debug)]
struct FileState {
    path: String,
    size: u64,
    present: Vec<u64>,
    fetched_ever: Vec<u64>,
}

impl FileState {
    spec fn view(&self) -> FileView {
        FileView {
            path: self.path@,
            size: self.size,
            present: Set::new(|b: u64| bit(self.present@, b)),
            ever: Set::new(|b: u64| bit(self.fetched_ever@, b)),
        }
    }

    /// The bitmaps cover every block: a word speaks of 64 blocks.
    spec fn wf(&self) -> bool {
        &&& self.size <= self.present@.len() * 4194304
        &&& self.size <= self.fetched_ever@.len() * 4194304
    }

    fn new(path: &String, size: u64) -> (res: FileState)
        ensures
            res.wf(),
            res@ == (FileView {
                path: path@,
                size,
                present: Set::empty(),
                ever: Set::empty(),
            }),
    {
        let blocks: u64 = if size % BLOCK == 0 {
            size / BLOCK
        } else {
            size / BLOCK + 1
        };
        let words: u64 = if blocks % 64 == 0 {
            blocks / 64
        } else {
            blocks / 64 + 1
        };
        let present = zero_words(words);
        let fetched_ever = zero_words(words);
        let res = FileState { path: path.clone(), size, present, fetched_ever };
        proof {
            assert(words == res.present@.len() && words == res.fetched_ever@.len());
            assert forall|b: u64| !bit(res.present@, b) && !bit(res.fetched_ever@, b) by {
                lemma_zero_words(res.present@, b);
                lemma_zero_words(res.fetched_ever@, b);
            }
            assert(res@.present =~= Set::empty());
            assert(res@.ever =~= Set::empty());
        }
        res
    }
}

fn zero_words(count: u64) -> (res: Vec<u64>)
    ensures
        res@.len() == count,
        forall|i: int| 0 <= i < res@.len() ==> res@[i] == 0,
{
    let mut out: Vec<u64> = Vec::new();
    let mut n: u64 = 0;
    while n < count
        invariant
            n <= count,
            out@.len() == n,
            forall|i: int| 0 <= i < out@.len() ==> out@[i] == 0,
        decreases count - n,
    {
        out.push(0);
        n = n + 1;
    }
    out
}

// ---------------------------------------------------------------------------
// The store
// ---------------------------------------------------------------------------
/// What the store has counted. The counters wrap.
#[derive(Clone, Copy, PartialEq, Eq, Structural, Debug)]
pub struct Counters {
    pub blocks_fetched: u64,
    pub bytes_fetched: u64,
    pub block_hits: u64,
    pub evicted_blocks: u64,
    pub refetched_blocks: u64,
    pub refetched_bytes: u64,
}

/// A deallocated range of a file.
#[derive(Clone, Copy, PartialEq, Eq, Structural, Debug)]
pub struct Hole {
    pub file: u32,
    pub offset: u64,
    pub len: u64,
}

/// What a [`BlockStore`] denotes.
#[verifier::ext_equal]
pub struct StoreView {
    pub files: Seq<FileView>,
    pub residency: ResidencyView,
    pub counters: Counters,
}

/// The last listed file of a path among the first `n`.
pub open spec fn file_index(files: Seq<FileView>, path: Seq<char>, n: nat) -> Option<nat>
    decreases n,
{
    if n == 0 {
        None
    } else if files[n - 1].path == path {
        Some((n - 1) as nat)
    } else {
        file_index(files, path, (n - 1) as nat)
    }
}

/// The books after a read took hold of `n` blocks from `first` on, the present
/// ones counting as read again.
pub open spec fn held(
    r: ResidencyView,
    present: Set<u64>,
    file: u32,
    first: u64,
    n: nat,
) -> ResidencyView
    decreases n,
{
    if n == 0 {
        r
    } else {
        let block = (first + n - 1) as u64;
        let p = held(r, present, file, first, (n - 1) as nat).pinned((file, block));
        if present.contains(block) {
            p.touched((file, block))
        } else {
            p
        }
    }
}

/// How many of `n` blocks from `first` on are present.
pub open spec fn hits(present: Set<u64>, first: u64, n: nat) -> nat
    decreases n,
{
    if n == 0 {
        0
    } else {
        hits(present, first, (n - 1) as nat) + (if present.contains((first + n - 1) as u64) {
            1nat
        } else {
            0nat
        })
    }
}

/// The last block of the run of absent blocks that starts at `block`.
pub open spec fn run_end(present: Set<u64>, block: int, last: int) -> int
    decreases last - block,
{
    if block >= last || present.contains((block + 1) as u64) {
        block
    } else {
        run_end(present, block + 1, last)
    }
}

/// The contiguous runs of absent blocks from `block` to `last`, in order.
pub open spec fn absent_runs(present: Set<u64>, block: int, last: int) -> Seq<(u64, u64)>
    decreases last - block + 1,
{
    if block > last {
        Seq::empty()
    } else if present.contains(block as u64) {
        absent_runs(present, block + 1, last)
    } else {
        let end = run_end(present, block, last);
        if block <= end <= last {
            seq![(block as u64, end as u64)] + absent_runs(present, end + 1, last)
        } else {
            Seq::empty()
        }
    }
}

proof fn lemma_run_end(present: Set<u64>, block: int, last: int)
    requires
        0 <= block <= last <= u64::MAX,
        !present.contains(block as u64),
    ensures
        block <= run_end(present, block, last) <= last,
        forall|b: int|
            block <= b <= run_end(present, block, last) ==> !present.contains(#[trigger] (b as u64)),
        run_end(present, block, last) < last ==> present.contains(
            (run_end(present, block, last) + 1) as u64,
        ),
    decreases last - block,
{
    if block < last && !present.contains((block + 1) as u64) {
        lemma_run_end(present, block + 1, last);
    }
}

/// The runs a read fetches hold exactly the absent blocks of its range.
pub proof fn law_runs_are_the_absent_blocks(present: Set<u64>, block: int, last: int, b: int)
    requires
        0 <= block,
        last <= u64::MAX,
        block <= b <= last,
    ensures
        in_runs(absent_runs(present, block, last), b) <==> !present.contains(b as u64),
    decreases last - block + 1,
{
    let all = absent_runs(present, block, last);
    if present.contains(block as u64) {
        assert(all == absent_runs(present, block + 1, last));
        if b > block {
            law_runs_are_the_absent_blocks(present, block + 1, last, b);
        } else {
            lemma_runs_start(present, block + 1, last);
        }
    } else {
        lemma_run_end(present, block, last);
        let end = run_end(present, block, last);
        let rest = absent_runs(present, end + 1, last);
        assert(all =~= seq![(block as u64, end as u64)] + rest);
        if b <= end {
            assert(all[0] == (block as u64, end as u64));
            assert(!present.contains(b as u64));
        } else {
            law_runs_are_the_absent_blocks(present, end + 1, last, b);
            if in_runs(rest, b) {
                let i = choose|i: int| 0 <= i < rest.len() && (#[trigger] rest[i]).0 <= b <= rest[i].1;
                assert(all[i + 1] == rest[i]);
            }
            if in_runs(all, b) {
                let i = choose|i: int| 0 <= i < all.len() && (#[trigger] all[i]).0 <= b <= all[i].1;
                assert(i > 0);
                assert(rest[i - 1] == all[i]);
            }
        }
    }
}

/// How many blocks the runs hold.
pub open spec fn blocks_in(runs: Seq<(u64, u64)>) -> int
    decreases runs.len(),
{
    if runs.len() == 0 {
        0
    } else {
        runs[0].1 - runs[0].0 + 1 + blocks_in(runs.skip(1))
    }
}

proof fn lemma_hits_from_the_front(present: Set<u64>, first: u64, n: nat)
    requires
        n > 0,
        first + n <= u64::MAX,
    ensures
        hits(present, first, n) == hits(present, (first + 1) as u64, (n - 1) as nat) + (
        if present.contains(first) {
            1nat
        } else {
            0nat
        }),
    decreases n,
{
    if n > 1 {
        lemma_hits_from_the_front(present, first, (n - 1) as nat);
    } else {
        reveal_with_fuel(hits, 2);
    }
}

proof fn lemma_hits_behind_a_run(present: Set<u64>, first: u64, n: nat, run: nat)
    requires
        run <= n,
        first + n <= u64::MAX,
        forall|b: int| first <= b < first + run ==> !present.contains(#[trigger] (b as u64)),
    ensures
        hits(present, first, n) == hits(present, (first + run) as u64, (n - run) as nat),
    decreases run,
{
    if run > 0 {
        lemma_hits_from_the_front(present, first, n);
        assert(!present.contains((first as int) as u64));
        lemma_hits_behind_a_run(present, (first + 1) as u64, (n - 1) as nat, (run - 1) as nat);
    }
}

/// Of the blocks a read touches, each is a hit or is fetched: the two add up.
pub proof fn law_hits_and_fetches_add_up(present: Set<u64>, first: u64, last: u64)
    requires
        last < u64::MAX,
    ensures
        hits(present, first, span(first, last)) + blocks_in(
            absent_runs(present, first as int, last as int),
        ) == span(first, last),
    decreases last - first + 1,
{
    let n = span(first, last);
    let all = absent_runs(present, first as int, last as int);
    if first <= last {
        if present.contains(first) {
            lemma_hits_from_the_front(present, first, n);
            law_hits_and_fetches_add_up(present, (first + 1) as u64, last);
        } else {
            lemma_run_end(present, first as int, last as int);
            let end = run_end(present, first as int, last as int);
            let rest = absent_runs(present, end + 1, last as int);
            assert(all =~= seq![(first, end as u64)] + rest);
            assert(all.skip(1) =~= rest);
            lemma_hits_behind_a_run(present, first, n, (end - first + 1) as nat);
            law_hits_and_fetches_add_up(present, (end + 1) as u64, last);
        }
    }
}

/// A read of blocks that are all there fetches nothing: every one is a hit.
pub proof fn law_a_repeated_read_fetches_nothing(present: Set<u64>, first: u64, last: u64)
    requires
        last < u64::MAX,
        forall|b: u64| first <= b <= last ==> #[trigger] present.contains(b),
    ensures
        absent_runs(present, first as int, last as int) == Seq::<(u64, u64)>::empty(),
        hits(present, first, span(first, last)) == span(first, last),
    decreases last - first + 1,
{
    if first <= last {
        law_a_repeated_read_fetches_nothing(present, (first + 1) as u64, last);
        lemma_hits_from_the_front(present, first, span(first, last));
    }
}

/// Whether a block lies in one of the runs.
pub open spec fn in_runs(runs: Seq<(u64, u64)>, b: int) -> bool {
    exists|i: int| 0 <= i < runs.len() && (#[trigger] runs[i]).0 <= b <= runs[i].1
}

pub(crate) proof fn lemma_runs_start(present: Set<u64>, block: int, last: int)
    requires
        0 <= block,
        last <= u64::MAX,
    ensures
        forall|i: int|
            0 <= i < absent_runs(present, block, last).len() ==> block <= (#[trigger] absent_runs(
                present,
                block,
                last,
            )[i]).0 <= absent_runs(present, block, last)[i].1 <= last,
    decreases last - block + 1,
{
    if block <= last {
        if present.contains(block as u64) {
            lemma_runs_start(present, block + 1, last);
            assert(absent_runs(present, block, last) == absent_runs(present, block + 1, last));
        } else {
            lemma_run_end(present, block, last);
            let end = run_end(present, block, last);
            lemma_runs_start(present, end + 1, last);
            let all = absent_runs(present, block, last);
            let rest = absent_runs(present, end + 1, last);
            assert forall|i: int| 0 <= i < all.len() implies block <= (#[trigger] all[i]).0 <= all[i].1
                <= last by {
                if i > 0 {
                    assert(all[i] == rest[i - 1]);
                }
            }
        }
    }
}

/// The books after a read let go of `n` blocks from `first` on.
pub open spec fn released(r: ResidencyView, file: u32, first: u64, n: nat) -> ResidencyView
    decreases n,
{
    if n == 0 {
        r
    } else {
        released(r, file, first, (n - 1) as nat).unpinned((file, (first + n - 1) as u64))
    }
}

impl StoreView {
    /// After one block's bytes landed. A block that was already present
    /// changes nothing; one fetched before counts as fetched again.
    pub open spec fn landed(self, file: u32, block: u64) -> StoreView {
        let f = self.files[file as int];
        if f.present.contains(block) {
            self
        } else {
            let len = block_len(f.size, block);
            StoreView {
                files: self.files.update(
                    file as int,
                    FileView {
                        present: f.present.insert(block),
                        ever: f.ever.insert(block),
                        ..f
                    },
                ),
                residency: self.residency.admitted((file, block), len),
                counters: if f.ever.contains(block) {
                    Counters {
                        refetched_blocks: self.counters.refetched_blocks.wrapping_add(1),
                        refetched_bytes: self.counters.refetched_bytes.wrapping_add(len),
                        ..self.counters
                    }
                } else {
                    self.counters
                },
            }
        }
    }

    /// After `n` blocks from `from` on landed.
    pub open spec fn landed_run(self, file: u32, from: u64, n: nat) -> StoreView
        decreases n,
    {
        if n == 0 {
            self
        } else {
            self.landed_run(file, from, (n - 1) as nat).landed(file, (from + n - 1) as u64)
        }
    }

    /// After one block was evicted: absent from its file and from the books.
    pub open spec fn without_block(self, key: BlockKey) -> StoreView {
        let f = self.files[key.0 as int];
        StoreView {
            files: self.files.update(
                key.0 as int,
                FileView { present: f.present.remove(key.1), ..f },
            ),
            residency: self.residency.dropped(key),
            counters: Counters {
                evicted_blocks: self.counters.evicted_blocks.wrapping_add(1),
                ..self.counters
            },
        }
    }

    /// The bytes an evicted block gives back.
    pub open spec fn hole_of(self, key: BlockKey) -> Hole {
        Hole {
            file: key.0,
            offset: (key.1 * BLOCK) as u64,
            len: self.residency.block(key).len,
        }
    }

    /// After evicting until the limit is met or everything left is held, and
    /// what was given back, in order.
    pub open spec fn evicted(self) -> (StoreView, Seq<Hole>)
        decreases self.residency.probation.len() + self.residency.protected.len(),
    {
        let r = self.residency;
        match r.victim() {
            Some(key) => if r.over_limit() && r.dropped(key).probation.len() + r.dropped(
                key,
            ).protected.len() < r.probation.len() + r.protected.len() {
                let rest = self.without_block(key).evicted();
                (rest.0, seq![self.hole_of(key)] + rest.1)
            } else {
                (self, Seq::empty())
            },
            None => (self, Seq::empty()),
        }
    }

    /// After a run of blocks was fetched, with so many bytes.
    pub open spec fn counted(self, file: u32, from: u64, to: u64, bytes: u64) -> StoreView {
        let n = (to - from + 1) as nat;
        let landed = self.landed_run(file, from, n);
        StoreView {
            counters: Counters {
                blocks_fetched: landed.counters.blocks_fetched.wrapping_add(n as u64),
                bytes_fetched: landed.counters.bytes_fetched.wrapping_add(bytes),
                ..landed.counters
            },
            ..landed
        }
    }

    /// After a run of blocks was fetched and the limit met again, and what was
    /// given back.
    pub open spec fn recorded(self, file: u32, from: u64, to: u64, bytes: u64) -> (
        StoreView,
        Seq<Hole>,
    ) {
        self.counted(file, from, to, bytes).evicted()
    }

    /// What the store keeps true: resident blocks are blocks of listed files,
    /// only blocks of a file are present in it, and under a limit the books
    /// list exactly the present blocks.
    pub open spec fn wf(self) -> bool {
        &&& self.files.len() <= u32::MAX
        &&& self.residency.wf()
        &&& forall|k: BlockKey| #[trigger]
            self.residency.resident(k) ==> k.0 < self.files.len() && k.1 * BLOCK
                < self.files[k.0 as int].size
        &&& forall|f: int, b: u64|
            0 <= f < self.files.len() && #[trigger] self.files[f].present.contains(b) ==> b * BLOCK
                < self.files[f].size
        &&& self.residency.limit > 0 ==> forall|f: int, b: u64|
            0 <= f < self.files.len() && #[trigger] self.files[f].present.contains(b)
                ==> self.residency.resident((f as u32, b))
        &&& self.residency.limit > 0 ==> forall|k: BlockKey| #[trigger]
            self.residency.resident(k) ==> self.files[k.0 as int].present.contains(k.1)
    }
}

pub(crate) proof fn lemma_landed(s: StoreView, file: u32, block: u64)
    requires
        s.wf(),
        file < s.files.len(),
        block * BLOCK < s.files[file as int].size,
    ensures
        s.landed(file, block).wf(),
        s.landed(file, block).files.len() == s.files.len(),
        s.landed(file, block).files[file as int].size == s.files[file as int].size,
        s.landed(file, block).residency.bytes() <= s.residency.bytes() + BLOCK,
        s.landed(file, block).residency.limit == s.residency.limit,
{
    let t = s.landed(file, block);
    let f = s.files[file as int];
    if !f.present.contains(block) {
        let len = block_len(f.size, block);
        lemma_dropped(s.residency, (file, block));
        if s.residency.limit > 0 {
            law_admitting(s.residency, (file, block), len);
        }
        assert forall|k: BlockKey| #[trigger] t.residency.resident(k) implies k.0 < t.files.len() && k.1
            * BLOCK < t.files[k.0 as int].size by {
            if k != (file, block) {
                assert(s.residency.resident(k));
            }
        }
        assert forall|g: int, b: u64|
            0 <= g < t.files.len() && #[trigger] t.files[g].present.contains(b) implies b * BLOCK
            < t.files[g].size by {
            if g == file && b == block {
            } else {
                assert(s.files[g].present.contains(b));
            }
        }
        if s.residency.limit > 0 {
            assert forall|g: int, b: u64|
                0 <= g < t.files.len() && #[trigger] t.files[g].present.contains(b) implies t.residency.resident(
                (g as u32, b),
            ) by {
                if g == file && b == block {
                } else {
                    assert(s.files[g].present.contains(b));
                    assert(s.residency.resident((g as u32, b)));
                }
            }
            assert forall|k: BlockKey| #[trigger] t.residency.resident(k) implies t.files[k.0 as int].present.contains(
                k.1,
            ) by {
                if k != (file, block) {
                    assert(s.residency.resident(k));
                    assert(s.files[k.0 as int].present.contains(k.1));
                }
            }
        }
    }
}

pub(crate) proof fn lemma_without_block(s: StoreView, key: BlockKey)
    requires
        s.wf(),
        s.residency.limit > 0,
        s.residency.resident(key),
    ensures
        s.without_block(key).wf(),
        s.without_block(key).files.len() == s.files.len(),
{
    let t = s.without_block(key);
    lemma_dropped(s.residency, key);
    assert forall|k: BlockKey| #[trigger] t.residency.resident(k) implies k.0 < t.files.len() && k.1
        * BLOCK < t.files[k.0 as int].size && t.files[k.0 as int].present.contains(k.1) by {
        assert(s.residency.resident(k));
        assert(s.files[k.0 as int].present.contains(k.1));
    }
    assert forall|g: int, b: u64|
        0 <= g < t.files.len() && #[trigger] t.files[g].present.contains(b) implies b * BLOCK
        < t.files[g].size && t.residency.resident((g as u32, b)) by {
        assert(s.files[g].present.contains(b));
        assert(s.residency.resident((g as u32, b)));
        assert((g as u32, b) != key);
    }
}

pub(crate) proof fn lemma_held(r: ResidencyView, present: Set<u64>, file: u32, first: u64, n: nat)
    requires
        r.wf(),
    ensures
        held(r, present, file, first, n).wf(),
        forall|k: BlockKey| #[trigger]
            held(r, present, file, first, n).resident(k) <==> r.resident(k),
        held(r, present, file, first, n).limit == r.limit,
        held(r, present, file, first, n).bytes() == r.bytes(),
    decreases n,
{
    if n > 0 {
        lemma_held(r, present, file, first, (n - 1) as nat);
        let block = (first + n - 1) as u64;
        let q = held(r, present, file, first, (n - 1) as nat);
        let p = q.pinned((file, block));
        assert(p.wf());
        assert forall|k: BlockKey| #[trigger] p.resident(k) <==> r.resident(k) by {
            assert(q.resident(k) <==> r.resident(k));
        }
        law_touching(p, (file, block));
        lemma_touched_frame(p, (file, block));
    }
}

proof fn lemma_touched_frame(p: ResidencyView, key: BlockKey)
    ensures
        p.touched(key).limit == p.limit,
{
    if p.limit != 0 && p.resident(key) {
        let s = p.dropped(key);
        lemma_demoted_frame(ResidencyView { protected: s.protected.push(p.block(key)), ..s });
    }
}

proof fn lemma_demoted_frame(p: ResidencyView)
    ensures
        p.demoted().limit == p.limit,
    decreases p.protected.len(),
{
    if p.protected.len() > 0 && crate::residency::total(p.protected) > p.limit / 2 {
        lemma_demoted_frame(
            ResidencyView {
                probation: p.probation.push(p.protected[0]),
                protected: p.protected.skip(1),
                ..p
            },
        );
    }
}

/// What a read will do: the blocks it holds and the runs it must fetch.
#[derive(Debug)]
pub struct ReadPlan {
    pub file: u32,
    /// The file's size.
    pub total: u64,
    /// Where the answer ends.
    pub end: u64,
    pub first: u64,
    pub last: u64,
    /// Contiguous runs of absent blocks, first and last block of each.
    pub runs: Vec<(u64, u64)>,
    pub block_hits: u64,
}

/// How many blocks a read holds.
pub open spec fn span(first: u64, last: u64) -> nat {
    if last < first {
        0
    } else {
        (last - first + 1) as nat
    }
}

/// What planning a read gives: a file that is not listed was repacked away, a
/// read past the end or of nothing at the start is empty and changes nothing,
/// any other holds its blocks, counts the present ones and lists the absent
/// runs.
pub open spec fn plan_outcome(
    s: StoreView,
    t: StoreView,
    path: Seq<char>,
    offset: u64,
    size: u32,
    res: Result<Option<ReadPlan>, GfsError>,
) -> bool {
    match file_index(s.files, path, s.files.len()) {
        None => t == s && (res matches Err(e) && e.reads(
            ErrorCode::FailedPrecondition,
            "the object store was repacked; remount"@,
        )),
        Some(i) => {
            let f = s.files[i as int];
            if offset >= f.size || (offset == 0 && size == 0) {
                t == s && res == Ok::<Option<ReadPlan>, GfsError>(None)
            } else {
                let end: u64 = if offset + size < f.size {
                    (offset + size) as u64
                } else {
                    f.size
                };
                let first = offset / BLOCK;
                let last = ((end - 1) as u64) / BLOCK;
                let n = span(first, last);
                &&& res matches Ok(Some(plan)) && plan.file == i && plan.total == f.size && plan.end
                    == end && plan.first == first && plan.last == last && plan.runs@ == absent_runs(
                    f.present,
                    first as int,
                    last as int,
                ) && plan.block_hits == hits(f.present, first, n)
                &&& t == (StoreView {
                    residency: held(s.residency, f.present, i as u32, first, n),
                    counters: Counters {
                        block_hits: s.counters.block_hits.wrapping_add(
                            hits(f.present, first, n) as u64,
                        ),
                        ..s.counters
                    },
                    ..s
                })
            }
        },
    }
}

/// The per-repository store: the manifest's files, which of their blocks are
/// local, and the books of resident blocks.
#[derive(Debug)]
pub struct BlockStore {
    files: Vec<FileState>,
    residency: Residency,
    counters: Counters,
}

impl View for BlockStore {
    type V = StoreView;

    closed spec fn view(&self) -> StoreView {
        StoreView {
            files: Seq::new(self.files@.len(), |i: int| self.files@[i]@),
            residency: self.residency@,
            counters: self.counters,
        }
    }
}

/// The files of a manifest, nothing fetched.
pub open spec fn fresh_files(manifest: Seq<OdbFile>) -> Seq<FileView> {
    Seq::new(
        manifest.len(),
        |i: int|
            FileView {
                path: manifest[i].path@,
                size: manifest[i].size,
                present: Set::empty(),
                ever: Set::empty(),
            },
    )
}

impl BlockStore {
    /// The bitmaps cover the files, the books are true, and they agree.
    pub closed spec fn wf(&self) -> bool {
        &&& self@.wf()
        &&& self.residency.wf()
        &&& forall|i: int| 0 <= i < self.files@.len() ==> (#[trigger] self.files@[i]).wf()
    }

    /// What well-formedness promises a caller.
    pub proof fn lemma_wf(&self)
        requires
            self.wf(),
        ensures
            self@.wf(),
            self@.residency.bytes() <= u64::MAX,
    {
        self.residency.lemma_wf();
    }

    /// A store of the manifest's files, nothing fetched. A residency limit of
    /// zero is unbounded.
    pub fn open(manifest: &Vec<OdbFile>, residency_limit: u64) -> (res: BlockStore)
        requires
            manifest@.len() <= u32::MAX,
        ensures
            res.wf(),
            res@.files == fresh_files(manifest@),
            res@.residency.limit == residency_limit,
            forall|k: BlockKey| !(#[trigger] res@.residency.resident(k)),
            res@.residency.pins == vstd::multiset::Multiset::<BlockKey>::empty(),
            res@.counters == (Counters {
                blocks_fetched: 0,
                bytes_fetched: 0,
                block_hits: 0,
                evicted_blocks: 0,
                refetched_blocks: 0,
                refetched_bytes: 0,
            }),
    {
        let mut files: Vec<FileState> = Vec::new();
        let mut i: usize = 0;
        while i < manifest.len()
            invariant
                i <= manifest@.len(),
                files@.len() == i,
                forall|k: int| 0 <= k < i ==> (#[trigger] files@[k]).wf(),
                forall|k: int| 0 <= k < i ==> (#[trigger] files@[k])@ == fresh_files(manifest@)[k],
            decreases manifest.len() - i,
        {
            files.push(FileState::new(&manifest[i].path, manifest[i].size));
            i = i + 1;
        }
        let residency = Residency::new(residency_limit);
        let res = BlockStore {
            files,
            residency,
            counters: Counters {
                blocks_fetched: 0,
                bytes_fetched: 0,
                block_hits: 0,
                evicted_blocks: 0,
                refetched_blocks: 0,
                refetched_bytes: 0,
            },
        };
        proof {
            residency.lemma_wf();
            assert(res@.files =~= fresh_files(manifest@));
            assert forall|f: int, b: u64| 0 <= f < res@.files.len() implies !(#[trigger] res@.files[f].present.contains(
                b,
            )) by {
                assert(res@.files[f] == fresh_files(manifest@)[f]);
            }
        }
        res
    }

    pub fn stats(&self) -> (res: OdbStats)
        requires
            self.wf(),
        ensures
            res == (OdbStats {
                blocks_fetched: self@.counters.blocks_fetched,
                bytes_fetched: self@.counters.bytes_fetched,
                block_hits: self@.counters.block_hits,
                resident_bytes: self@.residency.bytes() as u64,
                residency_limit_bytes: self@.residency.limit,
                evicted_blocks: self@.counters.evicted_blocks,
                refetched_blocks: self@.counters.refetched_blocks,
                refetched_bytes: self@.counters.refetched_bytes,
            }),
    {
        OdbStats {
            blocks_fetched: self.counters.blocks_fetched,
            bytes_fetched: self.counters.bytes_fetched,
            block_hits: self.counters.block_hits,
            resident_bytes: self.residency.resident_bytes(),
            residency_limit_bytes: self.residency.limit(),
            evicted_blocks: self.counters.evicted_blocks,
            refetched_blocks: self.counters.refetched_blocks,
            refetched_bytes: self.counters.refetched_bytes,
        }
    }

    fn find(&self, path: &str) -> (res: Option<usize>)
        ensures
            match file_index(self@.files, path@, self@.files.len()) {
                None => res is None,
                Some(i) => res == Some(i as usize) && i < self.files@.len(),
            },
    {
        let wanted = path.to_owned();
        let mut n: usize = self.files.len();
        while n > 0
            invariant
                n <= self.files@.len(),
                wanted@ == path@,
                file_index(self@.files, path@, self@.files.len()) == file_index(
                    self@.files,
                    path@,
                    n as nat,
                ),
            decreases n,
        {
            assert(self@.files[n - 1] == self.files@[n - 1]@);
            if self.files[n - 1].path == wanted {
                return Some(n - 1);
            }
            n = n - 1;
        }
        None
    }

    /// The listed files by path, one per path.
    pub fn listing(&self) -> (res: Vec<(String, u64)>)
        ensures
            forall|i: int|
                0 <= i < res@.len() ==> (file_index(
                    self@.files,
                    (#[trigger] res@[i]).0@,
                    self@.files.len(),
                ) matches Some(k) && self@.files[k as int].size == res@[i].1),
            forall|k: int|
                0 <= k < self@.files.len() ==> exists|i: int|
                    0 <= i < res@.len() && (#[trigger] res@[i]).0@ == (#[trigger] self@.files[k]).path,
            forall|i: int, j: int|
                0 <= i < j < res@.len() ==> (#[trigger] res@[i]).0@ != (#[trigger] res@[j]).0@,
    {
        let mut out: Vec<(String, u64)> = Vec::new();
        let mut k: usize = 0;
        let ghost fs = self@.files;
        while k < self.files.len()
            invariant
                k <= self.files@.len(),
                fs == self@.files,
                fs.len() == self.files@.len(),
                forall|i: int|
                    0 <= i < out@.len() ==> (file_index(fs, (#[trigger] out@[i]).0@, fs.len()) matches Some(
                        m,
                    ) && m < k && fs[m as int].size == out@[i].1),
                forall|m: int|
                    0 <= m < k && file_index(fs, (#[trigger] fs[m]).path, fs.len()) == Some(m as nat)
                        ==> exists|i: int| 0 <= i < out@.len() && (#[trigger] out@[i]).0@ == fs[m].path,
                forall|i: int, j: int|
                    0 <= i < j < out@.len() ==> (#[trigger] out@[i]).0@ != (#[trigger] out@[j]).0@,
            decreases self.files.len() - k,
        {
            assert(fs[k as int] == self.files@[k as int]@);
            let ghost before = out@;
            match self.find(self.files[k].path.as_str()) {
                Some(i) => {
                    if i == k {
                        out.push((self.files[k].path.clone(), self.files[k].size));
                        proof {
                            let last = before.len() as int;
                            assert(out@[last].0@ == fs[k as int].path);
                            assert forall|m: int|
                                0 <= m < k + 1 && file_index(fs, (#[trigger] fs[m]).path, fs.len())
                                    == Some(m as nat) implies exists|i: int|
                                0 <= i < out@.len() && (#[trigger] out@[i]).0@ == fs[m].path by {
                                if m < k {
                                    let i = choose|i: int|
                                        0 <= i < before.len() && (#[trigger] before[i]).0@ == fs[m].path;
                                    assert(out@[i].0@ == fs[m].path);
                                }
                            }
                            assert forall|i: int, j: int| 0 <= i < j < out@.len() implies (#[trigger] out@[i]).0@
                                != (#[trigger] out@[j]).0@ by {
                                if j < last {
                                    assert(before[i].0@ != before[j].0@);
                                } else {
                                    assert(out@[i] == before[i]);
                                }
                            }
                        }
                    }
                },
                None => {},
            }
            k = k + 1;
        }
        proof {
            assert forall|m: int| 0 <= m < fs.len() implies exists|i: int|
                0 <= i < out@.len() && (#[trigger] out@[i]).0@ == (#[trigger] fs[m]).path by {
                lemma_file_index(fs, m, fs.len());
                let last = file_index(fs, fs[m].path, fs.len())->0;
                assert(fs[last as int].path == fs[m].path);
                assert(file_index(fs, fs[last as int].path, fs.len()) == Some(last));
            }
        }
        out
    }

    /// Plan a read of `size` bytes at `offset`: take hold of its blocks, count
    /// the present ones as read again, and list the runs to fetch.
    pub fn plan_read(&mut self, path: &str, offset: u64, size: u32) -> (res: Result<
        Option<ReadPlan>,
        GfsError,
    >)
        requires
            old(self).wf(),
        ensures
            final(self).wf(),
            plan_outcome(old(self)@, final(self)@, path@, offset, size, res),
    {
        let at = match self.find(path) {
            Some(i) => i,
            None => {
                return Err(
                    GfsError::new(
                        ErrorCode::FailedPrecondition,
                        "the object store was repacked; remount",
                    ),
                );
            },
        };
        let ghost s = self@;
        let ghost f = s.files[at as int];
        assert(f == self.files@[at as int]@);
        let total = self.files[at].size;
        if offset >= total || (offset == 0 && size == 0) {
            return Ok(None);
        }
        let wanted: u64 = if size as u64 > u64::MAX - offset {
            u64::MAX
        } else {
            offset + size as u64
        };
        let end: u64 = if wanted < total {
            wanted
        } else {
            total
        };
        let first: u64 = offset / BLOCK;
        let last: u64 = (end - 1) / BLOCK;
        let file = at as u32;
        let mut n: u64 = 0;
        let mut count: u64 = 0;
        let ghost total_blocks = span(first, last);
        assert(last < u64::MAX);
        proof {
            assert(0 <= at < self.files@.len());
        }
        while first + n <= last
            invariant
                at < self.files@.len(),
                file == at,
                self.files == old(self).files,
                self.counters == old(self).counters,
                s == old(self)@,
                f == s.files[at as int],
                f == self.files@[at as int]@,
                last < u64::MAX,
                n <= total_blocks,
                total_blocks == span(first, last),
                count <= n,
                self.residency.wf(),
                self.residency@ == held(s.residency, f.present, file, first, n as nat),
                count == hits(f.present, first, n as nat),
            decreases total_blocks - n,
        {
            let block: u64 = first + n;
            self.residency.pin((file, block));
            if bit_get(&self.files[at].present, block) {
                assert(f.present.contains(block));
                count = count + 1;
                self.residency.touch((file, block));
            }
            n = n + 1;
        }
        assert(n == total_blocks);
        let runs = self.runs_of(at, first, last);
        let ghost mid = self.counters;
        self.counters = Counters {
            block_hits: self.counters.block_hits.wrapping_add(count),
            ..self.counters
        };
        proof {
            self.residency.lemma_wf();
            assert(self@.files =~= s.files);
            lemma_held(s.residency, f.present, file, first, total_blocks);
            assert forall|k: BlockKey| #[trigger] self@.residency.resident(k) <==> s.residency.resident(
                k,
            ) by {}
            assert(self@.wf());
        }
        Ok(Some(ReadPlan { file, total, end, first, last, runs, block_hits: count }))
    }

    /// The runs of absent blocks of a file.
    fn runs_of(&self, at: usize, first: u64, last: u64) -> (res: Vec<(u64, u64)>)
        requires
            at < self.files@.len(),
            last < u64::MAX,
        ensures
            res@ == absent_runs(self.files@[at as int]@.present, first as int, last as int),
    {
        let ghost present = self.files@[at as int]@.present;
        let mut out: Vec<(u64, u64)> = Vec::new();
        let mut b: u64 = first;
        assert(out@ + absent_runs(present, b as int, last as int) =~= absent_runs(
            present,
            first as int,
            last as int,
        ));
        while b <= last
            invariant
                at < self.files@.len(),
                present == self.files@[at as int]@.present,
                last < u64::MAX,
                out@ + absent_runs(present, b as int, last as int) == absent_runs(
                    present,
                    first as int,
                    last as int,
                ),
            decreases last + 1 - b,
        {
            if bit_get(&self.files[at].present, b) {
                assert(present.contains(b));
                b = b + 1;
            } else {
                let start = b;
                assert(!present.contains(b));
                proof {
                    lemma_run_end(present, start as int, last as int);
                }
                while b < last && !bit_get(&self.files[at].present, b + 1)
                    invariant
                        at < self.files@.len(),
                        present == self.files@[at as int]@.present,
                        start <= b <= last,
                        last < u64::MAX,
                        run_end(present, start as int, last as int) == run_end(
                            present,
                            b as int,
                            last as int,
                        ),
                    decreases last - b,
                {
                    assert(!present.contains((b + 1) as u64));
                    b = b + 1;
                }
                assert(b < last ==> present.contains((b + 1) as u64));
                assert(run_end(present, start as int, last as int) == b);
                let ghost before = out@;
                out.push((start, b));
                proof {
                    let rest = absent_runs(present, b + 1, last as int);
                    assert(absent_runs(present, start as int, last as int) == seq![(start, b)] + rest);
                    assert(before + (seq![(start, b)] + rest) =~= out@ + rest);
                }
                b = b + 1;
            }
        }
        assert(out@ + absent_runs(present, b as int, last as int) =~= out@);
        out
    }

    /// Record a run whose bytes the driver fetched and wrote, then evict to the
    /// limit. What comes back is to be deallocated.
    pub fn record_run(&mut self, file: u32, from: u64, to: u64, bytes: u64) -> (res: Vec<Hole>)
        requires
            old(self).wf(),
            file < old(self)@.files.len(),
            from <= to,
            to * BLOCK < old(self)@.files[file as int].size,
            old(self)@.residency.bytes() + (to - from + 1) * BLOCK <= u64::MAX,
        ensures
            final(self).wf(),
            (final(self)@, res@) == old(self)@.recorded(file, from, to, bytes),
    {
        let ghost s = self@;
        let at = file as usize;
        let mut n: u64 = 0;
        let count: u64 = to - from + 1;
        while n < count
            invariant
                self.wf(),
                n <= count,
                count == to - from + 1,
                at == file,
                file < s.files.len(),
                self@ == s.landed_run(file, from, n as nat),
                self@.files.len() == s.files.len(),
                self@.files[file as int].size == s.files[file as int].size,
                to * BLOCK < s.files[file as int].size,
                self@.residency.bytes() <= s.residency.bytes() + n * BLOCK,
                s.residency.bytes() + count * BLOCK <= u64::MAX,
            decreases count - n,
        {
            let block: u64 = from + n;
            assert(block * BLOCK <= to * BLOCK) by (nonlinear_arith)
                requires
                    block <= to,
            ;
            self.land(file, block);
            n = n + 1;
        }
        self.counters = Counters {
            blocks_fetched: self.counters.blocks_fetched.wrapping_add(count),
            bytes_fetched: self.counters.bytes_fetched.wrapping_add(bytes),
            ..self.counters
        };
        proof {
            let landed = s.landed_run(file, from, count as nat);
            assert(self@.files =~= landed.files);
            assert(self@.wf());
        }
        self.evict_to_limit()
    }

    /// Record one block's arrival.
    fn land(&mut self, file: u32, block: u64)
        requires
            old(self).wf(),
            file < old(self)@.files.len(),
            block * BLOCK < old(self)@.files[file as int].size,
            old(self)@.residency.bytes() + BLOCK <= u64::MAX,
        ensures
            final(self).wf(),
            final(self)@ == old(self)@.landed(file, block),
            final(self)@.files.len() == old(self)@.files.len(),
            final(self)@.files[file as int].size == old(self)@.files[file as int].size,
            final(self)@.residency.bytes() <= old(self)@.residency.bytes() + BLOCK,
    {
        let ghost s = self@;
        let at = file as usize;
        proof {
            lemma_landed(s, file, block);
            lemma_dropped(s.residency, (file, block));
            assert(s.files[file as int] == self.files@[at as int]@);
        }
        if bit_get(&self.files[at].present, block) {
            return;
        }
        let ghost f = self.files@[at as int];
        let size = self.files[at].size;
        let left: u64 = size - block * BLOCK;
        let len: u64 = if left < BLOCK {
            left
        } else {
            BLOCK
        };
        bit_set(&mut self.files[at].present, block);
        if bit_get(&self.files[at].fetched_ever, block) {
            self.counters = Counters {
                refetched_blocks: self.counters.refetched_blocks.wrapping_add(1),
                refetched_bytes: self.counters.refetched_bytes.wrapping_add(len),
                ..self.counters
            };
        } else {
            bit_set(&mut self.files[at].fetched_ever, block);
        }
        self.residency.admit_block((file, block), len);
        proof {
            let goal = s.landed(file, block);
            let now = self.files@[at as int];
            assert(bit(f.present@, block) == false);
            assert(block / 64 < f.present@.len() && block / 64 < f.fetched_ever@.len());
            law_one_bit_at_a_time(f.present@, block);
            law_one_bit_at_a_time(f.fetched_ever@, block);
            assert(now@.present =~= f@.present.insert(block));
            assert(now@.ever =~= f@.ever.insert(block)) by {
                assert forall|b: u64| now@.ever.contains(b) <==> f@.ever.insert(block).contains(b) by {
                    assert(bit(now.fetched_ever@, b) == (bit(f.fetched_ever@, b) || b == block));
                }
            }
            assert(self@.files =~= goal.files);
            assert(self@ =~= goal);
            assert forall|i: int| 0 <= i < self.files@.len() implies (#[trigger] self.files@[i]).wf() by {
                if i != at {
                    assert(self.files@[i] == old(self).files@[i]);
                }
            }
        }
    }

    /// Evict until the limit is met, or everything left is held.
    fn evict_to_limit(&mut self) -> (res: Vec<Hole>)
        requires
            old(self).wf(),
        ensures
            final(self).wf(),
            final(self)@ == old(self)@.evicted().0,
            res@ == old(self)@.evicted().1,
    {
        let ghost s = self@;
        let mut out: Vec<Hole> = Vec::new();
        assert(Seq::<Hole>::empty() + s.evicted().1 =~= s.evicted().1);
        while self.residency.over_limit()
            invariant
                self.wf(),
                s.evicted().0 == self@.evicted().0,
                out@ + self@.evicted().1 == s.evicted().1,
            ensures
                self.wf(),
                self@ == s.evicted().0,
                out@ == s.evicted().1,
            decreases self@.residency.probation.len() + self@.residency.protected.len(),
        {
            let ghost now = self@;
            proof {
                law_a_pinned_block_is_never_a_victim(now.residency);
            }
            let key = match self.residency.victim() {
                Some(key) => key,
                None => {
                    assert(out@ + Seq::<Hole>::empty() =~= out@);
                    break;
                },
            };
            proof {
                lemma_dropped(now.residency, key);
                lemma_without_block(now, key);
            }
            let gone = self.residency.forget(key);
            let len = match gone {
                Some(b) => b.len,
                None => 0,
            };
            let at = key.0 as usize;
            let ghost states = self.files@;
            let ghost f = states[at as int];
            assert(now.files[at as int] == f@);
            bit_clear(&mut self.files[at].present, key.1);
            self.counters = Counters {
                evicted_blocks: self.counters.evicted_blocks.wrapping_add(1),
                ..self.counters
            };
            let ghost before = out@;
            out.push(Hole { file: key.0, offset: key.1 * BLOCK, len });
            proof {
                let goal = now.without_block(key);
                let g = self.files@[at as int];
                law_one_bit_at_a_time(f.present@, key.1);
                assert(g@.present =~= f@.present.remove(key.1));
                assert(g@.ever =~= f@.ever);
                assert(self@.files =~= goal.files);
                assert(self@ =~= goal);
                assert forall|i: int| 0 <= i < self.files@.len() implies (#[trigger] self.files@[i]).wf() by {
                    if i != at {
                        assert(self.files@[i] == states[i]);
                    }
                }
                assert(now.evicted().1 == seq![now.hole_of(key)] + goal.evicted().1);
                assert(before + (seq![now.hole_of(key)] + goal.evicted().1) =~= out@
                    + goal.evicted().1);
            }
        }
        out
    }

    /// Let go of the blocks a read held.
    pub fn finish_read(&mut self, file: u32, first: u64, last: u64)
        requires
            old(self).wf(),
            last < u64::MAX,
        ensures
            final(self).wf(),
            final(self)@ == (StoreView {
                residency: released(old(self)@.residency, file, first, span(first, last)),
                ..old(self)@
            }),
    {
        let ghost s = self@;
        let ghost count = span(first, last);
        let mut n: u64 = 0;
        while first + n <= last
            invariant
                self.residency.wf(),
                self.files == old(self).files,
                self.counters == old(self).counters,
                s == old(self)@,
                last < u64::MAX,
                count == span(first, last),
                n <= count,
                self.residency@ == released(s.residency, file, first, n as nat),
            decreases count - n,
        {
            self.residency.unpin((file, first + n));
            n = n + 1;
        }
        proof {
            lemma_released(s.residency, file, first, count);
            self.residency.lemma_wf();
            assert(self@.files =~= s.files);
            assert forall|k: BlockKey| #[trigger] self@.residency.resident(k) <==> s.residency.resident(
                k,
            ) by {}
            assert(self@.wf());
        }
    }
}

pub(crate) proof fn lemma_released(r: ResidencyView, file: u32, first: u64, n: nat)
    ensures
        released(r, file, first, n).probation == r.probation,
        released(r, file, first, n).protected == r.protected,
        released(r, file, first, n).limit == r.limit,
    decreases n,
{
    if n > 0 {
        lemma_released(r, file, first, (n - 1) as nat);
    }
}

proof fn lemma_file_index(files: Seq<FileView>, m: int, n: nat)
    requires
        0 <= m < n <= files.len(),
    ensures
        file_index(files, files[m].path, n) matches Some(k) && m <= k < n && files[k as int].path
            == files[m].path,
    decreases n,
{
    if m < n - 1 && files[n - 1].path != files[m].path {
        lemma_file_index(files, m, (n - 1) as nat);
    }
}

/// A read gives back every hold it took: planning and finishing leave the pins
/// as they were.
pub proof fn law_a_read_releases_what_it_holds(
    r: ResidencyView,
    present: Set<u64>,
    file: u32,
    first: u64,
    n: nat,
)
    requires
        first + n <= u64::MAX,
    ensures
        released(held(r, present, file, first, n), file, first, n).pins == r.pins,
{
    assert forall|k: BlockKey| released(held(r, present, file, first, n), file, first, n).pins.count(k)
        == r.pins.count(k) by {
        lemma_pin_count(r, present, file, first, n, k);
        lemma_unpin_count(held(r, present, file, first, n), file, first, n, k);
    }
    assert(released(held(r, present, file, first, n), file, first, n).pins =~= r.pins);
}

/// Whether a key is one of `n` blocks of a file from `first` on.
pub open spec fn in_span(file: u32, first: u64, n: nat, k: BlockKey) -> bool {
    k.0 == file && first <= k.1 < first + n
}

pub(crate) proof fn lemma_pin_count(
    r: ResidencyView,
    present: Set<u64>,
    file: u32,
    first: u64,
    n: nat,
    k: BlockKey,
)
    requires
        first + n <= u64::MAX,
    ensures
        held(r, present, file, first, n).pins.count(k) == r.pins.count(k) + (if in_span(
            file,
            first,
            n,
            k,
        ) {
            1nat
        } else {
            0nat
        }),
    decreases n,
{
    if n > 0 {
        lemma_pin_count(r, present, file, first, (n - 1) as nat, k);
        let block = (first + n - 1) as u64;
        let p = held(r, present, file, first, (n - 1) as nat).pinned((file, block));
        lemma_touched_pins(p, (file, block));
    }
}

proof fn lemma_unpin_count(r: ResidencyView, file: u32, first: u64, n: nat, k: BlockKey)
    requires
        first + n <= u64::MAX,
    ensures
        released(r, file, first, n).pins.count(k) == (if in_span(file, first, n, k)
            && r.pins.count(k) > 0 {
            (r.pins.count(k) - 1) as nat
        } else {
            r.pins.count(k)
        }),
    decreases n,
{
    if n > 0 {
        lemma_unpin_count(r, file, first, (n - 1) as nat, k);
    }
}

proof fn lemma_touched_pins(p: ResidencyView, key: BlockKey)
    ensures
        p.touched(key).pins == p.pins,
{
    if p.limit != 0 && p.resident(key) {
        let s = p.dropped(key);
        lemma_demoted_pins(ResidencyView { protected: s.protected.push(p.block(key)), ..s });
    }
}

proof fn lemma_demoted_pins(p: ResidencyView)
    ensures
        p.demoted().pins == p.pins,
    decreases p.protected.len(),
{
    if p.protected.len() > 0 && crate::residency::total(p.protected) > p.limit / 2 {
        lemma_demoted_pins(
            ResidencyView {
                probation: p.probation.push(p.protected[0]),
                protected: p.protected.skip(1),
                ..p
            },
        );
    }
}

/// Evicting a store evicts its books: what stays resident, and that a held
/// block stays, is what the books say.
pub proof fn law_evicting_a_store(s: StoreView)
    requires
        s.wf(),
    ensures
        s.evicted().0.residency == s.residency.evicted(),
        s.evicted().0.wf(),
    decreases s.residency.probation.len() + s.residency.protected.len(),
{
    let r = s.residency;
    law_a_pinned_block_is_never_a_victim(r);
    match r.victim() {
        Some(key) => {
            lemma_dropped(r, key);
            if r.over_limit() {
                lemma_without_block(s, key);
                law_evicting_a_store(s.without_block(key));
            }
        },
        None => {},
    }
}

/// After a run landed its blocks are there, and so is what was there; no read
/// lets go of anything by it.
pub proof fn law_a_run_lands(s: StoreView, file: u32, from: u64, n: nat, b: u64)
    requires
        file < s.files.len(),
        from + n <= u64::MAX,
    ensures
        s.landed_run(file, from, n).files.len() == s.files.len(),
        s.landed_run(file, from, n).files[file as int].present.contains(b) <==> (
        s.files[file as int].present.contains(b) || from <= b < from + n),
        s.landed_run(file, from, n).residency.pins == s.residency.pins,
    decreases n,
{
    if n > 0 {
        law_a_run_lands(s, file, from, (n - 1) as nat, b);
    }
}

/// Eviction never takes a block a read holds: what is there and held is there
/// afterwards. So the blocks a read took hold of are there once its runs
/// landed, whatever the limit.
pub proof fn law_eviction_keeps_what_is_held(s: StoreView, file: u32, b: u64)
    requires
        s.wf(),
        file < s.files.len(),
        s.files[file as int].present.contains(b),
        s.residency.pins.count((file, b)) > 0,
    ensures
        s.evicted().0.files.len() == s.files.len(),
        s.evicted().0.files[file as int].present.contains(b),
        s.evicted().0.residency.pins == s.residency.pins,
    decreases s.residency.probation.len() + s.residency.protected.len(),
{
    let r = s.residency;
    law_a_pinned_block_is_never_a_victim(r);
    match r.victim() {
        Some(key) => {
            lemma_dropped(r, key);
            if r.over_limit() {
                lemma_without_block(s, key);
                law_eviction_keeps_what_is_held(s.without_block(key), file, b);
            }
        },
        None => {},
    }
}

/// A block that was fetched once is known for one for good: landing marks it,
/// and evicting it forgets its bytes but not that.
pub proof fn law_a_fetch_is_remembered(s: StoreView, file: u32, block: u64, i: int)
    requires
        s.wf(),
        file < s.files.len(),
        0 <= i < s.files.len(),
    ensures
        s.landed(file, block).files[i].ever == (if i == file && !s.files[i].present.contains(block) {
            s.files[i].ever.insert(block)
        } else {
            s.files[i].ever
        }),
        s.evicted().0.files.len() == s.files.len(),
        s.evicted().0.files[i].ever == s.files[i].ever,
    decreases s.residency.probation.len() + s.residency.protected.len(),
{
    let r = s.residency;
    law_a_pinned_block_is_never_a_victim(r);
    match r.victim() {
        Some(key) => {
            lemma_dropped(r, key);
            if r.over_limit() {
                lemma_without_block(s, key);
                law_a_fetch_is_remembered(s.without_block(key), file, block, i);
            }
        },
        None => {},
    }
}

// ---------------------------------------------------------------------------
// Ranges
// ---------------------------------------------------------------------------
/// The first and last byte of a run of blocks.
pub open spec fn byte_range(total: u64, from: u64, to: u64) -> (int, int) {
    (
        from * BLOCK,
        (if (to + 1) * BLOCK < total {
            (to + 1) * BLOCK
        } else {
            total as int
        }) - 1,
    )
}

/// The first and last byte of a run of blocks.
pub fn run_range(total: u64, from: u64, to: u64) -> (res: (u64, u64))
    requires
        from <= to,
        to * BLOCK < total,
    ensures
        res.0 == byte_range(total, from, to).0,
        res.1 == byte_range(total, from, to).1,
        res.0 <= res.1,
{
    assert(from * BLOCK <= to * BLOCK) by (nonlinear_arith)
        requires
            from <= to,
    ;
    assert((to + 1) * BLOCK == to * BLOCK + BLOCK) by (nonlinear_arith);
    let start: u64 = from * BLOCK;
    let tail: u64 = to * BLOCK;
    let end: u64 = if total - tail > BLOCK {
        tail + (BLOCK - 1)
    } else {
        total - 1
    };
    (start, end)
}

/// Whether a fetched run has the length it was asked for.
pub fn check_run(start: u64, end: u64, got: u64) -> (res: Result<(), GfsError>)
    requires
        start <= end,
        end - start < u64::MAX,
    ensures
        res is Ok <==> got == end - start + 1,
        res matches Err(e) ==> e.reads(
            ErrorCode::Internal,
            "short odb range: wanted "@ + decimal((end - start + 1) as nat) + " got "@ + decimal(
                got as nat,
            ),
        ),
{
    let wanted: u64 = end - start + 1;
    if got != wanted {
        let mut message = "short odb range: wanted ".to_owned();
        push_decimal(&mut message, wanted);
        message.append(" got ");
        push_decimal(&mut message, got);
        return Err(GfsError::of(ErrorCode::Internal, message));
    }
    Ok(())
}

} // verus!
