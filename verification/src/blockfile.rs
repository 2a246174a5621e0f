//! The bytes behind the block store: what a whole read gives.
//!
//! A block file is as long as the file it stands for and holds its bytes where
//! a block is present. The store plans, the driver writes what it fetched at
//! its own offset and deallocates what the store gave up, and the answer is
//! read out of the block file.
use vstd::prelude::*;
use crate::odb::{
    absent_runs, block_len, blocks_in, byte_range, file_index, fresh_files, held, in_runs,
    law_a_repeated_read_fetches_nothing, law_hits_and_fetches_add_up,
    law_runs_are_the_absent_blocks, lemma_held, lemma_landed, lemma_pin_count, lemma_released,
    lemma_runs_start, lemma_without_block, plan_outcome, released, span, FileView, Hole, OdbFile,
    ReadPlan, StoreView, BLOCK,
};
use crate::residency::{
    lemma_dropped, lemma_lists_place, law_a_pinned_block_is_never_a_victim, place_of, total, without,
    Block, BlockKey, ResidencyView,
};

verus! {

/// Bytes with some of them written over from `start` on.
pub open spec fn written(bytes: Seq<u8>, start: int, new: Seq<u8>) -> Seq<u8> {
    Seq::new(
        bytes.len(),
        |p: int|
            if start <= p < start + new.len() {
                new[p - start]
            } else {
                bytes[p]
            },
    )
}

/// Bytes with a range deallocated, which reads as zeroes.
pub open spec fn punched(bytes: Seq<u8>, start: int, len: int) -> Seq<u8> {
    Seq::new(
        bytes.len(),
        |p: int|
            if start <= p < start + len {
                0u8
            } else {
                bytes[p]
            },
    )
}

/// The block files after one hole.
pub open spec fn with_hole(disk: Seq<Seq<u8>>, hole: Hole) -> Seq<Seq<u8>> {
    disk.update(
        hole.file as int,
        punched(disk[hole.file as int], hole.offset as int, hole.len as int),
    )
}

/// The block files after holes, in order.
pub open spec fn with_holes(disk: Seq<Seq<u8>>, holes: Seq<Hole>) -> Seq<Seq<u8>>
    decreases holes.len(),
{
    if holes.len() == 0 {
        disk
    } else {
        with_holes(with_hole(disk, holes[0]), holes.skip(1))
    }
}

/// No queued block is longer than a block.
pub open spec fn short(r: ResidencyView) -> bool {
    all_short(r.probation) && all_short(r.protected)
}

/// No block of a list is longer than a block.
pub open spec fn all_short(list: Seq<Block>) -> bool {
    forall|i: int| 0 <= i < list.len() ==> (#[trigger] list[i]).len <= BLOCK
}

/// The block a byte lies in.
pub open spec fn block_of(p: int) -> u64 {
    (p / (BLOCK as int)) as u64
}

/// The block files are as long as the files they stand for and hold their
/// bytes wherever the store says that a block is present.
pub open spec fn truthful(s: StoreView, disk: Seq<Seq<u8>>, contents: Seq<Seq<u8>>) -> bool {
    &&& disk.len() == s.files.len()
    &&& contents.len() == s.files.len()
    &&& forall|f: int|
        0 <= f < s.files.len() ==> (#[trigger] disk[f]).len() == s.files[f].size
            && contents[f].len() == s.files[f].size
    &&& forall|f: int, p: int|
        0 <= f < s.files.len() && 0 <= p < s.files[f].size && s.files[f].present.contains(
            block_of(p),
        ) ==> #[trigger] disk[f][p] == contents[f][p]
    &&& short(s.residency)
}

/// The store and its block files after one run was fetched from a source that
/// answers with the file's bytes, written at its offset and recorded, and what
/// was given up deallocated.
pub open spec fn fetched(
    s: StoreView,
    disk: Seq<Seq<u8>>,
    contents: Seq<Seq<u8>>,
    file: u32,
    run: (u64, u64),
) -> (StoreView, Seq<Seq<u8>>) {
    let f = file as int;
    let range = byte_range(s.files[f].size, run.0, run.1);
    let bytes = contents[f].subrange(range.0, range.1 + 1);
    let on_disk = disk.update(f, written(disk[f], range.0, bytes));
    let after = s.recorded(file, run.0, run.1, bytes.len() as u64);
    (after.0, with_holes(on_disk, after.1))
}

/// The same, after runs, in order.
pub open spec fn all_fetched(
    s: StoreView,
    disk: Seq<Seq<u8>>,
    contents: Seq<Seq<u8>>,
    file: u32,
    runs: Seq<(u64, u64)>,
) -> (StoreView, Seq<Seq<u8>>)
    decreases runs.len(),
{
    if runs.len() == 0 {
        (s, disk)
    } else {
        let after = fetched(s, disk, contents, file, runs[0]);
        all_fetched(after.0, after.1, contents, file, runs.skip(1))
    }
}

/// The store after a read let go of its blocks.
pub open spec fn finished(s: StoreView, plan: ReadPlan) -> StoreView {
    StoreView {
        residency: released(s.residency, plan.file, plan.first, span(plan.first, plan.last)),
        ..s
    }
}

// ---------------------------------------------------------------------------
// Lengths in the books
// ---------------------------------------------------------------------------
proof fn lemma_short_without(list: Seq<Block>, key: BlockKey)
    requires
        all_short(list),
    ensures
        all_short(without(list, key)),
{
    let at = place_of(list, key, 0) as int;
    lemma_lists_place(list, key);
    let rest = without(list, key);
    assert forall|i: int| 0 <= i < rest.len() implies (#[trigger] rest[i]).len <= BLOCK by {
        if at < list.len() && i >= at {
            assert(rest[i] == list[i + 1]);
        } else {
            assert(rest[i] == list[i]);
        }
    }
}

proof fn lemma_short_dropped(r: ResidencyView, key: BlockKey)
    requires
        short(r),
    ensures
        short(r.dropped(key)),
        r.resident(key) ==> r.block(key).len <= BLOCK,
{
    lemma_short_without(r.probation, key);
    lemma_short_without(r.protected, key);
    lemma_lists_place(r.probation, key);
    lemma_lists_place(r.protected, key);
}

proof fn lemma_short_demoted(r: ResidencyView)
    requires
        short(r),
    ensures
        short(r.demoted()),
    decreases r.protected.len(),
{
    if r.protected.len() > 0 && total(r.protected) > r.limit / 2 {
        let next = ResidencyView {
            probation: r.probation.push(r.protected[0]),
            protected: r.protected.skip(1),
            ..r
        };
        assert forall|i: int| 0 <= i < next.protected.len() implies (
        #[trigger] next.protected[i]).len <= BLOCK by {
            assert(next.protected[i] == r.protected[i + 1]);
        }
        lemma_short_demoted(next);
    }
}

proof fn lemma_short_held(r: ResidencyView, present: Set<u64>, file: u32, first: u64, n: nat)
    requires
        short(r),
    ensures
        short(held(r, present, file, first, n)),
    decreases n,
{
    if n > 0 {
        lemma_short_held(r, present, file, first, (n - 1) as nat);
        let block = (first + n - 1) as u64;
        let p = held(r, present, file, first, (n - 1) as nat).pinned((file, block));
        if present.contains(block) && p.limit != 0 && p.resident((file, block)) {
            lemma_short_dropped(p, (file, block));
            let d = p.dropped((file, block));
            lemma_short_demoted(
                ResidencyView { protected: d.protected.push(p.block((file, block))), ..d },
            );
        }
    }
}

// ---------------------------------------------------------------------------
// One run
// ---------------------------------------------------------------------------
/// What landing a run changes of the store.
proof fn lemma_landed_run(s: StoreView, file: u32, from: u64, n: nat)
    requires
        s.wf(),
        file < s.files.len(),
        from + n <= u64::MAX,
        n > 0 ==> (from + n - 1) * BLOCK < s.files[file as int].size,
    ensures
        ({
            let t = s.landed_run(file, from, n);
            &&& t.wf()
            &&& t.files.len() == s.files.len()
            &&& t.residency.pins == s.residency.pins
            &&& t.residency.limit == s.residency.limit
            &&& forall|f: int|
                0 <= f < s.files.len() ==> (#[trigger] t.files[f]).size == s.files[f].size
                    && t.files[f].path == s.files[f].path
            &&& forall|f: int, b: u64|
                0 <= f < s.files.len() ==> (#[trigger] t.files[f].present.contains(b) <==> (
                s.files[f].present.contains(b) || (f == file && from <= b < from + n)))
        }),
    decreases n,
{
    if n > 0 {
        let m = (n - 1) as nat;
        if m > 0 {
            assert((from + m - 1) * BLOCK <= (from + n - 1) * BLOCK) by (nonlinear_arith)
                requires
                    m == n - 1,
            ;
        }
        lemma_landed_run(s, file, from, m);
        lemma_landed(s.landed_run(file, from, m), file, (from + n - 1) as u64);
    }
}

proof fn lemma_short_landed(s: StoreView, file: u32, from: u64, n: nat)
    requires
        s.wf(),
        short(s.residency),
        file < s.files.len(),
        from + n <= u64::MAX,
        n > 0 ==> (from + n - 1) * BLOCK < s.files[file as int].size,
    ensures
        short(s.landed_run(file, from, n).residency),
    decreases n,
{
    if n > 0 {
        let m = (n - 1) as nat;
        if m > 0 {
            assert((from + m - 1) * BLOCK <= (from + n - 1) * BLOCK) by (nonlinear_arith)
                requires
                    m == n - 1,
            ;
        }
        lemma_short_landed(s, file, from, m);
        lemma_landed_run(s, file, from, m);
        let t = s.landed_run(file, from, m);
        let block = (from + n - 1) as u64;
        lemma_short_dropped(t.residency, (file, block));
        assert(block_len(t.files[file as int].size, block) <= BLOCK);
    }
}

/// Evicting keeps the block files truthful once the holes are punched, and
/// keeps what a read holds.
proof fn lemma_evicted(s: StoreView, disk: Seq<Seq<u8>>, contents: Seq<Seq<u8>>)
    requires
        s.wf(),
        truthful(s, disk, contents),
    ensures
        ({
            let t = s.evicted().0;
            &&& t.wf()
            &&& truthful(t, with_holes(disk, s.evicted().1), contents)
            &&& t.files.len() == s.files.len()
            &&& t.residency.pins == s.residency.pins
            &&& t.residency.limit == s.residency.limit
            &&& forall|f: int|
                0 <= f < s.files.len() ==> (#[trigger] t.files[f]).size == s.files[f].size
                    && t.files[f].path == s.files[f].path
            &&& forall|f: int, b: u64|
                0 <= f < s.files.len() && s.files[f].present.contains(b) && (
                s.residency.pins.count((f as u32, b)) > 0 || s.residency.limit == 0)
                    ==> #[trigger] t.files[f].present.contains(b)
        }),
    decreases s.residency.probation.len() + s.residency.protected.len(),
{
    let r = s.residency;
    law_a_pinned_block_is_never_a_victim(r);
    match r.victim() {
        Some(key) => {
            lemma_dropped(r, key);
            if r.over_limit() {
                lemma_without_block(s, key);
                lemma_short_dropped(r, key);
                let next = s.without_block(key);
                let hole = s.hole_of(key);
                let d = with_hole(disk, hole);
                assert(key.1 * BLOCK < s.files[key.0 as int].size);
                assert(hole.offset == key.1 * BLOCK);
                assert forall|f: int, p: int|
                    0 <= f < next.files.len() && 0 <= p < next.files[f].size
                        && next.files[f].present.contains(block_of(p)) implies #[trigger] d[f][p]
                    == contents[f][p] by {
                    assert(s.files[f].present.contains(block_of(p)));
                    assert(disk[f][p] == contents[f][p]);
                    if f == key.0 {
                        assert(block_of(p) != key.1);
                        assert(p / (BLOCK as int) <= p);
                        assert(!(hole.offset <= p < hole.offset + hole.len));
                    }
                }
                assert forall|f: int| 0 <= f < next.files.len() implies (#[trigger] d[f]).len()
                    == next.files[f].size && contents[f].len() == next.files[f].size by {
                    assert(disk[f].len() == s.files[f].size);
                }
                lemma_evicted(next, d, contents);
                let rest = next.evicted();
                let all = s.evicted();
                assert(all.1 =~= seq![hole] + rest.1);
                assert(all.1.skip(1) =~= rest.1);
                assert(with_holes(disk, all.1) == with_holes(d, rest.1));
                let t = all.0;
                assert forall|f: int, b: u64|
                    0 <= f < s.files.len() && s.files[f].present.contains(b) && (r.pins.count(
                        (f as u32, b),
                    ) > 0 || r.limit == 0) implies #[trigger] t.files[f].present.contains(b) by {
                    assert((f as u32, b) != key);
                    assert(next.files[f].present.contains(b));
                }
                assert forall|f: int| 0 <= f < s.files.len() implies (#[trigger] t.files[f]).size
                    == s.files[f].size && t.files[f].path == s.files[f].path by {
                    assert(next.files[f].size == s.files[f].size);
                }
            }
        },
        None => {},
    }
}

/// What fetching a run does to a store and its block files.
proof fn lemma_fetched(
    s: StoreView,
    disk: Seq<Seq<u8>>,
    contents: Seq<Seq<u8>>,
    file: u32,
    run: (u64, u64),
)
    requires
        s.wf(),
        truthful(s, disk, contents),
        file < s.files.len(),
        run.0 <= run.1,
        run.1 * BLOCK < s.files[file as int].size,
    ensures
        ({
            let (t, d) = fetched(s, disk, contents, file, run);
            &&& t.wf()
            &&& truthful(t, d, contents)
            &&& t.files.len() == s.files.len()
            &&& t.residency.pins == s.residency.pins
            &&& t.residency.limit == s.residency.limit
            &&& forall|f: int|
                0 <= f < s.files.len() ==> (#[trigger] t.files[f]).size == s.files[f].size
                    && t.files[f].path == s.files[f].path
            &&& forall|f: int, b: u64|
                0 <= f < s.files.len() && (s.files[f].present.contains(b) || (f == file && run.0 <= b
                    <= run.1)) && (s.residency.pins.count((f as u32, b)) > 0 || s.residency.limit
                    == 0) ==> #[trigger] t.files[f].present.contains(b)
        }),
{
    let f0 = file as int;
    let size = s.files[f0].size;
    let n = (run.1 - run.0 + 1) as nat;
    let range = byte_range(size, run.0, run.1);
    assert(run.0 * BLOCK <= run.1 * BLOCK) by (nonlinear_arith)
        requires
            run.0 <= run.1,
    ;
    let bytes = contents[f0].subrange(range.0, range.1 + 1);
    assert(disk[f0].len() == size);
    let d0 = disk.update(f0, written(disk[f0], range.0, bytes));
    lemma_landed_run(s, file, run.0, n);
    lemma_short_landed(s, file, run.0, n);
    let c = s.counted(file, run.0, run.1, bytes.len() as u64);
    let landed = s.landed_run(file, run.0, n);
    assert(c.files == landed.files && c.residency == landed.residency);
    assert(c.wf());
    assert(truthful(c, d0, contents)) by {
        assert forall|f: int| 0 <= f < c.files.len() implies (#[trigger] d0[f]).len()
            == c.files[f].size && contents[f].len() == c.files[f].size by {
            assert(disk[f].len() == s.files[f].size);
            assert(c.files[f].size == s.files[f].size);
        }
        assert forall|f: int, p: int|
            0 <= f < c.files.len() && 0 <= p < c.files[f].size && c.files[f].present.contains(
                block_of(p),
            ) implies #[trigger] d0[f][p] == contents[f][p] by {
            let b = block_of(p);
            assert(c.files[f].size == s.files[f].size);
            assert(p / (BLOCK as int) <= p);
            assert(c.files[f].present.contains(b));
            if f == file && range.0 <= p <= range.1 {
                assert(d0[f][p] == bytes[p - range.0]);
            } else {
                if !s.files[f].present.contains(b) {
                    assert(f == file && run.0 <= b <= run.1);
                    assert(run.0 * BLOCK <= b * BLOCK && (b + 1) * BLOCK <= (run.1 + 1) * BLOCK)
                        by (nonlinear_arith)
                        requires
                            run.0 <= b <= run.1,
                    ;
                    assert(b * BLOCK <= p < (b + 1) * BLOCK);
                    assert(false);
                }
                assert(disk[f][p] == contents[f][p]);
            }
        }
    }
    lemma_evicted(c, d0, contents);
    let t = c.evicted().0;
    assert forall|f: int, b: u64|
        0 <= f < s.files.len() && (s.files[f].present.contains(b) || (f == file && run.0 <= b
            <= run.1)) && (s.residency.pins.count((f as u32, b)) > 0 || s.residency.limit
            == 0) implies #[trigger] t.files[f].present.contains(b) by {
        assert(c.files[f].present.contains(b));
    }
    assert forall|f: int| 0 <= f < s.files.len() implies (#[trigger] t.files[f]).size
        == s.files[f].size && t.files[f].path == s.files[f].path by {
        assert(c.files[f].size == s.files[f].size);
    }
}

// ---------------------------------------------------------------------------
// A whole read
// ---------------------------------------------------------------------------
proof fn lemma_all_fetched(
    s: StoreView,
    disk: Seq<Seq<u8>>,
    contents: Seq<Seq<u8>>,
    file: u32,
    runs: Seq<(u64, u64)>,
    first: u64,
    last: u64,
)
    requires
        s.wf(),
        truthful(s, disk, contents),
        file < s.files.len(),
        first <= last ==> last * BLOCK < s.files[file as int].size,
        forall|i: int|
            0 <= i < runs.len() ==> first <= (#[trigger] runs[i]).0 <= runs[i].1 <= last,
        forall|b: u64| first <= b <= last ==> #[trigger] s.residency.pins.count((file, b)) > 0,
    ensures
        ({
            let (t, d) = all_fetched(s, disk, contents, file, runs);
            &&& t.wf()
            &&& truthful(t, d, contents)
            &&& t.files.len() == s.files.len()
            &&& t.residency.limit == s.residency.limit
            &&& forall|f: int|
                0 <= f < s.files.len() ==> (#[trigger] t.files[f]).size == s.files[f].size
                    && t.files[f].path == s.files[f].path
            &&& forall|b: u64|
                first <= b <= last && (s.files[file as int].present.contains(b) || in_runs(
                    runs,
                    b as int,
                )) ==> #[trigger] t.files[file as int].present.contains(b)
        }),
    decreases runs.len(),
{
    if runs.len() > 0 {
        let run = runs[0];
        assert(run.1 * BLOCK <= last * BLOCK) by (nonlinear_arith)
            requires
                run.1 <= last,
        ;
        lemma_fetched(s, disk, contents, file, run);
        let (m, e) = fetched(s, disk, contents, file, run);
        let rest = runs.skip(1);
        assert forall|i: int| 0 <= i < rest.len() implies first <= (#[trigger] rest[i]).0
            <= rest[i].1 <= last by {
            assert(rest[i] == runs[i + 1]);
        }
        assert(m.files[file as int].size == s.files[file as int].size);
        lemma_all_fetched(m, e, contents, file, rest, first, last);
        let t = all_fetched(s, disk, contents, file, runs).0;
        assert forall|b: u64|
            first <= b <= last && (s.files[file as int].present.contains(b) || in_runs(
                runs,
                b as int,
            )) implies #[trigger] t.files[file as int].present.contains(b) by {
            assert(s.residency.pins.count((file, b)) > 0);
            if !s.files[file as int].present.contains(b) && !(run.0 <= b <= run.1) {
                let i = choose|i: int|
                    0 <= i < runs.len() && (#[trigger] runs[i]).0 <= b <= runs[i].1;
                assert(rest[i - 1] == runs[i]);
                assert(in_runs(rest, b as int));
            } else {
                assert(m.files[file as int].present.contains(b));
            }
        }
        assert forall|f: int| 0 <= f < s.files.len() implies (#[trigger] t.files[f]).size
            == s.files[f].size && t.files[f].path == s.files[f].path by {
            assert(m.files[f].size == s.files[f].size);
        }
    }
}

proof fn lemma_listed(s: StoreView, path: Seq<char>, n: nat)
    requires
        n <= s.files.len(),
    ensures
        file_index(s.files, path, n) matches Some(i) ==> i < n && s.files[i as int].path == path,
    decreases n,
{
    if n > 0 && s.files[n - 1].path != path {
        lemma_listed(s, path, (n - 1) as nat);
    }
}

/// A read gives the file's own bytes. Where the block files are truthful and
/// every range request is answered with the file's bytes, then once the runs of
/// a plan were fetched the block file holds the file's bytes from the offset to
/// the end of the answer, the block files are truthful still, and the blocks
/// that were hits and those that were fetched add up to those the range
/// touches, whatever the limit on resident bytes.
pub proof fn law_a_read_gives_the_bytes(
    s: StoreView,
    t: StoreView,
    disk: Seq<Seq<u8>>,
    contents: Seq<Seq<u8>>,
    path: Seq<char>,
    offset: u64,
    size: u32,
    plan: ReadPlan,
)
    requires
        s.wf(),
        truthful(s, disk, contents),
        plan_outcome(s, t, path, offset, size, Ok(Some(plan))),
    ensures
        ({
            let (u, d) = all_fetched(t, disk, contents, plan.file, plan.runs@);
            let f = plan.file as int;
            &&& plan.file < s.files.len()
            &&& s.files[f].path == path
            &&& offset < contents[f].len()
            &&& plan.end == (if offset + size < contents[f].len() {
                (offset + size) as int
            } else {
                contents[f].len() as int
            })
            &&& d[f].subrange(offset as int, plan.end as int) == contents[f].subrange(
                offset as int,
                plan.end as int,
            )
            &&& plan.block_hits + blocks_in(plan.runs@) == span(plan.first, plan.last)
            &&& u.wf()
            &&& truthful(u, d, contents)
            &&& u.files.len() == s.files.len()
            &&& forall|g: int|
                0 <= g < s.files.len() ==> (#[trigger] u.files[g]).size == s.files[g].size
                    && u.files[g].path == s.files[g].path
            &&& u.residency.limit == s.residency.limit
            &&& forall|b: u64|
                plan.first <= b <= plan.last ==> #[trigger] u.files[f].present.contains(b)
        }),
{
    let i = file_index(s.files, path, s.files.len())->0;
    lemma_listed(s, path, s.files.len());
    let f = i as int;
    let file = plan.file;
    let present = s.files[f].present;
    let (first, last) = (plan.first, plan.last);
    let n = span(first, last);
    assert(disk[f].len() == s.files[f].size);
    assert(last < u64::MAX);
    assert(first <= last ==> last * BLOCK < s.files[f].size);
    lemma_held(s.residency, present, file, first, n);
    lemma_short_held(s.residency, present, file, first, n);
    assert(t.files == s.files);
    assert forall|k: BlockKey| #[trigger] t.residency.resident(k) <==> s.residency.resident(k) by {}
    assert(t.wf());
    assert(truthful(t, disk, contents));
    assert forall|b: u64| first <= b <= last implies #[trigger] t.residency.pins.count((file, b)) > 0 by {
        lemma_pin_count(s.residency, present, file, first, n, (file, b));
    }
    lemma_runs_start(present, first as int, last as int);
    assert(plan.runs@ == absent_runs(present, first as int, last as int));
    lemma_all_fetched(t, disk, contents, file, plan.runs@, first, last);
    law_hits_and_fetches_add_up(present, first, last);
    let (u, d) = all_fetched(t, disk, contents, file, plan.runs@);
    assert forall|b: u64| first <= b <= last implies #[trigger] u.files[f].present.contains(b) by {
        law_runs_are_the_absent_blocks(present, first as int, last as int, b as int);
    }
    assert(d[f].len() == u.files[f].size);
    assert(u.files[f].size == s.files[f].size);
    assert forall|p: int| offset <= p < plan.end implies #[trigger] d[f][p] == contents[f][p] by {
        assert(first <= p / (BLOCK as int) <= last);
        assert(u.files[f].present.contains(block_of(p)));
    }
    assert(d[f].subrange(offset as int, plan.end as int) =~= contents[f].subrange(
        offset as int,
        plan.end as int,
    ));
}

/// A store starts out truthful, whatever the block files hold, since no block
/// is present; and it stays so when a read lets go of its blocks.
pub proof fn law_a_store_starts_and_stays_truthful(
    manifest: Seq<OdbFile>,
    s: StoreView,
    disk: Seq<Seq<u8>>,
    contents: Seq<Seq<u8>>,
    plan: ReadPlan,
)
    requires
        disk.len() == s.files.len() == contents.len(),
        forall|f: int|
            0 <= f < s.files.len() ==> (#[trigger] disk[f]).len() == s.files[f].size
                && contents[f].len() == s.files[f].size,
    ensures
        s.files == fresh_files(manifest) && (forall|k: BlockKey| !(#[trigger] s.residency.resident(k)))
            ==> truthful(s, disk, contents),
        truthful(s, disk, contents) ==> truthful(finished(s, plan), disk, contents),
{
    if forall|k: BlockKey| !(#[trigger] s.residency.resident(k)) {
        let r = s.residency;
        if r.probation.len() > 0 {
            assert(r.probation[0].key() == r.probation[0].key());
            assert(r.resident(r.probation[0].key()));
        }
        if r.protected.len() > 0 {
            assert(r.resident(r.protected[0].key()));
        }
    }
    lemma_released(s.residency, plan.file, plan.first, span(plan.first, plan.last));
}

/// The same read again fetches nothing and gives the same bytes: every block it
/// touches is a hit.
pub proof fn law_the_same_read_again_fetches_nothing(
    s: StoreView,
    t: StoreView,
    disk: Seq<Seq<u8>>,
    contents: Seq<Seq<u8>>,
    path: Seq<char>,
    offset: u64,
    size: u32,
    plan: ReadPlan,
    t2: StoreView,
    again: ReadPlan,
)
    requires
        s.wf(),
        truthful(s, disk, contents),
        plan_outcome(s, t, path, offset, size, Ok(Some(plan))),
        plan_outcome(
            finished(all_fetched(t, disk, contents, plan.file, plan.runs@).0, plan),
            t2,
            path,
            offset,
            size,
            Ok(Some(again)),
        ),
    ensures
        again.file == plan.file,
        again.end == plan.end,
        again.runs@.len() == 0,
        again.block_hits == span(plan.first, plan.last),
{
    law_a_read_gives_the_bytes(s, t, disk, contents, path, offset, size, plan);
    let u = all_fetched(t, disk, contents, plan.file, plan.runs@).0;
    let f = plan.file as int;
    lemma_same_index(s.files, u.files, path, s.files.len());
    law_a_repeated_read_fetches_nothing(u.files[f].present, plan.first, plan.last);
}

proof fn lemma_same_index(a: Seq<FileView>, b: Seq<FileView>, path: Seq<char>, n: nat)
    requires
        n <= a.len() == b.len(),
        forall|f: int| 0 <= f < a.len() ==> (#[trigger] b[f]).path == a[f].path,
    ensures
        file_index(b, path, n) == file_index(a, path, n),
    decreases n,
{
    if n > 0 {
        lemma_same_index(a, b, path, (n - 1) as nat);
        assert(b[n - 1].path == a[n - 1].path);
    }
}

/// A store without a limit gives nothing up: what is there stays, whatever is
/// fetched.
pub proof fn law_without_a_limit_nothing_is_given_up(
    s: StoreView,
    disk: Seq<Seq<u8>>,
    contents: Seq<Seq<u8>>,
    file: u32,
    run: (u64, u64),
    other: int,
    b: u64,
)
    requires
        s.wf(),
        s.residency.limit == 0,
        truthful(s, disk, contents),
        file < s.files.len(),
        run.0 <= run.1,
        run.1 * BLOCK < s.files[file as int].size,
        0 <= other < s.files.len(),
        s.files[other].present.contains(b),
    ensures
        fetched(s, disk, contents, file, run).0.files[other].present.contains(b),
        fetched(s, disk, contents, file, run).0.residency.limit == 0,
{
    lemma_fetched(s, disk, contents, file, run);
}

} // verus!
