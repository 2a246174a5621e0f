use gfs::error::ErrorCode;
use gfs::odb::{
    bit_clear, bit_get, bit_set, check_run, run_range, BlockStore, OdbFile, ReadCost, ViewCounters, BLOCK,
};
use gfs::residency::Residency;

#[test]
fn a_one_pass_scan_cannot_flush_the_reread_working_set() {
    let mut r = Residency::new(10 * BLOCK);
    // A working set of three blocks, re-read so it is promoted to protected.
    for block in 0..3 {
        r.admit_block((0, block), BLOCK);
        r.touch((0, block));
    }
    // A scan far larger than the limit sweeps through, evicting as the store
    // would: take in, then evict to the limit. Single-touch blocks never
    // promote.
    for block in 0..100 {
        r.admit_block((1, block), BLOCK);
        while r.over_limit() {
            let victim = r.victim().expect("nothing is pinned");
            assert_eq!(victim.0, 1, "the scan may only flush itself");
            r.forget(victim);
        }
    }
    for block in 0..3 {
        assert!(r.is_resident((0, block)), "protected block {block} survived");
    }
}

#[test]
fn a_pinned_block_is_never_a_victim() {
    let mut r = Residency::new(BLOCK);
    r.admit_block((0, 0), BLOCK);
    r.pin((0, 0));
    r.admit_block((0, 1), BLOCK);
    // Over the limit, but the LRU block is pinned: the victim must be the
    // newer, unpinned one.
    assert_eq!(r.victim(), Some((0, 1)));
    r.unpin((0, 0));
    assert_eq!(r.victim(), Some((0, 0)));
}

fn store(limit: u64) -> BlockStore {
    BlockStore::open(
        &vec![OdbFile {
            path: "pack/p.pack".to_owned(),
            size: 3 * BLOCK + 5,
        }],
        limit,
    )
}

#[test]
fn a_read_fetches_the_absent_blocks_once() {
    let mut s = store(100 * BLOCK);
    let plan = s.plan_read("pack/p.pack", 10, BLOCK as u32).unwrap().unwrap();
    assert_eq!(plan.total, 3 * BLOCK + 5);
    assert_eq!((plan.first, plan.last), (0, 1));
    assert_eq!(plan.runs, vec![(0, 1)]);
    assert_eq!(plan.block_hits, 0);
    for (from, to) in &plan.runs {
        let (start, end) = run_range(plan.total, *from, *to);
        assert_eq!((start, end), (0, 2 * BLOCK - 1));
        check_run(start, end, end - start + 1).unwrap();
        let evicted = s.record_run(plan.file, *from, *to, end - start + 1);
        assert!(evicted.is_empty());
    }
    s.finish_read(plan.file, plan.first, plan.last);

    let again = s.plan_read("pack/p.pack", 0, 20).unwrap().unwrap();
    assert!(again.runs.is_empty());
    assert_eq!(again.block_hits, 1);
    s.finish_read(again.file, again.first, again.last);
    assert_eq!(s.stats().blocks_fetched, 2);
    assert_eq!(s.stats().resident_bytes, 2 * BLOCK);
}

#[test]
fn the_last_block_of_a_file_is_short() {
    let mut s = store(100 * BLOCK);
    let plan = s
        .plan_read("pack/p.pack", 3 * BLOCK, 4096)
        .unwrap()
        .unwrap();
    assert_eq!(plan.end, 3 * BLOCK + 5);
    assert_eq!(run_range(plan.total, 3, 3), (3 * BLOCK, 3 * BLOCK + 4));
    s.record_run(plan.file, 3, 3, 5);
    s.finish_read(plan.file, plan.first, plan.last);
    assert_eq!(s.stats().resident_bytes, 5);
}

#[test]
fn a_read_past_the_end_is_empty_and_an_unknown_file_is_an_error() {
    let mut s = store(0);
    assert!(s.plan_read("pack/p.pack", 4 * BLOCK, 10).unwrap().is_none());
    assert!(s.plan_read("pack/gone.pack", 0, 10).is_err());
    assert_eq!(s.listing(), vec![("pack/p.pack".to_owned(), 3 * BLOCK + 5)]);
}

#[test]
fn a_store_over_its_limit_gives_blocks_up() {
    let mut s = store(BLOCK);
    for block in 0..2u64 {
        let plan = s
            .plan_read("pack/p.pack", block * BLOCK, 1)
            .unwrap()
            .unwrap();
        let holes = s.record_run(plan.file, block, block, BLOCK);
        s.finish_read(plan.file, plan.first, plan.last);
        if block == 1 {
            assert_eq!(holes.len(), 1);
            assert_eq!((holes[0].offset, holes[0].len), (0, BLOCK));
        }
    }
    assert_eq!(s.stats().evicted_blocks, 1);
    assert_eq!(s.stats().resident_bytes, BLOCK);
}

#[test]
fn an_unbounded_store_keeps_no_account_of_residency() {
    let mut s = store(0);
    let plan = s.plan_read("pack/p.pack", 0, 1).unwrap().unwrap();
    assert!(s.record_run(plan.file, 0, 0, BLOCK).is_empty());
    s.finish_read(plan.file, plan.first, plan.last);
    assert_eq!(s.stats().resident_bytes, 0);
    assert_eq!(s.stats().blocks_fetched, 1);
}

#[test]
fn a_short_answer_is_refused() {
    let e = check_run(0, 9, 9).unwrap_err();
    assert_ne!(e.code, ErrorCode::NotFound);
    check_run(0, 9, 10).unwrap();
}

#[test]
fn the_cost_of_a_view_adds_up() {
    let mut c = ViewCounters::new();
    let cost = ReadCost {
        blocks_fetched: 1,
        bytes_fetched: BLOCK,
        block_hits: 2,
    };
    c.add(&cost);
    c.add(&cost);
    let total = c.snapshot();
    assert_eq!(
        (total.blocks_fetched, total.bytes_fetched, total.block_hits),
        (2, 2 * BLOCK, 4)
    );
}

#[test]
fn a_block_that_comes_back_counts_as_fetched_again() {
    let mut s = store(BLOCK);
    let mut refetched = Vec::new();
    for block in [0, 1, 0] {
        let plan = s.plan_read("pack/p.pack", block * BLOCK, 10).unwrap().unwrap();
        assert_eq!(plan.runs, vec![(block, block)]);
        s.record_run(plan.file, block, block, BLOCK);
        s.finish_read(plan.file, plan.first, plan.last);
        refetched.push(s.stats().refetched_blocks);
    }
    assert_eq!(refetched, [0, 0, 1]);
    assert_eq!(s.stats().refetched_bytes, BLOCK);
    assert_eq!(s.stats().evicted_blocks, 2);
}

#[test]
fn the_order_of_reads_makes_no_difference_to_a_view() {
    let cost = |n: u64| ReadCost {
        blocks_fetched: n,
        bytes_fetched: n * BLOCK,
        block_hits: 10 * n,
    };
    let counted = |order: [u64; 3]| {
        let mut c = ViewCounters::new();
        for n in order {
            c.add(&cost(n));
        }
        let s = c.snapshot();
        (s.blocks_fetched, s.bytes_fetched, s.block_hits)
    };
    assert_eq!(counted([1, 2, 3]), (6, 6 * BLOCK, 60));
    assert_eq!(counted([3, 1, 2]), counted([1, 2, 3]));
}

#[test]
fn hits_and_fetches_are_the_blocks_of_a_read() {
    let mut s = store(0);
    let plan = s.plan_read("pack/p.pack", BLOCK, 1).unwrap().unwrap();
    s.record_run(plan.file, 1, 1, BLOCK);
    s.finish_read(plan.file, plan.first, plan.last);

    let whole = s.plan_read("pack/p.pack", 0, 4 * BLOCK as u32).unwrap().unwrap();
    let fetched: u64 = whole.runs.iter().map(|(from, to)| to - from + 1).sum();
    assert_eq!(whole.block_hits, 1);
    assert_eq!(whole.block_hits + fetched, whole.last - whole.first + 1);
    for (from, to) in &whole.runs {
        let (start, end) = run_range(whole.total, *from, *to);
        s.record_run(whole.file, *from, *to, end - start + 1);
    }
    s.finish_read(whole.file, whole.first, whole.last);

    let again = s.plan_read("pack/p.pack", 0, 4 * BLOCK as u32).unwrap().unwrap();
    assert!(again.runs.is_empty(), "what was fetched is not fetched again");
    assert_eq!(again.block_hits, 4);
}

#[test]
fn an_empty_read_asks_for_the_file_and_for_nothing_of_it() {
    let mut s = store(0);
    assert!(s.plan_read("pack/p.pack", 0, 0).unwrap().is_none());
    assert!(s.plan_read("pack/p.pack", u64::MAX, 10).unwrap().is_none());
    assert!(s.plan_read("pack/gone.pack", 0, 0).is_err());
}

#[test]
fn one_bit_at_a_time() {
    let mut words = vec![0u64, u64::MAX];
    bit_set(&mut words, 5);
    assert!(bit_get(&words, 5) && !bit_get(&words, 4) && bit_get(&words, 64));
    bit_clear(&mut words, 5);
    bit_clear(&mut words, 127);
    assert_eq!(words, [0, u64::MAX >> 1]);
    // A bit beyond the words is never set.
    bit_set(&mut words, 128);
    assert!(!bit_get(&words, 128));
    assert_eq!(words.len(), 2);
}

#[test]
fn a_whole_read_gives_the_bytes_of_the_file() {
    let total = 3 * BLOCK + 5;
    let content: Vec<u8> = (0..total).map(|p| (p / 7) as u8).collect();
    // A limit of one block: a read gives up what those before it fetched.
    let mut s = store(BLOCK);
    let mut disk = vec![0u8; total as usize];
    let whole = 4 * BLOCK as u32;
    for (offset, size) in [(10, 20), (2 * BLOCK, 5), (BLOCK - 1, 2), (3 * BLOCK, 99), (0, whole)] {
        for again in [false, true] {
            let plan = s.plan_read("pack/p.pack", offset, size).unwrap().unwrap();
            assert!(!again || plan.runs.is_empty(), "the same read again fetches nothing");
            for (from, to) in &plan.runs {
                let (start, end) = run_range(plan.total, *from, *to);
                let (a, b) = (start as usize, end as usize + 1);
                disk[a..b].copy_from_slice(&content[a..b]);
                for hole in s.record_run(plan.file, *from, *to, end - start + 1) {
                    disk[hole.offset as usize..(hole.offset + hole.len) as usize].fill(0);
                }
            }
            let (a, b) = (offset as usize, plan.end as usize);
            assert_eq!(disk[a..b], content[a..b]);
            assert_eq!(plan.end, total.min(offset + u64::from(size)));
            s.finish_read(plan.file, plan.first, plan.last);
        }
    }
    assert!(s.stats().evicted_blocks > 0);
}
