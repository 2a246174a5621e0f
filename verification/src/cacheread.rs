//! What Git reads in the untracked cache and the fsmonitor extension of a
//! workspace's index.
use vstd::prelude::*;
use crate::bytes::{
    be32, be32_at, be64, has_prefix, lemma_concat_assoc, lemma_find_byte, lex_lt, zeros,
};
use crate::dirtree::{
    above, components, ignores, in_order, last_chain, law_directories_are_those_above_entries,
    lemma_components, made_of, parents, placed,
};
use crate::ewah::{
    ewah_bytes, ewah_expand, ewah_words, last_header, law_ewah_expands_to_the_words,
    law_plain_words_hold_the_bits, lemma_compressed_len, plain_words, words_bytes,
};
use crate::gitread::{lacks, lemma_extension, lemma_until, lemma_word, read_extension, until};
use crate::index::{
    index_body, index_outcome, law_recorded_entries_are_in_order, CacheTree, IndexEntry,
};
use crate::sorting::{
    lemma_sorted_lists_each_once, lemma_sorted_order, sorted_order, NameOrder,
};
use crate::text::utf8;
use crate::time::Timestamp;
use crate::varint::{varint, varint_prefix};
use crate::workspace::{
    all_recorded, blob_or_zeros, dir_names, dir_record, dir_records, extension, fsmn, fsmonitor_body,
    gitignore_name, ignore_blobs, ignore_flags, law_a_written_index_takes_the_caches,
    law_every_directory_is_recorded_once, lemma_child_of, lemma_sorted_child, lemma_tree_is_rooted,
    preorder, preorder_below, raw_entries, rooted, sorted_children, terminated, tree_of, uniform,
    untr, untracked_body, untracked_head, with_caches, DirView, RawEntry, WorkspaceCaches,
};

verus! {

// ---------------------------------------------------------------------------
// Numbers and bitmaps
// ---------------------------------------------------------------------------
/// The number that bytes start with, given what the bytes before them came to,
/// and the bytes behind it: a byte of 128 or more goes on and counts one more.
pub open spec fn read_varint(b: Seq<u8>, so_far: nat) -> Option<(nat, Seq<u8>)>
    decreases b.len(),
{
    if b.len() == 0 {
        None
    } else if b[0] < 128 {
        Some(((so_far * 128 + b[0]) as nat, b.skip(1)))
    } else {
        read_varint(b.skip(1), (so_far * 128 + (b[0] - 128) + 1) as nat)
    }
}

proof fn lemma_varint_prefix(v: nat, tail: Seq<u8>)
    ensures
        read_varint(varint_prefix(v) + tail, 0) == read_varint(tail, v),
    decreases v,
{
    if v == 0 {
        assert(varint_prefix(v) + tail =~= tail);
    } else {
        let w = ((v - 1) / 128) as nat;
        let x = (128 + (v - 1) % 128) as u8;
        let rest = seq![x] + tail;
        assert(varint_prefix(v) + tail =~= varint_prefix(w) + rest);
        lemma_varint_prefix(w, rest);
        assert(rest.skip(1) =~= tail);
        assert(w * 128 + (x - 128) + 1 == v);
    }
}

/// A number is read back.
pub proof fn lemma_varint(v: nat, tail: Seq<u8>)
    ensures
        read_varint(varint(v) + tail, 0) == Some((v, tail)),
{
    let x = (v % 128) as u8;
    let rest = seq![x] + tail;
    assert(varint(v) + tail =~= varint_prefix(v / 128) + rest);
    lemma_varint_prefix(v / 128, rest);
    assert(rest.skip(1) =~= tail);
}

/// The 64-bit word at `at`.
pub open spec fn be64_at(b: Seq<u8>, at: int) -> u64 {
    ((be32_at(b, at) as u64) << 32) | (be32_at(b, at + 4) as u64)
}

/// The first `n` words.
pub open spec fn read_words(b: Seq<u8>, n: nat) -> Seq<u64> {
    Seq::new(n, |k: int| be64_at(b, 8 * k))
}

proof fn lemma_words(words: Seq<u64>, tail: Seq<u8>)
    ensures
        words_bytes(words).len() == 8 * words.len(),
        read_words(words_bytes(words) + tail, words.len()) == words,
    decreases words.len(),
{
    let b = words_bytes(words) + tail;
    if words.len() > 0 {
        let w = words.last();
        let fewer = words.drop_last();
        let before = words_bytes(fewer);
        let hi = (w >> 32) as u32;
        let lo = w as u32;
        lemma_words(fewer, be64(w) + tail);
        assert(b =~= before + (be64(w) + tail));
        assert(b =~= before + be32(hi) + (be32(lo) + tail));
        assert(b =~= (before + be32(hi)) + be32(lo) + tail);
        lemma_word(before, hi, be32(lo) + tail);
        lemma_word(before + be32(hi), lo, tail);
        assert((((w >> 32) as u32) as u64) << 32 | ((w as u32) as u64) == w) by (bit_vector);
        assert forall|k: int| 0 <= k < words.len() implies read_words(b, words.len())[k]
            == words[k] by {
            if k < fewer.len() {
                assert(read_words(b, fewer.len())[k] == fewer[k]);
            }
        }
    }
    assert(read_words(b, words.len()) =~= words);
}

/// The bitmap that bytes start with and the bytes behind it: how many bits and
/// how many words there are, the compressed words, and one more word.
pub open spec fn read_bitmap(b: Seq<u8>) -> Option<(Seq<bool>, Seq<u8>)> {
    if b.len() < 8 || b.len() < 12 + 8 * be32_at(b, 4) {
        None
    } else {
        let bits = be32_at(b, 0) as nat;
        let n = be32_at(b, 4) as nat;
        let plain = ewah_expand(read_words(b.skip(8), n));
        Some(
            (
                Seq::new(bits, |i: int| (plain[i / 64] >> ((i % 64) as u64)) & 1 == 1),
                b.skip(12 + 8 * n as int),
            ),
        )
    }
}

/// A bitmap is read back.
pub proof fn lemma_bitmap(bits: Seq<bool>, tail: Seq<u8>)
    requires
        bits.len() <= 0xFFFF_FFFF,
    ensures
        read_bitmap(ewah_bytes(bits) + tail) == Some((bits, tail)),
{
    let plain = plain_words(bits);
    let words = ewah_words(plain, 0);
    let count = bits.len() as u32;
    let n = words.len() as u32;
    let last = be32(last_header(plain, 0, 0) as u32);
    let b = ewah_bytes(bits) + tail;
    let rest = last + tail;
    lemma_compressed_len(plain, 0);
    lemma_words(words, rest);
    law_ewah_expands_to_the_words(plain, 0);
    assert(plain.skip(0) =~= plain);
    assert(b =~= Seq::<u8>::empty() + be32(count) + (be32(n) + words_bytes(words) + rest));
    assert(b =~= be32(count) + be32(n) + (words_bytes(words) + rest));
    lemma_word(Seq::empty(), count, be32(n) + words_bytes(words) + rest);
    lemma_word(be32(count), n, words_bytes(words) + rest);
    assert(b.skip(8) =~= words_bytes(words) + rest);
    assert(b.skip(12 + 8 * n as int) =~= tail);
    let read = Seq::new(
        bits.len(),
        |i: int| (plain[i / 64] >> ((i % 64) as u64)) & 1 == 1,
    );
    assert forall|i: int| 0 <= i < bits.len() implies read[i] == bits[i] by {
        law_plain_words_hold_the_bits(bits, i);
    }
    assert(read =~= bits);
}

/// For each of the first `n` flags that is set, so many bytes, and the bytes
/// behind them all.
pub open spec fn read_fixed(b: Seq<u8>, flags: Seq<bool>, width: nat, n: nat) -> Option<
    (Seq<Option<Seq<u8>>>, Seq<u8>),
>
    decreases n,
{
    if n == 0 {
        Some((Seq::empty(), b))
    } else {
        match read_fixed(b, flags, width, (n - 1) as nat) {
            None => None,
            Some((read, rest)) => if !flags[n - 1] {
                Some((read.push(None), rest))
            } else if rest.len() < width {
                None
            } else {
                Some((read.push(Some(rest.take(width as int))), rest.skip(width as int)))
            },
        }
    }
}

// ---------------------------------------------------------------------------
// Directories of the untracked cache
// ---------------------------------------------------------------------------
/// A directory of the untracked cache as it is read.
#[verifier::ext_equal]
pub struct ReadDir {
    /// The components of its path.
    pub path: Seq<Seq<u8>>,
    /// The untracked names it was seen to hold.
    pub untracked: Seq<Seq<u8>>,
}

/// The first `n` terminated names, and the bytes behind them.
pub open spec fn read_names(b: Seq<u8>, n: nat) -> Option<(Seq<Seq<u8>>, Seq<u8>)>
    decreases n,
{
    if n == 0 {
        Some((Seq::empty(), b))
    } else {
        match read_names(b, (n - 1) as nat) {
            None => None,
            Some((names, rest)) => match until(rest, 0) {
                None => None,
                Some((name, behind)) => Some((names.push(name), behind)),
            },
        }
    }
}

/// The directory that bytes start with and all below it, at most `depth` deep,
/// each directory before its subdirectories, and the bytes behind them: how
/// many untracked names it holds, how many subdirectories, its own name, the
/// untracked names, and the subdirectories. The root has nothing above it.
pub open spec fn read_dir(b: Seq<u8>, over: Option<Seq<Seq<u8>>>, depth: nat) -> Option<
    (Seq<ReadDir>, Seq<u8>),
>
    decreases depth, 0nat,
{
    if depth == 0 {
        None
    } else {
        match read_varint(b, 0) {
            None => None,
            Some((untracked, b1)) => match read_varint(b1, 0) {
                None => None,
                Some((subdirs, b2)) => match until(b2, 0) {
                    None => None,
                    Some((name, b3)) => match read_names(b3, untracked) {
                        None => None,
                        Some((names, b4)) => {
                            let path = match over {
                                None => Seq::empty(),
                                Some(q) => q.push(name),
                            };
                            match read_dirs(b4, subdirs, path, (depth - 1) as nat) {
                                None => None,
                                Some((below, rest)) => Some(
                                    (seq![ReadDir { path, untracked: names }] + below, rest),
                                ),
                            }
                        },
                    },
                },
            },
        }
    }
}

/// The first `n` subdirectories of a directory and all below them.
pub open spec fn read_dirs(b: Seq<u8>, n: nat, over: Seq<Seq<u8>>, depth: nat) -> Option<
    (Seq<ReadDir>, Seq<u8>),
>
    decreases depth, n,
{
    if n == 0 {
        Some((Seq::empty(), b))
    } else {
        match read_dirs(b, (n - 1) as nat, over, depth) {
            None => None,
            Some((read, rest)) => match read_dir(rest, Some(over), depth) {
                None => None,
                Some((more, behind)) => Some((read + more, behind)),
            },
        }
    }
}

/// The records of directories in an order.
spec fn records(dirs: Seq<DirView>, order: Seq<int>) -> Seq<u8> {
    dir_records(dirs, order, order.len())
}

/// What directories in an order are read as.
spec fn read_in_order(ps: Seq<Seq<Seq<u8>>>, order: Seq<int>) -> Seq<ReadDir> {
    Seq::new(order.len(), |k: int| ReadDir { path: ps[order[k]], untracked: Seq::empty() })
}

proof fn lemma_records_prefix(dirs: Seq<DirView>, a: Seq<int>, b: Seq<int>, n: nat)
    requires
        n <= a.len(),
    ensures
        dir_records(dirs, a + b, n) == dir_records(dirs, a, n),
    decreases n,
{
    if n > 0 {
        lemma_records_prefix(dirs, a, b, (n - 1) as nat);
    }
}

proof fn lemma_records_sum(dirs: Seq<DirView>, a: Seq<int>, b: Seq<int>)
    ensures
        records(dirs, a + b) == records(dirs, a) + records(dirs, b),
    decreases b.len(),
{
    if b.len() == 0 {
        assert(a + b =~= a);
        assert(records(dirs, a) + records(dirs, b) =~= records(dirs, a));
    } else {
        let c = b.drop_last();
        let last = seq![b.last()];
        lemma_records_sum(dirs, a, c);
        lemma_records_prefix(dirs, a + c, last, (a + c).len());
        lemma_records_prefix(dirs, c, last, c.len());
        assert(a + b =~= (a + c) + last);
        assert(b =~= c + last);
        lemma_concat_assoc(records(dirs, a), records(dirs, c), dir_record(dirs[b.last()]));
    }
}

/// Whether directories can be told apart in their records: the paths are
/// theirs, and no name holds a zero byte.
spec fn legible_dirs(dirs: Seq<DirView>, ps: Seq<Seq<Seq<u8>>>) -> bool {
    &&& rooted(dirs)
    &&& ps.len() == dirs.len()
    &&& forall|v: int| 0 <= v < dirs.len() ==> lacks((#[trigger] dirs[v]).name, 0)
    &&& forall|d: int, i: int|
        0 <= d < ps.len() && 0 <= i < dirs[d].children.len() ==> ps[#[trigger] dirs[d].children[i]]
            == ps[d].push(dirs[dirs[d].children[i]].name)
}

proof fn lemma_dir_is_read(
    dirs: Seq<DirView>,
    ps: Seq<Seq<Seq<u8>>>,
    d: int,
    over: Option<Seq<Seq<u8>>>,
    tail: Seq<u8>,
    depth: nat,
)
    requires
        legible_dirs(dirs, ps),
        0 <= d < dirs.len(),
        ps[d] == (match over {
            None => Seq::empty(),
            Some(q) => q.push(dirs[d].name),
        }),
        depth >= dirs.len() - d,
    ensures
        read_dir(records(dirs, preorder(dirs, d)) + tail, over, depth) == Some(
            (read_in_order(ps, preorder(dirs, d)), tail),
        ),
    decreases dirs.len() - d, dirs[d].children.len() + 1,
{
    let n = dirs[d].children.len();
    let below = preorder_below(dirs, d, n);
    let order = preorder(dirs, d);
    let own = seq![d];
    lemma_records_sum(dirs, own, below);
    assert(records(dirs, own) =~= dir_record(dirs[d])) by {
        assert(dir_records(dirs, own, 0) =~= Seq::<u8>::empty());
        assert(dir_records(dirs, own, 1) =~= dir_record(dirs[d]));
    }
    let b4 = records(dirs, below) + tail;
    let b2 = dirs[d].name + seq![0u8] + b4;
    let b1 = varint(n) + b2;
    let b = records(dirs, order) + tail;
    assert(b =~= varint(0) + b1);
    lemma_varint(0, b1);
    lemma_varint(n, b2);
    lemma_until(dirs[d].name, 0, b4);
    lemma_dirs_are_read(dirs, ps, d, n, tail, (depth - 1) as nat);
    assert(read_in_order(ps, order) =~= seq![
        ReadDir { path: ps[d], untracked: Seq::empty() },
    ] + read_in_order(ps, below));
}

proof fn lemma_dirs_are_read(
    dirs: Seq<DirView>,
    ps: Seq<Seq<Seq<u8>>>,
    d: int,
    n: nat,
    tail: Seq<u8>,
    depth: nat,
)
    requires
        legible_dirs(dirs, ps),
        0 <= d < dirs.len(),
        n <= dirs[d].children.len(),
        depth >= dirs.len() - d - 1,
    ensures
        read_dirs(records(dirs, preorder_below(dirs, d, n)) + tail, n, ps[d], depth) == Some(
            (read_in_order(ps, preorder_below(dirs, d, n)), tail),
        ),
    decreases dirs.len() - d, n,
{
    if n == 0 {
        assert(records(dirs, preorder_below(dirs, d, n)) + tail =~= tail);
        assert(read_in_order(ps, preorder_below(dirs, d, n)) =~= Seq::<ReadDir>::empty());
    } else {
        let earlier = preorder_below(dirs, d, (n - 1) as nat);
        let c = sorted_children(dirs, d)[n - 1];
        lemma_sorted_child(dirs, d, n - 1);
        lemma_child_of(dirs, d, n - 1);
        let i = choose|i: int|
            0 <= i < dirs[d].children.len() && #[trigger] dirs[d].children[i] == c;
        assert(ps[c] == ps[d].push(dirs[c].name));
        let own = preorder(dirs, c);
        lemma_records_sum(dirs, earlier, own);
        let rest = records(dirs, own) + tail;
        lemma_concat_assoc(records(dirs, earlier), records(dirs, own), tail);
        lemma_dirs_are_read(dirs, ps, d, (n - 1) as nat, rest, depth);
        lemma_dir_is_read(dirs, ps, c, Some(ps[d]), tail, depth);
        assert(read_in_order(ps, preorder_below(dirs, d, n)) =~= read_in_order(ps, earlier)
            + read_in_order(ps, own));
    }
}

// ---------------------------------------------------------------------------
// The untracked cache
// ---------------------------------------------------------------------------
/// The untracked cache as it is read.
pub struct ReadUntracked {
    pub ident: Seq<u8>,
    pub dir_flags: u32,
    /// What the two global exclude files were on disk, and the digests of
    /// their content.
    pub stat: Seq<u8>,
    pub info_exclude: Seq<u8>,
    pub excludes_file: Seq<u8>,
    /// The name of the exclude file looked for in each directory.
    pub per_dir: Seq<u8>,
    pub dirs: Seq<ReadDir>,
    pub valid: Seq<bool>,
    pub check_only: Seq<bool>,
    /// What each valid directory was on disk.
    pub stats: Seq<Option<Seq<u8>>>,
    /// The digest of each directory's own exclude file, where it has one.
    pub ignores: Seq<Option<Seq<u8>>>,
}

/// What stands before the directories of an untracked cache, and the bytes
/// behind it.
pub open spec fn read_head(b: Seq<u8>) -> Option<(ReadUntracked, Seq<u8>)> {
    match read_varint(b, 0) {
        None => None,
        Some((len, b1)) => if b1.len() < len + 116 {
            None
        } else {
            let b2 = b1.skip(len as int);
            match until(b2.skip(116), 0) {
                None => None,
                Some((per_dir, b3)) => Some(
                    (
                        ReadUntracked {
                            ident: b1.take(len as int),
                            dir_flags: be32_at(b2, 72),
                            stat: b2.take(72),
                            info_exclude: b2.subrange(76, 96),
                            excludes_file: b2.subrange(96, 116),
                            per_dir,
                            dirs: Seq::empty(),
                            valid: Seq::empty(),
                            check_only: Seq::empty(),
                            stats: Seq::empty(),
                            ignores: Seq::empty(),
                        },
                        b3,
                    ),
                ),
            }
        },
    }
}

/// The three bitmaps behind the directories, the stat data of every valid
/// directory, the digests of the exclude files, and a closing zero.
pub open spec fn read_flags(head: ReadUntracked, dirs: Seq<ReadDir>, b: Seq<u8>) -> Option<
    ReadUntracked,
> {
    match read_bitmap(b) {
        None => None,
        Some((valid, b1)) => match read_bitmap(b1) {
            None => None,
            Some((check_only, b2)) => match read_bitmap(b2) {
                None => None,
                Some((hashed, b3)) => match read_fixed(b3, valid, 36, valid.len()) {
                    None => None,
                    Some((stats, b4)) => match read_fixed(b4, hashed, 20, hashed.len()) {
                        None => None,
                        Some((ignores, b5)) => if b5 != seq![0u8] {
                            None
                        } else {
                            Some(
                                ReadUntracked { dirs, valid, check_only, stats, ignores, ..head },
                            )
                        },
                    },
                },
            },
        },
    }
}

/// The untracked cache that a body holds.
pub open spec fn read_untracked(b: Seq<u8>) -> Option<ReadUntracked> {
    match read_head(b) {
        None => None,
        Some((head, b1)) => match read_varint(b1, 0) {
            None => None,
            Some((count, b2)) => match read_dir(b2, None, count) {
                None => None,
                Some((dirs, b3)) => if dirs.len() != count {
                    None
                } else {
                    read_flags(head, dirs, b3)
                },
            },
        },
    }
}

/// Whether the head of an untracked cache is that of the given caches.
pub open spec fn heads(u: ReadUntracked, caches: WorkspaceCaches) -> bool {
    &&& u.ident == utf8(caches.ident@).push(0)
    &&& u.dir_flags == caches.dir_flags
    &&& u.stat == zeros(72)
    &&& caches.info_exclude matches Some(id) ==> u.info_exclude == id@
    &&& caches.info_exclude is None ==> u.info_exclude == zeros(20)
    &&& caches.excludes_file matches Some(id) ==> u.excludes_file == id@
    &&& caches.excludes_file is None ==> u.excludes_file == zeros(20)
    &&& u.per_dir == seq![46u8, 103, 105, 116, 105, 103, 110, 111, 114, 101]
}

proof fn lemma_head_parts(
    ident: Seq<u8>,
    flags: u32,
    a: Seq<u8>,
    c: Seq<u8>,
    name: Seq<u8>,
    tail: Seq<u8>,
)
    requires
        a.len() == 20,
        c.len() == 20,
        lacks(name, 0),
    ensures
        ({
            let b2 = zeros(72) + be32(flags) + a + c + name + seq![0u8] + tail;
            &&& b2.len() >= 116
            &&& be32_at(b2, 72) == flags
            &&& b2.take(72) == zeros(72)
            &&& b2.subrange(76, 96) == a
            &&& b2.subrange(96, 116) == c
            &&& until(b2.skip(116), 0) == Some((name, tail))
            &&& (ident + seq![0u8] + b2).take(ident.len() as int + 1) == ident.push(0)
            &&& (ident + seq![0u8] + b2).skip(ident.len() as int + 1) == b2
        }),
{
    let b2 = zeros(72) + be32(flags) + a + c + name + seq![0u8] + tail;
    lemma_word(zeros(72), flags, a + c + name + seq![0u8] + tail);
    assert(b2 =~= zeros(72) + be32(flags) + (a + c + name + seq![0u8] + tail));
    assert(b2.take(72) =~= zeros(72));
    assert(b2.subrange(76, 96) =~= a);
    assert(b2.subrange(96, 116) =~= c);
    assert(b2.skip(116) =~= name + seq![0u8] + tail);
    lemma_until(name, 0, tail);
    assert((ident + seq![0u8] + b2).take(ident.len() as int + 1) =~= ident.push(0));
    assert((ident + seq![0u8] + b2).skip(ident.len() as int + 1) =~= b2);
}

proof fn lemma_head_is_read(caches: WorkspaceCaches, tail: Seq<u8>)
    ensures
        read_head(untracked_head(caches) + tail) matches Some((u, rest)) && heads(u, caches)
            && rest == tail,
{
    let ident = utf8(caches.ident@);
    let a = blob_or_zeros(caches.info_exclude);
    let c = blob_or_zeros(caches.excludes_file);
    let name = gitignore_name();
    let b2 = zeros(72) + be32(caches.dir_flags) + a + c + name + seq![0u8] + tail;
    let b1 = ident + seq![0u8] + b2;
    assert(untracked_head(caches) + tail =~= varint(ident.len() + 1) + b1);
    lemma_varint(ident.len() + 1, b1);
    lemma_head_parts(ident, caches.dir_flags, a, c, name, tail);
}

proof fn lemma_stats_are_read(count: nat, tail: Seq<u8>, n: nat)
    requires
        n <= count,
    ensures
        read_fixed(zeros(36 * n) + tail, uniform(count, true), 36, n) == Some(
            (Seq::new(n, |k: int| Some(zeros(36))), tail),
        ),
    decreases n,
{
    let b = zeros(36 * n) + tail;
    if n == 0 {
        assert(b =~= tail);
        assert(Seq::new(n, |k: int| Some(zeros(36))) =~= Seq::<Option<Seq<u8>>>::empty());
    } else {
        let rest = zeros(36) + tail;
        assert(36 * (n - 1) as nat + 36 == 36 * n);
        assert(b =~= zeros(36 * (n - 1) as nat) + rest);
        lemma_stats_are_read(count, rest, (n - 1) as nat);
        assert(rest.take(36) =~= zeros(36));
        assert(rest.skip(36) =~= tail);
        assert(Seq::new(n, |k: int| Some(zeros(36))) =~= Seq::new(
            (n - 1) as nat,
            |k: int| Some(zeros(36)),
        ).push(Some(zeros(36))));
    }
}

proof fn lemma_ignores_are_read(dirs: Seq<DirView>, order: Seq<int>, tail: Seq<u8>, n: nat)
    requires
        n <= order.len(),
        forall|k: int|
            0 <= k < order.len() ==> (dirs[#[trigger] order[k]].gitignore matches Some(id)
                ==> id.len() == 20),
    ensures
        read_fixed(ignore_blobs(dirs, order, n) + tail, ignore_flags(dirs, order), 20, n) == Some(
            (Seq::new(n, |k: int| dirs[order[k]].gitignore), tail),
        ),
    decreases n,
{
    let b = ignore_blobs(dirs, order, n) + tail;
    let read = Seq::new(n, |k: int| dirs[order[k]].gitignore);
    if n == 0 {
        assert(b =~= tail);
        assert(read =~= Seq::<Option<Seq<u8>>>::empty());
    } else {
        let before = ignore_blobs(dirs, order, (n - 1) as nat);
        let noted = dirs[order[n - 1]].gitignore;
        let own = match noted {
            Some(id) => id,
            None => Seq::<u8>::empty(),
        };
        let rest = own + tail;
        assert(b =~= before + rest);
        lemma_ignores_are_read(dirs, order, rest, (n - 1) as nat);
        assert(read =~= Seq::new((n - 1) as nat, |k: int| dirs[order[k]].gitignore).push(noted));
        if noted is Some {
            assert(rest.take(20) =~= own);
            assert(rest.skip(20) =~= tail);
        } else {
            assert(rest =~= tail);
        }
    }
}

/// Behind the directories the flags, the stat data and the digests are read
/// back.
proof fn lemma_flags_are_read(
    head: ReadUntracked,
    read: Seq<ReadDir>,
    dirs: Seq<DirView>,
    order: Seq<int>,
)
    requires
        order.len() <= 0xFFFF_FFFF,
        forall|k: int|
            0 <= k < order.len() ==> (dirs[#[trigger] order[k]].gitignore matches Some(id)
                ==> id.len() == 20),
    ensures
        read_flags(
            head,
            read,
            ewah_bytes(uniform(order.len(), true)) + (ewah_bytes(uniform(order.len(), false)) + (
            ewah_bytes(ignore_flags(dirs, order)) + (zeros(36 * order.len()) + (ignore_blobs(
                dirs,
                order,
                order.len(),
            ) + seq![0u8])))),
        ) == Some(
            ReadUntracked {
                dirs: read,
                valid: uniform(order.len(), true),
                check_only: uniform(order.len(), false),
                stats: Seq::new(order.len(), |k: int| Some(zeros(36))),
                ignores: Seq::new(order.len(), |k: int| dirs[order[k]].gitignore),
                ..head
            },
        ),
{
    let n = order.len();
    let b4 = ignore_blobs(dirs, order, n) + seq![0u8];
    let b3 = zeros(36 * n) + b4;
    let b2 = ewah_bytes(ignore_flags(dirs, order)) + b3;
    let b1 = ewah_bytes(uniform(n, false)) + b2;
    lemma_bitmap(uniform(n, true), b1);
    lemma_bitmap(uniform(n, false), b2);
    lemma_bitmap(ignore_flags(dirs, order), b3);
    lemma_stats_are_read(n, b4, n);
    lemma_ignores_are_read(dirs, order, seq![0u8], n);
}

/// The body of an untracked cache, regrouped from its end.
proof fn lemma_untracked_parts(caches: WorkspaceCaches, dirs: Seq<DirView>)
    ensures
        ({
            let order = preorder(dirs, 0);
            untracked_body(caches, dirs) == untracked_head(caches) + (varint(order.len()) + (records(
                dirs,
                order,
            ) + (ewah_bytes(uniform(order.len(), true)) + (ewah_bytes(uniform(order.len(), false))
                + (ewah_bytes(ignore_flags(dirs, order)) + (zeros(36 * order.len()) + (ignore_blobs(
                dirs,
                order,
                order.len(),
            ) + seq![0u8])))))))
        }),
{
    let order = preorder(dirs, 0);
    let n = order.len();
    let h = untracked_head(caches);
    let v = varint(n);
    let r = records(dirs, order);
    let e1 = ewah_bytes(uniform(n, true));
    let e2 = ewah_bytes(uniform(n, false));
    let e3 = ewah_bytes(ignore_flags(dirs, order));
    let z = zeros(36 * n);
    let g = ignore_blobs(dirs, order, n);
    lemma_regroup(h, v, r, e1, e2, e3, z, g, seq![0u8]);
}

proof fn lemma_regroup(
    h: Seq<u8>,
    v: Seq<u8>,
    r: Seq<u8>,
    e1: Seq<u8>,
    e2: Seq<u8>,
    e3: Seq<u8>,
    z: Seq<u8>,
    g: Seq<u8>,
    end: Seq<u8>,
)
    ensures
        h + v + r + e1 + e2 + e3 + z + g + end == h + (v + (r + (e1 + (e2 + (e3 + (z + (g
            + end))))))),
{
    lemma_concat_assoc(h + v + r + e1 + e2 + e3 + z, g, end);
    lemma_concat_assoc(h + v + r + e1 + e2 + e3, z, g + end);
    lemma_concat_assoc(h + v + r + e1 + e2, e3, z + (g + end));
    lemma_concat_assoc(h + v + r + e1, e2, e3 + (z + (g + end)));
    lemma_concat_assoc(h + v + r, e1, e2 + (e3 + (z + (g + end))));
    lemma_concat_assoc(h + v, r, e1 + (e2 + (e3 + (z + (g + end)))));
    lemma_concat_assoc(h, v, r + (e1 + (e2 + (e3 + (z + (g + end))))));
}

/// Whether one directory is listed before another: at the first component in
/// which they differ its name comes first in byte order, and a directory comes
/// before what lies below it.
pub open spec fn listed_before(a: Seq<Seq<u8>>, b: Seq<Seq<u8>>) -> bool {
    exists|t: int|
        0 <= t <= a.len() && t < b.len() && a.take(t) == #[trigger] b.take(t) && (t == a.len()
            || lex_lt(a[t], b[t]))
}

/// Whether a path is a directory's own or lies below it.
spec fn under(path: Seq<Seq<u8>>, q: Seq<Seq<u8>>) -> bool {
    q.len() <= path.len() && path.take(q.len() as int) == q
}

/// Subdirectories come in the order of their names.
proof fn lemma_siblings(dirs: Seq<DirView>, ps: Seq<Seq<Seq<u8>>>, d: int, i: int, j: int)
    requires
        legible_dirs(dirs, ps),
        ps.no_duplicates(),
        0 <= d < dirs.len(),
        0 <= i < j < dirs[d].children.len(),
    ensures
        ({
            let a = sorted_children(dirs, d)[i];
            let b = sorted_children(dirs, d)[j];
            &&& ps[a] == ps[d].push(dirs[a].name)
            &&& ps[b] == ps[d].push(dirs[b].name)
            &&& lex_lt(dirs[a].name, dirs[b].name)
        }),
{
    let names = dir_names(dirs, d);
    let order = sorted_order(NameOrder::Bytes, names);
    lemma_sorted_order(NameOrder::Bytes, names, names.len());
    lemma_sorted_lists_each_once(NameOrder::Bytes, names);
    let a = dirs[d].children[order[i]];
    let b = dirs[d].children[order[j]];
    assert(order[i] != order[j]);
    assert(a != b);
    assert(names[order[i]] == dirs[a].name);
    assert(names[order[j]] == dirs[b].name);
    if dirs[a].name == dirs[b].name {
        assert(ps[a] == ps[b]);
    }
}

proof fn lemma_listed_in_order(dirs: Seq<DirView>, ps: Seq<Seq<Seq<u8>>>, d: int)
    requires
        legible_dirs(dirs, ps),
        ps.no_duplicates(),
        0 <= d < dirs.len(),
    ensures
        forall|k: int|
            0 <= k < preorder(dirs, d).len() ==> under(ps[#[trigger] preorder(dirs, d)[k]], ps[d]),
        forall|k: int, m: int|
            0 <= k < m < preorder(dirs, d).len() ==> listed_before(
                ps[#[trigger] preorder(dirs, d)[k]],
                ps[#[trigger] preorder(dirs, d)[m]],
            ),
    decreases dirs.len() - d, dirs[d].children.len() + 1,
{
    let n = dirs[d].children.len();
    let order = preorder(dirs, d);
    let below = preorder_below(dirs, d, n);
    lemma_below_in_order(dirs, ps, d, n);
    assert forall|k: int| 1 <= k < order.len() implies {
        let q = ps[#[trigger] order[k]];
        ps[d].len() < q.len() && q.take(ps[d].len() as int) == ps[d]
    } by {
        assert(order[k] == below[k - 1]);
        let q = ps[below[k - 1]];
        let i = choose|i: int| 0 <= i < n && under(q, ps[#[trigger] sorted_children(dirs, d)[i]]);
        let c = sorted_children(dirs, d)[i];
        lemma_child_of(dirs, d, i);
        assert(ps[c] == ps[d].push(dirs[c].name));
        assert(q.take(ps[d].len() as int) =~= q.take(ps[c].len() as int).take(ps[d].len() as int));
        assert(ps[d].push(dirs[c].name).take(ps[d].len() as int) =~= ps[d]);
    }
    assert(ps[d].take(ps[d].len() as int) =~= ps[d]);
    assert forall|k: int, m: int| 0 <= k < m < order.len() implies listed_before(
        ps[#[trigger] order[k]],
        ps[#[trigger] order[m]],
    ) by {
        if k == 0 {
            let q = ps[order[m]];
            assert(ps[d].take(ps[d].len() as int) == q.take(ps[d].len() as int));
        } else {
            assert(order[k] == below[k - 1]);
            assert(order[m] == below[m - 1]);
        }
    }
}

proof fn lemma_below_in_order(dirs: Seq<DirView>, ps: Seq<Seq<Seq<u8>>>, d: int, n: nat)
    requires
        legible_dirs(dirs, ps),
        ps.no_duplicates(),
        0 <= d < dirs.len(),
        n <= dirs[d].children.len(),
    ensures
        forall|k: int|
            0 <= k < preorder_below(dirs, d, n).len() ==> exists|i: int|
                0 <= i < n && under(
                    ps[#[trigger] preorder_below(dirs, d, n)[k]],
                    ps[#[trigger] sorted_children(dirs, d)[i]],
                ),
        forall|k: int, m: int|
            0 <= k < m < preorder_below(dirs, d, n).len() ==> listed_before(
                ps[#[trigger] preorder_below(dirs, d, n)[k]],
                ps[#[trigger] preorder_below(dirs, d, n)[m]],
            ),
    decreases dirs.len() - d, n,
{
    if n > 0 {
        let all = preorder_below(dirs, d, n);
        let earlier = preorder_below(dirs, d, (n - 1) as nat);
        let c = sorted_children(dirs, d)[n - 1];
        lemma_sorted_child(dirs, d, n - 1);
        lemma_below_in_order(dirs, ps, d, (n - 1) as nat);
        lemma_listed_in_order(dirs, ps, c);
        let own = preorder(dirs, c);
        assert(all == earlier + own);
        assert forall|k: int| 0 <= k < all.len() implies exists|i: int|
            0 <= i < n && under(
                ps[#[trigger] all[k]],
                ps[#[trigger] sorted_children(dirs, d)[i]],
            ) by {
            if k < earlier.len() {
                assert(all[k] == earlier[k]);
                let i = choose|i: int|
                    0 <= i < n - 1 && under(
                        ps[earlier[k]],
                        ps[#[trigger] sorted_children(dirs, d)[i]],
                    );
                assert(under(ps[all[k]], ps[sorted_children(dirs, d)[i]]));
            } else {
                assert(all[k] == own[k - earlier.len()]);
                assert(under(ps[all[k]], ps[sorted_children(dirs, d)[n - 1]]));
            }
        }
        assert forall|k: int, m: int| 0 <= k < m < all.len() implies listed_before(
            ps[#[trigger] all[k]],
            ps[#[trigger] all[m]],
        ) by {
            if m < earlier.len() {
                assert(all[k] == earlier[k] && all[m] == earlier[m]);
            } else if k >= earlier.len() {
                assert(all[k] == own[k - earlier.len()]);
                assert(all[m] == own[m - earlier.len()]);
            } else {
                assert(all[k] == earlier[k]);
                assert(all[m] == own[m - earlier.len()]);
                let i = choose|i: int|
                    0 <= i < n - 1 && under(
                        ps[earlier[k]],
                        ps[#[trigger] sorted_children(dirs, d)[i]],
                    );
                lemma_siblings(dirs, ps, d, i, n - 1);
                let e = sorted_children(dirs, d)[i];
                let a = ps[all[k]];
                let b = ps[all[m]];
                let t = ps[d].len() as int;
                assert(a.take(t) =~= a.take(t + 1).take(t));
                assert(b.take(t) =~= b.take(t + 1).take(t));
                assert(a.take(t + 1) == ps[e]);
                assert(b.take(t + 1) == ps[c]);
                assert(ps[e].take(t) =~= ps[d]);
                assert(ps[c].take(t) =~= ps[d]);
                assert(a.take(t) == b.take(t));
                assert(a[t] == a.take(t + 1)[t]);
                assert(b[t] == b.take(t + 1)[t]);
            }
        }
    }
}

/// What an untracked cache must say of entries: the root and every directory
/// above an entry, each once and in order, all of them valid and none to be checked only,
/// with nothing untracked and no stat data; and beside each directory the
/// object of its regular `.gitignore`, if it has one.
pub open spec fn describes(u: ReadUntracked, entries: Seq<RawEntry>) -> bool {
    let n = u.dirs.len() as int;
    &&& n > 0
    &&& u.dirs[0].path == Seq::<Seq<u8>>::empty()
    &&& u.valid.len() == n
    &&& u.check_only.len() == n
    &&& u.stats.len() == n
    &&& u.ignores.len() == n
    &&& forall|k: int|
        0 <= k < n ==> #[trigger] u.valid[k] && !u.check_only[k] && u.stats[k] == Some(zeros(36))
    &&& forall|k: int| 0 <= k < n ==> (#[trigger] u.dirs[k]).untracked.len() == 0
    &&& forall|k: int, m: int|
        0 <= k < m < n ==> (#[trigger] u.dirs[k]).path != (#[trigger] u.dirs[m]).path
            && listed_before(u.dirs[k].path, u.dirs[m].path)
    &&& forall|k: int|
        0 < k < n ==> exists|j: int|
            0 <= j < entries.len() && above((#[trigger] u.dirs[k]).path, #[trigger] entries[j])
    &&& forall|j: int, q: Seq<Seq<u8>>|
        0 <= j < entries.len() && #[trigger] above(q, entries[j]) ==> exists|k: int|
            0 <= k < n && (#[trigger] u.dirs[k]).path == q
    &&& forall|k: int, j: int|
        0 <= k < n && 0 <= j < entries.len() && ignores(
            #[trigger] entries[j],
            (#[trigger] u.dirs[k]).path,
        ) ==> u.ignores[k] == Some(entries[j].oid)
    &&& forall|k: int|
        0 <= k < n && (#[trigger] u.ignores[k]) is Some ==> exists|j: int|
            0 <= j < entries.len() && ignores(#[trigger] entries[j], u.dirs[k].path)
}

/// A reader of the untracked cache recovers what it was made of.
proof fn lemma_untracked_is_read(
    entries: Seq<RawEntry>,
    ps: Seq<Seq<Seq<u8>>>,
    caches: WorkspaceCaches,
)
    requires
        in_order(entries, entries.len()),
        forall|j: int|
            0 <= j < entries.len() ==> lacks((#[trigger] entries[j]).path, 0)
                && entries[j].oid.len() == 20,
        placed(tree_of(entries, entries.len()), ps, last_chain(entries, entries.len())),
        made_of(entries, entries.len(), tree_of(entries, entries.len()).dirs, ps),
        untracked_body(caches, tree_of(entries, entries.len()).dirs).len() <= 0xFFFF_FFFF,
    ensures
        legible_dirs(tree_of(entries, entries.len()).dirs, ps),
        ({
            let dirs = tree_of(entries, entries.len()).dirs;
            let order = preorder(dirs, 0);
            read_untracked(untracked_body(caches, dirs)) matches Some(u) && heads(u, caches)
                && u.dirs == read_in_order(ps, order) && u.valid == uniform(order.len(), true)
                && u.check_only == uniform(order.len(), false) && u.stats == Seq::new(
                order.len(),
                |k: int| Some(zeros(36)),
            ) && u.ignores == Seq::new(order.len(), |k: int| dirs[order[k]].gitignore)
        }),
{
    let n = entries.len();
    let dirs = tree_of(entries, n).dirs;
    let order = preorder(dirs, 0);
    let b = untracked_body(caches, dirs);
    lemma_tree_is_rooted(entries, n);
    lemma_every_place(entries, n);
    lemma_untracked_parts(caches, dirs);
    let flags = ewah_bytes(uniform(order.len(), true)) + (ewah_bytes(uniform(order.len(), false))
        + (ewah_bytes(ignore_flags(dirs, order)) + (zeros(36 * order.len()) + (ignore_blobs(
        dirs,
        order,
        order.len(),
    ) + seq![0u8]))));
    let b2 = records(dirs, order) + flags;
    let b1 = varint(order.len()) + b2;
    assert(order.len() <= 36 * order.len() <= b.len());
    lemma_head_is_read(caches, b1);
    lemma_varint(order.len(), b2);
    assert forall|v: int| 0 <= v < dirs.len() implies lacks((#[trigger] dirs[v]).name, 0) by {
        if v > 0 {
            let j = choose|j: int| 0 <= j < n && above(ps[v], #[trigger] entries[j]);
            let k = ps[v].len() - 1;
            lemma_components(entries[j].path);
            assert(ps[v].last() == parents(entries[j]).take(ps[v].len() as int)[k]);
            assert(ps[v].last() == components(entries[j].path)[k]);
        }
    }
    assert(legible_dirs(dirs, ps));
    lemma_dir_is_read(dirs, ps, 0, None, flags, order.len());
    let (head, _) = read_head(b)->0;
    assert forall|k: int| 0 <= k < order.len() implies (
    dirs[#[trigger] order[k]].gitignore matches Some(id) ==> id.len() == 20) by {
        let v = order[k];
        assert(0 <= v < dirs.len());
        if dirs[v].gitignore is Some {
            let j = choose|j: int| 0 <= j < n && ignores(#[trigger] entries[j], ps[v]);
            assert(dirs[v].gitignore == Some(entries[j].oid));
        }
    }
    lemma_flags_are_read(head, read_in_order(ps, order), dirs, order);
}

/// The order lists known directories, each of them, and starts with the root.
proof fn lemma_every_place(entries: Seq<RawEntry>, n: nat)
    ensures
        ({
            let dirs = tree_of(entries, n).dirs;
            let order = preorder(dirs, 0);
            &&& order.len() == dirs.len()
            &&& order.len() > 0
            &&& order[0] == 0
            &&& order.no_duplicates()
            &&& forall|k: int| 0 <= k < order.len() ==> 0 <= #[trigger] order[k] < dirs.len()
            &&& forall|v: int| 0 <= v < dirs.len() ==> #[trigger] order.contains(v)
        }),
{
    let dirs = tree_of(entries, n).dirs;
    let order = preorder(dirs, 0);
    lemma_tree_is_rooted(entries, n);
    law_every_directory_is_recorded_once(entries, n);
    assert(order[0] == 0);
    assert forall|k: int| 0 <= k < order.len() implies 0 <= #[trigger] order[k] < dirs.len() by {
        assert(order.contains(order[k]));
    }
    let all = Seq::new(dirs.len(), |i: int| i);
    assert(order.to_set() =~= all.to_set()) by {
        assert forall|v: int| order.to_set().contains(v) <==> all.to_set().contains(v) by {
            if all.contains(v) {
                assert(0 <= v < dirs.len());
                assert(order.contains(v));
            }
            if order.contains(v) {
                assert(all[v] == v);
                assert(all.contains(v));
            }
        }
    }
    order.unique_seq_to_set();
    all.unique_seq_to_set();
}

/// A reader of the untracked cache of a workspace's index recovers the caches'
/// settings, the directories of the index, and for every directory the object
/// of its regular `.gitignore`: for an entry `D/.gitignore` the digest listed
/// for `D` is that entry's object, and a directory without such an entry has
/// none.
pub proof fn law_a_reader_recovers_the_untracked_cache(
    index: Seq<u8>,
    entries: Seq<RawEntry>,
    end: int,
    caches: WorkspaceCaches,
    body: Seq<u8>,
    trailer: Seq<u8>,
)
    requires
        with_caches(index, caches) == Some(body),
        raw_entries(index, be32_at(index, 8) as nat) == Some((entries, end)),
        in_order(entries, entries.len()),
        forall|j: int| 0 <= j < entries.len() ==> lacks((#[trigger] entries[j]).path, 0),
    ensures
        has_prefix(body, index.take(index.len() - 20)),
        read_extension(body + trailer, index.len() - 20) matches Some((signature, b, next))
            && signature == seq![85u8, 78, 84, 82] && (read_untracked(b) matches Some(u) && heads(
            u,
            caches,
        ) && describes(u, entries)) && (read_extension(body + trailer, next) matches Some(
            (other, monitor, last),
        ) && other == seq![70u8, 83, 77, 78] && reads_monitor(monitor, caches, entries.len())
            && last == body.len()),
{
    let count = be32_at(index, 8) as nat;
    lemma_raw_entries(index, count);
    let n = entries.len();
    let dirs = tree_of(entries, n).dirs;
    let order = preorder(dirs, 0);
    let u = untracked_body(caches, dirs);
    let f = fsmonitor_body(caches, n);
    let before = index.take(index.len() - 20);
    assert(body == before + extension(untr(), u) + extension(fsmn(), f));
    let ps = law_directories_are_those_above_entries(entries, n);
    lemma_untracked_is_read(entries, ps, caches);
    lemma_described(entries, ps, read_untracked(u)->0);
    lemma_monitor_is_read(caches, n);
    lemma_two_extensions(before, u, f, trailer);
    assert(body.subrange(0, before.len() as int) =~= before);
}

/// Both extensions are read back, the one behind the other.
proof fn lemma_two_extensions(before: Seq<u8>, u: Seq<u8>, f: Seq<u8>, trailer: Seq<u8>)
    requires
        u.len() <= 0xFFFF_FFFF,
        f.len() <= 0xFFFF_FFFF,
    ensures
        ({
            let all = before + extension(untr(), u) + extension(fsmn(), f);
            let next = (before.len() + 8 + u.len()) as int;
            &&& read_extension(all + trailer, before.len() as int) == Some(
                (seq![85u8, 78, 84, 82], u, next),
            )
            &&& read_extension(all + trailer, next) == Some(
                (seq![70u8, 83, 77, 78], f, all.len() as int),
            )
        }),
{
    let after = extension(fsmn(), f) + trailer;
    let upto = before + extension(untr(), u);
    lemma_concat_assoc(upto, extension(fsmn(), f), trailer);
    lemma_concat_assoc(before, extension(untr(), u), after);
    lemma_extension(before, untr(), u, after);
    lemma_extension(upto, fsmn(), f, trailer);
    assert(untr() =~= seq![85u8, 78, 84, 82]);
    assert(fsmn() =~= seq![70u8, 83, 77, 78]);
}

/// The untracked cache of an index that was written for a list of entries says
/// of every directory which entry is its `.gitignore`.
pub proof fn law_a_written_index_notes_every_gitignore(
    entries: Seq<IndexEntry>,
    time: Timestamp,
    cache_tree: Option<CacheTree>,
    index: Vec<u8>,
    caches: WorkspaceCaches,
    body: Seq<u8>,
    trailer: Seq<u8>,
)
    requires
        index_outcome(entries, time, cache_tree, Ok(index)),
        forall|i: int|
            0 <= i < entries.len() ==> (#[trigger] entries[i]).oid.wf() && lacks(
                entries[i].path@,
                0,
            ),
        with_caches(index@, caches) == Some(body),
    ensures
        read_extension(body + trailer, index@.len() - 20) matches Some((_, b, _)) && (
        read_untracked(b) matches Some(u) && describes(u, all_recorded(entries))),
{
    assert forall|i: int| 0 <= i < entries.len() implies terminated(#[trigger] entries[i]) by {
        assert(lacks(entries[i].path@, 0));
    }
    law_a_written_index_takes_the_caches(entries, time, cache_tree, index, caches);
    law_recorded_entries_are_in_order(entries);
    let raw = all_recorded(entries);
    assert forall|i: int, j: int| 0 <= i < j < raw.len() implies lex_lt(
        (#[trigger] raw[i]).path,
        (#[trigger] raw[j]).path,
    ) by {
        assert(lex_lt(entries[i].path@, entries[j].path@));
    }
    law_a_reader_recovers_the_untracked_cache(
        index@,
        raw,
        index_body(entries, time).len() as int,
        caches,
        body,
        trailer,
    );
}

/// The paths that are read are those of the directories above entries.
proof fn lemma_described(entries: Seq<RawEntry>, ps: Seq<Seq<Seq<u8>>>, u: ReadUntracked)
    requires
        placed(tree_of(entries, entries.len()), ps, last_chain(entries, entries.len())),
        made_of(entries, entries.len(), tree_of(entries, entries.len()).dirs, ps),
        legible_dirs(tree_of(entries, entries.len()).dirs, ps),
        ({
            let dirs = tree_of(entries, entries.len()).dirs;
            let order = preorder(dirs, 0);
            u.dirs == read_in_order(ps, order) && u.valid == uniform(order.len(), true)
                && u.check_only == uniform(order.len(), false) && u.stats == Seq::new(
                order.len(),
                |k: int| Some(zeros(36)),
            ) && u.ignores == Seq::new(order.len(), |k: int| dirs[order[k]].gitignore)
        }),
    ensures
        describes(u, entries),
{
    let n = entries.len();
    let dirs = tree_of(entries, n).dirs;
    let order = preorder(dirs, 0);
    lemma_every_place(entries, n);
    assert forall|k: int| 0 <= k < order.len() implies (#[trigger] u.dirs[k]).path == ps[order[k]]
        && u.dirs[k].untracked.len() == 0 && u.ignores[k] == dirs[order[k]].gitignore by {}
    lemma_listed_in_order(dirs, ps, 0);
    assert forall|k: int, m: int| 0 <= k < m < order.len() implies (#[trigger] u.dirs[k]).path != (
    #[trigger] u.dirs[m]).path && listed_before(u.dirs[k].path, u.dirs[m].path) by {
        assert(order[k] != order[m]);
        assert(listed_before(ps[order[k]], ps[order[m]]));
        assert(ps[order[k]] != ps[order[m]]);
    }
    assert forall|k: int| 0 < k < order.len() implies exists|j: int|
        0 <= j < n && above((#[trigger] u.dirs[k]).path, #[trigger] entries[j]) by {
        assert(order[k] != order[0]);
        let v = order[k];
        let j = choose|j: int| 0 <= j < n && above(ps[v], #[trigger] entries[j]);
        assert(above(u.dirs[k].path, entries[j]));
    }
    assert forall|j: int, q: Seq<Seq<u8>>|
        0 <= j < n && #[trigger] above(q, entries[j]) implies exists|k: int|
        0 <= k < order.len() && (#[trigger] u.dirs[k]).path == q by {
        assert(ps.contains(q));
        let v = choose|v: int| 0 <= v < ps.len() && ps[v] == q;
        assert(order.contains(v));
        let k = choose|k: int| 0 <= k < order.len() && order[k] == v;
        assert(u.dirs[k].path == q);
    }
    assert forall|k: int, j: int|
        0 <= k < order.len() && 0 <= j < n && ignores(
            #[trigger] entries[j],
            (#[trigger] u.dirs[k]).path,
        ) implies u.ignores[k] == Some(entries[j].oid) by {
        assert(ignores(entries[j], ps[order[k]]));
    }
    assert forall|k: int| 0 <= k < order.len() && (#[trigger] u.ignores[k]) is Some implies exists|
        j: int,
    |
        0 <= j < n && ignores(#[trigger] entries[j], u.dirs[k].path) by {
        let v = order[k];
        assert(dirs[v].gitignore is Some);
        let j = choose|j: int| 0 <= j < n && ignores(#[trigger] entries[j], ps[v]);
        assert(ignores(entries[j], u.dirs[k].path));
    }
}

/// As many entries are read as are asked for, each with a whole object ID.
proof fn lemma_raw_entries(index: Seq<u8>, n: nat)
    ensures
        raw_entries(index, n) matches Some((entries, _)) ==> entries.len() == n && (forall|j: int|
            0 <= j < n ==> (#[trigger] entries[j]).oid.len() == 20),
    decreases n,
{
    if n > 0 {
        lemma_raw_entries(index, (n - 1) as nat);
        lemma_positions(index, (n - 1) as nat);
    }
}

proof fn lemma_positions(index: Seq<u8>, n: nat)
    ensures
        raw_entries(index, n) matches Some((_, end)) ==> end >= 12,
    decreases n,
{
    if n > 0 {
        lemma_positions(index, (n - 1) as nat);
        if raw_entries(index, (n - 1) as nat) is Some {
            let (_, pos) = raw_entries(index, (n - 1) as nat)->0;
            if pos + 62 <= index.len() {
                lemma_find_byte(index, 0, (pos + 62) as nat);
            }
        }
    }
}

// ---------------------------------------------------------------------------
// The fsmonitor extension
// ---------------------------------------------------------------------------
/// Whether a body is the fsmonitor extension of the caches for so many entries:
/// version 2, the terminated token, and a bitmap of known length in which no
/// entry is dirty.
pub open spec fn reads_monitor(b: Seq<u8>, caches: WorkspaceCaches, count: nat) -> bool {
    let at = 4 + utf8(caches.fsmonitor_token@).len() as int;
    &&& b.len() >= at + 5
    &&& be32_at(b, 0) == 2
    &&& b.subrange(4, at) == utf8(caches.fsmonitor_token@)
    &&& b[at] == 0
    &&& at + 5 + be32_at(b, at + 1) == b.len()
    &&& read_bitmap(b.skip(at + 5)) matches Some((dirty, rest)) && rest.len() == 0 && dirty.len()
        == count && forall|i: int| 0 <= i < count ==> !(#[trigger] dirty[i])
}

proof fn lemma_monitor_is_read(caches: WorkspaceCaches, count: nat)
    requires
        count <= 0xFFFF_FFFF,
        fsmonitor_body(caches, count).len() <= 0xFFFF_FFFF,
    ensures
        reads_monitor(fsmonitor_body(caches, count), caches, count),
{
    let dirty = ewah_bytes(uniform(count, false));
    let token = utf8(caches.fsmonitor_token@);
    let len = dirty.len() as u32;
    let b = fsmonitor_body(caches, count);
    let at = 4 + token.len() as int;
    let none = Seq::<u8>::empty();
    assert(b =~= none + be32(2) + (token + seq![0u8] + be32(len) + dirty));
    lemma_word(none, 2, token + seq![0u8] + be32(len) + dirty);
    assert(b =~= (be32(2) + token + seq![0u8]) + be32(len) + dirty);
    lemma_word(be32(2) + token + seq![0u8], len, dirty);
    assert(b.subrange(4, at) =~= token);
    assert(b.skip(at + 5) =~= dirty + none);
    lemma_bitmap(uniform(count, false), none);
}

} // verus!
