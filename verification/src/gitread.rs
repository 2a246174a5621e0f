//! What Git reads in an index that was written: the header, the entries, the
//! extensions behind them, and the directories of the cache tree.
use vstd::prelude::*;
use crate::bytes::{be16, be32, be32_at, find_byte, lemma_concat_assoc, lemma_find_byte, zeros};
use crate::hashing::sha1_of;
use crate::index::{
    child_names, child_order, dirc, entries_bytes, entry_body, entry_bytes, index_body,
    index_outcome, subtrees_bytes, tree_bytes, tree_extension, tree_signature, CacheTree,
    IndexEntry,
};
use crate::sorting::{
    lemma_sorted_lists_each_once, lemma_sorted_order, lists_each_once, precedes, NameOrder,
};
use crate::text::{decimal_bytes, decimal_value, law_decimal_bytes_read_back};
use crate::time::Timestamp;

verus! {

// ---------------------------------------------------------------------------
// Fields
// ---------------------------------------------------------------------------
/// The bytes before the first `sep` and those behind it.
pub open spec fn until(b: Seq<u8>, sep: u8) -> Option<(Seq<u8>, Seq<u8>)> {
    let end = find_byte(b, sep, 0) as int;
    if end < b.len() {
        Some((b.take(end), b.skip(end + 1)))
    } else {
        None
    }
}

/// Whether a byte is nowhere in a field.
pub open spec fn lacks(field: Seq<u8>, sep: u8) -> bool {
    forall|k: int| 0 <= k < field.len() ==> #[trigger] field[k] != sep
}

/// A terminated field is read back.
pub proof fn lemma_until(field: Seq<u8>, sep: u8, tail: Seq<u8>)
    requires
        lacks(field, sep),
    ensures
        until(field + seq![sep] + tail, sep) == Some((field, tail)),
{
    let b = field + seq![sep] + tail;
    lemma_find_byte(b, sep, 0);
    let end = find_byte(b, sep, 0) as int;
    assert(b[field.len() as int] == sep);
    if end < field.len() {
        assert(b[end] == field[end]);
    }
    assert(b.take(end) =~= field);
    assert(b.skip(end + 1) =~= tail);
}

/// A word is read back.
pub proof fn lemma_word(before: Seq<u8>, n: u32, after: Seq<u8>)
    ensures
        be32_at(before + be32(n) + after, before.len() as int) == n,
{
    let b = before + be32(n) + after;
    let at = before.len() as int;
    assert(b[at] == be32(n)[0] && b[at + 1] == be32(n)[1] && b[at + 2] == be32(n)[2] && b[at + 3]
        == be32(n)[3]);
    assert((((n >> 24) as u8) as u32) << 24 | (((n >> 16) as u8) as u32) << 16 | (((n
        >> 8) as u8) as u32) << 8 | ((n as u8) as u32) == n) by (bit_vector);
}

// ---------------------------------------------------------------------------
// Directories of the cache tree
// ---------------------------------------------------------------------------
/// A directory of the cache tree as it is read.
pub struct ReadTree {
    pub name: Seq<u8>,
    /// How many index entries the directory covers.
    pub entries: nat,
    /// The digest of the directory's tree object.
    pub tree: Seq<u8>,
    pub subtrees: Seq<ReadTree>,
}

/// The directory a record starts with, at most `depth` deep, and the bytes
/// behind it: a terminated name, the entry count up to a space, the number of
/// subdirectories up to a line feed, the twenty bytes of a digest, and the
/// subdirectories.
pub open spec fn read_tree(b: Seq<u8>, depth: nat) -> Option<(ReadTree, Seq<u8>)>
    decreases depth, 0nat,
{
    if depth == 0 {
        None
    } else {
        match until(b, 0) {
            None => None,
            Some((name, b1)) => match until(b1, 32) {
                None => None,
                Some((count, b2)) => match until(b2, 10) {
                    None => None,
                    Some((below, b3)) => if b3.len() < 20 {
                        None
                    } else {
                        match read_trees(b3.skip(20), decimal_value(below), (depth - 1) as nat) {
                            None => None,
                            Some((subtrees, rest)) => Some(
                                (
                                    ReadTree {
                                        name,
                                        entries: decimal_value(count),
                                        tree: b3.take(20),
                                        subtrees,
                                    },
                                    rest,
                                ),
                            ),
                        }
                    },
                },
            },
        }
    }
}

/// The first `n` directories, and the bytes behind them.
pub open spec fn read_trees(b: Seq<u8>, n: nat, depth: nat) -> Option<(Seq<ReadTree>, Seq<u8>)>
    decreases depth, n,
{
    if n == 0 {
        Some((Seq::empty(), b))
    } else {
        match read_trees(b, (n - 1) as nat, depth) {
            None => None,
            Some((read, rest)) => match read_tree(rest, depth) {
                None => None,
                Some((tree, behind)) => Some((read.push(tree), behind)),
            },
        }
    }
}

/// Whether names and object IDs can be told apart in a record: no name holds a
/// zero byte, and every object ID is whole.
pub open spec fn legible(node: CacheTree) -> bool
    decreases node,
{
    &&& lacks(node.name@, 0)
    &&& node.oid@.digest.len() == 20
    &&& forall|i: int| 0 <= i < node.children@.len() ==> legible(#[trigger] node.children@[i])
}

/// Whether a directory that was read is the given one: the name, the count, the
/// tree object, and the subdirectories, each of them once, in the order that
/// Git looks them up in.
pub open spec fn says(read: ReadTree, node: CacheTree) -> bool
    decreases node,
{
    &&& read.name == node.name@
    &&& read.entries == node.entries
    &&& read.tree == node.oid@.digest
    &&& read.subtrees.len() == node.children@.len()
    &&& exists|to: Seq<int>| #[trigger]
        lists_each_once(to, node.children@.len()) && forall|i: int|
            0 <= i < node.children@.len() ==> says(read.subtrees[i], node.children@[#[trigger] to[i]])
    &&& forall|i: int, j: int|
        0 <= i < j < read.subtrees.len() ==> {
            let a = (#[trigger] read.subtrees[i]).name;
            let b = (#[trigger] read.subtrees[j]).name;
            a == b || precedes(NameOrder::ShortLex, a, b)
        }
}

proof fn lemma_tree_is_read(node: CacheTree, tail: Seq<u8>, depth: nat) -> (read: ReadTree)
    requires
        legible(node),
        depth >= tree_bytes(node).len(),
    ensures
        read_tree(tree_bytes(node) + tail, depth) == Some((read, tail)),
        says(read, node),
    decreases node, node.children@.len() + 1,
{
    let n = node.children@.len();
    let count = decimal_bytes(node.entries as nat);
    let below = decimal_bytes(n);
    let subs = subtrees_bytes(node, n);
    let order = child_order(node);
    law_decimal_bytes_read_back(node.entries as nat);
    law_decimal_bytes_read_back(n);
    let b4 = subs + tail;
    let b3 = node.oid@.digest + b4;
    let b2 = below + seq![10u8] + b3;
    let b1 = count + seq![32u8] + b2;
    let b = tree_bytes(node) + tail;
    assert(b =~= node.name@ + seq![0u8] + b1);
    lemma_until(node.name@, 0, b1);
    lemma_until(count, 32, b2);
    lemma_until(below, 10, b3);
    assert(b3.skip(20) =~= b4);
    assert(b3.take(20) =~= node.oid@.digest);
    assert(depth >= subs.len() + 22);
    let subtrees = lemma_trees_are_read(node, n, tail, (depth - 1) as nat);
    let read = ReadTree { name: node.name@, entries: node.entries as nat, tree: node.oid@.digest, subtrees };
    lemma_sorted_lists_each_once(NameOrder::ShortLex, child_names(node));
    lemma_sorted_order(NameOrder::ShortLex, child_names(node), n);
    assert(lists_each_once(order, n));
    assert forall|i: int| 0 <= i < n implies says(read.subtrees[i], node.children@[#[trigger] order[i]]) by {
        assert(says(subtrees[i], node.children@[order[i]]));
    }
    assert forall|i: int, j: int| 0 <= i < j < subtrees.len() implies {
        let a = (#[trigger] subtrees[i]).name;
        let b = (#[trigger] subtrees[j]).name;
        a == b || precedes(NameOrder::ShortLex, a, b)
    } by {
        assert(says(subtrees[i], node.children@[order[i]]));
        assert(says(subtrees[j], node.children@[order[j]]));
        assert(child_names(node)[order[i]] == subtrees[i].name);
        assert(child_names(node)[order[j]] == subtrees[j].name);
    }
    read
}

proof fn lemma_trees_are_read(node: CacheTree, n: nat, tail: Seq<u8>, depth: nat) -> (read: Seq<
    ReadTree,
>)
    requires
        legible(node),
        n <= node.children@.len(),
        depth >= subtrees_bytes(node, n).len(),
    ensures
        read_trees(subtrees_bytes(node, n) + tail, n, depth) == Some((read, tail)),
        read.len() == n,
        forall|i: int|
            0 <= i < n ==> says(#[trigger] read[i], node.children@[child_order(node)[i]]),
    decreases node, n,
{
    lemma_sorted_lists_each_once(NameOrder::ShortLex, child_names(node));
    if n == 0 {
        assert(subtrees_bytes(node, n) + tail =~= tail);
        Seq::empty()
    } else {
        let c = child_order(node)[n - 1];
        assert(0 <= c < node.children@.len());
        let child = node.children@[c];
        let earlier = subtrees_bytes(node, (n - 1) as nat);
        assert(subtrees_bytes(node, n) + tail =~= earlier + (tree_bytes(child) + tail));
        let before = lemma_trees_are_read(node, (n - 1) as nat, tree_bytes(child) + tail, depth);
        let last = lemma_tree_is_read(child, tail, depth);
        before.push(last)
    }
}

// ---------------------------------------------------------------------------
// The index
// ---------------------------------------------------------------------------
/// An entry as it is read.
pub struct ReadEntry {
    pub ctime: (u32, u32),
    pub mtime: (u32, u32),
    pub dev: u32,
    pub ino: u32,
    pub mode: u32,
    pub uid: u32,
    pub gid: u32,
    pub size: u32,
    pub oid: Seq<u8>,
    pub path: Seq<u8>,
}

/// The entry at `at` and where the next one begins: ten words, a digest, two
/// bytes of flags, a terminated path, and zeros up to a multiple of eight.
#[verifier::opaque]
pub open spec fn read_entry(b: Seq<u8>, at: int) -> Option<(ReadEntry, int)> {
    if at + 62 > b.len() {
        None
    } else {
        match until(b.skip(at + 62), 0) {
            None => None,
            Some((path, _)) => Some(
                (
                    ReadEntry {
                        ctime: (be32_at(b, at), be32_at(b, at + 4)),
                        mtime: (be32_at(b, at + 8), be32_at(b, at + 12)),
                        dev: be32_at(b, at + 16),
                        ino: be32_at(b, at + 20),
                        mode: be32_at(b, at + 24),
                        uid: be32_at(b, at + 28),
                        gid: be32_at(b, at + 32),
                        size: be32_at(b, at + 36),
                        oid: b.subrange(at + 40, at + 60),
                        path,
                    },
                    at + (62 + path.len() + 8) / 8 * 8,
                ),
            ),
        }
    }
}

/// The first `n` entries behind the header, and where they end.
pub open spec fn read_entries(b: Seq<u8>, n: nat) -> Option<(Seq<ReadEntry>, int)>
    decreases n,
{
    if n == 0 {
        Some((Seq::empty(), 12))
    } else {
        match read_entries(b, (n - 1) as nat) {
            None => None,
            Some((read, at)) => match read_entry(b, at) {
                None => None,
                Some((entry, next)) => Some((read.push(entry), next)),
            },
        }
    }
}

/// Whether an entry can be read back: its path holds no zero byte and its
/// object ID is whole.
pub open spec fn legible_entry(e: IndexEntry) -> bool {
    lacks(e.path@, 0) && e.oid@.digest.len() == 20
}

/// What is read of an entry: its path, mode, object and size, the snapshot
/// time as its modification time, and nothing of any file on a disk.
pub open spec fn read_as(e: IndexEntry, time: Timestamp) -> ReadEntry {
    ReadEntry {
        ctime: (0, 0),
        mtime: (time.secs as u32, time.nanos),
        dev: 0,
        ino: 0,
        mode: e.mode,
        uid: 0,
        gid: 0,
        size: e.size as u32,
        oid: e.oid@.digest,
        path: e.path@,
    }
}

/// The stat words of an entry.
#[verifier::opaque]
spec fn stat_words(secs: u32, nanos: u32, mode: u32, size: u32) -> Seq<u8> {
    be32(0) + be32(0) + be32(secs) + be32(nanos) + be32(0) + be32(0) + be32(mode) + be32(0)
        + be32(0) + be32(size)
}

/// The word at a place of the stat words.
spec fn stat_word(secs: u32, nanos: u32, mode: u32, size: u32, k: int) -> u32 {
    if k == 2 {
        secs
    } else if k == 3 {
        nanos
    } else if k == 6 {
        mode
    } else if k == 9 {
        size
    } else {
        0
    }
}

proof fn lemma_stat_words(secs: u32, nanos: u32, mode: u32, size: u32, k: int)
    requires
        0 <= k < 10,
    ensures
        stat_words(secs, nanos, mode, size).len() == 40,
        stat_words(secs, nanos, mode, size).subrange(4 * k, 4 * k + 4) == be32(
            stat_word(secs, nanos, mode, size, k),
        ),
{
    reveal(stat_words);
    let w = stat_words(secs, nanos, mode, size);
    let a = be32(0) + be32(0) + be32(secs) + be32(nanos);
    let b = a + be32(0) + be32(0) + be32(mode);
    assert(w == b + be32(0) + be32(0) + be32(size));
    assert(w.subrange(4 * k, 4 * k + 4) =~= be32(stat_word(secs, nanos, mode, size, k)));
}

/// The word at a place of an entry that stands at `at`.
proof fn lemma_stat_word(
    b: Seq<u8>,
    at: int,
    secs: u32,
    nanos: u32,
    mode: u32,
    size: u32,
    k: int,
)
    requires
        0 <= k < 10,
        0 <= at,
        at + 40 <= b.len(),
        b.subrange(at, at + 40) == stat_words(secs, nanos, mode, size),
    ensures
        be32_at(b, at + 4 * k) == stat_word(secs, nanos, mode, size, k),
{
    let n = stat_word(secs, nanos, mode, size, k);
    lemma_stat_words(secs, nanos, mode, size, k);
    let before = b.take(at + 4 * k);
    let after = b.skip(at + 4 * k + 4);
    assert(b.subrange(at + 4 * k, at + 4 * k + 4) =~= b.subrange(at, at + 40).subrange(
        4 * k,
        4 * k + 4,
    ));
    assert(b =~= before + b.subrange(at + 4 * k, at + 4 * k + 4) + after);
    lemma_word(before, n, after);
}

/// An entry is its stat words, its object, its flags, its path and zeros.
proof fn lemma_entry_parts(e: IndexEntry, secs: u32, nanos: u32) -> (res: (Seq<u8>, nat))
    requires
        e.oid@.digest.len() == 20,
    ensures
        res.0.len() == 2,
        res.1 > 0,
        entry_bytes(e, secs, nanos) == stat_words(secs, nanos, e.mode, e.size as u32)
            + e.oid@.digest + res.0 + e.path@ + zeros(res.1),
        entry_bytes(e, secs, nanos).len() == (62 + e.path@.len() + 8) / 8 * 8,
{
    lemma_stat_words(secs, nanos, e.mode, e.size as u32, 0);
    let flags = be16(
        (if e.path@.len() < 0xFFF {
            e.path@.len()
        } else {
            0xFFF
        }) as u16,
    );
    let w = stat_words(secs, nanos, e.mode, e.size as u32);
    assert(entry_body(e, secs, nanos) == w + e.oid@.digest + flags + e.path@) by {
        reveal(stat_words);
    }
    let len = 62 + e.path@.len();
    assert(entry_body(e, secs, nanos).len() == len);
    (flags, (8 - len % 8) as nat)
}

/// Where the parts of an entry stand.
proof fn lemma_parts_are_placed(
    before: Seq<u8>,
    words: Seq<u8>,
    oid: Seq<u8>,
    flags: Seq<u8>,
    path: Seq<u8>,
    pad: nat,
    after: Seq<u8>,
)
    requires
        words.len() == 40,
        oid.len() == 20,
        flags.len() == 2,
        pad > 0,
        lacks(path, 0),
    ensures
        ({
            let b = before + (words + oid + flags + path + zeros(pad)) + after;
            let at = before.len() as int;
            &&& b.len() >= at + 62
            &&& b.subrange(at, at + 40) == words
            &&& b.subrange(at + 40, at + 60) == oid
            &&& until(b.skip(at + 62), 0) matches Some((read, _)) && read == path
        }),
{
    let b = before + (words + oid + flags + path + zeros(pad)) + after;
    let at = before.len() as int;
    let rest = zeros((pad - 1) as nat) + after;
    assert(b.subrange(at, at + 40) =~= words);
    assert(b.subrange(at + 40, at + 60) =~= oid);
    assert(b.skip(at + 62) =~= path + seq![0u8] + rest);
    lemma_until(path, 0, rest);
}

proof fn lemma_entry_is_read(before: Seq<u8>, e: IndexEntry, time: Timestamp, after: Seq<u8>)
    requires
        legible_entry(e),
    ensures
        read_entry(
            before + entry_bytes(e, time.secs as u32, time.nanos) + after,
            before.len() as int,
        ) == Some(
            (
                read_as(e, time),
                (before.len() + entry_bytes(e, time.secs as u32, time.nanos).len()) as int,
            ),
        ),
{
    let secs = time.secs as u32;
    let nanos = time.nanos;
    let size = e.size as u32;
    let w = stat_words(secs, nanos, e.mode, size);
    let (flags, pad) = lemma_entry_parts(e, secs, nanos);
    lemma_stat_words(secs, nanos, e.mode, size, 0);
    lemma_parts_are_placed(before, w, e.oid@.digest, flags, e.path@, pad, after);
    lemma_placed_entry(
        before + entry_bytes(e, secs, nanos) + after,
        before.len() as int,
        e,
        time,
    );
}

/// What an entry with its parts in place is read as.
proof fn lemma_placed_entry(b: Seq<u8>, at: int, e: IndexEntry, time: Timestamp)
    requires
        0 <= at,
        at + 62 <= b.len(),
        b.subrange(at, at + 40) == stat_words(
            time.secs as u32,
            time.nanos,
            e.mode,
            e.size as u32,
        ),
        b.subrange(at + 40, at + 60) == e.oid@.digest,
        until(b.skip(at + 62), 0) matches Some((read, _)) && read == e.path@,
    ensures
        read_entry(b, at) == Some(
            (read_as(e, time), at + (62 + e.path@.len() + 8) / 8 * 8),
        ),
{
    reveal(read_entry);
    let secs = time.secs as u32;
    let nanos = time.nanos;
    let size = e.size as u32;
    lemma_stat_word(b, at, secs, nanos, e.mode, size, 0);
    lemma_stat_word(b, at, secs, nanos, e.mode, size, 1);
    lemma_stat_word(b, at, secs, nanos, e.mode, size, 2);
    lemma_stat_word(b, at, secs, nanos, e.mode, size, 3);
    lemma_stat_word(b, at, secs, nanos, e.mode, size, 4);
    lemma_stat_word(b, at, secs, nanos, e.mode, size, 5);
    lemma_stat_word(b, at, secs, nanos, e.mode, size, 6);
    lemma_stat_word(b, at, secs, nanos, e.mode, size, 7);
    lemma_stat_word(b, at, secs, nanos, e.mode, size, 8);
    lemma_stat_word(b, at, secs, nanos, e.mode, size, 9);
}

#[verifier::rlimit(30)]
proof fn lemma_entries_are_read(
    entries: Seq<IndexEntry>,
    time: Timestamp,
    head: Seq<u8>,
    tail: Seq<u8>,
    n: nat,
)
    requires
        head.len() == 12,
        n <= entries.len(),
        forall|i: int| 0 <= i < n ==> legible_entry(#[trigger] entries[i]),
    ensures
        read_entries(head + entries_bytes(entries, time.secs as u32, time.nanos, n) + tail, n)
            == Some(
            (
                Seq::new(n, |i: int| read_as(entries[i], time)),
                (12 + entries_bytes(entries, time.secs as u32, time.nanos, n).len()) as int,
            ),
        ),
    decreases n,
{
    let secs = time.secs as u32;
    let b = head + entries_bytes(entries, secs, time.nanos, n) + tail;
    let read = Seq::new(n, |i: int| read_as(entries[i], time));
    if n == 0 {
        assert(read =~= Seq::<ReadEntry>::empty());
    } else {
        let e = entries[n - 1];
        let record = entry_bytes(e, secs, time.nanos);
        let earlier = entries_bytes(entries, secs, time.nanos, (n - 1) as nat);
        assert(b =~= head + earlier + (record + tail));
        assert(b =~= (head + earlier) + record + tail);
        lemma_entries_are_read(entries, time, head, record + tail, (n - 1) as nat);
        lemma_entry_is_read(head + earlier, e, time, tail);
        assert(read =~= Seq::new((n - 1) as nat, |i: int| read_as(entries[i], time)).push(
            read_as(e, time),
        ));
    }
}

/// The extension at `at`: its signature, its body, and where it ends.
#[verifier::opaque]
pub open spec fn read_extension(b: Seq<u8>, at: int) -> Option<(Seq<u8>, Seq<u8>, int)> {
    if at + 8 > b.len() || at + 8 + be32_at(b, at + 4) > b.len() {
        None
    } else {
        let end = at + 8 + be32_at(b, at + 4);
        Some((b.subrange(at, at + 4), b.subrange(at + 8, end), end))
    }
}

/// An extension is read back.
pub proof fn lemma_extension(before: Seq<u8>, signature: Seq<u8>, body: Seq<u8>, after: Seq<u8>)
    requires
        signature.len() == 4,
        body.len() <= 0xFFFF_FFFF,
    ensures
        read_extension(
            before + (signature + be32(body.len() as u32) + body + after),
            before.len() as int,
        ) == Some((signature, body, (before.len() + 8 + body.len()) as int)),
{
    reveal(read_extension);
    let b = before + (signature + be32(body.len() as u32) + body + after);
    let at = before.len() as int;
    assert(b =~= (before + signature) + be32(body.len() as u32) + (body + after));
    lemma_word(before + signature, body.len() as u32, body + after);
    assert(b.subrange(at, at + 4) =~= signature);
    assert(b.subrange(at + 8, at + 8 + body.len()) =~= body);
}

/// The header is read back.
proof fn lemma_head_is_read(count: u32, rest: Seq<u8>)
    ensures
        ({
            let b = dirc() + be32(2) + be32(count) + rest;
            &&& b.take(4) == dirc()
            &&& be32_at(b, 4) == 2
            &&& be32_at(b, 8) == count
        }),
{
    let b = dirc() + be32(2) + be32(count) + rest;
    assert(b.take(4) =~= dirc());
    assert(b =~= dirc() + be32(2) + (be32(count) + rest));
    lemma_word(dirc(), 2, be32(count) + rest);
    lemma_word(dirc() + be32(2), count, rest);
}

/// The header and the entries are read back, whatever stands behind them.
proof fn lemma_body_is_read(entries: Seq<IndexEntry>, time: Timestamp, tail: Seq<u8>)
    requires
        entries.len() <= 0xFFFF_FFFF,
        forall|i: int| 0 <= i < entries.len() ==> legible_entry(#[trigger] entries[i]),
    ensures
        ({
            let b = index_body(entries, time) + tail;
            &&& b.take(4) == dirc()
            &&& be32_at(b, 4) == 2
            &&& be32_at(b, 8) == entries.len()
            &&& read_entries(b, entries.len()) == Some(
                (
                    Seq::new(entries.len(), |i: int| read_as(entries[i], time)),
                    index_body(entries, time).len() as int,
                ),
            )
        }),
{
    let count = entries.len() as u32;
    let head = dirc() + be32(2) + be32(count);
    let all = entries_bytes(entries, time.secs as u32, time.nanos, entries.len());
    assert(head.len() == 12);
    lemma_head_is_read(count, all + tail);
    lemma_concat_assoc(head, all, tail);
    lemma_entries_are_read(entries, time, head, tail, entries.len());
}

/// A written index is its body, at most one extension, and a digest.
proof fn lemma_written(
    entries: Seq<IndexEntry>,
    time: Timestamp,
    cache_tree: Option<CacheTree>,
    index: Vec<u8>,
)
    requires
        index_outcome(entries, time, cache_tree, Ok(index)),
    ensures
        entries.len() <= 0xFFFF_FFFF,
        ({
            let body = index_body(entries, time);
            let extra = match cache_tree {
                None => Seq::<u8>::empty(),
                Some(root) => tree_extension(root),
            };
            let seal = sha1_of(body + extra);
            &&& seal.len() == 20
            &&& index@ == body + (extra + seal)
            &&& cache_tree matches Some(root) ==> tree_bytes(root).len() <= 0xFFFF_FFFF
        }),
{
    let body = index_body(entries, time);
    assert(body + Seq::<u8>::empty() =~= body);
    let extra = match cache_tree {
        None => Seq::<u8>::empty(),
        Some(root) => tree_extension(root),
    };
    lemma_concat_assoc(body, extra, sha1_of(body + extra));
}

/// A written index is read back: the version-2 header with the number of
/// entries; every entry in order, with the snapshot time, the mode, the size,
/// the object and the path it was written with; at most one extension behind
/// them; and the digest of all that at the end.
pub proof fn law_a_reader_recovers_the_entries(
    entries: Seq<IndexEntry>,
    time: Timestamp,
    cache_tree: Option<CacheTree>,
    index: Vec<u8>,
)
    requires
        index_outcome(entries, time, cache_tree, Ok(index)),
        forall|i: int| 0 <= i < entries.len() ==> legible_entry(#[trigger] entries[i]),
    ensures
        index@.take(4) == seq![68u8, 73, 82, 67],
        be32_at(index@, 4) == 2,
        be32_at(index@, 8) == entries.len(),
        read_entries(index@, entries.len()) matches Some((read, end)) && read.len()
            == entries.len() && (forall|i: int|
            0 <= i < entries.len() ==> #[trigger] read[i] == read_as(entries[i], time)) && (
        match cache_tree {
            None => end + 20 == index@.len(),
            Some(_) => read_extension(index@, end) matches Some((_, _, behind)) && behind + 20
                == index@.len(),
        }),
        index@.skip(index@.len() - 20) == sha1_of(index@.take(index@.len() - 20)),
{
    let body = index_body(entries, time);
    let extra = match cache_tree {
        None => Seq::<u8>::empty(),
        Some(root) => tree_extension(root),
    };
    let seal = sha1_of(body + extra);
    lemma_written(entries, time, cache_tree, index);
    lemma_body_is_read(entries, time, extra + seal);
    if cache_tree is Some {
        lemma_extension(body, tree_signature(), tree_bytes(cache_tree->0), seal);
    }
    assert(index@.take(index@.len() - 20) =~= body + extra);
    assert(index@.skip(index@.len() - 20) =~= seal);
}

/// A reader of the `TREE` extension of a written index recovers the tree: for
/// every directory its name, how many entries it covers, the digest of its
/// tree object and its subdirectories, with nothing left over.
pub proof fn law_a_reader_recovers_the_cache_tree(
    entries: Seq<IndexEntry>,
    time: Timestamp,
    root: CacheTree,
    index: Vec<u8>,
)
    requires
        index_outcome(entries, time, Some(root), Ok(index)),
        forall|i: int| 0 <= i < entries.len() ==> legible_entry(#[trigger] entries[i]),
        legible(root),
    ensures
        read_entries(index@, entries.len()) matches Some((_, end)) && (read_extension(
            index@,
            end,
        ) matches Some((signature, body, _)) && signature == seq![84u8, 82, 69, 69] && (read_tree(
            body,
            body.len(),
        ) matches Some((read, rest)) && says(read, root) && rest.len() == 0)),
{
    let body = index_body(entries, time);
    let t = tree_bytes(root);
    let seal = sha1_of(body + tree_extension(root));
    lemma_written(entries, time, Some(root), index);
    lemma_body_is_read(entries, time, tree_extension(root) + seal);
    lemma_extension(body, tree_signature(), t, seal);
    assert(tree_signature() =~= seq![84u8, 82, 69, 69]);
    let read = lemma_tree_is_read(root, Seq::empty(), t.len());
    assert(t + Seq::<u8>::empty() =~= t);
}

} // verus!
