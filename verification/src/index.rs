//! Git index files, version 2, with the cache tree (`TREE`) extension.
//!
//! Every entry records the snapshot time as its modification time and the
//! blob's true size; device, inode, owner, group and change time are zero.
use vstd::prelude::*;
use crate::bytes::{
    append_bytes, append_zeros, be16, be32, bytes_lt, copy_bytes, has_prefix, lemma_lex_transitive,
    lex_lt, push_be16, push_be32, starts_with, zeros,
};
use crate::error::{ErrorCode, GfsError};
use crate::hashing::{sha1_digest, sha1_of};
use crate::object::{HashAlgorithm, ObjectId};
use crate::sorting::{
    index_views, key_views, lemma_one_sorted_order, lemma_precedes_total,
    lemma_precedes_transitive, lemma_sorted_lists_each_once, lemma_sorted_order, lists_each_once,
    precedes, sort_indices, sorted_order, strictly_sorted, NameOrder,
};
use crate::text::{
    debug_quoted, decimal, decimal_bytes, lossy, push_decimal, push_decimal_bytes, push_quoted,
};
use crate::time::Timestamp;

verus! {

/// One index entry, in the order the walk yields them.
#[derive(Debug)]
pub struct IndexEntry {
    /// Repository-relative path, no leading slash.
    pub path: Vec<u8>,
    /// The Git tree mode.
    pub mode: u32,
    pub oid: ObjectId,
    pub size: u64,
}

/// One directory of the `TREE` extension: the tree object it hashes to, how
/// many index entries it covers, and its subdirectories.
#[derive(Debug)]
pub struct CacheTree {
    /// The path component, empty for the root.
    pub name: Vec<u8>,
    /// The tree object this directory hashes to.
    pub oid: ObjectId,
    /// Index entries covered, counted recursively.
    pub entries: u32,
    /// Direct subdirectories, in any order.
    pub children: Vec<CacheTree>,
}

/// The bytes of a `DIRC` signature.
pub open spec fn dirc() -> Seq<u8> {
    seq![68u8, 73, 82, 67]
}

/// The bytes of a `TREE` signature.
pub open spec fn tree_signature() -> Seq<u8> {
    seq![84u8, 82, 69, 69]
}

/// An entry without its padding.
pub open spec fn entry_body(e: IndexEntry, secs: u32, nanos: u32) -> Seq<u8> {
    be32(0) + be32(0) + be32(secs) + be32(nanos) + be32(0) + be32(0) + be32(e.mode) + be32(0)
        + be32(0) + be32(e.size as u32) + e.oid@.digest + be16(
        (if e.path@.len() < 0xFFF {
            e.path@.len()
        } else {
            0xFFF
        }) as u16,
    ) + e.path@
}

/// An entry, padded with at least one zero byte to a multiple of eight.
pub open spec fn entry_bytes(e: IndexEntry, secs: u32, nanos: u32) -> Seq<u8> {
    let body = entry_body(e, secs, nanos);
    body + zeros((8 - body.len() % 8) as nat)
}

/// The first `n` entries.
pub open spec fn entries_bytes(entries: Seq<IndexEntry>, secs: u32, nanos: u32, n: nat) -> Seq<u8>
    decreases n,
{
    if n == 0 {
        Seq::empty()
    } else {
        entries_bytes(entries, secs, nanos, (n - 1) as nat) + entry_bytes(
            entries[n - 1],
            secs,
            nanos,
        )
    }
}

/// The header and all entries.
pub open spec fn index_body(entries: Seq<IndexEntry>, time: Timestamp) -> Seq<u8> {
    dirc() + be32(2) + be32(entries.len() as u32) + entries_bytes(
        entries,
        time.secs as u32,
        time.nanos,
        entries.len(),
    )
}

/// Why an entry list is refused.
pub enum EntryFault {
    /// The entry does not follow its predecessor in byte order.
    OutOfOrder(int),
    /// The entry is not named by SHA-1.
    Algorithm,
}

/// The first fault at or after entry `i`: order before algorithm.
pub open spec fn entry_fault(entries: Seq<IndexEntry>, i: nat) -> Option<EntryFault>
    decreases entries.len() - i,
{
    if i >= entries.len() {
        None
    } else if i > 0 && !lex_lt(entries[i - 1].path@, entries[i as int].path@) {
        Some(EntryFault::OutOfOrder(i as int))
    } else if entries[i as int].oid@.algorithm != HashAlgorithm::Sha1 {
        Some(EntryFault::Algorithm)
    } else {
        entry_fault(entries, i + 1)
    }
}

/// Whether paths strictly ascend in byte order.
pub open spec fn ascending(entries: Seq<IndexEntry>) -> bool {
    forall|i: int, j: int|
        0 <= i < j < entries.len() ==> lex_lt(
            #[trigger] entries[i].path@,
            #[trigger] entries[j].path@,
        )
}

// ---------------------------------------------------------------------------
// The cache tree
// ---------------------------------------------------------------------------
/// The names of a directory's subdirectories.
pub open spec fn child_names(node: CacheTree) -> Seq<Seq<u8>> {
    Seq::new(node.children@.len(), |i: int| node.children@[i].name@)
}

/// The order in which subdirectories are recorded: shorter names first, then
/// byte order.
pub open spec fn child_order(node: CacheTree) -> Seq<int> {
    sorted_order(NameOrder::ShortLex, child_names(node))
}

/// The first name two neighbours of the recorded order share, from `i` on.
pub open spec fn repeated_name(node: CacheTree, i: nat) -> Option<Seq<u8>>
    decreases node.children@.len() - i,
{
    if i + 1 >= node.children@.len() {
        None
    } else if child_names(node)[child_order(node)[i as int]] == child_names(node)[child_order(
        node,
    )[(i + 1) as int]] {
        Some(child_names(node)[child_order(node)[i as int]])
    } else {
        repeated_name(node, i + 1)
    }
}

/// The first directory name a level of the tree lists twice: this level
/// first, then its subdirectories in recorded order.
pub open spec fn duplicate_fault(node: CacheTree) -> Option<Seq<u8>>
    decreases node, node.children@.len() + 1,
{
    match repeated_name(node, 0) {
        Some(name) => Some(name),
        None => duplicate_below(node, node.children@.len()),
    }
}

/// The first duplicate below the first `n` subdirectories.
pub open spec fn duplicate_below(node: CacheTree, n: nat) -> Option<Seq<u8>>
    decreases node, n,
{
    if n == 0 || n > node.children@.len() {
        None
    } else {
        match duplicate_below(node, (n - 1) as nat) {
            Some(name) => Some(name),
            None => {
                let c = child_order(node)[n - 1];
                if 0 <= c < node.children@.len() {
                    duplicate_fault(node.children@[c])
                } else {
                    None
                }
            },
        }
    }
}

/// How many of the first `n` entries lie under `prefix`.
pub open spec fn covered(entries: Seq<IndexEntry>, prefix: Seq<u8>, n: nat) -> nat
    decreases n,
{
    if n == 0 {
        0
    } else {
        covered(entries, prefix, (n - 1) as nat) + (if has_prefix(entries[n - 1].path@, prefix) {
            1nat
        } else {
            0nat
        })
    }
}

/// A directory whose recorded count is not the number of entries under it.
pub struct CountFault {
    pub prefix: Seq<u8>,
    pub claimed: u32,
    pub held: nat,
}

/// The first wrong count: this directory, then its subdirectories in recorded
/// order.
pub open spec fn count_fault(
    node: CacheTree,
    prefix: Seq<u8>,
    entries: Seq<IndexEntry>,
) -> Option<CountFault>
    decreases node, node.children@.len() + 1,
{
    let held = covered(entries, prefix, entries.len());
    if held != node.entries {
        Some(CountFault { prefix, claimed: node.entries, held })
    } else {
        count_below(node, prefix, entries, node.children@.len())
    }
}

/// The first wrong count below the first `n` subdirectories.
pub open spec fn count_below(
    node: CacheTree,
    prefix: Seq<u8>,
    entries: Seq<IndexEntry>,
    n: nat,
) -> Option<CountFault>
    decreases node, n,
{
    if n == 0 || n > node.children@.len() {
        None
    } else {
        match count_below(node, prefix, entries, (n - 1) as nat) {
            Some(fault) => Some(fault),
            None => {
                let c = child_order(node)[n - 1];
                if 0 <= c < node.children@.len() {
                    count_fault(
                        node.children@[c],
                        prefix + node.children@[c].name@ + seq![47u8],
                        entries,
                    )
                } else {
                    None
                }
            },
        }
    }
}

/// Whether every directory is named by SHA-1.
pub open spec fn all_sha1(node: CacheTree) -> bool
    decreases node, node.children@.len() + 1,
{
    node.oid@.algorithm == HashAlgorithm::Sha1 && all_sha1_below(node, node.children@.len())
}

/// Whether the first `n` subdirectories are named by SHA-1 throughout.
pub open spec fn all_sha1_below(node: CacheTree, n: nat) -> bool
    decreases node, n,
{
    if n == 0 || n > node.children@.len() {
        true
    } else {
        let c = child_order(node)[n - 1];
        all_sha1_below(node, (n - 1) as nat) && (0 <= c < node.children@.len() ==> all_sha1(
            node.children@[c],
        ))
    }
}

/// A directory's record: name, counts, tree, then its subdirectories in
/// recorded order.
pub open spec fn tree_bytes(node: CacheTree) -> Seq<u8>
    decreases node, node.children@.len() + 1,
{
    node.name@ + seq![0u8] + decimal_bytes(node.entries as nat) + seq![32u8] + decimal_bytes(
        node.children@.len(),
    ) + seq![10u8] + node.oid@.digest + subtrees_bytes(node, node.children@.len())
}

/// The records of the first `n` subdirectories.
pub open spec fn subtrees_bytes(node: CacheTree, n: nat) -> Seq<u8>
    decreases node, n,
{
    if n == 0 || n > node.children@.len() {
        Seq::empty()
    } else {
        let c = child_order(node)[n - 1];
        subtrees_bytes(node, (n - 1) as nat) + (if 0 <= c < node.children@.len() {
            tree_bytes(node.children@[c])
        } else {
            Seq::empty()
        })
    }
}

/// The subdirectories' recorded order.
fn order_children(node: &CacheTree) -> (res: Vec<usize>)
    ensures
        index_views(res@) == child_order(*node),
        res@.len() == node.children@.len(),
        forall|i: int| 0 <= i < res@.len() ==> #[trigger] res@[i] < node.children@.len(),
        forall|i: int| 0 <= i < res@.len() ==> #[trigger] child_order(*node)[i] == res@[i],
{
    let mut names: Vec<Vec<u8>> = Vec::new();
    let mut i: usize = 0;
    while i < node.children.len()
        invariant
            i <= node.children@.len(),
            names@.len() == i,
            forall|k: int| 0 <= k < i ==> #[trigger] names@[k]@ == node.children@[k].name@,
        decreases node.children.len() - i,
    {
        names.push(copy_bytes(node.children[i].name.as_slice()));
        i = i + 1;
    }
    assert(key_views(names@) =~= child_names(*node));
    let res = sort_indices(NameOrder::ShortLex, &names);
    assert forall|i: int| 0 <= i < res@.len() implies #[trigger] child_order(*node)[i] == res@[i] by {
        assert(index_views(res@)[i] == res@[i]);
    }
    res
}

/// Refuse a level that names a directory twice.
fn check_duplicates(node: &CacheTree) -> (res: Result<(), GfsError>)
    ensures
        match duplicate_fault(*node) {
            None => res is Ok,
            Some(name) => res matches Err(e) && e.reads(
                ErrorCode::Internal,
                "cache tree names the directory "@ + debug_quoted(lossy(name)) + " twice"@,
            ),
        },
    decreases node,
{
    let order = order_children(node);
    let n = order.len();
    let mut i: usize = 0;
    while n > 0 && i < n - 1
        invariant
            n == order@.len() == node.children@.len(),
            i <= n,
            forall|k: int| 0 <= k < order@.len() ==> #[trigger] order@[k] < node.children@.len(),
            forall|k: int| 0 <= k < order@.len() ==> #[trigger] child_order(*node)[k] == order@[k],
            repeated_name(*node, 0) == repeated_name(*node, i as nat),
        decreases n - i,
    {
        let a = &node.children[order[i]].name;
        let b = &node.children[order[i + 1]].name;
        assert(child_order(*node)[i as int] == order@[i as int]);
        assert(child_order(*node)[i + 1] == order@[i + 1]);
        if crate::bytes::bytes_eq(a.as_slice(), b.as_slice()) {
            let mut message = "cache tree names the directory ".to_owned();
            push_quoted(&mut message, a.as_slice());
            message.append(" twice");
            return Err(GfsError::of(ErrorCode::Internal, message));
        }
        i = i + 1;
    }
    let mut k: usize = 0;
    while k < n
        invariant
            n == order@.len() == node.children@.len(),
            k <= n,
            forall|j: int| 0 <= j < order@.len() ==> #[trigger] order@[j] < node.children@.len(),
            forall|j: int| 0 <= j < order@.len() ==> #[trigger] child_order(*node)[j] == order@[j],
            repeated_name(*node, 0) is None,
            duplicate_below(*node, k as nat) is None,
        decreases n - k,
    {
        assert(child_order(*node)[k as int] == order@[k as int]);
        let below = check_duplicates(&node.children[order[k]]);
        if below.is_err() {
            proof {
                lemma_duplicate_below(*node, (k + 1) as nat, n as nat);
            }
            return below;
        }
        k = k + 1;
    }
    Ok(())
}

proof fn lemma_duplicate_below(node: CacheTree, n: nat, m: nat)
    requires
        n <= m <= node.children@.len(),
        duplicate_below(node, n) is Some,
    ensures
        duplicate_below(node, m) == duplicate_below(node, n),
    decreases m,
{
    if n < m {
        lemma_duplicate_below(node, n, (m - 1) as nat);
    }
}

proof fn lemma_count_below(
    node: CacheTree,
    prefix: Seq<u8>,
    entries: Seq<IndexEntry>,
    n: nat,
    m: nat,
)
    requires
        n <= m <= node.children@.len(),
        count_below(node, prefix, entries, n) is Some,
    ensures
        count_below(node, prefix, entries, m) == count_below(node, prefix, entries, n),
    decreases m,
{
    if n < m {
        lemma_count_below(node, prefix, entries, n, (m - 1) as nat);
    }
}

proof fn lemma_not_sha1_below(node: CacheTree, n: nat, m: nat)
    requires
        n <= m <= node.children@.len(),
        !all_sha1_below(node, n),
    ensures
        !all_sha1_below(node, m),
    decreases m,
{
    if n < m {
        lemma_not_sha1_below(node, n, (m - 1) as nat);
    }
}

proof fn lemma_lt_is_not_prefixed(x: Seq<u8>, p: Seq<u8>, i: nat)
    requires
        has_prefix(x, p),
    ensures
        !crate::bytes::lex_lt_from(x, p, i),
    decreases p.len() - i,
{
    if i < p.len() && i < x.len() {
        assert(x.subrange(0, p.len() as int)[i as int] == p[i as int]);
        lemma_lt_is_not_prefixed(x, p, i + 1);
    }
}

proof fn lemma_past_prefix(x: Seq<u8>, y: Seq<u8>, p: Seq<u8>, i: nat)
    requires
        i <= x.len(),
        i <= p.len(),
        forall|k: int| 0 <= k < i ==> x[k] == p[k],
        !crate::bytes::lex_lt_from(x, p, i),
        !has_prefix(x, p),
        has_prefix(y, p),
    ensures
        !crate::bytes::lex_lt_from(x, y, i),
    decreases p.len() - i,
{
    if i >= p.len() {
        assert(x.subrange(0, p.len() as int) =~= p);
    } else {
        assert(y.subrange(0, p.len() as int)[i as int] == p[i as int]);
        if i < x.len() && x[i as int] == p[i as int] {
            lemma_past_prefix(x, y, p, i + 1);
        }
    }
}

proof fn lemma_covered_all(entries: Seq<IndexEntry>, prefix: Seq<u8>, lo: nat, hi: nat, n: nat)
    requires
        lo <= hi <= entries.len(),
        n <= entries.len(),
        forall|k: int| 0 <= k < lo ==> !has_prefix(#[trigger] entries[k].path@, prefix),
        forall|k: int| lo <= k < hi ==> has_prefix(#[trigger] entries[k].path@, prefix),
        forall|k: int| hi <= k < entries.len() ==> !has_prefix(#[trigger] entries[k].path@, prefix),
    ensures
        covered(entries, prefix, n) == (if n <= lo {
            0
        } else if n <= hi {
            n - lo
        } else {
            hi - lo
        }),
    decreases n,
{
    if n > 0 {
        lemma_covered_all(entries, prefix, lo, hi, (n - 1) as nat);
    }
}

/// The number of entries under `prefix`: a run found by binary search.
fn count_covered(prefix: &[u8], entries: &[IndexEntry]) -> (res: usize)
    requires
        ascending(entries@),
    ensures
        res == covered(entries@, prefix@, entries@.len()),
{
    let mut lo: usize = 0;
    let mut hi: usize = entries.len();
    while lo < hi
        invariant
            lo <= hi <= entries@.len(),
            ascending(entries@),
            forall|k: int| 0 <= k < lo ==> lex_lt(#[trigger] entries@[k].path@, prefix@),
            forall|k: int| hi <= k < entries@.len() ==> !lex_lt(#[trigger] entries@[k].path@, prefix@),
        decreases hi - lo,
    {
        let mid = lo + (hi - lo) / 2;
        if bytes_lt(entries[mid].path.as_slice(), prefix) {
            proof {
                assert forall|k: int| 0 <= k < mid + 1 implies lex_lt(
                    #[trigger] entries@[k].path@,
                    prefix@,
                ) by {
                    if k < mid {
                        crate::bytes::lemma_lex_transitive(
                            entries@[k].path@,
                            entries@[mid as int].path@,
                            prefix@,
                        );
                    }
                }
            }
            lo = mid + 1;
        } else {
            proof {
                assert forall|k: int| mid <= k < entries@.len() implies !lex_lt(
                    #[trigger] entries@[k].path@,
                    prefix@,
                ) by {
                    if k > mid && lex_lt(entries@[k].path@, prefix@) {
                        crate::bytes::lemma_lex_transitive(
                            entries@[mid as int].path@,
                            entries@[k].path@,
                            prefix@,
                        );
                    }
                }
            }
            hi = mid;
        }
    }
    let start = lo;
    let mut end = start;
    while end < entries.len() && starts_with(entries[end].path.as_slice(), prefix)
        invariant
            start <= end <= entries@.len(),
            forall|k: int| start <= k < end ==> has_prefix(#[trigger] entries@[k].path@, prefix@),
        decreases entries.len() - end,
    {
        end = end + 1;
    }
    proof {
        assert forall|k: int| 0 <= k < start implies !has_prefix(
            #[trigger] entries@[k].path@,
            prefix@,
        ) by {
            if has_prefix(entries@[k].path@, prefix@) {
                lemma_lt_is_not_prefixed(entries@[k].path@, prefix@, 0);
            }
        }
        assert forall|k: int| end <= k < entries@.len() implies !has_prefix(
            #[trigger] entries@[k].path@,
            prefix@,
        ) by {
            if k > end && has_prefix(entries@[k].path@, prefix@) {
                lemma_past_prefix(entries@[end as int].path@, entries@[k].path@, prefix@, 0);
            }
        }
        lemma_covered_all(entries@, prefix@, start as nat, end as nat, entries@.len());
    }
    end - start
}

/// Check every recorded entry count against the entries themselves.
fn verify_cache_tree(node: &CacheTree, prefix: &Vec<u8>, entries: &[IndexEntry]) -> (res: Result<
    (),
    GfsError,
>)
    requires
        ascending(entries@),
    ensures
        match count_fault(*node, prefix@, entries@) {
            None => res is Ok,
            Some(fault) => res matches Err(e) && e.reads(
                ErrorCode::Internal,
                "cache tree for "@ + debug_quoted(lossy(fault.prefix)) + " claims "@ + decimal(
                    fault.claimed as nat,
                ) + " entries but the index holds "@ + decimal(fault.held),
            ),
        },
    decreases node,
{
    let held = count_covered(prefix.as_slice(), entries);
    if held != node.entries as usize {
        let mut message = "cache tree for ".to_owned();
        push_quoted(&mut message, prefix.as_slice());
        message.append(" claims ");
        push_decimal(&mut message, node.entries as u64);
        message.append(" entries but the index holds ");
        push_decimal(&mut message, held as u64);
        return Err(GfsError::of(ErrorCode::Internal, message));
    }
    let order = order_children(node);
    let n = order.len();
    let mut k: usize = 0;
    while k < n
        invariant
            n == order@.len() == node.children@.len(),
            k <= n,
            ascending(entries@),
            forall|j: int| 0 <= j < order@.len() ==> #[trigger] order@[j] < node.children@.len(),
            forall|j: int| 0 <= j < order@.len() ==> #[trigger] child_order(*node)[j] == order@[j],
            covered(entries@, prefix@, entries@.len()) == node.entries,
            count_below(*node, prefix@, entries@, k as nat) is None,
        decreases n - k,
    {
        assert(child_order(*node)[k as int] == order@[k as int]);
        let child = &node.children[order[k]];
        let mut below = copy_bytes(prefix.as_slice());
        append_bytes(&mut below, child.name.as_slice());
        below.push(47);
        assert(below@ =~= prefix@ + child.name@ + seq![47u8]);
        let checked = verify_cache_tree(child, &below, entries);
        if checked.is_err() {
            proof {
                lemma_count_below(*node, prefix@, entries@, (k + 1) as nat, n as nat);
            }
            return checked;
        }
        k = k + 1;
    }
    Ok(())
}

/// Append a directory's record.
fn write_cache_tree(out: &mut Vec<u8>, node: &CacheTree) -> (res: Result<(), GfsError>)
    ensures
        res is Ok <==> all_sha1(*node),
        res is Ok ==> final(out)@ == old(out)@ + tree_bytes(*node),
        res matches Err(e) ==> e.reads(
            ErrorCode::UnsupportedRepositoryFormat,
            "index v2 records SHA-1 object IDs (ADR 0001)"@,
        ),
    decreases node,
{
    append_bytes(out, node.name.as_slice());
    out.push(0);
    push_decimal_bytes(out, node.entries as u64);
    out.push(32);
    push_decimal_bytes(out, node.children.len() as u64);
    out.push(10);
    if node.oid.algorithm() != HashAlgorithm::Sha1 {
        return Err(
            GfsError::new(
                ErrorCode::UnsupportedRepositoryFormat,
                "index v2 records SHA-1 object IDs (ADR 0001)",
            ),
        );
    }
    append_bytes(out, node.oid.as_bytes());
    let ghost head = out@;
    let order = order_children(node);
    let n = order.len();
    let mut k: usize = 0;
    assert(out@ =~= head + subtrees_bytes(*node, 0));
    while k < n
        invariant
            n == order@.len() == node.children@.len(),
            k <= n,
            node.oid@.algorithm == HashAlgorithm::Sha1,
            forall|j: int| 0 <= j < order@.len() ==> #[trigger] order@[j] < node.children@.len(),
            forall|j: int| 0 <= j < order@.len() ==> #[trigger] child_order(*node)[j] == order@[j],
            all_sha1_below(*node, k as nat),
            out@ == head + subtrees_bytes(*node, k as nat),
        decreases n - k,
    {
        assert(child_order(*node)[k as int] == order@[k as int]);
        let written = write_cache_tree(out, &node.children[order[k]]);
        if written.is_err() {
            proof {
                assert(!all_sha1_below(*node, (k + 1) as nat));
                lemma_not_sha1_below(*node, (k + 1) as nat, n as nat);
            }
            return written;
        }
        k = k + 1;
        assert(out@ =~= head + subtrees_bytes(*node, k as nat));
    }
    assert(head =~= old(out)@ + node.name@ + seq![0u8] + decimal_bytes(node.entries as nat)
        + seq![32u8] + decimal_bytes(node.children@.len()) + seq![10u8] + node.oid@.digest);
    assert(out@ =~= old(out)@ + tree_bytes(*node));
    Ok(())
}

/// The `TREE` extension that records a cache tree.
pub open spec fn tree_extension(root: CacheTree) -> Seq<u8> {
    tree_signature() + be32(tree_bytes(root).len() as u32) + tree_bytes(root)
}

/// The `TREE` extension of a checked cache tree, or why it cannot be recorded.
fn cache_tree_extension(root: &CacheTree, entries: &[IndexEntry]) -> (res: Result<
    Vec<u8>,
    GfsError,
>)
    requires
        ascending(entries@),
    ensures
        tree_outcome(*root, entries@, res),
{
    match check_duplicates(root) {
        Ok(()) => {},
        Err(e) => {
            return Err(e);
        },
    }
    let prefix: Vec<u8> = Vec::new();
    assert(prefix@ =~= Seq::<u8>::empty());
    match verify_cache_tree(root, &prefix, entries) {
        Ok(()) => {},
        Err(e) => {
            return Err(e);
        },
    }
    let mut body: Vec<u8> = Vec::new();
    match write_cache_tree(&mut body, root) {
        Ok(()) => {},
        Err(e) => {
            return Err(e);
        },
    }
    assert(body@ =~= tree_bytes(*root));
    if body.len() > 0xFFFF_FFFF {
        return Err(
            GfsError::new(ErrorCode::ResourceLimit, "cache tree is too large to record"),
        );
    }
    let mut out: Vec<u8> = Vec::new();
    out.push(84);
    out.push(82);
    out.push(69);
    out.push(69);
    push_be32(&mut out, body.len() as u32);
    append_bytes(&mut out, body.as_slice());
    assert(out@ =~= tree_extension(*root));
    Ok(out)
}

/// What becomes of a cache tree: a duplicate name, then a wrong count, then an
/// algorithm other than SHA-1, then a record too large refuse it, in that
/// order; otherwise it is recorded.
pub open spec fn tree_outcome(
    root: CacheTree,
    entries: Seq<IndexEntry>,
    res: Result<Vec<u8>, GfsError>,
) -> bool {
    match duplicate_fault(root) {
        Some(name) => res matches Err(e) && e.reads(
            ErrorCode::Internal,
            "cache tree names the directory "@ + debug_quoted(lossy(name)) + " twice"@,
        ),
        None => match count_fault(root, Seq::empty(), entries) {
            Some(fault) => res matches Err(e) && e.reads(
                ErrorCode::Internal,
                "cache tree for "@ + debug_quoted(lossy(fault.prefix)) + " claims "@ + decimal(
                    fault.claimed as nat,
                ) + " entries but the index holds "@ + decimal(fault.held),
            ),
            None => if !all_sha1(root) {
                res matches Err(e) && e.reads(
                    ErrorCode::UnsupportedRepositoryFormat,
                    "index v2 records SHA-1 object IDs (ADR 0001)"@,
                )
            } else if tree_bytes(root).len() > 0xFFFF_FFFF {
                res matches Err(e) && e.reads(
                    ErrorCode::ResourceLimit,
                    "cache tree is too large to record"@,
                )
            } else {
                res matches Ok(bytes) && bytes@ == tree_extension(root)
            },
        },
    }
}

/// Append one entry.
fn push_entry(out: &mut Vec<u8>, entry: &IndexEntry, secs: u32, nanos: u32)
    ensures
        final(out)@ == old(out)@ + entry_bytes(*entry, secs, nanos),
{
    let mut body: Vec<u8> = Vec::new();
    push_be32(&mut body, 0);
    push_be32(&mut body, 0);
    push_be32(&mut body, secs);
    push_be32(&mut body, nanos);
    push_be32(&mut body, 0);
    push_be32(&mut body, 0);
    push_be32(&mut body, entry.mode);
    push_be32(&mut body, 0);
    push_be32(&mut body, 0);
    push_be32(&mut body, entry.size as u32);
    append_bytes(&mut body, entry.oid.as_bytes());
    let name_len: u16 = if entry.path.len() < 0xFFF {
        entry.path.len() as u16
    } else {
        0xFFF
    };
    push_be16(&mut body, name_len);
    append_bytes(&mut body, entry.path.as_slice());
    assert(body@ =~= entry_body(*entry, secs, nanos));
    let pad: usize = 8 - body.len() % 8;
    append_zeros(&mut body, pad);
    append_bytes(out, body.as_slice());
}

/// The file header.
fn index_header(count: u32) -> (res: Vec<u8>)
    ensures
        res@ == dirc() + be32(2) + be32(count),
{
    let mut out: Vec<u8> = Vec::new();
    out.push(68);
    out.push(73);
    out.push(82);
    out.push(67);
    push_be32(&mut out, 2);
    push_be32(&mut out, count);
    assert(out@ =~= dirc() + be32(2) + be32(count));
    out
}

/// The header and the entries, or the first fault.
fn write_entries(entries: &[IndexEntry], time: Timestamp) -> (res: Result<Vec<u8>, GfsError>)
    ensures
        entries_outcome(entries@, time, res),
        res is Ok ==> ascending(entries@),
{
    if entries.len() > 0xFFFF_FFFF {
        return Err(GfsError::new(ErrorCode::ResourceLimit, "too many entries for an index"));
    }
    let mut out = index_header(entries.len() as u32);
    let secs: u32 = time.secs as u32;
    let nanos: u32 = time.nanos;
    let ghost head = out@;
    let mut i: usize = 0;
    assert(head + Seq::<u8>::empty() =~= head);
    while i < entries.len()
        invariant
            i <= entries@.len() <= 0xFFFF_FFFF,
            entry_fault(entries@, 0) == entry_fault(entries@, i as nat),
            forall|a: int, b: int|
                0 <= a < b < i ==> lex_lt(#[trigger] entries@[a].path@, #[trigger] entries@[b].path@),
            out@ == head + entries_bytes(entries@, secs, nanos, i as nat),
        decreases entries.len() - i,
    {
        if i > 0 && !bytes_lt(entries[i - 1].path.as_slice(), entries[i].path.as_slice()) {
            let mut message = "index entries out of order: ".to_owned();
            push_quoted(&mut message, entries[i - 1].path.as_slice());
            message.append(" then ");
            push_quoted(&mut message, entries[i].path.as_slice());
            return Err(GfsError::of(ErrorCode::Internal, message));
        }
        if entries[i].oid.algorithm() != HashAlgorithm::Sha1 {
            return Err(
                GfsError::new(
                    ErrorCode::UnsupportedRepositoryFormat,
                    "index v2 records SHA-1 object IDs (ADR 0001)",
                ),
            );
        }
        proof {
            assert forall|a: int| 0 <= a < i implies lex_lt(
                #[trigger] entries@[a].path@,
                entries@[i as int].path@,
            ) by {
                if a < i - 1 {
                    crate::bytes::lemma_lex_transitive(
                        entries@[a].path@,
                        entries@[i - 1].path@,
                        entries@[i as int].path@,
                    );
                }
            }
        }
        push_entry(&mut out, &entries[i], secs, nanos);
        proof {
            assert(entries_bytes(entries@, secs, nanos, (i + 1) as nat) == entries_bytes(
                entries@,
                secs,
                nanos,
                i as nat,
            ) + entry_bytes(entries@[i as int], secs, nanos));
            crate::bytes::lemma_concat_assoc(
                head,
                entries_bytes(entries@, secs, nanos, i as nat),
                entry_bytes(entries@[i as int], secs, nanos),
            );
        }
        i = i + 1;
    }
    Ok(out)
}

/// What the entries alone give: too many of them, or the first faulty one,
/// refuses the list.
pub open spec fn entries_outcome(
    entries: Seq<IndexEntry>,
    time: Timestamp,
    res: Result<Vec<u8>, GfsError>,
) -> bool {
    if entries.len() > 0xFFFF_FFFF {
        res matches Err(e) && e.reads(ErrorCode::ResourceLimit, "too many entries for an index"@)
    } else {
        match entry_fault(entries, 0) {
            Some(EntryFault::OutOfOrder(i)) => res matches Err(e) && e.reads(
                ErrorCode::Internal,
                "index entries out of order: "@ + debug_quoted(lossy(entries[i - 1].path@))
                    + " then "@ + debug_quoted(lossy(entries[i].path@)),
            ),
            Some(EntryFault::Algorithm) => res matches Err(e) && e.reads(
                ErrorCode::UnsupportedRepositoryFormat,
                "index v2 records SHA-1 object IDs (ADR 0001)"@,
            ),
            None => res matches Ok(bytes) && bytes@ == index_body(entries, time),
        }
    }
}

/// Serialize entries into a version-2 index file, with an optional cache tree.
///
/// Entries must arrive in index order, strictly ascending by path in byte
/// order; a list that is not is refused, not sorted.
pub fn write_index_v2(
    entries: &[IndexEntry],
    snapshot_time: Timestamp,
    cache_tree: Option<CacheTree>,
) -> (res: Result<Vec<u8>, GfsError>)
    ensures
        index_outcome(entries@, snapshot_time, cache_tree, res),
{
    let mut out = match write_entries(entries, snapshot_time) {
        Ok(bytes) => bytes,
        Err(e) => {
            return Err(e);
        },
    };
    match cache_tree {
        Some(root) => {
            match cache_tree_extension(&root, entries) {
                Ok(extension) => {
                    append_bytes(&mut out, extension.as_slice());
                },
                Err(e) => {
                    return Err(e);
                },
            }
        },
        None => {},
    }
    let digest = sha1_digest(out.as_slice());
    append_bytes(&mut out, digest.as_slice());
    Ok(out)
}

/// A body followed by its SHA-1 digest.
pub open spec fn sealed(body: Seq<u8>) -> Seq<u8> {
    body + sha1_of(body)
}

/// Whether a file is a body with its digest, which takes twenty bytes.
pub open spec fn seals(body: Seq<u8>, file: Seq<u8>) -> bool {
    file == sealed(body) && file.len() == body.len() + 20
}

/// Whether the entries can be recorded: they fit the count, ascend, and are
/// named by SHA-1.
pub open spec fn entries_accepted(entries: Seq<IndexEntry>) -> bool {
    entries.len() <= 0xFFFF_FFFF && entry_fault(entries, 0) is None
}

/// What writing an index gives: a faulty entry list refuses it first, then a
/// faulty cache tree; otherwise the header, the entries and the extension,
/// followed by their digest.
pub open spec fn index_outcome(
    entries: Seq<IndexEntry>,
    time: Timestamp,
    cache_tree: Option<CacheTree>,
    res: Result<Vec<u8>, GfsError>,
) -> bool {
    if !entries_accepted(entries) {
        res is Err && entries_outcome(entries, time, res)
    } else {
        match cache_tree {
            None => res matches Ok(bytes) && seals(index_body(entries, time), bytes@),
            Some(root) => match res {
                Ok(bytes) => tree_accepted(root, entries) && seals(
                    index_body(entries, time) + tree_extension(root),
                    bytes@,
                ),
                Err(e) => !tree_accepted(root, entries) && tree_outcome(root, entries, res),
            },
        }
    }
}

/// Whether a cache tree can be recorded for these entries: no level repeats a
/// name, every count is true, every name is SHA-1, and the record fits.
pub open spec fn tree_accepted(root: CacheTree, entries: Seq<IndexEntry>) -> bool {
    &&& duplicate_fault(root) is None
    &&& count_fault(root, Seq::empty(), entries) is None
    &&& all_sha1(root)
    &&& tree_bytes(root).len() <= 0xFFFF_FFFF
}

proof fn lemma_no_fault(entries: Seq<IndexEntry>, i: nat, k: int)
    requires
        entry_fault(entries, i) is None,
        i <= k < entries.len(),
    ensures
        entries[k].oid@.algorithm == HashAlgorithm::Sha1,
        k > 0 ==> lex_lt(entries[k - 1].path@, entries[k].path@),
    decreases entries.len() - i,
{
    if i < k {
        lemma_no_fault(entries, i + 1, k);
    }
}

proof fn lemma_ascends(entries: Seq<IndexEntry>, i: int, j: int)
    requires
        entry_fault(entries, 0) is None,
        0 <= i < j < entries.len(),
    ensures
        lex_lt(entries[i].path@, entries[j].path@),
    decreases j - i,
{
    lemma_no_fault(entries, 0, j);
    if i < j - 1 {
        lemma_ascends(entries, i, j - 1);
        lemma_lex_transitive(entries[i].path@, entries[j - 1].path@, entries[j].path@);
    }
}

/// What is recorded is in index order, each path once, and named by SHA-1.
pub proof fn law_recorded_entries_are_in_order(entries: Seq<IndexEntry>)
    requires
        entries_accepted(entries),
    ensures
        ascending(entries),
        forall|k: int|
            0 <= k < entries.len() ==> (#[trigger] entries[k]).oid@.algorithm
                == HashAlgorithm::Sha1,
{
    assert forall|i: int, j: int| 0 <= i < j < entries.len() implies lex_lt(
        #[trigger] entries[i].path@,
        #[trigger] entries[j].path@,
    ) by {
        lemma_ascends(entries, i, j);
    }
    assert forall|k: int| 0 <= k < entries.len() implies (#[trigger] entries[k]).oid@.algorithm
        == HashAlgorithm::Sha1 by {
        lemma_no_fault(entries, 0, k);
    }
}

/// An entry's length is a multiple of eight and its path is terminated.
pub proof fn law_entries_are_padded(e: IndexEntry, secs: u32, nanos: u32)
    ensures
        entry_bytes(e, secs, nanos).len() % 8 == 0,
        entry_bytes(e, secs, nanos).len() > entry_body(e, secs, nanos).len(),
        entry_bytes(e, secs, nanos).last() == 0,
{
}

/// Subdirectories are recorded shorter names first, then in byte order, and
/// every one of them is recorded once.
pub proof fn law_subdirectories_are_recorded_in_order(node: CacheTree)
    ensures
        child_order(node).len() == node.children@.len(),
        crate::sorting::stably_sorted(NameOrder::ShortLex, child_names(node), child_order(node)),
        forall|v: int|
            child_order(node).to_multiset().count(v) == (if 0 <= v < node.children@.len() {
                1nat
            } else {
                0nat
            }),
{
    lemma_sorted_order(NameOrder::ShortLex, child_names(node), child_names(node).len());
}

/// Whether two trees differ in nothing but the order in which directories list
/// their subdirectories.
pub open spec fn reordered(a: CacheTree, b: CacheTree) -> bool
    decreases a,
{
    &&& a.name@ == b.name@
    &&& a.oid@ == b.oid@
    &&& a.entries == b.entries
    &&& a.children@.len() == b.children@.len()
    &&& exists|to: Seq<int>| #[trigger]
        lists_each_once(to, a.children@.len()) && forall|i: int|
            0 <= i < a.children@.len() ==> reordered(a.children@[i], b.children@[#[trigger] to[i]])
}

/// Whether no two subdirectories have one name.
spec fn names_differ(node: CacheTree) -> bool {
    forall|i: int, j: int|
        0 <= i < j < node.children@.len() ==> (#[trigger] node.children@[i]).name@ != (
        #[trigger] node.children@[j]).name@
}

proof fn lemma_no_repeat_from(node: CacheTree, i: nat, k: int)
    requires
        repeated_name(node, i) is None,
        i <= k,
        k + 1 < node.children@.len(),
    ensures
        child_names(node)[child_order(node)[k]] != child_names(node)[child_order(node)[k + 1]],
    decreases node.children@.len() - i,
{
    if i < k {
        lemma_no_repeat_from(node, i + 1, k);
    }
}

proof fn lemma_strict_order(node: CacheTree, i: int, j: int)
    requires
        repeated_name(node, 0) is None,
        0 <= i < j < node.children@.len(),
    ensures
        precedes(
            NameOrder::ShortLex,
            child_names(node)[child_order(node)[i]],
            child_names(node)[child_order(node)[j]],
        ),
    decreases j - i,
{
    let keys = child_names(node);
    let s = child_order(node);
    lemma_sorted_order(NameOrder::ShortLex, keys, keys.len());
    lemma_no_repeat_from(node, 0, j - 1);
    assert(precedes(NameOrder::ShortLex, keys[s[j - 1]], keys[s[j]]));
    if i < j - 1 {
        lemma_strict_order(node, i, j - 1);
        lemma_precedes_transitive(NameOrder::ShortLex, keys[s[i]], keys[s[j - 1]], keys[s[j]]);
    }
}

proof fn lemma_repeat_free(node: CacheTree)
    ensures
        repeated_name(node, 0) is None <==> names_differ(node),
        repeated_name(node, 0) is None ==> strictly_sorted(
            NameOrder::ShortLex,
            child_names(node),
            child_order(node),
        ),
{
    let keys = child_names(node);
    let s = child_order(node);
    lemma_sorted_lists_each_once(NameOrder::ShortLex, keys);
    if repeated_name(node, 0) is None {
        assert forall|i: int, j: int| 0 <= i < j < s.len() implies precedes(
            NameOrder::ShortLex,
            keys[#[trigger] s[i]],
            keys[#[trigger] s[j]],
        ) by {
            lemma_strict_order(node, i, j);
        }
        assert forall|u: int, v: int| 0 <= u < v < node.children@.len() implies (
        #[trigger] node.children@[u]).name@ != (#[trigger] node.children@[v]).name@ by {
            assert(s.contains(u) && s.contains(v));
            let i = choose|i: int| 0 <= i < s.len() && s[i] == u;
            let j = choose|j: int| 0 <= j < s.len() && s[j] == v;
            assert(i != j);
            if i < j {
                assert(precedes(NameOrder::ShortLex, keys[s[i]], keys[s[j]]));
            } else {
                assert(precedes(NameOrder::ShortLex, keys[s[j]], keys[s[i]]));
            }
            lemma_precedes_total(NameOrder::ShortLex, keys[u], keys[v]);
            assert(keys[u] == node.children@[u].name@ && keys[v] == node.children@[v].name@);
        }
    }
    if names_differ(node) {
        lemma_no_repeat(node, 0);
    }
}

proof fn lemma_no_repeat(node: CacheTree, i: nat)
    requires
        names_differ(node),
    ensures
        repeated_name(node, i) is None,
    decreases node.children@.len() - i,
{
    if i + 1 < node.children@.len() {
        let keys = child_names(node);
        let s = child_order(node);
        lemma_sorted_lists_each_once(NameOrder::ShortLex, keys);
        let u = s[i as int];
        let v = s[i as int + 1];
        assert(u != v);
        assert(keys[u] == node.children@[u].name@ && keys[v] == node.children@[v].name@);
        assert(u < v || v < u);
        lemma_no_repeat(node, i + 1);
    }
}

proof fn lemma_duplicates_below(node: CacheTree, n: nat)
    requires
        n <= node.children@.len(),
    ensures
        duplicate_below(node, n) is None <==> forall|k: int|
            0 <= k < n ==> duplicate_fault(node.children@[#[trigger] child_order(node)[k]]) is None,
    decreases n,
{
    if n > 0 {
        lemma_sorted_lists_each_once(NameOrder::ShortLex, child_names(node));
        lemma_duplicates_below(node, (n - 1) as nat);
        let c = child_order(node)[n - 1];
        assert(0 <= c < node.children@.len());
    }
}

proof fn lemma_counts_below(node: CacheTree, prefix: Seq<u8>, entries: Seq<IndexEntry>, n: nat)
    requires
        n <= node.children@.len(),
    ensures
        count_below(node, prefix, entries, n) is None <==> forall|k: int|
            0 <= k < n ==> child_counts(node, prefix, entries, #[trigger] child_order(node)[k]),
    decreases n,
{
    if n > 0 {
        lemma_sorted_lists_each_once(NameOrder::ShortLex, child_names(node));
        lemma_counts_below(node, prefix, entries, (n - 1) as nat);
        let c = child_order(node)[n - 1];
        assert(0 <= c < node.children@.len());
    }
}

/// Whether the counts of one subdirectory are true.
spec fn child_counts(node: CacheTree, prefix: Seq<u8>, entries: Seq<IndexEntry>, c: int) -> bool {
    count_fault(node.children@[c], prefix + node.children@[c].name@ + seq![47u8], entries) is None
}

proof fn lemma_sha1_below(node: CacheTree, n: nat)
    requires
        n <= node.children@.len(),
    ensures
        all_sha1_below(node, n) <==> forall|k: int|
            0 <= k < n ==> all_sha1(node.children@[#[trigger] child_order(node)[k]]),
    decreases n,
{
    if n > 0 {
        lemma_sorted_lists_each_once(NameOrder::ShortLex, child_names(node));
        lemma_sha1_below(node, (n - 1) as nat);
        let c = child_order(node)[n - 1];
        assert(0 <= c < node.children@.len());
    }
}

/// What holds of every subdirectory in recorded order holds of every one.
proof fn lemma_every_child(node: CacheTree, c: int) -> (k: int)
    requires
        0 <= c < node.children@.len(),
    ensures
        0 <= k < node.children@.len(),
        child_order(node)[k] == c,
{
    lemma_sorted_lists_each_once(NameOrder::ShortLex, child_names(node));
    assert(child_order(node).contains(c));
    choose|k: int| 0 <= k < child_order(node).len() && child_order(node)[k] == c
}

/// The faults of a node, over its subdirectories in any order.
proof fn lemma_faults(node: CacheTree, prefix: Seq<u8>, entries: Seq<IndexEntry>)
    ensures
        duplicate_fault(node) is None <==> names_differ(node) && forall|c: int|
            0 <= c < node.children@.len() ==> duplicate_fault(#[trigger] node.children@[c]) is None,
        count_fault(node, prefix, entries) is None <==> covered(entries, prefix, entries.len())
            == node.entries && forall|c: int|
            0 <= c < node.children@.len() ==> #[trigger] child_counts(node, prefix, entries, c),
        all_sha1(node) <==> node.oid@.algorithm == HashAlgorithm::Sha1 && forall|c: int|
            0 <= c < node.children@.len() ==> all_sha1(#[trigger] node.children@[c]),
{
    let n = node.children@.len();
    let s = child_order(node);
    lemma_repeat_free(node);
    lemma_sorted_lists_each_once(NameOrder::ShortLex, child_names(node));
    lemma_duplicates_below(node, n);
    lemma_counts_below(node, prefix, entries, n);
    lemma_sha1_below(node, n);
    if duplicate_below(node, n) is None {
        assert forall|c: int| 0 <= c < n implies duplicate_fault(#[trigger] node.children@[c]) is None by {
            let k = lemma_every_child(node, c);
            assert(s[k] == c);
        }
    }
    if count_below(node, prefix, entries, n) is None {
        assert forall|c: int| 0 <= c < n implies #[trigger] child_counts(node, prefix, entries, c) by {
            let k = lemma_every_child(node, c);
            assert(s[k] == c);
        }
    }
    if all_sha1_below(node, n) {
        assert forall|c: int| 0 <= c < n implies all_sha1(#[trigger] node.children@[c]) by {
            let k = lemma_every_child(node, c);
            assert(s[k] == c);
        }
    }
}

/// Where the subdirectories of a reordered node went.
spec fn moved_to(a: CacheTree, b: CacheTree, to: Seq<int>) -> bool {
    &&& lists_each_once(to, a.children@.len())
    &&& forall|i: int|
        0 <= i < a.children@.len() ==> reordered(a.children@[i], b.children@[#[trigger] to[i]])
}

proof fn lemma_reordered_faults(
    a: CacheTree,
    b: CacheTree,
    prefix: Seq<u8>,
    entries: Seq<IndexEntry>,
)
    requires
        reordered(a, b),
    ensures
        duplicate_fault(a) is None <==> duplicate_fault(b) is None,
        count_fault(a, prefix, entries) is None <==> count_fault(b, prefix, entries) is None,
        all_sha1(a) <==> all_sha1(b),
        names_differ(a) <==> names_differ(b),
    decreases a,
{
    let n = a.children@.len();
    let to = choose|to: Seq<int>| #[trigger]
        lists_each_once(to, a.children@.len()) && forall|i: int|
            0 <= i < a.children@.len() ==> reordered(a.children@[i], b.children@[#[trigger] to[i]]);
    lemma_faults(a, prefix, entries);
    lemma_faults(b, prefix, entries);
    assert forall|i: int| 0 <= i < n implies {
        let j = #[trigger] to[i];
        &&& duplicate_fault(a.children@[i]) is None <==> duplicate_fault(b.children@[j]) is None
        &&& child_counts(a, prefix, entries, i) <==> child_counts(b, prefix, entries, j)
        &&& all_sha1(a.children@[i]) <==> all_sha1(b.children@[j])
        &&& a.children@[i].name@ == b.children@[j].name@
    } by {
        assert(reordered(a.children@[i], b.children@[to[i]]));
        lemma_reordered_faults(
            a.children@[i],
            b.children@[to[i]],
            prefix + a.children@[i].name@ + seq![47u8],
            entries,
        );
    }
    if names_differ(a) {
        assert forall|u: int, v: int| 0 <= u < v < n implies (#[trigger] b.children@[u]).name@ != (
        #[trigger] b.children@[v]).name@ by {
            assert(to.contains(u));
            let i = to.index_of(u);
            assert(to.contains(v));
            let j = to.index_of(v);
            assert(i != j);
            assert(a.children@[i].name@ == b.children@[u].name@);
            assert(a.children@[j].name@ == b.children@[v].name@);
            assert(i < j || j < i);
        }
    }
    if names_differ(b) {
        assert forall|u: int, v: int| 0 <= u < v < n implies (#[trigger] a.children@[u]).name@ != (
        #[trigger] a.children@[v]).name@ by {
            let i = to[u];
            let j = to[v];
            assert(i != j);
            assert(b.children@[i].name@ == a.children@[u].name@);
            assert(b.children@[j].name@ == a.children@[v].name@);
            assert(i < j || j < i);
        }
    }
    if forall|c: int| 0 <= c < n ==> duplicate_fault(#[trigger] a.children@[c]) is None {
        assert forall|c: int| 0 <= c < n implies duplicate_fault(#[trigger] b.children@[c]) is None by {
            assert(to.contains(c));
            let i = to.index_of(c);
            assert(duplicate_fault(a.children@[i]) is None);
        }
    }
    if forall|c: int| 0 <= c < n ==> duplicate_fault(#[trigger] b.children@[c]) is None {
        assert forall|c: int| 0 <= c < n implies duplicate_fault(#[trigger] a.children@[c]) is None by {
            assert(duplicate_fault(b.children@[to[c]]) is None);
        }
    }
    if forall|c: int| 0 <= c < n ==> #[trigger] child_counts(a, prefix, entries, c) {
        assert forall|c: int| 0 <= c < n implies #[trigger] child_counts(b, prefix, entries, c) by {
            assert(to.contains(c));
            let i = to.index_of(c);
            assert(child_counts(a, prefix, entries, i));
        }
    }
    if forall|c: int| 0 <= c < n ==> #[trigger] child_counts(b, prefix, entries, c) {
        assert forall|c: int| 0 <= c < n implies #[trigger] child_counts(a, prefix, entries, c) by {
            assert(child_counts(b, prefix, entries, to[c]));
        }
    }
    if forall|c: int| 0 <= c < n ==> all_sha1(#[trigger] a.children@[c]) {
        assert forall|c: int| 0 <= c < n implies all_sha1(#[trigger] b.children@[c]) by {
            assert(to.contains(c));
            let i = to.index_of(c);
            assert(all_sha1(a.children@[i]));
        }
    }
    if forall|c: int| 0 <= c < n ==> all_sha1(#[trigger] b.children@[c]) {
        assert forall|c: int| 0 <= c < n implies all_sha1(#[trigger] a.children@[c]) by {
            assert(all_sha1(b.children@[to[c]]));
        }
    }
}

/// Where names differ, a reordered node is recorded in the same order.
proof fn lemma_recorded_alike(a: CacheTree, b: CacheTree, to: Seq<int>, k: int)
    requires
        a.children@.len() == b.children@.len(),
        moved_to(a, b, to),
        repeated_name(a, 0) is None,
        repeated_name(b, 0) is None,
        0 <= k < a.children@.len(),
    ensures
        child_order(b)[k] == to[child_order(a)[k]],
{
    let n = a.children@.len();
    let sa = child_order(a);
    let sb = child_order(b);
    let f = Seq::new(n, |i: int| to[sa[i]]);
    lemma_repeat_free(a);
    lemma_repeat_free(b);
    lemma_sorted_lists_each_once(NameOrder::ShortLex, child_names(a));
    lemma_sorted_lists_each_once(NameOrder::ShortLex, child_names(b));
    assert(lists_each_once(f, n)) by {
        assert forall|v: int| 0 <= v < n implies #[trigger] f.contains(v) by {
            assert(to.contains(v));
            let i = choose|i: int| 0 <= i < to.len() && to[i] == v;
            assert(sa.contains(i));
            let j = choose|j: int| 0 <= j < sa.len() && sa[j] == i;
            assert(f[j] == v);
        }
    }
    assert(strictly_sorted(NameOrder::ShortLex, child_names(b), f)) by {
        assert forall|i: int, j: int| 0 <= i < j < f.len() implies precedes(
            NameOrder::ShortLex,
            child_names(b)[#[trigger] f[i]],
            child_names(b)[#[trigger] f[j]],
        ) by {
            let u = sa[i];
            let v = sa[j];
            assert(reordered(a.children@[u], b.children@[to[u]]));
            assert(reordered(a.children@[v], b.children@[to[v]]));
            assert(child_names(b)[f[i]] == child_names(a)[u]);
            assert(child_names(b)[f[j]] == child_names(a)[v]);
        }
    }
    lemma_one_sorted_order(NameOrder::ShortLex, child_names(b), f, sb, n, k);
    assert(f[k] == to[sa[k]]);
}

proof fn lemma_same_record(a: CacheTree, b: CacheTree)
    requires
        reordered(a, b),
        duplicate_fault(a) is None,
    ensures
        tree_bytes(a) == tree_bytes(b),
    decreases a, a.children@.len() + 1,
{
    let to = choose|to: Seq<int>| #[trigger]
        lists_each_once(to, a.children@.len()) && forall|i: int|
            0 <= i < a.children@.len() ==> reordered(a.children@[i], b.children@[#[trigger] to[i]]);
    assert(moved_to(a, b, to));
    lemma_reordered_faults(a, b, Seq::empty(), Seq::empty());
    lemma_faults(a, Seq::empty(), Seq::empty());
    lemma_same_records_below(a, b, to, a.children@.len());
}

proof fn lemma_same_records_below(a: CacheTree, b: CacheTree, to: Seq<int>, n: nat)
    requires
        a.children@.len() == b.children@.len(),
        moved_to(a, b, to),
        n <= a.children@.len(),
        repeated_name(a, 0) is None,
        repeated_name(b, 0) is None,
        forall|c: int|
            0 <= c < a.children@.len() ==> duplicate_fault(#[trigger] a.children@[c]) is None,
    ensures
        subtrees_bytes(a, n) == subtrees_bytes(b, n),
    decreases a, n,
{
    if n > 0 {
        lemma_same_records_below(a, b, to, (n - 1) as nat);
        lemma_recorded_alike(a, b, to, n - 1);
        lemma_sorted_lists_each_once(NameOrder::ShortLex, child_names(a));
        lemma_sorted_lists_each_once(NameOrder::ShortLex, child_names(b));
        let c = child_order(a)[n - 1];
        assert(0 <= c < a.children@.len());
        assert(reordered(a.children@[c], b.children@[to[c]]));
        lemma_same_record(a.children@[c], b.children@[to[c]]);
    }
}

/// The order in which a cache tree lists subdirectories makes no difference:
/// both trees are refused, or both are recorded in the same bytes.
pub proof fn law_the_order_of_subdirectories_makes_no_difference(
    entries: Seq<IndexEntry>,
    time: Timestamp,
    a: CacheTree,
    b: CacheTree,
    from_a: Result<Vec<u8>, GfsError>,
    from_b: Result<Vec<u8>, GfsError>,
)
    requires
        reordered(a, b),
        index_outcome(entries, time, Some(a), from_a),
        index_outcome(entries, time, Some(b), from_b),
    ensures
        from_a is Ok <==> from_b is Ok,
        from_a is Ok ==> from_a->Ok_0@ == from_b->Ok_0@,
{
    lemma_reordered_faults(a, b, Seq::empty(), entries);
    if duplicate_fault(a) is None {
        lemma_same_record(a, b);
    }
}

/// Whether a cache tree tells the truth about entries: a directory counts the
/// entries under it, is named by SHA-1, lists no name twice, and so do all below
/// it.
pub open spec fn true_tree(node: CacheTree, prefix: Seq<u8>, entries: Seq<IndexEntry>) -> bool
    decreases node,
{
    &&& node.oid@.algorithm == HashAlgorithm::Sha1
    &&& node.entries == entries.filter(|e: IndexEntry| has_prefix(e.path@, prefix)).len()
    &&& forall|i: int, j: int|
        0 <= i < j < node.children@.len() ==> (#[trigger] node.children@[i]).name@ != (
        #[trigger] node.children@[j]).name@
    &&& forall|c: int|
        0 <= c < node.children@.len() ==> true_tree(
            #[trigger] node.children@[c],
            prefix + node.children@[c].name@ + seq![47u8],
            entries,
        )
}

proof fn lemma_covered(entries: Seq<IndexEntry>, prefix: Seq<u8>, n: nat)
    requires
        n <= entries.len(),
    ensures
        covered(entries, prefix, n) == entries.take(n as int).filter(
            |e: IndexEntry| has_prefix(e.path@, prefix),
        ).len(),
    decreases n,
{
    reveal(Seq::filter);
    if n > 0 {
        lemma_covered(entries, prefix, (n - 1) as nat);
        assert(entries.take(n as int).drop_last() =~= entries.take(n - 1));
    }
}

proof fn lemma_true_tree(node: CacheTree, prefix: Seq<u8>, entries: Seq<IndexEntry>)
    ensures
        true_tree(node, prefix, entries) <==> duplicate_fault(node) is None && count_fault(
            node,
            prefix,
            entries,
        ) is None && all_sha1(node),
    decreases node,
{
    lemma_faults(node, prefix, entries);
    lemma_covered(entries, prefix, entries.len());
    assert(entries.take(entries.len() as int) =~= entries);
    assert forall|c: int| 0 <= c < node.children@.len() implies (true_tree(
        #[trigger] node.children@[c],
        prefix + node.children@[c].name@ + seq![47u8],
        entries,
    ) <==> duplicate_fault(node.children@[c]) is None && child_counts(node, prefix, entries, c)
        && all_sha1(node.children@[c])) by {
        lemma_true_tree(
            node.children@[c],
            prefix + node.children@[c].name@ + seq![47u8],
            entries,
        );
    }
}

proof fn lemma_faultless(entries: Seq<IndexEntry>, i: nat)
    requires
        ascending(entries),
        forall|k: int|
            0 <= k < entries.len() ==> (#[trigger] entries[k]).oid@.algorithm
                == HashAlgorithm::Sha1,
    ensures
        entry_fault(entries, i) is None,
    decreases entries.len() - i,
{
    if i < entries.len() {
        lemma_faultless(entries, i + 1);
    }
}

/// An index is written exactly when there is nothing wrong with what it is to
/// hold: its entries fit its count, ascend and are named by SHA-1, and its cache
/// tree, if it has one, tells the truth and fits its length.
pub proof fn law_an_index_is_refused_only_for_its_faults(
    entries: Seq<IndexEntry>,
    time: Timestamp,
    cache_tree: Option<CacheTree>,
    res: Result<Vec<u8>, GfsError>,
)
    requires
        index_outcome(entries, time, cache_tree, res),
    ensures
        res is Ok <==> {
            &&& entries.len() <= 0xFFFF_FFFF
            &&& ascending(entries)
            &&& forall|k: int|
                0 <= k < entries.len() ==> (#[trigger] entries[k]).oid@.algorithm
                    == HashAlgorithm::Sha1
            &&& cache_tree matches Some(root) ==> true_tree(root, Seq::empty(), entries)
                && tree_bytes(root).len() <= 0xFFFF_FFFF
        },
{
    if entries_accepted(entries) {
        law_recorded_entries_are_in_order(entries);
    }
    if ascending(entries) && forall|k: int|
        0 <= k < entries.len() ==> (#[trigger] entries[k]).oid@.algorithm == HashAlgorithm::Sha1 {
        lemma_faultless(entries, 0);
    }
    if let Some(root) = cache_tree {
        lemma_true_tree(root, Seq::empty(), entries);
    }
}

/// The header that precedes a blob's content when it is hashed.
pub open spec fn blob_header(len: nat) -> Seq<u8> {
    seq![98u8, 108, 111, 98, 32] + decimal_bytes(len) + seq![0u8]
}

/// The object name of a blob: SHA-1 over the header and the content.
pub open spec fn blob_digest(content: Seq<u8>) -> Seq<u8> {
    sha1_of(blob_header(content.len()) + content)
}

/// The blob ID Git gives `content`.
pub fn blob_id(content: &[u8]) -> (res: [u8; 20])
    ensures
        res@ == blob_digest(content@),
        res@.len() == 20,
{
    let mut data: Vec<u8> = Vec::new();
    data.push(98);
    data.push(108);
    data.push(111);
    data.push(98);
    data.push(32);
    push_decimal_bytes(&mut data, content.len() as u64);
    data.push(0);
    assert(data@ =~= blob_header(content@.len()));
    append_bytes(&mut data, content);
    sha1_digest(data.as_slice())
}

} // verus!
