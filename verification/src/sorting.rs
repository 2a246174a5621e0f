//! A stable sort of indices by byte-string keys.
use vstd::prelude::*;
use crate::bytes::{bytes_lt, lex_lt};

verus! {

/// How names are ordered.
#[derive(Clone, Copy, PartialEq, Eq, Structural, Debug)]
pub enum NameOrder {
    /// Plain byte order.
    Bytes,
    /// Shorter names first, names of one length in byte order.
    ShortLex,
}

/// Whether `a` strictly precedes `b`.
pub open spec fn precedes(order: NameOrder, a: Seq<u8>, b: Seq<u8>) -> bool {
    match order {
        NameOrder::Bytes => lex_lt(a, b),
        NameOrder::ShortLex => a.len() < b.len() || (a.len() == b.len() && lex_lt(a, b)),
    }
}

/// Whether `a` strictly precedes `b`.
pub fn name_precedes(order: NameOrder, a: &[u8], b: &[u8]) -> (res: bool)
    ensures
        res == precedes(order, a@, b@),
{
    match order {
        NameOrder::Bytes => bytes_lt(a, b),
        NameOrder::ShortLex => a.len() < b.len() || (a.len() == b.len() && bytes_lt(a, b)),
    }
}

/// [`precedes`] is a strict total order.
pub proof fn lemma_precedes_total(order: NameOrder, a: Seq<u8>, b: Seq<u8>)
    ensures
        !precedes(order, a, a),
        precedes(order, a, b) || precedes(order, b, a) || a == b,
        precedes(order, a, b) ==> !precedes(order, b, a),
{
    crate::bytes::lemma_lex_irreflexive(a, 0);
    crate::bytes::lemma_lex_total(a, b);
    if lex_lt(a, b) {
        crate::bytes::lemma_lex_asymmetric(a, b);
    }
}

/// [`precedes`] is transitive.
pub proof fn lemma_precedes_transitive(order: NameOrder, a: Seq<u8>, b: Seq<u8>, c: Seq<u8>)
    requires
        precedes(order, a, b),
        precedes(order, b, c),
    ensures
        precedes(order, a, c),
{
    if lex_lt(a, b) && lex_lt(b, c) {
        crate::bytes::lemma_lex_transitive(a, b, c);
    }
}

/// `placed` with the index `k` inserted behind every index whose key does not
/// follow the key of `k`.
pub open spec fn place(order: NameOrder, keys: Seq<Seq<u8>>, placed: Seq<int>, k: int) -> Seq<int>
    decreases placed.len(),
{
    if placed.len() > 0 && precedes(order, keys[k], keys[placed.last()]) {
        place(order, keys, placed.drop_last(), k).push(placed.last())
    } else {
        placed.push(k)
    }
}

/// The indices below `n`, sorted by key, equal keys in index order.
pub open spec fn sorted_upto(order: NameOrder, keys: Seq<Seq<u8>>, n: nat) -> Seq<int>
    decreases n,
{
    if n == 0 {
        Seq::empty()
    } else {
        place(order, keys, sorted_upto(order, keys, (n - 1) as nat), n - 1)
    }
}

/// The indices of `keys` in sorted order.
pub open spec fn sorted_order(order: NameOrder, keys: Seq<Seq<u8>>) -> Seq<int> {
    sorted_upto(order, keys, keys.len())
}

/// Whether the listed indices come in the order of their keys, equal keys in
/// index order.
pub open spec fn stably_sorted(order: NameOrder, keys: Seq<Seq<u8>>, s: Seq<int>) -> bool {
    forall|i: int, j: int|
        0 <= i < j < s.len() ==> precedes(order, keys[#[trigger] s[i]], keys[#[trigger] s[j]]) || (
        keys[s[i]] == keys[s[j]] && s[i] < s[j])
}

proof fn lemma_place(order: NameOrder, keys: Seq<Seq<u8>>, placed: Seq<int>, k: int)
    requires
        stably_sorted(order, keys, placed),
        forall|i: int| 0 <= i < placed.len() ==> 0 <= #[trigger] placed[i] < k,
    ensures
        stably_sorted(order, keys, place(order, keys, placed, k)),
        place(order, keys, placed, k).len() == placed.len() + 1,
        place(order, keys, placed, k).to_multiset() == placed.to_multiset().insert(k),
        forall|i: int|
            0 <= i <= placed.len() ==> (#[trigger] place(order, keys, placed, k)[i] == k
                || exists|j: int| 0 <= j < placed.len() && placed[j] == place(order, keys, placed, k)[i]),
    decreases placed.len(),
{
    broadcast use vstd::seq_lib::group_to_multiset_ensures;

    let res = place(order, keys, placed, k);
    if placed.len() > 0 && precedes(order, keys[k], keys[placed.last()]) {
        let head = placed.drop_last();
        lemma_place(order, keys, head, k);
        let inner = place(order, keys, head, k);
        assert(placed =~= head.push(placed.last()));
        assert(res.to_multiset() =~= placed.to_multiset().insert(k));
        assert forall|i: int| 0 <= i <= placed.len() implies (#[trigger] res[i] == k || exists|j: int|
            0 <= j < placed.len() && placed[j] == res[i]) by {
            if i < placed.len() {
                assert(res[i] == inner[i]);
                if inner[i] != k {
                    let j = choose|j: int| 0 <= j < head.len() && head[j] == inner[i];
                    assert(placed[j] == res[i]);
                }
            } else {
                assert(placed[placed.len() - 1] == res[i]);
            }
        }
        assert forall|i: int, j: int| 0 <= i < j < res.len() implies precedes(
            order,
            keys[#[trigger] res[i]],
            keys[#[trigger] res[j]],
        ) || (keys[res[i]] == keys[res[j]] && res[i] < res[j]) by {
            if j < placed.len() {
                assert(res[i] == inner[i] && res[j] == inner[j]);
            } else {
                assert(res[i] == inner[i]);
                if inner[i] != k {
                    let m = choose|m: int| 0 <= m < head.len() && head[m] == inner[i];
                    assert(placed[m] == res[i]);
                    assert(placed[placed.len() - 1] == res[j]);
                }
            }
        }
    } else {
        assert(res.to_multiset() =~= placed.to_multiset().insert(k));
        assert forall|i: int| 0 <= i <= placed.len() implies (#[trigger] res[i] == k || exists|j: int|
            0 <= j < placed.len() && placed[j] == res[i]) by {
            if i < placed.len() {
                assert(placed[i] == res[i]);
            }
        }
        assert forall|i: int, j: int| 0 <= i < j < res.len() implies precedes(
            order,
            keys[#[trigger] res[i]],
            keys[#[trigger] res[j]],
        ) || (keys[res[i]] == keys[res[j]] && res[i] < res[j]) by {
            if j == placed.len() {
                assert(res[j] == k);
                assert(res[i] == placed[i]);
                let last = placed[placed.len() - 1];
                lemma_precedes_total(order, keys[k], keys[last]);
                if i < placed.len() - 1 {
                    if precedes(order, keys[placed[i]], keys[last]) && precedes(order, keys[last], keys[k]) {
                        lemma_precedes_transitive(order, keys[placed[i]], keys[last], keys[k]);
                    }
                }
            } else {
                assert(res[i] == placed[i] && res[j] == placed[j]);
            }
        }
    }
}

/// Sorting gives a permutation of the indices, in key order, and keeps equal
/// keys in their first order.
pub proof fn lemma_sorted_order(order: NameOrder, keys: Seq<Seq<u8>>, n: nat)
    ensures
        sorted_upto(order, keys, n).len() == n,
        stably_sorted(order, keys, sorted_upto(order, keys, n)),
        forall|i: int| 0 <= i < n ==> 0 <= #[trigger] sorted_upto(order, keys, n)[i] < n,
        forall|v: int| sorted_upto(order, keys, n).to_multiset().count(v) == (if 0 <= v < n {
            1nat
        } else {
            0nat
        }),
    decreases n,
{
    broadcast use vstd::seq_lib::group_to_multiset_ensures;

    if n > 0 {
        let m = (n - 1) as nat;
        lemma_sorted_order(order, keys, m);
        lemma_place(order, keys, sorted_upto(order, keys, m), m as int);
    }
}

/// Whether a list holds each index below `n` once.
pub open spec fn lists_each_once(s: Seq<int>, n: nat) -> bool {
    &&& s.len() == n
    &&& forall|i: int| 0 <= i < n ==> 0 <= #[trigger] s[i] < n
    &&& s.no_duplicates()
    &&& forall|v: int| 0 <= v < n ==> #[trigger] s.contains(v)
}

/// A sorted order holds each index once.
pub proof fn lemma_sorted_lists_each_once(order: NameOrder, keys: Seq<Seq<u8>>)
    ensures
        lists_each_once(sorted_order(order, keys), keys.len()),
{
    broadcast use vstd::seq_lib::group_to_multiset_ensures;

    let s = sorted_order(order, keys);
    lemma_sorted_order(order, keys, keys.len());
    assert forall|x: int| s.to_multiset().contains(x) implies s.to_multiset().count(x) == 1 by {}
    s.lemma_multiset_has_no_duplicates_conv();
    assert forall|v: int| 0 <= v < keys.len() implies #[trigger] s.contains(v) by {
        assert(s.to_multiset().count(v) == 1);
    }
}

/// Whether the listed indices come in strictly ascending order of their keys.
pub open spec fn strictly_sorted(order: NameOrder, keys: Seq<Seq<u8>>, s: Seq<int>) -> bool {
    forall|i: int, j: int|
        0 <= i < j < s.len() ==> precedes(order, keys[#[trigger] s[i]], keys[#[trigger] s[j]])
}

/// There is one strictly ascending order of the indices.
pub proof fn lemma_one_sorted_order(
    order: NameOrder,
    keys: Seq<Seq<u8>>,
    s: Seq<int>,
    t: Seq<int>,
    n: nat,
    k: int,
)
    requires
        lists_each_once(s, n),
        lists_each_once(t, n),
        strictly_sorted(order, keys, s),
        strictly_sorted(order, keys, t),
        0 <= k < n,
    ensures
        s[k] == t[k],
    decreases k,
{
    if s[k] != t[k] {
        let u = s[k];
        let v = t[k];
        assert(s.contains(v) && t.contains(u));
        let a = choose|a: int| 0 <= a < s.len() && s[a] == v;
        let b = choose|b: int| 0 <= b < t.len() && t[b] == u;
        if a < k {
            lemma_one_sorted_order(order, keys, s, t, n, a);
            assert(t[a] == t[k]);
        }
        if b < k {
            lemma_one_sorted_order(order, keys, s, t, n, b);
            assert(s[b] == s[k]);
        }
        assert(a > k && b > k);
        assert(precedes(order, keys[s[k]], keys[s[a]]));
        assert(precedes(order, keys[t[k]], keys[t[b]]));
        lemma_precedes_total(order, keys[u], keys[v]);
    }
}

/// The keys as byte sequences.
pub open spec fn key_views(keys: Seq<Vec<u8>>) -> Seq<Seq<u8>> {
    Seq::new(keys.len(), |i: int| keys[i]@)
}

/// Indices as integers.
pub open spec fn index_views(s: Seq<usize>) -> Seq<int> {
    Seq::new(s.len(), |i: int| s[i] as int)
}

/// The indices of `keys`, sorted by key, equal keys in index order.
pub fn sort_indices(order: NameOrder, keys: &Vec<Vec<u8>>) -> (res: Vec<usize>)
    ensures
        index_views(res@) == sorted_order(order, key_views(keys@)),
        res@.len() == keys@.len(),
        forall|i: int| 0 <= i < res@.len() ==> #[trigger] res@[i] < keys@.len(),
{
    let ghost kv = key_views(keys@);
    let mut out: Vec<usize> = Vec::new();
    let mut k: usize = 0;
    assert(index_views(out@) =~= sorted_upto(order, kv, 0));
    while k < keys.len()
        invariant
            k <= keys.len(),
            kv == key_views(keys@),
            index_views(out@) == sorted_upto(order, kv, k as nat),
            out@.len() == k,
            forall|i: int| 0 <= i < out@.len() ==> #[trigger] out@[i] < k,
        decreases keys.len() - k,
    {
        let mut p: usize = out.len();
        let ghost all = index_views(out@);
        assert(all.take(p as int) =~= all);
        assert(place(order, kv, all, k as int) =~= place(order, kv, all.take(p as int), k as int)
            + all.skip(p as int));
        while p > 0 && name_precedes(order, keys[k].as_slice(), keys[out[p - 1]].as_slice())
            invariant
                p <= out.len(),
                k < keys.len(),
                kv == key_views(keys@),
                all == index_views(out@),
                out@.len() == k,
                forall|i: int| 0 <= i < out@.len() ==> #[trigger] out@[i] < k,
                place(order, kv, all, k as int) == place(order, kv, all.take(p as int), k as int)
                    + all.skip(p as int),
            decreases p,
        {
            proof {
                let t = all.take(p as int);
                assert(t.last() == out@[p - 1]);
                assert(t.drop_last() =~= all.take(p - 1));
                assert(place(order, kv, t, k as int) == place(order, kv, all.take(p - 1), k as int).push(
                    t.last(),
                ));
                assert(place(order, kv, t, k as int) + all.skip(p as int) =~= place(
                    order,
                    kv,
                    all.take(p - 1),
                    k as int,
                ) + all.skip(p - 1));
            }
            p = p - 1;
        }
        proof {
            let t = all.take(p as int);
            if p > 0 {
                assert(t.last() == out@[p - 1]);
            }
            assert(place(order, kv, t, k as int) == t.push(k as int));
        }
        let ghost before = out@;
        out.insert(p, k);
        proof {
            assert(index_views(out@) =~= all.take(p as int).push(k as int) + all.skip(p as int));
            assert forall|i: int| 0 <= i < out@.len() implies #[trigger] out@[i] < k + 1 by {
                if i < p {
                    assert(out@[i] == before[i]);
                } else if i > p {
                    assert(out@[i] == before[i - 1]);
                }
            }
        }
        k = k + 1;
    }
    out
}

} // verus!
