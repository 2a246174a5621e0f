//! The directories of an index: which there are, where they lie, and whose
//! `.gitignore` is noted.
use vstd::prelude::*;
use crate::bytes::{
    find_byte, has_prefix, lemma_find_byte, lemma_split_joined, lex_lt, lex_lt_from, split_on,
};
use crate::gitread::lacks;
use crate::workspace::{
    add_entry, current, gitignore_name, open_all, open_dir, root_state, shared,
    tree_of, DirView, RawEntry, TreeState,
};

verus! {

// ---------------------------------------------------------------------------
// Components
// ---------------------------------------------------------------------------
/// The components of a path.
pub open spec fn components(path: Seq<u8>) -> Seq<Seq<u8>> {
    split_on(path, 47)
}

/// The directories above an entry, outermost first.
pub open spec fn parents(e: RawEntry) -> Seq<Seq<u8>> {
    components(e.path).drop_last()
}

/// Components, each followed by a slash.
pub open spec fn slashed(q: Seq<Seq<u8>>) -> Seq<u8>
    decreases q.len(),
{
    if q.len() == 0 {
        Seq::empty()
    } else {
        q[0] + seq![47u8] + slashed(q.skip(1))
    }
}

/// A path is its directories, each followed by a slash, and its last
/// component; no component holds a slash or a byte that the path lacks.
pub proof fn lemma_components(path: Seq<u8>)
    ensures
        components(path).len() > 0,
        path == slashed(components(path).drop_last()) + components(path).last(),
        forall|k: int| 0 <= k < components(path).len() ==> lacks(#[trigger] components(path)[k], 47),
        lacks(path, 0) ==> forall|k: int|
            0 <= k < components(path).len() ==> lacks(#[trigger] components(path)[k], 0),
    decreases path.len(),
{
    let i = find_byte(path, 47, 0) as int;
    let c = components(path);
    lemma_find_byte(path, 47, 0);
    if i >= path.len() {
        assert(c.drop_last() =~= Seq::<Seq<u8>>::empty());
        assert(slashed(c.drop_last()) + c.last() =~= path);
    } else {
        let tail = path.skip(i + 1);
        let head = path.subrange(0, i);
        let rest = components(tail);
        lemma_components(tail);
        assert(c =~= seq![head] + rest);
        assert(c.drop_last() =~= seq![head] + rest.drop_last());
        assert(c.drop_last().skip(1) =~= rest.drop_last());
        assert(c.last() == rest.last());
        assert(path =~= head + seq![47u8] + tail);
        assert(slashed(c.drop_last()) + c.last() =~= head + seq![47u8] + (slashed(
            rest.drop_last(),
        ) + rest.last()));
        assert forall|k: int| 0 <= k < c.len() implies lacks(#[trigger] c[k], 47) by {
            if k > 0 {
                assert(c[k] == rest[k - 1]);
            }
        }
        if lacks(path, 0) {
            assert forall|k: int| 0 <= k < tail.len() implies #[trigger] tail[k] != 0 by {
                assert(tail[k] == path[k + i + 1]);
            }
            assert forall|k: int| 0 <= k < c.len() implies lacks(#[trigger] c[k], 0) by {
                if k > 0 {
                    assert(c[k] == rest[k - 1]);
                } else {
                    assert forall|m: int| 0 <= m < head.len() implies #[trigger] head[m] != 0 by {
                        assert(head[m] == path[m]);
                    }
                }
            }
        }
    }
}

/// What follows directories is split on its own.
proof fn lemma_below(q: Seq<Seq<u8>>, r: Seq<u8>)
    requires
        forall|k: int| 0 <= k < q.len() ==> lacks(#[trigger] q[k], 47),
    ensures
        components(slashed(q) + r) == q + components(r),
    decreases q.len(),
{
    if q.len() == 0 {
        assert(slashed(q) + r =~= r);
        assert(q + components(r) =~= components(r));
    } else {
        let below = q.skip(1);
        let rest = slashed(below) + r;
        assert forall|k: int| 0 <= k < below.len() implies lacks(#[trigger] below[k], 47) by {
            assert(below[k] == q[k + 1]);
        }
        lemma_below(below, r);
        assert(slashed(q) + r =~= q[0] + seq![47u8] + rest);
        lemma_split_joined(q[0], rest, 47);
        lemma_find_byte(q[0], 47, 0);
        let at = find_byte(q[0], 47, 0) as int;
        if at < q[0].len() {
            assert(lacks(q[0], 47));
            assert(q[0][at] != 47);
        }
        assert(split_on(q[0], 47) =~= seq![q[0]]);
        assert(q + components(r) =~= seq![q[0]] + (below + components(r)));
    }
}

proof fn lemma_slashed_sum(a: Seq<Seq<u8>>, b: Seq<Seq<u8>>)
    ensures
        slashed(a + b) == slashed(a) + slashed(b),
    decreases a.len(),
{
    if a.len() == 0 {
        assert(a + b =~= b);
        assert(slashed(a) + slashed(b) =~= slashed(b));
    } else {
        lemma_slashed_sum(a.skip(1), b);
        assert((a + b).skip(1) =~= a.skip(1) + b);
        assert(slashed(a + b) =~= slashed(a) + slashed(b));
    }
}

/// A path lies below a directory when its parents begin with it, and only
/// then.
proof fn lemma_lies_below(path: Seq<u8>, q: Seq<Seq<u8>>)
    requires
        forall|k: int| 0 <= k < q.len() ==> lacks(#[trigger] q[k], 47),
    ensures
        has_prefix(path, slashed(q)) <==> q.len() < components(path).len() && components(
            path,
        ).drop_last().take(q.len() as int) == q,
{
    let c = components(path);
    let p = slashed(q);
    lemma_components(path);
    if has_prefix(path, p) {
        let r = path.skip(p.len() as int);
        assert(path =~= p + r) by {
            assert(path.subrange(0, p.len() as int) == p);
            assert(path =~= path.subrange(0, p.len() as int) + r);
        }
        lemma_below(q, r);
        lemma_components(r);
        assert(c == q + components(r));
        assert(c.drop_last().take(q.len() as int) =~= q);
    }
    if q.len() < c.len() && c.drop_last().take(q.len() as int) == q {
        let rest = c.drop_last().skip(q.len() as int);
        assert(c.drop_last() =~= q + rest);
        lemma_slashed_sum(q, rest);
        assert(path =~= p + (slashed(rest) + c.last()));
        assert(path.subrange(0, p.len() as int) =~= p);
    }
}

/// What lies between two paths below a directory lies below it too.
proof fn lemma_between(x: Seq<u8>, y: Seq<u8>, z: Seq<u8>, p: Seq<u8>, i: nat)
    requires
        i <= p.len(),
        i <= y.len(),
        forall|k: int| 0 <= k < i ==> #[trigger] y[k] == p[k],
        lex_lt_from(x, y, i),
        lex_lt_from(y, z, i),
        has_prefix(x, p),
        has_prefix(z, p),
    ensures
        has_prefix(y, p),
    decreases p.len() - i,
{
    if i == p.len() {
        assert(y.subrange(0, p.len() as int) =~= p);
    } else {
        assert(x.subrange(0, p.len() as int)[i as int] == x[i as int]);
        assert(z.subrange(0, p.len() as int)[i as int] == z[i as int]);
        lemma_between(x, y, z, p, i + 1);
    }
}

/// Paths with the same components are the same.
proof fn lemma_same_components(a: Seq<u8>, b: Seq<u8>)
    requires
        components(a) == components(b),
    ensures
        a == b,
{
    lemma_components(a);
    lemma_components(b);
}

// ---------------------------------------------------------------------------
// Directories
// ---------------------------------------------------------------------------
/// Whether the paths are those of the directories of a state whose open
/// directories lead to `chain`: the root has none above it, a subdirectory's
/// path is its directory's with its name behind it, and no two are the same.
pub open spec fn placed(s: TreeState, ps: Seq<Seq<Seq<u8>>>, chain: Seq<Seq<u8>>) -> bool {
    &&& ps.len() == s.dirs.len()
    &&& ps.len() > 0
    &&& ps[0] == Seq::<Seq<u8>>::empty()
    &&& s.dirs[0].name == Seq::<u8>::empty()
    &&& forall|v: int|
        0 < v < ps.len() ==> (#[trigger] ps[v]).len() > 0 && ps[v].last() == s.dirs[v].name
    &&& forall|d: int, i: int|
        0 <= d < ps.len() && 0 <= i < s.dirs[d].children.len() ==> 0
            <= #[trigger] s.dirs[d].children[i] < ps.len() && ps[s.dirs[d].children[i]]
            == ps[d].push(s.dirs[s.dirs[d].children[i]].name)
    &&& s.open.len() == chain.len()
    &&& forall|k: int|
        0 <= k < s.open.len() ==> 0 < #[trigger] s.open[k] < ps.len() && ps[s.open[k]]
            == chain.take(k + 1)
    &&& ps.no_duplicates()
}

proof fn lemma_current(s: TreeState, ps: Seq<Seq<Seq<u8>>>, chain: Seq<Seq<u8>>)
    requires
        placed(s, ps, chain),
    ensures
        0 <= current(s.open) < ps.len(),
        ps[current(s.open)] == chain,
{
    if s.open.len() > 0 {
        let k = s.open.len() - 1;
        assert(s.open[k] == current(s.open));
        assert(chain.take(k + 1) =~= chain);
    } else {
        assert(chain =~= Seq::<Seq<u8>>::empty());
    }
}

proof fn lemma_open_dir_is_placed(
    s: TreeState,
    ps: Seq<Seq<Seq<u8>>>,
    chain: Seq<Seq<u8>>,
    name: Seq<u8>,
)
    requires
        placed(s, ps, chain),
        !ps.contains(chain.push(name)),
    ensures
        placed(open_dir(s, name), ps.push(chain.push(name)), chain.push(name)),
        forall|v: int|
            0 <= v < ps.len() ==> (#[trigger] open_dir(s, name).dirs[v]).gitignore
                == s.dirs[v].gitignore,
        open_dir(s, name).dirs[ps.len() as int].gitignore is None,
{
    lemma_current(s, ps, chain);
    let t = open_dir(s, name);
    let c = s.dirs.len() as int;
    let p = current(s.open);
    let qs = ps.push(chain.push(name));
    let longer = chain.push(name);
    assert(t.dirs[c] == (DirView { name, children: Seq::empty(), gitignore: None }));
    assert(t.dirs[p].children == s.dirs[p].children.push(c));
    assert(forall|v: int| 0 <= v < c ==> (#[trigger] t.dirs[v]).name == s.dirs[v].name);
    assert(forall|v: int| 0 <= v < c ==> #[trigger] qs[v] == ps[v]);
    assert(qs[c] == longer);
    assert forall|v: int| 0 < v < qs.len() implies (#[trigger] qs[v]).len() > 0 && qs[v].last()
        == t.dirs[v].name by {
        if v < c {
            assert(ps[v].len() > 0);
        }
    }
    assert forall|d: int, i: int| 0 <= d < qs.len() && 0 <= i < t.dirs[d].children.len() implies 0
        <= #[trigger] t.dirs[d].children[i] < qs.len() && qs[t.dirs[d].children[i]] == qs[d].push(
        t.dirs[t.dirs[d].children[i]].name,
    ) by {
        if d < c {
            if d == p && i == s.dirs[p].children.len() {
                assert(t.dirs[d].children[i] == c);
            } else {
                assert(t.dirs[d].children[i] == s.dirs[d].children[i]);
            }
        }
    }
    assert forall|k: int| 0 <= k < t.open.len() implies 0 < #[trigger] t.open[k] < qs.len()
        && qs[t.open[k]] == longer.take(k + 1) by {
        if k < s.open.len() {
            assert(t.open[k] == s.open[k]);
            assert(longer.take(k + 1) =~= chain.take(k + 1));
        } else {
            assert(longer.take(k + 1) =~= longer);
        }
    }
    assert forall|a: int, b: int| 0 <= a < qs.len() && 0 <= b < qs.len() && a != b implies qs[a]
        != qs[b] by {
        if a == c {
            assert(ps[b] != longer);
        } else if b == c {
            assert(ps[a] != longer);
        }
    }
}

/// The paths of directories opened one inside the other.
spec fn opened_paths(ps: Seq<Seq<Seq<u8>>>, chain: Seq<Seq<u8>>, names: Seq<Seq<u8>>) -> Seq<
    Seq<Seq<u8>>,
> {
    ps + Seq::new(names.len(), |m: int| chain + names.take(m + 1))
}

proof fn lemma_open_all_is_placed(
    s: TreeState,
    ps: Seq<Seq<Seq<u8>>>,
    chain: Seq<Seq<u8>>,
    names: Seq<Seq<u8>>,
)
    requires
        placed(s, ps, chain),
        forall|m: int|
            0 <= m < names.len() ==> !ps.contains(chain + #[trigger] names.take(m + 1)),
    ensures
        placed(open_all(s, names), opened_paths(ps, chain, names), chain + names),
        forall|v: int|
            0 <= v < ps.len() ==> (#[trigger] open_all(s, names).dirs[v]).gitignore
                == s.dirs[v].gitignore,
        forall|v: int|
            ps.len() <= v < ps.len() + names.len() ==> (#[trigger] open_all(
                s,
                names,
            ).dirs[v]).gitignore is None,
    decreases names.len(),
{
    let all = opened_paths(ps, chain, names);
    if names.len() == 0 {
        assert(all =~= ps);
        assert(chain + names =~= chain);
    } else {
        let n = names.len() as int;
        let fewer = names.drop_last();
        let before = opened_paths(ps, chain, fewer);
        let mid = open_all(s, fewer);
        assert forall|m: int| 0 <= m < fewer.len() implies !ps.contains(
            chain + #[trigger] fewer.take(m + 1),
        ) by {
            assert(fewer.take(m + 1) =~= names.take(m + 1));
        }
        lemma_open_all_is_placed(s, ps, chain, fewer);
        let longer = (chain + fewer).push(names.last());
        assert(longer =~= chain + names.take(n));
        assert(names.take(n - 1 + 1) =~= names);
        assert(!before.contains(longer)) by {
            if before.contains(longer) {
                let v = choose|v: int| 0 <= v < before.len() && before[v] == longer;
                if v < ps.len() {
                    assert(ps[v] == longer);
                    assert(ps.contains(chain + names.take(n - 1 + 1)));
                } else {
                    assert(before[v] == chain + fewer.take(v - ps.len() + 1));
                    assert(before[v].len() < longer.len());
                }
            }
        }
        lemma_open_dir_is_placed(mid, before, chain + fewer, names.last());
        assert(all =~= before.push(longer)) by {
            assert forall|v: int| 0 <= v < all.len() implies all[v] == before.push(longer)[v] by {
                if ps.len() <= v < all.len() - 1 {
                    let m = v - ps.len();
                    assert(fewer.take(m + 1) =~= names.take(m + 1));
                }
            }
        }
        assert(longer =~= chain + names);
        assert(open_all(s, names) == open_dir(mid, names.last()));
        assert forall|v: int| 0 <= v < ps.len() implies (#[trigger] open_all(
            s,
            names,
        ).dirs[v]).gitignore == s.dirs[v].gitignore by {
            assert(open_dir(mid, names.last()).dirs[v].gitignore == mid.dirs[v].gitignore);
        }
        assert forall|v: int| ps.len() <= v < ps.len() + names.len() implies (#[trigger] open_all(
            s,
            names,
        ).dirs[v]).gitignore is None by {
            if v < before.len() {
                assert(open_dir(mid, names.last()).dirs[v].gitignore == mid.dirs[v].gitignore);
            }
        }
    }
}

// ---------------------------------------------------------------------------
// The directories of entries
// ---------------------------------------------------------------------------
/// Whether the first `n` paths strictly ascend in byte order.
pub open spec fn in_order(entries: Seq<RawEntry>, n: nat) -> bool {
    forall|i: int, j: int|
        0 <= i < j < n ==> lex_lt((#[trigger] entries[i]).path, (#[trigger] entries[j]).path)
}

/// Whether a directory is above an entry.
pub open spec fn above(q: Seq<Seq<u8>>, e: RawEntry) -> bool {
    q.len() <= parents(e).len() && parents(e).take(q.len() as int) == q
}

/// Whether an entry is the regular `.gitignore` of a directory.
pub open spec fn ignores(e: RawEntry, q: Seq<Seq<u8>>) -> bool {
    components(e.path) == q.push(gitignore_name()) && (e.mode == 0o100644 || e.mode == 0o100755)
}

/// Whether directories with these paths are what the first `n` entries make:
/// every directory above an entry and no other, and beside each the object of
/// its regular `.gitignore`, if it has one.
pub open spec fn made_of(
    entries: Seq<RawEntry>,
    n: nat,
    dirs: Seq<DirView>,
    ps: Seq<Seq<Seq<u8>>>,
) -> bool {
    &&& forall|v: int|
        0 < v < ps.len() ==> exists|j: int| 0 <= j < n && above(#[trigger] ps[v], #[trigger] entries[j])
    &&& forall|j: int, q: Seq<Seq<u8>>|
        0 <= j < n && #[trigger] above(q, entries[j]) ==> ps.contains(q)
    &&& forall|v: int, j: int|
        0 <= v < ps.len() && 0 <= j < n && ignores(#[trigger] entries[j], #[trigger] ps[v])
            ==> dirs[v].gitignore == Some(entries[j].oid)
    &&& forall|v: int|
        0 <= v < ps.len() && (#[trigger] dirs[v]).gitignore is Some ==> exists|j: int|
            0 <= j < n && ignores(#[trigger] entries[j], ps[v])
}

/// The chain of directories above the last of the first `n` entries.
pub open spec fn last_chain(entries: Seq<RawEntry>, n: nat) -> Seq<Seq<u8>> {
    if n == 0 {
        Seq::empty()
    } else {
        parents(entries[n - 1])
    }
}

/// Where the open directories and a path part: they agree before it and
/// neither goes on alike.
proof fn lemma_shared(dirs: Seq<DirView>, open: Seq<int>, names: Seq<Seq<u8>>, k: nat)
    requires
        k <= open.len(),
        k <= names.len(),
    ensures
        k <= shared(dirs, open, names, k) <= open.len(),
        shared(dirs, open, names, k) <= names.len(),
        forall|i: int|
            k <= i < shared(dirs, open, names, k) ==> dirs[#[trigger] open[i]].name == names[i],
        ({
            let m = shared(dirs, open, names, k);
            m < open.len() && m < names.len() ==> dirs[open[m as int]].name != names[m as int]
        }),
    decreases open.len() - k,
{
    if k < open.len() && k < names.len() && dirs[open[k as int]].name == names[k as int] {
        lemma_shared(dirs, open, names, k + 1);
    }
}

/// The directories that remain open when a path leaves some of them.
proof fn lemma_kept_is_placed(
    s: TreeState,
    ps: Seq<Seq<Seq<u8>>>,
    chain: Seq<Seq<u8>>,
    kept: int,
)
    requires
        placed(s, ps, chain),
        0 <= kept <= s.open.len(),
    ensures
        placed(TreeState { dirs: s.dirs, open: s.open.take(kept) }, ps, chain.take(kept)),
{
    let t = TreeState { dirs: s.dirs, open: s.open.take(kept) };
    assert forall|k: int| 0 <= k < t.open.len() implies 0 < #[trigger] t.open[k] < ps.len()
        && ps[t.open[k]] == chain.take(kept).take(k + 1) by {
        assert(t.open[k] == s.open[k]);
        assert(chain.take(kept).take(k + 1) =~= chain.take(k + 1));
    }
}

/// How far a path's directories agree with the chain that is open.
proof fn lemma_kept_agrees(
    s: TreeState,
    ps: Seq<Seq<Seq<u8>>>,
    chain: Seq<Seq<u8>>,
    names: Seq<Seq<u8>>,
)
    requires
        placed(s, ps, chain),
    ensures
        ({
            let kept = shared(s.dirs, s.open, names, 0) as int;
            &&& kept <= chain.len()
            &&& kept <= names.len()
            &&& chain.take(kept) == names.take(kept)
            &&& kept < chain.len() && kept < names.len() ==> chain[kept] != names[kept]
        }),
{
    lemma_shared(s.dirs, s.open, names, 0);
    let kept = shared(s.dirs, s.open, names, 0) as int;
    assert forall|k: int| 0 <= k < s.open.len() implies s.dirs[#[trigger] s.open[k]].name
        == chain[k] by {
        let v = s.open[k];
        assert(ps[v] == chain.take(k + 1));
        assert(ps[v].last() == s.dirs[v].name);
    }
    assert forall|k: int| 0 <= k < kept implies chain[k] == names[k] by {
        assert(s.dirs[s.open[k]].name == names[k]);
    }
    assert(chain.take(kept) =~= names.take(kept));
}

/// A directory that a path opens is a new one: whatever lay below it before
/// would have kept it open.
proof fn lemma_opened_is_new(
    entries: Seq<RawEntry>,
    n: nat,
    s: TreeState,
    ps: Seq<Seq<Seq<u8>>>,
    q: Seq<Seq<u8>>,
)
    requires
        n < entries.len(),
        in_order(entries, n + 1),
        placed(s, ps, last_chain(entries, n)),
        forall|v: int|
            0 < v < ps.len() ==> exists|j: int|
                0 <= j < n && above(#[trigger] ps[v], #[trigger] entries[j]),
        above(q, entries[n as int]),
        q.len() > shared(s.dirs, s.open, parents(entries[n as int]), 0),
    ensures
        !ps.contains(q),
{
    if ps.contains(q) {
        let e = entries[n as int];
        let v = choose|v: int| 0 <= v < ps.len() && ps[v] == q;
        assert(v > 0);
        let j = choose|j: int| 0 <= j < n && above(ps[v], #[trigger] entries[j]);
        let last = entries[n - 1];
        let p = slashed(q);
        lemma_components(e.path);
        lemma_components(last.path);
        lemma_components(entries[j].path);
        assert forall|k: int| 0 <= k < q.len() implies lacks(#[trigger] q[k], 47) by {
            assert(q[k] == parents(e).take(q.len() as int)[k]);
            assert(q[k] == components(e.path)[k]);
        }
        lemma_lies_below(e.path, q);
        lemma_lies_below(entries[j].path, q);
        lemma_lies_below(last.path, q);
        if j < n - 1 {
            lemma_between(entries[j].path, last.path, e.path, p, 0);
        }
        assert(above(q, last));
        let chain = last_chain(entries, n);
        let names = parents(e);
        lemma_kept_agrees(s, ps, chain, names);
        let kept = shared(s.dirs, s.open, names, 0) as int;
        assert(chain[kept] == chain.take(q.len() as int)[kept]);
        assert(names[kept] == names.take(q.len() as int)[kept]);
    }
}

/// The directories after one more entry.
#[verifier::spinoff_prover]
proof fn lemma_add_entry(
    entries: Seq<RawEntry>,
    n: nat,
    s: TreeState,
    ps: Seq<Seq<Seq<u8>>>,
) -> (qs: Seq<Seq<Seq<u8>>>)
    requires
        n < entries.len(),
        in_order(entries, n + 1),
        placed(s, ps, last_chain(entries, n)),
        made_of(entries, n, s.dirs, ps),
    ensures
        placed(add_entry(s, entries[n as int]), qs, last_chain(entries, n + 1)),
        made_of(entries, n + 1, add_entry(s, entries[n as int]).dirs, qs),
{
    let e = entries[n as int];
    let chain = last_chain(entries, n);
    let names = parents(e);
    let kept = shared(s.dirs, s.open, names, 0) as int;
    lemma_components(e.path);
    lemma_shared(s.dirs, s.open, names, 0);
    lemma_kept_agrees(s, ps, chain, names);
    lemma_kept_is_placed(s, ps, chain, kept);
    let base = TreeState { dirs: s.dirs, open: s.open.take(kept) };
    let rest = names.skip(kept);
    assert forall|m: int| 0 <= m < rest.len() implies !ps.contains(
        chain.take(kept) + #[trigger] rest.take(m + 1),
    ) by {
        let q = chain.take(kept) + rest.take(m + 1);
        assert(names.take(q.len() as int) =~= q);
        lemma_opened_is_new(entries, n, s, ps, q);
    }
    lemma_open_all_is_placed(base, ps, chain.take(kept), rest);
    let opened = open_all(base, rest);
    let qs = opened_paths(ps, chain.take(kept), rest);
    assert(chain.take(kept) + rest =~= names);
    assert(placed(opened, qs, names));
    lemma_current(opened, qs, names);
    let at = current(opened.open);
    let t = add_entry(s, e);
    let noted = components(e.path).last() == gitignore_name() && (e.mode == 0o100644 || e.mode
        == 0o100755);
    assert(t.open == opened.open);
    assert(t.dirs.len() == opened.dirs.len());
    assert(forall|v: int|
        0 <= v < t.dirs.len() ==> (#[trigger] t.dirs[v]).name == opened.dirs[v].name
            && t.dirs[v].children == opened.dirs[v].children);
    assert(placed(t, qs, names)) by {
        assert forall|d: int, i: int| 0 <= d < qs.len() && 0 <= i
            < t.dirs[d].children.len() implies 0 <= #[trigger] t.dirs[d].children[i] < qs.len()
            && qs[t.dirs[d].children[i]] == qs[d].push(t.dirs[t.dirs[d].children[i]].name) by {
            assert(t.dirs[d].children[i] == opened.dirs[d].children[i]);
        }
    }
    assert forall|v: int| 0 <= v < qs.len() implies (#[trigger] t.dirs[v]).gitignore == (if noted
        && v == at {
        Some(e.oid)
    } else if v < ps.len() {
        s.dirs[v].gitignore
    } else {
        None
    }) by {
        assert(v != at || !noted ==> t.dirs[v] == opened.dirs[v]);
    }
    lemma_paths_of_entry(entries, n, ps, qs, chain.take(kept), rest);
    assert forall|v: int, j: int|
        0 <= v < qs.len() && 0 <= j < n + 1 && ignores(#[trigger] entries[j], #[trigger] qs[v]) implies t.dirs[v].gitignore
        == Some(entries[j].oid) by {
        let q = qs[v];
        assert(components(entries[j].path).drop_last() =~= q);
        if j == n {
            assert(q == qs[at]);
            assert(components(e.path).last() == gitignore_name());
        } else {
            assert(parents(entries[j]).take(q.len() as int) =~= q);
            assert(above(q, entries[j]));
            assert(ps.contains(q));
            let u = choose|u: int| 0 <= u < ps.len() && ps[u] == q;
            assert(qs[u] == ps[u]);
            assert(u == v);
            assert(s.dirs[v].gitignore == Some(entries[j].oid));
            if noted && v == at {
                assert(components(e.path) =~= q.push(gitignore_name()));
                lemma_same_components(e.path, entries[j].path);
                assert(lex_lt(entries[j].path, entries[n as int].path));
                crate::bytes::lemma_lex_irreflexive(e.path, 0);
            }
        }
    }
    assert forall|v: int| 0 <= v < qs.len() && (#[trigger] t.dirs[v]).gitignore is Some implies exists|
        j: int,
    |
        0 <= j < n + 1 && ignores(#[trigger] entries[j], qs[v]) by {
        if noted && v == at {
            assert(components(e.path) =~= qs[v].push(gitignore_name()));
            assert(ignores(entries[n as int], qs[v]));
        } else {
            assert(s.dirs[v].gitignore is Some);
            let j = choose|j: int| 0 <= j < n && ignores(#[trigger] entries[j], ps[v]);
            assert(qs[v] == ps[v]);
            assert(ignores(entries[j], qs[v]));
        }
    }
    qs
}

/// The paths after one more entry are those of the directories above some
/// entry.
proof fn lemma_paths_of_entry(
    entries: Seq<RawEntry>,
    n: nat,
    ps: Seq<Seq<Seq<u8>>>,
    qs: Seq<Seq<Seq<u8>>>,
    kept: Seq<Seq<u8>>,
    rest: Seq<Seq<u8>>,
)
    requires
        n < entries.len(),
        ps.len() > 0,
        ps[0] == Seq::<Seq<u8>>::empty(),
        qs == opened_paths(ps, kept, rest),
        parents(entries[n as int]) == kept + rest,
        kept.len() > 0 ==> n > 0 && above(kept, entries[n - 1]),
        forall|v: int|
            0 < v < ps.len() ==> exists|j: int|
                0 <= j < n && above(#[trigger] ps[v], #[trigger] entries[j]),
        forall|j: int, q: Seq<Seq<u8>>|
            0 <= j < n && #[trigger] above(q, entries[j]) ==> ps.contains(q),
    ensures
        forall|v: int|
            0 < v < qs.len() ==> exists|j: int|
                0 <= j < n + 1 && above(#[trigger] qs[v], #[trigger] entries[j]),
        forall|j: int, q: Seq<Seq<u8>>|
            0 <= j < n + 1 && #[trigger] above(q, entries[j]) ==> qs.contains(q),
{
    let e = entries[n as int];
    assert forall|v: int| 0 < v < qs.len() implies exists|j: int|
        0 <= j < n + 1 && above(#[trigger] qs[v], #[trigger] entries[j]) by {
        if v < ps.len() {
            let j = choose|j: int| 0 <= j < n && above(ps[v], #[trigger] entries[j]);
            assert(above(qs[v], entries[j]));
        } else {
            let m = v - ps.len();
            assert(qs[v] == kept + rest.take(m + 1));
            assert(parents(e).take(qs[v].len() as int) =~= qs[v]);
            assert(above(qs[v], entries[n as int]));
        }
    }
    assert forall|j: int, q: Seq<Seq<u8>>|
        0 <= j < n + 1 && #[trigger] above(q, entries[j]) implies qs.contains(q) by {
        if j < n {
            assert(ps.contains(q));
            let u = choose|u: int| 0 <= u < ps.len() && ps[u] == q;
            assert(qs[u] == q);
        } else if q.len() > kept.len() {
            let m = q.len() - kept.len() - 1;
            let v = ps.len() + m;
            assert(qs[v] == kept + rest.take(m + 1));
            assert(qs[v] =~= q);
        } else if q.len() == 0 {
            assert(q =~= ps[0]);
            assert(qs[0] == q);
        } else {
            let last = entries[n - 1];
            assert(kept.take(q.len() as int) =~= q) by {
                assert(parents(e).take(q.len() as int) =~= kept.take(q.len() as int));
            }
            assert(parents(last).take(q.len() as int) =~= parents(last).take(
                kept.len() as int,
            ).take(q.len() as int));
            assert(above(q, entries[n - 1]));
            assert(ps.contains(q));
            let u = choose|u: int| 0 <= u < ps.len() && ps[u] == q;
            assert(qs[u] == q);
        }
    }
}

/// The paths of an index's directories: the root and every directory above an
/// entry, each of them once, with the object of its regular `.gitignore`.
pub proof fn law_directories_are_those_above_entries(entries: Seq<RawEntry>, n: nat) -> (ps: Seq<
    Seq<Seq<u8>>,
>)
    requires
        n <= entries.len(),
        in_order(entries, n),
    ensures
        placed(tree_of(entries, n), ps, last_chain(entries, n)),
        made_of(entries, n, tree_of(entries, n).dirs, ps),
    decreases n,
{
    if n == 0 {
        let ps = seq![Seq::<Seq<u8>>::empty()];
        assert(placed(root_state(), ps, Seq::empty()));
        ps
    } else {
        let ps = law_directories_are_those_above_entries(entries, (n - 1) as nat);
        lemma_add_entry(entries, (n - 1) as nat, tree_of(entries, (n - 1) as nat), ps)
    }
}

} // verus!
