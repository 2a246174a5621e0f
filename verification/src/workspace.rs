//! The untracked cache (`UNTR`) and fsmonitor (`FSMN`) extensions a fresh
//! workspace's index is given, as one status run of the pristine tree would
//! have left them.
use vstd::prelude::*;
use crate::bytes::{
    append_bytes, append_zeros, be16, be16_value, be32, be32_at, be32_value, bytes_eq, copy_bytes,
    find_byte, lemma_concat_assoc, lemma_find_byte, lemma_zeros_join, position_from, push_be32,
    read_be16, read_be32, split_bytes, split_on, sub_bytes, views, zeros,
};
use crate::ewah::{ewah, ewah_bytes};
use crate::hashing::{sha1_digest, sha1_of};
use crate::index::{
    dirc, entries_bytes, entry_body, entry_bytes, index_body, index_outcome,
    law_recorded_entries_are_in_order, seals, tree_extension, CacheTree, IndexEntry,
};
use crate::sorting::{
    index_views, key_views, lemma_sorted_order, sort_indices, sorted_order, NameOrder,
};
use crate::text::utf8;
use crate::time::Timestamp;
use crate::varint::{encode_varint, varint};

verus! {

/// What seeding a workspace's caches needs to know about that workspace.
#[derive(Debug)]
pub struct WorkspaceCaches<'a> {
    /// The untracked-cache ident: `Location <worktree>, system <sysname>`.
    pub ident: &'a str,
    /// The directory flags a status run will ask for.
    pub dir_flags: u32,
    /// Blob IDs of the two global exclude files, `None` when the file does not
    /// exist.
    pub info_exclude: Option<[u8; 20]>,
    pub excludes_file: Option<[u8; 20]>,
    /// The token the fsmonitor hook will next be asked about.
    pub fsmonitor_token: &'a str,
}

// ---------------------------------------------------------------------------
// Reading the entries
// ---------------------------------------------------------------------------
/// What the extensions need of one index entry.
pub struct RawEntry {
    pub mode: u32,
    pub oid: Seq<u8>,
    pub path: Seq<u8>,
}

/// The path length an entry's flags announce: twelve bits, all of them set
/// when the path runs to its terminator instead.
pub open spec fn path_len(index: Seq<u8>, pos: int, flags: u16) -> Option<int> {
    if flags & 0xFFF == 0xFFF {
        let end = find_byte(index, 0, (pos + 62) as nat) as int;
        if end >= index.len() {
            None
        } else {
            Some(end - (pos + 62))
        }
    } else {
        Some((flags & 0xFFF) as int)
    }
}

/// The entry at `pos` and where the next one begins. `None` when the entry is
/// cut short or carries extended flags.
pub open spec fn raw_entry(index: Seq<u8>, pos: int) -> Option<(RawEntry, int)> {
    if pos + 62 > index.len() {
        None
    } else {
        let flags = be16_value(index[pos + 60], index[pos + 61]);
        if flags & 0x4000 != 0 {
            None
        } else {
            match path_len(index, pos, flags) {
                None => None,
                Some(len) => {
                    let next = pos + (62 + len) / 8 * 8 + 8;
                    if pos + 62 + len > index.len() || next > index.len() {
                        None
                    } else {
                        Some(
                            (
                                RawEntry {
                                    mode: be32_at(index, pos + 24),
                                    oid: index.subrange(pos + 40, pos + 60),
                                    path: index.subrange(pos + 62, pos + 62 + len),
                                },
                                next,
                            ),
                        )
                    }
                },
            }
        }
    }
}

/// The first `n` entries and where they end.
pub open spec fn raw_entries(index: Seq<u8>, n: nat) -> Option<(Seq<RawEntry>, int)>
    decreases n,
{
    if n == 0 {
        Some((Seq::empty(), 12))
    } else {
        match raw_entries(index, (n - 1) as nat) {
            None => None,
            Some((entries, pos)) => match raw_entry(index, pos) {
                None => None,
                Some((entry, next)) => Some((entries.push(entry), next)),
            },
        }
    }
}

/// Whether the bytes are long enough for an index and open with the version-2
/// header.
pub open spec fn is_v2(index: Seq<u8>) -> bool {
    index.len() >= 32 && index.subrange(0, 4) == dirc() && be32_at(index, 4) == 2
}

/// One parsed entry.
struct Parsed {
    mode: u32,
    oid: Vec<u8>,
    path: Vec<u8>,
    next: usize,
}

fn parse_entry(index: &[u8], pos: usize) -> (res: Option<Parsed>)
    requires
        pos <= index@.len(),
    ensures
        match raw_entry(index@, pos as int) {
            None => res is None,
            Some((entry, next)) => res matches Some(p) && p.mode == entry.mode && p.oid@ == entry.oid
                && p.path@ == entry.path && p.next == next && next <= index@.len(),
        },
{
    if index.len() - pos < 62 {
        return None;
    }
    let flags = read_be16(index, pos + 60);
    if flags & 0x4000 != 0 {
        return None;
    }
    let start: usize = pos + 62;
    let len: usize = if flags & 0xFFF == 0xFFF {
        let end = position_from(index, 0, start);
        if end >= index.len() {
            return None;
        }
        end - start
    } else {
        (flags & 0xFFF) as usize
    };
    if index.len() - start < len {
        return None;
    }
    let room = index.len() - pos;
    let whole: usize = (62 + len) / 8 * 8;
    if room < 8 || room - 8 < whole {
        return None;
    }
    let mode = read_be32(index, pos + 24);
    Some(
        Parsed {
            mode,
            oid: sub_bytes(index, pos + 40, pos + 60),
            path: sub_bytes(index, start, start + len),
            next: pos + whole + 8,
        },
    )
}

// ---------------------------------------------------------------------------
// The directory tree
// ---------------------------------------------------------------------------
/// A directory: its name, its subdirectories in the order they appeared, and
/// the blob of its `.gitignore` if it has one.
#[verifier::ext_equal]
pub struct DirView {
    pub name: Seq<u8>,
    pub children: Seq<int>,
    pub gitignore: Option<Seq<u8>>,
}

/// The directories found so far and the chain of those still open, deepest
/// last. Directory 0 is the root and is in no chain.
#[verifier::ext_equal]
pub struct TreeState {
    pub dirs: Seq<DirView>,
    pub open: Seq<int>,
}

/// The state before any entry: the root alone.
pub open spec fn root_state() -> TreeState {
    TreeState {
        dirs: seq![DirView { name: Seq::empty(), children: Seq::empty(), gitignore: None }],
        open: Seq::empty(),
    }
}

/// The deepest open directory.
pub open spec fn current(open: Seq<int>) -> int {
    if open.len() == 0 {
        0
    } else {
        open.last()
    }
}

/// How many of the open directories the path's parents continue, given that
/// the first `k` agree.
pub open spec fn shared(dirs: Seq<DirView>, open: Seq<int>, parents: Seq<Seq<u8>>, k: nat) -> nat
    decreases open.len() - k,
{
    if k < open.len() && k < parents.len() && dirs[open[k as int]].name == parents[k as int] {
        shared(dirs, open, parents, k + 1)
    } else {
        k
    }
}

/// Open one subdirectory of the deepest open directory.
pub open spec fn open_dir(s: TreeState, name: Seq<u8>) -> TreeState {
    let parent = current(s.open);
    let child = s.dirs.len() as int;
    let old_parent = s.dirs[parent];
    TreeState {
        dirs: s.dirs.update(
            parent,
            DirView { children: old_parent.children.push(child), ..old_parent },
        ).push(DirView { name, children: Seq::empty(), gitignore: None }),
        open: s.open.push(child),
    }
}

/// Open subdirectories one inside the other.
pub open spec fn open_all(s: TreeState, names: Seq<Seq<u8>>) -> TreeState
    decreases names.len(),
{
    if names.len() == 0 {
        s
    } else {
        open_dir(open_all(s, names.drop_last()), names.last())
    }
}

/// The bytes of `.gitignore`.
pub open spec fn gitignore_name() -> Seq<u8> {
    seq![46u8, 103, 105, 116, 105, 103, 110, 111, 114, 101]
}

/// Account for one entry: leave the directories its path is not under, open
/// those it is, and note a regular `.gitignore`.
pub open spec fn add_entry(s: TreeState, e: RawEntry) -> TreeState {
    let parts = split_on(e.path, 47);
    let parents = parts.drop_last();
    let kept = shared(s.dirs, s.open, parents, 0) as int;
    let opened = open_all(
        TreeState { dirs: s.dirs, open: s.open.take(kept) },
        parents.skip(kept),
    );
    if parts.last() == gitignore_name() && (e.mode == 0o100644 || e.mode == 0o100755) {
        let at = current(opened.open);
        TreeState {
            dirs: opened.dirs.update(
                at,
                DirView { gitignore: Some(e.oid), ..opened.dirs[at] },
            ),
            ..opened
        }
    } else {
        opened
    }
}

/// The state after the first `n` entries.
pub open spec fn tree_of(entries: Seq<RawEntry>, n: nat) -> TreeState
    decreases n,
{
    if n == 0 {
        root_state()
    } else {
        add_entry(tree_of(entries, (n - 1) as nat), entries[n - 1])
    }
}

/// The names of a directory's subdirectories.
pub open spec fn dir_names(dirs: Seq<DirView>, d: int) -> Seq<Seq<u8>> {
    Seq::new(dirs[d].children.len(), |i: int| dirs[dirs[d].children[i]].name)
}

/// A directory's subdirectories in byte order of their names.
pub open spec fn sorted_children(dirs: Seq<DirView>, d: int) -> Seq<int> {
    let order = sorted_order(NameOrder::Bytes, dir_names(dirs, d));
    Seq::new(dirs[d].children.len(), |i: int| dirs[d].children[order[i]])
}

/// Depth first, a directory before its subdirectories, siblings in byte order.
pub open spec fn preorder(dirs: Seq<DirView>, d: int) -> Seq<int>
    decreases dirs.len() - d, dirs[d].children.len() + 1,
{
    if 0 <= d < dirs.len() {
        seq![d] + preorder_below(dirs, d, dirs[d].children.len())
    } else {
        Seq::empty()
    }
}

/// The directories below the first `n` subdirectories of `d`.
pub open spec fn preorder_below(dirs: Seq<DirView>, d: int, n: nat) -> Seq<int>
    decreases dirs.len() - d, n,
{
    if n == 0 || !(0 <= d < dirs.len()) || n > dirs[d].children.len() {
        Seq::empty()
    } else {
        let c = sorted_children(dirs, d)[n - 1];
        preorder_below(dirs, d, (n - 1) as nat) + (if d < c < dirs.len() {
            preorder(dirs, c)
        } else {
            Seq::empty()
        })
    }
}

struct Dir {
    name: Vec<u8>,
    children: Vec<usize>,
    gitignore: Option<Vec<u8>>,
}

spec fn dir_view(d: Dir) -> DirView {
    DirView {
        name: d.name@,
        children: index_views(d.children@),
        gitignore: match d.gitignore {
            Some(oid) => Some(oid@),
            None => None,
        },
    }
}

spec fn dir_views(dirs: Seq<Dir>) -> Seq<DirView> {
    Seq::new(dirs.len(), |i: int| dir_view(dirs[i]))
}

/// Subdirectories come after the directory that holds them, and the open chain
/// names known directories.
pub open spec fn state_wf(s: TreeState) -> bool {
    &&& s.dirs.len() > 0
    &&& forall|d: int, i: int|
        0 <= d < s.dirs.len() && 0 <= i < s.dirs[d].children.len() ==> d
            < #[trigger] s.dirs[d].children[i] < s.dirs.len()
    &&& forall|i: int| 0 <= i < s.open.len() ==> 0 <= #[trigger] s.open[i] < s.dirs.len()
}

struct Tree {
    dirs: Vec<Dir>,
    open: Vec<usize>,
}

impl Tree {
    spec fn state(&self) -> TreeState {
        TreeState { dirs: dir_views(self.dirs@), open: index_views(self.open@) }
    }

    fn new() -> (res: Tree)
        ensures
            res.state() == root_state(),
            state_wf(res.state()),
    {
        let mut dirs: Vec<Dir> = Vec::new();
        dirs.push(Dir { name: Vec::new(), children: Vec::new(), gitignore: None });
        let res = Tree { dirs, open: Vec::new() };
        assert(res.state().dirs[0] =~= root_state().dirs[0]);
        assert(res.state() =~= root_state());
        res
    }

    fn current(&self) -> (res: usize)
        requires
            state_wf(self.state()),
        ensures
            res == current(self.state().open),
            res < self.dirs@.len(),
    {
        if self.open.len() == 0 {
            0
        } else {
            let last = self.open.len() - 1;
            assert(self.state().open[last as int] == self.open@[last as int]);
            self.open[last]
        }
    }

    fn open_dir(&mut self, name: Vec<u8>)
        requires
            state_wf(old(self).state()),
        ensures
            final(self).state() == open_dir(old(self).state(), name@),
            state_wf(final(self).state()),
    {
        let ghost before = self.state();
        let parent = self.current();
        let child = self.dirs.len();
        let ghost kids = self.dirs@[parent as int].children@;
        assert(before.dirs[parent as int] == dir_view(self.dirs@[parent as int]));
        self.dirs[parent].children.push(child);
        self.dirs.push(Dir { name, children: Vec::new(), gitignore: None });
        self.open.push(child);
        proof {
            let after = self.state();
            let goal = open_dir(before, name@);
            assert(index_views(kids.push(child)) =~= index_views(kids).push(child as int));
            assert forall|i: int| 0 <= i < goal.dirs.len() implies after.dirs[i] =~= goal.dirs[i] by {
                if i < child && i != parent {
                    assert(after.dirs[i] == before.dirs[i]);
                } else if i == child {
                    assert(index_views(self.dirs@[i].children@) =~= Seq::<int>::empty());
                }
            }
            assert(after.dirs =~= goal.dirs);
            assert(after.open =~= goal.open);
            assert(after =~= goal);
            assert forall|d: int, i: int| 0 <= d < goal.dirs.len() && 0 <= i
                < goal.dirs[d].children.len() implies d < #[trigger] goal.dirs[d].children[i]
                < goal.dirs.len() by {
                if d < child {
                    if d != parent {
                        assert(goal.dirs[d] == before.dirs[d]);
                        assert(before.dirs[d].children[i] < before.dirs.len());
                    } else if i < before.dirs[d].children.len() {
                        assert(before.dirs[d].children[i] < before.dirs.len());
                    }
                }
            }
        }
    }

    fn add_entry(&mut self, e: &Parsed)
        requires
            state_wf(old(self).state()),
        ensures
            final(self).state() == add_entry(
                old(self).state(),
                RawEntry { mode: e.mode, oid: e.oid@, path: e.path@ },
            ),
            state_wf(final(self).state()),
    {
        let ghost before = self.state();
        let mut parts = split_bytes(e.path.as_slice(), 47);
        let ghost all = views(parts@);
        let file = match parts.pop() {
            Some(f) => f,
            None => Vec::new(),
        };
        let ghost parents = all.drop_last();
        assert(views(parts@) =~= parents);
        assert(file@ == all.last());
        let mut kept: usize = 0;
        assert forall|i: int| 0 <= i < self.open@.len() implies #[trigger] self.open@[i]
            < self.dirs@.len() by {
            assert(before.open[i] == self.open@[i]);
        }
        while kept < self.open.len() && kept < parts.len() && bytes_eq(
            self.dirs[self.open[kept]].name.as_slice(),
            parts[kept].as_slice(),
        )
            invariant
                *self == *old(self),
                before == self.state(),
                state_wf(before),
                parents == views(parts@),
                kept <= self.open@.len(),
                kept <= parts@.len(),
                shared(before.dirs, before.open, parents, 0) == shared(
                    before.dirs,
                    before.open,
                    parents,
                    kept as nat,
                ),
                forall|i: int| 0 <= i < self.open@.len() ==> #[trigger] self.open@[i] < self.dirs@.len(),
            decreases self.open.len() - kept,
        {
            assert(before.open[kept as int] == self.open@[kept as int]);
            kept = kept + 1;
        }
        assert(kept < self.open@.len() ==> before.open[kept as int] == self.open@[kept as int]);
        assert(shared(before.dirs, before.open, parents, 0) == kept);
        self.open.truncate(kept);
        let ghost base = TreeState { dirs: before.dirs, open: before.open.take(kept as int) };
        assert(self.state().open =~= base.open);
        assert(self.state() =~= base);
        let mut i: usize = kept;
        assert(parents.skip(kept as int).take(0) =~= Seq::<Seq<u8>>::empty());
        while i < parts.len()
            invariant
                kept <= i <= parts@.len(),
                parents == views(parts@),
                state_wf(self.state()),
                self.state() == open_all(base, parents.skip(kept as int).take(i - kept)),
            decreases parts.len() - i,
        {
            let ghost names = parents.skip(kept as int).take(i - kept + 1);
            self.open_dir(copy_bytes(parts[i].as_slice()));
            assert(names.drop_last() =~= parents.skip(kept as int).take(i - kept));
            assert(names.last() == parts@[i as int]@);
            i = i + 1;
        }
        assert(parents.skip(kept as int).take(i - kept) =~= parents.skip(kept as int));
        if (e.mode == 0o100644 || e.mode == 0o100755) && is_gitignore(file.as_slice()) {
            let ghost opened = self.state();
            let at = self.current();
            let ghost old_dir = self.dirs@[at as int];
            self.dirs[at].gitignore = Some(copy_bytes(e.oid.as_slice()));
            proof {
                let goal = opened.dirs.update(
                    at as int,
                    DirView { gitignore: Some(e.oid@), ..opened.dirs[at as int] },
                );
                assert forall|d: int| 0 <= d < goal.len() implies self.state().dirs[d] =~= goal[d] by {
                    if d != at {
                        assert(self.state().dirs[d] == opened.dirs[d]);
                    }
                }
                assert(self.state().dirs =~= goal);
                assert(self.state() =~= TreeState { dirs: goal, ..opened });
                assert forall|d: int, k: int| 0 <= d < goal.len() && 0 <= k < goal[d].children.len() implies d
                    < #[trigger] goal[d].children[k] < goal.len() by {
                    assert(goal[d].children == opened.dirs[d].children);
                    assert(opened.dirs[d].children[k] < opened.dirs.len());
                }
            }
        }
    }
}

fn is_gitignore(name: &[u8]) -> (res: bool)
    ensures
        res == (name@ == gitignore_name()),
{
    let mut wanted: Vec<u8> = Vec::new();
    push_gitignore(&mut wanted);
    assert(wanted@ =~= gitignore_name());
    bytes_eq(name, wanted.as_slice())
}

fn push_gitignore(out: &mut Vec<u8>)
    ensures
        final(out)@ == old(out)@ + gitignore_name(),
{
    out.push(46);
    out.push(103);
    out.push(105);
    out.push(116);
    out.push(105);
    out.push(103);
    out.push(110);
    out.push(111);
    out.push(114);
    out.push(101);
    assert(out@ =~= old(out)@ + gitignore_name());
}

/// A directory's subdirectories in byte order of their names.
fn order_dir(dirs: &Vec<Dir>, d: usize) -> (res: Vec<usize>)
    requires
        d < dirs@.len(),
        forall|i: int|
            0 <= i < dirs@[d as int].children@.len() ==> d
                < #[trigger] dirs@[d as int].children@[i] < dirs@.len(),
    ensures
        index_views(res@) == sorted_children(dir_views(dirs@), d as int),
        res@.len() == dirs@[d as int].children@.len(),
        forall|i: int| 0 <= i < res@.len() ==> d < #[trigger] res@[i] < dirs@.len(),
{
    let ghost dv = dir_views(dirs@);
    let mut names: Vec<Vec<u8>> = Vec::new();
    let n = dirs[d].children.len();
    let mut i: usize = 0;
    while i < n
        invariant
            d < dirs@.len(),
            n == dirs@[d as int].children@.len(),
            i <= n,
            names@.len() == i,
            dv == dir_views(dirs@),
            forall|k: int|
                0 <= k < dirs@[d as int].children@.len() ==> d
                    < #[trigger] dirs@[d as int].children@[k] < dirs@.len(),
            forall|k: int|
                0 <= k < i ==> #[trigger] names@[k]@
                    == dirs@[dirs@[d as int].children@[k] as int].name@,
        decreases n - i,
    {
        names.push(copy_bytes(dirs[dirs[d].children[i]].name.as_slice()));
        i = i + 1;
    }
    proof {
        assert forall|k: int| 0 <= k < n implies key_views(names@)[k] == dir_names(dv, d as int)[k] by {
            assert(names@[k]@ == dirs@[dirs@[d as int].children@[k] as int].name@);
            assert(dv[d as int].children[k] == dirs@[d as int].children@[k]);
        }
        assert(key_views(names@) =~= dir_names(dv, d as int));
    }
    let order = sort_indices(NameOrder::Bytes, &names);
    let mut out: Vec<usize> = Vec::new();
    let mut k: usize = 0;
    while k < n
        invariant
            d < dirs@.len(),
            n == dirs@[d as int].children@.len() == order@.len(),
            k <= n,
            out@.len() == k,
            forall|j: int| 0 <= j < order@.len() ==> #[trigger] order@[j] < n,
            forall|j: int|
                0 <= j < k ==> #[trigger] out@[j] == dirs@[d as int].children@[order@[j] as int],
        decreases n - k,
    {
        out.push(dirs[d].children[order[k]]);
        k = k + 1;
    }
    proof {
        let goal = sorted_children(dv, d as int);
        assert forall|j: int| 0 <= j < n implies index_views(out@)[j] == goal[j] by {
            assert(index_views(order@)[j] == order@[j]);
            assert(out@[j] == dirs@[d as int].children@[order@[j] as int]);
            assert(dv[d as int].children[order@[j] as int] == dirs@[d as int].children@[order@[j] as int]);
        }
        assert(index_views(out@) =~= goal);
    }
    out
}

/// Append the directories from `d` down, depth first.
fn visit(dirs: &Vec<Dir>, d: usize, order: &mut Vec<usize>)
    requires
        d < dirs@.len(),
        forall|e: int, i: int|
            0 <= e < dirs@.len() && 0 <= i < dirs@[e].children@.len() ==> e
                < #[trigger] dirs@[e].children@[i] < dirs@.len(),
        forall|i: int| 0 <= i < old(order)@.len() ==> #[trigger] old(order)@[i] < dirs@.len(),
    ensures
        index_views(final(order)@) == index_views(old(order)@) + preorder(
            dir_views(dirs@),
            d as int,
        ),
        forall|i: int| 0 <= i < final(order)@.len() ==> #[trigger] final(order)@[i] < dirs@.len(),
    decreases dirs@.len() - d,
{
    let ghost dv = dir_views(dirs@);
    order.push(d);
    let ghost start = index_views(old(order)@) + seq![d as int];
    assert(index_views(order@) =~= start + preorder_below(dv, d as int, 0));
    let children = order_dir(dirs, d);
    let mut k: usize = 0;
    while k < children.len()
        invariant
            dv == dir_views(dirs@),
            d < dirs@.len(),
            k <= children@.len(),
            children@.len() == dv[d as int].children.len(),
            index_views(children@) == sorted_children(dv, d as int),
            forall|i: int| 0 <= i < children@.len() ==> d < #[trigger] children@[i] < dirs@.len(),
            forall|e: int, i: int|
                0 <= e < dirs@.len() && 0 <= i < dirs@[e].children@.len() ==> e
                    < #[trigger] dirs@[e].children@[i] < dirs@.len(),
            forall|i: int| 0 <= i < order@.len() ==> #[trigger] order@[i] < dirs@.len(),
            index_views(order@) == start + preorder_below(dv, d as int, k as nat),
        decreases children.len() - k,
    {
        let c = children[k];
        assert(index_views(children@)[k as int] == c);
        visit(dirs, c, order);
        proof {
            assert(sorted_children(dv, d as int)[k as int] == c);
            assert(preorder_below(dv, d as int, (k + 1) as nat) == preorder_below(
                dv,
                d as int,
                k as nat,
            ) + preorder(dv, c as int));
            lemma_concat_assoc(
                start,
                preorder_below(dv, d as int, k as nat),
                preorder(dv, c as int),
            );
        }
        k = k + 1;
    }
    proof {
        lemma_concat_assoc(
            index_views(old(order)@),
            seq![d as int],
            preorder_below(dv, d as int, children@.len()),
        );
    }
}

/// Some directory holds directory `v`.
pub open spec fn held(dirs: Seq<DirView>, v: int) -> bool {
    exists|d: int, i: int|
        0 <= d < dirs.len() && 0 <= i < dirs[d].children.len() && #[trigger] dirs[d].children[i]
            == v
}

/// Every directory but the root is held by one directory that comes before it,
/// once.
pub open spec fn rooted(dirs: Seq<DirView>) -> bool {
    &&& dirs.len() > 0
    &&& forall|d: int, i: int|
        0 <= d < dirs.len() && 0 <= i < dirs[d].children.len() ==> d
            < #[trigger] dirs[d].children[i] < dirs.len()
    &&& forall|v: int| 0 < v < dirs.len() ==> #[trigger] held(dirs, v)
    &&& forall|d: int, i: int, e: int, j: int|
        0 <= d < dirs.len() && 0 <= i < dirs[d].children.len() && 0 <= e < dirs.len() && 0 <= j
            < dirs[e].children.len() && #[trigger] dirs[d].children[i]
            == #[trigger] dirs[e].children[j] ==> d == e && i == j
}

proof fn lemma_open_dir_is_rooted(s: TreeState, name: Seq<u8>)
    requires
        rooted(s.dirs),
        0 <= current(s.open) < s.dirs.len(),
    ensures
        rooted(open_dir(s, name).dirs),
{
    let old_dirs = s.dirs;
    let p = current(s.open);
    let c = old_dirs.len() as int;
    let dirs = open_dir(s, name).dirs;
    assert(dirs[p].children == old_dirs[p].children.push(c));
    assert(dirs[c].children.len() == 0);
    assert forall|d: int, i: int| 0 <= d < dirs.len() && 0 <= i < dirs[d].children.len() implies (d
        == p && i == old_dirs[p].children.len() && #[trigger] dirs[d].children[i] == c) || (d < c
        && i < old_dirs[d].children.len() && dirs[d].children[i] == old_dirs[d].children[i]) by {
        if d < c && d != p {
            assert(dirs[d] == old_dirs[d]);
        }
    }
    assert forall|v: int| 0 < v < dirs.len() implies #[trigger] held(dirs, v) by {
        if v < c {
            assert(held(old_dirs, v));
            let (d, i) = choose|d: int, i: int|
                0 <= d < old_dirs.len() && 0 <= i < old_dirs[d].children.len()
                    && #[trigger] old_dirs[d].children[i] == v;
            assert(dirs[d].children[i] == v);
        } else {
            assert(dirs[p].children[old_dirs[p].children.len() as int] == v);
        }
    }
    assert forall|d: int, i: int, e: int, j: int|
        0 <= d < dirs.len() && 0 <= i < dirs[d].children.len() && 0 <= e < dirs.len() && 0 <= j
            < dirs[e].children.len() && #[trigger] dirs[d].children[i]
            == #[trigger] dirs[e].children[j] implies d == e && i == j by {
        if d < c && i < old_dirs[d].children.len() {
            assert(old_dirs[d].children[i] < c);
        }
        if e < c && j < old_dirs[e].children.len() {
            assert(old_dirs[e].children[j] < c);
        }
    }
    assert forall|d: int, i: int| 0 <= d < dirs.len() && 0 <= i < dirs[d].children.len() implies d
        < #[trigger] dirs[d].children[i] < dirs.len() by {
        if d < c && i < old_dirs[d].children.len() {
            assert(old_dirs[d].children[i] < c);
        }
    }
}

/// Every open directory is known.
pub open spec fn open_is_known(s: TreeState) -> bool {
    forall|i: int| 0 <= i < s.open.len() ==> 0 <= #[trigger] s.open[i] < s.dirs.len()
}

proof fn lemma_open_all_is_rooted(s: TreeState, names: Seq<Seq<u8>>)
    requires
        rooted(s.dirs),
        open_is_known(s),
    ensures
        rooted(open_all(s, names).dirs),
        open_is_known(open_all(s, names)),
    decreases names.len(),
{
    if names.len() > 0 {
        lemma_open_all_is_rooted(s, names.drop_last());
        lemma_open_dir_is_rooted(open_all(s, names.drop_last()), names.last());
    }
}

/// The directories of an index hang together.
pub proof fn lemma_tree_is_rooted(entries: Seq<RawEntry>, n: nat)
    ensures
        rooted(tree_of(entries, n).dirs),
        open_is_known(tree_of(entries, n)),
    decreases n,
{
    if n > 0 {
        let before = tree_of(entries, (n - 1) as nat);
        let e = entries[n - 1];
        lemma_tree_is_rooted(entries, (n - 1) as nat);
        let parents = split_on(e.path, 47).drop_last();
        let kept = shared(before.dirs, before.open, parents, 0) as int;
        lemma_shared_bound(before.dirs, before.open, parents, 0);
        let base = TreeState { dirs: before.dirs, open: before.open.take(kept) };
        lemma_open_all_is_rooted(base, parents.skip(kept));
        let opened = open_all(base, parents.skip(kept));
        let dirs = add_entry(before, e).dirs;
        assert(dirs.len() == opened.dirs.len());
        assert(forall|d: int|
            0 <= d < dirs.len() ==> (#[trigger] dirs[d]).children == opened.dirs[d].children);
        assert forall|v: int| 0 < v < dirs.len() implies #[trigger] held(dirs, v) by {
            assert(held(opened.dirs, v));
            let (d, i) = choose|d: int, i: int|
                0 <= d < opened.dirs.len() && 0 <= i < opened.dirs[d].children.len()
                    && #[trigger] opened.dirs[d].children[i] == v;
            assert(dirs[d].children[i] == v);
        }
    }
}

proof fn lemma_shared_bound(dirs: Seq<DirView>, open: Seq<int>, parents: Seq<Seq<u8>>, k: nat)
    requires
        k <= open.len(),
    ensures
        shared(dirs, open, parents, k) <= open.len(),
    decreases open.len() - k,
{
    if k < open.len() && k < parents.len() && dirs[open[k as int]].name == parents[k as int] {
        lemma_shared_bound(dirs, open, parents, k + 1);
    }
}

/// How often a directory is listed.
spec fn times(order: Seq<int>, v: int) -> nat {
    order.to_multiset().count(v)
}

proof fn lemma_times_of_a_sum(a: Seq<int>, b: Seq<int>, v: int)
    ensures
        times(a + b, v) == times(a, v) + times(b, v),
{
    vstd::seq_lib::lemma_multiset_commutative(a, b);
}

/// A subdirectory comes behind the directory that holds it.
pub proof fn lemma_sorted_child(dirs: Seq<DirView>, d: int, k: int)
    requires
        rooted(dirs),
        0 <= d < dirs.len(),
        0 <= k < dirs[d].children.len(),
    ensures
        d < sorted_children(dirs, d)[k] < dirs.len(),
{
    let names = dir_names(dirs, d);
    lemma_sorted_order(NameOrder::Bytes, names, names.len());
    let at = sorted_order(NameOrder::Bytes, names)[k];
    assert(d < dirs[d].children[at] < dirs.len());
}

/// Siblings are listed once.
proof fn lemma_a_child_has_one_place(dirs: Seq<DirView>, d: int, i: int) -> (k: int)
    requires
        rooted(dirs),
        0 <= d < dirs.len(),
        0 <= i < dirs[d].children.len(),
    ensures
        0 <= k < dirs[d].children.len(),
        sorted_children(dirs, d)[k] == dirs[d].children[i],
        forall|j: int|
            0 <= j < dirs[d].children.len() && j != k ==> #[trigger] sorted_children(dirs, d)[j]
                != dirs[d].children[i],
{
    broadcast use vstd::seq_lib::group_to_multiset_ensures;

    let names = dir_names(dirs, d);
    lemma_sorted_order(NameOrder::Bytes, names, names.len());
    let order = sorted_order(NameOrder::Bytes, names);
    assert(order.to_multiset().count(i) == 1);
    assert(order.contains(i));
    let k = choose|k: int| 0 <= k < order.len() && order[k] == i;
    assert forall|x: int| order.to_multiset().contains(x) implies order.to_multiset().count(x)
        == 1 by {}
    order.lemma_multiset_has_no_duplicates_conv();
    assert forall|j: int| 0 <= j < dirs[d].children.len() && j != k implies #[trigger] sorted_children(
        dirs,
        d,
    )[j] != dirs[d].children[i] by {
        assert(order[j] != order[k]);
        assert(dirs[d].children[order[j]] != dirs[d].children[i]);
    }
    k
}

proof fn lemma_nothing_before(dirs: Seq<DirView>, d: int, v: int)
    requires
        rooted(dirs),
        0 <= d < dirs.len(),
        v <= d,
    ensures
        times(preorder(dirs, d), v) == (if v == d {
            1nat
        } else {
            0nat
        }),
    decreases dirs.len() - d, dirs[d].children.len() + 1,
{
    broadcast use vstd::seq_lib::group_to_multiset_ensures;

    let below = preorder_below(dirs, d, dirs[d].children.len());
    lemma_nothing_before_below(dirs, d, dirs[d].children.len(), v);
    lemma_times_of_a_sum(seq![d], below, v);
    assert(seq![d] =~= Seq::<int>::empty().push(d));
}

proof fn lemma_nothing_before_below(dirs: Seq<DirView>, d: int, n: nat, v: int)
    requires
        rooted(dirs),
        0 <= d < dirs.len(),
        n <= dirs[d].children.len(),
        v <= d,
    ensures
        times(preorder_below(dirs, d, n), v) == 0,
    decreases dirs.len() - d, n,
{
    broadcast use vstd::seq_lib::group_to_multiset_ensures;

    if n > 0 {
        let m = (n - 1) as nat;
        let c = sorted_children(dirs, d)[m as int];
        lemma_sorted_child(dirs, d, m as int);
        lemma_nothing_before_below(dirs, d, m, v);
        lemma_nothing_before(dirs, c, v);
        lemma_times_of_a_sum(preorder_below(dirs, d, m), preorder(dirs, c), v);
    }
}

/// A directory is listed as often as the one that holds it.
proof fn lemma_listed_like_its_parent(dirs: Seq<DirView>, d: int, p: int, i: int)
    requires
        rooted(dirs),
        0 <= d < dirs.len(),
        0 <= p < dirs.len(),
        0 <= i < dirs[p].children.len(),
        d != dirs[p].children[i],
    ensures
        times(preorder(dirs, d), dirs[p].children[i]) == times(preorder(dirs, d), p),
    decreases dirs.len() - d, dirs[d].children.len() + 1,
{
    broadcast use vstd::seq_lib::group_to_multiset_ensures;

    let v = dirs[p].children[i];
    let n = dirs[d].children.len();
    let below = preorder_below(dirs, d, n);
    lemma_times_of_a_sum(seq![d], below, v);
    lemma_times_of_a_sum(seq![d], below, p);
    assert(seq![d] =~= Seq::<int>::empty().push(d));
    let k = lemma_a_child_has_one_place(dirs, p, i);
    lemma_listed_like_its_parent_below(dirs, d, n, p, i, k);
    if d == p {
        lemma_nothing_before_below(dirs, d, n, p);
    }
}

proof fn lemma_listed_like_its_parent_below(
    dirs: Seq<DirView>,
    d: int,
    n: nat,
    p: int,
    i: int,
    k: int,
)
    requires
        rooted(dirs),
        0 <= d < dirs.len(),
        n <= dirs[d].children.len(),
        0 <= p < dirs.len(),
        0 <= i < dirs[p].children.len(),
        d != dirs[p].children[i],
        0 <= k < dirs[p].children.len(),
        sorted_children(dirs, p)[k] == dirs[p].children[i],
        forall|j: int|
            0 <= j < dirs[p].children.len() && j != k ==> #[trigger] sorted_children(dirs, p)[j]
                != dirs[p].children[i],
    ensures
        d != p ==> times(preorder_below(dirs, d, n), dirs[p].children[i]) == times(
            preorder_below(dirs, d, n),
            p,
        ),
        d == p ==> times(preorder_below(dirs, d, n), dirs[p].children[i]) == (if k < n {
            1nat
        } else {
            0nat
        }),
    decreases dirs.len() - d, n,
{
    broadcast use vstd::seq_lib::group_to_multiset_ensures;

    let v = dirs[p].children[i];
    if n > 0 {
        let m = (n - 1) as nat;
        let c = sorted_children(dirs, d)[m as int];
        lemma_sorted_child(dirs, d, m as int);
        lemma_listed_like_its_parent_below(dirs, d, m, p, i, k);
        lemma_times_of_a_sum(preorder_below(dirs, d, m), preorder(dirs, c), v);
        lemma_times_of_a_sum(preorder_below(dirs, d, m), preorder(dirs, c), p);
        if c == v {
            lemma_child_of(dirs, d, m as int);
            assert(d == p && m == k);
            lemma_nothing_before(dirs, c, v);
        } else {
            lemma_listed_like_its_parent(dirs, c, p, i);
            if d == p {
                assert(m != k);
                lemma_nothing_before(dirs, c, p);
            }
        }
    }
}

/// The sorted subdirectories are subdirectories.
pub proof fn lemma_child_of(dirs: Seq<DirView>, d: int, k: int)
    requires
        rooted(dirs),
        0 <= d < dirs.len(),
        0 <= k < dirs[d].children.len(),
    ensures
        exists|i: int|
            0 <= i < dirs[d].children.len() && #[trigger] dirs[d].children[i] == sorted_children(
                dirs,
                d,
            )[k],
{
    let names = dir_names(dirs, d);
    lemma_sorted_order(NameOrder::Bytes, names, names.len());
    let at = sorted_order(NameOrder::Bytes, names)[k];
    assert(dirs[d].children[at] == sorted_children(dirs, d)[k]);
}

proof fn lemma_listed_once(dirs: Seq<DirView>, v: int)
    requires
        rooted(dirs),
        0 <= v < dirs.len(),
    ensures
        times(preorder(dirs, 0), v) == 1,
    decreases v,
{
    if v == 0 {
        lemma_nothing_before(dirs, 0, 0);
    } else {
        assert(held(dirs, v));
        let (p, i) = choose|d: int, i: int|
            0 <= d < dirs.len() && 0 <= i < dirs[d].children.len() && #[trigger] dirs[d].children[i]
                == v;
        assert(p < dirs[p].children[i]);
        lemma_listed_once(dirs, p);
        lemma_listed_like_its_parent(dirs, 0, p, i);
    }
}

proof fn lemma_lists_known(dirs: Seq<DirView>, d: int, v: int)
    requires
        preorder(dirs, d).contains(v),
    ensures
        0 <= v < dirs.len(),
    decreases dirs.len() - d, dirs[d].children.len() + 1,
{
    if 0 <= d < dirs.len() && v != d {
        let n = dirs[d].children.len();
        let k = preorder(dirs, d).index_of(v);
        assert(preorder_below(dirs, d, n)[k - 1] == v);
        lemma_lists_known_below(dirs, d, n, v);
    }
}

proof fn lemma_lists_known_below(dirs: Seq<DirView>, d: int, n: nat, v: int)
    requires
        preorder_below(dirs, d, n).contains(v),
    ensures
        0 <= v < dirs.len(),
    decreases dirs.len() - d, n,
{
    if n > 0 && 0 <= d < dirs.len() && n <= dirs[d].children.len() {
        let c = sorted_children(dirs, d)[n - 1];
        let a = preorder_below(dirs, d, (n - 1) as nat);
        let k = preorder_below(dirs, d, n).index_of(v);
        if k < a.len() {
            assert(a[k] == v);
            lemma_lists_known_below(dirs, d, (n - 1) as nat, v);
        } else if d < c < dirs.len() {
            assert(preorder(dirs, c)[k - a.len()] == v);
            lemma_lists_known(dirs, c, v);
        }
    }
}

/// The untracked cache records every directory of the index once.
pub proof fn law_every_directory_is_recorded_once(entries: Seq<RawEntry>, n: nat)
    ensures
        ({
            let dirs = tree_of(entries, n).dirs;
            let order = preorder(dirs, 0);
            &&& order.no_duplicates()
            &&& forall|v: int| #[trigger] order.contains(v) <==> 0 <= v < dirs.len()
        }),
{
    broadcast use vstd::seq_lib::group_to_multiset_ensures;

    let dirs = tree_of(entries, n).dirs;
    let order = preorder(dirs, 0);
    lemma_tree_is_rooted(entries, n);
    assert forall|v: int| #[trigger] order.contains(v) <==> 0 <= v < dirs.len() by {
        if order.contains(v) {
            lemma_lists_known(dirs, 0, v);
        }
        if 0 <= v < dirs.len() {
            lemma_listed_once(dirs, v);
        }
    }
    assert forall|x: int| order.to_multiset().contains(x) implies order.to_multiset().count(x)
        == 1 by {
        assert(order.contains(x));
        lemma_listed_once(dirs, x);
    }
    order.lemma_multiset_has_no_duplicates_conv();
}

// ---------------------------------------------------------------------------
// The extensions
// ---------------------------------------------------------------------------
/// One directory's record: no untracked entries, its subdirectory count, its
/// name.
pub open spec fn dir_record(d: DirView) -> Seq<u8> {
    varint(0) + varint(d.children.len()) + d.name + seq![0u8]
}

/// The records of the first `n` directories listed.
pub open spec fn dir_records(dirs: Seq<DirView>, order: Seq<int>, n: nat) -> Seq<u8>
    decreases n,
{
    if n == 0 {
        Seq::empty()
    } else {
        dir_records(dirs, order, (n - 1) as nat) + dir_record(dirs[order[n - 1]])
    }
}

/// The `.gitignore` blobs of the first `n` directories listed.
pub open spec fn ignore_blobs(dirs: Seq<DirView>, order: Seq<int>, n: nat) -> Seq<u8>
    decreases n,
{
    if n == 0 {
        Seq::empty()
    } else {
        ignore_blobs(dirs, order, (n - 1) as nat) + (match dirs[order[n - 1]].gitignore {
            Some(oid) => oid,
            None => Seq::empty(),
        })
    }
}

/// The same flag for every directory.
pub open spec fn uniform(n: nat, flag: bool) -> Seq<bool> {
    Seq::new(n, |i: int| flag)
}

/// Which of the listed directories have a `.gitignore`.
pub open spec fn ignore_flags(dirs: Seq<DirView>, order: Seq<int>) -> Seq<bool> {
    Seq::new(order.len(), |i: int| dirs[order[i]].gitignore is Some)
}

/// A blob ID, or zeros where the file does not exist.
pub open spec fn blob_or_zeros(blob: Option<[u8; 20]>) -> Seq<u8> {
    match blob {
        Some(oid) => oid@,
        None => zeros(20),
    }
}

/// What precedes the directory records.
pub open spec fn untracked_head(caches: WorkspaceCaches) -> Seq<u8> {
    varint(utf8(caches.ident@).len() + 1) + utf8(caches.ident@) + seq![0u8] + zeros(72)
        + be32(caches.dir_flags) + blob_or_zeros(caches.info_exclude) + blob_or_zeros(
        caches.excludes_file,
    ) + gitignore_name() + seq![0u8]
}

/// The body of the untracked cache: every directory valid, none check-only,
/// zero stat data, so that nothing recorded is trusted without an answer from
/// the monitor.
pub open spec fn untracked_body(caches: WorkspaceCaches, dirs: Seq<DirView>) -> Seq<u8> {
    let order = preorder(dirs, 0);
    untracked_head(caches) + varint(order.len()) + dir_records(dirs, order, order.len())
        + ewah_bytes(uniform(order.len(), true)) + ewah_bytes(uniform(order.len(), false))
        + ewah_bytes(ignore_flags(dirs, order)) + zeros(36 * order.len()) + ignore_blobs(
        dirs,
        order,
        order.len(),
    ) + seq![0u8]
}

/// The body of the fsmonitor extension: no entry dirty under the token.
pub open spec fn fsmonitor_body(caches: WorkspaceCaches, count: nat) -> Seq<u8> {
    let dirty = ewah_bytes(uniform(count, false));
    be32(2) + utf8(caches.fsmonitor_token@) + seq![0u8] + be32(dirty.len() as u32) + dirty
}

/// The bytes of a `UNTR` signature.
pub open spec fn untr() -> Seq<u8> {
    seq![85u8, 78, 84, 82]
}

/// The bytes of an `FSMN` signature.
pub open spec fn fsmn() -> Seq<u8> {
    seq![70u8, 83, 77, 78]
}

/// An extension: signature, length, body.
pub open spec fn extension(signature: Seq<u8>, body: Seq<u8>) -> Seq<u8> {
    signature + be32(body.len() as u32) + body
}

/// The index with both extensions and without a trailer, or `None` for bytes
/// that are not a version-2 index with plain entries.
pub open spec fn with_caches(index: Seq<u8>, caches: WorkspaceCaches) -> Option<Seq<u8>> {
    if !is_v2(index) {
        None
    } else {
        let count = be32_at(index, 8) as nat;
        match raw_entries(index, count) {
            None => None,
            Some((entries, end)) => {
                let dirs = tree_of(entries, count).dirs;
                let u = untracked_body(caches, dirs);
                let f = fsmonitor_body(caches, count);
                if index.len() < end + 20 || u.len() > 0xFFFF_FFFF || f.len() > 0xFFFF_FFFF {
                    None
                } else {
                    Some(
                        index.take(index.len() - 20) + extension(untr(), u) + extension(fsmn(), f),
                    )
                }
            },
        }
    }
}

fn uniform_flags(n: usize, flag: bool) -> (res: Vec<bool>)
    ensures
        res@ == uniform(n as nat, flag),
{
    let mut out: Vec<bool> = Vec::new();
    while out.len() < n
        invariant
            out@.len() <= n,
            forall|i: int| 0 <= i < out@.len() ==> out@[i] == flag,
        decreases n - out.len(),
    {
        out.push(flag);
    }
    assert(out@ =~= uniform(n as nat, flag));
    out
}

fn push_blob_or_zeros(out: &mut Vec<u8>, blob: &Option<[u8; 20]>)
    ensures
        final(out)@ == old(out)@ + blob_or_zeros(*blob),
{
    match blob {
        Some(oid) => {
            append_bytes(out, oid.as_slice());
        },
        None => {
            append_zeros(out, 20);
        },
    }
}

fn untracked_head_bytes(caches: &WorkspaceCaches<'_>) -> (res: Vec<u8>)
    ensures
        res@ == untracked_head(*caches),
{
    let mut out: Vec<u8> = Vec::new();
    let mut ident = copy_bytes(caches.ident.as_bytes());
    ident.push(0);
    encode_varint(ident.len() as u64, &mut out);
    append_bytes(&mut out, ident.as_slice());
    assert(out@ =~= varint(utf8(caches.ident@).len() + 1) + utf8(caches.ident@)
        + seq![0u8]);
    append_zeros(&mut out, 72);
    push_be32(&mut out, caches.dir_flags);
    push_blob_or_zeros(&mut out, &caches.info_exclude);
    push_blob_or_zeros(&mut out, &caches.excludes_file);
    push_gitignore(&mut out);
    out.push(0);
    assert(out@ =~= untracked_head(*caches));
    out
}

fn push_record(out: &mut Vec<u8>, dir: &Dir)
    ensures
        final(out)@ == old(out)@ + dir_record(dir_view(*dir)),
{
    let mut record: Vec<u8> = Vec::new();
    encode_varint(0, &mut record);
    encode_varint(dir.children.len() as u64, &mut record);
    append_bytes(&mut record, dir.name.as_slice());
    record.push(0);
    assert(record@ =~= dir_record(dir_view(*dir)));
    append_bytes(out, record.as_slice());
}

fn records_bytes(dirs: &Vec<Dir>, order: &Vec<usize>) -> (res: Vec<u8>)
    requires
        forall|i: int| 0 <= i < order@.len() ==> #[trigger] order@[i] < dirs@.len(),
    ensures
        res@ == dir_records(dir_views(dirs@), index_views(order@), order@.len()),
{
    let ghost dv = dir_views(dirs@);
    let ghost ov = index_views(order@);
    let mut out: Vec<u8> = Vec::new();
    let mut k: usize = 0;
    while k < order.len()
        invariant
            dv == dir_views(dirs@),
            ov == index_views(order@),
            k <= order@.len(),
            forall|i: int| 0 <= i < order@.len() ==> #[trigger] order@[i] < dirs@.len(),
            out@ == dir_records(dv, ov, k as nat),
        decreases order.len() - k,
    {
        push_record(&mut out, &dirs[order[k]]);
        assert(ov[k as int] == order@[k as int]);
        k = k + 1;
    }
    out
}

fn ignore_blobs_bytes(dirs: &Vec<Dir>, order: &Vec<usize>) -> (res: Vec<u8>)
    requires
        forall|i: int| 0 <= i < order@.len() ==> #[trigger] order@[i] < dirs@.len(),
    ensures
        res@ == ignore_blobs(dir_views(dirs@), index_views(order@), order@.len()),
{
    let ghost dv = dir_views(dirs@);
    let ghost ov = index_views(order@);
    let mut out: Vec<u8> = Vec::new();
    let mut k: usize = 0;
    while k < order.len()
        invariant
            dv == dir_views(dirs@),
            ov == index_views(order@),
            k <= order@.len(),
            forall|i: int| 0 <= i < order@.len() ==> #[trigger] order@[i] < dirs@.len(),
            out@ == ignore_blobs(dv, ov, k as nat),
        decreases order.len() - k,
    {
        assert(ov[k as int] == order@[k as int]);
        match &dirs[order[k]].gitignore {
            Some(oid) => {
                append_bytes(&mut out, oid.as_slice());
            },
            None => {
                assert(out@ =~= out@ + Seq::<u8>::empty());
            },
        }
        k = k + 1;
    }
    out
}

fn ignore_flags_of(dirs: &Vec<Dir>, order: &Vec<usize>) -> (res: Vec<bool>)
    requires
        forall|i: int| 0 <= i < order@.len() ==> #[trigger] order@[i] < dirs@.len(),
    ensures
        res@ == ignore_flags(dir_views(dirs@), index_views(order@)),
{
    let mut out: Vec<bool> = Vec::new();
    let mut k: usize = 0;
    while k < order.len()
        invariant
            k <= order@.len(),
            out@.len() == k,
            forall|i: int| 0 <= i < order@.len() ==> #[trigger] order@[i] < dirs@.len(),
            forall|i: int|
                0 <= i < k ==> #[trigger] out@[i] == dirs@[order@[i] as int].gitignore is Some,
        decreases order.len() - k,
    {
        out.push(dirs[order[k]].gitignore.is_some());
        k = k + 1;
    }
    assert(out@ =~= ignore_flags(dir_views(dirs@), index_views(order@)));
    out
}

fn untracked_bytes(caches: &WorkspaceCaches<'_>, dirs: &Vec<Dir>) -> (res: Vec<u8>)
    requires
        dirs@.len() > 0,
        forall|e: int, i: int|
            0 <= e < dirs@.len() && 0 <= i < dirs@[e].children@.len() ==> e
                < #[trigger] dirs@[e].children@[i] < dirs@.len(),
    ensures
        res@ == untracked_body(*caches, dir_views(dirs@)),
{
    let ghost dv = dir_views(dirs@);
    let mut order: Vec<usize> = Vec::new();
    visit(dirs, 0, &mut order);
    let ghost ov = preorder(dv, 0);
    assert(index_views(order@) =~= ov);
    let n = order.len();
    let mut out = untracked_head_bytes(caches);
    encode_varint(n as u64, &mut out);
    append_bytes(&mut out, records_bytes(dirs, &order).as_slice());
    append_bytes(&mut out, ewah(uniform_flags(n, true).as_slice()).as_slice());
    append_bytes(&mut out, ewah(uniform_flags(n, false).as_slice()).as_slice());
    append_bytes(&mut out, ewah(ignore_flags_of(dirs, &order).as_slice()).as_slice());
    let ghost head = out@;
    let mut k: usize = 0;
    assert(head + zeros(0) =~= head);
    while k < n
        invariant
            k <= n,
            out@ == head + zeros((36 * k) as nat),
        decreases n - k,
    {
        append_zeros(&mut out, 36);
        proof {
            lemma_zeros_join((36 * k) as nat, 36);
            lemma_concat_assoc(head, zeros((36 * k) as nat), zeros(36));
        }
        k = k + 1;
    }
    append_bytes(&mut out, ignore_blobs_bytes(dirs, &order).as_slice());
    out.push(0);
    proof {
        let tail = seq![0u8];
        assert(out@ =~= head + zeros(36 * ov.len()) + ignore_blobs(dv, ov, ov.len()) + tail);
    }
    out
}

fn fsmonitor_bytes(caches: &WorkspaceCaches<'_>, count: usize) -> (res: Vec<u8>)
    ensures
        res@ == fsmonitor_body(*caches, count as nat),
{
    let mut out: Vec<u8> = Vec::new();
    push_be32(&mut out, 2);
    append_bytes(&mut out, caches.fsmonitor_token.as_bytes());
    out.push(0);
    let dirty = ewah(uniform_flags(count, false).as_slice());
    push_be32(&mut out, dirty.len() as u32);
    append_bytes(&mut out, dirty.as_slice());
    assert(out@ =~= fsmonitor_body(*caches, count as nat));
    out
}

fn push_extension(out: &mut Vec<u8>, a: u8, b: u8, c: u8, d: u8, body: &Vec<u8>)
    requires
        body@.len() <= 0xFFFF_FFFF,
    ensures
        final(out)@ == old(out)@ + extension(seq![a, b, c, d], body@),
{
    out.push(a);
    out.push(b);
    out.push(c);
    out.push(d);
    push_be32(out, body.len() as u32);
    append_bytes(out, body.as_slice());
    assert(out@ =~= old(out)@ + extension(seq![a, b, c, d], body@));
}

fn has_v2_header(index: &[u8]) -> (res: bool)
    ensures
        res == is_v2(index@),
{
    if index.len() < 32 {
        return false;
    }
    let res = index[0] == 68 && index[1] == 73 && index[2] == 82 && index[3] == 67 && read_be32(
        index,
        4,
    ) == 2;
    proof {
        let head = index@.subrange(0, 4);
        if res {
            assert(head =~= dirc());
        } else if head == dirc() {
            assert(head[0] == 68 && head[1] == 73 && head[2] == 82 && head[3] == 67);
        }
    }
    res
}

proof fn lemma_raw_entries_none(index: Seq<u8>, n: nat, m: nat)
    requires
        n <= m,
        raw_entries(index, n) is None,
    ensures
        raw_entries(index, m) is None,
    decreases m,
{
    if n < m {
        lemma_raw_entries_none(index, n, (m - 1) as nat);
    }
}

proof fn lemma_raw_entries_len(index: Seq<u8>, n: nat)
    requires
        raw_entries(index, n) is Some,
    ensures
        (raw_entries(index, n)->0).0.len() == n,
    decreases n,
{
    if n > 0 {
        lemma_raw_entries_len(index, (n - 1) as nat);
    }
}

proof fn lemma_tree_of_prefix(entries: Seq<RawEntry>, e: RawEntry, n: nat)
    requires
        n <= entries.len(),
    ensures
        tree_of(entries.push(e), n) == tree_of(entries, n),
    decreases n,
{
    if n > 0 {
        lemma_tree_of_prefix(entries, e, (n - 1) as nat);
    }
}

/// The tree of the index's entries and where they end.
fn read_tree(index: &[u8], count: u32) -> (res: Option<(Tree, usize)>)
    requires
        index@.len() >= 32,
    ensures
        match raw_entries(index@, count as nat) {
            None => res is None,
            Some((entries, end)) => res matches Some((tree, pos)) && tree.state() == tree_of(
                entries,
                count as nat,
            ) && pos == end && end <= index@.len() && state_wf(tree.state()),
        },
{
    let mut tree = Tree::new();
    let mut pos: usize = 12;
    let mut i: u32 = 0;
    while i < count
        invariant
            i <= count,
            pos <= index@.len(),
            state_wf(tree.state()),
            raw_entries(index@, i as nat) matches Some((entries, end)) && pos == end && tree.state()
                == tree_of(entries, i as nat) && entries.len() == i,
        decreases count - i,
    {
        let ghost prior = (raw_entries(index@, i as nat)->0).0;
        let parsed = match parse_entry(index, pos) {
            Some(p) => p,
            None => {
                proof {
                    lemma_raw_entries_none(index@, (i + 1) as nat, count as nat);
                }
                return None;
            },
        };
        tree.add_entry(&parsed);
        proof {
            let entry = (raw_entry(index@, pos as int)->0).0;
            assert(entry == RawEntry { mode: parsed.mode, oid: parsed.oid@, path: parsed.path@ });
            lemma_tree_of_prefix(prior, entry, i as nat);
            assert(prior.push(entry)[i as int] == entry);
        }
        pos = parsed.next;
        i = i + 1;
    }
    Some((tree, pos))
}

/// The index without its trailer, both extensions, and a new trailer.
fn assemble(index: &[u8], untracked: &Vec<u8>, monitor: &Vec<u8>) -> (res: Option<Vec<u8>>)
    requires
        index@.len() >= 20,
    ensures
        res is None <==> untracked@.len() > 0xFFFF_FFFF || monitor@.len() > 0xFFFF_FFFF,
        res matches Some(out) ==> seals(
            index@.take(index@.len() - 20) + extension(untr(), untracked@) + extension(
                fsmn(),
                monitor@,
            ),
            out@,
        ),
{
    if untracked.len() > 0xFFFF_FFFF || monitor.len() > 0xFFFF_FFFF {
        return None;
    }
    let mut out = sub_bytes(index, 0, index.len() - 20);
    assert(out@ =~= index@.take(index@.len() - 20));
    push_extension(&mut out, 85, 78, 84, 82, untracked);
    push_extension(&mut out, 70, 83, 77, 78, monitor);
    let digest = sha1_digest(out.as_slice());
    append_bytes(&mut out, digest.as_slice());
    Some(out)
}

/// The index with the untracked cache and fsmonitor extensions appended.
/// `None` for an index this did not write, which the caller uses unchanged.
pub fn with_workspace_caches(index: &[u8], caches: &WorkspaceCaches<'_>) -> (res: Option<Vec<u8>>)
    ensures
        match with_caches(index@, *caches) {
            None => res is None,
            Some(body) => res matches Some(out) && seals(body, out@),
        },
{
    if !has_v2_header(index) {
        return None;
    }
    let count = read_be32(index, 8);
    let (tree, end) = match read_tree(index, count) {
        Some(found) => found,
        None => {
            return None;
        },
    };
    if index.len() - 20 < end {
        return None;
    }
    proof {
        let s = tree.state();
        assert forall|e: int, i: int| 0 <= e < tree.dirs@.len() && 0 <= i
            < tree.dirs@[e].children@.len() implies e < #[trigger] tree.dirs@[e].children@[i]
            < tree.dirs@.len() by {
            assert(s.dirs[e].children[i] == tree.dirs@[e].children@[i]);
        }
    }
    let untracked = untracked_bytes(caches, &tree.dirs);
    let monitor = fsmonitor_bytes(caches, count as usize);
    assert(tree.state().dirs == dir_views(tree.dirs@));
    assemble(index, &untracked, &monitor)
}

// ---------------------------------------------------------------------------
// What was written is read back
// ---------------------------------------------------------------------------
/// What an index holds of an entry that was written to it.
pub open spec fn recorded(e: IndexEntry) -> RawEntry {
    RawEntry { mode: e.mode, oid: e.oid@.digest, path: e.path@ }
}

/// What an index holds of the entries that were written to it.
pub open spec fn all_recorded(entries: Seq<IndexEntry>) -> Seq<RawEntry> {
    Seq::new(entries.len(), |i: int| recorded(entries[i]))
}

/// Whether an entry's path ends where its record says: a path too long for the
/// flags ends at the first zero byte.
pub open spec fn terminated(e: IndexEntry) -> bool {
    e.path@.len() >= 0xFFF ==> forall|k: int| 0 <= k < e.path@.len() ==> e.path@[k] != 0
}

proof fn lemma_be32(n: u32)
    ensures
        be32_value((n >> 24) as u8, (n >> 16) as u8, (n >> 8) as u8, n as u8) == n,
{
    assert((((n >> 24) as u8) as u32) << 24 | (((n >> 16) as u8) as u32) << 16 | (((n
        >> 8) as u8) as u32) << 8 | ((n as u8) as u32) == n) by (bit_vector);
}

proof fn lemma_flags(n: u16)
    requires
        n <= 0xFFF,
    ensures
        be16_value((n >> 8) as u8, n as u8) == n,
        n & 0x4000 == 0,
        n & 0xFFF == n,
{
    assert((((n >> 8) as u8) as u16) << 8 | ((n as u8) as u16) == n) by (bit_vector)
        requires
            n <= 0xFFF,
    ;
    assert(n & 0x4000 == 0) by (bit_vector)
        requires
            n <= 0xFFF,
    ;
    assert(n & 0xFFF == n) by (bit_vector)
        requires
            n <= 0xFFF,
    ;
}

/// An entry is read back from where it was written.
proof fn lemma_entry_is_read_back(
    before: Seq<u8>,
    e: IndexEntry,
    secs: u32,
    nanos: u32,
    after: Seq<u8>,
)
    requires
        e.oid@.digest.len() == 20,
        terminated(e),
    ensures
        raw_entry(before + entry_bytes(e, secs, nanos) + after, before.len() as int) == Some(
            (recorded(e), (before.len() + entry_bytes(e, secs, nanos).len()) as int),
        ),
{
    let index = before + entry_bytes(e, secs, nanos) + after;
    let pos = before.len() as int;
    let len = e.path@.len() as int;
    let flags: u16 = (if e.path@.len() < 0xFFF {
        e.path@.len()
    } else {
        0xFFF
    }) as u16;
    let body = entry_body(e, secs, nanos);
    let head = be32(0) + be32(0) + be32(secs) + be32(nanos) + be32(0) + be32(0);
    let mid = be32(0) + be32(0) + be32(e.size as u32);
    assert(head.len() == 24);
    assert(mid.len() == 12);
    assert(body =~= head + be32(e.mode) + mid + e.oid@.digest + be16(flags) + e.path@);
    assert(body.len() == 62 + len);
    let pad = (8 - body.len() % 8) as nat;
    assert(index.len() == pos + body.len() + pad + after.len());
    assert forall|k: int| 0 <= k < body.len() implies index[pos + k] == body[k] by {}
    assert(forall|k: int| 0 <= k < 4 ==> body[24 + k] == be32(e.mode)[k]);
    assert(be32_at(index, pos + 24) == e.mode) by {
        lemma_be32(e.mode);
        assert(index[pos + 24] == body[24]);
        assert(index[pos + 25] == body[25]);
        assert(index[pos + 26] == body[26]);
        assert(index[pos + 27] == body[27]);
    }
    assert(index.subrange(pos + 40, pos + 60) =~= e.oid@.digest) by {
        assert forall|k: int| 0 <= k < 20 implies index[pos + 40 + k] == e.oid@.digest[k] by {
            assert(index[pos + (40 + k)] == body[40 + k]);
        }
    }
    assert(body[60] == be16(flags)[0] && body[61] == be16(flags)[1]);
    assert(index[pos + 60] == body[60] && index[pos + 61] == body[61]);
    lemma_flags(flags);
    assert(be16_value(index[pos + 60], index[pos + 61]) == flags);
    assert forall|k: int| 0 <= k < len implies index[pos + 62 + k] == e.path@[k] by {
        assert(index[pos + (62 + k)] == body[62 + k]);
    }
    assert(index.subrange(pos + 62, pos + 62 + len) =~= e.path@);
    assert(index[pos + 62 + len] == 0) by {
        assert(entry_bytes(e, secs, nanos)[62 + len] == zeros(pad)[0]);
    }
    assert(path_len(index, pos, flags) == Some(len)) by {
        if len >= 0xFFF {
            lemma_find_byte(index, 0, (pos + 62) as nat);
            let end = find_byte(index, 0, (pos + 62) as nat) as int;
            if end < pos + 62 + len {
                assert(index[pos + 62 + (end - pos - 62)] == e.path@[end - pos - 62]);
            }
        }
    }
    assert((62 + len) / 8 * 8 + 8 == 62 + len + pad);
}

/// The first `n` entries are read back from where they were written.
proof fn lemma_entries_are_read_back(
    entries: Seq<IndexEntry>,
    secs: u32,
    nanos: u32,
    head: Seq<u8>,
    tail: Seq<u8>,
    n: nat,
)
    requires
        head.len() == 12,
        n <= entries.len(),
        forall|i: int| 0 <= i < n ==> (#[trigger] entries[i]).oid@.digest.len() == 20,
        forall|i: int| 0 <= i < n ==> terminated(#[trigger] entries[i]),
    ensures
        raw_entries(head + entries_bytes(entries, secs, nanos, n) + tail, n) == Some(
            (
                all_recorded(entries.take(n as int)),
                (12 + entries_bytes(entries, secs, nanos, n).len()) as int,
            ),
        ),
    decreases n,
{
    let index = head + entries_bytes(entries, secs, nanos, n) + tail;
    if n == 0 {
        assert(all_recorded(entries.take(0)) =~= Seq::<RawEntry>::empty());
    } else {
        let e = entries[n - 1];
        let record = entry_bytes(e, secs, nanos);
        let earlier = entries_bytes(entries, secs, nanos, (n - 1) as nat);
        assert(index =~= head + earlier + (record + tail));
        assert(index =~= (head + earlier) + record + tail);
        lemma_entries_are_read_back(entries, secs, nanos, head, record + tail, (n - 1) as nat);
        lemma_entry_is_read_back(head + earlier, e, secs, nanos, tail);
        assert(all_recorded(entries.take(n as int)) =~= all_recorded(entries.take(n - 1)).push(
            recorded(e),
        ));
    }
}

/// An index that was written is read back entry by entry, and takes the
/// workspace's caches unless one of them outgrows its length field.
pub proof fn law_a_written_index_takes_the_caches(
    entries: Seq<IndexEntry>,
    time: Timestamp,
    cache_tree: Option<CacheTree>,
    index: Vec<u8>,
    caches: WorkspaceCaches,
)
    requires
        index_outcome(entries, time, cache_tree, Ok(index)),
        forall|i: int| 0 <= i < entries.len() ==> (#[trigger] entries[i]).oid.wf(),
        forall|i: int| 0 <= i < entries.len() ==> terminated(#[trigger] entries[i]),
    ensures
        is_v2(index@),
        be32_at(index@, 8) == entries.len(),
        raw_entries(index@, entries.len()) == Some(
            (all_recorded(entries), index_body(entries, time).len() as int),
        ),
        ({
            let dirs = tree_of(all_recorded(entries), entries.len()).dirs;
            with_caches(index@, caches) is Some <==> untracked_body(caches, dirs).len()
                <= 0xFFFF_FFFF && fsmonitor_body(caches, entries.len()).len() <= 0xFFFF_FFFF
        }),
{
    let body = index_body(entries, time);
    let extra = match cache_tree {
        None => Seq::<u8>::empty(),
        Some(root) => tree_extension(root),
    };
    let tail = extra + sha1_of(body + extra);
    let secs = time.secs as u32;
    let count = entries.len() as u32;
    let head = dirc() + be32(2) + be32(count);
    let all = entries_bytes(entries, secs, time.nanos, entries.len());
    assert(body + Seq::<u8>::empty() =~= body);
    assert(head.len() == 12);
    assert(body =~= head + all);
    assert(index@ =~= head + all + tail);
    assert(tail.len() >= 20);
    assert(index@.subrange(0, 4) =~= dirc());
    assert(forall|k: int| 0 <= k < 4 ==> index@[4 + k] == be32(2)[k]);
    assert(forall|k: int| 0 <= k < 4 ==> index@[8 + k] == be32(count)[k]);
    lemma_be32(2);
    lemma_be32(count);
    assert(be32_at(index@, 4) == 2) by {
        assert(index@[5] == be32(2)[1] && index@[6] == be32(2)[2] && index@[7] == be32(2)[3]);
    }
    assert(be32_at(index@, 8) == count) by {
        assert(index@[9] == be32(count)[1]);
        assert(index@[10] == be32(count)[2]);
        assert(index@[11] == be32(count)[3]);
    }
    law_recorded_entries_are_in_order(entries);
    lemma_entries_are_read_back(entries, secs, time.nanos, head, tail, entries.len());
    assert(entries.take(entries.len() as int) =~= entries);
}

} // verus!
