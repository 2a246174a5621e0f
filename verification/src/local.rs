//! Serving a mount from a clone on this machine: blob memory, paging, the
//! identifiers it derives, and the file list of a search.
use std::sync::Arc;
use vstd::prelude::*;
use crate::bytes::{copy_bytes, sub_bytes};
use crate::entry::{EntryKind, WalkEntry, WalkEntryView};
use crate::error::{ErrorCode, GfsError};
use crate::hashing::{sha1_digest, sha1_of};
use crate::limits;
use crate::sorting::{index_views, key_views, sort_indices, sorted_order, NameOrder};
use crate::text::{hex, push_hex};
use crate::time::Timestamp;

verus! {

/// Bytes of inflated blobs kept in memory per clone.
pub const BLOB_MEMORY_BYTES: u64 = 268435456;

// ---------------------------------------------------------------------------
// Blob memory
// ---------------------------------------------------------------------------
/// A bounded memory of inflated blobs that forgets the least recently used
/// first.
#[derive(Debug)]
pub struct BlobMemory {
    cap: u64,
    /// Bytes held.
    bytes: u64,
    /// The blobs, least recently used first.
    entries: Vec<(String, Arc<Vec<u8>>)>,
}

/// The bytes the listed blobs take.
pub open spec fn held(list: Seq<(Seq<char>, Seq<u8>)>) -> nat
    decreases list.len(),
{
    if list.len() == 0 {
        0
    } else {
        list[0].1.len() + held(list.skip(1))
    }
}

/// The index of the blob under a key, or the length.
pub open spec fn slot(list: Seq<(Seq<char>, Seq<u8>)>, key: Seq<char>, from: nat) -> nat
    decreases list.len() - from,
{
    if from >= list.len() {
        list.len()
    } else if list[from as int].0 == key {
        from
    } else {
        slot(list, key, from + 1)
    }
}

/// Whether a key is held.
pub open spec fn holds(list: Seq<(Seq<char>, Seq<u8>)>, key: Seq<char>) -> bool {
    slot(list, key, 0) < list.len()
}

/// The list without its oldest blobs, as few of them as make room for `size`
/// more bytes under `cap`.
pub open spec fn make_room(list: Seq<(Seq<char>, Seq<u8>)>, size: nat, cap: nat) -> Seq<
    (Seq<char>, Seq<u8>),
>
    decreases list.len(),
{
    if list.len() == 0 || held(list) + size <= cap {
        list
    } else {
        make_room(list.skip(1), size, cap)
    }
}

/// No key occurs twice.
pub open spec fn distinct_keys(list: Seq<(Seq<char>, Seq<u8>)>) -> bool {
    forall|i: int, j: int|
        0 <= i < j < list.len() ==> (#[trigger] list[i]).0 != (#[trigger] list[j]).0
}

proof fn lemma_held_push(list: Seq<(Seq<char>, Seq<u8>)>, e: (Seq<char>, Seq<u8>))
    ensures
        held(list.push(e)) == held(list) + e.1.len(),
    decreases list.len(),
{
    if list.len() > 0 {
        lemma_held_push(list.skip(1), e);
        assert(list.push(e).skip(1) =~= list.skip(1).push(e));
    } else {
        assert(list.push(e).skip(1) =~= Seq::<(Seq<char>, Seq<u8>)>::empty());
        assert(held(list.push(e).skip(1)) == 0);
    }
}

proof fn lemma_held_remove(list: Seq<(Seq<char>, Seq<u8>)>, i: int)
    requires
        0 <= i < list.len(),
    ensures
        held(list) == held(list.remove(i)) + list[i].1.len(),
    decreases list.len(),
{
    if i == 0 {
        assert(list.remove(0) =~= list.skip(1));
    } else {
        lemma_held_remove(list.skip(1), i - 1);
        assert(list.remove(i).skip(1) =~= list.skip(1).remove(i - 1));
        assert(list.remove(i)[0] == list[0]);
    }
}

proof fn lemma_slot(list: Seq<(Seq<char>, Seq<u8>)>, key: Seq<char>, from: nat)
    requires
        from <= list.len(),
    ensures
        from <= slot(list, key, from) <= list.len(),
        slot(list, key, from) < list.len() ==> list[slot(list, key, from) as int].0 == key,
        forall|k: int| from <= k < slot(list, key, from) ==> (#[trigger] list[k]).0 != key,
    decreases list.len() - from,
{
    if from < list.len() && list[from as int].0 != key {
        lemma_slot(list, key, from + 1);
    }
}

/// Making room forgets the least recently used first, no more of them than
/// needed, and leaves room when the newcomer fits at all.
pub proof fn law_make_room(list: Seq<(Seq<char>, Seq<u8>)>, size: nat, cap: nat)
    ensures
        exists|n: int|
            0 <= n <= list.len() && #[trigger] list.skip(n) == make_room(list, size, cap) && (n > 0
                ==> held(list.skip(n - 1)) + size > cap),
        size <= cap ==> held(make_room(list, size, cap)) + size <= cap,
    decreases list.len(),
{
    if list.len() == 0 || held(list) + size <= cap {
        assert(list.skip(0) =~= list);
    } else {
        let tail = list.skip(1);
        law_make_room(tail, size, cap);
        let n = choose|n: int|
            0 <= n <= tail.len() && #[trigger] tail.skip(n) == make_room(tail, size, cap) && (n > 0
                ==> held(tail.skip(n - 1)) + size > cap);
        assert(list.skip(n + 1) =~= tail.skip(n));
        if n > 0 {
            assert(list.skip(n) =~= tail.skip(n - 1));
        } else {
            assert(list.skip(0) =~= list);
        }
        assert(held(list.skip(n)) + size > cap);
    }
}

proof fn lemma_make_room_distinct(list: Seq<(Seq<char>, Seq<u8>)>, size: nat, cap: nat, key: Seq<char>)
    requires
        distinct_keys(list),
        !holds(list, key),
    ensures
        distinct_keys(make_room(list, size, cap)),
        forall|k: int|
            0 <= k < make_room(list, size, cap).len() ==> (#[trigger] make_room(list, size, cap)[k]).0
                != key,
    decreases list.len(),
{
    lemma_slot(list, key, 0);
    if !(list.len() == 0 || held(list) + size <= cap) {
        let tail = list.skip(1);
        assert forall|i: int, j: int| 0 <= i < j < tail.len() implies (#[trigger] tail[i]).0 != (
        #[trigger] tail[j]).0 by {
            assert(list[i + 1].0 != list[j + 1].0);
        }
        lemma_slot(tail, key, 0);
        if holds(tail, key) {
            let k = slot(tail, key, 0) as int;
            assert(list[k + 1].0 == key);
        }
        lemma_make_room_distinct(tail, size, cap, key);
    }
}

impl View for BlobMemory {
    type V = Seq<(Seq<char>, Seq<u8>)>;

    closed spec fn view(&self) -> Seq<(Seq<char>, Seq<u8>)> {
        Seq::new(self.entries@.len(), |i: int| (self.entries@[i].0@, (*self.entries@[i].1)@))
    }
}

impl BlobMemory {
    /// The bound on the bytes held.
    pub closed spec fn capacity(&self) -> nat {
        self.cap as nat
    }

    /// The bytes counted.
    pub closed spec fn byte_count(&self) -> nat {
        self.bytes as nat
    }

    /// Keys are distinct, the byte count is true, and the bound is kept.
    pub open spec fn wf(&self) -> bool {
        &&& distinct_keys(self@)
        &&& self.byte_count() == held(self@)
        &&& self.byte_count() <= self.capacity()
    }

    pub fn new(cap: u64) -> (res: BlobMemory)
        ensures
            res.wf(),
            res@ == Seq::<(Seq<char>, Seq<u8>)>::empty(),
            res.capacity() == cap,
    {
        let res = BlobMemory { cap, bytes: 0, entries: Vec::new() };
        assert(res@ =~= Seq::<(Seq<char>, Seq<u8>)>::empty());
        res
    }

    /// The bytes held.
    pub fn bytes(&self) -> (res: u64)
        requires
            self.wf(),
        ensures
            res == held(self@),
            res <= self.capacity(),
    {
        self.bytes
    }

    fn find(&self, key: &str) -> (res: usize)
        ensures
            res == slot(self@, key@, 0),
            res <= self.entries@.len(),
    {
        let wanted = key.to_owned();
        let mut i: usize = 0;
        while i < self.entries.len() && self.entries[i].0 != wanted
            invariant
                i <= self.entries@.len(),
                self@.len() == self.entries@.len(),
                wanted@ == key@,
                slot(self@, key@, 0) == slot(self@, key@, i as nat),
            decreases self.entries.len() - i,
        {
            assert(self@[i as int].0 == self.entries@[i as int].0@);
            i = i + 1;
        }
        assert(i < self.entries@.len() ==> self@[i as int].0 == self.entries@[i as int].0@);
        i
    }

    /// A blob's bytes, which it makes the most recently used.
    pub fn get(&mut self, key: &str) -> (res: Option<Arc<Vec<u8>>>)
        requires
            old(self).wf(),
        ensures
            final(self).wf(),
            final(self).capacity() == old(self).capacity(),
            holds(old(self)@, key@) <==> res is Some,
            res matches Some(bytes) ==> {
                let i = slot(old(self)@, key@, 0) as int;
                bytes@ == old(self)@[i].1 && final(self)@ == old(self)@.remove(i).push(old(self)@[i])
            },
            res is None ==> final(self)@ == old(self)@,
    {
        let ghost before = self@;
        let i = self.find(key);
        if i >= self.entries.len() {
            return None;
        }
        assert(before[i as int].0 == self.entries@[i as int].0@);
        let entry = self.entries.remove(i);
        let bytes = entry.1.clone();
        self.entries.push(entry);
        proof {
            let goal = before.remove(i as int).push(before[i as int]);
            assert(self@ =~= goal);
            lemma_held_remove(before, i as int);
            lemma_held_push(before.remove(i as int), before[i as int]);
            assert forall|a: int, b: int| 0 <= a < b < goal.len() implies (#[trigger] goal[a]).0 != (
            #[trigger] goal[b]).0 by {
                let a0 = if a < i {
                    a
                } else {
                    a + 1
                };
                let b0 = if b == goal.len() - 1 {
                    i as int
                } else if b < i {
                    b
                } else {
                    b + 1
                };
                assert(goal[a] == before[a0]);
                assert(goal[b] == before[b0]);
                if a0 < b0 {
                    assert(before[a0].0 != before[b0].0);
                } else {
                    assert(before[b0].0 != before[a0].0);
                }
            }
        }
        Some(bytes)
    }

    /// Forget a blob.
    pub fn remove(&mut self, key: &str)
        requires
            old(self).wf(),
        ensures
            final(self).wf(),
            final(self).capacity() == old(self).capacity(),
            final(self)@ == (if holds(old(self)@, key@) {
                old(self)@.remove(slot(old(self)@, key@, 0) as int)
            } else {
                old(self)@
            }),
    {
        let ghost before = self@;
        let i = self.find(key);
        if i < self.entries.len() {
            let entry = self.entries.remove(i);
            proof {
                lemma_held_remove(before, i as int);
                assert(before[i as int].1 == entry.1@);
                assert(self@ =~= before.remove(i as int));
                assert forall|a: int, b: int| 0 <= a < b < self@.len() implies (#[trigger] self@[a]).0
                    != (#[trigger] self@[b]).0 by {
                    let a0 = if a < i {
                        a
                    } else {
                        a + 1
                    };
                    let b0 = if b < i {
                        b
                    } else {
                        b + 1
                    };
                    assert(before[a0].0 != before[b0].0);
                }
            }
            self.bytes = self.bytes - entry.1.len() as u64;
        }
    }

    /// Keep a blob, forgetting older ones to make room. A blob larger than the
    /// memory, or already held, is not kept again.
    pub fn insert(&mut self, key: String, bytes: Arc<Vec<u8>>)
        requires
            old(self).wf(),
        ensures
            final(self).wf(),
            final(self).capacity() == old(self).capacity(),
            final(self)@ == (if bytes@.len() > old(self).capacity() || holds(old(self)@, key@) {
                old(self)@
            } else {
                make_room(old(self)@, bytes@.len(), old(self).capacity()).push((key@, bytes@))
            }),
    {
        let ghost before = self@;
        let size: u64 = bytes.len() as u64;
        if size > self.cap {
            return;
        }
        let at = self.find(key.as_str());
        if at < self.entries.len() {
            return;
        }
        proof {
            lemma_make_room_distinct(before, size as nat, self.cap as nat, key@);
            law_make_room(before, size as nat, self.cap as nat);
        }
        while self.entries.len() > 0 && self.bytes > self.cap - size
            invariant
                size <= self.cap,
                self.cap == old(self).cap,
                self.bytes == held(self@),
                self.bytes <= self.cap,
                make_room(before, size as nat, self.cap as nat) == make_room(
                    self@,
                    size as nat,
                    self.cap as nat,
                ),
            decreases self.entries@.len(),
        {
            let ghost now = self@;
            let oldest = self.entries.remove(0);
            proof {
                assert(self@ =~= now.skip(1));
                assert(now[0].1 == oldest.1@);
            }
            self.bytes = self.bytes - oldest.1.len() as u64;
        }
        let ghost room = self@;
        assert(room == make_room(before, size as nat, self.cap as nat));
        self.entries.push((key, bytes));
        self.bytes = self.bytes + size;
        proof {
            assert(self@ =~= room.push((key@, bytes@)));
            lemma_held_push(room, (key@, bytes@));
            assert forall|a: int, b: int| 0 <= a < b < self@.len() implies (#[trigger] self@[a]).0 != (
            #[trigger] self@[b]).0 by {
                if b < room.len() {
                    assert(room[a].0 != room[b].0);
                } else {
                    assert(room[a].0 != key@);
                }
            }
        }
    }
}

// ---------------------------------------------------------------------------
// Paging
// ---------------------------------------------------------------------------
/// How many entries a page carries: the default when none was asked for, and
/// never more than the bound.
pub fn page_limit(requested: u32, default: usize, max: usize) -> (res: usize)
    ensures
        res == (if requested == 0 {
            default as int
        } else if requested <= max {
            requested as int
        } else {
            max as int
        }),
{
    if requested == 0 {
        default
    } else if requested as usize <= max {
        requested as usize
    } else {
        max
    }
}

/// Where a page starts: an empty token is the beginning.
pub fn page_after(token: Vec<u8>) -> (res: Option<Vec<u8>>)
    ensures
        res == (if token@.len() == 0 {
            None
        } else {
            Some(token)
        }),
{
    if token.len() == 0 {
        None
    } else {
        Some(token)
    }
}

/// The bounds a diff runs under: the context lines asked for, or the default,
/// and the byte ceiling asked for, or the default.
pub fn diff_bounds(
    context_lines: Option<u32>,
    default_context: u32,
    max_bytes: u64,
) -> (res: (u32, u64))
    ensures
        ({
            let asked = match context_lines {
                Some(n) => n,
                None => default_context,
            };
            res.0 == (if asked <= limits::MAX_DIFF_CONTEXT_LINES {
                asked
            } else {
                limits::MAX_DIFF_CONTEXT_LINES
            })
        }),
        res.1 == (if max_bytes == 0 {
            limits::DEFAULT_DIFF_BYTES
        } else if max_bytes <= limits::MAX_DIFF_BYTES {
            max_bytes
        } else {
            limits::MAX_DIFF_BYTES
        }),
{
    let asked = match context_lines {
        Some(n) => n,
        None => default_context,
    };
    let context = if asked <= limits::MAX_DIFF_CONTEXT_LINES {
        asked
    } else {
        limits::MAX_DIFF_CONTEXT_LINES
    };
    let bytes = if max_bytes == 0 {
        limits::DEFAULT_DIFF_BYTES
    } else if max_bytes <= limits::MAX_DIFF_BYTES {
        max_bytes
    } else {
        limits::MAX_DIFF_BYTES
    };
    (context, bytes)
}

// ---------------------------------------------------------------------------
// Identifiers
// ---------------------------------------------------------------------------
/// The identifier a clone goes by.
#[derive(PartialEq, Eq, Debug)]
pub struct RepositoryId {
    text: String,
}

impl RepositoryId {
    pub closed spec fn view(&self) -> Seq<char> {
        self.text@
    }

    pub fn new(text: String) -> (res: RepositoryId)
        ensures
            res@ == text@,
    {
        RepositoryId { text }
    }

    pub fn as_str(&self) -> (res: &str)
        ensures
            res@ == self@,
    {
        self.text.as_str()
    }
}

/// The identifier a mount goes by.
#[derive(PartialEq, Eq, Debug)]
pub struct MountId {
    text: String,
}

impl MountId {
    pub closed spec fn view(&self) -> Seq<char> {
        self.text@
    }

    pub fn new(text: String) -> (res: MountId)
        ensures
            res@ == text@,
    {
        MountId { text }
    }

    pub fn as_str(&self) -> (res: &str)
        ensures
            res@ == self@,
    {
        self.text.as_str()
    }
}

/// `local-` and the first bytes of a digest in hexadecimal.
fn local_name(digest: &[u8], take: usize) -> (res: String)
    requires
        take <= digest@.len(),
    ensures
        res@ == "local-"@ + hex(digest@.take(take as int)),
{
    let mut out = "local-".to_owned();
    let head = sub_bytes(digest, 0, take);
    assert(head@ =~= digest@.take(take as int));
    push_hex(&mut out, head.as_slice());
    out
}

/// The identifier of the clone at a canonical path: the path's digest, so two
/// workspaces of one clone agree.
pub fn repository_id_for(clone: &[u8]) -> (res: RepositoryId)
    ensures
        res@ == "local-"@ + hex(sha1_of(clone@).take(8)),
{
    let digest = sha1_digest(clone);
    RepositoryId { text: local_name(digest.as_slice(), 8) }
}

/// The bytes of a number, least significant first.
pub open spec fn le_bytes(n: nat, width: nat) -> Seq<u8>
    decreases width,
{
    if width == 0 {
        Seq::empty()
    } else {
        seq![(n % 256) as u8] + le_bytes(n / 256, (width - 1) as nat)
    }
}

fn push_le(out: &mut Vec<u8>, n: u128, width: usize)
    ensures
        final(out)@ == old(out)@ + le_bytes(n as nat, width as nat),
{
    let mut rest: u128 = n;
    let mut i: usize = 0;
    assert(old(out)@ + le_bytes(n as nat, width as nat) =~= out@ + le_bytes(rest as nat, width as nat));
    while i < width
        invariant
            i <= width,
            old(out)@ + le_bytes(n as nat, width as nat) == out@ + le_bytes(
                rest as nat,
                (width - i) as nat,
            ),
        decreases width - i,
    {
        let ghost before = out@;
        let low: u8 = (rest % 256) as u8;
        out.push(low);
        proof {
            assert(le_bytes(rest as nat, (width - i) as nat) == seq![low] + le_bytes(
                (rest / 256) as nat,
                (width - i - 1) as nat,
            ));
            assert(before + (seq![low] + le_bytes((rest / 256) as nat, (width - i - 1) as nat)) =~= out@
                + le_bytes((rest / 256) as nat, (width - i - 1) as nat));
        }
        rest = rest / 256;
        i = i + 1;
    }
    assert(out@ + le_bytes(rest as nat, 0) =~= out@);
}

/// What a new mount's identifier digests: the workspace, the clock, the
/// process.
pub open spec fn mount_seed(workspace: Seq<u8>, nanos: u128, pid: u32) -> Seq<u8> {
    workspace + le_bytes(nanos as nat, 16) + le_bytes(pid as nat, 4)
}

/// The identifier of a mount made of `workspace` by process `pid` at `nanos`
/// nanoseconds since the epoch.
pub fn new_mount_id(workspace: &[u8], nanos: u128, pid: u32) -> (res: MountId)
    ensures
        res@ == "local-"@ + hex(sha1_of(mount_seed(workspace@, nanos, pid)).take(10)),
{
    let mut seed = copy_bytes(workspace);
    push_le(&mut seed, nanos, 16);
    push_le(&mut seed, pid as u128, 4);
    let digest = sha1_digest(seed.as_slice());
    MountId { text: local_name(digest.as_slice(), 10) }
}

/// The prefix of the refs that keep pinned commits reachable.
pub open spec fn anchor_name(mount_id: Seq<char>) -> Seq<char> {
    "refs/gfs/mounts/"@ + mount_id
}

/// The ref that keeps a mount's commit reachable.
pub fn anchor_for(mount_id: &MountId) -> (res: String)
    ensures
        res@ == anchor_name(mount_id@),
{
    let mut out = "refs/gfs/mounts/".to_owned();
    out.append(mount_id.as_str());
    out
}

/// A lease expiry a hundred years off, for the monitor of an unleased pin.
pub fn far_future(now: Timestamp) -> (res: Timestamp)
    requires
        now.secs + 3153600000 <= i64::MAX,
    ensures
        res.secs == now.secs + 3153600000,
        res.nanos == 0,
{
    Timestamp::new(now.secs + 3153600000, 0)
}

// ---------------------------------------------------------------------------
// Searching
// ---------------------------------------------------------------------------
/// What a search over a scope walks.
#[derive(Clone, Copy, PartialEq, Eq, Structural, Debug)]
pub enum SearchRoot {
    /// The scope names nothing, so there is nothing to search.
    Nothing,
    /// The scope names one file.
    OneFile,
    /// The scope is a directory, or the whole tree.
    Subtree,
}

/// What a search walks: the whole tree for an empty scope, else what the
/// scope's entry says.
pub fn search_root(scope: &[u8], entry: &Option<EntryKind>) -> (res: SearchRoot)
    ensures
        res == (if scope@.len() == 0 {
            SearchRoot::Subtree
        } else {
            match *entry {
                None => SearchRoot::Nothing,
                Some(kind) => if kind.dir_like() {
                    SearchRoot::Subtree
                } else {
                    SearchRoot::OneFile
                },
            }
        }),
{
    if scope.len() == 0 {
        SearchRoot::Subtree
    } else {
        match entry {
            None => SearchRoot::Nothing,
            Some(kind) => if kind.is_dir_like() {
                SearchRoot::Subtree
            } else {
                SearchRoot::OneFile
            },
        }
    }
}

/// Whether an entry is a plain or executable file, the only kinds searched.
pub open spec fn searched_mode(mode: u32) -> bool {
    mode == 0o100644 || mode == 0o100755
}

/// The entries a search reads, in walk order.
pub open spec fn searched(entries: Seq<WalkEntryView>, n: nat) -> Seq<WalkEntryView>
    decreases n,
{
    if n == 0 {
        Seq::empty()
    } else if searched_mode(entries[n - 1].mode) {
        searched(entries, (n - 1) as nat).push(entries[n - 1])
    } else {
        searched(entries, (n - 1) as nat)
    }
}

/// Walk entries as their meanings.
pub open spec fn walk_views(entries: Seq<WalkEntry>) -> Seq<WalkEntryView> {
    Seq::new(entries.len(), |i: int| entries[i]@)
}

/// The paths of walk entries.
pub open spec fn walk_paths(entries: Seq<WalkEntryView>) -> Seq<Seq<u8>> {
    Seq::new(entries.len(), |i: int| entries[i].path)
}

/// The files a search reads, in path order.
pub open spec fn scan_list(entries: Seq<WalkEntryView>) -> Seq<WalkEntryView> {
    let kept = searched(entries, entries.len());
    let order = sorted_order(NameOrder::Bytes, walk_paths(kept));
    Seq::new(kept.len(), |i: int| kept[order[i]])
}

/// The files a search reads, in path order.
pub fn scan_files(entries: &Vec<WalkEntry>) -> (res: Vec<WalkEntry>)
    ensures
        walk_views(res@) == scan_list(walk_views(entries@)),
{
    let ghost all = walk_views(entries@);
    let mut kept: Vec<usize> = Vec::new();
    let mut keys: Vec<Vec<u8>> = Vec::new();
    let mut i: usize = 0;
    while i < entries.len()
        invariant
            i <= entries@.len(),
            all == walk_views(entries@),
            kept@.len() == keys@.len(),
            kept@.len() == searched(all, i as nat).len(),
            forall|k: int| 0 <= k < kept@.len() ==> #[trigger] kept@[k] < entries@.len(),
            forall|k: int|
                0 <= k < kept@.len() ==> #[trigger] searched(all, i as nat)[k] == all[kept@[k] as int],
            forall|k: int| 0 <= k < keys@.len() ==> #[trigger] keys@[k]@ == searched(all, i as nat)[k].path,
        decreases entries.len() - i,
    {
        assert(all[i as int] == entries@[i as int]@);
        if entries[i].mode == 0o100644 || entries[i].mode == 0o100755 {
            kept.push(i);
            keys.push(copy_bytes(entries[i].path.as_bytes()));
        }
        i = i + 1;
    }
    let ghost list = searched(all, all.len());
    assert(key_views(keys@) =~= walk_paths(list));
    let order = sort_indices(NameOrder::Bytes, &keys);
    let mut out: Vec<WalkEntry> = Vec::new();
    let mut k: usize = 0;
    while k < order.len()
        invariant
            k <= order@.len(),
            order@.len() == kept@.len() == list.len(),
            out@.len() == k,
            all == walk_views(entries@),
            list == searched(all, all.len()),
            forall|j: int| 0 <= j < order@.len() ==> #[trigger] order@[j] < kept@.len(),
            forall|j: int| 0 <= j < kept@.len() ==> #[trigger] kept@[j] < entries@.len(),
            forall|j: int| 0 <= j < kept@.len() ==> #[trigger] list[j] == all[kept@[j] as int],
            forall|j: int| 0 <= j < k ==> #[trigger] out@[j]@ == list[order@[j] as int],
        decreases order.len() - k,
    {
        let at = kept[order[k]];
        assert(list[order@[k as int] as int] == all[at as int]);
        out.push(entries[at].duplicate());
        k = k + 1;
    }
    proof {
        let goal = scan_list(all);
        assert forall|j: int| 0 <= j < goal.len() implies walk_views(out@)[j] == goal[j] by {
            assert(index_views(order@)[j] == order@[j]);
            assert(out@[j]@ == list[order@[j] as int]);
        }
        assert(walk_views(out@) =~= goal);
    }
    out
}

/// How many threads a scan uses: those the machine has, at least one and at
/// most one per repository handle.
pub fn scan_threads(available: usize) -> (res: usize)
    ensures
        res == (if available == 0 {
            1
        } else if available <= limits::DEFAULT_REPO_HANDLES {
            available
        } else {
            limits::DEFAULT_REPO_HANDLES
        }),
{
    if available == 0 {
        1
    } else if available <= limits::DEFAULT_REPO_HANDLES {
        available
    } else {
        limits::DEFAULT_REPO_HANDLES
    }
}

/// How many files each thread scans: enough that the threads cover all of
/// them, at least one.
pub fn scan_chunk(files: usize, threads: usize) -> (res: usize)
    requires
        threads > 0,
    ensures
        res >= 1,
        res * threads >= files,
        res > 1 ==> (res - 1) * threads < files,
{
    let whole = files / threads;
    let chunk = if files % threads == 0 {
        whole
    } else {
        proof {
            assert(whole < usize::MAX) by (nonlinear_arith)
                requires
                    whole == files / threads,
                    files % threads != 0,
                    threads > 0,
                    files <= usize::MAX,
            ;
        }
        whole + 1
    };
    proof {
        assert(files == whole * threads + files % threads) by (nonlinear_arith)
            requires
                whole == files / threads,
                threads > 0,
        ;
        assert((whole + 1) * threads == whole * threads + threads) by (nonlinear_arith);
        assert((whole - 1) * threads == whole * threads - threads) by (nonlinear_arith);
        assert(0 <= files % threads < threads);
        if whole == 0 {
            assert(whole * threads == 0) by (nonlinear_arith)
                requires
                    whole == 0,
            ;
        }
    }
    if chunk == 0 {
        1
    } else {
        chunk
    }
}

/// What a scan makes of a failed blob read: a blob missing from the store is a
/// gap, anything else fails the scan.
pub fn scan_read_failure(error: GfsError) -> (res: Option<GfsError>)
    ensures
        res == (if error.code == ErrorCode::NotFound {
            None
        } else {
            Some(error)
        }),
{
    if matches!(error.code, ErrorCode::NotFound) {
        None
    } else {
        Some(error)
    }
}

} // verus!
