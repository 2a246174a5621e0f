//! What is kept in order between calls: laws of block reads, of renewed inodes,
//! of what is adopted, verified, anchored and taken over.
use vstd::prelude::*;
use crate::base64url::b64url;
use crate::cache::{adoption, lemma_total_remove, Adoption, BlobsView};
use crate::directory::{projected_directory, DirState, Fill};
use crate::effects::is_child;
use crate::entry::{Signature, TreeEntryInfo};
use crate::error::GfsError;
use crate::host::{bind, BindPlan};
use crate::inode::{exists_at, stale_views, InodeTable, StaleEntry, TableView, ROOT_INO};
use crate::mount::{adopt_or_refuse_state_dir, Mount, SocketFate};
use crate::node::{FileType, NodeView, OdbNode};
use crate::object::ObjectId;
use crate::odb::{
    block_len, check_run, file_index, in_runs, law_runs_are_the_absent_blocks, plan_outcome, run_range,
    ReadPlan, StoreView, BLOCK,
};
use crate::local::{anchor_for, searched_mode, MountId};
use crate::path::{base_name, joined, parent, BytePath};
use crate::repository::{
    blob_beside, create_lease_anchor, delete_lease_anchor, delta_outcome, is_reserved_ref,
    reserved, searchable, signature_beside, sort_key, visits, AnchorPlan, DeltaSide, RefState,
    TreeDelta, WalkOf,
};
use crate::residency::{lemma_dropped, lists, place_of, Block, BlockKey, ResidencyView};
use crate::search::{
    all_matches, merge_reports, LocalOutcome, ScanFrame, SearchResult, TruncationReason,
};
use crate::strings::{trimmed, trimmed_end, white_space};
use crate::text::hex;
use crate::time::Timestamp;

verus! {

// ---------------------------------------------------------------------------
// Block reads
// ---------------------------------------------------------------------------
proof fn lemma_file_index(s: StoreView, path: Seq<char>, n: nat)
    requires
        n <= s.files.len(),
    ensures
        match file_index(s.files, path, n) {
            Some(i) => i < n && s.files[i as int].path == path,
            None => forall|k: int| 0 <= k < n ==> (#[trigger] s.files[k]).path != path,
        },
    decreases n,
{
    if n > 0 && s.files[n - 1].path != path {
        lemma_file_index(s, path, (n - 1) as nat);
    }
}

/// A read of the projection is planned so that each of its bytes is there or is
/// fetched: the blocks of the plan hold every byte asked for that the file has,
/// the first and the last block hold such bytes, a block is in a run exactly
/// when it is absent, and the answer ends where the range or the file does. A
/// file that is not listed is refused.
pub proof fn law_a_planned_read_covers_its_bytes(
    s: StoreView,
    t: StoreView,
    path: Seq<char>,
    offset: u64,
    size: u32,
    res: Result<Option<ReadPlan>, GfsError>,
    x: u64,
)
    requires
        s.files.len() <= u32::MAX,
        plan_outcome(s, t, path, offset, size, res),
    ensures
        res is Err <==> forall|k: int|
            0 <= k < s.files.len() ==> (#[trigger] s.files[k]).path != path,
        t.files == s.files,
        res matches Ok(None) ==> size == 0 || exists|k: int|
            0 <= k < s.files.len() && (#[trigger] s.files[k]).path == path && s.files[k].size
                <= offset,
        res matches Ok(Some(plan)) ==> {
            let f = s.files[plan.file as int];
            &&& plan.file < s.files.len()
            &&& f.path == path
            &&& plan.total == f.size
            &&& offset <= x < offset + size && x < f.size ==> {
                &&& plan.first <= x / BLOCK <= plan.last
                &&& x < plan.end
                &&& f.present.contains(x / BLOCK) <==> !in_runs(plan.runs@, (x / BLOCK) as int)
            }
            &&& plan.first * BLOCK <= offset
            &&& plan.end <= offset + size
            &&& plan.end <= plan.total
            &&& plan.last * BLOCK < plan.end
        },
{
    lemma_file_index(s, path, s.files.len());
    if let Ok(Some(plan)) = res {
        let i = file_index(s.files, path, s.files.len())->0;
        let f = s.files[i as int];
        assert(plan.first == offset / BLOCK);
        if offset <= x < offset + size && x < f.size {
            assert(plan.first <= x / BLOCK <= plan.last);
            law_runs_are_the_absent_blocks(
                f.present,
                plan.first as int,
                plan.last as int,
                (x / BLOCK) as int,
            );
        }
    }
}

/// The bytes of a run are those of its blocks that the file has, and a fetch of
/// a run is taken exactly when that many bytes came.
pub proof fn law_a_run_is_the_bytes_of_its_blocks(
    total: u64,
    from: u64,
    to: u64,
    range: (u64, u64),
    got: u64,
    res: Result<(), GfsError>,
    x: u64,
)
    requires
        from <= to,
        to * BLOCK < total,
        call_ensures(run_range, (total, from, to), range),
        call_ensures(check_run, (range.0, range.1, got), res),
    ensures
        range.0 <= x <= range.1 <==> from <= x / BLOCK <= to && x < total,
        res is Ok <==> range.0 + got == range.1 + 1,
{
    assert(from * BLOCK <= x <==> from <= x / BLOCK);
    assert(x < (to + 1) * BLOCK <==> x / BLOCK <= to);
}

// ---------------------------------------------------------------------------
// Inodes
// ---------------------------------------------------------------------------
/// Pointing the table at another commit keeps every number and path. The root
/// stands for the new tree, each regular file is a new generation and nothing
/// else changes; and the kernel is told to drop, once each, names that are
/// children of known directories.
pub proof fn law_a_repin_renews_every_file(
    table: &mut InodeTable,
    root: TreeEntryInfo,
    stale: Vec<StaleEntry>,
    ino: u64,
    i: int,
)
    requires
        old(table)@.records.contains_key(ROOT_INO),
        forall|n: u64| #[trigger]
            old(table)@.records.contains_key(n) ==> old(table)@.records[n].generation < u64::MAX,
        call_ensures(InodeTable::repin, (table, root), stale),
    ensures
        final(table)@.by_path == old(table)@.by_path,
        final(table)@.records.contains_key(ino) <==> old(table)@.records.contains_key(ino),
        final(table)@.records[ROOT_INO].node == NodeView::Base(root@),
        old(table)@.records.contains_key(ino) ==> {
            let r = old(table)@.records[ino];
            let n = final(table)@.records[ino];
            &&& n.path == r.path && n.lookups == r.lookups && n.opens == r.opens && n.ino == r.ino
            &&& ino != ROOT_INO ==> n.node == r.node
            &&& ino != ROOT_INO && r.node.regular_file() ==> n.generation == r.generation + 1
            &&& ino == ROOT_INO || !r.node.regular_file() ==> n.generation == r.generation
        },
        0 <= i < stale@.len() ==> {
            let e = stale@[i]@;
            let dir = parent(old(table)@.records[e.ino].path);
            &&& old(table)@.records.contains_key(e.ino) && e.ino != ROOT_INO
            &&& old(table)@.by_path.contains_key(dir) && e.parent == old(table)@.by_path[dir]
            &&& is_child(old(table)@.records[e.ino].path, dir, e.name)
        },
        old(table)@.records.contains_key(ino) && ino != ROOT_INO && base_name(
            old(table)@.records[ino].path,
        ).len() > 0 && old(table)@.by_path.contains_key(parent(old(table)@.records[ino].path))
            ==> exists|k: int| 0 <= k < stale@.len() && (#[trigger] stale@[k])@.ino == ino,
{
    let list = stale_views(stale@);
    if 0 <= i < stale@.len() {
        assert(list[i] == stale@[i]@);
    }
    if old(table)@.dropped_dentry(ino) is Some {
        assert(exists_at(list, ino));
        let k = choose|k: int| 0 <= k < list.len() && (#[trigger] list[k]).ino == ino;
        assert(stale@[k]@ == list[k]);
    }
}

/// A file rewritten behind the kernel is a new generation under its number, and
/// its name below its directory is the one to drop; no other record changes,
/// and a path that is no live regular file changes nothing.
pub proof fn law_a_rewrite_renews_its_file(
    table: &mut InodeTable,
    path: &BytePath,
    stale: Option<StaleEntry>,
    other: u64,
)
    requires
        forall|n: u64| #[trigger]
            old(table)@.records.contains_key(n) ==> old(table)@.records[n].generation < u64::MAX,
        call_ensures(InodeTable::rewritten_behind_kernel, (table, path), stale),
    ensures
        final(table)@.by_path == old(table)@.by_path,
        ({
            let live = old(table)@.by_path.contains_key(path@) && old(
                table)@.records.contains_key(old(table)@.by_path[path@]) && old(
                table)@.records[old(table)@.by_path[path@]].node.regular_file();
            let ino = old(table)@.by_path[path@];
            &&& !live ==> stale is None && final(table)@ == old(table)@
            &&& live ==> final(table)@.records[ino].generation == old(
                table)@.records[ino].generation + 1 && final(table)@.records[ino].node == old(
                table)@.records[ino].node && final(table)@.records[ino].path == old(
                table)@.records[ino].path
            &&& live ==> (stale is Some <==> old(table)@.by_path.contains_key(parent(path@)))
            &&& live && other != ino && old(table)@.records.contains_key(other)
                ==> final(table)@.records[other] == old(table)@.records[other]
            &&& stale matches Some(e) ==> e@.ino == ino && e@.parent == old(
                table)@.by_path[parent(path@)] && is_child(path@, parent(path@), e@.name)
        }),
{
}

// ---------------------------------------------------------------------------
// Adoption, verification, anchors and sockets
// ---------------------------------------------------------------------------
/// Whether bytes are digits of a hexadecimal number in lower case.
pub open spec fn lower_hex(name: Seq<u8>) -> bool {
    name.len() > 0 && forall|i: int|
        0 <= i < name.len() ==> ('0' <= (#[trigger] name[i]) as char <= '9' || 'a' <= name[i] as char
            <= 'f')
}

/// A file found in the cache is kept exactly when it is a file with a
/// hexadecimal name in a directory named by two such digits; outside of such a
/// directory nothing is touched.
pub proof fn law_only_blobs_are_adopted(shard: &[u8], name: &[u8], is_file: bool, res: Adoption)
    requires
        call_ensures(adoption, (shard, name, is_file), res),
    ensures
        res is Ignore <==> !(shard@.len() == 2 && lower_hex(shard@)),
        res is Keep <==> shard@.len() == 2 && lower_hex(shard@) && lower_hex(name@) && is_file,
{
}

/// A directory of the projection lists what is in it, in order, under its names
/// and as what it is, and needs nothing more.
pub proof fn law_a_projected_directory_lists_what_is_in_it(
    path: &BytePath,
    listed: Vec<(Vec<u8>, OdbNode)>,
    res: DirState,
    needs: Fill,
    i: int,
)
    requires
        call_ensures(projected_directory, (path, listed), res),
        call_ensures(DirState::needs, (&res,), needs),
    ensures
        needs is Nothing,
        res@.path == path@,
        res@.children.len() == listed@.len(),
        0 <= i < listed@.len() ==> res@.children[i].name() == listed@[i].0@
            && res@.children[i].listed_type() == (if listed@[i].1 is Dir {
            FileType::Directory
        } else {
            FileType::RegularFile
        }),
{
}

/// A workspace may be pinned elsewhere exactly when its branch is where the pin
/// is, or nowhere.
pub proof fn law_local_commits_are_never_left_behind(
    m: &Mount,
    local: Option<String>,
    res: Result<(), GfsError>,
)
    requires
        call_ensures(Mount::check_local_head, (m, local), res),
    ensures
        res is Ok <==> (local matches Some(head) ==> head@ == hex(m@.commit.digest)),
{
}

/// A blob that was read is handed out, unchanged, exactly when it hashes to the
/// name it was asked for under.
pub proof fn law_a_blob_is_handed_out_under_its_name(
    blob: &ObjectId,
    recomputed: Result<Vec<u8>, String>,
    content: Vec<u8>,
    res: Result<Vec<u8>, GfsError>,
)
    requires
        call_ensures(blob_beside, (blob, recomputed, content), res),
    ensures
        res is Ok <==> (recomputed matches Ok(digest) && digest@ == blob@.digest),
        res matches Ok(bytes) ==> bytes@ == content@,
{
}

/// Only reserved refs are anchors. One is created where there is none, left as
/// it is where it already holds the commit, and never moved to another; one that
/// is missing is deleted already.
pub proof fn law_an_anchor_never_moves(
    name: &str,
    reserved: bool,
    commit: &ObjectId,
    existing: &RefState,
    made: Result<AnchorPlan, GfsError>,
    present: bool,
    gone: Result<bool, GfsError>,
)
    requires
        call_ensures(is_reserved_ref, (name,), reserved),
        call_ensures(create_lease_anchor, (name, commit, existing), made),
        call_ensures(delete_lease_anchor, (name, present), gone),
    ensures
        made matches Ok(AnchorPlan::Create) <==> reserved && *existing is Missing,
        made matches Ok(AnchorPlan::Done) <==> reserved && (*existing matches RefState::At(Some(oid))
            && oid@ == commit@),
        gone is Ok <==> reserved,
        gone matches Ok(delete) ==> delete == present,
{
}

/// What a living host or daemon holds is never taken over; what a dead one left
/// is, and nothing is removed where nothing is.
pub proof fn law_the_living_are_not_replaced(
    exists: bool,
    live: bool,
    socket: &str,
    bound: Result<BindPlan, GfsError>,
    adopted: Result<SocketFate, GfsError>,
)
    requires
        call_ensures(bind, (exists, live, socket), bound),
        call_ensures(adopt_or_refuse_state_dir, (exists, live, socket), adopted),
    ensures
        bound is Err <==> exists && live,
        adopted is Err <==> exists && live,
        bound matches Ok(BindPlan::RemoveThenBind) <==> exists && !live,
        adopted matches Ok(SocketFate::Stale) <==> exists && !live,
{
}

// ---------------------------------------------------------------------------
// References, recency and room
// ---------------------------------------------------------------------------
/// A lookup takes one reference to the path's own inode and shows what was
/// found there; a row of the overlay brings its number to a path without one.
/// Forgetting the reference leaves as many as before.
pub proof fn law_a_lookup_takes_one_reference(s: TableView, path: Seq<u8>, node: NodeView)
    requires
        s.can_look_up(path, node),
    ensures
        ({
            let t = s.looked_up(path, node);
            let ino = t.by_path[path];
            let live = s.records.contains_key(ino);
            &&& t.by_path.contains_key(path)
            &&& t.records.contains_key(ino)
            &&& s.by_path.contains_key(path) ==> ino == s.by_path[path]
            &&& !s.by_path.contains_key(path) && node is Overlay ==> ino == node->Overlay_0.ino
            &&& t.records[ino].node == node
            &&& t.records[ino].lookups == (if live {
                s.records[ino].lookups + 1
            } else {
                1
            })
            &&& live ==> t.records[ino].path == s.records[ino].path && t.records[ino].opens
                == s.records[ino].opens && t.records[ino].generation == s.records[ino].generation
            &&& !live ==> t.records[ino].path == path && t.records[ino].opens == 0
                && t.records[ino].ino == ino
            &&& live && s.records[ino].lookups > 0 && ino != ROOT_INO ==> t.forgotten(
                ino,
                1,
            ).records[ino].lookups == s.records[ino].lookups
            &&& !live && ino != ROOT_INO ==> !t.forgotten(ino, 1).records.contains_key(ino)
            &&& forall|other: u64|
                other != ino && s.records.contains_key(other) ==> t.records.contains_key(other)
                    && #[trigger] t.records[other] == s.records[other]
        }),
{
}

/// Closing a descriptor undoes opening it, for an inode that something still
/// refers to.
pub proof fn law_a_close_undoes_an_open(s: TableView, ino: u64)
    requires
        s.records.contains_key(ino),
        s.records[ino].opens < u32::MAX,
        s.records[ino].lookups > 0 || s.records[ino].opens > 0,
    ensures
        s.opened(ino).records[ino].opens == s.records[ino].opens + 1,
        s.opened(ino).closed(ino) == s,
{
    assert(s.opened(ino).closed(ino).records =~= s.records);
}

/// A blob that was stored or used is the newest, and what is counted is what is
/// there: storing one adds its size and takes the size of what it replaced, and
/// using one moves no byte.
pub proof fn law_what_was_used_is_newest(s: BlobsView, k: Seq<u8>, size: u64, other: Seq<u8>)
    requires
        s.wf(),
        s.clock < u64::MAX,
        s.bytes + size <= u64::MAX,
        s.blobs.contains_key(other),
        other != k,
    ensures
        ({
            let t = s.stored(k, size);
            &&& t.blobs.contains_key(k) && t.blobs[k].size == size
            &&& t.blobs.contains_key(other) && t.blobs[other] == s.blobs[other]
            &&& t.blobs[k].last_used > t.blobs[other].last_used
            &&& s.blobs.contains_key(k) ==> t.blobs[k].pins == s.blobs[k].pins && t.bytes
                + s.blobs[k].size == s.bytes + size
            &&& !s.blobs.contains_key(k) ==> t.blobs[k].pins == 0 && t.bytes == s.bytes + size
        }),
        ({
            let t = s.touched(k);
            &&& t.bytes == s.bytes
            &&& t.blobs[other] == s.blobs[other]
            &&& t.blobs.contains_key(k) <==> s.blobs.contains_key(k)
            &&& s.blobs.contains_key(k) ==> t.blobs[k].last_used > t.blobs[other].last_used
                && t.blobs[k].size == s.blobs[k].size && t.blobs[k].pins == s.blobs[k].pins
        }),
{
    if s.blobs.contains_key(k) {
        lemma_total_remove(s.blobs, k);
    } else {
        assert(s.blobs.remove(k) =~= s.blobs);
    }
}

proof fn lemma_first_free_of_longer(v: ResidencyView, list: Seq<Block>, b: Block, from: nat)
    requires
        from <= list.len(),
    ensures
        v.first_free(list, from) is Some ==> v.first_free(list.push(b), from) == v.first_free(
            list,
            from,
        ),
    decreases list.len() - from,
{
    if from < list.len() && v.pins.count(list[from as int].key()) > 0 {
        lemma_first_free_of_longer(v, list, b, from + 1);
    }
}

/// A block that is admitted goes after the blocks that were there: while a block
/// on probation is held by no read, the one evicted next stays the same.
pub proof fn law_the_oldest_block_goes_first(v: ResidencyView, key: BlockKey, len: u64)
    requires
        v.wf(),
        v.limit > 0,
        !v.resident(key),
    ensures
        v.first_free(v.probation, 0) is Some ==> v.admitted(key, len).victim() == v.victim(),
        v.victim() is None && v.pins.count(key) == 0 ==> v.admitted(key, len).victim() == Some(key),
        v.first_free(v.probation, 0) is Some && v.first_free(v.protected, 0) is Some ==> v.victim()
            == v.first_free(v.probation, 0),
{
    lemma_dropped(v, key);
    let b = Block { file: key.0, index: key.1, len };
    let w = v.admitted(key, len);
    assert(w.probation == v.probation.push(b));
    lemma_first_free_of_longer(v, v.probation, b, 0);
    lemma_same_pins(v, w, w.probation, 0);
    if v.victim() is None && v.pins.count(key) == 0 {
        lemma_only_the_last_is_free(v, v.probation, b, 0);
    }
}

proof fn lemma_same_pins(v: ResidencyView, w: ResidencyView, list: Seq<Block>, from: nat)
    requires
        v.pins == w.pins,
    ensures
        v.first_free(list, from) == w.first_free(list, from),
    decreases list.len() - from,
{
    if from < list.len() && v.pins.count(list[from as int].key()) > 0 {
        lemma_same_pins(v, w, list, from + 1);
    }
}

proof fn lemma_only_the_last_is_free(v: ResidencyView, list: Seq<Block>, b: Block, from: nat)
    requires
        from <= list.len(),
        v.first_free(list, from) is None,
        v.pins.count(b.key()) == 0,
    ensures
        v.first_free(list.push(b), from) == Some(b.key()),
    decreases list.len() - from,
{
    if from < list.len() {
        lemma_only_the_last_is_free(v, list, b, from + 1);
    }
}

/// What a block gives back when it is evicted is what it brought: the bytes of
/// that block which the file has, and no other.
pub proof fn law_a_block_gives_back_its_bytes(s: StoreView, file: u32, block: u64, x: u64)
    requires
        s.wf(),
        s.residency.limit > 0,
        file < s.files.len(),
        block * BLOCK < s.files[file as int].size,
        !s.files[file as int].present.contains(block),
    ensures
        ({
            let t = s.landed(file, block);
            let hole = t.hole_of((file, block));
            &&& t.files[file as int].present.contains(block)
            &&& hole.file == file
            &&& hole.offset <= x < hole.offset + hole.len <==> x / BLOCK == block && x
                < s.files[file as int].size
            &&& !t.without_block((file, block)).files[file as int].present.contains(block)
        }),
{
    let key = (file, block);
    let f = s.files[file as int];
    let t = s.landed(file, block);
    lemma_dropped(s.residency, key);
    let list = t.residency.probation;
    let n = list.len() as int - 1;
    assert(list[n].key() == key);
    assert(lists(list, key));
    lemma_place_of(list, key, 0);
    let at = place_of(list, key, 0) as int;
    if at < n {
        assert(list[at] == s.residency.dropped(key).probation[at]);
        assert(lists(s.residency.dropped(key).probation, key));
        assert(s.residency.dropped(key).resident(key));
    }
    assert(t.residency.block(key).len == block_len(f.size, block));
}

proof fn lemma_place_of(list: Seq<Block>, key: BlockKey, from: nat)
    requires
        from <= list.len(),
        exists|i: int| from <= i < list.len() && (#[trigger] list[i]).key() == key,
    ensures
        from <= place_of(list, key, from) < list.len(),
        list[place_of(list, key, from) as int].key() == key,
    decreases list.len() - from,
{
    if list[from as int].key() != key {
        lemma_place_of(list, key, from + 1);
    }
}

/// An answer holds no more results than were asked for, and one where none
/// were; it is cut short only where that many were found.
pub proof fn law_an_answer_is_cut_at_its_limit(
    slices: Seq<LocalOutcome>,
    max_results: u32,
    frame: ScanFrame,
    r: SearchResult,
)
    requires
        merge_reports(slices, max_results, frame, r),
    ensures
        r.matches@.len() <= max_results || (max_results == 0 && r.matches@.len() == 1),
        r.completion.truncation == Some(TruncationReason::ResultLimit) ==> r.matches@.len() > 0
            && r.matches@.len() >= max_results && r.matches@.len() < all_matches(slices).len(),
        r.matches@.is_prefix_of(all_matches(slices)),
        r.completion.truncation != Some(TruncationReason::ResultLimit) ==> r.matches@
            == all_matches(slices),
{
}

/// Whether a character stands for a number: capital letters, small letters and
/// digits in order, then the hyphen and the underscore.
pub open spec fn stands_for(c: char, v: int) -> bool {
    ||| 0 <= v < 26 && c as int == 'A' as int + v
    ||| 26 <= v < 52 && c as int == 'a' as int + (v - 26)
    ||| 52 <= v < 62 && c as int == '0' as int + (v - 52)
    ||| v == 62 && c == '-'
    ||| v == 63 && c == '_'
}

/// Three bytes, as one number, are the number their four characters stand for,
/// six bits each; what follows them is written on its own.
pub proof fn law_characters_carry_six_bits_each(bytes: Seq<u8>, p: int, q: int, r: int, t: int)
    requires
        bytes.len() >= 3,
        0 <= p < 64,
        0 <= q < 64,
        0 <= r < 64,
        0 <= t < 64,
        bytes[0] * 65536 + bytes[1] * 256 + bytes[2] == p * 262144 + q * 4096 + r * 64 + t,
    ensures
        stands_for(b64url(bytes)[0], p),
        stands_for(b64url(bytes)[1], q),
        stands_for(b64url(bytes)[2], r),
        stands_for(b64url(bytes)[3], t),
        b64url(bytes).skip(4) == b64url(bytes.skip(3)),
{
    let (a, b, c) = (bytes[0] as int, bytes[1] as int, bytes[2] as int);
    assert(p == a / 4 && q == (a % 4) * 16 + b / 16 && r == (b % 16) * 4 + c / 64 && t == c % 64);
    assert(b64url(bytes).skip(4) =~= b64url(bytes.skip(3)));
}

// ---------------------------------------------------------------------------
// Text, time and modes
// ---------------------------------------------------------------------------
/// Whether a text is white space throughout.
pub open spec fn blank(text: Seq<char>) -> bool {
    forall|i: int| 0 <= i < text.len() ==> white_space(#[trigger] text[i])
}

proof fn lemma_trimmed_end(text: Seq<char>) -> (n: int)
    ensures
        0 <= n <= text.len(),
        trimmed_end(text) == text.take(n),
        blank(text.skip(n)),
        n > 0 ==> !white_space(text[n - 1]),
    decreases text.len(),
{
    if text.len() > 0 && white_space(text.last()) {
        let n = lemma_trimmed_end(text.drop_last());
        assert(text.take(n) =~= text.drop_last().take(n));
        assert forall|i: int| 0 <= i < text.skip(n).len() implies white_space(
            #[trigger] text.skip(n)[i],
        ) by {
            if n + i < text.len() - 1 {
                assert(text.drop_last().skip(n)[i] == text[n + i]);
            }
        }
        n
    } else {
        assert(text.take(text.len() as int) =~= text);
        text.len() as int
    }
}

/// Trimming takes the white space at both ends of a text and nothing else.
pub proof fn law_trimming_takes_the_blank_ends(text: Seq<char>) -> (ends: (int, int))
    ensures
        0 <= ends.0 <= ends.1 <= text.len(),
        trimmed(text) == text.subrange(ends.0, ends.1),
        blank(text.take(ends.0)),
        blank(text.skip(ends.1)),
        ends.0 < ends.1 ==> !white_space(text[ends.0]) && !white_space(text[ends.1 - 1]),
    decreases text.len(),
{
    if text.len() > 0 && white_space(text[0]) {
        let rest = law_trimming_takes_the_blank_ends(text.skip(1));
        assert(text.subrange(rest.0 + 1, rest.1 + 1) =~= text.skip(1).subrange(rest.0, rest.1));
        assert(text.skip(rest.1 + 1) =~= text.skip(1).skip(rest.1));
        assert forall|i: int| 0 <= i < text.take(rest.0 + 1).len() implies white_space(
            #[trigger] text.take(rest.0 + 1)[i],
        ) by {
            if i > 0 {
                assert(text.skip(1).take(rest.0)[i - 1] == text[i]);
            }
        }
        (rest.0 + 1, rest.1 + 1)
    } else {
        let n = lemma_trimmed_end(text);
        assert(text.subrange(0, n) =~= text.take(n));
        (0, n)
    }
}

/// One time is after another exactly when more nanoseconds have passed.
pub proof fn law_times_are_ordered_by_their_nanoseconds(a: Timestamp, b: Timestamp)
    requires
        a.nanos < 1_000_000_000,
        b.nanos < 1_000_000_000,
    ensures
        a.after(b) <==> a.secs * 1_000_000_000 + a.nanos > b.secs * 1_000_000_000 + b.nanos,
{
}

/// A directory takes its place in a tree by the paths of what it holds, any
/// other entry by its own.
pub proof fn law_a_directory_is_placed_by_what_it_holds(
    name: Seq<u8>,
    below: Seq<u8>,
    mode: u32,
)
    requires
        name.len() > 0,
    ensures
        mode == 0o40000 ==> joined(name, below) == sort_key(name, mode) + below,
        mode != 0o40000 ==> sort_key(name, mode) == name,
{
    if mode == 0o40000 {
        assert(joined(name, below) =~= sort_key(name, mode) + below);
    }
}

/// A search reads what a walk of files visits and an index of files takes: the
/// regular files, executable or not. A walk of paths visits everything but the
/// directories it walks through.
pub proof fn law_files_are_what_is_searched(mode: u32, side: DeltaSide)
    requires
        side.present,
        side.mode == mode,
    ensures
        searched_mode(mode) <==> mode == 0o100644 || mode == 0o100755,
        visits(WalkOf::Files, mode) <==> searched_mode(mode),
        searchable(side) <==> searched_mode(mode),
        visits(WalkOf::Paths, mode) <==> mode != 0o40000,
{
}

/// What becomes of a changed path is what stands there now: its new content
/// where that is a file, else that it is gone where the old one was.
pub proof fn law_a_delta_is_the_new_side(
    before: DeltaSide,
    after: DeltaSide,
    res: Option<TreeDelta>,
)
    requires
        delta_outcome(before, after, res),
    ensures
        res matches Some(TreeDelta::Upserted { path, mode, oid, size }) ==> after.present && (
        after.path matches Some(p) && p@ == path@) && mode == after.mode && oid@ == after.oid@
            && size == after.size,
        res matches Some(TreeDelta::Removed { path }) ==> before.present && (before.path matches Some(
            p,
        ) && p@ == path@),
        after.path is Some && searchable(after) ==> res is Some && res->0 is Upserted,
        before.path is Some && searchable(before) && !searchable(after) ==> res is Some
            && res->0 is Removed,
        !searchable(before) && !searchable(after) ==> res is None,
{
}

/// A signature is the identity it was made of.
pub proof fn law_a_signature_is_its_identity(
    made: Result<(Vec<u8>, Vec<u8>, i64, i32), String>,
    res: Result<Signature, GfsError>,
)
    requires
        call_ensures(signature_beside, (made,), res),
    ensures
        res is Ok <==> made is Ok,
        made matches Ok((name, email, secs, offset)) ==> (res matches Ok(s) && s.name@ == name@
            && s.email@ == email@ && s.time.secs == secs && s.time.nanos == 0
            && s.tz_offset_minutes == offset),
{
}

/// The anchors of mounts are reserved refs, one for each mount.
pub proof fn law_each_mount_has_its_own_anchor(a: &MountId, b: &MountId, x: String, y: String)
    requires
        call_ensures(anchor_for, (a,), x),
        call_ensures(anchor_for, (b,), y),
    ensures
        reserved(x@),
        x@ == y@ ==> a@ == b@,
{
    reveal_strlit("refs/gfs/mounts/");
    reveal_strlit("refs/gfs/");
    assert(x@.subrange(0, 9) =~= "refs/gfs/"@);
    assert(x@.take(9) =~= "refs/gfs/"@);
    if x@ == y@ {
        let n = "refs/gfs/mounts/"@.len() as int;
        assert(a@ =~= x@.skip(n));
        assert(b@ =~= y@.skip(n));
    }
}

} // verus!
