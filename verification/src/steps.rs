//! How one call follows another: laws of handles, counters, caches, retries,
//! listings and pins over the calls that change them.
use vstd::prelude::*;
use crate::cache::{
    content_id, joined_outcome, name_of, BlobCache, Ensure, Hydration, Joined,
};
use crate::client::SnapshotClient;
use crate::control::RefreshReport;
use crate::directory::{DirState, Fill, Resolution};
use crate::effects::{names_git, projected};
use crate::entry::TreeEntryInfo;
use crate::error::{ErrorCode, GfsError};
use crate::fetch::{ListingFetch, Retry};
use crate::fs::{list_outcome, DirStep, FsView, Gfs, KeepFlags, OpenFile};
use crate::host::MountHost;
use crate::inode::Record;
use crate::mount::{Mount, Pin, Target};
use crate::node::{FileType, GitMeta, Node, OverlayEntry};
use crate::object::ObjectId;
use crate::path::{joined, BytePath};
use crate::subtree::{objects_name, state_subdir};
use crate::time::Timestamp;

verus! {

// ---------------------------------------------------------------------------
// Handles
// ---------------------------------------------------------------------------
/// A file that is opened is found under the handle it was given and no other
/// handle changes; releasing that handle gives the same file back, and then it
/// is gone.
pub proof fn law_a_handle_leads_to_its_file(
    fs: &mut Gfs,
    ino: u64,
    file: OpenFile,
    opened: (u64, KeepFlags),
    later: &mut Gfs,
    released: Option<OpenFile>,
    other: u64,
)
    requires
        old(fs).wf(),
        old(fs)@.wf(),
        old(fs)@.can_open(ino),
        call_ensures(Gfs::open_file, (fs, ino, file), opened),
        old(later)@ == final(fs)@,
        call_ensures(Gfs::release, (later, ino, opened.0), released),
    ensures
        final(fs)@.files.contains_key(opened.0),
        final(fs)@.files[opened.0] == file@,
        !old(fs)@.files.contains_key(opened.0),
        !old(fs)@.dirs.contains_key(opened.0),
        released matches Some(f) && f@ == file@,
        !final(later)@.files.contains_key(opened.0),
        other != opened.0 ==> (final(later)@.files.contains_key(other)
            <==> old(fs)@.files.contains_key(other)),
        old(fs)@.files.contains_key(other) ==> final(fs)@.files[other] == old(fs)@.files[other]
            && final(later)@.files[other] == old(fs)@.files[other],
        final(later)@.dirs == old(fs)@.dirs,
        final(later)@.next_handle > opened.0,
{
}

/// A directory that is opened is found under its handle; taking it and putting
/// it back leaves it as it was put, and releasing it forgets it alone.
pub proof fn law_a_handle_leads_to_its_directory(
    fs: &mut Gfs,
    ino: u64,
    state: DirState,
    opened: (u64, KeepFlags),
    mid: &mut Gfs,
    taken: Option<DirState>,
    back: &mut Gfs,
    filled: DirState,
    last: &mut Gfs,
    other: u64,
)
    requires
        old(fs).wf(),
        old(fs)@.wf(),
        old(fs)@.can_open(ino),
        call_ensures(Gfs::open_directory, (fs, ino, state), opened),
        old(mid)@ == final(fs)@,
        call_ensures(Gfs::take_directory, (mid, opened.0), taken),
        old(back)@ == final(mid)@,
        call_ensures(Gfs::put_directory, (back, opened.0, filled), ()),
        old(last)@ == final(back)@,
        call_ensures(Gfs::release_directory, (last, ino, opened.0), ()),
    ensures
        !old(fs)@.files.contains_key(opened.0),
        !old(fs)@.dirs.contains_key(opened.0),
        taken matches Some(d) && d@ == state@,
        final(back)@.dirs.contains_key(opened.0) && final(back)@.dirs[opened.0] == filled@,
        !final(last)@.dirs.contains_key(opened.0),
        other != opened.0 ==> (final(last)@.dirs.contains_key(other)
            <==> old(fs)@.dirs.contains_key(other)),
        old(fs)@.dirs.contains_key(other) ==> final(last)@.dirs[other] == old(fs)@.dirs[other],
        final(last)@.files == old(fs)@.files,
{
}

/// A listing gives the directory itself, its parent, and then each child at its
/// own offset, under its own name and as what it is, until there are no more.
pub proof fn law_a_listing_gives_each_child_at_its_offset(
    s: FsView,
    t: FsView,
    fh: u64,
    ino: u64,
    index: u64,
    referenced: bool,
    res: DirStep,
)
    requires
        list_outcome(s, t, fh, ino, index, referenced, res),
        s.dirs.contains_key(fh),
        s.dirs[fh].complete,
        s.dirs[fh].git_pending is None,
    ensures
        index >= 2 && index - 2 >= s.dirs[fh].children.len() <==> res is End,
        index == 0 ==> (res matches DirStep::Entry(e) && e.ino == ino && e.name@ == seq![46u8]
            && e.kind == FileType::Directory),
        index == 1 ==> (res matches DirStep::Entry(e) && e.name@ == seq![46u8, 46u8] && e.kind
            == FileType::Directory),
        index >= 2 && index - 2 < s.dirs[fh].children.len() ==> (res matches DirStep::Entry(e)
            && e.name@ == s.dirs[fh].children[index - 2].name() && e.kind
            == s.dirs[fh].children[index - 2].listed_type()),
        res matches DirStep::Entry(e) ==> e.next == index + 1,
        t.files == s.files,
        t.dirs == s.dirs,
{
}

/// What is found may be kept as long as its world says: `.git` for as long as
/// its own time, everything else for the tree's. An absence is kept longer only
/// among objects: the loose ones or the projection's.
pub proof fn law_an_answer_is_kept_as_its_world_says(
    fs: &mut Gfs,
    path: BytePath,
    node: Node,
    git: bool,
    res: (Record, u64),
    gone: &mut Gfs,
    p: &Record,
    ttl: u64,
    rel: Seq<u8>,
)
    requires
        call_ensures(Gfs::found, (fs, path, node, git), res),
        call_ensures(Gfs::not_found, (gone, p, git), ttl),
        names_git(p@.path, rel),
    ensures
        git ==> res.1 == old(fs)@.config.git_ttl,
        !git ==> res.1 == old(fs)@.config.ttl,
        !git ==> ttl == old(gone)@.config.negative_ttl,
        git && (projected(rel) || rel == objects_name() || exists|below: Seq<u8>|
            rel == #[trigger] joined(objects_name(), below)) ==> ttl
            == old(gone)@.config.object_negative_ttl,
        git && !(projected(rel) || rel == objects_name() || exists|below: Seq<u8>|
            rel == #[trigger] joined(objects_name(), below)) ==> ttl
            == old(gone)@.config.negative_ttl,
        final(fs)@.files == old(fs)@.files,
        final(fs)@.dirs == old(fs)@.dirs,
        final(gone)@.table == old(gone)@.table,
        final(gone)@.files == old(gone)@.files,
{
    crate::effects::lemma_git_part(p@.path);
    crate::effects::lemma_odb_part(rel);
    lemma_below_objects(rel);
}

proof fn lemma_below_objects(rel: Seq<u8>)
    ensures
        crate::subtree::below(rel, objects_name()) is Some <==> rel == objects_name() || exists|
            below: Seq<u8>,
        |
            rel == #[trigger] joined(objects_name(), below),
{
    let dir = objects_name();
    let p = dir + seq![47u8];
    if rel != dir && crate::bytes::has_prefix(rel, p) {
        let part = rel.subrange(dir.len() as int + 1, rel.len() as int);
        assert(rel =~= joined(dir, part)) by {
            assert forall|i: int| 0 <= i < p.len() implies rel[i] == p[i] by {
                assert(rel.subrange(0, p.len() as int)[i] == p[i]);
            }
        }
    }
    if rel != dir && (exists|below: Seq<u8>| rel == #[trigger] joined(dir, below)) {
        let part = choose|below: Seq<u8>| rel == #[trigger] joined(dir, below);
        assert(rel.subrange(0, p.len() as int) =~= p);
    }
}

/// Each event moves its own counters, by one or by its size, and nothing else.
pub proof fn law_each_event_moves_its_own_counters(
    a: &mut Gfs,
    b: &mut Gfs,
    c: &mut Gfs,
    d: &mut Gfs,
    bytes: u64,
)
    requires
        call_ensures(Gfs::note_read, (a, bytes), ()),
        call_ensures(Gfs::note_write, (b, bytes), ()),
        call_ensures(Gfs::note_copy_up, (c, bytes), ()),
        call_ensures(Gfs::note_error, (d,), ()),
        old(a)@.stats.reads < u64::MAX,
        old(a)@.stats.read_bytes + bytes <= u64::MAX,
        old(b)@.stats.writes < u64::MAX,
        old(b)@.stats.written_bytes + bytes <= u64::MAX,
        old(c)@.stats.copy_ups < u64::MAX,
        old(c)@.stats.copy_up_bytes + bytes <= u64::MAX,
        old(d)@.stats.errors < u64::MAX,
    ensures
        final(a)@.stats.reads == old(a)@.stats.reads + 1,
        final(a)@.stats.read_bytes == old(a)@.stats.read_bytes + bytes,
        final(a)@.stats.writes == old(a)@.stats.writes,
        final(a)@.stats.errors == old(a)@.stats.errors,
        final(a)@.table == old(a)@.table,
        final(b)@.stats.writes == old(b)@.stats.writes + 1,
        final(b)@.stats.written_bytes == old(b)@.stats.written_bytes + bytes,
        final(b)@.stats.reads == old(b)@.stats.reads,
        final(b)@.table == old(b)@.table,
        final(c)@.stats.copy_ups == old(c)@.stats.copy_ups + 1,
        final(c)@.stats.copy_up_bytes == old(c)@.stats.copy_up_bytes + bytes,
        final(c)@.stats.writes == old(c)@.stats.writes,
        final(d)@.stats.errors == old(d)@.stats.errors + 1,
        final(d)@.stats.reads == old(d)@.stats.reads,
        final(d)@.table == old(d)@.table,
{
}

// ---------------------------------------------------------------------------
// Open directories
// ---------------------------------------------------------------------------
/// A listing that was completed needs nothing more. A real directory's is what
/// the disk lists, in order, and the projection with it in its parent alone; a
/// merged one keeps what it had and ends in the overlay's own entries.
pub proof fn law_a_filled_listing_is_whole(
    git: &mut DirState,
    listed: Vec<(Vec<u8>, GitMeta)>,
    has_projection: bool,
    view: &mut DirState,
    entries: &Vec<TreeEntryInfo>,
    answers: &Vec<Resolution>,
    extras: &Vec<OverlayEntry>,
    done: &DirState,
    needs: Fill,
)
    requires
        old(git)@.git_pending is Some,
        old(view)@.git_pending is None,
        entries@.len() == answers@.len(),
        call_ensures(DirState::fill_git, (git, listed, has_projection), ()),
        call_ensures(DirState::fill_merged, (view, entries, answers, extras), ()),
        done@ == final(git)@ || done@ == final(view)@,
        call_ensures(DirState::needs, (done,), needs),
    ensures
        needs is Nothing,
        final(git)@.path == old(git)@.path,
        final(view)@.path == old(view)@.path,
        forall|i: int|
            0 <= i < listed@.len() ==> (#[trigger] final(git)@.children[i]).name() == listed@[i].0@
                && final(git)@.children[i].listed_type() == listed@[i].1.kind,
        final(git)@.children.len() == listed@.len() + (if has_projection && old(git)@.git_pending == Some(state_subdir()) {
            1int
        } else {
            0int
        }),
        has_projection && old(git)@.git_pending == Some(state_subdir()) ==> final(git)@.children.last().name() == objects_name() && final(git)@.children.last().listed_type()
            == FileType::Directory,
        final(view)@.children.len() >= old(view)@.children.len() + extras@.len(),
        forall|i: int|
            0 <= i < old(view)@.children.len() ==> #[trigger] final(view)@.children[i] == old(view)@.children[i],
{
}

// ---------------------------------------------------------------------------
// Fetching
// ---------------------------------------------------------------------------
/// One caller fetches a blob: whoever asks again while it does is to wait for
/// it, whoever asks once it is there has it, and when the fetch ended without
/// it the next one fetches.
pub proof fn law_one_caller_fetches(
    first: &mut BlobCache,
    oid: &ObjectId,
    a: Ensure,
    second: &mut BlobCache,
    b: Ensure,
    ended: &mut BlobCache,
    third: &mut BlobCache,
    c: Ensure,
)
    requires
        call_ensures(BlobCache::begin, (first, oid), a),
        old(second)@ == final(first)@,
        call_ensures(BlobCache::begin, (second, oid), b),
        old(ended)@ == final(second)@,
        call_ensures(BlobCache::fetch_ended, (ended, oid), ()),
        old(third)@ == final(ended)@,
        call_ensures(BlobCache::begin, (third, oid), c),
    ensures
        a == Ensure::Hit <==> old(first)@.blobs.contains_key(name_of(oid@)),
        a == Ensure::Fetch ==> b == Ensure::Join && c == Ensure::Fetch,
        a == Ensure::Join ==> b == Ensure::Join,
        a == Ensure::Hit ==> b == Ensure::Hit && c == Ensure::Hit,
        final(third)@.blobs.dom() == old(first)@.blobs.dom(),
        final(third)@.bytes == old(first)@.bytes,
{
    assert(final(third)@.blobs.dom() =~= old(first)@.blobs.dom());
}

/// Fetched bytes are accepted exactly when they hash to the name they were
/// asked for under, and checking them stores nothing. Whoever waited for a
/// fetch that failed may try again.
pub proof fn law_only_the_named_bytes_are_accepted(
    cache: &mut BlobCache,
    oid: &ObjectId,
    bytes: &[u8],
    res: Result<(), GfsError>,
    outcome: Joined,
    waited: Result<Hydration, GfsError>,
)
    requires
        call_ensures(BlobCache::verify, (cache, oid, bytes), res),
        call_ensures(joined_outcome, (outcome,), waited),
    ensures
        res is Ok <==> content_id(oid@.algorithm, bytes@) == Some(oid@),
        final(cache)@.blobs == old(cache)@.blobs,
        final(cache)@.bytes == old(cache)@.bytes,
        final(cache)@.inflight == old(cache)@.inflight,
        waited is Ok <==> outcome is Published,
        waited matches Err(e) ==> e.code.may_retry(),
{
}

/// A failure is tried again only when that can help and attempts are left, and
/// each pause is twice the one before it.
pub proof fn law_retries_are_bounded(
    retry: &mut Retry,
    code: ErrorCode,
    attempts: u32,
    pause: Option<u64>,
    again: &mut Retry,
    next: ErrorCode,
    longer: Option<u64>,
)
    requires
        old(retry).delay_millis <= u64::MAX / 4,
        call_ensures(Retry::failed, (retry, code, attempts), pause),
        *old(again) == *final(retry),
        call_ensures(Retry::failed, (again, next, attempts), longer),
    ensures
        pause is Some <==> (code == ErrorCode::Unavailable || code == ErrorCode::SnapshotBuilding)
            && old(retry).attempt < attempts,
        pause is Some ==> final(retry).attempt == old(retry).attempt + 1 && final(retry).attempt
            <= attempts,
        pause is Some && longer is Some ==> longer->0 == 2 * pause->0,
        pause is None ==> *final(retry) == *old(retry),
{
}

/// Pages are put together in the order they come, and the page without a token
/// is the last.
pub proof fn law_pages_are_put_together(
    fetch: &mut ListingFetch,
    page: Vec<TreeEntryInfo>,
    next: Vec<u8>,
    last: bool,
    i: int,
)
    requires
        call_ensures(ListingFetch::accept, (fetch, page, next), last),
    ensures
        last <==> next@.len() == 0,
        final(fetch).token@ == next@,
        final(fetch).entries@.len() == old(fetch).entries@.len() + page@.len(),
        0 <= i < old(fetch).entries@.len() ==> final(fetch).entries@[i] == old(fetch).entries@[i],
        0 <= i < page@.len() ==> final(fetch).entries@[old(fetch).entries@.len() + i] == page@[i],
{
}

// ---------------------------------------------------------------------------
// Pins, clients and hosts
// ---------------------------------------------------------------------------
/// A re-pin that was resolved is reported as it happened: from the old commit
/// and generation to the new ones, unchanged exactly when they are the same
/// commit. One that was not resolved changes nothing. Only the first shutdown
/// is the first.
pub proof fn law_a_repin_is_reported_as_it_happened(
    m: &mut Mount,
    target: Target,
    resolved: Result<Pin, GfsError>,
    res: Result<RefreshReport, GfsError>,
    a: &mut Mount,
    first: bool,
    b: &mut Mount,
    second: bool,
)
    requires
        old(m)@.epoch < u64::MAX,
        call_ensures(Mount::repin, (m, target, resolved), res),
        call_ensures(Mount::shutdown, (a,), first),
        old(b)@ == final(a)@,
        call_ensures(Mount::shutdown, (b,), second),
    ensures
        resolved is Err ==> final(m)@ == old(m)@ && res is Err,
        resolved matches Ok(pin) ==> {
            &&& res is Ok
            &&& final(m)@.commit == pin.commit@
            &&& final(m)@.tree == pin.tree@
            &&& final(m)@.snapshot_time == pin.snapshot_time
            &&& final(m)@.selector == target.selector@
            &&& final(m)@.epoch == old(m)@.epoch + 1
            &&& res->Ok_0.generation == final(m)@.epoch
            &&& res->Ok_0.previous_generation == old(m)@.epoch
            &&& res->Ok_0.commit@ == final(m)@.commit.qualified()
            &&& res->Ok_0.previous_commit@ == old(m)@.commit.qualified()
            &&& res->Ok_0.unchanged <==> old(m)@.commit == final(m)@.commit
        },
        !second,
        first <==> !old(a)@.shutting_down,
        final(a)@.commit == old(a)@.commit && final(a)@.epoch == old(a)@.epoch,
{
}

/// A renewal changes what the client may read and nothing else; without a
/// capability or a token it says nothing of either.
pub proof fn law_a_renewal_changes_the_capability(
    client: &mut SnapshotClient,
    capability: String,
    expiry: Option<Timestamp>,
    now: Timestamp,
    res: Timestamp,
    after: &SnapshotClient,
    authorization: Option<String>,
    bearer: Option<String>,
)
    requires
        call_ensures(SnapshotClient::renew_mount, (client, capability, expiry, now), res),
        after@ == final(client)@,
        call_ensures(SnapshotClient::authorization, (after,), authorization),
        call_ensures(SnapshotClient::bearer, (after,), bearer),
    ensures
        authorization is Some <==> capability@.len() > 0,
        authorization is Some ==> (authorization->0)@ == capability@,
        bearer is Some <==> old(client)@.token.len() > 0,
        bearer is Some ==> (bearer->0)@ == "Bearer "@ + old(client)@.token,
        final(client)@.commit == old(client)@.commit,
        final(client)@.repository_id == old(client)@.repository_id,
        final(client)@.http_endpoint == old(client)@.http_endpoint,
        expiry matches Some(t) ==> res == t,
        expiry is None ==> res == now,
{
}

/// A workspace is served from its registration until it is forgotten or
/// destroyed, and meanwhile no second mount is made of it; no other workspace
/// is touched.
pub proof fn law_a_workspace_is_served_until_it_is_destroyed(
    host: &mut MountHost,
    workspace: &str,
    served: &MountHost,
    mounting: Result<(), GfsError>,
    gone: &mut MountHost,
    destroyed: Result<(), GfsError>,
    again: &mut MountHost,
    twice: Result<(), GfsError>,
    other: Seq<u8>,
)
    requires
        call_ensures(MountHost::register, (host, workspace), ()),
        served@ == final(host)@,
        call_ensures(MountHost::mount, (served, workspace), mounting),
        old(gone)@ == final(host)@,
        call_ensures(MountHost::destroy_mount, (gone, workspace), destroyed),
        old(again)@ == final(gone)@,
        call_ensures(MountHost::destroy_mount, (again, workspace), twice),
    ensures
        mounting is Err,
        destroyed is Ok,
        twice is Err,
        other != crate::text::utf8(workspace@) ==> (final(again)@.contains(other)
            <==> old(host)@.contains(other)),
{
}

} // verus!
