//! Reading and writing a repository: the decisions around its object store.
//!
//! Trees, refs and blobs are read and written by the caller; what is done with
//! them is decided here.
use vstd::prelude::*;
use crate::bytes::{
    bytes_eq, bytes_lt, copy_bytes, lemma_concat_assoc, lemma_lex_asymmetric,
    lemma_lex_irreflexive, lex_lt,
};
use crate::entry::{
    EntryKind, Signature, TreeEntryInfo, TreeEntryView, DIRECTORY, EXECUTABLE, GITLINK,
    REGULAR, SYMLINK,
};
use crate::error::{ErrorCode, GfsError};
use crate::index::blob_digest;
use crate::limits;
use crate::object::{HashAlgorithm, ObjectId, ObjectIdView};
use crate::path::{joined, BytePath};
use crate::sorting::{
    index_views, key_views, lemma_sorted_order, sort_indices, sorted_order, NameOrder,
};
use crate::strings::{begins, opt_view, strip_text};
use crate::text::{debug_quoted, decimal, lossy, octal, push_decimal, push_octal, push_quoted, utf8};
use crate::time::Timestamp;

verus! {

/// One change of a tree.
#[derive(Debug)]
pub struct TreeChange {
    pub path: BytePath,
    pub kind: TreeChangeKind,
}

/// What a change does to its path.
#[derive(Debug)]
pub enum TreeChangeKind {
    Upsert { mode: u32, content: Vec<u8> },
    Delete,
}

/// Who made a commit, and when.
#[derive(Debug)]
pub struct CommitSignature {
    pub name: String,
    pub email: String,
    pub when_secs: i64,
    pub offset_minutes: i32,
}

/// One entry of a decoded tree.
#[derive(Debug)]
pub struct DecodedEntry {
    pub name: Vec<u8>,
    pub mode: u32,
    pub oid: ObjectId,
}

/// What a [`DecodedEntry`] denotes.
#[verifier::ext_equal]
pub struct DecodedView {
    pub name: Seq<u8>,
    pub mode: u32,
    pub oid: ObjectIdView,
}

impl View for DecodedEntry {
    type V = DecodedView;

    open spec fn view(&self) -> DecodedView {
        DecodedView { name: self.name@, mode: self.mode, oid: self.oid@ }
    }
}

impl DecodedEntry {
    /// An owned copy.
    pub fn duplicate(&self) -> (res: DecodedEntry)
        ensures
            res@ == self@,
    {
        DecodedEntry { name: self.name.clone(), mode: self.mode, oid: self.oid.duplicate() }
    }
}

/// A repository's fixed facts.
#[derive(Debug)]
pub struct Libgit2Repository {
    path: String,
    algorithm: HashAlgorithm,
    max_handles: usize,
    tree_cache_bytes: usize,
}

impl Libgit2Repository {
    /// Where the repository is.
    pub closed spec fn location(&self) -> Seq<char> {
        self.path@
    }

    /// What its objects are named by.
    pub closed spec fn names_by(&self) -> HashAlgorithm {
        self.algorithm
    }

    /// How many handles it opens at once, and how much of its trees it keeps.
    pub closed spec fn bounds(&self) -> (usize, usize) {
        (self.max_handles, self.tree_cache_bytes)
    }

    /// Open a repository, given what the check of its format came to. An
    /// unsupported format is the answer before anything is opened.
    pub fn open(
        path: String,
        format: Result<HashAlgorithm, GfsError>,
        max_handles: usize,
        tree_cache_bytes: usize,
    ) -> (res: Result<Libgit2Repository, GfsError>)
        ensures
            match format {
                Err(e) => res == Err::<Libgit2Repository, GfsError>(e),
                Ok(algorithm) => res matches Ok(repository) && repository.location() == path@
                    && repository.names_by() == algorithm && repository.bounds() == (
                    max_handles,
                    tree_cache_bytes,
                ),
            },
    {
        match format {
            Ok(algorithm) => Ok(
                Libgit2Repository { path, algorithm, max_handles, tree_cache_bytes },
            ),
            Err(e) => Err(e),
        }
    }

    pub fn path(&self) -> (res: &str)
        ensures
            res@ == self.location(),
    {
        self.path.as_str()
    }

    pub fn algorithm(&self) -> (res: HashAlgorithm)
        ensures
            res == self.names_by(),
    {
        self.algorithm
    }

    /// Handles and bytes of trees.
    pub fn limits(&self) -> (res: (usize, usize))
        ensures
            res == self.bounds(),
    {
        (self.max_handles, self.tree_cache_bytes)
    }

    /// The name libgit2 knows an object of this repository by; an ID of another
    /// algorithm is refused, and so is a digest libgit2 cannot hold.
    pub fn git_oid(&self, id: &ObjectId) -> (res: Result<Vec<u8>, GfsError>)
        ensures
            id@.algorithm != self.names_by() ==> (res matches Err(e) && e.reads(
                ErrorCode::InvalidArgument,
                "object id is "@ + algorithm_name(id@.algorithm) + " but this repository is "@
                    + algorithm_name(self.names_by()),
            )),
            id@.algorithm == self.names_by() && id@.digest.len() == 20 ==> (res matches Ok(d) && d@
                == id@.digest),
            id@.algorithm == self.names_by() && id@.digest.len() != 20 ==> (res matches Err(e)
                && e.reads(ErrorCode::InvalidArgument, "raw byte array must be 20 bytes"@)),
    {
        if id.algorithm() != self.algorithm {
            let mut message = "object id is ".to_owned();
            message.append(name_text(id.algorithm()));
            message.append(" but this repository is ");
            message.append(name_text(self.algorithm));
            return Err(GfsError::of(ErrorCode::InvalidArgument, message));
        }
        match git_raw_id(id.as_bytes()) {
            Ok(digest) => Ok(digest),
            Err(message) => Err(GfsError::of(ErrorCode::InvalidArgument, message)),
        }
    }
}

/// Calls `git2::Oid::from_bytes`. Claims that a digest of twenty bytes is taken
/// as it is, and that any other is refused with the message given here.
#[verifier::external_body]
fn git_raw_id(bytes: &[u8]) -> (res: Result<Vec<u8>, String>)
    ensures
        match res {
            Ok(digest) => bytes@.len() == 20 && digest@ == bytes@,
            Err(message) => bytes@.len() != 20 && message@ == "raw byte array must be 20 bytes"@,
        },
{
    match git2::Oid::from_bytes(bytes) {
        Ok(oid) => Ok(oid.as_bytes().to_vec()),
        Err(e) => Err(e.message().to_string()),
    }
}

/// The name of an algorithm.
pub open spec fn algorithm_name(a: HashAlgorithm) -> Seq<char> {
    match a {
        HashAlgorithm::Sha1 => "sha1"@,
        HashAlgorithm::Sha256 => "sha256"@,
        HashAlgorithm::LfsSha256 => "lfs-sha256"@,
    }
}

fn name_text(a: HashAlgorithm) -> (res: &'static str)
    ensures
        res@ == algorithm_name(a),
{
    match a {
        HashAlgorithm::Sha1 => "sha1",
        HashAlgorithm::Sha256 => "sha256",
        HashAlgorithm::LfsSha256 => "lfs-sha256",
    }
}

// ---------------------------------------------------------------------------
// Refs
// ---------------------------------------------------------------------------
/// Whether a ref is in the internal namespace.
pub open spec fn reserved(name: Seq<char>) -> bool {
    begins(name, "refs/gfs/"@)
}

/// Whether a ref is in the internal namespace.
pub fn is_reserved_ref(name: &str) -> (res: bool)
    ensures
        res == reserved(name@),
{
    strip_text(name, "refs/gfs/").is_some()
}

/// Whether a ref may be resolved: neither the name asked for nor the one it
/// stands for may be internal.
pub fn resolve(name: &str, resolved: Option<String>) -> (res: Result<Option<String>, GfsError>)
    ensures
        if reserved(name@) || (opt_view(resolved) matches Some(r) && reserved(r)) {
            res matches Err(e) && e.reads(
                ErrorCode::ReservedNamespace,
                "that ref is in the reserved internal namespace"@,
            )
        } else {
            res matches Ok(r) && opt_view(r) == opt_view(resolved)
        },
{
    if is_reserved_ref(name) {
        return Err(
            GfsError::new(
                ErrorCode::ReservedNamespace,
                "that ref is in the reserved internal namespace",
            ),
        );
    }
    match &resolved {
        Some(r) => {
            if is_reserved_ref(r.as_str()) {
                return Err(
                    GfsError::new(
                        ErrorCode::ReservedNamespace,
                        "that ref is in the reserved internal namespace",
                    ),
                );
            }
        },
        None => {},
    }
    Ok(resolved)
}

/// Why a lookup in the object store failed.
#[derive(Clone, Copy, PartialEq, Eq, Structural, Debug)]
pub enum GitFailure {
    NotFound,
    Ambiguous,
    Modified,
    Other,
}

/// The error of an object that could not be read.
pub fn not_found(failure: GitFailure, what: &str, detail: &str) -> (res: GfsError)
    ensures
        failure == GitFailure::NotFound ==> res.reads(ErrorCode::NotFound, "no such "@ + what@),
        failure != GitFailure::NotFound ==> res.reads(
            ErrorCode::Internal,
            "reading "@ + what@ + " failed: "@ + detail@,
        ),
{
    if failure == GitFailure::NotFound {
        let mut message = "no such ".to_owned();
        message.append(what);
        return GfsError::of(ErrorCode::NotFound, message);
    }
    let mut message = "reading ".to_owned();
    message.append(what);
    message.append(" failed: ");
    message.append(detail);
    GfsError::of(ErrorCode::Internal, message)
}

/// The error of an abbreviation that could not be resolved.
pub fn abbreviation_error(failure: GitFailure, detail: &str) -> (res: GfsError)
    ensures
        match failure {
            GitFailure::NotFound => res.reads(
                ErrorCode::NotFound,
                "no object matches that abbreviation"@,
            ),
            GitFailure::Ambiguous => res.reads(
                ErrorCode::InvalidArgument,
                "abbreviated object id is ambiguous; supply more characters"@,
            ),
            _ => res.reads(
                ErrorCode::InvalidArgument,
                "cannot resolve abbreviation: "@ + detail@,
            ),
        },
{
    match failure {
        GitFailure::NotFound => GfsError::not_found("no object matches that abbreviation"),
        GitFailure::Ambiguous => GfsError::invalid(
            "abbreviated object id is ambiguous; supply more characters",
        ),
        GitFailure::Modified | GitFailure::Other => {
            let mut message = "cannot resolve abbreviation: ".to_owned();
            message.append(detail);
            GfsError::of(ErrorCode::InvalidArgument, message)
        },
    }
}

/// The error of a ref that could not be resolved.
pub fn ref_error(failure: GitFailure, detail: &str) -> (res: GfsError)
    ensures
        failure == GitFailure::NotFound ==> res.reads(ErrorCode::NotFound, "no such ref"@),
        failure != GitFailure::NotFound ==> res.reads(
            ErrorCode::InvalidArgument,
            "cannot resolve ref: "@ + detail@,
        ),
{
    if failure == GitFailure::NotFound {
        return GfsError::not_found("no such ref");
    }
    let mut message = "cannot resolve ref: ".to_owned();
    message.append(detail);
    GfsError::of(ErrorCode::InvalidArgument, message)
}

/// The first `n` of some ref names that are internal, or that are not, as
/// their indices.
pub open spec fn picked(names: Seq<Seq<char>>, internal: bool, n: nat) -> Seq<int>
    decreases n,
{
    if n == 0 {
        Seq::empty()
    } else {
        let before = picked(names, internal, (n - 1) as nat);
        if reserved(names[n - 1]) == internal {
            before.push(n - 1)
        } else {
            before
        }
    }
}

/// The names picked, as their bytes.
pub open spec fn picked_keys(names: Seq<Seq<char>>, chosen: Seq<int>) -> Seq<Seq<u8>> {
    Seq::new(chosen.len(), |i: int| utf8(names[chosen[i]]))
}

/// The ref names that are internal, or that are not, as their indices in the
/// order of the names.
pub open spec fn ref_order(names: Seq<Seq<char>>, internal: bool) -> Seq<int> {
    let chosen = picked(names, internal, names.len());
    let order = sorted_order(NameOrder::Bytes, picked_keys(names, chosen));
    Seq::new(order.len(), |i: int| chosen[order[i]])
}

/// Names as text.
pub open spec fn name_views(names: Seq<String>) -> Seq<Seq<char>> {
    Seq::new(names.len(), |i: int| names[i]@)
}

fn order_refs(names: &Vec<String>, internal: bool) -> (res: Vec<usize>)
    ensures
        index_views(res@) == ref_order(name_views(names@), internal),
        forall|i: int| 0 <= i < res@.len() ==> #[trigger] res@[i] < names@.len(),
{
    let ghost nv = name_views(names@);
    let mut chosen: Vec<usize> = Vec::new();
    let mut keys: Vec<Vec<u8>> = Vec::new();
    let mut i: usize = 0;
    assert(index_views(chosen@) =~= picked(nv, internal, 0));
    while i < names.len()
        invariant
            i <= names@.len(),
            nv == name_views(names@),
            index_views(chosen@) == picked(nv, internal, i as nat),
            keys@.len() == chosen@.len(),
            forall|k: int| 0 <= k < chosen@.len() ==> #[trigger] chosen@[k] < i,
            forall|k: int|
                0 <= k < chosen@.len() ==> (#[trigger] keys@[k])@ == utf8(nv[chosen@[k] as int]),
        decreases names.len() - i,
    {
        if is_reserved_ref(names[i].as_str()) == internal {
            let ghost before = chosen@;
            chosen.push(i);
            keys.push(copy_bytes(names[i].as_str().as_bytes()));
            assert(index_views(chosen@) =~= index_views(before).push(i as int));
        }
        i = i + 1;
    }
    let ghost p = picked(nv, internal, nv.len());
    assert(key_views(keys@) =~= picked_keys(nv, p)) by {
        assert(p.len() == chosen@.len());
        assert forall|k: int| 0 <= k < keys@.len() implies key_views(keys@)[k] == picked_keys(
            nv,
            p,
        )[k] by {
            assert(p[k] == chosen@[k]);
            assert(keys@[k]@ == utf8(nv[chosen@[k] as int]));
        }
    }
    let order = sort_indices(NameOrder::Bytes, &keys);
    let ghost o = index_views(order@);
    let mut out: Vec<usize> = Vec::new();
    let mut j: usize = 0;
    while j < order.len()
        invariant
            j <= order@.len(),
            o == index_views(order@),
            order@.len() == chosen@.len(),
            p == index_views(chosen@),
            forall|k: int| 0 <= k < chosen@.len() ==> #[trigger] chosen@[k] < names@.len(),
            forall|k: int| 0 <= k < order@.len() ==> #[trigger] order@[k] < chosen@.len(),
            out@.len() == j,
            forall|k: int| 0 <= k < j ==> #[trigger] out@[k] == p[o[k]],
            forall|k: int| 0 <= k < j ==> #[trigger] out@[k] < names@.len(),
        decreases order.len() - j,
    {
        assert(o[j as int] == order@[j as int]);
        let at = chosen[order[j]];
        assert(p[o[j as int]] == at);
        out.push(at);
        j = j + 1;
    }
    assert(index_views(out@) =~= ref_order(nv, internal));
    out
}

/// The refs a caller may see, as their indices in the order of their names.
pub fn visible_refs(names: &Vec<String>) -> (res: Vec<usize>)
    ensures
        index_views(res@) == ref_order(name_views(names@), false),
        forall|i: int| 0 <= i < res@.len() ==> #[trigger] res@[i] < names@.len(),
{
    order_refs(names, false)
}

/// The internal refs, as their indices in the order of their names.
pub fn reserved_refs(names: &Vec<String>) -> (res: Vec<usize>)
    ensures
        index_views(res@) == ref_order(name_views(names@), true),
        forall|i: int| 0 <= i < res@.len() ==> #[trigger] res@[i] < names@.len(),
{
    order_refs(names, true)
}

proof fn lemma_picked(names: Seq<Seq<char>>, internal: bool, n: nat)
    requires
        n <= names.len(),
    ensures
        forall|i: int|
            0 <= i < picked(names, internal, n).len() ==> 0 <= #[trigger] picked(
                names,
                internal,
                n,
            )[i] < n && reserved(names[picked(names, internal, n)[i]]) == internal,
        forall|k: int|
            0 <= k < n && reserved(#[trigger] names[k]) == internal ==> picked(
                names,
                internal,
                n,
            ).contains(k),
    decreases n,
{
    if n > 0 {
        let m = (n - 1) as nat;
        lemma_picked(names, internal, m);
        let before = picked(names, internal, m);
        let now = picked(names, internal, n);
        assert forall|k: int|
            0 <= k < n && reserved(#[trigger] names[k]) == internal implies now.contains(k) by {
            if k < m {
                let w = choose|w: int| 0 <= w < before.len() && before[w] == k;
                assert(before.contains(k));
                assert(now[w] == k);
            } else {
                assert(now[before.len() as int] == k);
            }
        }
    }
}

/// What is listed is a ref of the kind asked for: no internal ref is ever
/// shown to a caller.
pub proof fn law_reserved_refs_are_hidden(names: Seq<Seq<char>>, internal: bool, i: int)
    requires
        0 <= i < ref_order(names, internal).len(),
    ensures
        0 <= ref_order(names, internal)[i] < names.len(),
        reserved(names[ref_order(names, internal)[i]]) == internal,
{
    let chosen = picked(names, internal, names.len());
    let keys = picked_keys(names, chosen);
    lemma_picked(names, internal, names.len());
    lemma_sorted_order(NameOrder::Bytes, keys, keys.len());
    let order = sorted_order(NameOrder::Bytes, keys);
    assert(0 <= order[i] < chosen.len());
}

/// Every ref of the kind asked for is listed.
pub proof fn law_every_ref_is_listed(names: Seq<Seq<char>>, internal: bool, k: int)
    requires
        0 <= k < names.len(),
        reserved(names[k]) == internal,
    ensures
        ref_order(names, internal).contains(k),
{
    let chosen = picked(names, internal, names.len());
    let keys = picked_keys(names, chosen);
    lemma_picked(names, internal, names.len());
    lemma_sorted_order(NameOrder::Bytes, keys, keys.len());
    let order = sorted_order(NameOrder::Bytes, keys);
    assert(chosen.contains(k));
    let w = choose|w: int| 0 <= w < chosen.len() && chosen[w] == k;
    assert(order.contains(w)) by {
        broadcast use vstd::seq_lib::group_to_multiset_ensures;

        assert(order.to_multiset().count(w) == 1);
    }
    let v = choose|v: int| 0 <= v < order.len() && order[v] == w;
    assert(ref_order(names, internal)[v] == k);
}

/// Whether a commit is visible: it is a tip, or some tip descends from it.
pub fn is_visible(target: &ObjectId, tips: &Vec<ObjectId>, descends: &Vec<bool>) -> (res: bool)
    requires
        tips@.len() == descends@.len(),
    ensures
        res == ((exists|i: int| 0 <= i < tips@.len() && (#[trigger] tips@[i])@ == target@) || (exists|
            i: int,
        |
            0 <= i < descends@.len() && #[trigger] descends@[i])),
{
    let mut i: usize = 0;
    while i < tips.len()
        invariant
            i <= tips@.len(),
            tips@.len() == descends@.len(),
            forall|k: int| 0 <= k < i ==> (#[trigger] tips@[k])@ != target@,
            forall|k: int| 0 <= k < i ==> !(#[trigger] descends@[k]),
        decreases tips.len() - i,
    {
        if tips[i].same(target) {
            return true;
        }
        if descends[i] {
            return true;
        }
        i = i + 1;
    }
    false
}

/// What a ref holds.
#[derive(Debug)]
pub enum RefState {
    Missing,
    /// It stands for this object, or for none directly.
    At(Option<ObjectId>),
}

/// What a lease anchor takes.
#[derive(Clone, Copy, PartialEq, Eq, Structural, Debug)]
pub enum AnchorPlan {
    /// It is there already.
    Done,
    Create,
}

/// What a lease anchor takes: making one twice is harmless, moving one is not
/// done.
pub fn create_lease_anchor(anchor_ref: &str, commit: &ObjectId, existing: &RefState) -> (res: Result<
    AnchorPlan,
    GfsError,
>)
    ensures
        if !reserved(anchor_ref@) {
            res matches Err(e) && e.reads(
                ErrorCode::InvalidArgument,
                "a lease anchor must be inside the reserved namespace"@,
            )
        } else {
            match *existing {
                RefState::Missing => res == Ok::<AnchorPlan, GfsError>(AnchorPlan::Create),
                RefState::At(Some(oid)) => if oid@ == commit@ {
                    res == Ok::<AnchorPlan, GfsError>(AnchorPlan::Done)
                } else {
                    anchored_elsewhere(res)
                },
                RefState::At(None) => anchored_elsewhere(res),
            }
        },
{
    if !is_reserved_ref(anchor_ref) {
        return Err(GfsError::invalid("a lease anchor must be inside the reserved namespace"));
    }
    match existing {
        RefState::Missing => return Ok(AnchorPlan::Create),
        RefState::At(Some(oid)) => {
            if oid.same(commit) {
                return Ok(AnchorPlan::Done);
            }
        },
        RefState::At(None) => {},
    }
    Err(
        GfsError::new(
            ErrorCode::Conflict,
            "a lease anchor with that mount id already exists for another commit",
        ),
    )
}

/// The anchor is another commit's.
pub open spec fn anchored_elsewhere(res: Result<AnchorPlan, GfsError>) -> bool {
    res matches Err(e) && e.reads(
        ErrorCode::Conflict,
        "a lease anchor with that mount id already exists for another commit"@,
    )
}

/// Whether a lease anchor may be deleted; one that is missing already is.
pub fn delete_lease_anchor(anchor_ref: &str, present: bool) -> (res: Result<bool, GfsError>)
    ensures
        reserved(anchor_ref@) ==> res == Ok::<bool, GfsError>(present),
        !reserved(anchor_ref@) ==> (res matches Err(e) && e.reads(
            ErrorCode::InvalidArgument,
            "only refs inside the reserved namespace may be deleted through this path"@,
        )),
{
    if !is_reserved_ref(anchor_ref) {
        return Err(
            GfsError::invalid(
                "only refs inside the reserved namespace may be deleted through this path",
            ),
        );
    }
    Ok(present)
}

/// How a work ref is updated.
#[derive(Debug)]
pub enum WorkRefPlan {
    /// Move it, if it is at a commit.
    CompareAndSwap { expected: ObjectId },
    Create,
}

impl WorkRefPlan {
    /// Where the ref is to be for the update to be made.
    pub open spec fn expects(&self) -> Option<ObjectIdView> {
        match *self {
            WorkRefPlan::CompareAndSwap { expected } => Some(expected@),
            WorkRefPlan::Create => None,
        }
    }
}

/// What planning the update of a work ref gives: unpushed work lives in the
/// internal namespace, and a ref that is to be new must not exist.
pub open spec fn work_ref_planned(
    name: Seq<char>,
    expected: Option<ObjectIdView>,
    present: bool,
    res: Result<WorkRefPlan, GfsError>,
) -> bool {
    if !reserved(name) {
        res matches Err(e) && e.reads(
            ErrorCode::InvalidArgument,
            name
                + " is outside the reserved namespace; unpushed work must live there or the next upstream fetch prunes it"@,
        )
    } else if expected is Some {
        res matches Ok(plan) && plan is CompareAndSwap && plan.expects() == expected
    } else if present {
        res matches Err(e) && e.reads(ErrorCode::Conflict, name + " already exists"@)
    } else {
        res matches Ok(plan) && plan is Create
    }
}

/// How a work ref is updated, given whether it is there.
pub fn update_work_ref(name: &str, expected: Option<&ObjectId>, present: bool) -> (res: Result<
    WorkRefPlan,
    GfsError,
>)
    ensures
        work_ref_planned(
            name@,
            match expected {
                Some(oid) => Some(oid@),
                None => None,
            },
            present,
            res,
        ),
{
    if !is_reserved_ref(name) {
        let mut message = name.to_owned();
        message.append(
            " is outside the reserved namespace; unpushed work must live there or the next upstream fetch prunes it",
        );
        return Err(GfsError::of(ErrorCode::InvalidArgument, message));
    }
    if let Some(old_oid) = expected {
        return Ok(WorkRefPlan::CompareAndSwap { expected: old_oid.duplicate() });
    }
    if present {
        let mut message = name.to_owned();
        message.append(" already exists");
        return Err(GfsError::of(ErrorCode::Conflict, message));
    }
    Ok(WorkRefPlan::Create)
}

/// One update of a ref: what its plan expects, and the commit it moves to.
pub struct RefUpdate {
    pub expects: Option<ObjectIdView>,
    pub moves_to: ObjectIdView,
}

/// Where a ref is after the first `n` updates, each made exactly when the ref
/// is where the update expects it.
pub open spec fn ref_after(
    at: Option<ObjectIdView>,
    updates: Seq<RefUpdate>,
    n: nat,
) -> Option<ObjectIdView>
    decreases n,
{
    if n == 0 {
        at
    } else {
        let before = ref_after(at, updates, (n - 1) as nat);
        if before == updates[n - 1].expects {
            Some(updates[n - 1].moves_to)
        } else {
            before
        }
    }
}

/// Whether the `k`-th update was made.
pub open spec fn was_made(at: Option<ObjectIdView>, updates: Seq<RefUpdate>, k: int) -> bool {
    0 <= k < updates.len() && ref_after(at, updates, k as nat) == updates[k].expects
}

/// No update is lost. Where updates are made one at a time, and each exactly
/// when the ref is where its plan expects it, an update that was made stands
/// until one is made that expects it; so of two that expect the same ref and
/// move it elsewhere, the second is not made.
pub proof fn law_no_update_is_lost(
    at: Option<ObjectIdView>,
    updates: Seq<RefUpdate>,
    i: int,
    j: int,
)
    requires
        0 <= i < j <= updates.len(),
        was_made(at, updates, i),
        forall|k: int| i < k < j ==> !#[trigger] was_made(at, updates, k),
    ensures
        ref_after(at, updates, j as nat) == Some(updates[i].moves_to),
        was_made(at, updates, j) ==> updates[j].expects == Some(updates[i].moves_to),
        j < updates.len() && updates[j].expects == updates[i].expects && updates[i].expects != Some(
            updates[i].moves_to,
        ) ==> !was_made(at, updates, j),
    decreases j,
{
    if i + 1 < j {
        law_no_update_is_lost(at, updates, i, j - 1);
        assert(!was_made(at, updates, j - 1));
    }
}

/// What the error of a work ref that could not be moved says: one that is not
/// where it was expected is a conflict.
pub open spec fn not_moved(
    name: Seq<char>,
    failure: GitFailure,
    detail: Seq<char>,
    res: GfsError,
) -> bool {
    match failure {
        GitFailure::NotFound | GitFailure::Modified => res.reads(
            ErrorCode::Conflict,
            name + " moved while this commit was being made; retry"@,
        ),
        _ => res.reads(ErrorCode::Internal, "cannot update "@ + name + ": "@ + detail),
    }
}

/// The error of a work ref that could not be moved.
pub fn work_ref_error(name: &str, failure: GitFailure, detail: &str) -> (res: GfsError)
    ensures
        not_moved(name@, failure, detail@, res),
{
    match failure {
        GitFailure::NotFound | GitFailure::Modified => {
            let mut message = name.to_owned();
            message.append(" moved while this commit was being made; retry");
            GfsError::of(ErrorCode::Conflict, message)
        },
        GitFailure::Ambiguous | GitFailure::Other => {
            let mut message = "cannot update ".to_owned();
            message.append(name);
            message.append(": ");
            message.append(detail);
            GfsError::of(ErrorCode::Internal, message)
        },
    }
}

/// What an update comes to, given how its plan failed, if it did.
pub open spec fn work_ref_done(
    name: Seq<char>,
    plan: WorkRefPlan,
    failed: Option<(GitFailure, String)>,
    res: Result<(), GfsError>,
) -> bool {
    match failed {
        None => res is Ok,
        Some(f) => res matches Err(e) && (match plan {
            WorkRefPlan::CompareAndSwap { .. } => not_moved(name, f.0, f.1@, e),
            WorkRefPlan::Create => e.reads(
                ErrorCode::Internal,
                "cannot create "@ + name + ": "@ + f.1@,
            ),
        }),
    }
}

/// What an update comes to.
pub fn work_ref_updated(name: &str, plan: &WorkRefPlan, failed: Option<(GitFailure, String)>) -> (res:
    Result<(), GfsError>)
    ensures
        work_ref_done(name@, *plan, failed, res),
{
    match failed {
        None => Ok(()),
        Some((failure, detail)) => match plan {
            WorkRefPlan::CompareAndSwap { .. } => Err(
                work_ref_error(name, failure, detail.as_str()),
            ),
            WorkRefPlan::Create => {
                let mut message = "cannot create ".to_owned();
                message.append(name);
                message.append(": ");
                message.append(detail.as_str());
                Err(GfsError::of(ErrorCode::Internal, message))
            },
        },
    }
}

/// Whether a plan was carried out: the ref moves exactly when it is where the
/// plan expects it, and the refusal of one that is elsewhere says so.
pub open spec fn carried_out(
    before: Option<ObjectIdView>,
    plan: WorkRefPlan,
    new: ObjectIdView,
    failed: Option<(GitFailure, String)>,
    after: Option<ObjectIdView>,
) -> bool {
    if before == plan.expects() {
        failed is None && after == Some(new)
    } else {
        after == before && (failed matches Some(f) && (f.0 == GitFailure::NotFound || f.0
            == GitFailure::Modified))
    }
}

/// An update is a compare-and-swap. Where a plan is carried out as it says, an
/// update of a work ref succeeds exactly when the ref is where it is expected
/// (or absent, where it is to be new); then the ref is at the new commit, and
/// otherwise it is where it was and the answer is a conflict.
pub proof fn law_an_update_is_a_compare_and_swap(
    name: Seq<char>,
    before: Option<ObjectIdView>,
    expected: Option<ObjectIdView>,
    new: ObjectIdView,
    planned: Result<WorkRefPlan, GfsError>,
    failed: Option<(GitFailure, String)>,
    after: Option<ObjectIdView>,
    res: Result<(), GfsError>,
)
    requires
        work_ref_planned(name, expected, before is Some, planned),
        match planned {
            Err(e) => after == before && res == Err::<(), GfsError>(e),
            Ok(plan) => carried_out(before, plan, new, failed, after) && work_ref_done(
                name,
                plan,
                failed,
                res,
            ),
        },
    ensures
        !reserved(name) ==> (res matches Err(e) && e.code == ErrorCode::InvalidArgument),
        reserved(name) ==> (res is Ok <==> before == expected),
        reserved(name) && before != expected ==> (res matches Err(e) && e.code
            == ErrorCode::Conflict),
        res is Ok ==> after == Some(new),
        res is Err ==> after == before,
{
}

// ---------------------------------------------------------------------------
// Walking trees
// ---------------------------------------------------------------------------
/// The first entry of a name, from `k` on.
pub open spec fn entry_at(entries: Seq<DecodedEntry>, name: Seq<u8>, k: int) -> Option<DecodedView>
    decreases entries.len() - k,
{
    if k >= entries.len() || k < 0 {
        None
    } else if entries[k]@.name == name {
        Some(entries[k]@)
    } else {
        entry_at(entries, name, k + 1)
    }
}

fn find_entry(entries: &Vec<DecodedEntry>, name: &Vec<u8>) -> (res: Option<DecodedEntry>)
    ensures
        match entry_at(entries@, name@, 0) {
            Some(e) => res matches Some(r) && r@ == e,
            None => res is None,
        },
{
    let mut k: usize = 0;
    while k < entries.len()
        invariant
            k <= entries@.len(),
            entry_at(entries@, name@, 0) == entry_at(entries@, name@, k as int),
        decreases entries.len() - k,
    {
        if bytes_eq(entries[k].name.as_slice(), name.as_slice()) {
            return Some(entries[k].duplicate());
        }
        k = k + 1;
    }
    None
}

/// One step on the way to a path.
#[derive(Debug)]
pub enum Descent {
    /// Nothing is there: a name is missing, or a file stands in the way.
    Absent,
    /// Go on in this tree.
    Into(ObjectId),
    /// The path's own entry.
    Found(DecodedEntry),
}

/// One step on the way to a path: the component at `depth` of `components`,
/// looked up in the tree it stands in.
pub fn descend(components: &Vec<Vec<u8>>, depth: usize, tree: &Vec<DecodedEntry>) -> (res: Descent)
    requires
        depth < components@.len(),
    ensures
        match entry_at(tree@, components@[depth as int]@, 0) {
            None => res is Absent,
            Some(e) => if depth + 1 == components@.len() {
                res matches Descent::Found(f) && f@ == e
            } else if e.mode != DIRECTORY {
                res is Absent
            } else {
                res matches Descent::Into(oid) && oid@ == e.oid
            },
        },
{
    let last = depth == components.len() - 1;
    match find_entry(tree, &components[depth]) {
        None => Descent::Absent,
        Some(e) => if last {
            Descent::Found(e)
        } else if e.mode != DIRECTORY {
            Descent::Absent
        } else {
            Descent::Into(e.oid)
        },
    }
}

/// What listing a path gives.
#[derive(Debug)]
pub enum ListTarget {
    /// The entries of this tree.
    Tree(ObjectId),
    /// Nothing: a submodule is an empty directory.
    Empty,
}

/// What listing a path gives.
pub fn list_directory(entry: Option<DecodedEntry>) -> (res: Result<ListTarget, GfsError>)
    ensures
        match entry {
            None => res matches Err(e) && e.reads(ErrorCode::NotFound, "no such directory"@),
            Some(d) => if d.mode == DIRECTORY {
                res matches Ok(ListTarget::Tree(oid)) && oid@ == d.oid@
            } else if d.mode == GITLINK {
                res matches Ok(ListTarget::Empty)
            } else {
                res matches Err(e) && e.reads(ErrorCode::InvalidArgument, "not a directory"@)
            },
        },
{
    match entry {
        None => Err(GfsError::not_found("no such directory")),
        Some(d) => if d.mode == DIRECTORY {
            Ok(ListTarget::Tree(d.oid))
        } else if d.mode == GITLINK {
            Ok(ListTarget::Empty)
        } else {
            Err(GfsError::invalid("not a directory"))
        },
    }
}

/// Where a recursive walk from a path starts: only a directory has anything
/// under it.
pub fn walk_start(entry: Option<DecodedEntry>) -> (res: Result<ObjectId, GfsError>)
    ensures
        match entry {
            None => res matches Err(e) && e.reads(ErrorCode::NotFound, "no such directory"@),
            Some(d) => if d.mode == DIRECTORY {
                res matches Ok(oid) && oid@ == d.oid@
            } else {
                res matches Err(e) && e.reads(ErrorCode::InvalidArgument, "not a directory"@)
            },
        },
{
    match entry {
        None => Err(GfsError::not_found("no such directory")),
        Some(d) => if d.mode == DIRECTORY {
            Ok(d.oid)
        } else {
            Err(GfsError::invalid("not a directory"))
        },
    }
}

/// What a walk collected: a directory that is not there has no paths.
pub fn walk_paths_collect(walked: Result<Vec<BytePath>, GfsError>) -> (res: Result<
    Vec<BytePath>,
    GfsError,
>)
    ensures
        match walked {
            Ok(paths) => res == Ok::<Vec<BytePath>, GfsError>(paths),
            Err(e) => if e.code == ErrorCode::NotFound {
                res matches Ok(paths) && paths@.len() == 0
            } else {
                res == Err::<Vec<BytePath>, GfsError>(e)
            },
        },
{
    match walked {
        Ok(paths) => Ok(paths),
        Err(e) => if e.code == ErrorCode::NotFound {
            Ok(Vec::new())
        } else {
            Err(e)
        },
    }
}

/// How many entries a page has: at least one, and no more than the bound.
pub fn page_size(limit: usize) -> (res: usize)
    ensures
        res == page_entries(limit),
{
    let bound = limits::MAX_DIRECTORY_PAGE_SIZE as usize;
    if limit < 1 {
        1
    } else if limit > bound {
        bound
    } else {
        limit
    }
}

/// How many entries a page has.
pub open spec fn page_entries(limit: usize) -> int {
    if limit < 1 {
        1
    } else if limit > limits::MAX_DIRECTORY_PAGE_SIZE {
        limits::MAX_DIRECTORY_PAGE_SIZE as int
    } else {
        limit as int
    }
}

/// Where an entry stands in Git's order: a directory's name counts as if it
/// ended in a slash.
pub open spec fn sort_key(name: Seq<u8>, mode: u32) -> Seq<u8> {
    if mode == DIRECTORY {
        name.push(47)
    } else {
        name
    }
}

/// The keys of a tree's entries.
pub open spec fn tree_keys(tree: Seq<DecodedEntry>) -> Seq<Seq<u8>> {
    Seq::new(tree.len(), |i: int| sort_key(tree[i].name@, tree[i].mode))
}

/// Whether keys come in Git's order, each of them once.
pub open spec fn in_tree_order(keys: Seq<Seq<u8>>) -> bool {
    forall|i: int, j: int| 0 <= i < j < keys.len() ==> lex_lt(#[trigger] keys[i], #[trigger] keys[j])
}

/// The first entry from `from` on that comes behind a key.
pub open spec fn first_behind(keys: Seq<Seq<u8>>, key: Seq<u8>, from: nat) -> nat
    decreases keys.len() - from,
{
    if from >= keys.len() {
        keys.len()
    } else if lex_lt(key, keys[from as int]) {
        from
    } else {
        first_behind(keys, key, from + 1)
    }
}

/// Where a page starts.
pub open spec fn page_start(keys: Seq<Seq<u8>>, after: Option<Seq<u8>>) -> nat {
    match after {
        None => 0,
        Some(key) => first_behind(keys, key, 0),
    }
}

/// Where a page that starts at `start` ends.
pub open spec fn page_end(keys: Seq<Seq<u8>>, start: nat, limit: usize) -> nat {
    if keys.len() - start > page_entries(limit) {
        (start + page_entries(limit)) as nat
    } else {
        keys.len()
    }
}

/// A page of a directory: which of its entries, and what the next page starts
/// behind. No next page where there is nothing more.
#[derive(Debug)]
pub struct PageOf {
    pub start: usize,
    pub end: usize,
    pub next: Option<Vec<u8>>,
}

/// One page of a directory. Pages go by the keys that order a tree, not by bare
/// names: a directory may stand far behind a file of a longer name.
pub fn page(tree: &Vec<DecodedEntry>, after: Option<Vec<u8>>, limit: usize) -> (res: PageOf)
    ensures
        ({
            let keys = tree_keys(tree@);
            let start = page_start(keys, crate::entry::opt_bytes(after));
            let end = page_end(keys, start, limit);
            &&& res.start == start
            &&& res.end == end
            &&& start <= end <= tree@.len()
            &&& crate::entry::opt_bytes(res.next) == (if end < tree@.len() {
                Some(keys[end - 1])
            } else {
                None::<Seq<u8>>
            })
        }),
{
    let ghost keys = tree_keys(tree@);
    let mut start: usize = 0;
    match &after {
        None => {},
        Some(key) => {
            while start < tree.len()
                invariant_except_break
                    start <= tree@.len(),
                    keys == tree_keys(tree@),
                    first_behind(keys, key@, 0) == first_behind(keys, key@, start as nat),
                ensures
                    start <= tree@.len(),
                    start == first_behind(keys, key@, 0),
                decreases tree.len() - start,
            {
                let at = key_of(&tree[start]);
                assert(at@ == keys[start as int]);
                if bytes_lt(key.as_slice(), at.as_slice()) {
                    break;
                }
                start = start + 1;
            }
        },
    }
    assert(start == page_start(keys, crate::entry::opt_bytes(after)));
    let count = page_size(limit);
    if tree.len() - start > count {
        let end = start + count;
        let next = key_of(&tree[end - 1]);
        assert(next@ == keys[end - 1]);
        PageOf { start, end, next: Some(next) }
    } else {
        PageOf { start, end: tree.len(), next: None }
    }
}

/// The key an entry is ordered by.
fn key_of(entry: &DecodedEntry) -> (res: Vec<u8>)
    ensures
        res@ == sort_key(entry.name@, entry.mode),
{
    let mut key = entry.name.clone();
    if entry.mode == DIRECTORY {
        key.push(47);
    }
    key
}

/// What a reader has who follows the pages of a directory, each from where the
/// one before says and of its own size.
pub open spec fn followed(keys: Seq<Seq<u8>>, after: Option<Seq<u8>>, sizes: Seq<usize>) -> Seq<
    Seq<u8>,
>
    decreases sizes.len(),
{
    if sizes.len() == 0 {
        Seq::empty()
    } else {
        let start = page_start(keys, after);
        let end = page_end(keys, start, sizes[0]);
        let here = keys.subrange(start as int, end as int);
        if end < keys.len() {
            here + followed(keys, Some(keys[end - 1]), sizes.skip(1))
        } else {
            here
        }
    }
}

proof fn lemma_behind_an_entry(keys: Seq<Seq<u8>>, i: int, from: nat)
    requires
        in_tree_order(keys),
        0 <= i < keys.len(),
        from <= i + 1,
    ensures
        first_behind(keys, keys[i], from) == i + 1,
    decreases keys.len() - from,
{
    if from <= i {
        if from < i {
            lemma_lex_asymmetric(keys[from as int], keys[i]);
        } else {
            lemma_lex_irreflexive(keys[i], 0);
        }
        lemma_behind_an_entry(keys, i, from + 1);
    } else if from < keys.len() {
        assert(lex_lt(keys[i], keys[from as int]));
    }
}

proof fn lemma_followed(keys: Seq<Seq<u8>>, after: Option<Seq<u8>>, sizes: Seq<usize>)
    requires
        in_tree_order(keys),
        page_start(keys, after) <= keys.len(),
        sizes.len() >= keys.len() - page_start(keys, after),
    ensures
        followed(keys, after, sizes) == keys.skip(page_start(keys, after) as int),
    decreases sizes.len(),
{
    let start = page_start(keys, after);
    let rest = keys.skip(start as int);
    if sizes.len() == 0 {
        assert(rest =~= Seq::<Seq<u8>>::empty());
    } else {
        let end = page_end(keys, start, sizes[0]);
        let here = keys.subrange(start as int, end as int);
        if end < keys.len() {
            lemma_behind_an_entry(keys, end - 1, 0);
            lemma_followed(keys, Some(keys[end - 1]), sizes.skip(1));
            assert(here + keys.skip(end as int) =~= rest);
        } else {
            assert(here =~= rest);
        }
    }
}

/// Following the pages of a directory gives every entry exactly once, in
/// order, whatever the size of each page. One page for each entry is enough.
pub proof fn law_pages_give_every_entry_once(tree: Seq<DecodedEntry>, sizes: Seq<usize>)
    requires
        in_tree_order(tree_keys(tree)),
        sizes.len() >= tree.len(),
    ensures
        followed(tree_keys(tree), None, sizes) == tree_keys(tree),
{
    let keys = tree_keys(tree);
    lemma_followed(keys, None, sizes);
    assert(keys.skip(0) =~= keys);
}

/// What an entry's description needs from the object store.
#[derive(Clone, Copy, PartialEq, Eq, Structural, Debug)]
pub enum EntryNeeds {
    /// The blob itself: a symlink's target.
    Target,
    /// The blob's size.
    Size,
    Nothing,
}

/// What an entry's description needs from the object store.
pub fn entry_needs(mode: u32) -> (res: EntryNeeds)
    ensures
        res == (match EntryKind::of_mode(mode) {
            EntryKind::Symlink => EntryNeeds::Target,
            EntryKind::Regular | EntryKind::Executable => EntryNeeds::Size,
            _ => EntryNeeds::Nothing,
        }),
{
    match EntryKind::from_mode(mode) {
        EntryKind::Symlink => EntryNeeds::Target,
        EntryKind::Regular => EntryNeeds::Size,
        EntryKind::Executable => EntryNeeds::Size,
        EntryKind::Directory | EntryKind::Gitlink | EntryKind::Unsupported(_) => EntryNeeds::Nothing,
    }
}

/// An entry's description, with the size or the target that was read.
pub fn entry_info(path: BytePath, decoded: &DecodedEntry, size: u64, target: Option<Vec<u8>>) -> (res:
    TreeEntryInfo)
    ensures
        ({
            let kind = EntryKind::of_mode(decoded.mode);
            res@ == (TreeEntryView {
                path: path@,
                kind,
                mode: decoded.mode,
                oid: decoded.oid@,
                size: match kind {
                    EntryKind::Symlink => match target {
                        Some(t) => t@.len() as u64,
                        None => 0,
                    },
                    EntryKind::Regular | EntryKind::Executable => size,
                    _ => 0,
                },
                symlink_target: if kind == EntryKind::Symlink {
                    crate::entry::opt_bytes(target)
                } else {
                    None
                },
                blob_ticket: None,
            })
        }),
{
    let kind = EntryKind::from_mode(decoded.mode);
    let (size, symlink_target) = match kind {
        EntryKind::Symlink => {
            let n: u64 = match &target {
                Some(t) => t.len() as u64,
                None => 0,
            };
            (n, target)
        },
        EntryKind::Regular => (size, None),
        EntryKind::Executable => (size, None),
        EntryKind::Directory | EntryKind::Gitlink | EntryKind::Unsupported(_) => (0, None),
    };
    TreeEntryInfo {
        path,
        kind,
        mode: decoded.mode,
        oid: decoded.oid.duplicate(),
        size,
        symlink_target,
        blob_ticket: None,
    }
}

/// What a tree walk visits.
#[derive(Debug)]
pub struct Visited {
    pub path: BytePath,
    pub mode: u32,
    pub oid: ObjectId,
}

/// What a [`Visited`] denotes.
#[verifier::ext_equal]
pub struct VisitedView {
    pub path: Seq<u8>,
    pub mode: u32,
    pub oid: ObjectIdView,
}

impl View for Visited {
    type V = VisitedView;

    open spec fn view(&self) -> VisitedView {
        VisitedView { path: self.path@, mode: self.mode, oid: self.oid@ }
    }
}

/// Visits as their meaning.
pub open spec fn visited_views(v: Seq<Visited>) -> Seq<VisitedView> {
    Seq::new(v.len(), |i: int| v[i]@)
}

/// Which entries a walk visits: regular files alone, or everything that is no
/// directory.
#[derive(Clone, Copy, PartialEq, Eq, Structural, Debug)]
pub enum WalkOf {
    Files,
    Paths,
}

/// Whether a walk visits an entry of a mode.
pub open spec fn visits(of: WalkOf, mode: u32) -> bool {
    match of {
        WalkOf::Files => mode == REGULAR || mode == EXECUTABLE,
        WalkOf::Paths => mode != DIRECTORY,
    }
}

/// What the first `n` entries of a tree give a walk to visit.
pub open spec fn visits_of(
    of: WalkOf,
    prefix: Seq<u8>,
    entries: Seq<DecodedEntry>,
    n: nat,
) -> Seq<VisitedView>
    decreases n,
{
    if n == 0 {
        Seq::empty()
    } else {
        let before = visits_of(of, prefix, entries, (n - 1) as nat);
        let e = entries[n - 1]@;
        if visits(of, e.mode) {
            before.push(VisitedView { path: joined(prefix, e.name), mode: e.mode, oid: e.oid })
        } else {
            before
        }
    }
}

/// The subtrees of a tree's entries from `k` on, the last one first.
pub open spec fn subtrees_of(prefix: Seq<u8>, entries: Seq<DecodedEntry>, k: int) -> Seq<
    (ObjectIdView, Seq<u8>),
>
    decreases entries.len() - k,
{
    if k >= entries.len() || k < 0 {
        Seq::empty()
    } else {
        let rest = subtrees_of(prefix, entries, k + 1);
        let e = entries[k]@;
        if e.mode == DIRECTORY {
            rest.push((e.oid, joined(prefix, e.name)))
        } else {
            rest
        }
    }
}

/// A depth-first walk over a tree.
#[derive(Debug)]
pub struct TreeWalk {
    of: WalkOf,
    stack: Vec<(ObjectId, BytePath)>,
}

/// The trees a walk has still to read, the next one last.
pub open spec fn stack_views(stack: Seq<(ObjectId, BytePath)>) -> Seq<(ObjectIdView, Seq<u8>)> {
    Seq::new(stack.len(), |i: int| (stack[i].0@, stack[i].1@))
}

impl TreeWalk {
    /// The trees still to read, the next one last.
    pub closed spec fn view(&self) -> Seq<(ObjectIdView, Seq<u8>)> {
        stack_views(self.stack@)
    }

    /// What the walk visits.
    pub closed spec fn kind(&self) -> WalkOf {
        self.of
    }

    /// A walk from a tree that stands at a path.
    pub fn new(of: WalkOf, tree: ObjectId, root: BytePath) -> (res: TreeWalk)
        ensures
            res@ == seq![(tree@, root@)],
            res.kind() == of,
    {
        let mut stack: Vec<(ObjectId, BytePath)> = Vec::new();
        stack.push((tree, root));
        let res = TreeWalk { of, stack };
        assert(res@ =~= seq![(tree@, root@)]);
        res
    }

    /// The next tree to read; none when the walk is over.
    pub fn next(&mut self) -> (res: Option<(ObjectId, BytePath)>)
        ensures
            final(self).kind() == old(self).kind(),
            match res {
                None => old(self)@.len() == 0 && final(self)@ == old(self)@,
                Some(t) => old(self)@.len() > 0 && (t.0@, t.1@) == old(self)@.last()
                    && final(self)@ == old(self)@.drop_last(),
            },
    {
        let ghost s = self@;
        match self.stack.pop() {
            None => None,
            Some(t) => {
                assert(self@ =~= s.drop_last());
                Some(t)
            },
        }
    }

    /// Take the entries of a tree: what is to be visited comes back in order,
    /// and the subtrees are read next, the first one first.
    pub fn accept(&mut self, prefix: &BytePath, entries: &Vec<DecodedEntry>) -> (res: Vec<Visited>)
        ensures
            final(self).kind() == old(self).kind(),
            visited_views(res@) == visits_of(
                old(self).kind(),
                prefix@,
                entries@,
                entries@.len(),
            ),
            final(self)@ == old(self)@ + subtrees_of(prefix@, entries@, 0),
    {
        let mut out: Vec<Visited> = Vec::new();
        let mut i: usize = 0;
        assert(visited_views(out@) =~= visits_of(self.of, prefix@, entries@, 0));
        while i < entries.len()
            invariant
                i <= entries@.len(),
                *self == *old(self),
                visited_views(out@) == visits_of(self.of, prefix@, entries@, i as nat),
            decreases entries.len() - i,
        {
            let e = &entries[i];
            let hit = match self.of {
                WalkOf::Files => e.mode == REGULAR || e.mode == EXECUTABLE,
                WalkOf::Paths => e.mode != DIRECTORY,
            };
            if hit {
                let ghost before = out@;
                let v = Visited {
                    path: prefix.join(e.name.as_slice()),
                    mode: e.mode,
                    oid: e.oid.duplicate(),
                };
                out.push(v);
                assert(visited_views(out@) =~= visited_views(before).push(v@));
            }
            i = i + 1;
        }
        let ghost s = self@;
        let mut k: usize = entries.len();
        assert(self@ =~= s + subtrees_of(prefix@, entries@, k as int));
        while k > 0
            invariant
                k <= entries@.len(),
                self.of == old(self).of,
                self@ == s + subtrees_of(prefix@, entries@, k as int),
            decreases k,
        {
            let e = &entries[k - 1];
            if e.mode == DIRECTORY {
                let ghost before = self.stack@;
                self.stack.push((e.oid.duplicate(), prefix.join(e.name.as_slice())));
                assert(self@ =~= stack_views(before).push((e.oid@, joined(prefix@, e.name@))));
            }
            assert(self@ =~= s + subtrees_of(prefix@, entries@, k - 1));
            k = k - 1;
        }
        out
    }
}

/// A walk goes on with the first subtree of the tree it just read.
pub proof fn law_the_first_subtree_is_next(prefix: Seq<u8>, entries: Seq<DecodedEntry>, k: int)
    requires
        0 <= k < entries.len(),
        entries[k]@.mode == DIRECTORY,
        forall|j: int| 0 <= j < k ==> (#[trigger] entries[j])@.mode != DIRECTORY,
    ensures
        subtrees_of(prefix, entries, 0).len() > 0,
        subtrees_of(prefix, entries, 0).last() == (
            entries[k]@.oid,
            joined(prefix, entries[k]@.name),
        ),
{
    lemma_skip_files(prefix, entries, 0, k);
}

proof fn lemma_skip_files(prefix: Seq<u8>, entries: Seq<DecodedEntry>, a: int, k: int)
    requires
        0 <= a <= k < entries.len(),
        forall|j: int| a <= j < k ==> (#[trigger] entries[j])@.mode != DIRECTORY,
    ensures
        subtrees_of(prefix, entries, a) == subtrees_of(prefix, entries, k),
    decreases k - a,
{
    if a < k {
        lemma_skip_files(prefix, entries, a + 1, k);
    }
}

proof fn lemma_visits_of(of: WalkOf, prefix: Seq<u8>, entries: Seq<DecodedEntry>, n: nat)
    requires
        n <= entries.len(),
    ensures
        forall|i: int|
            0 <= i < visits_of(of, prefix, entries, n).len() ==> visits(
                of,
                (#[trigger] visits_of(of, prefix, entries, n)[i]).mode,
            ),
        forall|k: int|
            0 <= k < n && visits(of, (#[trigger] entries[k])@.mode) ==> visits_of(
                of,
                prefix,
                entries,
                n,
            ).contains(
                VisitedView {
                    path: joined(prefix, entries[k]@.name),
                    mode: entries[k]@.mode,
                    oid: entries[k]@.oid,
                },
            ),
        forall|i: int|
            0 <= i < visits_of(of, prefix, entries, n).len() ==> exists|k: int|
                0 <= k < n && (#[trigger] visits_of(of, prefix, entries, n)[i]) == (VisitedView {
                    path: joined(prefix, (#[trigger] entries[k])@.name),
                    mode: entries[k]@.mode,
                    oid: entries[k]@.oid,
                }),
    decreases n,
{
    if n > 0 {
        let m = (n - 1) as nat;
        lemma_visits_of(of, prefix, entries, m);
        let before = visits_of(of, prefix, entries, m);
        let now = visits_of(of, prefix, entries, n);
        assert forall|k: int|
            0 <= k < n && visits(of, (#[trigger] entries[k])@.mode) implies now.contains(
            VisitedView {
                path: joined(prefix, entries[k]@.name),
                mode: entries[k]@.mode,
                oid: entries[k]@.oid,
            },
        ) by {
            let v = VisitedView {
                path: joined(prefix, entries[k]@.name),
                mode: entries[k]@.mode,
                oid: entries[k]@.oid,
            };
            if k < m {
                assert(before.contains(v));
                let w = choose|w: int| 0 <= w < before.len() && before[w] == v;
                assert(now[w] == v);
            } else {
                assert(now[before.len() as int] == v);
            }
        }
        assert forall|i: int| 0 <= i < now.len() implies exists|k: int|
            0 <= k < n && (#[trigger] now[i]) == (VisitedView {
                path: joined(prefix, (#[trigger] entries[k])@.name),
                mode: entries[k]@.mode,
                oid: entries[k]@.oid,
            }) by {
            if i < before.len() {
                assert(now[i] == before[i]);
                let k = choose|k: int|
                    0 <= k < m && before[i] == (VisitedView {
                        path: joined(prefix, (#[trigger] entries[k])@.name),
                        mode: entries[k]@.mode,
                        oid: entries[k]@.oid,
                    });
                assert(entries[k]@.mode == now[i].mode);
            } else {
                assert(entries[m as int]@.mode == now[i].mode);
            }
        }
    }
}

/// A walk over paths visits whatever a walk over files visits, and neither
/// ever visits a directory.
pub proof fn law_the_path_walk_covers_the_file_walk(
    prefix: Seq<u8>,
    entries: Seq<DecodedEntry>,
    i: int,
)
    requires
        0 <= i < visits_of(WalkOf::Files, prefix, entries, entries.len()).len(),
    ensures
        visits_of(WalkOf::Paths, prefix, entries, entries.len()).contains(
            visits_of(WalkOf::Files, prefix, entries, entries.len())[i],
        ),
        forall|j: int|
            0 <= j < visits_of(WalkOf::Paths, prefix, entries, entries.len()).len() ==> (
            #[trigger] visits_of(WalkOf::Paths, prefix, entries, entries.len())[j]).mode
                != DIRECTORY,
{
    let n = entries.len();
    lemma_visits_of(WalkOf::Files, prefix, entries, n);
    lemma_visits_of(WalkOf::Paths, prefix, entries, n);
    let found = visits_of(WalkOf::Files, prefix, entries, n)[i];
    let k = choose|k: int|
        0 <= k < n && found == (VisitedView {
            path: joined(prefix, (#[trigger] entries[k])@.name),
            mode: entries[k]@.mode,
            oid: entries[k]@.oid,
        });
    assert(visits(WalkOf::Paths, entries[k]@.mode));
}

/// What a walk visits that reads trees until none is left or `n` were read:
/// the next tree is taken, its entries are visited, and its subtrees follow.
pub open spec fn walked(
    trees: Map<ObjectIdView, Seq<DecodedEntry>>,
    of: WalkOf,
    stack: Seq<(ObjectIdView, Seq<u8>)>,
    n: nat,
) -> Seq<VisitedView>
    decreases n,
{
    if n == 0 || stack.len() == 0 {
        Seq::empty()
    } else {
        let (oid, prefix) = stack.last();
        let entries = trees[oid];
        visits_of(of, prefix, entries, entries.len()) + walked(
            trees,
            of,
            stack.drop_last() + subtrees_of(prefix, entries, 0),
            (n - 1) as nat,
        )
    }
}

/// Whether a tree holds trees no deeper than `depth`, itself included.
pub open spec fn within_depth(
    trees: Map<ObjectIdView, Seq<DecodedEntry>>,
    oid: ObjectIdView,
    depth: nat,
) -> bool
    decreases depth,
{
    depth > 0 && forall|k: int|
        0 <= k < trees[oid].len() && (#[trigger] trees[oid][k])@.mode == DIRECTORY ==> within_depth(
            trees,
            trees[oid][k]@.oid,
            (depth - 1) as nat,
        )
}

/// What is under a tree: its own entries, then what is under each of its
/// subtrees, in order.
pub open spec fn under(
    trees: Map<ObjectIdView, Seq<DecodedEntry>>,
    of: WalkOf,
    oid: ObjectIdView,
    prefix: Seq<u8>,
    depth: nat,
) -> Seq<VisitedView>
    decreases depth, trees[oid].len() + 1,
{
    if depth == 0 {
        Seq::empty()
    } else {
        visits_of(of, prefix, trees[oid], trees[oid].len()) + under_subtrees(
            trees,
            of,
            oid,
            prefix,
            0,
            depth,
        )
    }
}

/// What is under the subtrees of a tree's entries from `k` on.
pub open spec fn under_subtrees(
    trees: Map<ObjectIdView, Seq<DecodedEntry>>,
    of: WalkOf,
    oid: ObjectIdView,
    prefix: Seq<u8>,
    k: nat,
    depth: nat,
) -> Seq<VisitedView>
    decreases depth, trees[oid].len() - k,
{
    if depth == 0 || k >= trees[oid].len() {
        Seq::empty()
    } else {
        let e = trees[oid][k as int]@;
        (if e.mode == DIRECTORY {
            under(trees, of, e.oid, joined(prefix, e.name), (depth - 1) as nat)
        } else {
            Seq::empty()
        }) + under_subtrees(trees, of, oid, prefix, k + 1, depth)
    }
}

/// How many trees there are under a tree, itself included.
pub open spec fn trees_under(
    trees: Map<ObjectIdView, Seq<DecodedEntry>>,
    oid: ObjectIdView,
    depth: nat,
) -> nat
    decreases depth, trees[oid].len() + 1,
{
    if depth == 0 {
        0
    } else {
        1 + trees_under_subtrees(trees, oid, 0, depth)
    }
}

/// How many trees there are under the subtrees of a tree's entries from `k` on.
pub open spec fn trees_under_subtrees(
    trees: Map<ObjectIdView, Seq<DecodedEntry>>,
    oid: ObjectIdView,
    k: nat,
    depth: nat,
) -> nat
    decreases depth, trees[oid].len() - k,
{
    if depth == 0 || k >= trees[oid].len() {
        0
    } else {
        let e = trees[oid][k as int]@;
        (if e.mode == DIRECTORY {
            trees_under(trees, e.oid, (depth - 1) as nat)
        } else {
            0
        }) + trees_under_subtrees(trees, oid, k + 1, depth)
    }
}

proof fn lemma_walks_one_tree(
    trees: Map<ObjectIdView, Seq<DecodedEntry>>,
    of: WalkOf,
    stack: Seq<(ObjectIdView, Seq<u8>)>,
    oid: ObjectIdView,
    prefix: Seq<u8>,
    depth: nat,
    n: nat,
)
    requires
        within_depth(trees, oid, depth),
    ensures
        walked(trees, of, stack.push((oid, prefix)), trees_under(trees, oid, depth) + n) == under(
            trees,
            of,
            oid,
            prefix,
            depth,
        ) + walked(trees, of, stack, n),
    decreases depth, trees[oid].len() + 1,
{
    let all = stack.push((oid, prefix));
    assert(all.drop_last() =~= stack);
    lemma_walks_the_subtrees(trees, of, stack, oid, prefix, 0, depth, n);
    let here = visits_of(of, prefix, trees[oid], trees[oid].len());
    let below = under_subtrees(trees, of, oid, prefix, 0, depth);
    lemma_concat_assoc(here, below, walked(trees, of, stack, n));
}

proof fn lemma_walks_the_subtrees(
    trees: Map<ObjectIdView, Seq<DecodedEntry>>,
    of: WalkOf,
    stack: Seq<(ObjectIdView, Seq<u8>)>,
    oid: ObjectIdView,
    prefix: Seq<u8>,
    k: nat,
    depth: nat,
    n: nat,
)
    requires
        within_depth(trees, oid, depth),
    ensures
        walked(
            trees,
            of,
            stack + subtrees_of(prefix, trees[oid], k as int),
            trees_under_subtrees(trees, oid, k, depth) + n,
        ) == under_subtrees(trees, of, oid, prefix, k, depth) + walked(trees, of, stack, n),
    decreases depth, trees[oid].len() - k,
{
    let entries = trees[oid];
    let rest = walked(trees, of, stack, n);
    if k >= entries.len() {
        assert(stack + subtrees_of(prefix, entries, k as int) =~= stack);
        assert(Seq::<VisitedView>::empty() + rest =~= rest);
    } else {
        let e = entries[k as int]@;
        let after = stack + subtrees_of(prefix, entries, k as int + 1);
        let more = trees_under_subtrees(trees, oid, k + 1, depth) + n;
        let others = under_subtrees(trees, of, oid, prefix, k + 1, depth);
        lemma_walks_the_subtrees(trees, of, stack, oid, prefix, k + 1, depth, n);
        if e.mode == DIRECTORY {
            let path = joined(prefix, e.name);
            let d = (depth - 1) as nat;
            assert(within_depth(trees, e.oid, d));
            assert(stack + subtrees_of(prefix, entries, k as int) =~= after.push((e.oid, path)));
            lemma_walks_one_tree(trees, of, after, e.oid, path, d, more);
            lemma_concat_assoc(under(trees, of, e.oid, path, d), others, rest);
        } else {
            assert(stack + subtrees_of(prefix, entries, k as int) =~= after);
            assert(Seq::<VisitedView>::empty() + others =~= others);
        }
    }
}

/// A whole walk reads every tree under its root once, and visits what is under
/// the root: each tree's own entries in order, then those of its subtrees.
pub proof fn law_a_walk_visits_what_is_under_its_root(
    trees: Map<ObjectIdView, Seq<DecodedEntry>>,
    of: WalkOf,
    root: ObjectIdView,
    prefix: Seq<u8>,
    depth: nat,
    n: nat,
)
    requires
        within_depth(trees, root, depth),
        n >= trees_under(trees, root, depth),
    ensures
        walked(trees, of, seq![(root, prefix)], n) == under(trees, of, root, prefix, depth),
{
    let empty = Seq::<(ObjectIdView, Seq<u8>)>::empty();
    let left = (n - trees_under(trees, root, depth)) as nat;
    assert(empty.push((root, prefix)) =~= seq![(root, prefix)]);
    lemma_walks_one_tree(trees, of, empty, root, prefix, depth, left);
    let all = under(trees, of, root, prefix, depth);
    assert(walked(trees, of, empty, left) =~= Seq::<VisitedView>::empty());
    assert(all + Seq::<VisitedView>::empty() =~= all);
}

// ---------------------------------------------------------------------------
// History and diffs
// ---------------------------------------------------------------------------
/// A page of a revision walk.
#[derive(Clone, Copy, PartialEq, Eq, Structural, Debug)]
pub struct LogWindow {
    pub skip: usize,
    pub limit: usize,
    pub seen: usize,
    pub taken: usize,
}

/// What is done with the next revision of a walk.
#[derive(Clone, Copy, PartialEq, Eq, Structural, Debug)]
pub enum LogStep {
    Skip,
    Take,
    /// The page is full, and there is more.
    Stop,
}

impl LogWindow {
    /// A page of `limit` revisions after `skip`.
    pub fn new(skip: usize, limit: usize) -> (res: LogWindow)
        ensures
            res == (LogWindow { skip, limit, seen: 0, taken: 0 }),
    {
        LogWindow { skip, limit, seen: 0, taken: 0 }
    }

    /// What is done with the next revision.
    pub fn step(&mut self) -> (res: LogStep)
        requires
            old(self).taken <= old(self).limit,
        ensures
            if old(self).seen < old(self).skip {
                res == LogStep::Skip && *final(self) == (LogWindow {
                    seen: (old(self).seen + 1) as usize,
                    ..*old(self)
                })
            } else if old(self).taken == old(self).limit {
                res == LogStep::Stop && *final(self) == *old(self)
            } else {
                res == LogStep::Take && *final(self) == (LogWindow {
                    taken: (old(self).taken + 1) as usize,
                    ..*old(self)
                })
            },
            final(self).taken <= final(self).limit,
    {
        if self.seen < self.skip {
            self.seen = self.seen + 1;
            return LogStep::Skip;
        }
        if self.taken == self.limit {
            return LogStep::Stop;
        }
        self.taken = self.taken + 1;
        LogStep::Take
    }
}

/// A page after `n` revisions were offered to it, and whether it stopped.
pub open spec fn after_revisions(skip: usize, limit: usize, n: nat) -> (LogWindow, bool)
    decreases n,
{
    if n == 0 {
        (LogWindow { skip, limit, seen: 0, taken: 0 }, false)
    } else {
        let (w, stopped) = after_revisions(skip, limit, (n - 1) as nat);
        if stopped {
            (w, true)
        } else if w.seen < w.skip {
            (LogWindow { seen: (w.seen + 1) as usize, ..w }, false)
        } else if w.taken == w.limit {
            (w, true)
        } else {
            (LogWindow { taken: (w.taken + 1) as usize, ..w }, false)
        }
    }
}

/// A page has what is left of the history after the skipped revisions, up to
/// its limit, and says that there is more exactly when there is.
pub proof fn law_a_page_says_whether_more_remains(skip: usize, limit: usize, n: nat)
    ensures
        ({
            let (w, more) = after_revisions(skip, limit, n);
            &&& more == (n > skip + limit)
            &&& w.taken == (if n <= skip {
                0
            } else if n - skip <= limit {
                n - skip
            } else {
                limit as int
            })
            &&& w.seen == (if n <= skip {
                n as int
            } else {
                skip as int
            })
            &&& w.skip == skip
            &&& w.limit == limit
        }),
    decreases n,
{
    if n > 0 {
        law_a_page_says_whether_more_remains(skip, limit, (n - 1) as nat);
    }
}

/// What stands at a path of a tree: its mode and its object, if anything.
pub open spec fn stands(entry: Option<DecodedEntry>) -> Option<(u32, ObjectIdView)> {
    match entry {
        Some(e) => Some((e.mode, e.oid@)),
        None => None,
    }
}

/// Whether a log of some paths has a commit, given what stands at each of them
/// in the commit's first parent and in the commit. A log of no paths has every
/// commit; another has those that changed one of its paths.
pub fn touches(before: &Vec<Option<DecodedEntry>>, after: &Vec<Option<DecodedEntry>>) -> (res: bool)
    requires
        before@.len() == after@.len(),
    ensures
        res == (before@.len() == 0 || exists|i: int|
            0 <= i < before@.len() && stands(#[trigger] before@[i]) != stands(after@[i])),
{
    if before.len() == 0 {
        return true;
    }
    let mut i: usize = 0;
    while i < before.len()
        invariant
            i <= before@.len(),
            before@.len() == after@.len(),
            forall|j: int| 0 <= j < i ==> stands(#[trigger] before@[j]) == stands(after@[j]),
        decreases before@.len() - i,
    {
        let same = match (&before[i], &after[i]) {
            (Some(a), Some(b)) => a.mode == b.mode && a.oid.same(&b.oid),
            (None, None) => true,
            (_, _) => false,
        };
        if !same {
            assert(stands(before@[i as int]) != stands(after@[i as int]));
            return true;
        }
        i = i + 1;
    }
    false
}

/// One side of a changed path.
#[derive(Debug)]
pub struct DeltaSide {
    pub path: Option<BytePath>,
    pub mode: u32,
    pub oid: ObjectId,
    pub size: u64,
    pub present: bool,
}

/// A changed path between two commits.
#[derive(Debug)]
pub enum TreeDelta {
    Removed { path: BytePath },
    Upserted { path: BytePath, mode: u32, oid: ObjectId, size: u64 },
}

impl TreeDelta {
    pub fn path(&self) -> (res: &BytePath)
        ensures
            res@ == delta_path(*self),
    {
        match self {
            TreeDelta::Removed { path } => path,
            TreeDelta::Upserted { path, .. } => path,
        }
    }
}

/// Whether a side is a file whose content can be searched.
pub open spec fn searchable(s: DeltaSide) -> bool {
    s.present && (s.mode == REGULAR || s.mode == EXECUTABLE)
}

/// What a changed path is to an index of searchable files: there with its new
/// content, or gone, or nothing.
pub open spec fn delta_outcome(
    old_side: DeltaSide,
    new_side: DeltaSide,
    res: Option<TreeDelta>,
) -> bool {
    if searchable(new_side) {
        match new_side.path {
            Some(p) => res matches Some(TreeDelta::Upserted { path, mode, oid, size }) && path@
                == p@ && mode == new_side.mode && oid@ == new_side.oid@ && size == new_side.size,
            None => res is None,
        }
    } else if searchable(old_side) {
        match old_side.path {
            Some(p) => res matches Some(TreeDelta::Removed { path }) && path@ == p@,
            None => res is None,
        }
    } else {
        res is None
    }
}

/// What a changed path is to an index of searchable files.
pub fn diff_commits(old_side: DeltaSide, new_side: DeltaSide) -> (res: Option<TreeDelta>)
    ensures
        delta_outcome(old_side, new_side, res),
{
    let now = new_side.present && (new_side.mode == REGULAR || new_side.mode == EXECUTABLE);
    if now {
        return match new_side.path {
            Some(path) => Some(
                TreeDelta::Upserted {
                    path,
                    mode: new_side.mode,
                    oid: new_side.oid,
                    size: new_side.size,
                },
            ),
            None => None,
        };
    }
    let before = old_side.present && (old_side.mode == REGULAR || old_side.mode == EXECUTABLE);
    if before {
        return match old_side.path {
            Some(path) => Some(TreeDelta::Removed { path }),
            None => None,
        };
    }
    None
}

/// The searchable files of a commit: mode, object and size by path.
pub type FileSet = Map<Seq<u8>, (u32, ObjectIdView, u64)>;

/// The path of a delta.
pub open spec fn delta_path(delta: TreeDelta) -> Seq<u8> {
    match delta {
        TreeDelta::Removed { path } => path@,
        TreeDelta::Upserted { path, .. } => path@,
    }
}

/// Files after one change of the searchable ones.
pub open spec fn changed(files: FileSet, delta: Option<TreeDelta>) -> FileSet {
    match delta {
        None => files,
        Some(TreeDelta::Removed { path }) => files.remove(path@),
        Some(TreeDelta::Upserted { path, mode, oid, size }) => files.insert(
            path@,
            (mode, oid@, size),
        ),
    }
}

/// Files after the first `n` changes.
pub open spec fn all_changed(files: FileSet, deltas: Seq<Option<TreeDelta>>, n: nat) -> FileSet
    decreases n,
{
    if n == 0 {
        files
    } else {
        changed(all_changed(files, deltas, (n - 1) as nat), deltas[n - 1])
    }
}

/// Whether a side says that files hold something at a path, and no more.
pub open spec fn side_names(side: DeltaSide, path: Seq<u8>, files: FileSet) -> bool {
    &&& searchable(side) <==> files.contains_key(path)
    &&& searchable(side) ==> (side.path matches Some(p) && p@ == path)
}

/// Whether a side says what files hold at a path.
pub open spec fn side_reads(side: DeltaSide, path: Seq<u8>, files: FileSet) -> bool {
    &&& side_names(side, path, files)
    &&& searchable(side) ==> files[path] == (side.mode, side.oid@, side.size)
}

proof fn lemma_changed_so_far(
    old_files: FileSet,
    new_files: FileSet,
    paths: Seq<Seq<u8>>,
    sides: Seq<(DeltaSide, DeltaSide)>,
    deltas: Seq<Option<TreeDelta>>,
    n: nat,
    p: Seq<u8>,
)
    requires
        n <= paths.len() == sides.len() == deltas.len(),
        forall|i: int|
            0 <= i < paths.len() ==> {
                &&& side_names((#[trigger] sides[i]).0, paths[i], old_files)
                &&& side_reads(sides[i].1, paths[i], new_files)
                &&& delta_outcome(sides[i].0, sides[i].1, deltas[i])
            },
    ensures
        ({
            let now = all_changed(old_files, deltas, n);
            let then_ = if exists|i: int| 0 <= i < n && #[trigger] paths[i] == p {
                new_files
            } else {
                old_files
            };
            &&& now.contains_key(p) == then_.contains_key(p)
            &&& now.contains_key(p) ==> now[p] == then_[p]
        }),
    decreases n,
{
    if n > 0 {
        let m = (n - 1) as nat;
        lemma_changed_so_far(old_files, new_files, paths, sides, deltas, m, p);
        assert(side_names(sides[m as int].0, paths[m as int], old_files));
        if paths[m as int] == p {
            assert(exists|i: int| 0 <= i < n && #[trigger] paths[i] == p);
        } else {
            if exists|i: int| 0 <= i < n && #[trigger] paths[i] == p {
                let i = choose|i: int| 0 <= i < n && #[trigger] paths[i] == p;
                assert(i < m);
            }
        }
    }
}

/// A diff leads from one commit to the other: where every path at which their
/// searchable files differ is among the changes, and each change says whether
/// the first commit has a file at its path and what the other has there,
/// applying what the changes come to gives the other commit's files.
pub proof fn law_a_diff_leads_to_the_other_commit(
    old_files: FileSet,
    new_files: FileSet,
    paths: Seq<Seq<u8>>,
    sides: Seq<(DeltaSide, DeltaSide)>,
    deltas: Seq<Option<TreeDelta>>,
)
    requires
        paths.len() == sides.len() == deltas.len(),
        forall|i: int|
            0 <= i < paths.len() ==> {
                &&& side_names((#[trigger] sides[i]).0, paths[i], old_files)
                &&& side_reads(sides[i].1, paths[i], new_files)
                &&& delta_outcome(sides[i].0, sides[i].1, deltas[i])
            },
        forall|p: Seq<u8>|
            !(exists|i: int| 0 <= i < paths.len() && #[trigger] paths[i] == p) ==> {
                &&& #[trigger] old_files.contains_key(p) == new_files.contains_key(p)
                &&& old_files.contains_key(p) ==> old_files[p] == new_files[p]
            },
    ensures
        all_changed(old_files, deltas, deltas.len()) == new_files,
{
    let now = all_changed(old_files, deltas, deltas.len());
    assert forall|p: Seq<u8>|
        #![trigger now.dom().contains(p)]
        #![trigger new_files.dom().contains(p)]
        now.dom().contains(p) == new_files.dom().contains(p) && (now.dom().contains(p) ==> now[p]
            == new_files[p]) by {
        lemma_changed_so_far(old_files, new_files, paths, sides, deltas, deltas.len(), p);
        assert(old_files.contains_key(p) == old_files.dom().contains(p));
    }
    assert(now.dom() =~= new_files.dom());
    assert(now =~= new_files);
}

/// A diff names each changed path once and no other. Where the changes are of
/// different paths, each one at which the searchable files or something else
/// differs, no path stands in two deltas and none at which the files agree
/// stands in any; so a commit has no diff to itself.
pub proof fn law_a_diff_names_each_changed_path_once(
    old_files: FileSet,
    new_files: FileSet,
    paths: Seq<Seq<u8>>,
    sides: Seq<(DeltaSide, DeltaSide)>,
    deltas: Seq<Option<TreeDelta>>,
)
    requires
        paths.len() == sides.len() == deltas.len(),
        paths.no_duplicates(),
        forall|i: int|
            0 <= i < paths.len() ==> {
                &&& side_names((#[trigger] sides[i]).0, paths[i], old_files)
                &&& side_reads(sides[i].1, paths[i], new_files)
                &&& delta_outcome(sides[i].0, sides[i].1, deltas[i])
                &&& !(old_files.contains_key(paths[i]) && new_files.contains_key(paths[i])
                    && old_files[paths[i]] == new_files[paths[i]])
            },
    ensures
        forall|i: int|
            0 <= i < deltas.len() && (#[trigger] deltas[i]) is Some ==> {
                &&& delta_path(deltas[i]->0) == paths[i]
                &&& old_files.contains_key(paths[i]) != new_files.contains_key(paths[i])
                    || old_files[paths[i]] != new_files[paths[i]]
            },
        forall|i: int, j: int|
            0 <= i < j < deltas.len() && (#[trigger] deltas[i]) is Some && (#[trigger] deltas[j])
                is Some ==> delta_path(deltas[i]->0) != delta_path(deltas[j]->0),
        old_files == new_files ==> forall|i: int|
            0 <= i < deltas.len() ==> (#[trigger] deltas[i]) is None,
{
    assert forall|i: int| 0 <= i < deltas.len() && (#[trigger] deltas[i]) is Some implies {
        &&& delta_path(deltas[i]->0) == paths[i]
        &&& old_files.contains_key(paths[i]) != new_files.contains_key(paths[i])
            || old_files[paths[i]] != new_files[paths[i]]
    } by {
        assert(side_names(sides[i].0, paths[i], old_files));
    }
}

// ---------------------------------------------------------------------------
// Blobs
// ---------------------------------------------------------------------------
/// The object name libgit2 gives a blob's content, or what it says when it
/// cannot.
pub uninterp spec fn git_blob_of(content: Seq<u8>) -> Result<Seq<u8>, Seq<char>>;

/// A digest or a message as its meaning.
pub open spec fn hash_view(r: Result<Vec<u8>, String>) -> Result<Seq<u8>, Seq<char>> {
    match r {
        Ok(d) => Ok(d@),
        Err(m) => Err(m@),
    }
}

/// Calls `git2::Oid::hash_object` for a blob. Claims that the result is a
/// function of the content, and that a digest is the SHA-1 Git names the blob
/// by.
#[verifier::external_body]
fn git_blob_hash(content: &[u8]) -> (res: Result<Vec<u8>, String>)
    ensures
        hash_view(res) == git_blob_of(content@),
        res matches Ok(digest) ==> digest@ == blob_digest(content@),
{
    match git2::Oid::hash_object(git2::ObjectType::Blob, content) {
        Ok(oid) => Ok(oid.as_bytes().to_vec()),
        Err(e) => Err(e.message().to_string()),
    }
}

/// Whether a blob is small enough to be read.
pub fn check_blob_size(size: u64) -> (res: Result<(), GfsError>)
    ensures
        size <= limits::MAX_BLOB_BYTES ==> res is Ok,
        size > limits::MAX_BLOB_BYTES ==> (res matches Err(e) && e.reads(
            ErrorCode::ResourceLimit,
            "blob is larger than the "@ + decimal(limits::MAX_BLOB_BYTES as nat) + " byte limit"@,
        )),
{
    if size > limits::MAX_BLOB_BYTES {
        let mut message = "blob is larger than the ".to_owned();
        push_decimal(&mut message, limits::MAX_BLOB_BYTES);
        message.append(" byte limit");
        return Err(GfsError::of(ErrorCode::ResourceLimit, message));
    }
    Ok(())
}

/// The size of an object, if it is a blob.
pub fn blob_size(is_blob: bool, size: u64) -> (res: Result<u64, GfsError>)
    ensures
        is_blob ==> res == Ok::<u64, GfsError>(size),
        !is_blob ==> (res matches Err(e) && e.reads(
            ErrorCode::InvalidArgument,
            "object is not a blob"@,
        )),
{
    if is_blob {
        Ok(size)
    } else {
        Err(GfsError::invalid("object is not a blob"))
    }
}

/// What a blob that was read comes to, given the name its content hashes to.
pub open spec fn verified_blob(
    digest: Seq<u8>,
    recomputed: Result<Seq<u8>, Seq<char>>,
    content: Seq<u8>,
    res: Result<Vec<u8>, GfsError>,
) -> bool {
    match recomputed {
        Err(detail) => res matches Err(e) && e.reads(
            ErrorCode::Internal,
            "cannot hash blob for verification: "@ + detail,
        ),
        Ok(d) => if d == digest {
            res matches Ok(bytes) && bytes@ == content
        } else {
            res matches Err(e) && e.reads(
                ErrorCode::Internal,
                "blob content does not match its object id; the repository may be corrupt"@,
            )
        },
    }
}

/// A blob that was read: content is handed out only under the name it hashes
/// to.
pub fn read_blob(blob: &ObjectId, content: Vec<u8>) -> (res: Result<Vec<u8>, GfsError>)
    ensures
        verified_blob(blob@.digest, git_blob_of(content@), content@, res),
        res is Ok ==> blob@.digest == blob_digest(content@),
        git_blob_of(content@) is Ok && blob@.digest == blob_digest(content@) ==> (res matches Ok(
            bytes,
        ) && bytes@ == content@),
{
    let recomputed = git_blob_hash(content.as_slice());
    blob_beside(blob, recomputed, content)
}

/// A blob that was read, given the name its content hashes to.
pub fn blob_beside(blob: &ObjectId, recomputed: Result<Vec<u8>, String>, content: Vec<u8>) -> (res:
    Result<Vec<u8>, GfsError>)
    ensures
        verified_blob(blob@.digest, hash_view(recomputed), content@, res),
{
    match recomputed {
        Err(detail) => {
            let mut message = "cannot hash blob for verification: ".to_owned();
            message.append(detail.as_str());
            Err(GfsError::of(ErrorCode::Internal, message))
        },
        Ok(d) => {
            if bytes_eq(d.as_slice(), blob.as_bytes()) {
                return Ok(content);
            }
            Err(
                GfsError::internal(
                    "blob content does not match its object id; the repository may be corrupt",
                ),
            )
        },
    }
}

// ---------------------------------------------------------------------------
// Writing trees
// ---------------------------------------------------------------------------
/// The file modes libgit2 tells apart.
#[derive(Clone, Copy, PartialEq, Eq, Structural, Debug)]
pub enum FileMode {
    Unreadable,
    Tree,
    Blob,
    BlobGroupWritable,
    BlobExecutable,
    Link,
    Commit,
}

impl FileMode {
    /// The mode as Git writes it.
    pub open spec fn number(self) -> u32 {
        match self {
            FileMode::Unreadable => 0,
            FileMode::Tree => DIRECTORY,
            FileMode::Blob => REGULAR,
            FileMode::BlobGroupWritable => 0o100664,
            FileMode::BlobExecutable => EXECUTABLE,
            FileMode::Link => SYMLINK,
            FileMode::Commit => GITLINK,
        }
    }
}

/// A file mode as Git writes it.
pub fn git_mode(m: FileMode) -> (res: u32)
    ensures
        res == m.number(),
{
    match m {
        FileMode::Unreadable => 0,
        FileMode::Tree => DIRECTORY,
        FileMode::Blob => REGULAR,
        FileMode::BlobGroupWritable => 0o100664,
        FileMode::BlobExecutable => EXECUTABLE,
        FileMode::Link => SYMLINK,
        FileMode::Commit => GITLINK,
    }
}

/// The file mode of a number that a commit can carry. A directory is implied
/// by the paths under it, so it is none.
pub open spec fn file_mode(mode: u32) -> Option<FileMode> {
    if mode == REGULAR {
        Some(FileMode::Blob)
    } else if mode == EXECUTABLE {
        Some(FileMode::BlobExecutable)
    } else if mode == SYMLINK {
        Some(FileMode::Link)
    } else if mode == GITLINK {
        Some(FileMode::Commit)
    } else {
        None
    }
}

/// A mode that a commit carries is written back as it was given.
pub proof fn law_carried_modes_are_kept(mode: u32)
    ensures
        file_mode(mode) matches Some(m) ==> m.number() == mode,
{
}

/// The file mode of a number; what a commit cannot carry is refused.
pub fn to_filemode(mode: u32) -> (res: Result<FileMode, GfsError>)
    ensures
        match file_mode(mode) {
            Some(m) => res == Ok::<FileMode, GfsError>(m),
            None => res matches Err(e) && e.reads(
                ErrorCode::InvalidArgument,
                octal(mode as nat) + " is not a file mode a commit can carry"@,
            ),
        },
{
    if mode == REGULAR {
        Ok(FileMode::Blob)
    } else if mode == EXECUTABLE {
        Ok(FileMode::BlobExecutable)
    } else if mode == SYMLINK {
        Ok(FileMode::Link)
    } else if mode == GITLINK {
        Ok(FileMode::Commit)
    } else {
        let mut message = String::new();
        push_octal(&mut message, mode as u64);
        message.append(" is not a file mode a commit can carry");
        assert(message@ =~= octal(mode as nat) + " is not a file mode a commit can carry"@);
        Err(GfsError::of(ErrorCode::InvalidArgument, message))
    }
}

/// The name, email, seconds and offset libgit2 makes of an identity, or what it
/// says when the identity is not usable.
pub uninterp spec fn git_signature_of(
    name: Seq<char>,
    email: Seq<char>,
    when_secs: i64,
    offset_minutes: i32,
) -> Result<(Seq<u8>, Seq<u8>, i64, i32), Seq<char>>;

/// An identity or a message as its meaning.
pub open spec fn identity_view(r: Result<(Vec<u8>, Vec<u8>, i64, i32), String>) -> Result<
    (Seq<u8>, Seq<u8>, i64, i32),
    Seq<char>,
> {
    match r {
        Ok(s) => Ok((s.0@, s.1@, s.2, s.3)),
        Err(m) => Err(m@),
    }
}

/// Calls `git2::Signature::new`, and reads back what the signature holds.
/// Claims that the result is a function of the identity and its time.
#[verifier::external_body]
fn git_signature(name: &str, email: &str, when_secs: i64, offset_minutes: i32) -> (res: Result<
    (Vec<u8>, Vec<u8>, i64, i32),
    String,
>)
    ensures
        identity_view(res) == git_signature_of(name@, email@, when_secs, offset_minutes),
{
    let when = git2::Time::new(when_secs, offset_minutes);
    match git2::Signature::new(name, email, &when) {
        Ok(s) => Ok((
            s.name_bytes().to_vec(),
            s.email_bytes().to_vec(),
            s.when().seconds(),
            s.when().offset_minutes(),
        )),
        Err(e) => Err(e.message().to_string()),
    }
}

/// What a commit is signed with, given what libgit2 makes of the identity.
pub open spec fn signed(
    made: Result<(Seq<u8>, Seq<u8>, i64, i32), Seq<char>>,
    res: Result<Signature, GfsError>,
) -> bool {
    match made {
        Ok(s) => res matches Ok(r) && r.name@ == s.0 && r.email@ == s.1 && r.time == (Timestamp {
            secs: s.2,
            nanos: 0,
        }) && r.tz_offset_minutes == s.3,
        Err(detail) => res matches Err(e) && e.reads(
            ErrorCode::InvalidArgument,
            "not a usable Git identity: "@ + detail,
        ),
    }
}

/// What a commit is signed with; an identity Git cannot record is refused.
pub fn to_signature(sig: &CommitSignature) -> (res: Result<Signature, GfsError>)
    ensures
        signed(
            git_signature_of(sig.name@, sig.email@, sig.when_secs, sig.offset_minutes),
            res,
        ),
{
    signature_beside(
        git_signature(sig.name.as_str(), sig.email.as_str(), sig.when_secs, sig.offset_minutes),
    )
}

/// What a commit is signed with, given what libgit2 makes of the identity.
pub fn signature_beside(made: Result<(Vec<u8>, Vec<u8>, i64, i32), String>) -> (res: Result<
    Signature,
    GfsError,
>)
    ensures
        signed(identity_view(made), res),
{
    match made {
        Ok(s) => Ok(
            Signature {
                name: s.0,
                email: s.1,
                time: Timestamp::from_secs(s.2),
                tz_offset_minutes: s.3,
            },
        ),
        Err(detail) => {
            let mut message = "not a usable Git identity: ".to_owned();
            message.append(detail.as_str());
            Err(GfsError::of(ErrorCode::InvalidArgument, message))
        },
    }
}

/// Calls `String::from_utf8`. Claims that the result is the text the bytes
/// encode, and that there is none only where they are no UTF-8.
#[verifier::external_body]
fn utf8_text(bytes: Vec<u8>) -> (res: Option<String>)
    ensures
        match res {
            Some(t) => utf8(t@) == bytes@,
            None => !vstd::utf8::valid_utf8(bytes@),
        },
{
    String::from_utf8(bytes).ok()
}

/// What one change does to a tree.
#[derive(Debug)]
pub enum TreeStep {
    /// Write the content as a blob, and put it at the path.
    Upsert { path: String, mode: FileMode },
    Remove { path: String },
}

/// What a change does to a tree: a path must be text, and a mode one that a
/// commit can carry.
pub open spec fn step_outcome(c: TreeChange, res: Result<TreeStep, GfsError>) -> bool {
    if !vstd::utf8::valid_utf8(c.path@) {
        res matches Err(e) && e.reads(
            ErrorCode::InvalidArgument,
            "cannot commit the non-UTF-8 path "@ + debug_quoted(lossy(c.path@))
                + "; this is a known limitation"@,
        )
    } else {
        match c.kind {
            TreeChangeKind::Upsert { mode, .. } => match file_mode(mode) {
                Some(m) => res matches Ok(TreeStep::Upsert { path, mode: f }) && utf8(path@)
                    == c.path@ && f == m,
                None => res matches Err(e) && e.reads(
                    ErrorCode::InvalidArgument,
                    octal(mode as nat) + " is not a file mode a commit can carry"@,
                ),
            },
            TreeChangeKind::Delete => res matches Ok(TreeStep::Remove { path }) && utf8(path@)
                == c.path@,
        }
    }
}

/// What a change does to a tree.
pub fn write_tree_step(change: &TreeChange) -> (res: Result<TreeStep, GfsError>)
    ensures
        step_outcome(*change, res),
{
    let path = match utf8_text(copy_bytes(change.path.as_bytes())) {
        Some(p) => p,
        None => {
            let mut message = "cannot commit the non-UTF-8 path ".to_owned();
            push_quoted(&mut message, change.path.as_bytes());
            message.append("; this is a known limitation");
            return Err(GfsError::of(ErrorCode::InvalidArgument, message));
        },
    };
    proof {
        vstd::utf8::encode_utf8_valid_utf8(path@);
    }
    match &change.kind {
        TreeChangeKind::Upsert { mode, .. } => match to_filemode(*mode) {
            Ok(m) => Ok(TreeStep::Upsert { path, mode: m }),
            Err(e) => Err(e),
        },
        TreeChangeKind::Delete => Ok(TreeStep::Remove { path }),
    }
}

/// What the first `n` changes of a tree come to: each in turn, until one is
/// refused.
pub fn write_tree(changes: &Vec<TreeChange>) -> (res: Result<Vec<TreeStep>, GfsError>)
    ensures
        match res {
            Ok(steps) => steps@.len() == changes@.len() && forall|i: int|
                0 <= i < changes@.len() ==> step_outcome(
                    #[trigger] changes@[i],
                    Ok::<TreeStep, GfsError>(steps@[i]),
                ),
            Err(e) => exists|i: int|
                0 <= i < changes@.len() && step_outcome(
                    #[trigger] changes@[i],
                    Err::<TreeStep, GfsError>(e),
                ) && forall|k: int| 0 <= k < i ==> step_accepts(#[trigger] changes@[k]),
        },
{
    let mut steps: Vec<TreeStep> = Vec::new();
    let mut i: usize = 0;
    while i < changes.len()
        invariant
            i <= changes@.len(),
            steps@.len() == i,
            forall|k: int|
                0 <= k < i ==> step_outcome(
                    #[trigger] changes@[k],
                    Ok::<TreeStep, GfsError>(steps@[k]),
                ),
            forall|k: int| 0 <= k < i ==> step_accepts(#[trigger] changes@[k]),
        decreases changes.len() - i,
    {
        match write_tree_step(&changes[i]) {
            Ok(step) => steps.push(step),
            Err(e) => {
                assert(step_outcome(changes@[i as int], Err::<TreeStep, GfsError>(e)));
                return Err(e);
            },
        }
        i = i + 1;
    }
    Ok(steps)
}

/// Whether a change can be written.
pub open spec fn step_accepts(c: TreeChange) -> bool {
    vstd::utf8::valid_utf8(c.path@) && (match c.kind {
        TreeChangeKind::Upsert { mode, .. } => file_mode(mode) is Some,
        TreeChangeKind::Delete => true,
    })
}

/// A revision, resolved.
#[derive(Debug)]
pub struct ResolvedRevision {
    pub commit: ObjectId,
    pub tree: ObjectId,
    pub ref_name: Option<String>,
    pub ref_version: u64,
    pub snapshot_time: Timestamp,
}

/// What an expression resolves to: its base, or the ancestor its steps led to.
/// A ref names the base alone, so an ancestor has none.
pub fn resolve_expression(
    base: ResolvedRevision,
    walked: Option<(ObjectId, ObjectId, Timestamp)>,
) -> (res: ResolvedRevision)
    ensures
        match walked {
            None => res == base,
            Some(w) => res.commit@ == w.0@ && res.tree@ == w.1@ && res.ref_name is None
                && res.ref_version == base.ref_version && res.snapshot_time == w.2,
        },
{
    match walked {
        None => base,
        Some(w) => ResolvedRevision {
            commit: w.0,
            tree: w.1,
            ref_name: None,
            ref_version: base.ref_version,
            snapshot_time: w.2,
        },
    }
}

/// How many operations may run at once: at least one.
pub fn permits(concurrency: usize) -> (res: usize)
    ensures
        res == (if concurrency == 0 {
            1
        } else {
            concurrency
        }),
{
    if concurrency == 0 {
        1
    } else {
        concurrency
    }
}

/// How a blocking operation failed to run.
#[derive(Clone, Copy, PartialEq, Eq, Structural, Debug)]
pub enum RunFailure {
    PoolClosed,
    Cancelled,
    Panicked,
}

/// The error of an operation that did not run to its end.
pub fn run_error(failure: RunFailure) -> (res: GfsError)
    ensures
        match failure {
            RunFailure::PoolClosed => res.reads(
                ErrorCode::Unavailable,
                "repository pool is shut down"@,
            ),
            RunFailure::Cancelled => res.reads(
                ErrorCode::Cancelled,
                "repository operation was cancelled"@,
            ),
            RunFailure::Panicked => res.reads(
                ErrorCode::Internal,
                "repository operation failed"@,
            ),
        },
{
    match failure {
        RunFailure::PoolClosed => GfsError::new(
            ErrorCode::Unavailable,
            "repository pool is shut down",
        ),
        RunFailure::Cancelled => GfsError::new(
            ErrorCode::Cancelled,
            "repository operation was cancelled",
        ),
        RunFailure::Panicked => GfsError::internal("repository operation failed"),
    }
}

/// What a revision that is no commit says.
pub fn not_a_commit(kind: Option<String>) -> (res: GfsError)
    ensures
        res.reads(
            ErrorCode::InvalidArgument,
            "revision resolves to a "@ + (match opt_view(kind) {
                Some(k) => k,
                None => "object of unknown type"@,
            }) + " rather than a commit"@,
        ),
{
    let mut message = "revision resolves to a ".to_owned();
    match kind {
        Some(k) => {
            message.append(k.as_str());
        },
        None => {
            message.append("object of unknown type");
        },
    }
    message.append(" rather than a commit");
    GfsError::of(ErrorCode::InvalidArgument, message)
}

} // verus!
