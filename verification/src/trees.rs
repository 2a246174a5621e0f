//! What trees hold and what is written to them: laws of finding a path, of
//! describing an entry, of what a commit touches, and of the steps of a change.
use vstd::prelude::*;
use crate::entry::{opt_bytes, EntryKind, TreeEntryInfo};
use crate::error::{ErrorCode, GfsError};
use crate::object::ObjectId;
use crate::path::BytePath;
use crate::repository::{
    descend, entry_at, entry_info, file_mode, list_directory, resolve_expression, step_accepts,
    step_outcome, touches, write_tree, DecodedEntry, Descent, ListTarget, ResolvedRevision,
    TreeChange, TreeChangeKind, TreeStep,
};
use crate::text::utf8;
use crate::time::Timestamp;

verus! {

proof fn lemma_entry_at(tree: Seq<DecodedEntry>, name: Seq<u8>, k: int)
    requires
        0 <= k <= tree.len(),
    ensures
        entry_at(tree, name, k) matches Some(e) ==> e.name == name && exists|i: int|
            k <= i < tree.len() && (#[trigger] tree[i])@ == e && forall|j: int|
                k <= j < i ==> (#[trigger] tree[j])@.name != name,
        entry_at(tree, name, k) is None ==> forall|i: int|
            k <= i < tree.len() ==> (#[trigger] tree[i])@.name != name,
    decreases tree.len() - k,
{
    if k < tree.len() && tree[k]@.name != name {
        lemma_entry_at(tree, name, k + 1);
        if entry_at(tree, name, k) is Some {
            let e = entry_at(tree, name, k)->0;
            let i = choose|i: int|
                k + 1 <= i < tree.len() && (#[trigger] tree[i])@ == e && forall|j: int|
                    k + 1 <= j < i ==> (#[trigger] tree[j])@.name != name;
            assert(tree[i]@ == e);
            assert forall|j: int| k <= j < i implies (#[trigger] tree[j])@.name != name by {
                if j > k {
                }
            }
        }
    } else if k < tree.len() {
        assert(tree[k]@ == entry_at(tree, name, k)->0);
    }
}

/// A step towards a path goes to the entry of its component's own name: at the
/// last component it is the answer, before it only a directory is gone into,
/// and nothing is there when no entry has the name or a file stands in the way.
pub proof fn law_a_path_leads_through_directories(
    components: &Vec<Vec<u8>>,
    depth: usize,
    tree: &Vec<DecodedEntry>,
    res: Descent,
)
    requires
        depth < components@.len(),
        call_ensures(descend, (components, depth, tree), res),
    ensures
        res matches Descent::Found(f) ==> depth + 1 == components@.len() && f@.name
            == components@[depth as int]@ && exists|i: int|
            0 <= i < tree@.len() && (#[trigger] tree@[i])@ == f@,
        res matches Descent::Into(oid) ==> depth + 1 < components@.len() && exists|i: int|
            0 <= i < tree@.len() && (#[trigger] tree@[i])@.oid == oid@ && tree@[i]@.name
                == components@[depth as int]@ && tree@[i]@.mode == 0o040000,
        res is Absent ==> (forall|i: int|
            0 <= i < tree@.len() ==> (#[trigger] tree@[i])@.name != components@[depth as int]@) || (
        depth + 1 < components@.len() && exists|i: int|
            0 <= i < tree@.len() && (#[trigger] tree@[i])@.name == components@[depth as int]@
                && tree@[i]@.mode != 0o040000),
{
    lemma_entry_at(tree@, components@[depth as int]@, 0);
}

/// A directory is listed from its own tree, a submodule has nothing to list,
/// and nothing else is a directory.
pub proof fn law_a_directory_is_its_tree(
    entry: Option<DecodedEntry>,
    res: Result<ListTarget, GfsError>,
)
    requires
        call_ensures(list_directory, (entry,), res),
    ensures
        res matches Ok(ListTarget::Tree(oid)) ==> entry is Some && oid@ == (entry->0)@.oid && (
        entry->0)@.mode == 0o040000,
        res is Ok <==> entry is Some && ((entry->0)@.mode == 0o040000 || (entry->0)@.mode
            == 0o160000),
        entry is Some && (entry->0)@.mode == 0o040000 ==> (res matches Ok(ListTarget::Tree(_))),
        res matches Err(e) ==> (e.code == ErrorCode::NotFound <==> entry is None),
{
}

/// An entry is described by what the tree says: its kind is its mode's, a
/// link's size is its target's length, a file's is the one that was read, and
/// only a link has a target.
pub proof fn law_an_entry_is_described_as_the_tree_has_it(
    path: BytePath,
    decoded: &DecodedEntry,
    size: u64,
    target: Option<Vec<u8>>,
    res: TreeEntryInfo,
)
    requires
        call_ensures(entry_info, (path, decoded, size, target), res),
        target matches Some(t) ==> t@.len() <= u64::MAX,
    ensures
        res@.path == path@,
        res@.mode == decoded@.mode,
        res@.oid == decoded@.oid,
        res@.kind == EntryKind::of_mode(decoded@.mode),
        decoded@.mode == 0o100644 || decoded@.mode == 0o100755 ==> res@.size == size,
        decoded@.mode == 0o120000 ==> res@.symlink_target == opt_bytes(target),
        decoded@.mode == 0o120000 && target is Some ==> res@.size == (target->0)@.len(),
        decoded@.mode != 0o120000 ==> res@.symlink_target is None,
        decoded@.mode != 0o100644 && decoded@.mode != 0o100755 && decoded@.mode != 0o120000
            ==> res@.size == 0,
        res@.blob_ticket is None,
{
}

/// A commit touches what it changed, seen from either side: the same entries on
/// both sides touch nothing, and a log of no paths has every commit.
pub proof fn law_a_commit_touches_what_it_changed(
    before: &Vec<Option<DecodedEntry>>,
    after: &Vec<Option<DecodedEntry>>,
    there: bool,
    back: bool,
    i: int,
)
    requires
        before@.len() == after@.len(),
        call_ensures(touches, (before, after), there),
        call_ensures(touches, (after, before), back),
    ensures
        there == back,
        before@.len() == 0 ==> there,
        0 <= i < before@.len() && before@[i] is Some && after@[i] is None ==> there,
        0 <= i < before@.len() && before@[i] is None && after@[i] is Some ==> there,
        0 <= i < before@.len() && before@[i] is Some && after@[i] is Some && ((before@[i]->0)@.mode
            != (after@[i]->0)@.mode || (before@[i]->0)@.oid != (after@[i]->0)@.oid) ==> there,
        before@.len() > 0 && before@ == after@ ==> !there,
{
    if 0 <= i < before@.len() {
        assert(crate::repository::stands(before@[i]) == crate::repository::stands(before@[i]));
    }
    if there && before@.len() > 0 {
        let k = choose|k: int|
            0 <= k < before@.len() && crate::repository::stands(#[trigger] before@[k])
                != crate::repository::stands(after@[k]);
        assert(crate::repository::stands(after@[k]) != crate::repository::stands(before@[k]));
    }
    if back && before@.len() > 0 {
        let k = choose|k: int|
            0 <= k < after@.len() && crate::repository::stands(#[trigger] after@[k])
                != crate::repository::stands(before@[k]);
        assert(crate::repository::stands(before@[k]) != crate::repository::stands(after@[k]));
    }
}

/// Whether a step does what a change says: it is at the same path, puts a file
/// there with the same mode or removes it.
pub open spec fn step_does(step: TreeStep, c: TreeChange) -> bool {
    match (step, c.kind) {
        (TreeStep::Upsert { path, mode }, TreeChangeKind::Upsert { mode: m, .. }) => utf8(path@)
            == c.path@ && mode.number() == m,
        (TreeStep::Remove { path }, TreeChangeKind::Delete) => utf8(path@) == c.path@,
        _ => false,
    }
}

/// Writing a tree does what each change says, in order. It is refused only for
/// a path that is no text or a mode that a commit cannot carry.
pub proof fn law_a_tree_is_written_as_its_changes_say(
    changes: &Vec<TreeChange>,
    res: Result<Vec<TreeStep>, GfsError>,
)
    requires
        call_ensures(write_tree, (changes,), res),
    ensures
        res matches Ok(steps) ==> steps@.len() == changes@.len() && forall|i: int|
            0 <= i < changes@.len() ==> step_does(#[trigger] steps@[i], changes@[i]),
        res is Err ==> exists|i: int|
            0 <= i < changes@.len() && (!vstd::utf8::valid_utf8((#[trigger] changes@[i]).path@) || (
            changes@[i].kind matches TreeChangeKind::Upsert { mode, .. } && mode != 0o100644 && mode
                != 0o100755 && mode != 0o120000 && mode != 0o160000)),
{
    match res {
        Ok(steps) => {
            assert forall|i: int| 0 <= i < changes@.len() implies step_does(
                #[trigger] steps@[i],
                changes@[i],
            ) by {
                assert(step_outcome(changes@[i], Ok::<TreeStep, GfsError>(steps@[i])));
            }
        },
        Err(e) => {
            let i = choose|i: int|
                0 <= i < changes@.len() && step_outcome(
                    #[trigger] changes@[i],
                    Err::<TreeStep, GfsError>(e),
                ) && forall|k: int| 0 <= k < i ==> step_accepts(#[trigger] changes@[k]);
            assert(step_outcome(changes@[i], Err::<TreeStep, GfsError>(e)));
        },
    }
}

/// A commit carries files, executables, links and submodules, and no other
/// mode.
pub proof fn law_a_commit_carries_four_modes(mode: u32)
    ensures
        file_mode(mode) is Some <==> mode == 0o100644 || mode == 0o100755 || mode == 0o120000 || mode
            == 0o160000,
{
}

/// An expression without steps is its base; one that walked is the commit it
/// came to, which no ref names.
pub proof fn law_a_walk_leaves_the_ref(
    base: ResolvedRevision,
    walked: Option<(ObjectId, ObjectId, Timestamp)>,
    res: ResolvedRevision,
)
    requires
        call_ensures(resolve_expression, (base, walked), res),
    ensures
        walked is None ==> res == base,
        walked matches Some((commit, tree, time)) ==> res.commit@ == commit@ && res.tree@ == tree@
            && res.snapshot_time == time && res.ref_name is None,
{
}

} // verus!
