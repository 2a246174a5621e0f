//! The subtrees a mounted tree is routed by.
//!
//! `.git/**` is the real directory, `.git/gfs/objects/**` is the object-store
//! projection, and everything else is the overlay over the pinned tree.
use vstd::prelude::*;
use crate::bytes::{bytes_eq, has_prefix, starts_with, sub_bytes};

verus! {

/// `.git`.
pub open spec fn git_dir_name() -> Seq<u8> {
    seq![46u8, 103u8, 105u8, 116u8]
}

/// `gfs`, the daemon's directory below `.git`.
pub open spec fn state_subdir() -> Seq<u8> {
    seq![103u8, 102u8, 115u8]
}

/// `objects`.
pub open spec fn objects_name() -> Seq<u8> {
    seq![111u8, 98u8, 106u8, 101u8, 99u8, 116u8, 115u8]
}

/// `gfs/objects`, the projection's place below `.git`.
pub open spec fn projection_dir() -> Seq<u8> {
    state_subdir() + seq![47u8] + objects_name()
}

/// The part of a path below a directory: empty for the directory itself, none
/// for a path outside it.
pub open spec fn below(path: Seq<u8>, dir: Seq<u8>) -> Option<Seq<u8>> {
    if path == dir {
        Some(Seq::empty())
    } else if has_prefix(path, dir + seq![47u8]) {
        Some(path.subrange((dir.len() + 1) as int, path.len() as int))
    } else {
        None
    }
}

/// The bytes of `.git`.
pub fn git_dir_bytes() -> (res: Vec<u8>)
    ensures
        res@ == git_dir_name(),
{
    let out: Vec<u8> = vec![46u8, 103u8, 105u8, 116u8];
    assert(out@ =~= git_dir_name());
    out
}

/// The bytes of `gfs`.
pub fn state_subdir_bytes() -> (res: Vec<u8>)
    ensures
        res@ == state_subdir(),
{
    let out: Vec<u8> = vec![103u8, 102u8, 115u8];
    assert(out@ =~= state_subdir());
    out
}

/// The bytes of `objects`.
pub fn objects_bytes() -> (res: Vec<u8>)
    ensures
        res@ == objects_name(),
{
    let out: Vec<u8> = vec![111u8, 98u8, 106u8, 101u8, 99u8, 116u8, 115u8];
    assert(out@ =~= objects_name());
    out
}

fn below_dir(path: &[u8], dir: &[u8]) -> (res: Option<Vec<u8>>)
    ensures
        match below(path@, dir@) {
            Some(rel) => res matches Some(r) && r@ == rel,
            None => res is None,
        },
{
    if bytes_eq(path, dir) {
        return Some(Vec::new());
    }
    if path.len() > dir.len() && starts_with(path, dir) && path[dir.len()] == 47u8 {
        proof {
            let p = dir@ + seq![47u8];
            assert(path@.subrange(0, p.len() as int) =~= p) by {
                assert(path@.subrange(0, dir@.len() as int) == dir@);
                assert forall|i: int| 0 <= i < p.len() implies path@[i] == p[i] by {
                    if i < dir@.len() {
                        assert(path@.subrange(0, dir@.len() as int)[i] == dir@[i]);
                    }
                }
            }
            assert(has_prefix(path@, p));
        }
        return Some(sub_bytes(path, dir.len() + 1, path.len()));
    }
    proof {
        let p = dir@ + seq![47u8];
        if has_prefix(path@, p) {
            assert(path@.subrange(0, p.len() as int) == p);
            assert(path@[dir@.len() as int] == p[dir@.len() as int]);
            assert(path@.subrange(0, dir@.len() as int) =~= dir@) by {
                assert forall|i: int| 0 <= i < dir@.len() implies path@[i] == dir@[i] by {
                    assert(path@.subrange(0, p.len() as int)[i] == p[i]);
                }
            }
            assert(has_prefix(path@, dir@));
        }
    }
    None
}

/// A mount path's part below `.git`; none outside it.
pub open spec fn git_part(path: Seq<u8>) -> Option<Seq<u8>> {
    below(path, git_dir_name())
}

/// A mount path's part below `.git`; none outside it.
pub fn git_rel(path: &[u8]) -> (res: Option<Vec<u8>>)
    ensures
        match git_part(path@) {
            Some(rel) => res matches Some(r) && r@ == rel,
            None => res is None,
        },
{
    let dir = git_dir_bytes();
    below_dir(path, dir.as_slice())
}

/// The projection's part of a path below `.git`; none outside it.
pub open spec fn odb_part(rel: Seq<u8>) -> Option<Seq<u8>> {
    below(rel, projection_dir())
}

fn projection_bytes() -> (res: Vec<u8>)
    ensures
        res@ == projection_dir(),
{
    let out: Vec<u8> = vec![
        103u8,
        102u8,
        115u8,
        47u8,
        111u8,
        98u8,
        106u8,
        101u8,
        99u8,
        116u8,
        115u8,
    ];
    assert(out@ =~= projection_dir());
    out
}

/// The projection's part of a path below `.git`; none outside it.
pub fn odb_rel(rel: &[u8]) -> (res: Option<Vec<u8>>)
    ensures
        match odb_part(rel@) {
            Some(r) => res matches Some(x) && x@ == r,
            None => res is None,
        },
{
    let dir = projection_bytes();
    below_dir(rel, dir.as_slice())
}

/// Whether a directory below `.git` holds objects: the loose-object tree or
/// the projection.
pub open spec fn object_namespace(rel: Seq<u8>) -> bool {
    below(rel, objects_name()) is Some || odb_part(rel) is Some
}

/// Whether a directory below `.git` holds objects.
pub fn in_object_namespace(rel: &[u8]) -> (res: bool)
    ensures
        res == object_namespace(rel@),
{
    let objects = objects_bytes();
    if below_dir(rel, objects.as_slice()).is_some() {
        return true;
    }
    odb_rel(rel).is_some()
}

/// The projection is no part of the real directory's object tree: the two are
/// never merged.
pub proof fn law_the_projection_is_apart(rel: Seq<u8>)
    ensures
        !(below(rel, objects_name()) is Some && odb_part(rel) is Some),
{
    if below(rel, objects_name()) is Some && odb_part(rel) is Some {
        let p = projection_dir();
        assert(p[0] == 103u8);
        assert(rel[0] == 103u8) by {
            if rel != p {
                let q = p + seq![47u8];
                assert(rel.subrange(0, q.len() as int)[0] == q[0]);
            }
        }
        assert(objects_name()[0] == 111u8);
        assert(rel[0] == 111u8) by {
            if rel != objects_name() {
                let q = objects_name() + seq![47u8];
                assert(rel.subrange(0, q.len() as int)[0] == q[0]);
            }
        }
    }
}

} // verus!
