//! Repository paths: byte strings with `/` between components.
use vstd::prelude::*;
use crate::bytes::{
    append_bytes, bytes_eq, copy_bytes, has_prefix, split_bytes, split_on, starts_with, sub_bytes,
    views,
};

verus! {

/// A root-relative path. The empty path is the root.
#[derive(Debug)]
pub struct BytePath {
    bytes: Vec<u8>,
}

impl View for BytePath {
    type V = Seq<u8>;

    closed spec fn view(&self) -> Seq<u8> {
        self.bytes@
    }
}

/// Two paths with a `/` between them, or the second alone under the root.
pub open spec fn joined(prefix: Seq<u8>, suffix: Seq<u8>) -> Seq<u8> {
    if prefix.len() == 0 {
        suffix
    } else {
        prefix + seq![47u8] + suffix
    }
}

/// The position of the last `/`, or -1.
pub open spec fn last_slash(path: Seq<u8>) -> int
    decreases path.len(),
{
    if path.len() == 0 {
        -1
    } else if path.last() == 47 {
        path.len() - 1
    } else {
        last_slash(path.drop_last())
    }
}

/// The directory a path sits in; the root for a top-level name.
pub open spec fn parent(path: Seq<u8>) -> Seq<u8> {
    if last_slash(path) < 0 {
        Seq::empty()
    } else {
        path.take(last_slash(path))
    }
}

/// The last component.
pub open spec fn base_name(path: Seq<u8>) -> Seq<u8> {
    path.skip(last_slash(path) + 1)
}

/// Whether `path` is `dir` or lies below it. Everything lies below the root.
pub open spec fn within(path: Seq<u8>, dir: Seq<u8>) -> bool {
    dir.len() == 0 || path == dir || (has_prefix(path, dir) && path.len() > dir.len()
        && path[dir.len() as int] == 47)
}

/// Where the last `/` is.
pub proof fn lemma_last_slash(path: Seq<u8>)
    ensures
        -1 <= last_slash(path) < path.len(),
        last_slash(path) >= 0 ==> path[last_slash(path)] == 47,
        forall|k: int| last_slash(path) < k < path.len() ==> path[k] != 47,
    decreases path.len(),
{
    if path.len() > 0 && path.last() != 47 {
        lemma_last_slash(path.drop_last());
        assert forall|k: int| last_slash(path) < k < path.len() implies path[k] != 47 by {
            if k < path.len() - 1 {
                assert(path.drop_last()[k] == path[k]);
            }
        }
        if last_slash(path) >= 0 {
            assert(path.drop_last()[last_slash(path)] == path[last_slash(path)]);
        }
    }
}

proof fn lemma_last_slash_is(path: Seq<u8>, at: int)
    requires
        -1 <= at < path.len(),
        at >= 0 ==> path[at] == 47,
        forall|k: int| at < k < path.len() ==> path[k] != 47,
    ensures
        last_slash(path) == at,
{
    lemma_last_slash(path);
}

/// A name joined under a directory has that directory as its parent and the
/// name as its last component.
pub proof fn law_join_then_split(dir: Seq<u8>, name: Seq<u8>)
    requires
        name.len() > 0,
        forall|k: int| 0 <= k < name.len() ==> name[k] != 47,
    ensures
        parent(joined(dir, name)) == dir,
        base_name(joined(dir, name)) == name,
        within(joined(dir, name), dir),
{
    let path = joined(dir, name);
    if dir.len() == 0 {
        lemma_last_slash_is(path, -1);
        assert(parent(path) =~= dir);
        assert(base_name(path) =~= name);
    } else {
        let at = dir.len() as int;
        assert forall|k: int| at < k < path.len() implies path[k] != 47 by {
            assert(path[k] == name[k - at - 1]);
        }
        lemma_last_slash_is(path, at);
        assert(parent(path) =~= dir);
        assert(base_name(path) =~= name);
        assert(path.subrange(0, dir.len() as int) =~= dir);
    }
}

/// Joining is injective in the name.
pub proof fn law_join_is_injective(dir: Seq<u8>, a: Seq<u8>, b: Seq<u8>)
    requires
        joined(dir, a) == joined(dir, b),
    ensures
        a == b,
{
    if dir.len() > 0 {
        assert(a =~= joined(dir, a).skip(dir.len() as int + 1));
        assert(b =~= joined(dir, b).skip(dir.len() as int + 1));
    }
}

/// Two paths with a `/` between them, or the second alone under the root.
pub fn join(prefix: &[u8], suffix: &[u8]) -> (res: Vec<u8>)
    ensures
        res@ == joined(prefix@, suffix@),
{
    let mut out = copy_bytes(prefix);
    if out.len() > 0 {
        out.push(47);
    }
    append_bytes(&mut out, suffix);
    assert(out@ =~= joined(prefix@, suffix@));
    out
}

/// The position after the last `/`.
fn base_start(path: &[u8]) -> (res: usize)
    ensures
        res == last_slash(path@) + 1,
        res <= path@.len(),
{
    let mut i: usize = path.len();
    while i > 0 && path[i - 1] != 47
        invariant
            i <= path@.len(),
            forall|k: int| i <= k < path@.len() ==> path@[k] != 47,
        decreases i,
    {
        i = i - 1;
    }
    proof {
        lemma_last_slash_is(path@, i - 1);
    }
    i
}

/// Whether `path` is `dir` or lies below it.
pub fn is_within(path: &[u8], dir: &[u8]) -> (res: bool)
    ensures
        res == within(path@, dir@),
{
    if dir.len() == 0 {
        return true;
    }
    if bytes_eq(path, dir) {
        return true;
    }
    path.len() > dir.len() && path[dir.len()] == 47 && starts_with(path, dir)
}

impl BytePath {
    pub fn root() -> (res: BytePath)
        ensures
            res@ == Seq::<u8>::empty(),
    {
        BytePath { bytes: Vec::new() }
    }

    pub fn new(bytes: Vec<u8>) -> (res: BytePath)
        ensures
            res@ == bytes@,
    {
        BytePath { bytes }
    }

    pub fn as_bytes(&self) -> (res: &[u8])
        ensures
            res@ == self@,
    {
        self.bytes.as_slice()
    }

    pub fn is_empty(&self) -> (res: bool)
        ensures
            res == (self@.len() == 0),
    {
        self.bytes.len() == 0
    }

    /// An owned copy.
    pub fn duplicate(&self) -> (res: BytePath)
        ensures
            res@ == self@,
    {
        BytePath { bytes: copy_bytes(self.bytes.as_slice()) }
    }

    pub fn same(&self, other: &BytePath) -> (res: bool)
        ensures
            res == (self@ == other@),
    {
        bytes_eq(self.bytes.as_slice(), other.bytes.as_slice())
    }

    /// A child of this path.
    pub fn join(&self, name: &[u8]) -> (res: BytePath)
        ensures
            res@ == joined(self@, name@),
    {
        BytePath { bytes: join(self.bytes.as_slice(), name) }
    }

    /// The last component; `None` for the root.
    pub fn file_name(&self) -> (res: Option<Vec<u8>>)
        ensures
            self@.len() == 0 <==> res is None,
            res matches Some(name) ==> name@ == base_name(self@),
    {
        if self.bytes.len() == 0 {
            None
        } else {
            let start = base_start(self.bytes.as_slice());
            let name = sub_bytes(self.bytes.as_slice(), start, self.bytes.len());
            assert(name@ =~= base_name(self@));
            Some(name)
        }
    }

    /// The components, in order; none for the root.
    pub fn components(&self) -> (res: Vec<Vec<u8>>)
        ensures
            views(res@) == (if self@.len() == 0 {
                Seq::<Seq<u8>>::empty()
            } else {
                split_on(self@, 47)
            }),
    {
        if self.bytes.len() == 0 {
            let out: Vec<Vec<u8>> = Vec::new();
            assert(views(out@) =~= Seq::<Seq<u8>>::empty());
            out
        } else {
            split_bytes(self.bytes.as_slice(), 47)
        }
    }
}

/// The directory a path sits in; the root for a top-level name.
pub fn parent_of(path: &BytePath) -> (res: BytePath)
    ensures
        res@ == parent(path@),
{
    let start = base_start(path.as_bytes());
    if start == 0 {
        BytePath::root()
    } else {
        let bytes = sub_bytes(path.as_bytes(), 0, start - 1);
        assert(bytes@ =~= parent(path@));
        BytePath::new(bytes)
    }
}

} // verus!
