//! The base blobs a diff or an export needs, fetched ahead.
//!
//! Only the paths that changed are asked for. A blob that was not fetched is
//! an error, never empty content.
use vstd::prelude::*;
use crate::bytemap::ByteMap;
use crate::bytes::copy_bytes;
use crate::errno::{Condition, OverlayError};
use crate::error::{ErrorCode, GfsError};
use crate::node::{opt_path, Content, ContentView, OverlayEntry};
use crate::object::{law_qualified_is_injective, ObjectId, ObjectIdView};
use crate::path::BytePath;
use crate::status::{ChangeKind, StatusChange};

verus! {

/// The object a qualified text names.
pub open spec fn named(text: Seq<char>) -> Option<ObjectIdView> {
    if exists|oid: ObjectIdView|
        oid.digest.len() == oid.algorithm.width() && #[trigger] oid.qualified() == text {
        Some(
            choose|oid: ObjectIdView|
                oid.digest.len() == oid.algorithm.width() && #[trigger] oid.qualified() == text,
        )
    } else {
        None
    }
}

/// Whether the old side of a change is asked for: a rename's two sides are
/// the same bytes.
pub open spec fn needs_old(c: StatusChange) -> bool {
    c.old_oid is Some && c.content_change && c.kind != ChangeKind::Renamed
}

/// The blobs the first `n` changes need, with the paths they live at; none
/// when an old side cannot be read. The new side is asked for when the row's
/// bytes are still the base's.
pub open spec fn wanted_of(changes: Seq<StatusChange>, rows: Seq<Option<OverlayEntry>>, n: nat) -> Option<
    Seq<(ObjectIdView, Seq<u8>)>,
>
    decreases n,
{
    if n == 0 {
        Some(Seq::empty())
    } else {
        match wanted_of(changes, rows, (n - 1) as nat) {
            None => None,
            Some(before) => {
                let c = changes[n - 1];
                let old_side = if needs_old(c) {
                    match named((c.old_oid->0)@) {
                        None => None,
                        Some(id) => Some(
                            before.push(
                                (
                                    id,
                                    match opt_path(c.from) {
                                        Some(p) => p,
                                        None => c.path@,
                                    },
                                ),
                            ),
                        ),
                    }
                } else {
                    Some(before)
                };
                match old_side {
                    None => None,
                    Some(list) => Some(with_new_side(list, c, rows[n - 1])),
                }
            },
        }
    }
}

/// The list with a change's new side, where the row's bytes are the base's.
pub open spec fn with_new_side(
    list: Seq<(ObjectIdView, Seq<u8>)>,
    c: StatusChange,
    row: Option<OverlayEntry>,
) -> Seq<(ObjectIdView, Seq<u8>)> {
    match row {
        Some(row) => match row@.content {
            ContentView::Base(oid) => list.push(
                (
                    oid,
                    match row@.renamed_from {
                        Some(p) => p,
                        None => c.path@,
                    },
                ),
            ),
            _ => list,
        },
        None => list,
    }
}

/// Wanted blobs as their meaning.
pub open spec fn wanted_views(list: Seq<(ObjectId, BytePath)>) -> Seq<(ObjectIdView, Seq<u8>)> {
    Seq::new(list.len(), |i: int| (list[i].0@, list[i].1@))
}

fn push_wanted(list: &mut Vec<(ObjectId, BytePath)>, oid: ObjectId, path: BytePath)
    ensures
        wanted_views(final(list)@) == wanted_views(old(list)@).push((oid@, path@)),
{
    let ghost before = list@;
    list.push((oid, path));
    assert(wanted_views(list@) =~= wanted_views(before).push((oid@, path@)));
}

/// The blobs a change set needs, with the paths they live at in the pinned
/// commit.
pub fn wanted_blobs(changes: &Vec<StatusChange>, rows: &Vec<Option<OverlayEntry>>) -> (res: Result<
    Vec<(ObjectId, BytePath)>,
    GfsError,
>)
    requires
        changes@.len() == rows@.len(),
    ensures
        match wanted_of(changes@, rows@, changes@.len()) {
            Some(list) => res matches Ok(l) && wanted_views(l@) == list,
            None => res matches Err(e) && e.reads(
                ErrorCode::Internal,
                "unreadable base object id: "@ + "not a qualified object ID"@,
            ),
        },
{
    let mut list: Vec<(ObjectId, BytePath)> = Vec::new();
    let mut i: usize = 0;
    assert(wanted_views(list@) =~= Seq::<(ObjectIdView, Seq<u8>)>::empty());
    while i < changes.len()
        invariant
            i <= changes@.len(),
            changes@.len() == rows@.len(),
            wanted_of(changes@, rows@, i as nat) == Some(wanted_views(list@)),
        decreases changes.len() - i,
    {
        let c = &changes[i];
        let ghost start = list@;
        if c.content_change && c.kind != ChangeKind::Renamed {
            match &c.old_oid {
                Some(text) => {
                    match ObjectId::parse_qualified(text.as_str()) {
                        Ok(oid) => {
                            proof {
                                let id = named(text@)->0;
                                assert(oid@.qualified() == text@);
                                law_qualified_is_injective(id, oid@);
                            }
                            let path = match &c.from {
                                Some(p) => p.duplicate(),
                                None => c.path.duplicate(),
                            };
                            push_wanted(&mut list, oid, path);
                        },
                        Err(e) => {
                            proof {
                                lemma_unreadable(changes@, rows@, (i + 1) as nat, changes@.len());
                            }
                            let mut message = "unreadable base object id: ".to_owned();
                            message.append(e.to_text().as_str());
                            return Err(GfsError::of(ErrorCode::Internal, message));
                        },
                    }
                },
                None => {},
            }
        }
        match &rows[i] {
            Some(row) => match &row.content {
                Content::Base(oid) => {
                    let path = match &row.renamed_from {
                        Some(p) => p.duplicate(),
                        None => c.path.duplicate(),
                    };
                    push_wanted(&mut list, oid.duplicate(), path);
                },
                Content::Nothing | Content::Local(_) => {},
            },
            None => {},
        }
        i = i + 1;
    }
    Ok(list)
}

proof fn lemma_unreadable(changes: Seq<StatusChange>, rows: Seq<Option<OverlayEntry>>, a: nat, b: nat)
    requires
        a <= b,
        wanted_of(changes, rows, a) is None,
    ensures
        wanted_of(changes, rows, b) is None,
    decreases b,
{
    if a < b {
        lemma_unreadable(changes, rows, a, (b - 1) as nat);
    }
}

/// Base blobs, fetched ahead.
#[derive(Debug)]
pub struct PreloadedBase {
    blobs: ByteMap<Vec<u8>>,
}

impl View for PreloadedBase {
    type V = Map<Seq<u8>, Vec<u8>>;

    closed spec fn view(&self) -> Map<Seq<u8>, Vec<u8>> {
        self.blobs@
    }
}

impl PreloadedBase {
    /// The blobs are kept in order.
    pub closed spec fn wf(&self) -> bool {
        self.blobs.wf()
    }

    /// Nothing fetched.
    pub fn new() -> (res: PreloadedBase)
        ensures
            res.wf(),
            res@ == Map::<Seq<u8>, Vec<u8>>::empty(),
    {
        PreloadedBase { blobs: ByteMap::new() }
    }

    /// Whether a blob was fetched: one is fetched once.
    pub fn contains(&self, oid: &ObjectId) -> (res: bool)
        requires
            self.wf(),
        ensures
            res == self@.contains_key(oid@.key()),
    {
        let key = oid.key();
        self.blobs.contains(key.as_slice())
    }

    /// Keep a fetched blob.
    pub fn insert(&mut self, oid: &ObjectId, bytes: Vec<u8>)
        requires
            old(self).wf(),
        ensures
            final(self).wf(),
            final(self)@ == old(self)@.insert(oid@.key(), bytes),
    {
        self.blobs.insert(oid.key(), bytes);
    }

    pub fn len(&self) -> (res: usize)
        requires
            self.wf(),
        ensures
            res == self@.len(),
    {
        self.blobs.len()
    }

    pub fn is_empty(&self) -> (res: bool)
        requires
            self.wf(),
        ensures
            res == (self@.len() == 0),
    {
        self.blobs.len() == 0
    }

    /// A base blob's bytes. `shown` is the path as messages show it.
    pub fn read(&self, oid: &ObjectId, shown: &str) -> (res: Result<Vec<u8>, OverlayError>)
        requires
            self.wf(),
        ensures
            self@.contains_key(oid@.key()) ==> (res matches Ok(b) && b@ == self@[oid@.key()]@),
            !self@.contains_key(oid@.key()) ==> (res matches Err(e) && e.condition == Condition::Io
                && e.message@ == "the base blob for "@ + shown@ + " ("@ + oid@.qualified()
                + ") was not pre-fetched"@),
    {
        let key = oid.key();
        match self.blobs.get(key.as_slice()) {
            Some(b) => Ok(copy_bytes(b.as_slice())),
            None => {
                let mut message = "the base blob for ".to_owned();
                message.append(shown);
                message.append(" (");
                message.append(oid.to_qualified().as_str());
                message.append(") was not pre-fetched");
                Err(OverlayError { condition: Condition::Io, message })
            },
        }
    }
}

/// A rename or a mode change downloads no old side.
pub proof fn law_a_rename_needs_no_old_side(changes: Seq<StatusChange>, rows: Seq<Option<OverlayEntry>>, n: nat)
    requires
        0 < n <= changes.len(),
        changes[n - 1].kind == ChangeKind::Renamed || !changes[n - 1].content_change,
        rows[n - 1] is None,
    ensures
        wanted_of(changes, rows, n) == wanted_of(changes, rows, (n - 1) as nat),
{
}

} // verus!
