//! The inode table.
//!
//! Two maps with different lifetimes. `by_path` numbers a path and is never
//! pruned, which is what keeps a path's number stable. `records` holds the
//! metadata behind a live inode and is pruned when the kernel's lookup count
//! reaches zero and no descriptor is open.
use std::collections::HashMap;
use vstd::prelude::*;
use crate::bytemap::ByteMap;
use crate::bytes::{append_bytes, copy_bytes, sub_bytes};
use crate::entry::{TreeEntryInfo, TreeEntryView};
use crate::node::{Node, NodeView, OverlayEntry};
use crate::path::{base_name, is_within, parent, parent_of, within, BytePath};

verus! {

/// The root's inode number, fixed by the kernel protocol.
pub const ROOT_INO: u64 = 1;

/// Where the numbers the overlay hands out itself begin.
pub const OVERLAY_INO_BASE: u64 = 0x4000_0000_0000_0000;

/// One live inode.
#[derive(Debug)]
pub struct Record {
    pub ino: u64,
    pub path: BytePath,
    pub node: Node,
    /// Bumped when a regular file's bytes change behind the kernel.
    pub generation: u64,
    /// The kernel's outstanding lookup count.
    pub lookups: u64,
    /// Open file and directory handles.
    pub opens: u32,
}

/// What a [`Record`] denotes.
pub struct RecordView {
    pub ino: u64,
    pub path: Seq<u8>,
    pub node: NodeView,
    pub generation: u64,
    pub lookups: u64,
    pub opens: u32,
}

impl View for Record {
    type V = RecordView;

    open spec fn view(&self) -> RecordView {
        RecordView {
            ino: self.ino,
            path: self.path@,
            node: self.node@,
            generation: self.generation,
            lookups: self.lookups,
            opens: self.opens,
        }
    }
}

impl Record {
    /// An owned copy.
    pub fn duplicate(&self) -> (res: Record)
        ensures
            res@ == self@,
    {
        Record {
            ino: self.ino,
            path: self.path.duplicate(),
            node: self.node.duplicate(),
            generation: self.generation,
            lookups: self.lookups,
            opens: self.opens,
        }
    }
}

/// A kernel-cached name that no longer describes what its path holds: the
/// directory entry to drop and the inode whose cached pages may be stale.
#[derive(Debug)]
pub struct StaleEntry {
    pub parent: u64,
    pub name: Vec<u8>,
    pub ino: u64,
}

/// What a [`StaleEntry`] denotes.
#[verifier::ext_equal]
pub struct StaleView {
    pub parent: u64,
    pub name: Seq<u8>,
    pub ino: u64,
}

impl View for StaleEntry {
    type V = StaleView;

    open spec fn view(&self) -> StaleView {
        StaleView { parent: self.parent, name: self.name@, ino: self.ino }
    }
}

/// What an [`InodeTable`] denotes.
#[verifier::ext_equal]
pub struct TableView {
    pub by_path: Map<Seq<u8>, u64>,
    pub records: Map<u64, RecordView>,
    pub next: u64,
}

impl TableView {
    /// The number a path has, or would get.
    pub open spec fn number_of(self, path: Seq<u8>) -> u64 {
        if self.by_path.contains_key(path) {
            self.by_path[path]
        } else {
            self.next
        }
    }

    /// After a path was numbered: a known path keeps its number.
    pub open spec fn numbered(self, path: Seq<u8>) -> TableView {
        if self.by_path.contains_key(path) {
            self
        } else {
            TableView {
                by_path: self.by_path.insert(path, self.next),
                next: (self.next + 1) as u64,
                ..self
            }
        }
    }

    /// After a path was offered a number: a known path keeps its own.
    pub open spec fn bound(self, path: Seq<u8>, ino: u64) -> TableView {
        if self.by_path.contains_key(path) {
            self
        } else {
            TableView {
                by_path: self.by_path.insert(path, ino),
                next: if self.next <= ino < OVERLAY_INO_BASE {
                    (ino + 1) as u64
                } else {
                    self.next
                },
                ..self
            }
        }
    }

    /// After the number a node brings was offered.
    pub open spec fn adopted(self, path: Seq<u8>, node: NodeView) -> TableView {
        match node.preferred() {
            Some(ino) => self.bound(path, ino),
            None => self,
        }
    }

    /// Whether a lookup can be recorded: there is a number for the path, and
    /// its record can count one more reference.
    pub open spec fn can_look_up(self, path: Seq<u8>, node: NodeView) -> bool {
        let s = self.adopted(path, node);
        &&& s.by_path.contains_key(path) || s.next < u64::MAX
        &&& s.records.contains_key(s.number_of(path)) ==> s.records[s.number_of(path)].lookups
            < u64::MAX
    }

    /// The record a lookup leaves: a live one keeps its path and counts, and
    /// takes the node and one more reference.
    pub open spec fn lookup_record(self, path: Seq<u8>, node: NodeView) -> RecordView {
        let ino = self.adopted(path, node).number_of(path);
        if self.records.contains_key(ino) {
            RecordView {
                node,
                lookups: (self.records[ino].lookups + 1) as u64,
                ..self.records[ino]
            }
        } else {
            RecordView { ino, path, node, generation: 0, lookups: 1, opens: 0 }
        }
    }

    /// After a successful lookup.
    pub open spec fn looked_up(self, path: Seq<u8>, node: NodeView) -> TableView {
        let s = self.adopted(path, node).numbered(path);
        let record = self.lookup_record(path, node);
        TableView {
            records: s.records.insert(self.adopted(path, node).number_of(path), record),
            ..s
        }
    }

    /// After the kernel dropped `n` references. The root's are not counted; a
    /// record without references or descriptors goes.
    pub open spec fn forgotten(self, ino: u64, n: u64) -> TableView {
        if ino == ROOT_INO || !self.records.contains_key(ino) {
            self
        } else {
            let r = self.records[ino];
            let left: u64 = if r.lookups >= n {
                (r.lookups - n) as u64
            } else {
                0
            };
            if left == 0 && r.opens == 0 {
                TableView { records: self.records.remove(ino), ..self }
            } else {
                TableView {
                    records: self.records.insert(ino, RecordView { lookups: left, ..r }),
                    ..self
                }
            }
        }
    }

    /// After a descriptor was opened.
    pub open spec fn opened(self, ino: u64) -> TableView {
        if !self.records.contains_key(ino) {
            self
        } else {
            let r = self.records[ino];
            TableView {
                records: self.records.insert(ino, RecordView { opens: (r.opens + 1) as u32, ..r }),
                ..self
            }
        }
    }

    /// After a descriptor was closed. A record without references or
    /// descriptors goes, but not the root's.
    pub open spec fn closed(self, ino: u64) -> TableView {
        if !self.records.contains_key(ino) {
            self
        } else {
            let r = self.records[ino];
            let left: u32 = if r.opens >= 1 {
                (r.opens - 1) as u32
            } else {
                0
            };
            if r.lookups == 0 && left == 0 && r.ino != ROOT_INO {
                TableView { records: self.records.remove(ino), ..self }
            } else {
                TableView {
                    records: self.records.insert(ino, RecordView { opens: left, ..r }),
                    ..self
                }
            }
        }
    }

    /// After a live inode's node was replaced.
    pub open spec fn refreshed(self, ino: u64, node: NodeView) -> TableView {
        if !self.records.contains_key(ino) {
            self
        } else {
            TableView {
                records: self.records.insert(ino, RecordView { node, ..self.records[ino] }),
                ..self
            }
        }
    }

    /// The dentry a record's path is cached under, when its parent is known.
    pub open spec fn stale_of(self, path: Seq<u8>, ino: u64) -> Option<StaleView> {
        if self.by_path.contains_key(parent(path)) {
            Some(StaleView { parent: self.by_path[parent(path)], name: base_name(path), ino })
        } else {
            None
        }
    }

    /// A record after the table was pointed at another root: the root
    /// describes the new tree, a regular file is a new generation.
    pub open spec fn repinned_record(self, ino: u64, root: TreeEntryView) -> RecordView {
        let r = self.records[ino];
        if ino == ROOT_INO {
            RecordView { node: NodeView::Base(root), ..r }
        } else if r.node.regular_file() {
            RecordView { generation: (r.generation + 1) as u64, ..r }
        } else {
            r
        }
    }

    /// After the table was pointed at another root: numbers are untouched.
    pub open spec fn repinned(self, root: TreeEntryView) -> TableView {
        TableView {
            records: Map::new(
                |ino: u64| self.records.contains_key(ino),
                |ino: u64| self.repinned_record(ino, root),
            ),
            ..self
        }
    }

    /// The dentry a re-pin must drop for a live inode: none for the root, for
    /// an empty name, or under an unknown parent.
    pub open spec fn dropped_dentry(self, ino: u64) -> Option<StaleView> {
        if ino == ROOT_INO || !self.records.contains_key(ino) || base_name(
            self.records[ino].path,
        ).len() == 0 {
            None
        } else {
            self.stale_of(self.records[ino].path, ino)
        }
    }

    /// Whether a list names each dentry a re-pin must drop, once.
    pub open spec fn drops(self, list: Seq<StaleView>) -> bool {
        &&& forall|i: int|
            0 <= i < list.len() ==> self.dropped_dentry((#[trigger] list[i]).ino) == Some(list[i])
        &&& forall|ino: u64|
            self.dropped_dentry(ino) is Some ==> #[trigger] exists_at(list, ino)
        &&& forall|i: int, j: int|
            0 <= i < j < list.len() ==> (#[trigger] list[i]).ino != (#[trigger] list[j]).ino
    }

    /// Whether `t` and `res` are what a rewrite behind the kernel leaves: a
    /// live regular file is a new generation, and its dentry is to be dropped.
    pub open spec fn rewrites(self, t: TableView, path: Seq<u8>, res: Option<StaleEntry>) -> bool {
        if self.is_live_file(path) {
            let ino = self.by_path[path];
            let r = self.records[ino];
            &&& t == (TableView {
                records: self.records.insert(
                    ino,
                    RecordView { generation: (r.generation + 1) as u64, ..r },
                ),
                ..self
            })
            &&& match self.stale_of(path, ino) {
                Some(stale) => res matches Some(e) && e@ == stale,
                None => res is None,
            }
        } else {
            t == self && res is None
        }
    }

    /// Whether a path moves with `from`.
    pub open spec fn moves(self, path: Seq<u8>, from: Seq<u8>) -> bool {
        self.by_path.contains_key(path) && within(path, from)
    }

    /// The numbers after `from` and everything under it moved to `to`: every
    /// number moves with its path, and what the destination held gives way.
    pub open spec fn moved_numbers(self, from: Seq<u8>, to: Seq<u8>) -> Map<Seq<u8>, u64> {
        Map::new(
            |p: Seq<u8>|
                arrives(self, p, from, to) || (self.by_path.contains_key(p) && !within(p, from)),
            |p: Seq<u8>|
                if arrives(self, p, from, to) {
                    self.by_path[origin(p, from, to)]
                } else {
                    self.by_path[p]
                },
        )
    }

    /// Whether `t` is the table after `from` moved to `to`. A live inode whose
    /// path moved carries a destination path of its number; no other record
    /// changes.
    pub open spec fn renames(self, t: TableView, from: Seq<u8>, to: Seq<u8>) -> bool {
        &&& t.by_path == self.moved_numbers(from, to)
        &&& t.next == self.next
        &&& t.records.dom() == self.records.dom()
        &&& forall|ino: u64|
            self.records.contains_key(ino) ==> moved_record(self, #[trigger] t.records[ino], ino, from, to)
    }

    /// Whether a list names each moved path with its number, once.
    pub open spec fn lists_moves(self, list: Seq<(u64, Seq<u8>)>, from: Seq<u8>, to: Seq<u8>) -> bool {
        &&& forall|i: int|
            0 <= i < list.len() ==> arrives(self, (#[trigger] list[i]).1, from, to) && list[i].0
                == self.by_path[origin(list[i].1, from, to)]
        &&& forall|p: Seq<u8>|
            #[trigger] arrives(self, p, from, to) ==> exists|i: int|
                0 <= i < list.len() && (#[trigger] list[i]).1 == p
        &&& forall|i: int, j: int|
            0 <= i < j < list.len() ==> (#[trigger] list[i]).1 != (#[trigger] list[j]).1
    }
}

/// Whether a stale list names an inode.
pub open spec fn exists_at(list: Seq<StaleView>, ino: u64) -> bool {
    exists|i: int| 0 <= i < list.len() && (#[trigger] list[i]).ino == ino
}

/// Where a path under `from` goes when `from` moves to `to`.
pub open spec fn destination(path: Seq<u8>, from: Seq<u8>, to: Seq<u8>) -> Seq<u8> {
    to + path.skip(from.len() as int)
}

/// Where a path under `to` came from when `from` moved to `to`.
pub open spec fn origin(path: Seq<u8>, from: Seq<u8>, to: Seq<u8>) -> Seq<u8> {
    from + path.skip(to.len() as int)
}

/// Whether a path is the destination of one that moves.
pub open spec fn arrives(s: TableView, p: Seq<u8>, from: Seq<u8>, to: Seq<u8>) -> bool {
    crate::bytes::has_prefix(p, to) && s.moves(origin(p, from, to), from)
}

/// What becomes of the record of `ino` when `from` moves to `to`.
pub open spec fn moved_record(
    s: TableView,
    r: RecordView,
    ino: u64,
    from: Seq<u8>,
    to: Seq<u8>,
) -> bool {
    let was = s.records[ino];
    let carried = exists|q: Seq<u8>| #[trigger] s.moves(q, from) && s.by_path[q] == ino;
    &&& r == (RecordView { path: r.path, ..was })
    &&& !carried ==> r.path == was.path
    &&& carried ==> exists|q: Seq<u8>|
        #[trigger] s.moves(q, from) && s.by_path[q] == ino && r.path == destination(q, from, to)
}

proof fn lemma_destination(s: TableView, q: Seq<u8>, from: Seq<u8>, to: Seq<u8>)
    requires
        s.moves(q, from),
    ensures
        origin(destination(q, from, to), from, to) == q,
        arrives(s, destination(q, from, to), from, to),
{
    let d = destination(q, from, to);
    assert(d.skip(to.len() as int) =~= q.skip(from.len() as int));
    assert(d.subrange(0, to.len() as int) =~= to);
    if from.len() == 0 {
        assert(origin(d, from, to) =~= q);
    } else if q == from {
        assert(origin(d, from, to) =~= q);
    } else {
        assert(q.subrange(0, from.len() as int) == from);
        assert(origin(d, from, to) =~= q.subrange(0, from.len() as int) + q.skip(from.len() as int));
        assert(origin(d, from, to) =~= q);
    }
}

proof fn lemma_arrival(p: Seq<u8>, from: Seq<u8>, to: Seq<u8>)
    requires
        crate::bytes::has_prefix(p, to),
    ensures
        destination(origin(p, from, to), from, to) == p,
{
    assert(origin(p, from, to).skip(from.len() as int) =~= p.skip(to.len() as int));
    assert(p.subrange(0, to.len() as int) + p.skip(to.len() as int) =~= p);
}

/// A table that knows its root alone.
pub open spec fn fresh_table(root: TreeEntryView) -> TableView {
    TableView {
        by_path: Map::empty().insert(Seq::empty(), ROOT_INO),
        records: Map::empty().insert(
            ROOT_INO,
            RecordView {
                ino: ROOT_INO,
                path: Seq::empty(),
                node: NodeView::Base(root),
                generation: 0,
                lookups: 1,
                opens: 0,
            },
        ),
        next: 2,
    }
}

/// The inode numbers of a mount and the records of its live inodes.
#[derive(Debug)]
pub struct InodeTable {
    by_path: ByteMap<u64>,
    records: HashMap<u64, Record>,
    next: u64,
}

impl View for InodeTable {
    type V = TableView;

    closed spec fn view(&self) -> TableView {
        TableView {
            by_path: self.by_path@,
            records: self.records@.map_values(|r: Record| r@),
            next: self.next,
        }
    }
}

impl InodeTable {
    /// Records stand under their own numbers, and the root has one.
    pub closed spec fn wf(&self) -> bool {
        &&& self.by_path.wf()
        &&& self@.records.contains_key(ROOT_INO)
        &&& forall|ino: u64| #[trigger]
            self@.records.contains_key(ino) ==> self@.records[ino].ino == ino
    }

    /// What well-formedness promises a caller.
    pub proof fn lemma_wf(&self)
        requires
            self.wf(),
        ensures
            self@.records.contains_key(ROOT_INO),
            forall|ino: u64| #[trigger]
                self@.records.contains_key(ino) ==> self@.records[ino].ino == ino,
    {
    }

    /// Build a table whose root is the snapshot root.
    pub fn new(root: TreeEntryInfo) -> (res: InodeTable)
        ensures
            res.wf(),
            res@ == fresh_table(root@),
    {
        broadcast use vstd::std_specs::hash::group_hash_axioms;

        let mut by_path: ByteMap<u64> = ByteMap::new();
        let top: Vec<u8> = Vec::new();
        assert(top@ =~= Seq::<u8>::empty());
        by_path.insert(top, ROOT_INO);
        let mut records: HashMap<u64, Record> = HashMap::new();
        records.insert(
            ROOT_INO,
            Record {
                ino: ROOT_INO,
                path: BytePath::root(),
                node: Node::Base(root),
                generation: 0,
                lookups: 1,
                opens: 0,
            },
        );
        let res = InodeTable { by_path, records, next: 2 };
        assert(res@.by_path =~= Map::empty().insert(Seq::<u8>::empty(), ROOT_INO));
        assert(res@.records.dom() =~= Set::empty().insert(ROOT_INO));
        assert(res@.records =~= Map::empty().insert(ROOT_INO, res@.records[ROOT_INO]));
        res
    }

    /// The live record of an inode.
    pub fn get(&self, ino: u64) -> (res: Option<&Record>)
        requires
            self.wf(),
        ensures
            res is Some <==> self@.records.contains_key(ino),
            res matches Some(r) ==> r@ == self@.records[ino],
    {
        broadcast use vstd::std_specs::hash::group_hash_axioms;

        self.records.get(&ino)
    }

    /// The path of a live inode.
    pub fn path(&self, ino: u64) -> (res: Option<BytePath>)
        requires
            self.wf(),
        ensures
            res is Some <==> self@.records.contains_key(ino),
            res matches Some(p) ==> p@ == self@.records[ino].path,
    {
        match self.get(ino) {
            Some(r) => Some(r.path.duplicate()),
            None => None,
        }
    }

    /// Put a record under its number.
    fn put(&mut self, record: Record)
        requires
            old(self).wf(),
        ensures
            final(self).wf(),
            final(self)@ == (TableView {
                records: old(self)@.records.insert(record.ino, record@),
                ..old(self)@
            }),
            final(self).by_path == old(self).by_path,
    {
        broadcast use vstd::std_specs::hash::group_hash_axioms;

        let ghost before = self@;
        self.records.insert(record.ino, record);
        assert(self@.records =~= before.records.insert(record.ino, record@));
    }

    /// Take a record out to change or drop it.
    fn take(&mut self, ino: u64) -> (res: Option<Record>)
        requires
            old(self).wf(),
        ensures
            final(self)@ == (TableView { records: old(self)@.records.remove(ino), ..old(self)@ }),
            final(self).by_path == old(self).by_path,
            res is Some <==> old(self)@.records.contains_key(ino),
            res matches Some(r) ==> r@ == old(self)@.records[ino],
    {
        broadcast use vstd::std_specs::hash::group_hash_axioms;

        let ghost before = self@;
        let res = self.records.remove(&ino);
        assert(self@.records =~= before.records.remove(ino));
        res
    }

    /// Replace the record of a live inode by one with the same number.
    fn swap(&mut self, ino: u64, record: Record)
        requires
            old(self).wf(),
            record.ino == ino,
        ensures
            final(self).wf(),
            final(self)@ == (TableView {
                records: old(self)@.records.insert(ino, record@),
                ..old(self)@
            }),
    {
        self.put(record);
    }

    /// Whether a lookup can be recorded: there is a number for the path, and
    /// its record can count one more reference.
    pub fn fits(&self, path: &BytePath, node: &Node) -> (res: bool)
        requires
            self.wf(),
        ensures
            res == self@.can_look_up(path@, node@),
    {
        let ino = match self.by_path.get(path.as_bytes()) {
            Some(ino) => *ino,
            None => match node.preferred_ino() {
                Some(ino) => ino,
                None => {
                    if self.next == u64::MAX {
                        return false;
                    }
                    self.next
                },
            },
        };
        match self.records.get(&ino) {
            Some(record) => record.lookups < u64::MAX,
            None => true,
        }
    }

    /// The stable inode number for a path, assigning one on first sight.
    pub fn number_for_path(&mut self, path: &BytePath) -> (res: u64)
        requires
            old(self).wf(),
            old(self)@.by_path.contains_key(path@) || old(self)@.next < u64::MAX,
        ensures
            final(self).wf(),
            res == old(self)@.number_of(path@),
            final(self)@ == old(self)@.numbered(path@),
    {
        match self.by_path.get(path.as_bytes()) {
            Some(ino) => {
                return *ino;
            },
            None => {},
        }
        let ino = self.next;
        self.next = self.next + 1;
        self.by_path.insert(copy_bytes(path.as_bytes()), ino);
        ino
    }

    /// Adopt a number a node brought with it, unless the path already has one:
    /// a live number outranks a recorded one.
    fn bind_if_absent(&mut self, path: &BytePath, ino: u64)
        requires
            old(self).wf(),
        ensures
            final(self).wf(),
            final(self)@ == old(self)@.bound(path@, ino),
            final(self).records == old(self).records,
    {
        if self.by_path.contains(path.as_bytes()) {
            return;
        }
        self.by_path.insert(copy_bytes(path.as_bytes()), ino);
        if ino >= self.next && ino < OVERLAY_INO_BASE {
            self.next = ino + 1;
        }
    }

    /// Restore the numbers a previous process handed out.
    pub fn seed(&mut self, entries: &[OverlayEntry])
        requires
            old(self).wf(),
        ensures
            final(self).wf(),
            final(self)@ == seeded(old(self)@, entries@, entries@.len()),
    {
        let mut i: usize = 0;
        while i < entries.len()
            invariant
                i <= entries@.len(),
                self.wf(),
                self@ == seeded(old(self)@, entries@, i as nat),
            decreases entries.len() - i,
        {
            self.bind_if_absent(&entries[i].path, entries[i].ino);
            i = i + 1;
        }
    }

    /// Replace what a live inode is backed by, keeping its number and counts.
    pub fn refresh(&mut self, ino: u64, node: Node)
        requires
            old(self).wf(),
        ensures
            final(self).wf(),
            final(self)@ == old(self)@.refreshed(ino, node@),
    {
        let ghost before = self@;
        let found = match self.get(ino) {
            Some(r) => r.duplicate(),
            None => {
                return;
            },
        };
        let mut record = found;
        record.node = node;
        self.swap(ino, record);
    }

    /// Record a successful lookup, refreshing the node and counting one more
    /// of the kernel's references.
    pub fn insert_lookup(&mut self, path: BytePath, node: Node) -> (res: Record)
        requires
            old(self).wf(),
            old(self)@.can_look_up(path@, node@),
        ensures
            final(self).wf(),
            final(self)@ == old(self)@.looked_up(path@, node@),
            res@ == old(self)@.lookup_record(path@, node@),
            res.ino == old(self)@.adopted(path@, node@).number_of(path@),
    {
        match node.preferred_ino() {
            Some(ino) => {
                self.bind_if_absent(&path, ino);
            },
            None => {},
        }
        let ino = self.number_for_path(&path);
        let record = match self.get(ino) {
            Some(r) => {
                let mut record = r.duplicate();
                record.node = node;
                record.lookups = record.lookups + 1;
                record
            },
            None => Record { ino, path, node, generation: 0, lookups: 1, opens: 0 },
        };
        let res = record.duplicate();
        self.put(record);
        res
    }

    /// Record an entry a directory read returned with its attributes, which
    /// counts as a lookup.
    pub fn insert_readdirplus(&mut self, path: BytePath, node: Node) -> (res: Record)
        requires
            old(self).wf(),
            old(self)@.can_look_up(path@, node@),
        ensures
            final(self).wf(),
            final(self)@ == old(self)@.looked_up(path@, node@),
            res@ == old(self)@.lookup_record(path@, node@),
            res.ino == old(self)@.adopted(path@, node@).number_of(path@),
    {
        self.insert_lookup(path, node)
    }

    /// Drop `nlookup` of the kernel's references.
    pub fn forget(&mut self, ino: u64, nlookup: u64)
        requires
            old(self).wf(),
        ensures
            final(self).wf(),
            final(self)@ == old(self)@.forgotten(ino, nlookup),
    {
        if ino == ROOT_INO {
            return;
        }
        let ghost before = self@;
        match self.take(ino) {
            Some(r) => {
                let mut record = r;
                record.lookups = record.lookups.saturating_sub(nlookup);
                if !(record.lookups == 0 && record.opens == 0) {
                    proof {
                        assert(self.wf());
                    }
                    self.put(record);
                    assert(self@.records =~= before.forgotten(ino, nlookup).records);
                }
            },
            None => {
                assert(self@.records =~= before.records);
            },
        }
    }

    /// Count one more open descriptor.
    pub fn open(&mut self, ino: u64)
        requires
            old(self).wf(),
            old(self)@.records.contains_key(ino) ==> old(self)@.records[ino].opens < u32::MAX,
        ensures
            final(self).wf(),
            final(self)@ == old(self)@.opened(ino),
    {
        let mut record = match self.get(ino) {
            Some(r) => r.duplicate(),
            None => {
                return;
            },
        };
        record.opens = record.opens + 1;
        self.swap(ino, record);
    }

    /// Count one descriptor less.
    pub fn close(&mut self, ino: u64)
        requires
            old(self).wf(),
        ensures
            final(self).wf(),
            final(self)@ == old(self)@.closed(ino),
    {
        let ghost before = self@;
        let mut record = match self.get(ino) {
            Some(r) => r.duplicate(),
            None => {
                return;
            },
        };
        record.opens = record.opens.saturating_sub(1);
        if record.lookups == 0 && record.opens == 0 && record.ino != ROOT_INO {
            let _ = self.take(ino);
        } else {
            self.swap(ino, record);
        }
    }

    /// The numbers of all live inodes.
    fn live_inos(&self) -> (res: Vec<u64>)
        requires
            self.wf(),
        ensures
            res@.no_duplicates(),
            forall|ino: u64| #[trigger] res@.contains(ino) <==> self@.records.contains_key(ino),
    {
        broadcast use vstd::std_specs::hash::group_hash_axioms;

        let mut out: Vec<u64> = Vec::new();
        let ghost listed = vstd::std_specs::iter::IteratorSpec::remaining(&self.records.keys());
        for k in it: self.records.keys()
            invariant
                it.seq() == listed,
                out@.len() == it.index(),
                forall|i: int| 0 <= i < out@.len() ==> #[trigger] out@[i] == *it.seq()[i],
        {
            out.push(*k);
        }
        assert(out@ =~= listed.unref());
        assert(listed.unref().to_set() == self.records@.dom());
        assert forall|ino: u64| #[trigger] out@.contains(ino) <==> self@.records.contains_key(ino) by {
            assert(listed.unref().to_set().contains(ino) <==> out@.contains(ino));
        }
        out
    }

    /// Move a path and everything under it, keeping every inode number. The
    /// moved numbers come back with their new paths.
    pub fn rename_subtree(&mut self, from: &BytePath, to: &BytePath) -> (res: Vec<(u64, BytePath)>)
        requires
            old(self).wf(),
        ensures
            final(self).wf(),
            old(self)@.renames(final(self)@, from@, to@),
            old(self)@.lists_moves(move_views(res@), from@, to@),
    {
        let ghost s = self@;
        let f = from.as_bytes();
        let t = to.as_bytes();
        let moving = self.moving_paths(f);
        let mut moved: Vec<(u64, BytePath)> = Vec::new();
        proof {
            assert(s.by_path =~= staged(s, f@, t@, moving@, 0, 0)) by {
                assert forall|p: Seq<u8>| s.by_path.contains_key(p) <==> staged(
                    s,
                    f@,
                    t@,
                    moving@,
                    0,
                    0,
                ).contains_key(p) by {}
            }
        }
        let mut i: usize = 0;
        while i < moving.len()
            invariant
                i <= moving@.len(),
                self.wf(),
                f@ == from@,
                t@ == to@,
                is_moving(s, f@, moving@),
                self@ == (TableView { by_path: staged(s, f@, t@, moving@, i as nat, 0), ..s }),
            decreases moving.len() - i,
        {
            let ghost before = self@.by_path;
            let _ = self.by_path.remove(moving[i].0.as_slice());
            proof {
                assert(before.remove(moving@[i as int].0@) =~= staged(
                    s,
                    f@,
                    t@,
                    moving@,
                    (i + 1) as nat,
                    0,
                ));
            }
            i = i + 1;
        }
        let n = moving.len();
        let mut k: usize = 0;
        while k < n
            invariant
                k <= n,
                n == moving@.len(),
                self.wf(),
                f@ == from@,
                t@ == to@,
                is_moving(s, f@, moving@),
                self@.by_path == staged(s, f@, t@, moving@, n as nat, k as nat),
                self@.next == s.next,
                self@.records.dom() == s.records.dom(),
                forall|ino: u64|
                    s.records.contains_key(ino) ==> moved_upto(
                        s,
                        #[trigger] self@.records[ino],
                        ino,
                        f@,
                        t@,
                        moving@,
                        k as nat,
                    ),
                moved@.len() == k,
                forall|j: int|
                    0 <= j < k ==> (#[trigger] moved@[j]).0 == moving@[j].1 && moved@[j].1@
                        == destination(moving@[j].0@, f@, t@),
            decreases n - k,
        {
            let ino = moving[k].1;
            let path = moving[k].0.as_slice();
            let ghost q = moving@[k as int].0@;
            assert(s.moves(q, f@));
            let mut target = copy_bytes(t);
            append_bytes(&mut target, sub_bytes(path, f.len(), path.len()).as_slice());
            assert(target@ =~= destination(q, f@, t@));
            let ghost before = self@;
            self.by_path.insert(copy_bytes(target.as_slice()), ino);
            proof {
                lemma_staged_step(s, f@, t@, moving@, n as nat, k as nat);
            }
            let target = BytePath::new(target);
            let live = match self.get(ino) {
                Some(r) => Some(r.duplicate()),
                None => None,
            };
            match live {
                Some(r) => {
                    let mut record = r;
                    record.path = target.duplicate();
                    self.swap(ino, record);
                },
                None => {},
            }
            proof {
                assert(self@.records.dom() =~= s.records.dom());
                assert forall|other: u64| s.records.contains_key(other) implies moved_upto(
                    s,
                    #[trigger] self@.records[other],
                    other,
                    f@,
                    t@,
                    moving@,
                    (k + 1) as nat,
                ) by {
                    assert(moved_upto(s, before.records[other], other, f@, t@, moving@, k as nat));
                    if other == ino {
                        assert(moving@[k as int].1 == ino);
                    } else {
                        assert(self@.records[other] == before.records[other]);
                        let r = before.records[other];
                        if exists|j: int| 0 <= j < k && (#[trigger] moving@[j]).1 == other {
                        } else {
                            assert forall|j: int| 0 <= j < k + 1 implies (#[trigger] moving@[j]).1
                                != other by {}
                        }
                    }
                }
            }
            moved.push((ino, target));
            k = k + 1;
        }
        proof {
            lemma_staged_done(s, f@, t@, moving@);
            assert forall|ino: u64| s.records.contains_key(ino) implies moved_record(
                s,
                #[trigger] self@.records[ino],
                ino,
                f@,
                t@,
            ) by {
                let r = self@.records[ino];
                assert(moved_upto(s, r, ino, f@, t@, moving@, n as nat));
                if exists|q: Seq<u8>| #[trigger] s.moves(q, f@) && s.by_path[q] == ino {
                    let q = choose|q: Seq<u8>| #[trigger] s.moves(q, f@) && s.by_path[q] == ino;
                    let j = choose|j: int| 0 <= j < moving@.len() && (#[trigger] moving@[j]).0@ == q;
                    assert(moving@[j].1 == ino);
                    let m = choose|m: int|
                        0 <= m < n && (#[trigger] moving@[m]).1 == ino && r.path == destination(
                            moving@[m].0@,
                            f@,
                            t@,
                        );
                    assert(s.moves(moving@[m].0@, f@));
                } else {
                    assert forall|j: int| 0 <= j < n implies (#[trigger] moving@[j]).1 != ino by {
                        assert(s.moves(moving@[j].0@, f@));
                    }
                }
            }
            let list = move_views(moved@);
            assert forall|i: int| 0 <= i < list.len() implies arrives(
                s,
                (#[trigger] list[i]).1,
                f@,
                t@,
            ) && list[i].0 == s.by_path[origin(list[i].1, f@, t@)] by {
                assert(moved@[i].0 == moving@[i].1);
                lemma_destination(s, moving@[i].0@, f@, t@);
            }
            assert forall|p: Seq<u8>| #[trigger] arrives(s, p, f@, t@) implies exists|i: int|
                0 <= i < list.len() && (#[trigger] list[i]).1 == p by {
                let q = origin(p, f@, t@);
                assert(s.moves(q, f@));
                let j = choose|j: int| 0 <= j < moving@.len() && (#[trigger] moving@[j]).0@ == q;
                lemma_arrival(p, f@, t@);
                assert(moved@[j].1@ == p);
                assert(list[j].1 == p);
            }
            assert forall|i: int, j: int| 0 <= i < j < list.len() implies (#[trigger] list[i]).1 != (
            #[trigger] list[j]).1 by {
                assert(moved@[i].0 == moving@[i].1);
                assert(moved@[j].0 == moving@[j].1);
                lemma_destination(s, moving@[i].0@, f@, t@);
                lemma_destination(s, moving@[j].0@, f@, t@);
                assert(moving@[i].0@ != moving@[j].0@);
            }
        }
        moved
    }

    /// The paths at or under `from`, with their numbers.
    fn moving_paths(&self, from: &[u8]) -> (res: Vec<(Vec<u8>, u64)>)
        requires
            self.wf(),
        ensures
            is_moving(self@, from@, res@),
    {
        let n = self.by_path.len();
        let ghost keys = self.by_path.key_seq();
        proof {
            self.by_path.lemma_keys();
        }
        let mut out: Vec<(Vec<u8>, u64)> = Vec::new();
        let mut i: usize = 0;
        while i < n
            invariant
                i <= n,
                n == keys.len(),
                self.wf(),
                keys == self.by_path.key_seq(),
                keys.no_duplicates(),
                forall|k: Seq<u8>| #[trigger] self@.by_path.contains_key(k) <==> keys.contains(k),
                forall|j: int|
                    0 <= j < out@.len() ==> self@.moves((#[trigger] out@[j]).0@, from@) && out@[j].1
                        == self@.by_path[out@[j].0@],
                forall|j: int|
                    0 <= j < out@.len() ==> exists|m: int|
                        0 <= m < i && #[trigger] keys[m] == (#[trigger] out@[j]).0@,
                forall|m: int|
                    0 <= m < i && within(#[trigger] keys[m], from@) ==> exists|j: int|
                        0 <= j < out@.len() && (#[trigger] out@[j]).0@ == keys[m],
                forall|a: int, b: int|
                    0 <= a < b < out@.len() ==> (#[trigger] out@[a]).0@ != (#[trigger] out@[b]).0@,
            decreases n - i,
        {
            let key = self.by_path.key_at(i);
            if is_within(key.as_slice(), from) {
                let ino = *self.by_path.value_at(i);
                let ghost before = out@;
                out.push((copy_bytes(key.as_slice()), ino));
                proof {
                    let last = before.len() as int;
                    assert(out@[last].0@ == keys[i as int]);
                    assert forall|m: int| 0 <= m < i + 1 && within(#[trigger] keys[m], from@) implies exists|
                        j: int,
                    | 0 <= j < out@.len() && (#[trigger] out@[j]).0@ == keys[m] by {
                        if m < i {
                            let j = choose|j: int|
                                0 <= j < before.len() && (#[trigger] before[j]).0@ == keys[m];
                            assert(out@[j].0@ == keys[m]);
                        }
                    }
                    assert forall|j: int| 0 <= j < out@.len() implies exists|m: int|
                        0 <= m < i + 1 && #[trigger] keys[m] == (#[trigger] out@[j]).0@ by {
                        if j < last {
                            let m = choose|m: int| 0 <= m < i && #[trigger] keys[m] == before[j].0@;
                            assert(keys[m] == out@[j].0@);
                        } else {
                            assert(keys[i as int] == out@[j].0@);
                        }
                    }
                    assert forall|a: int, b: int| 0 <= a < b < out@.len() implies (#[trigger] out@[a]).0@
                        != (#[trigger] out@[b]).0@ by {
                        if b == last {
                            let m = choose|m: int| 0 <= m < i && #[trigger] keys[m] == before[a].0@;
                            assert(keys[m] != keys[i as int]);
                        } else {
                            assert(before[a].0@ != before[b].0@);
                        }
                    }
                }
            }
            i = i + 1;
        }
        proof {
            assert forall|q: Seq<u8>| #[trigger] self@.moves(q, from@) implies exists|j: int|
                0 <= j < out@.len() && (#[trigger] out@[j]).0@ == q by {
                assert(keys.contains(q));
                let m = choose|m: int| 0 <= m < keys.len() && keys[m] == q;
                assert(within(keys[m], from@));
            }
        }
        out
    }

    /// Whether every live inode could become a new generation.
    pub fn can_repin(&self) -> (res: bool)
        requires
            self.wf(),
        ensures
            res == generations_left(self@),
    {
        let inos = self.live_inos();
        let mut i: usize = 0;
        while i < inos.len()
            invariant
                i <= inos@.len(),
                self.wf(),
                forall|ino: u64| #[trigger] inos@.contains(ino) <==> self@.records.contains_key(ino),
                forall|j: int|
                    0 <= j < i ==> self@.records[#[trigger] inos@[j]].generation < u64::MAX,
            decreases inos.len() - i,
        {
            assert(inos@.contains(inos@[i as int]));
            match self.get(inos[i]) {
                Some(r) => {
                    if r.generation == u64::MAX {
                        assert(self@.records.contains_key(inos@[i as int]));
                        return false;
                    }
                },
                None => {},
            }
            i = i + 1;
        }
        proof {
            assert forall|ino: u64| #[trigger] self@.records.contains_key(ino) implies self@.records[ino].generation
                < u64::MAX by {
                assert(inos@.contains(ino));
                let j = choose|j: int| 0 <= j < inos@.len() && inos@[j] == ino;
            }
        }
        true
    }

    /// Re-point the table at another commit's root, and report the dentries
    /// the kernel must be told to drop. Numbers and records stay; the root
    /// describes the new tree and every live regular file is a new generation.
    pub fn repin(&mut self, root: TreeEntryInfo) -> (res: Vec<StaleEntry>)
        requires
            old(self).wf(),
            generations_left(old(self)@),
        ensures
            final(self).wf(),
            final(self)@ == old(self)@.repinned(root@),
            old(self)@.drops(stale_views(res@)),
    {
        let ghost s = self@;
        let inos = self.live_inos();
        let mut out: Vec<StaleEntry> = Vec::new();
        self.refresh(ROOT_INO, Node::Base(root));
        let mut i: usize = 0;
        proof {
            assert forall|ino: u64| s.records.contains_key(ino) implies #[trigger] self@.records[ino]
                == repinned_upto(s, ino, root@, inos@, 0) by {}
        }
        while i < inos.len()
            invariant
                i <= inos@.len(),
                self.wf(),
                inos@.no_duplicates(),
                generations_left(s),
                s.records.contains_key(ROOT_INO),
                forall|ino: u64| #[trigger] s.records.contains_key(ino) ==> s.records[ino].ino == ino,
                forall|ino: u64| #[trigger] inos@.contains(ino) <==> s.records.contains_key(ino),
                self@.by_path == s.by_path,
                self@.next == s.next,
                self@.records.dom() == s.records.dom(),
                forall|ino: u64|
                    s.records.contains_key(ino) ==> #[trigger] self@.records[ino] == repinned_upto(
                        s,
                        ino,
                        root@,
                        inos@,
                        i as nat,
                    ),
                forall|j: int|
                    0 <= j < out@.len() ==> s.dropped_dentry((#[trigger] out@[j]).ino) == Some(
                        out@[j]@,
                    ),
                forall|j: int|
                    0 <= j < out@.len() ==> exists|m: int|
                        0 <= m < i && #[trigger] inos@[m] == (#[trigger] out@[j]).ino,
                forall|m: int|
                    0 <= m < i && s.dropped_dentry(#[trigger] inos@[m]) is Some ==> exists|j: int|
                        0 <= j < out@.len() && (#[trigger] out@[j]).ino == inos@[m],
                forall|a: int, b: int|
                    0 <= a < b < out@.len() ==> (#[trigger] out@[a]).ino != (#[trigger] out@[b]).ino,
            decreases inos.len() - i,
        {
            let ino = inos[i];
            let ghost before = out@;
            let ghost now = self@;
            assert(inos@.contains(ino));
            assert(now.records[ino] == repinned_upto(s, ino, root@, inos@, i as nat));
            assert forall|m: int| 0 <= m < i implies #[trigger] inos@[m] != ino by {}
            if ino != ROOT_INO {
                let found = match self.get(ino) {
                    Some(r) => Some(r.duplicate()),
                    None => None,
                };
                match found {
                    Some(r) => {
                        match self.dentry_of(&r.path, ino) {
                            Some(stale) => {
                                out.push(stale);
                            },
                            None => {},
                        }
                        if r.node.is_regular_file() {
                            let mut record = r;
                            record.generation = record.generation + 1;
                            self.swap(ino, record);
                        }
                    },
                    None => {},
                }
            }
            proof {
                assert(self@.records.dom() =~= s.records.dom());
                assert forall|other: u64| s.records.contains_key(other) implies #[trigger] self@.records[other]
                    == repinned_upto(s, other, root@, inos@, (i + 1) as nat) by {
                    assert(now.records[other] == repinned_upto(s, other, root@, inos@, i as nat));
                    if other == ino {
                        assert(inos@[i as int] == ino);
                    } else {
                        assert(self@.records[other] == now.records[other]);
                        if exists|m: int| 0 <= m < i + 1 && #[trigger] inos@[m] == other {
                            let m = choose|m: int| 0 <= m < i + 1 && #[trigger] inos@[m] == other;
                            assert(m < i);
                        }
                    }
                }
                if out@.len() > before.len() {
                    let last = before.len() as int;
                    assert(out@[last].ino == ino);
                    assert forall|m: int| 0 <= m < i + 1 && s.dropped_dentry(#[trigger] inos@[m]) is Some implies exists|
                        j: int,
                    | 0 <= j < out@.len() && (#[trigger] out@[j]).ino == inos@[m] by {
                        if m < i {
                            let j = choose|j: int|
                                0 <= j < before.len() && (#[trigger] before[j]).ino == inos@[m];
                            assert(out@[j].ino == inos@[m]);
                        }
                    }
                    assert forall|a: int, b: int| 0 <= a < b < out@.len() implies (#[trigger] out@[a]).ino
                        != (#[trigger] out@[b]).ino by {
                        if b == last {
                            let m = choose|m: int| 0 <= m < i && #[trigger] inos@[m] == before[a].ino;
                            assert(inos@[m] != ino);
                        } else {
                            assert(before[a].ino != before[b].ino);
                        }
                    }
                    assert forall|j: int| 0 <= j < out@.len() implies exists|m: int|
                        0 <= m < i + 1 && #[trigger] inos@[m] == (#[trigger] out@[j]).ino by {
                        if j < last {
                            let m = choose|m: int| 0 <= m < i && #[trigger] inos@[m] == before[j].ino;
                            assert(inos@[m] == out@[j].ino);
                        } else {
                            assert(inos@[i as int] == out@[j].ino);
                        }
                    }
                }
            }
            i = i + 1;
        }
        proof {
            let goal = s.repinned(root@);
            assert forall|ino: u64| s.records.contains_key(ino) implies #[trigger] self@.records[ino]
                == goal.records[ino] by {
                assert(inos@.contains(ino));
                let m = choose|m: int| 0 <= m < inos@.len() && inos@[m] == ino;
                assert(inos@[m] == ino);
                assert(self@.records[ino] == repinned_upto(s, ino, root@, inos@, i as nat));
            }
            assert(self@.records =~= goal.records);
            assert(self@ =~= goal);
            let list = stale_views(out@);
            assert forall|k: int| 0 <= k < list.len() implies s.dropped_dentry((#[trigger] list[k]).ino)
                == Some(list[k]) by {
                assert(out@[k].ino == list[k].ino);
            }
            assert forall|ino: u64| s.dropped_dentry(ino) is Some implies #[trigger] exists_at(
                list,
                ino,
            ) by {
                assert(inos@.contains(ino));
                let m = choose|m: int| 0 <= m < inos@.len() && inos@[m] == ino;
                assert(s.dropped_dentry(inos@[m]) is Some);
                let j = choose|j: int| 0 <= j < out@.len() && (#[trigger] out@[j]).ino == inos@[m];
                assert(list[j].ino == ino);
            }
            assert forall|a: int, b: int| 0 <= a < b < list.len() implies (#[trigger] list[a]).ino != (
            #[trigger] list[b]).ino by {
                assert(out@[a].ino != out@[b].ino);
            }
        }
        out
    }

    /// The dentry a path is cached under: none for an empty name or under an
    /// unknown parent.
    fn dentry_of(&self, path: &BytePath, ino: u64) -> (res: Option<StaleEntry>)
        requires
            self.wf(),
        ensures
            match res {
                Some(stale) => base_name(path@).len() > 0 && self@.stale_of(path@, ino) == Some(
                    stale@,
                ),
                None => base_name(path@).len() == 0 || self@.stale_of(path@, ino) is None,
            },
    {
        let name = match path.file_name() {
            Some(name) => name,
            None => {
                proof {
                    crate::path::lemma_last_slash(path@);
                }
                return None;
            },
        };
        if name.len() == 0 {
            return None;
        }
        let dir = parent_of(path);
        match self.by_path.get(dir.as_bytes()) {
            Some(parent_ino) => {
                let stale = StaleEntry { parent: *parent_ino, name, ino };
                assert(self@.stale_of(path@, ino)->0 =~= stale@);
                Some(stale)
            },
            None => None,
        }
    }

    /// A regular file rewritten behind the kernel outside a re-pin: make it a
    /// new generation and name the dentry to drop, if the kernel has it.
    pub fn rewritten_behind_kernel(&mut self, path: &BytePath) -> (res: Option<StaleEntry>)
        requires
            old(self).wf(),
            generations_left(old(self)@),
        ensures
            final(self).wf(),
            old(self)@.rewrites(final(self)@, path@, res),
    {
        let ino = match self.by_path.get(path.as_bytes()) {
            Some(ino) => *ino,
            None => {
                return None;
            },
        };
        let mut record = match self.get(ino) {
            Some(r) => r.duplicate(),
            None => {
                return None;
            },
        };
        if !record.node.is_regular_file() {
            return None;
        }
        record.generation = record.generation + 1;
        self.swap(ino, record);
        let name = match path.file_name() {
            Some(name) => name,
            None => {
                proof {
                    crate::path::lemma_last_slash(path@);
                    assert(base_name(path@) =~= Seq::<u8>::empty());
                }
                let empty: Vec<u8> = Vec::new();
                assert(empty@ =~= Seq::<u8>::empty());
                empty
            },
        };
        let dir = parent_of(path);
        match self.by_path.get(dir.as_bytes()) {
            Some(parent_ino) => Some(StaleEntry { parent: *parent_ino, name, ino }),
            None => None,
        }
    }

    /// Live records.
    pub fn live(&self) -> (res: usize)
        requires
            self.wf(),
        ensures
            res == self@.records.len(),
    {
        broadcast use vstd::std_specs::hash::group_hash_axioms;

        assert(self@.records.dom() =~= self.records@.dom());
        self.records.len()
    }

    /// Distinct paths that have ever been assigned a number.
    pub fn assigned(&self) -> (res: usize)
        requires
            self.wf(),
        ensures
            res == self@.by_path.len(),
    {
        self.by_path.len()
    }
}

impl TableView {
    /// Whether a path names a live regular file.
    pub open spec fn is_live_file(self, path: Seq<u8>) -> bool {
        self.by_path.contains_key(path) && self.records.contains_key(self.by_path[path])
            && self.records[self.by_path[path]].node.regular_file()
    }
}

/// Whether every live inode could become a new generation.
pub open spec fn generations_left(s: TableView) -> bool {
    forall|ino: u64| #[trigger]
        s.records.contains_key(ino) ==> s.records[ino].generation < u64::MAX
}

/// After the first `n` rows offered their numbers.
pub open spec fn seeded(s: TableView, entries: Seq<OverlayEntry>, n: nat) -> TableView
    decreases n,
{
    if n == 0 {
        s
    } else {
        seeded(s, entries, (n - 1) as nat).bound(entries[n - 1].path@, entries[n - 1].ino)
    }
}

/// Moved inodes as numbers and paths.
pub open spec fn move_views(list: Seq<(u64, BytePath)>) -> Seq<(u64, Seq<u8>)> {
    Seq::new(list.len(), |i: int| (list[i].0, list[i].1@))
}

/// Stale entries as their meanings.
pub open spec fn stale_views(list: Seq<StaleEntry>) -> Seq<StaleView> {
    Seq::new(list.len(), |i: int| list[i]@)
}

spec fn repinned_upto(s: TableView, ino: u64, root: TreeEntryView, inos: Seq<u64>, n: nat) -> RecordView {
    if ino == ROOT_INO || (exists|m: int| 0 <= m < n && #[trigger] inos[m] == ino) {
        s.repinned_record(ino, root)
    } else {
        s.records[ino]
    }
}

spec fn is_moving(s: TableView, from: Seq<u8>, moving: Seq<(Vec<u8>, u64)>) -> bool {
    &&& forall|j: int|
        0 <= j < moving.len() ==> s.moves((#[trigger] moving[j]).0@, from) && moving[j].1
            == s.by_path[moving[j].0@]
    &&& forall|q: Seq<u8>| #[trigger]
        s.moves(q, from) ==> exists|j: int| 0 <= j < moving.len() && (#[trigger] moving[j]).0@ == q
    &&& forall|a: int, b: int|
        0 <= a < b < moving.len() ==> (#[trigger] moving[a]).0@ != (#[trigger] moving[b]).0@
}

/// The numbers after the first `gone` moving paths left and the first `come`
/// arrived.
spec fn staged(
    s: TableView,
    from: Seq<u8>,
    to: Seq<u8>,
    moving: Seq<(Vec<u8>, u64)>,
    gone: nat,
    come: nat,
) -> Map<Seq<u8>, u64>
    decreases come,
{
    if come == 0 {
        Map::new(
            |p: Seq<u8>|
                s.by_path.contains_key(p) && !(exists|j: int|
                    0 <= j < gone && (#[trigger] moving[j]).0@ == p),
            |p: Seq<u8>| s.by_path[p],
        )
    } else {
        staged(s, from, to, moving, gone, (come - 1) as nat).insert(
            destination(moving[come - 1].0@, from, to),
            moving[come - 1].1,
        )
    }
}

proof fn lemma_staged_step(
    s: TableView,
    from: Seq<u8>,
    to: Seq<u8>,
    moving: Seq<(Vec<u8>, u64)>,
    gone: nat,
    come: nat,
)
    requires
        come < moving.len(),
    ensures
        staged(s, from, to, moving, gone, come + 1) == staged(s, from, to, moving, gone, come).insert(
            destination(moving[come as int].0@, from, to),
            moving[come as int].1,
        ),
{
}

proof fn lemma_staged_keys(
    s: TableView,
    from: Seq<u8>,
    to: Seq<u8>,
    moving: Seq<(Vec<u8>, u64)>,
    come: nat,
    p: Seq<u8>,
)
    requires
        is_moving(s, from, moving),
        come <= moving.len(),
    ensures
        ({
            let m = staged(s, from, to, moving, moving.len(), come);
            let here = exists|j: int|
                0 <= j < come && destination((#[trigger] moving[j]).0@, from, to) == p;
            &&& m.contains_key(p) <==> here || (s.by_path.contains_key(p) && !within(p, from))
            &&& here ==> m[p] == s.by_path[origin(p, from, to)]
            &&& !here && m.contains_key(p) ==> m[p] == s.by_path[p]
        }),
    decreases come,
{
    if come == 0 {
        if s.by_path.contains_key(p) && within(p, from) {
            assert(s.moves(p, from));
        }
        if exists|j: int| 0 <= j < moving.len() && (#[trigger] moving[j]).0@ == p {
            let j = choose|j: int| 0 <= j < moving.len() && (#[trigger] moving[j]).0@ == p;
            assert(s.moves(moving[j].0@, from));
        }
    } else {
        lemma_staged_keys(s, from, to, moving, (come - 1) as nat, p);
        let last = moving[come - 1];
        assert(s.moves(last.0@, from));
        lemma_destination(s, last.0@, from, to);
        if destination(last.0@, from, to) != p {
            if exists|j: int| 0 <= j < come && destination((#[trigger] moving[j]).0@, from, to) == p {
                let j = choose|j: int|
                    0 <= j < come && destination((#[trigger] moving[j]).0@, from, to) == p;
                assert(j < come - 1);
            }
        }
    }
}

proof fn lemma_staged_done(
    s: TableView,
    from: Seq<u8>,
    to: Seq<u8>,
    moving: Seq<(Vec<u8>, u64)>,
)
    requires
        is_moving(s, from, moving),
    ensures
        staged(s, from, to, moving, moving.len(), moving.len()) == s.moved_numbers(from, to),
{
    let m = staged(s, from, to, moving, moving.len(), moving.len());
    let goal = s.moved_numbers(from, to);
    assert forall|p: Seq<u8>| arrives(s, p, from, to) <==> exists|j: int|
        0 <= j < moving.len() && destination((#[trigger] moving[j]).0@, from, to) == p by {
        if arrives(s, p, from, to) {
            let q = origin(p, from, to);
            assert(s.moves(q, from));
            let j = choose|j: int| 0 <= j < moving.len() && (#[trigger] moving[j]).0@ == q;
            lemma_arrival(p, from, to);
            assert(destination(moving[j].0@, from, to) == p);
        }
        if exists|j: int| 0 <= j < moving.len() && destination((#[trigger] moving[j]).0@, from, to) == p {
            let j = choose|j: int|
                0 <= j < moving.len() && destination((#[trigger] moving[j]).0@, from, to) == p;
            assert(s.moves(moving[j].0@, from));
            lemma_destination(s, moving[j].0@, from, to);
        }
    }
    assert forall|p: Seq<u8>| #[trigger] m.contains_key(p) <==> goal.contains_key(p) by {
        lemma_staged_keys(s, from, to, moving, moving.len(), p);
    }
    assert forall|p: Seq<u8>| m.contains_key(p) implies #[trigger] m[p] == goal[p] by {
        lemma_staged_keys(s, from, to, moving, moving.len(), p);
    }
    assert(m =~= goal);
}

spec fn moved_upto(
    s: TableView,
    r: RecordView,
    ino: u64,
    from: Seq<u8>,
    to: Seq<u8>,
    moving: Seq<(Vec<u8>, u64)>,
    n: nat,
) -> bool {
    let was = s.records[ino];
    let carried = exists|j: int| 0 <= j < n && (#[trigger] moving[j]).1 == ino;
    &&& r == (RecordView { path: r.path, ..was })
    &&& !carried ==> r.path == was.path
    &&& carried ==> exists|j: int|
        0 <= j < n && (#[trigger] moving[j]).1 == ino && r.path == destination(moving[j].0@, from, to)
}

// ---------------------------------------------------------------------------
// Laws
// ---------------------------------------------------------------------------
/// A numbered path keeps its number whatever is looked up, forgotten, opened,
/// closed or re-pinned.
pub proof fn law_numbers_are_stable(
    s: TableView,
    path: Seq<u8>,
    other: Seq<u8>,
    node: NodeView,
    ino: u64,
    n: u64,
    root: TreeEntryView,
)
    requires
        s.by_path.contains_key(path),
    ensures
        s.looked_up(other, node).number_of(path) == s.number_of(path),
        s.forgotten(ino, n).number_of(path) == s.number_of(path),
        s.opened(ino).number_of(path) == s.number_of(path),
        s.closed(ino).number_of(path) == s.number_of(path),
        s.refreshed(ino, node).number_of(path) == s.number_of(path),
        s.repinned(root).number_of(path) == s.number_of(path),
{
}

/// A path looked up, forgotten and looked up again has one number throughout.
pub proof fn law_number_survives_forgetting(
    s: TableView,
    path: Seq<u8>,
    first: NodeView,
    second: NodeView,
    n: u64,
)
    ensures
        ({
            let one = s.looked_up(path, first);
            let ino = s.lookup_number(path, first);
            one.forgotten(ino, n).lookup_number(path, second) == ino
        }),
{
}

impl TableView {
    /// The number a lookup answers with.
    pub open spec fn lookup_number(self, path: Seq<u8>, node: NodeView) -> u64 {
        self.adopted(path, node).number_of(path)
    }
}

/// No two paths share a number, and no number handed out is above the counter
/// unless the overlay's own.
pub open spec fn numbers_distinct(s: TableView) -> bool {
    &&& s.next <= OVERLAY_INO_BASE
    &&& forall|p: Seq<u8>| #[trigger]
        s.by_path.contains_key(p) ==> s.by_path[p] < s.next || s.by_path[p] >= OVERLAY_INO_BASE
    &&& forall|p: Seq<u8>, q: Seq<u8>|
        #![trigger s.by_path.contains_key(p), s.by_path.contains_key(q)]
        s.by_path.contains_key(p) && s.by_path.contains_key(q) && p != q ==> s.by_path[p]
            != s.by_path[q]
}

/// Distinct paths never come to share a number by a lookup, as long as a
/// number a node brings is not already another path's.
pub proof fn law_distinct_paths_get_distinct_numbers(s: TableView, path: Seq<u8>, node: NodeView)
    requires
        numbers_distinct(s),
        s.adopted(path, node).next < OVERLAY_INO_BASE,
        node.preferred() matches Some(ino) ==> forall|p: Seq<u8>| #[trigger]
            s.by_path.contains_key(p) && p != path ==> s.by_path[p] != ino,
    ensures
        numbers_distinct(s.looked_up(path, node)),
{
    let a = s.adopted(path, node);
    assert(numbers_distinct(a));
    assert(numbers_distinct(a.numbered(path)));
}

/// Moving a subtree keeps numbers distinct.
pub proof fn law_moving_keeps_numbers_distinct(
    s: TableView,
    t: TableView,
    from: Seq<u8>,
    to: Seq<u8>,
)
    requires
        numbers_distinct(s),
        s.renames(t, from, to),
    ensures
        numbers_distinct(t),
{
    assert forall|p: Seq<u8>, q: Seq<u8>|
        #![trigger t.by_path.contains_key(p), t.by_path.contains_key(q)]
        t.by_path.contains_key(p) && t.by_path.contains_key(q) && p != q implies t.by_path[p]
        != t.by_path[q] by {
        let p0 = if arrives(s, p, from, to) {
            lemma_arrival(p, from, to);
            origin(p, from, to)
        } else {
            p
        };
        let q0 = if arrives(s, q, from, to) {
            lemma_arrival(q, from, to);
            origin(q, from, to)
        } else {
            q
        };
        assert(s.by_path.contains_key(p0) && s.by_path.contains_key(q0));
        assert(p0 != q0);
    }
    assert forall|p: Seq<u8>| #[trigger] t.by_path.contains_key(p) implies t.by_path[p] < t.next
        || t.by_path[p] >= OVERLAY_INO_BASE by {
        if arrives(s, p, from, to) {
            assert(s.by_path.contains_key(origin(p, from, to)));
        } else {
            assert(s.by_path.contains_key(p));
        }
    }
}

/// A moved path answers with the number it had under its old name.
pub proof fn law_a_moved_path_keeps_its_number(
    s: TableView,
    t: TableView,
    path: Seq<u8>,
    from: Seq<u8>,
    to: Seq<u8>,
)
    requires
        s.by_path.contains_key(path),
        within(path, from),
        s.renames(t, from, to),
    ensures
        t.number_of(destination(path, from, to)) == s.number_of(path),
{
    assert(s.moves(path, from));
    lemma_destination(s, path, from, to);
}

/// The root cannot be forgotten: no operation drops its record.
pub proof fn law_the_root_stays(s: TableView, ino: u64, n: u64)
    requires
        s.records.contains_key(ROOT_INO),
        s.records[ROOT_INO].ino == ROOT_INO,
    ensures
        s.forgotten(ROOT_INO, n) == s,
        s.forgotten(ino, n).records.contains_key(ROOT_INO),
        s.closed(ino).records.contains_key(ROOT_INO),
{
}

/// A record survives every forget while a descriptor is open.
pub proof fn law_an_open_descriptor_pins_the_record(s: TableView, ino: u64, n: u64)
    requires
        s.records.contains_key(ino),
        s.records[ino].opens > 0,
    ensures
        s.forgotten(ino, n).records.contains_key(ino),
{
}

/// A record without descriptors goes exactly when as many references were
/// dropped as taken.
pub proof fn law_lookups_need_matching_forgets(s: TableView, ino: u64, n: u64)
    requires
        s.records.contains_key(ino),
        s.records[ino].opens == 0,
        ino != ROOT_INO,
    ensures
        s.forgotten(ino, n).records.contains_key(ino) <==> n < s.records[ino].lookups,
{
}

/// One call on a table.
pub enum TableCall {
    Number(Seq<u8>),
    Seed(Seq<OverlayEntry>),
    LookUp(Seq<u8>, NodeView),
    Forget(u64, u64),
    Open(u64),
    Close(u64),
    Refresh(u64, NodeView),
    Repin(TreeEntryView),
    Rewrite(Seq<u8>, Option<StaleEntry>),
    Rename(Seq<u8>, Seq<u8>),
}

/// Whether a call on a table leaves another, given that its number space is
/// not used up.
pub open spec fn called(s: TableView, call: TableCall, t: TableView) -> bool {
    match call {
        TableCall::Number(path) => (s.by_path.contains_key(path) || s.next < u64::MAX) && t
            == s.numbered(path),
        TableCall::Seed(rows) => t == seeded(s, rows, rows.len()),
        TableCall::LookUp(path, node) => s.can_look_up(path, node) && t == s.looked_up(path, node),
        TableCall::Forget(ino, n) => t == s.forgotten(ino, n),
        TableCall::Open(ino) => t == s.opened(ino),
        TableCall::Close(ino) => t == s.closed(ino),
        TableCall::Refresh(ino, node) => t == s.refreshed(ino, node),
        TableCall::Repin(root) => t == s.repinned(root),
        TableCall::Rewrite(path, stale) => s.rewrites(t, path, stale),
        TableCall::Rename(from, to) => s.renames(t, from, to),
    }
}

/// Whether a row of calls leads through a row of tables.
pub open spec fn run_of(states: Seq<TableView>, calls: Seq<TableCall>) -> bool {
    &&& states.len() == calls.len() + 1
    &&& forall|i: int|
        0 <= i < calls.len() ==> called(states[i], #[trigger] calls[i], states[i + 1])
}

/// No number is the next one to be handed out.
pub open spec fn next_is_free(s: TableView) -> bool {
    forall|p: Seq<u8>| #[trigger]
        s.by_path.contains_key(p) ==> s.by_path[p] < s.next || s.by_path[p] >= OVERLAY_INO_BASE
}

proof fn lemma_seed_keeps_numbers(s: TableView, rows: Seq<OverlayEntry>, n: nat, path: Seq<u8>)
    requires
        n <= rows.len(),
    ensures
        s.by_path.contains_key(path) ==> seeded(s, rows, n).by_path.contains_key(path) && seeded(
            s,
            rows,
            n,
        ).by_path[path] == s.by_path[path],
        next_is_free(s) ==> next_is_free(seeded(s, rows, n)),
    decreases n,
{
    if n > 0 {
        lemma_seed_keeps_numbers(s, rows, (n - 1) as nat, path);
    }
}

proof fn lemma_a_call_keeps_numbers(s: TableView, call: TableCall, t: TableView, path: Seq<u8>)
    requires
        called(s, call, t),
        !(call is Rename),
        s.by_path.contains_key(path),
    ensures
        t.by_path.contains_key(path),
        t.by_path[path] == s.by_path[path],
{
    match call {
        TableCall::Seed(rows) => {
            lemma_seed_keeps_numbers(s, rows, rows.len(), path);
        },
        _ => {},
    }
}

proof fn lemma_a_call_keeps_the_next_free(s: TableView, call: TableCall, t: TableView)
    requires
        called(s, call, t),
        next_is_free(s),
    ensures
        next_is_free(t),
{
    match call {
        TableCall::Seed(rows) => {
            lemma_seed_keeps_numbers(s, rows, rows.len(), Seq::empty());
        },
        TableCall::Rename(from, to) => {
            assert forall|p: Seq<u8>| #[trigger] t.by_path.contains_key(p) implies t.by_path[p]
                < t.next || t.by_path[p] >= OVERLAY_INO_BASE by {
                if arrives(s, p, from, to) {
                    assert(s.by_path.contains_key(origin(p, from, to)));
                } else {
                    assert(s.by_path.contains_key(p));
                }
            }
        },
        TableCall::LookUp(path, node) => {
            assert(next_is_free(s.adopted(path, node)));
        },
        _ => {},
    }
}

/// Once a path has a number it keeps it through every row of calls that
/// renames nothing, whether or not its record was forgotten in between and
/// whatever number a row of the overlay brings.
pub proof fn law_a_number_outlives_every_call(
    states: Seq<TableView>,
    calls: Seq<TableCall>,
    path: Seq<u8>,
    node: NodeView,
)
    requires
        run_of(states, calls),
        forall|i: int| 0 <= i < calls.len() ==> !(#[trigger] calls[i] is Rename),
        states[0].by_path.contains_key(path),
    ensures
        states.last().by_path.contains_key(path),
        states.last().by_path[path] == states[0].by_path[path],
        states.last().lookup_number(path, node) == states[0].by_path[path],
    decreases calls.len(),
{
    if calls.len() > 0 {
        let n = calls.len() - 1;
        let front = states.drop_last();
        let before = calls.drop_last();
        assert(run_of(front, before)) by {
            assert forall|i: int| 0 <= i < before.len() implies called(
                front[i],
                #[trigger] before[i],
                front[i + 1],
            ) by {
                assert(calls[i] == before[i]);
            }
        }
        assert forall|i: int| 0 <= i < before.len() implies !(#[trigger] before[i] is Rename) by {
            assert(calls[i] == before[i]);
        }
        law_a_number_outlives_every_call(front, before, path, node);
        assert(called(states[n], calls[n], states[n + 1]));
        lemma_a_call_keeps_numbers(states[n], calls[n], states[n + 1], path);
    }
}

/// Through every row of calls from a fresh table, a path of the base that was
/// never numbered gets a number no other path has, as long as the numbers
/// below the overlay's own are not used up.
pub proof fn law_a_new_path_gets_a_number_of_its_own(
    states: Seq<TableView>,
    calls: Seq<TableCall>,
    root: TreeEntryView,
    path: Seq<u8>,
    node: NodeView,
    other: Seq<u8>,
)
    requires
        run_of(states, calls),
        states[0] == fresh_table(root),
        node.preferred() is None,
        !states.last().by_path.contains_key(path),
        states.last().next < OVERLAY_INO_BASE,
        states.last().by_path.contains_key(other),
    ensures
        states.last().lookup_number(path, node) != states.last().by_path[other],
{
    lemma_runs_keep_the_next_free(states, calls);
}

proof fn lemma_runs_keep_the_next_free(states: Seq<TableView>, calls: Seq<TableCall>)
    requires
        run_of(states, calls),
        next_is_free(states[0]),
    ensures
        next_is_free(states.last()),
    decreases calls.len(),
{
    if calls.len() > 0 {
        let n = calls.len() - 1;
        let front = states.drop_last();
        let before = calls.drop_last();
        assert(run_of(front, before)) by {
            assert forall|i: int| 0 <= i < before.len() implies called(
                front[i],
                #[trigger] before[i],
                front[i + 1],
            ) by {
                assert(calls[i] == before[i]);
            }
        }
        lemma_runs_keep_the_next_free(front, before);
        assert(called(states[n], calls[n], states[n + 1]));
        lemma_a_call_keeps_the_next_free(states[n], calls[n], states[n + 1]);
    }
}

} // verus!
