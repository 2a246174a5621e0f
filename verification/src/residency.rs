//! Which blocks of the object store stay on local disk.
//!
//! Two queues, least recently used first. A block enters probation when it is
//! fetched and moves to protected when it is read again; protected is capped
//! at half the limit and its overflow goes back to probation. Eviction takes
//! probation first, so a one-pass scan can only flush itself.
use vstd::multiset::Multiset;
use vstd::prelude::*;

verus! {

/// One block: a file's index in the manifest and a block index in it.
pub type BlockKey = (u32, u64);

/// One resident block and its length.
#[derive(Clone, Copy, PartialEq, Eq, Structural, Debug)]
pub struct Block {
    pub file: u32,
    pub index: u64,
    pub len: u64,
}

impl Block {
    /// The block's key.
    pub open spec fn key(self) -> (u32, u64) {
        (self.file, self.index)
    }

    fn is(&self, key: BlockKey) -> (res: bool)
        ensures
            res == (self.key() == key),
    {
        self.file == key.0 && self.index == key.1
    }
}

/// The bytes of the listed blocks.
pub open spec fn total(list: Seq<Block>) -> nat
    decreases list.len(),
{
    if list.len() == 0 {
        0
    } else {
        total(list.drop_last()) + list.last().len as nat
    }
}

/// Whether a key is listed.
pub open spec fn lists(list: Seq<Block>, key: BlockKey) -> bool {
    exists|i: int| 0 <= i < list.len() && (#[trigger] list[i]).key() == key
}

/// The first place of a key from `from` on, or the length.
pub open spec fn place_of(list: Seq<Block>, key: BlockKey, from: nat) -> nat
    decreases list.len() - from,
{
    if from >= list.len() {
        list.len()
    } else if list[from as int].key() == key {
        from
    } else {
        place_of(list, key, from + 1)
    }
}

/// The list without a key.
pub open spec fn without(list: Seq<Block>, key: BlockKey) -> Seq<Block> {
    let i = place_of(list, key, 0) as int;
    if i < list.len() {
        list.remove(i)
    } else {
        list
    }
}

/// No key is listed twice.
pub open spec fn distinct(list: Seq<Block>) -> bool {
    forall|i: int, j: int|
        0 <= i < j < list.len() ==> (#[trigger] list[i]).key() != (#[trigger] list[j]).key()
}

proof fn lemma_place(list: Seq<Block>, key: BlockKey, from: nat)
    requires
        from <= list.len(),
    ensures
        from <= place_of(list, key, from) <= list.len(),
        place_of(list, key, from) < list.len() ==> list[place_of(list, key, from) as int].key() == key,
        forall|k: int| from <= k < place_of(list, key, from) ==> (#[trigger] list[k]).key() != key,
    decreases list.len() - from,
{
    if from < list.len() && list[from as int].key() != key {
        lemma_place(list, key, from + 1);
    }
}

/// A key is listed exactly when it has a place.
pub proof fn lemma_lists_place(list: Seq<Block>, key: BlockKey)
    ensures
        lists(list, key) <==> place_of(list, key, 0) < list.len(),
        lists(list, key) ==> list[place_of(list, key, 0) as int].key() == key,
{
    lemma_place(list, key, 0);
}

proof fn lemma_total_push(list: Seq<Block>, b: Block)
    ensures
        total(list.push(b)) == total(list) + b.len,
{
    assert(list.push(b).drop_last() =~= list);
}

proof fn lemma_total_remove(list: Seq<Block>, i: int)
    requires
        0 <= i < list.len(),
    ensures
        total(list) == total(list.remove(i)) + list[i].len,
    decreases list.len(),
{
    if i == list.len() - 1 {
        assert(list.remove(i) =~= list.drop_last());
    } else {
        lemma_total_remove(list.drop_last(), i);
        assert(list.remove(i).drop_last() =~= list.drop_last().remove(i));
        assert(list.remove(i).last() == list.last());
    }
}

/// What removing a key leaves.
pub proof fn lemma_without(list: Seq<Block>, key: BlockKey)
    requires
        distinct(list),
    ensures
        distinct(without(list, key)),
        !lists(without(list, key), key),
        forall|k: BlockKey| k != key ==> (#[trigger] lists(without(list, key), k) <==> lists(list, k)),
        forall|i: int|
            0 <= i < without(list, key).len() ==> exists|j: int|
                0 <= j < list.len() && list[j] == #[trigger] without(list, key)[i],
        lists(list, key) ==> total(list) == total(without(list, key))
            + list[place_of(list, key, 0) as int].len,
        !lists(list, key) ==> without(list, key) == list,
        lists(list, key) ==> without(list, key).len() == list.len() - 1,
{
    lemma_lists_place(list, key);
    let at = place_of(list, key, 0) as int;
    let rest = without(list, key);
    if lists(list, key) {
        lemma_total_remove(list, at);
        assert forall|i: int| 0 <= i < rest.len() implies #[trigger] rest[i] == list[if i < at {
            i
        } else {
            i + 1
        }] by {}
        assert forall|i: int, j: int| 0 <= i < j < rest.len() implies (#[trigger] rest[i]).key() != (
        #[trigger] rest[j]).key() by {
            let i0 = if i < at {
                i
            } else {
                i + 1
            };
            let j0 = if j < at {
                j
            } else {
                j + 1
            };
            assert(list[i0].key() != list[j0].key());
        }
        assert forall|i: int| 0 <= i < rest.len() implies (#[trigger] rest[i]).key() != key by {
            if i < at {
                assert(list[i].key() != list[at].key());
            } else {
                assert(list[at].key() != list[i + 1].key());
            }
        }
        assert forall|k: BlockKey| k != key implies (#[trigger] lists(rest, k) <==> lists(list, k)) by {
            if lists(list, k) {
                let j = choose|j: int| 0 <= j < list.len() && (#[trigger] list[j]).key() == k;
                if j < at {
                    assert(rest[j].key() == k);
                } else {
                    assert(rest[j - 1].key() == k);
                }
            }
            if lists(rest, k) {
                let j = choose|j: int| 0 <= j < rest.len() && (#[trigger] rest[j]).key() == k;
                let j0 = if j < at {
                    j
                } else {
                    j + 1
                };
                assert(list[j0].key() == k);
            }
        }
    } else {
        assert forall|i: int| 0 <= i < rest.len() implies exists|j: int|
            0 <= j < list.len() && list[j] == #[trigger] rest[i] by {
            assert(list[i] == rest[i]);
        }
    }
}

/// What appending a block adds.
pub proof fn lemma_push(list: Seq<Block>, b: Block)
    requires
        distinct(list),
        !lists(list, b.key()),
    ensures
        distinct(list.push(b)),
        forall|k: BlockKey| #[trigger] lists(list.push(b), k) <==> lists(list, k) || k == b.key(),
        total(list.push(b)) == total(list) + b.len,
{
    lemma_total_push(list, b);
    let out = list.push(b);
    assert forall|i: int, j: int| 0 <= i < j < out.len() implies (#[trigger] out[i]).key() != (
    #[trigger] out[j]).key() by {
        if j == list.len() {
            assert(list[i].key() != b.key());
        } else {
            assert(list[i].key() != list[j].key());
        }
    }
    assert forall|k: BlockKey| #[trigger] lists(out, k) <==> lists(list, k) || k == b.key() by {
        if lists(list, k) {
            let j = choose|j: int| 0 <= j < list.len() && (#[trigger] list[j]).key() == k;
            assert(out[j].key() == k);
        }
        if k == b.key() {
            assert(out[list.len() as int].key() == k);
        }
        if lists(out, k) {
            let j = choose|j: int| 0 <= j < out.len() && (#[trigger] out[j]).key() == k;
            if j < list.len() {
                assert(list[j].key() == k);
            }
        }
    }
}

/// What a [`Residency`] denotes.
#[verifier::ext_equal]
pub struct ResidencyView {
    /// The bound on resident bytes; zero keeps no books.
    pub limit: u64,
    /// Blocks read once, least recently used first.
    pub probation: Seq<Block>,
    /// Blocks read again, least recently used first.
    pub protected: Seq<Block>,
    /// What in-flight reads hold.
    pub pins: Multiset<BlockKey>,
}

impl ResidencyView {
    /// Whether a block is resident.
    pub open spec fn resident(self, key: BlockKey) -> bool {
        lists(self.probation, key) || lists(self.protected, key)
    }

    /// The bytes held.
    pub open spec fn bytes(self) -> nat {
        total(self.probation) + total(self.protected)
    }

    /// No block is queued twice.
    pub open spec fn wf(self) -> bool {
        &&& distinct(self.probation)
        &&& distinct(self.protected)
        &&& forall|k: BlockKey| #[trigger] lists(self.probation, k) ==> !lists(self.protected, k)
    }

    /// After a block left both queues.
    pub open spec fn dropped(self, key: BlockKey) -> ResidencyView {
        ResidencyView {
            probation: without(self.probation, key),
            protected: without(self.protected, key),
            ..self
        }
    }

    /// After a block became present: it enters probation as the newest.
    pub open spec fn admitted(self, key: BlockKey, len: u64) -> ResidencyView {
        if self.limit == 0 {
            self
        } else {
            let s = self.dropped(key);
            ResidencyView {
                probation: s.probation.push(Block { file: key.0, index: key.1, len }),
                ..s
            }
        }
    }

    /// The queued block under a key.
    pub open spec fn block(self, key: BlockKey) -> Block {
        if lists(self.probation, key) {
            self.probation[place_of(self.probation, key, 0) as int]
        } else {
            self.protected[place_of(self.protected, key, 0) as int]
        }
    }

    /// After the oldest protected blocks went back to probation, as few as
    /// bring protected to half the limit.
    pub open spec fn demoted(self) -> ResidencyView
        decreases self.protected.len(),
    {
        if self.protected.len() > 0 && total(self.protected) > self.limit / 2 {
            ResidencyView {
                probation: self.probation.push(self.protected[0]),
                protected: self.protected.skip(1),
                ..self
            }.demoted()
        } else {
            self
        }
    }

    /// After a resident block was read again: it is the newest protected.
    pub open spec fn touched(self, key: BlockKey) -> ResidencyView {
        if self.limit == 0 || !self.resident(key) {
            self
        } else {
            let s = self.dropped(key);
            ResidencyView { protected: s.protected.push(self.block(key)), ..s }.demoted()
        }
    }

    /// After a read took hold of a block.
    pub open spec fn pinned(self, key: BlockKey) -> ResidencyView {
        ResidencyView { pins: self.pins.insert(key), ..self }
    }

    /// After a read let go of a block.
    pub open spec fn unpinned(self, key: BlockKey) -> ResidencyView {
        ResidencyView { pins: self.pins.remove(key), ..self }
    }

    /// The first block of a queue that no read holds, from `from` on.
    pub open spec fn first_free(self, list: Seq<Block>, from: nat) -> Option<BlockKey>
        decreases list.len() - from,
    {
        if from >= list.len() {
            None
        } else if self.pins.count(list[from as int].key()) == 0 {
            Some(list[from as int].key())
        } else {
            self.first_free(list, from + 1)
        }
    }

    /// The next block to evict: the oldest free one of probation, else of
    /// protected.
    pub open spec fn victim(self) -> Option<BlockKey> {
        match self.first_free(self.probation, 0) {
            Some(key) => Some(key),
            None => self.first_free(self.protected, 0),
        }
    }

    /// Whether more is held than the limit allows.
    pub open spec fn over_limit(self) -> bool {
        self.limit > 0 && self.bytes() > self.limit
    }

    /// After evicting until the limit is met or everything left is held.
    pub open spec fn evicted(self) -> ResidencyView
        decreases self.probation.len() + self.protected.len(),
    {
        match self.victim() {
            Some(key) => if self.over_limit() && self.dropped(key).probation.len() + self.dropped(
                key,
            ).protected.len() < self.probation.len() + self.protected.len() {
                self.dropped(key).evicted()
            } else {
                self
            },
            None => self,
        }
    }
}

proof fn lemma_first_free(v: ResidencyView, list: Seq<Block>, from: nat)
    requires
        from <= list.len(),
    ensures
        match v.first_free(list, from) {
            Some(key) => lists(list, key) && v.pins.count(key) == 0,
            None => forall|i: int|
                from <= i < list.len() ==> v.pins.count((#[trigger] list[i]).key()) > 0,
        },
    decreases list.len() - from,
{
    if from < list.len() {
        if v.pins.count(list[from as int].key()) == 0 {
            assert(lists(list, list[from as int].key()));
        } else {
            lemma_first_free(v, list, from + 1);
        }
    }
}

/// Dropping a block keeps the books in order and frees its bytes.
pub proof fn lemma_dropped(v: ResidencyView, key: BlockKey)
    requires
        v.wf(),
    ensures
        v.dropped(key).wf(),
        forall|k: BlockKey| #[trigger] v.dropped(key).resident(k) <==> v.resident(k) && k != key,
        v.resident(key) ==> v.bytes() == v.dropped(key).bytes() + v.block(key).len,
        !v.resident(key) ==> v.dropped(key) == v,
        v.resident(key) ==> v.dropped(key).probation.len() + v.dropped(key).protected.len()
            == v.probation.len() + v.protected.len() - 1,
        v.resident(key) ==> v.block(key).key() == key,
{
    lemma_without(v.probation, key);
    lemma_without(v.protected, key);
    lemma_lists_place(v.probation, key);
    lemma_lists_place(v.protected, key);
    assert forall|k: BlockKey| #[trigger] v.dropped(key).resident(k) <==> v.resident(k) && k != key by {
        if k != key {
            assert(lists(v.dropped(key).probation, k) <==> lists(v.probation, k));
            assert(lists(v.dropped(key).protected, k) <==> lists(v.protected, k));
        }
    }
    assert forall|k: BlockKey| #[trigger] lists(v.dropped(key).probation, k) implies !lists(
        v.dropped(key).protected,
        k,
    ) by {
        assert(k != key);
        assert(lists(v.probation, k));
    }
}

/// Which queue a key leaves, in quantifier-free form.
proof fn lemma_queued(v: ResidencyView, key: BlockKey)
    requires
        v.wf(),
    ensures
        v.dropped(key).wf(),
        ({
            let i = place_of(v.probation, key, 0) as int;
            let j = place_of(v.protected, key, 0) as int;
            &&& 0 <= i <= v.probation.len()
            &&& 0 <= j <= v.protected.len()
            &&& v.resident(key) <==> i < v.probation.len() || j < v.protected.len()
            &&& i < v.probation.len() ==> j == v.protected.len()
            &&& i < v.probation.len() ==> v.dropped(key) == (ResidencyView {
                probation: v.probation.remove(i),
                ..v
            }) && total(v.probation) == total(v.probation.remove(i)) + v.probation[i].len
                && v.block(key) == v.probation[i] && !lists(v.protected, key)
            &&& i == v.probation.len() && j < v.protected.len() ==> v.dropped(key) == (
            ResidencyView { protected: v.protected.remove(j), ..v }) && total(v.protected) == total(
                v.protected.remove(j),
            ) + v.protected[j].len && v.block(key) == v.protected[j] && lists(v.protected, key)
            &&& i == v.probation.len() && j == v.protected.len() ==> v.dropped(key) == v
        }),
{
    lemma_dropped(v, key);
    lemma_place(v.probation, key, 0);
    lemma_place(v.protected, key, 0);
    lemma_lists_place(v.probation, key);
    lemma_lists_place(v.protected, key);
    let i = place_of(v.probation, key, 0) as int;
    let j = place_of(v.protected, key, 0) as int;
    if i < v.probation.len() {
        lemma_total_remove(v.probation, i);
    } else if j < v.protected.len() {
        lemma_total_remove(v.protected, j);
    }
}

proof fn lemma_demoted(v: ResidencyView)
    requires
        v.wf(),
    ensures
        v.demoted().wf(),
        forall|k: BlockKey| #[trigger] v.demoted().resident(k) <==> v.resident(k),
        v.demoted().bytes() == v.bytes(),
        total(v.demoted().protected) <= v.limit / 2,
        v.demoted().pins == v.pins,
        v.demoted().limit == v.limit,
        forall|k: BlockKey| v.resident(k) ==> (#[trigger] v.demoted().block(k)) == v.block(k),
    decreases v.protected.len(),
{
    if v.protected.len() > 0 && total(v.protected) > v.limit / 2 {
        let b = v.protected[0];
        let w = ResidencyView {
            probation: v.probation.push(b),
            protected: v.protected.skip(1),
            ..v
        };
        assert(lists(v.protected, b.key()));
        assert(!lists(v.probation, b.key()));
        lemma_push(v.probation, b);
        lemma_lists_place(v.protected, b.key());
        assert(v.protected.skip(1) =~= v.protected.remove(0));
        assert(place_of(v.protected, b.key(), 0) == 0);
        assert(without(v.protected, b.key()) =~= v.protected.skip(1));
        lemma_without(v.protected, b.key());
        assert forall|k: BlockKey| #[trigger] lists(w.probation, k) implies !lists(w.protected, k) by {
            if k != b.key() {
                assert(lists(v.probation, k));
            }
        }
        assert forall|k: BlockKey| #[trigger] w.resident(k) <==> v.resident(k) by {
            assert(lists(w.probation, k) <==> lists(v.probation, k) || k == b.key());
            if k != b.key() {
                assert(lists(w.protected, k) <==> lists(v.protected, k));
            }
        }
        assert forall|k: BlockKey| v.resident(k) implies (#[trigger] w.block(k)) == v.block(k) by {
            lemma_same_block(v, w, k);
        }
        lemma_demoted(w);
        assert forall|k: BlockKey| v.resident(k) implies (#[trigger] v.demoted().block(k)) == v.block(
            k,
        ) by {
            assert(w.resident(k));
            assert(w.block(k) == v.block(k));
        }
    } else if v.protected.len() == 0 {
        assert(total(v.protected) == 0);
    }
}

proof fn lemma_same_block(v: ResidencyView, w: ResidencyView, k: BlockKey)
    requires
        v.wf(),
        w.wf(),
        v.protected.len() > 0,
        w.probation == v.probation.push(v.protected[0]),
        w.protected == v.protected.skip(1),
        v.resident(k),
    ensures
        w.block(k) == v.block(k),
{
    let b = v.protected[0];
    lemma_lists_place(v.probation, k);
    lemma_lists_place(v.protected, k);
    lemma_lists_place(w.probation, k);
    lemma_lists_place(w.protected, k);
    assert(lists(v.protected, b.key()));
    if lists(v.probation, k) {
        let i = place_of(v.probation, k, 0) as int;
        let j = place_of(w.probation, k, 0) as int;
        assert(w.probation[i].key() == k);
        assert(lists(w.probation, k));
        if i < j {
            assert(w.probation[i].key() != w.probation[j].key());
        } else if j < i {
            assert(w.probation[j].key() != w.probation[i].key());
        }
    } else {
        let i = place_of(v.protected, k, 0) as int;
        if i == 0 {
            let last = v.probation.len() as int;
            assert(w.probation[last] == b);
            assert(lists(w.probation, k));
            let j = place_of(w.probation, k, 0) as int;
            if j < last {
                assert(w.probation[j].key() != w.probation[last].key());
            }
        } else {
            assert(w.protected[i - 1] == v.protected[i]);
            assert(lists(w.protected, k));
            if lists(w.probation, k) {
                assert(!lists(w.protected, k));
            }
            let j = place_of(w.protected, k, 0) as int;
            if j < i - 1 {
                assert(w.protected[j].key() != w.protected[i - 1].key());
            } else if j > i - 1 {
                assert(w.protected[i - 1].key() != w.protected[j].key());
            }
        }
    }
}

proof fn lemma_admitted(v: ResidencyView, key: BlockKey, len: u64)
    requires
        v.wf(),
    ensures
        v.admitted(key, len).wf(),
        v.limit > 0 ==> forall|k: BlockKey| #[trigger]
            v.admitted(key, len).resident(k) <==> v.resident(k) || k == key,
        v.limit > 0 ==> v.admitted(key, len).bytes() == v.dropped(key).bytes() + len,
{
    if v.limit > 0 {
        lemma_dropped(v, key);
        let s = v.dropped(key);
        let b = Block { file: key.0, index: key.1, len };
        assert(b.key() == key);
        assert(!s.resident(key));
        lemma_push(s.probation, b);
        let w = v.admitted(key, len);
        assert forall|k: BlockKey| #[trigger] lists(w.probation, k) implies !lists(w.protected, k) by {
            if k != key {
                assert(lists(s.probation, k));
            }
        }
        assert forall|k: BlockKey| #[trigger] w.resident(k) <==> v.resident(k) || k == key by {
            assert(lists(w.probation, k) <==> lists(s.probation, k) || k == key);
            assert(s.resident(k) <==> v.resident(k) && k != key);
        }
    }
}

proof fn lemma_touched(v: ResidencyView, key: BlockKey)
    requires
        v.wf(),
    ensures
        v.touched(key).wf(),
        forall|k: BlockKey| #[trigger] v.touched(key).resident(k) <==> v.resident(k),
        v.touched(key).bytes() == v.bytes(),
        v.touched(key).pins == v.pins,
        v.touched(key).limit == v.limit,
        v.limit > 0 && v.resident(key) ==> total(v.touched(key).protected) <= v.limit / 2,
{
    if v.limit > 0 && v.resident(key) {
        lemma_dropped(v, key);
        let s = v.dropped(key);
        let b = v.block(key);
        assert(!s.resident(key));
        lemma_push(s.protected, b);
        let w = ResidencyView { protected: s.protected.push(b), ..s };
        assert forall|k: BlockKey| #[trigger] lists(w.probation, k) implies !lists(w.protected, k) by {
            assert(lists(s.probation, k));
            assert(s.resident(k));
            assert(lists(w.protected, k) <==> lists(s.protected, k) || k == key);
        }
        assert forall|k: BlockKey| #[trigger] w.resident(k) <==> v.resident(k) by {
            assert(lists(w.protected, k) <==> lists(s.protected, k) || k == key);
            assert(s.resident(k) <==> v.resident(k) && k != key);
        }
        lemma_demoted(w);
        assert forall|k: BlockKey| #[trigger] v.touched(key).resident(k) <==> v.resident(k) by {
            assert(w.demoted().resident(k) <==> w.resident(k));
        }
    }
}

/// Admitting a block makes exactly that block resident as well.
pub proof fn law_admitting(v: ResidencyView, key: BlockKey, len: u64)
    requires
        v.wf(),
        v.limit > 0,
    ensures
        v.admitted(key, len).wf(),
        forall|k: BlockKey| #[trigger]
            v.admitted(key, len).resident(k) <==> v.resident(k) || k == key,
        v.admitted(key, len).bytes() == v.dropped(key).bytes() + len,
{
    lemma_admitted(v, key, len);
}

/// Touching moves blocks between the queues and nothing else: the same blocks
/// are resident, and protected stays within half the limit.
pub proof fn law_touching(v: ResidencyView, key: BlockKey)
    requires
        v.wf(),
    ensures
        v.touched(key).wf(),
        forall|k: BlockKey| #[trigger] v.touched(key).resident(k) <==> v.resident(k),
        v.touched(key).bytes() == v.bytes(),
        v.limit > 0 && v.resident(key) ==> total(v.touched(key).protected) <= v.limit / 2,
{
    lemma_touched(v, key);
}

/// A victim is resident and held by no read; there is none only when every
/// resident block is held.
pub proof fn law_a_pinned_block_is_never_a_victim(v: ResidencyView)
    ensures
        match v.victim() {
            Some(key) => v.resident(key) && v.pins.count(key) == 0,
            None => forall|key: BlockKey| #[trigger] v.resident(key) ==> v.pins.count(key) > 0,
        },
{
    lemma_first_free(v, v.probation, 0);
    lemma_first_free(v, v.protected, 0);
    if v.victim() is None {
        assert forall|key: BlockKey| #[trigger] v.resident(key) implies v.pins.count(key) > 0 by {
            if lists(v.probation, key) {
                let i = choose|i: int| 0 <= i < v.probation.len() && (#[trigger] v.probation[i]).key() == key;
            } else {
                let i = choose|i: int| 0 <= i < v.protected.len() && (#[trigger] v.protected[i]).key() == key;
            }
        }
    }
}

/// Evicting removes only blocks no read holds, and stops at the limit or when
/// every block left is held.
pub proof fn law_evicting(v: ResidencyView)
    requires
        v.wf(),
    ensures
        v.evicted().wf(),
        v.evicted().limit == v.limit,
        v.evicted().pins == v.pins,
        forall|k: BlockKey| #[trigger] v.evicted().resident(k) ==> v.resident(k),
        forall|k: BlockKey|
            v.resident(k) && v.pins.count(k) > 0 ==> #[trigger] v.evicted().resident(k),
        v.evicted().over_limit() ==> v.evicted().victim() is None,
    decreases v.probation.len() + v.protected.len(),
{
    law_a_pinned_block_is_never_a_victim(v);
    match v.victim() {
        Some(key) => {
            lemma_dropped(v, key);
            if v.over_limit() {
                law_evicting(v.dropped(key));
                assert forall|k: BlockKey| #[trigger] v.evicted().resident(k) implies v.resident(k) by {
                    assert(v.dropped(key).resident(k));
                }
                assert forall|k: BlockKey| v.resident(k) && v.pins.count(k) > 0 implies #[trigger] v.evicted().resident(
                    k,
                ) by {
                    assert(v.dropped(key).resident(k));
                }
            }
        },
        None => {},
    }
}

/// A one-pass scan cannot flush what was read again: while protected fits the
/// limit and no read holds a block, eviction leaves protected as it is.
pub proof fn law_a_scan_cannot_flush_the_protected_blocks(v: ResidencyView)
    requires
        v.wf(),
        total(v.protected) <= v.limit,
        v.pins == Multiset::<BlockKey>::empty(),
    ensures
        v.evicted().protected == v.protected,
    decreases v.probation.len() + v.protected.len(),
{
    lemma_first_free(v, v.probation, 0);
    if v.over_limit() && v.victim() is Some {
        let key = v.victim()->0;
        if v.probation.len() == 0 {
            assert(total(v.probation) == 0);
        } else {
            assert(v.pins.count(v.probation[0].key()) == 0);
            assert(v.first_free(v.probation, 0) is Some);
            assert(lists(v.probation, key));
            assert(!lists(v.protected, key));
            lemma_without(v.protected, key);
            lemma_dropped(v, key);
            assert(v.resident(key));
            law_a_scan_cannot_flush_the_protected_blocks(v.dropped(key));
        }
    }
}

/// The books of resident blocks.
#[derive(Debug)]
pub struct Residency {
    limit: u64,
    resident_bytes: u64,
    protected_bytes: u64,
    probation: Vec<Block>,
    protected: Vec<Block>,
    pins: Vec<BlockKey>,
}

impl View for Residency {
    type V = ResidencyView;

    closed spec fn view(&self) -> ResidencyView {
        ResidencyView {
            limit: self.limit,
            probation: self.probation@,
            protected: self.protected@,
            pins: self.pins@.to_multiset(),
        }
    }
}

fn find(list: &Vec<Block>, key: BlockKey) -> (res: usize)
    ensures
        res == place_of(list@, key, 0),
        res <= list@.len(),
{
    let mut i: usize = 0;
    while i < list.len() && !list[i].is(key)
        invariant
            i <= list@.len(),
            place_of(list@, key, 0) == place_of(list@, key, i as nat),
        decreases list.len() - i,
    {
        i = i + 1;
    }
    i
}

impl Residency {
    /// The queues are in order and the byte counts are true.
    pub closed spec fn wf(&self) -> bool {
        &&& self@.wf()
        &&& self.resident_bytes == self@.bytes()
        &&& self.protected_bytes == total(self@.protected)
    }

    /// What well-formedness promises a caller.
    pub proof fn lemma_wf(&self)
        requires
            self.wf(),
        ensures
            self@.wf(),
            self@.bytes() <= u64::MAX,
    {
    }

    /// Empty books under a limit; zero keeps none.
    pub fn new(limit: u64) -> (res: Residency)
        ensures
            res.wf(),
            res@ == (ResidencyView {
                limit,
                probation: Seq::empty(),
                protected: Seq::empty(),
                pins: Multiset::empty(),
            }),
    {
        let res = Residency {
            limit,
            resident_bytes: 0,
            protected_bytes: 0,
            probation: Vec::new(),
            protected: Vec::new(),
            pins: Vec::new(),
        };
        proof {
            broadcast use vstd::seq_lib::group_to_multiset_ensures;

            assert(res.pins@.to_multiset() =~= Multiset::empty());
            assert(res@.probation =~= Seq::empty());
            assert(res@.protected =~= Seq::empty());
        }
        res
    }

    pub fn limit(&self) -> (res: u64)
        ensures
            res == self@.limit,
    {
        self.limit
    }

    pub fn resident_bytes(&self) -> (res: u64)
        requires
            self.wf(),
        ensures
            res == self@.bytes(),
    {
        self.resident_bytes
    }

    /// Whether a block is resident.
    pub fn is_resident(&self, key: BlockKey) -> (res: bool)
        ensures
            res == self@.resident(key),
    {
        proof {
            lemma_lists_place(self.probation@, key);
            lemma_lists_place(self.protected@, key);
        }
        find(&self.probation, key) < self.probation.len() || find(&self.protected, key)
            < self.protected.len()
    }

    /// Take a block out of the queue it is in.
    fn remove_queued(&mut self, key: BlockKey) -> (res: Option<(Block, bool)>)
        requires
            old(self).wf(),
        ensures
            final(self).wf(),
            final(self)@ == old(self)@.dropped(key),
            res is Some <==> old(self)@.resident(key),
            res matches Some((b, protected)) ==> b == old(self)@.block(key) && protected == lists(
                old(self)@.protected,
                key,
            ),
    {
        let ghost before = self@;
        proof {
            lemma_queued(before, key);
        }
        let i = find(&self.probation, key);
        if i < self.probation.len() {
            let b = self.probation.remove(i);
            self.resident_bytes = self.resident_bytes - b.len;
            assert(self@ =~= before.dropped(key));
            return Some((b, false));
        }
        let j = find(&self.protected, key);
        if j < self.protected.len() {
            let b = self.protected.remove(j);
            self.resident_bytes = self.resident_bytes - b.len;
            self.protected_bytes = self.protected_bytes - b.len;
            assert(self@ =~= before.dropped(key));
            return Some((b, true));
        }
        None
    }

    /// A block just became present: it enters probation.
    pub fn admit_block(&mut self, key: BlockKey, len: u64)
        requires
            old(self).wf(),
            old(self)@.dropped(key).bytes() + len <= u64::MAX,
        ensures
            final(self).wf(),
            final(self)@ == old(self)@.admitted(key, len),
    {
        if self.limit == 0 {
            return;
        }
        proof {
            lemma_admitted(self@, key, len);
        }
        let _ = self.remove_queued(key);
        self.probation.push(Block { file: key.0, index: key.1, len });
        self.resident_bytes = self.resident_bytes + len;
        assert(self@ =~= old(self)@.admitted(key, len));
    }

    /// A resident block was read again: promote it to protected.
    pub fn touch(&mut self, key: BlockKey)
        requires
            old(self).wf(),
        ensures
            final(self).wf(),
            final(self)@ == old(self)@.touched(key),
    {
        if self.limit == 0 {
            return;
        }
        let ghost before = self@;
        proof {
            lemma_touched(before, key);
            lemma_dropped(before, key);
        }
        let b = match self.remove_queued(key) {
            Some((b, _)) => b,
            None => {
                return;
            },
        };
        proof {
            assert(!self@.resident(key));
            lemma_push(self@.protected, b);
        }
        let ghost rest = self@;
        self.protected.push(b);
        self.resident_bytes = self.resident_bytes + b.len;
        self.protected_bytes = self.protected_bytes + b.len;
        let ghost promoted = ResidencyView { protected: rest.protected.push(b), ..rest };
        assert(self@ =~= promoted);
        proof {
            assert forall|k: BlockKey| #[trigger] lists(promoted.probation, k) implies !lists(
                promoted.protected,
                k,
            ) by {
                assert(rest.resident(k));
            }
        }
        while self.protected.len() > 0 && self.protected_bytes > self.limit / 2
            invariant
                self.wf(),
                self@.limit == before.limit,
                promoted.demoted() == self@.demoted(),
            decreases self.protected@.len(),
        {
            let ghost now = self@;
            proof {
                lemma_total_remove(now.protected, 0);
            }
            let oldest = self.protected.remove(0);
            self.probation.push(oldest);
            self.protected_bytes = self.protected_bytes - oldest.len;
            proof {
                let next = ResidencyView {
                    probation: now.probation.push(now.protected[0]),
                    protected: now.protected.skip(1),
                    ..now
                };
                assert(now.protected.remove(0) =~= now.protected.skip(1));
                assert(self@ =~= next);
                lemma_total_push(now.probation, oldest);
                assert(lists(now.protected, oldest.key()));
                lemma_push(now.probation, oldest);
                lemma_lists_place(now.protected, oldest.key());
                assert(place_of(now.protected, oldest.key(), 0) == 0);
                assert(without(now.protected, oldest.key()) == now.protected.remove(0));
                lemma_without(now.protected, oldest.key());
                assert forall|k: BlockKey| #[trigger] lists(next.probation, k) implies !lists(
                    next.protected,
                    k,
                ) by {
                    if k != oldest.key() {
                        assert(lists(now.probation, k));
                    }
                }
            }
        }
    }

    /// A read takes hold of a block.
    pub fn pin(&mut self, key: BlockKey)
        requires
            old(self).wf(),
        ensures
            final(self).wf(),
            final(self)@ == old(self)@.pinned(key),
    {
        broadcast use vstd::seq_lib::group_to_multiset_ensures;

        self.pins.push(key);
        assert(self@ =~= old(self)@.pinned(key));
    }

    fn pin_place(&self, key: BlockKey) -> (res: usize)
        ensures
            res <= self.pins@.len(),
            res < self.pins@.len() ==> self.pins@[res as int] == key,
            res == self.pins@.len() <==> self@.pins.count(key) == 0,
    {
        broadcast use vstd::seq_lib::group_to_multiset_ensures;

        let mut i: usize = 0;
        while i < self.pins.len() && !(self.pins[i].0 == key.0 && self.pins[i].1 == key.1)
            invariant
                i <= self.pins@.len(),
                forall|k: int| 0 <= k < i ==> self.pins@[k] != key,
            decreases self.pins.len() - i,
        {
            i = i + 1;
        }
        proof {
            if i < self.pins@.len() {
                assert(self.pins@.contains(key));
            } else {
                assert(!self.pins@.contains(key));
            }
        }
        i
    }

    /// A read lets go of a block.
    pub fn unpin(&mut self, key: BlockKey)
        requires
            old(self).wf(),
        ensures
            final(self).wf(),
            final(self)@ == old(self)@.unpinned(key),
    {
        broadcast use vstd::seq_lib::group_to_multiset_ensures;

        let i = self.pin_place(key);
        if i < self.pins.len() {
            let _ = self.pins.remove(i);
        }
        assert(self@.pins =~= old(self)@.unpinned(key).pins);
        assert(self@ =~= old(self)@.unpinned(key));
    }

    fn free_in(&self, list: &Vec<Block>) -> (res: Option<BlockKey>)
        ensures
            res == self@.first_free(list@, 0),
    {
        let mut i: usize = 0;
        while i < list.len()
            invariant
                i <= list@.len(),
                self@.first_free(list@, 0) == self@.first_free(list@, i as nat),
            decreases list.len() - i,
        {
            let key = (list[i].file, list[i].index);
            if self.pin_place(key) == self.pins.len() {
                return Some(key);
            }
            i = i + 1;
        }
        None
    }

    /// The next block to evict: probation first, never one a read holds.
    pub fn victim(&self) -> (res: Option<BlockKey>)
        ensures
            res == self@.victim(),
    {
        match self.free_in(&self.probation) {
            Some(key) => Some(key),
            None => self.free_in(&self.protected),
        }
    }

    /// Drop a block from the books.
    pub fn forget(&mut self, key: BlockKey) -> (res: Option<Block>)
        requires
            old(self).wf(),
        ensures
            final(self).wf(),
            final(self)@ == old(self)@.dropped(key),
            res == (if old(self)@.resident(key) {
                Some(old(self)@.block(key))
            } else {
                None
            }),
    {
        match self.remove_queued(key) {
            Some((b, _)) => Some(b),
            None => None,
        }
    }

    /// Whether more is held than the limit allows.
    pub fn over_limit(&self) -> (res: bool)
        requires
            self.wf(),
        ensures
            res == self@.over_limit(),
    {
        self.limit > 0 && self.resident_bytes > self.limit
    }
}

} // verus!
