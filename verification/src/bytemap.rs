//! A map keyed by byte strings, kept sorted by key.
use vstd::prelude::*;
use crate::bytes::{bytes_lt, lex_lt};

verus! {

/// A map from byte strings to values.
#[derive(Debug)]
pub struct ByteMap<V> {
    keys: Vec<Vec<u8>>,
    values: Vec<V>,
}

/// Where a key stands in a sequence of distinct keys.
pub open spec fn position(keys: Seq<Seq<u8>>, key: Seq<u8>) -> int {
    choose|i: int| 0 <= i < keys.len() && #[trigger] keys[i] == key
}

impl<V> View for ByteMap<V> {
    type V = Map<Seq<u8>, V>;

    closed spec fn view(&self) -> Map<Seq<u8>, V> {
        Map::new(
            |k: Seq<u8>| self.key_seq().contains(k),
            |k: Seq<u8>| self.values@[position(self.key_seq(), k)],
        )
    }
}

impl<V> ByteMap<V> {
    /// The keys, in byte order.
    pub closed spec fn key_seq(&self) -> Seq<Seq<u8>> {
        Seq::new(self.keys@.len(), |i: int| self.keys@[i]@)
    }

    /// Keys strictly ascend and each has a value.
    pub closed spec fn wf(&self) -> bool {
        &&& self.keys@.len() == self.values@.len()
        &&& forall|i: int, j: int|
            0 <= i < j < self.keys@.len() ==> lex_lt(
                #[trigger] self.keys@[i]@,
                #[trigger] self.keys@[j]@,
            )
    }

    /// The key sequence lists every key once, in byte order.
    pub proof fn lemma_keys(&self)
        requires
            self.wf(),
        ensures
            self.key_seq().no_duplicates(),
            forall|i: int, j: int|
                0 <= i < j < self.key_seq().len() ==> lex_lt(
                    #[trigger] self.key_seq()[i],
                    #[trigger] self.key_seq()[j],
                ),
            forall|k: Seq<u8>| #[trigger] self@.contains_key(k) <==> self.key_seq().contains(k),
            forall|i: int|
                0 <= i < self.key_seq().len() ==> self@.contains_key(#[trigger] self.key_seq()[i]),
            self@.dom().finite(),
            self@.len() == self.key_seq().len(),
    {
        let ks = self.key_seq();
        assert forall|i: int, j: int| 0 <= i < j < ks.len() implies lex_lt(
            #[trigger] ks[i],
            #[trigger] ks[j],
        ) by {
            assert(lex_lt(self.keys@[i]@, self.keys@[j]@));
        }
        assert forall|i: int, j: int| 0 <= i < ks.len() && 0 <= j < ks.len() && i != j implies ks[i]
            != ks[j] by {
            crate::bytes::lemma_lex_irreflexive(ks[i], 0);
            if i < j {
                assert(lex_lt(ks[i], ks[j]));
            } else {
                assert(lex_lt(ks[j], ks[i]));
            }
        }
        assert(self@.dom() =~= ks.to_set());
        ks.unique_seq_to_set();
        assert forall|i: int| 0 <= i < ks.len() implies self@.contains_key(#[trigger] ks[i]) by {
            assert(ks.contains(ks[i]));
        }
    }

    proof fn lemma_value_at(&self, i: int)
        requires
            self.wf(),
            0 <= i < self.keys@.len(),
        ensures
            self@.contains_key(self.keys@[i]@),
            self@[self.keys@[i]@] == self.values@[i],
            self.key_seq()[i] == self.keys@[i]@,
    {
        self.lemma_keys();
        let ks = self.key_seq();
        assert(ks[i] == self.keys@[i]@);
        assert(ks.contains(ks[i]));
        let p = position(ks, ks[i]);
        assert(0 <= p < ks.len() && ks[p] == ks[i]);
        assert(p == i);
    }

    pub fn new() -> (res: ByteMap<V>)
        ensures
            res.wf(),
            res@ == Map::<Seq<u8>, V>::empty(),
            res.key_seq() == Seq::<Seq<u8>>::empty(),
    {
        let res = ByteMap { keys: Vec::new(), values: Vec::new() };
        assert(res@ =~= Map::<Seq<u8>, V>::empty());
        assert(res.key_seq() =~= Seq::<Seq<u8>>::empty());
        res
    }

    /// How many keys there are.
    pub fn len(&self) -> (res: usize)
        requires
            self.wf(),
        ensures
            res == self@.len(),
            res == self.key_seq().len(),
    {
        proof {
            self.lemma_keys();
        }
        self.keys.len()
    }

    /// Where `key` is, or where it would go.
    fn lower_bound(&self, key: &[u8]) -> (res: usize)
        requires
            self.wf(),
        ensures
            res <= self.keys@.len(),
            forall|i: int| 0 <= i < res ==> lex_lt(#[trigger] self.keys@[i]@, key@),
            forall|i: int| res <= i < self.keys@.len() ==> !lex_lt(#[trigger] self.keys@[i]@, key@),
            self@.contains_key(key@) <==> (res < self.keys@.len() && self.keys@[res as int]@ == key@),
            self@.contains_key(key@) ==> self@[key@] == self.values@[res as int],
    {
        let mut lo: usize = 0;
        let mut hi: usize = self.keys.len();
        while lo < hi
            invariant
                self.wf(),
                lo <= hi <= self.keys@.len(),
                forall|i: int| 0 <= i < lo ==> lex_lt(#[trigger] self.keys@[i]@, key@),
                forall|i: int|
                    hi <= i < self.keys@.len() ==> !lex_lt(#[trigger] self.keys@[i]@, key@),
            decreases hi - lo,
        {
            let mid = lo + (hi - lo) / 2;
            if bytes_lt(self.keys[mid].as_slice(), key) {
                proof {
                    assert forall|i: int| 0 <= i < mid + 1 implies lex_lt(
                        #[trigger] self.keys@[i]@,
                        key@,
                    ) by {
                        if i < mid {
                            crate::bytes::lemma_lex_transitive(
                                self.keys@[i]@,
                                self.keys@[mid as int]@,
                                key@,
                            );
                        }
                    }
                }
                lo = mid + 1;
            } else {
                proof {
                    assert forall|i: int| mid <= i < self.keys@.len() implies !lex_lt(
                        #[trigger] self.keys@[i]@,
                        key@,
                    ) by {
                        if i > mid && lex_lt(self.keys@[i]@, key@) {
                            crate::bytes::lemma_lex_transitive(
                                self.keys@[mid as int]@,
                                self.keys@[i]@,
                                key@,
                            );
                        }
                    }
                }
                hi = mid;
            }
        }
        proof {
            crate::bytes::lemma_lex_irreflexive(key@, 0);
            let ks = self.key_seq();
            if ks.contains(key@) {
                let i = choose|i: int| 0 <= i < ks.len() && ks[i] == key@;
                assert(self.keys@[i]@ == key@);
                assert(i >= lo);
                if i > lo {
                    assert(lex_lt(self.keys@[lo as int]@, self.keys@[i]@));
                }
                self.lemma_value_at(i);
            }
            if lo < self.keys@.len() && self.keys@[lo as int]@ == key@ {
                self.lemma_value_at(lo as int);
            }
        }
        lo
    }

    fn is_at(&self, at: usize, key: &[u8]) -> (res: bool)
        ensures
            res == (at < self.keys@.len() && self.keys@[at as int]@ == key@),
    {
        at < self.keys.len() && crate::bytes::bytes_eq(self.keys[at].as_slice(), key)
    }

    pub fn contains(&self, key: &[u8]) -> (res: bool)
        requires
            self.wf(),
        ensures
            res == self@.contains_key(key@),
    {
        let at = self.lower_bound(key);
        self.is_at(at, key)
    }

    pub fn get(&self, key: &[u8]) -> (res: Option<&V>)
        requires
            self.wf(),
        ensures
            res is Some <==> self@.contains_key(key@),
            res matches Some(v) ==> *v == self@[key@],
    {
        let at = self.lower_bound(key);
        if self.is_at(at, key) {
            Some(&self.values[at])
        } else {
            None
        }
    }

    /// Bind `key` to `value`, replacing what it was bound to.
    pub fn insert(&mut self, key: Vec<u8>, value: V)
        requires
            old(self).wf(),
        ensures
            final(self).wf(),
            final(self)@ == old(self)@.insert(key@, value),
    {
        let ghost before = *self;
        let at = self.lower_bound(key.as_slice());
        if self.is_at(at, key.as_slice()) {
            self.values[at] = value;
            proof {
                assert(self.keys == before.keys);
                assert(self.key_seq() == before.key_seq());
                assert(self@.dom() =~= before@.insert(key@, value).dom());
                assert forall|k: Seq<u8>| self@.contains_key(k) implies self@[k] == before@.insert(
                    key@,
                    value,
                )[k] by {
                    let i = position(self.key_seq(), k);
                    assert(0 <= i < self.keys@.len() && self.key_seq()[i] == k);
                    self.lemma_value_at(i);
                    before.lemma_value_at(i);
                    if k == key@ {
                        self.lemma_value_at(at as int);
                    } else {
                        assert(i != at);
                    }
                }
                assert(self@ =~= before@.insert(key@, value));
            }
        } else {
            self.keys.insert(at, key);
            self.values.insert(at, value);
            proof {
                let n = before.keys@.len();
                assert forall|i: int, j: int| 0 <= i < j < self.keys@.len() implies lex_lt(
                    #[trigger] self.keys@[i]@,
                    #[trigger] self.keys@[j]@,
                ) by {
                    if j < at {
                        assert(lex_lt(before.keys@[i]@, before.keys@[j]@));
                    } else if j == at {
                        assert(lex_lt(before.keys@[i]@, key@));
                    } else if i < at {
                        assert(lex_lt(before.keys@[i]@, before.keys@[j - 1]@));
                    } else if i == at {
                        assert(!lex_lt(before.keys@[j - 1]@, key@));
                        crate::bytes::lemma_lex_total(before.keys@[j - 1]@, key@);
                        if before.keys@[j - 1]@ == key@ {
                            before.lemma_value_at(j - 1);
                        }
                    } else {
                        assert(lex_lt(before.keys@[i - 1]@, before.keys@[j - 1]@));
                    }
                }
                assert(self.wf());
                self.lemma_keys();
                before.lemma_keys();
                let goal = before@.insert(key@, value);
                assert forall|k: Seq<u8>| #[trigger] self@.contains_key(k) <==> goal.contains_key(k) by {
                    if self@.contains_key(k) {
                        let i = position(self.key_seq(), k);
                        assert(0 <= i < self.keys@.len() && self.key_seq()[i] == k);
                        if i < at {
                            before.lemma_value_at(i);
                        } else if i > at {
                            before.lemma_value_at(i - 1);
                        }
                    }
                    if goal.contains_key(k) {
                        if k == key@ {
                            self.lemma_value_at(at as int);
                        } else {
                            let i = position(before.key_seq(), k);
                            assert(0 <= i < before.keys@.len() && before.key_seq()[i] == k);
                            if i < at {
                                self.lemma_value_at(i);
                            } else {
                                self.lemma_value_at(i + 1);
                            }
                        }
                    }
                }
                assert forall|k: Seq<u8>| self@.contains_key(k) implies #[trigger] self@[k] == goal[k] by {
                    let i = position(self.key_seq(), k);
                    assert(0 <= i < self.keys@.len() && self.key_seq()[i] == k);
                    self.lemma_value_at(i);
                    if i < at {
                        before.lemma_value_at(i);
                    } else if i > at {
                        before.lemma_value_at(i - 1);
                    }
                }
                assert(self@ =~= goal);
            }
        }
    }

    /// Unbind `key`; what it was bound to.
    pub fn remove(&mut self, key: &[u8]) -> (res: Option<V>)
        requires
            old(self).wf(),
        ensures
            final(self).wf(),
            final(self)@ == old(self)@.remove(key@),
            res is Some <==> old(self)@.contains_key(key@),
            res matches Some(v) ==> v == old(self)@[key@],
    {
        let ghost before = *self;
        let at = self.lower_bound(key);
        if self.is_at(at, key) {
            let _ = self.keys.remove(at);
            let value = self.values.remove(at);
            proof {
                assert forall|i: int, j: int| 0 <= i < j < self.keys@.len() implies lex_lt(
                    #[trigger] self.keys@[i]@,
                    #[trigger] self.keys@[j]@,
                ) by {
                    let i0 = if i < at {
                        i
                    } else {
                        i + 1
                    };
                    let j0 = if j < at {
                        j
                    } else {
                        j + 1
                    };
                    assert(lex_lt(before.keys@[i0]@, before.keys@[j0]@));
                }
                assert(self.wf());
                self.lemma_keys();
                before.lemma_keys();
                let goal = before@.remove(key@);
                assert forall|k: Seq<u8>| #[trigger] self@.contains_key(k) <==> goal.contains_key(k) by {
                    if self@.contains_key(k) {
                        let i = position(self.key_seq(), k);
                        assert(0 <= i < self.keys@.len() && self.key_seq()[i] == k);
                        let i0 = if i < at {
                            i
                        } else {
                            i + 1
                        };
                        before.lemma_value_at(i0);
                        before.lemma_value_at(at as int);
                        assert(before.key_seq()[i0] != before.key_seq()[at as int]);
                    }
                    if goal.contains_key(k) {
                        let i = position(before.key_seq(), k);
                        assert(0 <= i < before.keys@.len() && before.key_seq()[i] == k);
                        assert(i != at);
                        if i < at {
                            self.lemma_value_at(i);
                        } else {
                            self.lemma_value_at(i - 1);
                        }
                    }
                }
                assert forall|k: Seq<u8>| self@.contains_key(k) implies #[trigger] self@[k] == goal[k] by {
                    let i = position(self.key_seq(), k);
                    assert(0 <= i < self.keys@.len() && self.key_seq()[i] == k);
                    self.lemma_value_at(i);
                    let i0 = if i < at {
                        i
                    } else {
                        i + 1
                    };
                    before.lemma_value_at(i0);
                }
                assert(self@ =~= goal);
            }
            Some(value)
        } else {
            assert(before@.remove(key@) =~= before@);
            None
        }
    }

    /// The key at a place in byte order.
    pub fn key_at(&self, i: usize) -> (res: &Vec<u8>)
        requires
            self.wf(),
            i < self.key_seq().len(),
        ensures
            res@ == self.key_seq()[i as int],
            self@.contains_key(res@),
    {
        proof {
            self.lemma_value_at(i as int);
        }
        &self.keys[i]
    }

    /// The value at a place in byte order of the keys.
    pub fn value_at(&self, i: usize) -> (res: &V)
        requires
            self.wf(),
            i < self.key_seq().len(),
        ensures
            self@.contains_key(self.key_seq()[i as int]),
            *res == self@[self.key_seq()[i as int]],
    {
        proof {
            self.lemma_value_at(i as int);
        }
        &self.values[i]
    }
}

} // verus!
