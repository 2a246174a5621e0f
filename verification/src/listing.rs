//! Complete listings of base directories, kept for the life of a pin.
//!
//! The pinned commit is immutable, so one complete listing answers every
//! question about its directory, the absence of any other name among them.
use vstd::prelude::*;
use crate::bytemap::ByteMap;
use crate::bytes::copy_bytes;
use crate::directory::entry_name;
use crate::entry::TreeEntryInfo;
use crate::path::{base_name, BytePath};

verus! {

/// The last entry of a name among the first `n`.
pub open spec fn last_named(entries: Seq<TreeEntryInfo>, name: Seq<u8>, n: nat) -> Option<nat>
    decreases n,
{
    if n == 0 {
        None
    } else if base_name(entries[n - 1].path@) == name {
        Some((n - 1) as nat)
    } else {
        last_named(entries, name, (n - 1) as nat)
    }
}

/// A directory's complete base listing, with an index by name.
#[derive(Debug)]
pub struct Listing {
    entries: Vec<TreeEntryInfo>,
    by_name: ByteMap<usize>,
}

impl Listing {
    /// The entries, in listing order.
    pub closed spec fn view(&self) -> Seq<TreeEntryInfo> {
        self.entries@
    }

    /// The index names the last entry of each name.
    pub closed spec fn wf(&self) -> bool {
        &&& self.by_name.wf()
        &&& forall|name: Seq<u8>|
            match last_named(self.entries@, name, self.entries@.len()) {
                Some(i) => self.by_name@.contains_key(name) && self.by_name@[name] == i && i
                    < self.entries@.len(),
                None => !(#[trigger] self.by_name@.contains_key(name)),
            }
    }

    /// Build from the concatenation of every page of a directory.
    pub fn new(entries: Vec<TreeEntryInfo>) -> (res: Listing)
        ensures
            res.wf(),
            res@ == entries@,
    {
        let mut by_name: ByteMap<usize> = ByteMap::new();
        let mut i: usize = 0;
        while i < entries.len()
            invariant
                i <= entries@.len(),
                by_name.wf(),
                forall|name: Seq<u8>|
                    match last_named(entries@, name, i as nat) {
                        Some(k) => by_name@.contains_key(name) && by_name@[name] == k && k < i,
                        None => !(#[trigger] by_name@.contains_key(name)),
                    },
            decreases entries.len() - i,
        {
            let name = entry_name(&entries[i]);
            by_name.insert(name, i);
            i = i + 1;
        }
        Listing { entries, by_name }
    }

    /// The entry of a child name. None is definitive: the pin has no such
    /// child.
    pub fn get(&self, name: &[u8]) -> (res: Option<&TreeEntryInfo>)
        requires
            self.wf(),
        ensures
            match last_named(self@, name@, self@.len()) {
                Some(i) => res matches Some(e) && *e == self@[i as int],
                None => res is None,
            },
    {
        assert(last_named(self.entries@, name@, self.entries@.len()) is Some
            <==> self.by_name@.contains_key(name@));
        match self.by_name.get(name) {
            Some(i) => Some(&self.entries[*i]),
            None => None,
        }
    }

    /// Every entry, in listing order.
    pub fn entries(&self) -> (res: &Vec<TreeEntryInfo>)
        ensures
            res@ == self@,
    {
        &self.entries
    }
}

/// A listing answers definitively: a name it gives no entry for is no entry's.
pub proof fn law_absence_is_definitive(entries: Seq<TreeEntryInfo>, name: Seq<u8>, n: nat, k: int)
    requires
        0 <= k < n <= entries.len(),
        last_named(entries, name, n) is None,
    ensures
        base_name(entries[k].path@) != name,
    decreases n,
{
    if k < n - 1 {
        law_absence_is_definitive(entries, name, (n - 1) as nat, k);
    }
}

#[derive(Debug)]
struct Slot {
    dir: Vec<u8>,
    listing: Listing,
}

/// One cached directory.
#[verifier::ext_equal]
pub struct SlotView {
    pub dir: Seq<u8>,
    pub listing: Seq<TreeEntryInfo>,
}

/// Entries across a number of slots.
pub open spec fn held(slots: Seq<SlotView>) -> nat
    decreases slots.len(),
{
    if slots.len() == 0 {
        0
    } else {
        held(slots.drop_first()) + slots[0].listing.len()
    }
}

/// Nine tenths of a bound.
pub open spec fn headroom(capacity: usize) -> int {
    capacity * 9 / 10
}

/// What a [`ListingCache`] denotes: the cached directories, the least recently
/// used first.
#[verifier::ext_equal]
pub struct CacheView {
    pub slots: Seq<SlotView>,
    pub capacity_dirs: usize,
    pub capacity_entries: usize,
}

/// Where a directory is cached, from slot `from` on.
pub open spec fn slot_of(slots: Seq<SlotView>, dir: Seq<u8>, from: int) -> int
    decreases slots.len() - from,
{
    if from >= slots.len() || from < 0 {
        slots.len() as int
    } else if slots[from].dir == dir {
        from
    } else {
        slot_of(slots, dir, from + 1)
    }
}

/// The slots after dropping the coldest until both bounds have headroom.
pub open spec fn trimmed(slots: Seq<SlotView>, dirs: int, entries: int) -> Seq<SlotView>
    decreases slots.len(),
{
    if slots.len() == 0 || (slots.len() <= dirs && held(slots) <= entries) {
        slots
    } else {
        trimmed(slots.drop_first(), dirs, entries)
    }
}

impl CacheView {
    /// Whether a directory is cached.
    pub open spec fn holds(self, dir: Seq<u8>) -> bool {
        slot_of(self.slots, dir, 0) < self.slots.len()
    }

    /// The slots without a directory.
    pub open spec fn without(self, dir: Seq<u8>) -> Seq<SlotView> {
        if self.holds(dir) {
            self.slots.remove(slot_of(self.slots, dir, 0))
        } else {
            self.slots
        }
    }

    /// After a directory's listing was asked for: the most recently used one.
    pub open spec fn touched(self, dir: Seq<u8>) -> CacheView {
        if self.holds(dir) {
            CacheView {
                slots: self.without(dir).push(self.slots[slot_of(self.slots, dir, 0)]),
                ..self
            }
        } else {
            self
        }
    }

    /// After a listing was added, and the coldest dropped if a bound was
    /// passed.
    pub open spec fn added(self, dir: Seq<u8>, listing: Seq<TreeEntryInfo>) -> CacheView {
        let slots = self.without(dir).push(SlotView { dir, listing });
        CacheView {
            slots: if slots.len() > self.capacity_dirs || held(slots) > self.capacity_entries {
                trimmed(slots, headroom(self.capacity_dirs), headroom(self.capacity_entries))
            } else {
                slots
            },
            ..self
        }
    }
}

/// Complete listings of base directories, bounded by directories and by
/// entries.
#[derive(Debug)]
pub struct ListingCache {
    slots: Vec<Slot>,
    entries: usize,
    capacity_dirs: usize,
    capacity_entries: usize,
}

impl View for ListingCache {
    type V = CacheView;

    closed spec fn view(&self) -> CacheView {
        CacheView {
            slots: slot_views(self.slots@),
            capacity_dirs: self.capacity_dirs,
            capacity_entries: self.capacity_entries,
        }
    }
}

spec fn slot_views(slots: Seq<Slot>) -> Seq<SlotView> {
    Seq::new(slots.len(), |i: int| SlotView { dir: slots[i].dir@, listing: slots[i].listing@ })
}

proof fn lemma_held_push(slots: Seq<SlotView>, slot: SlotView)
    ensures
        held(slots.push(slot)) == held(slots) + slot.listing.len(),
    decreases slots.len(),
{
    if slots.len() == 0 {
        assert(slots.push(slot).drop_first() =~= slots);
    } else {
        lemma_held_push(slots.drop_first(), slot);
        assert(slots.push(slot).drop_first() =~= slots.drop_first().push(slot));
    }
}

proof fn lemma_held_remove(slots: Seq<SlotView>, i: int)
    requires
        0 <= i < slots.len(),
    ensures
        held(slots.remove(i)) + slots[i].listing.len() == held(slots),
    decreases slots.len(),
{
    if i == 0 {
        assert(slots.remove(0) =~= slots.drop_first());
    } else {
        lemma_held_remove(slots.drop_first(), i - 1);
        assert(slots.remove(i).drop_first() =~= slots.drop_first().remove(i - 1));
    }
}

proof fn lemma_slot_of(slots: Seq<SlotView>, dir: Seq<u8>, from: int)
    requires
        0 <= from <= slots.len(),
    ensures
        from <= slot_of(slots, dir, from) <= slots.len(),
        slot_of(slots, dir, from) < slots.len() ==> slots[slot_of(slots, dir, from)].dir == dir,
        forall|k: int| from <= k < slot_of(slots, dir, from) ==> (#[trigger] slots[k]).dir != dir,
    decreases slots.len() - from,
{
    if from < slots.len() && slots[from].dir != dir {
        lemma_slot_of(slots, dir, from + 1);
    }
}

impl ListingCache {
    /// The entry count is kept true, and every listing answers by name.
    pub closed spec fn wf(&self) -> bool {
        &&& self.entries == held(self@.slots)
        &&& self.capacity_dirs >= 1
        &&& self.capacity_entries >= 1
        &&& forall|i: int| 0 <= i < self.slots@.len() ==> (#[trigger] self.slots@[i]).listing.wf()
    }

    /// An empty cache; each bound is at least one.
    pub fn new(capacity_dirs: usize, capacity_entries: usize) -> (res: ListingCache)
        ensures
            res.wf(),
            res@ == (CacheView {
                slots: Seq::empty(),
                capacity_dirs: if capacity_dirs == 0 {
                    1
                } else {
                    capacity_dirs
                },
                capacity_entries: if capacity_entries == 0 {
                    1
                } else {
                    capacity_entries
                },
            }),
    {
        let slots: Vec<Slot> = Vec::new();
        let res = ListingCache {
            slots,
            entries: 0,
            capacity_dirs: if capacity_dirs == 0 {
                1
            } else {
                capacity_dirs
            },
            capacity_entries: if capacity_entries == 0 {
                1
            } else {
                capacity_entries
            },
        };
        assert(res@.slots =~= Seq::empty());
        res
    }

    fn find(&self, dir: &[u8]) -> (res: usize)
        ensures
            res == slot_of(self@.slots, dir@, 0),
            res <= self.slots@.len(),
    {
        let mut i: usize = 0;
        while i < self.slots.len()
            invariant
                i <= self.slots@.len(),
                slot_of(self@.slots, dir@, 0) == slot_of(self@.slots, dir@, i as int),
            decreases self.slots.len() - i,
        {
            if crate::bytes::bytes_eq(self.slots[i].dir.as_slice(), dir) {
                return i;
            }
            i = i + 1;
        }
        i
    }

    /// A directory's listing, which becomes the most recently used.
    pub fn get(&mut self, dir: &BytePath) -> (res: Option<&Listing>)
        requires
            old(self).wf(),
        ensures
            final(self).wf(),
            final(self)@ == old(self)@.touched(dir@),
            res is Some <==> old(self)@.holds(dir@),
            res matches Some(l) ==> l.wf() && l@ == old(self)@.slots[slot_of(
                old(self)@.slots,
                dir@,
                0,
            )].listing,
    {
        let at = self.find(dir.as_bytes());
        if at >= self.slots.len() {
            return None;
        }
        let ghost s = self@;
        proof {
            lemma_held_remove(s.slots, at as int);
            lemma_held_push(s.slots.remove(at as int), s.slots[at as int]);
        }
        let ghost raw = self.slots@;
        let slot = self.slots.remove(at);
        self.slots.push(slot);
        proof {
            assert(self@.slots =~= s.slots.remove(at as int).push(s.slots[at as int]));
            assert forall|i: int| 0 <= i < self.slots@.len() implies (#[trigger] self.slots@[i]).listing.wf() by {
                if i < at {
                    assert(self.slots@[i] == raw[i]);
                } else if i < raw.len() - 1 {
                    assert(self.slots@[i] == raw[i + 1]);
                } else {
                    assert(self.slots@[i] == raw[at as int]);
                }
            }
        }
        let last = self.slots.len() - 1;
        Some(&self.slots[last].listing)
    }

    /// Keep a directory's listing.
    pub fn insert(&mut self, dir: &BytePath, listing: Listing)
        requires
            old(self).wf(),
            listing.wf(),
            held(old(self)@.slots) + listing@.len() <= usize::MAX,
        ensures
            final(self).wf(),
            final(self)@ == old(self)@.added(dir@, listing@),
    {
        let ghost s = self@;
        let at = self.find(dir.as_bytes());
        if at < self.slots.len() {
            proof {
                lemma_held_remove(s.slots, at as int);
            }
            let ghost raw = self.slots@;
            let slot = self.slots.remove(at);
            self.entries = self.entries - slot.listing.entries().len();
            proof {
                assert(self@.slots =~= s.slots.remove(at as int));
                assert forall|i: int| 0 <= i < self.slots@.len() implies (
                #[trigger] self.slots@[i]).listing.wf() by {
                    if i < at {
                        assert(self.slots@[i] == raw[i]);
                    } else {
                        assert(self.slots@[i] == raw[i + 1]);
                    }
                }
            }
        }
        assert(self@.slots == s.without(dir@));
        let added = listing.entries().len();
        let ghost before = self@.slots;
        let ghost raw = self.slots@;
        let ghost content = listing@;
        self.slots.push(Slot { dir: copy_bytes(dir.as_bytes()), listing });
        self.entries = self.entries + added;
        proof {
            let slot = SlotView { dir: dir@, listing: content };
            assert(self@.slots =~= before.push(slot));
            lemma_held_push(before, slot);
            assert forall|i: int| 0 <= i < self.slots@.len() implies (#[trigger] self.slots@[i]).listing.wf() by {
                if i < raw.len() {
                    assert(self.slots@[i] == raw[i]);
                }
            }
        }
        if self.slots.len() > self.capacity_dirs || self.entries > self.capacity_entries {
            self.trim();
        }
    }

    /// How many directories and entries are held.
    pub fn size(&self) -> (res: (usize, usize))
        requires
            self.wf(),
        ensures
            res.0 == self@.slots.len(),
            res.1 == held(self@.slots),
    {
        (self.slots.len(), self.entries)
    }

    /// Drop the coldest listings until both bounds have headroom again.
    fn trim(&mut self)
        requires
            old(self).wf(),
        ensures
            final(self).wf(),
            final(self)@ == (CacheView {
                slots: trimmed(
                    old(self)@.slots,
                    headroom(old(self)@.capacity_dirs),
                    headroom(old(self)@.capacity_entries),
                ),
                ..old(self)@
            }),
    {
        let target_dirs = nine_tenths(self.capacity_dirs);
        let target_entries = nine_tenths(self.capacity_entries);
        while self.slots.len() > 0 && (self.slots.len() > target_dirs || self.entries
            > target_entries)
            invariant
                self.wf(),
                target_dirs == headroom(self.capacity_dirs),
                target_entries == headroom(self.capacity_entries),
                self.capacity_dirs == old(self).capacity_dirs,
                self.capacity_entries == old(self).capacity_entries,
                trimmed(self@.slots, target_dirs as int, target_entries as int) == trimmed(
                    old(self)@.slots,
                    target_dirs as int,
                    target_entries as int,
                ),
            decreases self.slots.len(),
        {
            let ghost s = self@;
            let ghost raw = self.slots@;
            let slot = self.slots.remove(0);
            self.entries = self.entries - slot.listing.entries().len();
            proof {
                assert(self@.slots =~= s.slots.drop_first());
                assert forall|i: int| 0 <= i < self.slots@.len() implies (
                #[trigger] self.slots@[i]).listing.wf() by {
                    assert(self.slots@[i] == raw[i + 1]);
                }
            }
        }
    }
}

fn nine_tenths(capacity: usize) -> (res: usize)
    ensures
        res == headroom(capacity),
{
    let tens: usize = capacity / 10;
    let rest: usize = capacity % 10;
    assert(capacity * 9 / 10 == tens * 9 + rest * 9 / 10) by (nonlinear_arith)
        requires
            capacity == tens * 10 + rest,
            0 <= rest < 10,
    ;
    tens * 9 + rest * 9 / 10
}

/// Trimming keeps the most recently used: what is left is the end of what was.
pub proof fn law_the_coldest_go_first(slots: Seq<SlotView>, dirs: int, entries: int)
    requires
        dirs >= 0,
        entries >= 0,
    ensures
        ({
            let left = trimmed(slots, dirs, entries);
            &&& left.len() <= slots.len()
            &&& left == slots.skip(slots.len() - left.len())
            &&& left.len() <= dirs
            &&& held(left) <= entries
        }),
    decreases slots.len(),
{
    if slots.len() == 0 || (slots.len() <= dirs && held(slots) <= entries) {
        assert(slots.skip(0) =~= slots);
    } else {
        law_the_coldest_go_first(slots.drop_first(), dirs, entries);
        let left = trimmed(slots, dirs, entries);
        assert(slots.drop_first().skip(slots.drop_first().len() - left.len()) =~= slots.skip(
            slots.len() - left.len(),
        ));
    }
}

/// Both bounds hold after every listing that is added.
pub proof fn law_the_bounds_hold(s: CacheView, dir: Seq<u8>, listing: Seq<TreeEntryInfo>)
    requires
        s.capacity_dirs >= 1,
        s.capacity_entries >= 1,
    ensures
        s.added(dir, listing).slots.len() <= s.capacity_dirs,
        held(s.added(dir, listing).slots) <= s.capacity_entries,
{
    let slots = s.without(dir).push(SlotView { dir, listing });
    law_the_coldest_go_first(slots, headroom(s.capacity_dirs), headroom(s.capacity_entries));
}

/// A listing that was just asked for is the last to be dropped.
pub proof fn law_a_touched_listing_is_hottest(s: CacheView, dir: Seq<u8>)
    requires
        s.holds(dir),
    ensures
        s.touched(dir).slots.len() == s.slots.len(),
        s.touched(dir).slots.last().dir == dir,
{
    lemma_slot_of(s.slots, dir, 0);
}

/// One use of a cache of listings.
pub enum CacheUse {
    /// A directory's listing was asked for.
    Asked(Seq<u8>),
    /// A directory's listing was kept.
    Kept(Seq<u8>, Seq<TreeEntryInfo>),
}

/// The directory a use is about.
pub open spec fn used(u: CacheUse) -> Seq<u8> {
    match u {
        CacheUse::Asked(dir) => dir,
        CacheUse::Kept(dir, _) => dir,
    }
}

/// A cache after a row of uses, from an empty one.
pub open spec fn after_uses(dirs: usize, entries: usize, uses: Seq<CacheUse>) -> CacheView
    decreases uses.len(),
{
    if uses.len() == 0 {
        CacheView { slots: Seq::empty(), capacity_dirs: dirs, capacity_entries: entries }
    } else {
        let s = after_uses(dirs, entries, uses.drop_last());
        match uses.last() {
            CacheUse::Asked(dir) => s.touched(dir),
            CacheUse::Kept(dir, listing) => s.added(dir, listing),
        }
    }
}

/// When a directory was last used; before everything where it never was.
pub open spec fn last_use(uses: Seq<CacheUse>, dir: Seq<u8>) -> int
    decreases uses.len(),
{
    if uses.len() == 0 {
        -1
    } else if used(uses.last()) == dir {
        uses.len() - 1
    } else {
        last_use(uses.drop_last(), dir)
    }
}

/// The listing that was last kept of a directory.
pub open spec fn last_kept(uses: Seq<CacheUse>, dir: Seq<u8>) -> Option<Seq<TreeEntryInfo>>
    decreases uses.len(),
{
    if uses.len() == 0 {
        None
    } else {
        match uses.last() {
            CacheUse::Kept(d, listing) if d == dir => Some(listing),
            _ => last_kept(uses.drop_last(), dir),
        }
    }
}

/// The slots hold each directory's last listing, in the order of last use.
pub open spec fn in_use_order(slots: Seq<SlotView>, uses: Seq<CacheUse>) -> bool {
    &&& forall|i: int, j: int|
        0 <= i < j < slots.len() ==> last_use(uses, (#[trigger] slots[i]).dir) < last_use(
            uses,
            (#[trigger] slots[j]).dir,
        )
    &&& forall|i: int|
        0 <= i < slots.len() ==> last_kept(uses, (#[trigger] slots[i]).dir) == Some(
            slots[i].listing,
        )
}

proof fn lemma_last_use_bound(uses: Seq<CacheUse>, dir: Seq<u8>)
    ensures
        -1 <= last_use(uses, dir) < uses.len(),
    decreases uses.len(),
{
    if uses.len() > 0 {
        lemma_last_use_bound(uses.drop_last(), dir);
    }
}

proof fn lemma_suffix_in_order(slots: Seq<SlotView>, uses: Seq<CacheUse>, n: int)
    requires
        in_use_order(slots, uses),
        0 <= n <= slots.len(),
    ensures
        in_use_order(slots.skip(n), uses),
{
    let s = slots.skip(n);
    assert forall|i: int, j: int| 0 <= i < j < s.len() implies last_use(
        uses,
        (#[trigger] s[i]).dir,
    ) < last_use(uses, (#[trigger] s[j]).dir) by {
        assert(s[i] == slots[i + n] && s[j] == slots[j + n]);
    }
    assert forall|i: int| 0 <= i < s.len() implies last_kept(uses, (#[trigger] s[i]).dir) == Some(
        s[i].listing,
    ) by {
        assert(s[i] == slots[i + n]);
    }
}

/// Whatever a cache was asked and given: both bounds hold, no directory is held
/// twice, what is held of one is what was last kept of it, and the slots stand
/// in the order of last use.
pub proof fn law_a_cache_is_kept_in_the_order_of_use(
    dirs: usize,
    entries: usize,
    uses: Seq<CacheUse>,
)
    requires
        dirs >= 1,
        entries >= 1,
    ensures
        ({
            let s = after_uses(dirs, entries, uses);
            &&& s.capacity_dirs == dirs
            &&& s.capacity_entries == entries
            &&& s.slots.len() <= dirs
            &&& held(s.slots) <= entries
            &&& in_use_order(s.slots, uses)
        }),
    decreases uses.len(),
{
    if uses.len() > 0 {
        let front = uses.drop_last();
        let s = after_uses(dirs, entries, front);
        let x = used(uses.last());
        law_a_cache_is_kept_in_the_order_of_use(dirs, entries, front);
        lemma_slot_of(s.slots, x, 0);
        let at = slot_of(s.slots, x, 0);
        let kept = s.without(x);
        assert forall|i: int| 0 <= i < kept.len() implies (#[trigger] kept[i]).dir != x by {
            if at < s.slots.len() {
                let k = if i < at {
                    i
                } else {
                    i + 1
                };
                assert(kept[i] == s.slots[k]);
                if s.slots[k].dir == x {
                    assert(k > at);
                    assert(last_use(front, s.slots[at].dir) < last_use(front, s.slots[k].dir));
                }
            } else {
                assert(kept[i] == s.slots[i]);
            }
        }
        assert forall|i: int, j: int| 0 <= i < j < kept.len() implies last_use(
            uses,
            (#[trigger] kept[i]).dir,
        ) < last_use(uses, (#[trigger] kept[j]).dir) by {
            let (a, b) = if at < s.slots.len() {
                (
                    if i < at {
                        i
                    } else {
                        i + 1
                    },
                    if j < at {
                        j
                    } else {
                        j + 1
                    },
                )
            } else {
                (i, j)
            };
            assert(kept[i] == s.slots[a] && kept[j] == s.slots[b]);
        }
        assert forall|i: int| 0 <= i < kept.len() implies last_kept(uses, (#[trigger] kept[i]).dir)
            == Some(kept[i].listing) by {
            let a = if at < s.slots.len() && i >= at {
                i + 1
            } else {
                i
            };
            assert(kept[i] == s.slots[a]);
        }
        let slot = match uses.last() {
            CacheUse::Asked(_) => s.slots[at],
            CacheUse::Kept(dir, listing) => SlotView { dir, listing },
        };
        let pushed = kept.push(slot);
        if at < s.slots.len() || uses.last() is Kept {
            assert(slot.dir == x);
            assert(last_kept(uses, x) == Some(slot.listing));
            assert forall|i: int, j: int| 0 <= i < j < pushed.len() implies last_use(
                uses,
                (#[trigger] pushed[i]).dir,
            ) < last_use(uses, (#[trigger] pushed[j]).dir) by {
                assert(pushed[i] == kept[i]);
                if j < kept.len() {
                    assert(pushed[j] == kept[j]);
                } else {
                    lemma_last_use_bound(front, kept[i].dir);
                }
            }
            assert forall|i: int| 0 <= i < pushed.len() implies last_kept(
                uses,
                (#[trigger] pushed[i]).dir,
            ) == Some(pushed[i].listing) by {
                if i < kept.len() {
                    assert(pushed[i] == kept[i]);
                }
            }
            assert(in_use_order(pushed, uses));
        } else {
            assert(in_use_order(kept, uses));
        }
        match uses.last() {
            CacheUse::Asked(_) => {
                if at < s.slots.len() {
                    lemma_held_remove(s.slots, at);
                    lemma_held_push(kept, slot);
                }
            },
            CacheUse::Kept(dir, listing) => {
                law_the_bounds_hold(s, dir, listing);
                law_the_coldest_go_first(
                    pushed,
                    headroom(s.capacity_dirs),
                    headroom(s.capacity_entries),
                );
                let left = trimmed(
                    pushed,
                    headroom(s.capacity_dirs),
                    headroom(s.capacity_entries),
                );
                lemma_suffix_in_order(pushed, uses, pushed.len() - left.len());
            },
        }
    }
}

/// A listing that is dropped was last used before every listing that is kept.
pub proof fn law_what_is_dropped_was_used_longest_ago(
    dirs: usize,
    entries: usize,
    uses: Seq<CacheUse>,
    dropped: int,
    kept: int,
)
    requires
        dirs >= 1,
        entries >= 1,
        uses.len() > 0,
        0 <= dropped < after_uses(dirs, entries, uses.drop_last()).slots.len(),
        0 <= kept < after_uses(dirs, entries, uses).slots.len(),
        !after_uses(dirs, entries, uses).holds(
            after_uses(dirs, entries, uses.drop_last()).slots[dropped].dir,
        ),
    ensures
        last_use(uses, after_uses(dirs, entries, uses.drop_last()).slots[dropped].dir) < last_use(
            uses,
            after_uses(dirs, entries, uses).slots[kept].dir,
        ),
{
    let front = uses.drop_last();
    let s = after_uses(dirs, entries, front);
    let t = after_uses(dirs, entries, uses);
    let gone = s.slots[dropped].dir;
    let x = used(uses.last());
    law_a_cache_is_kept_in_the_order_of_use(dirs, entries, front);
    law_a_cache_is_kept_in_the_order_of_use(dirs, entries, uses);
    lemma_slot_of(s.slots, x, 0);
    lemma_slot_of(t.slots, gone, 0);
    let at = slot_of(s.slots, x, 0);
    match uses.last() {
        CacheUse::Asked(_) => {
            if at < s.slots.len() {
                let k = if dropped < at {
                    dropped
                } else if dropped > at {
                    dropped - 1
                } else {
                    t.slots.len() - 1
                };
                assert(t.slots[k].dir == gone);
            } else {
                assert(t.slots[dropped].dir == gone);
            }
            assert(false);
        },
        CacheUse::Kept(dir, listing) => {
            let rest = s.without(x);
            let pushed = rest.push(SlotView { dir, listing });
            law_the_coldest_go_first(
                pushed,
                headroom(s.capacity_dirs),
                headroom(s.capacity_entries),
            );
            let n = pushed.len() - t.slots.len();
            if !(pushed.len() > s.capacity_dirs || held(pushed) > s.capacity_entries) {
                assert(pushed.skip(0) =~= pushed);
            }
            assert(t.slots == pushed.skip(n));
            assert(t.slots[kept] == pushed[kept + n]);
            if gone == x {
                assert(t.slots.len() > 0);
                assert(t.slots[t.slots.len() - 1] == pushed[pushed.len() - 1]);
                assert(t.slots[t.slots.len() - 1].dir == gone);
                assert(false);
            } else {
                let k = if at < s.slots.len() && dropped > at {
                    dropped - 1
                } else {
                    dropped
                };
                assert(rest[k] == s.slots[dropped]);
                assert(pushed[k] == s.slots[dropped]);
                if k >= n {
                    assert(t.slots[k - n] == pushed[k]);
                    assert(false);
                }
                if kept + n < rest.len() {
                    let m = if at < s.slots.len() && kept + n >= at {
                        kept + n + 1
                    } else {
                        kept + n
                    };
                    assert(pushed[kept + n] == s.slots[m]);
                    assert(m > dropped);
                    assert(last_use(front, s.slots[dropped].dir) < last_use(front, s.slots[m].dir));
                    assert(last_use(uses, gone) == last_use(front, gone));
                    if t.slots[kept].dir == x {
                        lemma_last_use_bound(front, gone);
                    }
                } else {
                    lemma_last_use_bound(front, gone);
                }
            }
        },
    }
}

} // verus!
