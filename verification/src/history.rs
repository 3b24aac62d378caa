use vstd::prelude::*;

use crate::model::{item_key, HistoryKey, Item, KeyView};

verus! {

/// Format version of the persisted history document.
pub const VERSION: u8 = 1;

/// Most inactive records kept; records of visible items are exempt.
pub const MAX_ENTRIES: usize = 2_048;

/// Inactive records older than this (six months) are dropped.
pub const STALE_AFTER_SECS: u64 = 180 * 24 * 60 * 60;

/// How far in the future an imported timestamp may lie.
pub const MAX_FUTURE_SKEW_SECS: u64 = 24 * 60 * 60;

/// What the history remembers about one item.
#[derive(Debug, Clone, Copy, PartialEq, Eq, Structural)]
pub struct Entry {
    pub first_seen: u64,
    pub last_seen: u64,
    pub last_accessed: Option<u64>,
}

/// The record of an item seen for the first time at `now`.
pub open spec fn fresh_entry(now: u64) -> Entry {
    Entry { first_seen: now, last_seen: now, last_accessed: None }
}

/// The larger of two instants.
pub open spec fn max_u64(a: u64, b: u64) -> u64 {
    if a >= b { a } else { b }
}

/// The smaller of two instants.
pub open spec fn min_u64(a: u64, b: u64) -> u64 {
    if a <= b { a } else { b }
}

/// The later of two optional instants; an absent one loses.
pub open spec fn max_option(a: Option<u64>, b: Option<u64>) -> Option<u64> {
    match (a, b) {
        (Some(x), Some(y)) => Some(max_u64(x, y)),
        (Some(x), None) => Some(x),
        (None, y) => y,
    }
}

/// A record after its item was seen again at `now`.
pub open spec fn seen_entry(e: Entry, now: u64) -> Entry {
    Entry { last_seen: max_u64(e.last_seen, now), ..e }
}

/// A record after its item was confirmed at `now`.
pub open spec fn accessed_entry(e: Entry, now: u64) -> Entry {
    Entry {
        last_seen: max_u64(e.last_seen, now),
        last_accessed: Some(
            match e.last_accessed {
                Some(t) => max_u64(t, now),
                None => now,
            },
        ),
        ..e
    }
}

/// Two records of the same item combined: earliest first sighting,
/// latest sighting, latest confirmation.
pub open spec fn combine(a: Entry, b: Entry) -> Entry {
    Entry {
        first_seen: min_u64(a.first_seen, b.first_seen),
        last_seen: max_u64(a.last_seen, b.last_seen),
        last_accessed: max_option(a.last_accessed, b.last_accessed),
    }
}

/// The union of two histories, combining the records they share.
pub open spec fn join(a: Map<KeyView, Entry>, b: Map<KeyView, Entry>) -> Map<KeyView, Entry> {
    Map::new(
        |k: KeyView| a.dom().contains(k) || b.dom().contains(k),
        |k: KeyView|
            if a.dom().contains(k) && b.dom().contains(k) {
                combine(a[k], b[k])
            } else if a.dom().contains(k) {
                a[k]
            } else {
                b[k]
            },
    )
}

/// A history after the items whose keys are in `keys` were seen at `now`.
pub open spec fn observed(m: Map<KeyView, Entry>, keys: Set<KeyView>, now: u64) -> Map<
    KeyView,
    Entry,
> {
    Map::new(
        |k: KeyView| m.dom().contains(k) || keys.contains(k),
        |k: KeyView|
            if m.dom().contains(k) {
                if keys.contains(k) {
                    seen_entry(m[k], now)
                } else {
                    m[k]
                }
            } else {
                fresh_entry(now)
            },
    )
}

/// The keys of a list of items.
pub open spec fn keys_of_items(items: Seq<Item>) -> Set<KeyView> {
    Set::new(|k: KeyView| exists|i: int| 0 <= i < items.len() && item_key(items[i]@) == k)
}

/// The keys in a list of history keys.
pub open spec fn key_set(keys: Seq<HistoryKey>) -> Set<KeyView> {
    Set::new(|k: KeyView| exists|i: int| 0 <= i < keys.len() && keys[i]@ == k)
}


/// A record with every instant clamped to `ceiling`, and the later
/// instants kept no earlier than the first sighting.
pub open spec fn clamped_entry(e: Entry, ceiling: u64) -> Entry {
    let first = min_u64(e.first_seen, ceiling);
    Entry {
        first_seen: first,
        last_seen: max_u64(min_u64(e.last_seen, ceiling), first),
        last_accessed: match e.last_accessed {
            Some(t) => Some(max_u64(min_u64(t, ceiling), first)),
            None => None,
        },
    }
}

/// A history with every record clamped to `ceiling`.
pub open spec fn clamped(m: Map<KeyView, Entry>, ceiling: u64) -> Map<KeyView, Entry> {
    Map::new(|k: KeyView| m.dom().contains(k), |k: KeyView| clamped_entry(m[k], ceiling))
}

/// The latest instant a record mentions.
pub open spec fn entry_latest(e: Entry) -> u64 {
    max_u64(
        max_u64(e.first_seen, e.last_seen),
        match e.last_accessed {
            Some(t) => t,
            None => 0,
        },
    )
}

/// The instant beyond which imported timestamps are not trusted.
pub open spec fn import_ceiling(now: u64, trusted_high_water: u64) -> u64 {
    max_u64(
        if now as int + MAX_FUTURE_SKEW_SECS as int > u64::MAX as int {
            u64::MAX
        } else {
            (now + MAX_FUTURE_SKEW_SECS) as u64
        },
        trusted_high_water,
    )
}

/// The records that survive the staleness cut: visible ones and those
/// seen at or after `cutoff`.
pub open spec fn retained(m: Map<KeyView, Entry>, visible: Set<KeyView>, cutoff: u64) -> Map<
    KeyView,
    Entry,
> {
    Map::new(
        |k: KeyView| m.dom().contains(k) && (visible.contains(k) || m[k].last_seen >= cutoff),
        |k: KeyView| m[k],
    )
}

/// The oldest instant a record may have been seen at to survive pruning
/// at `now` when it is not visible.
pub open spec fn stale_cutoff(now: u64) -> u64 {
    if now >= STALE_AFTER_SECS {
        (now - STALE_AFTER_SECS) as u64
    } else {
        0
    }
}

/// How many records a pruned history keeps: all survivors of the
/// staleness cut when they fit, else the larger of the cap and the number
/// of visible survivors.
pub open spec fn pruned_len(m1: Map<KeyView, Entry>, visible: Set<KeyView>) -> nat {
    if m1.len() > MAX_ENTRIES {
        let v = m1.dom().filter(|k: KeyView| visible.contains(k)).len();
        if v > MAX_ENTRIES {
            v
        } else {
            MAX_ENTRIES as nat
        }
    } else {
        m1.len()
    }
}

/// What pruning at `now` with `visible` keys must produce from `m`.
pub open spec fn prune_result(
    m: Map<KeyView, Entry>,
    visible: Set<KeyView>,
    now: u64,
    r: Map<KeyView, Entry>,
) -> bool {
    let m1 = retained(m, visible, stale_cutoff(now));
    &&& r.dom().finite()
    &&& forall|k: KeyView| #[trigger] r.dom().contains(k) ==> m1.dom().contains(k) && r[k] == m1[k]
    &&& forall|k: KeyView| m1.dom().contains(k) && visible.contains(k) ==> #[trigger] r.dom().contains(k)
    &&& r.len() == pruned_len(m1, visible)
    &&& forall|gone: KeyView, kept: KeyView|
        #[trigger] m1.dom().contains(gone) && !r.dom().contains(gone) && #[trigger] r.dom().contains(
            kept,
        ) && !visible.contains(kept) ==> m1[gone].last_seen <= m1[kept].last_seen
}

/// A history built by folding in the given records one after another,
/// combining records that share a key.
pub open spec fn imported(entries: Seq<PersistedEntry>) -> Map<KeyView, Entry>
    decreases entries.len(),
{
    if entries.len() == 0 {
        Map::empty()
    } else {
        join(
            imported(entries.drop_last()),
            Map::empty().insert(entries.last().key@, entries.last().entry()),
        )
    }
}

/// Whether a record's later instants are no earlier than its first
/// sighting.
pub open spec fn ordered_entry(e: Entry) -> bool {
    &&& e.first_seen <= e.last_seen
    &&& match e.last_accessed {
        Some(t) => e.first_seen <= t,
        None => true,
    }
}

/// Whether `t` is the latest instant of history `m`, or zero when `m`
/// is empty.
pub open spec fn is_latest(m: Map<KeyView, Entry>, t: u64) -> bool {
    &&& forall|k: KeyView| #[trigger] m.dom().contains(k) ==> entry_latest(m[k]) <= t
    &&& t == 0 || exists|k: KeyView| #[trigger] m.dom().contains(k) && entry_latest(m[k]) == t
}

proof fn lemma_keys_of_items_step(items: Seq<Item>, i: int)
    requires
        0 <= i < items.len(),
    ensures
        keys_of_items(items.take(i + 1)) == keys_of_items(items.take(i)).insert(item_key(items[i]@)),
{
    let a = keys_of_items(items.take(i + 1));
    let b = keys_of_items(items.take(i)).insert(item_key(items[i]@));
    assert forall|k: KeyView| a.contains(k) <==> b.contains(k) by {
        if a.contains(k) {
            let j = choose|j: int| 0 <= j < i + 1 && item_key((#[trigger] items.take(i + 1)[j])@) == k;
            if j < i {
                assert(item_key(items.take(i)[j]@) == k);
            }
        }
        if b.contains(k) && k != item_key(items[i]@) {
            let j = choose|j: int| 0 <= j < i && item_key((#[trigger] items.take(i)[j])@) == k;
            assert(item_key(items.take(i + 1)[j]@) == k);
        }
        if k == item_key(items[i]@) {
            assert(item_key(items.take(i + 1)[i]@) == k);
        }
    }
    assert(a =~= b);
}

proof fn lemma_observed_step(m: Map<KeyView, Entry>, keys: Set<KeyView>, k: KeyView, now: u64)
    ensures
        observed(m, keys.insert(k), now) == observed(m, keys, now).insert(
            k,
            if observed(m, keys, now).dom().contains(k) {
                seen_entry(observed(m, keys, now)[k], now)
            } else {
                fresh_entry(now)
            },
        ),
{
    let a = observed(m, keys.insert(k), now);
    let b = observed(m, keys, now).insert(
        k,
        if observed(m, keys, now).dom().contains(k) {
            seen_entry(observed(m, keys, now)[k], now)
        } else {
            fresh_entry(now)
        },
    );
    assert(a.dom() =~= b.dom());
    assert forall|x: KeyView| a.dom().contains(x) implies a[x] == b[x] by {
        if x == k {
            if m.dom().contains(k) {
                if keys.contains(k) {
                    assert(seen_entry(seen_entry(m[k], now), now) == seen_entry(m[k], now));
                }
            }
        }
    }
    assert(a =~= b);
}

proof fn lemma_join_step(a: Map<KeyView, Entry>, b: Map<KeyView, Entry>, k: KeyView, e: Entry)
    requires
        !b.dom().contains(k),
    ensures
        join(a, b.insert(k, e)) == join(a, b).insert(
            k,
            if join(a, b).dom().contains(k) {
                combine(join(a, b)[k], e)
            } else {
                e
            },
        ),
{
    let l = join(a, b.insert(k, e));
    let r = join(a, b).insert(
        k,
        if join(a, b).dom().contains(k) {
            combine(join(a, b)[k], e)
        } else {
            e
        },
    );
    assert(l.dom() =~= r.dom());
    assert forall|x: KeyView| l.dom().contains(x) implies l[x] == r[x] by {}
    assert(l =~= r);
}


/// One record as written to disk.
#[derive(Debug, PartialEq, Eq)]
pub struct PersistedEntry {
    pub key: HistoryKey,
    pub first_seen: u64,
    pub last_seen: u64,
    pub last_accessed: Option<u64>,
}

impl PersistedEntry {
    /// The record this persisted entry holds.
    pub open spec fn entry(&self) -> Entry {
        Entry {
            first_seen: self.first_seen,
            last_seen: self.last_seen,
            last_accessed: self.last_accessed,
        }
    }
}

/// The persisted form of a history: format version, the latest instant
/// the store has handed out, and the records.
#[derive(Debug)]
pub struct Document {
    pub version: u8,
    pub high_water: u64,
    pub entries: Vec<PersistedEntry>,
}

/// Whether `key` is among `keys`.
pub fn contains_key(keys: &[HistoryKey], key: &HistoryKey) -> (r: bool)
    ensures
        r == key_set(keys@).contains(key@),
{
    let mut i: usize = 0;
    while i < keys.len()
        invariant
            i <= keys@.len(),
            forall|j: int| 0 <= j < i ==> keys@[j]@ != key@,
        decreases keys@.len() - i,
    {
        if keys[i].same(key) {
            proof {
                assert(keys@[i as int]@ == key@);
            }
            return true;
        }
        i = i + 1;
    }
    false
}

#[derive(Debug)]
struct Slot {
    key: HistoryKey,
    entry: Entry,
}

spec fn slots_map(s: Seq<Slot>) -> Map<KeyView, Entry>
    decreases s.len(),
{
    if s.len() == 0 {
        Map::empty()
    } else {
        slots_map(s.drop_last()).insert(s.last().key@, s.last().entry)
    }
}

spec fn distinct_keys(s: Seq<Slot>) -> bool {
    forall|i: int, j: int| 0 <= i < j < s.len() ==> s[i].key@ != s[j].key@
}

proof fn lemma_slots_map(s: Seq<Slot>)
    requires
        distinct_keys(s),
    ensures
        slots_map(s).dom().finite(),
        slots_map(s).len() == s.len(),
        forall|k: KeyView|
            slots_map(s).dom().contains(k) <==> exists|i: int| 0 <= i < s.len() && s[i].key@ == k,
        forall|i: int| 0 <= i < s.len() ==> slots_map(s)[#[trigger] s[i].key@] == s[i].entry,
    decreases s.len(),
{
    if s.len() > 0 {
        let t = s.drop_last();
        assert(distinct_keys(t));
        lemma_slots_map(t);
        let last = s.last().key@;
        assert(!slots_map(t).dom().contains(last)) by {
            if slots_map(t).dom().contains(last) {
                let i = choose|i: int| 0 <= i < t.len() && t[i].key@ == last;
                assert(s[i].key@ == s[s.len() - 1].key@);
            }
        }
        assert forall|k: KeyView|
            slots_map(s).dom().contains(k) implies exists|i: int| 0 <= i < s.len() && s[i].key@ == k by {
            if k != last {
                let i = choose|i: int| 0 <= i < t.len() && t[i].key@ == k;
                assert(s[i].key@ == k);
            } else {
                assert(s[s.len() - 1].key@ == k);
            }
        }
        assert forall|k: KeyView|
            (exists|i: int| 0 <= i < s.len() && s[i].key@ == k) implies slots_map(s).dom().contains(k) by {
            let i = choose|i: int| 0 <= i < s.len() && s[i].key@ == k;
            if i < s.len() - 1 {
                assert(t[i].key@ == k);
            }
        }
        assert forall|i: int| 0 <= i < s.len() implies slots_map(s)[#[trigger] s[i].key@] == s[i].entry by {
            if i < s.len() - 1 {
                assert(t[i] == s[i]);
                assert(s[i].key@ != last);
            }
        }
    }
}

/// When two slot lists name the same keys with the same records, their
/// maps are equal.
proof fn lemma_slots_map_ext(s: Seq<Slot>, m: Map<KeyView, Entry>)
    requires
        distinct_keys(s),
        forall|k: KeyView| m.dom().contains(k) <==> exists|i: int| 0 <= i < s.len() && s[i].key@ == k,
        forall|i: int| 0 <= i < s.len() ==> m[#[trigger] s[i].key@] == s[i].entry,
    ensures
        slots_map(s) == m,
{
    lemma_slots_map(s);
    assert forall|k: KeyView| #[trigger] slots_map(s).dom().contains(k) implies slots_map(s)[k] == m[k] by {
        let i = choose|i: int| 0 <= i < s.len() && s[i].key@ == k;
        assert(slots_map(s)[s[i].key@] == s[i].entry);
    }
    assert(slots_map(s) =~= m);
}

/// Visit history: when each item was first seen, last seen and last
/// confirmed, keyed by [`HistoryKey`].
#[derive(Debug)]
pub struct History {
    slots: Vec<Slot>,
}

impl View for History {
    type V = Map<KeyView, Entry>;

    closed spec fn view(&self) -> Map<KeyView, Entry> {
        slots_map(self.slots@)
    }
}

impl Clone for History {
    fn clone(&self) -> (r: Self)
        ensures
            r@ == self@,
    {
        proof {
            use_type_invariant(self);
        }
        let mut slots: Vec<Slot> = Vec::new();
        let mut i: usize = 0;
        while i < self.slots.len()
            invariant
                i <= self.slots@.len(),
                slots@.len() == i,
                forall|j: int|
                    0 <= j < i ==> #[trigger] slots@[j].key@ == self.slots@[j].key@
                        && slots@[j].entry == self.slots@[j].entry,
            decreases self.slots@.len() - i,
        {
            let slot = Slot { key: self.slots[i].key.duplicate(), entry: self.slots[i].entry };
            slots.push(slot);
            i = i + 1;
        }
        proof {
            lemma_slots_map(self.slots@);
            assert(distinct_keys(slots@)) by {
                assert forall|a: int, b: int| 0 <= a < b < slots@.len() implies slots@[a].key@
                    != slots@[b].key@ by {
                    assert(slots@[a].key@ == self.slots@[a].key@);
                    assert(slots@[b].key@ == self.slots@[b].key@);
                }
            }
            assert forall|k: KeyView|
                slots_map(self.slots@).dom().contains(k) <==> exists|j: int|
                    0 <= j < slots@.len() && slots@[j].key@ == k by {
                if exists|j: int| 0 <= j < slots@.len() && slots@[j].key@ == k {
                    let j = choose|j: int| 0 <= j < slots@.len() && slots@[j].key@ == k;
                    assert(self.slots@[j].key@ == k);
                }
                if slots_map(self.slots@).dom().contains(k) {
                    let j = choose|j: int| 0 <= j < self.slots@.len() && self.slots@[j].key@ == k;
                    assert(slots@[j].key@ == k);
                }
            }
            assert forall|j: int| 0 <= j < slots@.len() implies slots_map(self.slots@)[
                #[trigger] slots@[j].key@] == slots@[j].entry by {
                assert(slots@[j].key@ == self.slots@[j].key@);
            }
            lemma_slots_map_ext(slots@, slots_map(self.slots@));
        }
        History { slots }
    }
}

impl History {
    #[verifier::type_invariant]
    spec fn wf(&self) -> bool {
        distinct_keys(self.slots@)
    }

    /// An empty history.
    pub fn new() -> (r: History)
        ensures
            r@ == Map::<KeyView, Entry>::empty(),
    {
        let slots: Vec<Slot> = Vec::new();
        assert(distinct_keys(slots@));
        let r = History { slots };
        assert(slots_map(r.slots@) =~= Map::empty());
        r
    }

    /// Position of the record of `key`, if there is one.
    fn find(&self, key: &HistoryKey) -> (r: Option<usize>)
        ensures
            match r {
                Some(i) => i < self.slots@.len() && self.slots@[i as int].key@ == key@,
                None => !self@.dom().contains(key@),
            },
    {
        proof {
            use_type_invariant(self);
            lemma_slots_map(self.slots@);
        }
        let mut i: usize = 0;
        while i < self.slots.len()
            invariant
                i <= self.slots@.len(),
                forall|j: int| 0 <= j < i ==> self.slots@[j].key@ != key@,
            decreases self.slots@.len() - i,
        {
            if self.slots[i].key.same(key) {
                return Some(i);
            }
            i = i + 1;
        }
        None
    }

    /// Number of records.
    pub fn len(&self) -> (r: usize)
        ensures
            r == self@.len(),
    {
        proof {
            use_type_invariant(self);
            lemma_slots_map(self.slots@);
        }
        self.slots.len()
    }

    /// When `key` was first seen, or zero when it never was.
    pub fn first_seen(&self, key: &HistoryKey) -> (r: u64)
        ensures
            r == (if self@.dom().contains(key@) {
                self@[key@].first_seen
            } else {
                0
            }),
    {
        proof {
            use_type_invariant(self);
            lemma_slots_map(self.slots@);
        }
        match self.find(key) {
            Some(i) => self.slots[i].entry.first_seen,
            None => 0,
        }
    }

    /// When `key` was last confirmed, if ever.
    pub fn last_accessed(&self, key: &HistoryKey) -> (r: Option<u64>)
        ensures
            r == (if self@.dom().contains(key@) {
                self@[key@].last_accessed
            } else {
                None
            }),
    {
        proof {
            use_type_invariant(self);
            lemma_slots_map(self.slots@);
        }
        match self.find(key) {
            Some(i) => self.slots[i].entry.last_accessed,
            None => None,
        }
    }

    /// Replaces the record at position `i`, keeping its key.
    fn set_entry(&mut self, i: usize, entry: Entry)
        requires
            i < old(self).slots@.len(),
        ensures
            final(self)@ == old(self)@.insert(old(self).slots@[i as int].key@, entry),
            final(self).slots@.len() == old(self).slots@.len(),
            forall|j: int|
                0 <= j < final(self).slots@.len() ==> #[trigger] final(self).slots@[j].key@
                    == old(self).slots@[j].key@,
            forall|j: int|
                0 <= j < final(self).slots@.len() && j != i ==> #[trigger] final(self).slots@[j]
                    == old(self).slots@[j],
            final(self).slots@[i as int].entry == entry,
    {
        proof {
            use_type_invariant(&*self);
            lemma_slots_map(self.slots@);
        }
        let ghost before = self.slots@;
        let key = self.slots[i].key.duplicate();
        let mut slots: Vec<Slot> = Vec::new();
        std::mem::swap(&mut slots, &mut self.slots);
        slots.set(i, Slot { key, entry });
        proof {
            let s = slots@;
            assert(distinct_keys(s));
            let m = slots_map(before).insert(before[i as int].key@, entry);
            assert forall|k: KeyView|
                m.dom().contains(k) <==> exists|j: int| 0 <= j < s.len() && s[j].key@ == k by {
                if m.dom().contains(k) {
                    if k == before[i as int].key@ {
                        assert(s[i as int].key@ == k);
                    } else {
                        assert(slots_map(before).dom().contains(k));
                        let j = choose|j: int| 0 <= j < before.len() && before[j].key@ == k;
                        assert(s[j].key@ == k);
                    }
                }
                if exists|j: int| 0 <= j < s.len() && s[j].key@ == k {
                    let j = choose|j: int| 0 <= j < s.len() && s[j].key@ == k;
                    assert(before[j].key@ == k);
                    assert(slots_map(before).dom().contains(k));
                }
            }
            assert forall|j: int| 0 <= j < s.len() implies m[#[trigger] s[j].key@] == s[j].entry by {
                assert(before[j].key@ == s[j].key@);
            }
            lemma_slots_map_ext(s, m);
        }
        self.slots = slots;
    }

    /// Adds a record for a key that has none.
    fn push_entry(&mut self, key: HistoryKey, entry: Entry)
        requires
            !old(self)@.dom().contains(key@),
        ensures
            final(self)@ == old(self)@.insert(key@, entry),
    {
        proof {
            use_type_invariant(&*self);
            lemma_slots_map(self.slots@);
        }
        let ghost before = self.slots@;
        let mut slots: Vec<Slot> = Vec::new();
        std::mem::swap(&mut slots, &mut self.slots);
        slots.push(Slot { key, entry });
        proof {
            assert(slots@.drop_last() =~= before);
            assert forall|i: int, j: int| 0 <= i < j < slots@.len() implies slots@[i].key@
                != slots@[j].key@ by {
                if j == slots@.len() - 1 {
                    assert(before[i].key@ == slots@[i].key@);
                }
            }
        }
        self.slots = slots;
    }

    /// Records that `items` were seen at `now`: new items get a record,
    /// known ones have their last sighting moved forward (never back).
    /// Returns whether anything changed.
    pub fn observe(&mut self, items: &[Item], now: u64) -> (changed: bool)
        ensures
            final(self)@ == observed(old(self)@, keys_of_items(items@), now),
            changed == (final(self)@ != old(self)@),
    {
        let ghost start = self@;
        let mut changed = false;
        let mut i: usize = 0;
        proof {
            assert(keys_of_items(items@.take(0)) =~= Set::empty());
            assert(observed(start, Set::empty(), now) =~= start);
        }
        while i < items.len()
            invariant
                i <= items@.len(),
                self@ == observed(start, keys_of_items(items@.take(i as int)), now),
                changed == (self@ != start),
            decreases items@.len() - i,
        {
            let ghost before = self@;
            let key = items[i].history_key();
            proof {
                lemma_keys_of_items_step(items@, i as int);
                lemma_observed_step(start, keys_of_items(items@.take(i as int)), key@, now);
            }
            match self.find(&key) {
                Some(j) => {
                    proof {
                        use_type_invariant(&*self);
                        lemma_slots_map(self.slots@);
                    }
                    let e = self.slots[j].entry;
                    if e.last_seen < now {
                        let entry = Entry { last_seen: now, ..e };
                        self.set_entry(j, entry);
                        proof {
                            assert(self@[key@].last_seen == now);
                            if start.dom().contains(key@) {
                                assert(start[key@].last_seen <= e.last_seen);
                            }
                        }
                        changed = true;
                    } else {
                        proof {
                            assert(before.insert(key@, seen_entry(e, now)) =~= before);
                        }
                    }
                },
                None => {
                    self.push_entry(key, Entry { first_seen: now, last_seen: now, last_accessed: None });
                    proof {
                        assert(self@.dom().contains(key@));
                        assert(!start.dom().contains(key@));
                    }
                    changed = true;
                },
            }
            i = i + 1;
        }
        proof {
            assert(items@.take(items@.len() as int) =~= items@);
        }
        changed
    }

    /// Folds one record into this history, combining it with the record
    /// of the same key if there is one.
    pub fn absorb(&mut self, key: &HistoryKey, incoming: Entry)
        ensures
            final(self)@ == join(old(self)@, Map::empty().insert(key@, incoming)),
    {
        proof {
            lemma_join_step(self@, Map::empty(), key@, incoming);
            assert(join(self@, Map::empty()) =~= self@);
        }
        match self.find(key) {
            Some(j) => {
                proof {
                    use_type_invariant(&*self);
                    lemma_slots_map(self.slots@);
                }
                let e = self.slots[j].entry;
                let entry = Entry {
                    first_seen: if e.first_seen <= incoming.first_seen {
                        e.first_seen
                    } else {
                        incoming.first_seen
                    },
                    last_seen: if e.last_seen >= incoming.last_seen {
                        e.last_seen
                    } else {
                        incoming.last_seen
                    },
                    last_accessed: match (e.last_accessed, incoming.last_accessed) {
                        (Some(x), Some(y)) => Some(if x >= y { x } else { y }),
                        (Some(x), None) => Some(x),
                        (None, y) => y,
                    },
                };
                self.set_entry(j, entry);
            },
            None => {
                self.push_entry(key.duplicate(), incoming);
            },
        }
    }

    /// Folds `other` into this history: records of the same key combine
    /// (earliest first sighting, latest sighting, latest confirmation),
    /// others are copied.
    pub fn merge(&mut self, other: &History)
        ensures
            final(self)@ == join(old(self)@, other@),
    {
        proof {
            use_type_invariant(other);
        }
        let ghost start = self@;
        let mut i: usize = 0;
        proof {
            assert(other.slots@.take(0) =~= Seq::<Slot>::empty());
            assert(join(start, slots_map(Seq::<Slot>::empty())) =~= start);
        }
        while i < other.slots.len()
            invariant
                i <= other.slots@.len(),
                distinct_keys(other.slots@),
                self@ == join(start, slots_map(other.slots@.take(i as int))),
            decreases other.slots@.len() - i,
        {
            let ghost prefix = other.slots@.take(i as int);
            let ghost before = self@;
            let incoming = other.slots[i].entry;
            let key = &other.slots[i].key;
            proof {
                assert(other.slots@.take(i + 1).drop_last() =~= prefix);
                assert(distinct_keys(prefix));
                lemma_slots_map(prefix);
                assert(!slots_map(prefix).dom().contains(key@)) by {
                    if slots_map(prefix).dom().contains(key@) {
                        let j = choose|j: int| 0 <= j < prefix.len() && prefix[j].key@ == key@;
                        assert(other.slots@[j].key@ == other.slots@[i as int].key@);
                    }
                }
                lemma_join_step(start, slots_map(prefix), key@, incoming);
                lemma_join_step(before, Map::empty(), key@, incoming);
                assert(join(before, Map::empty()) =~= before);
            }
            self.absorb(key, incoming);
            i = i + 1;
        }
        proof {
            assert(other.slots@.take(other.slots@.len() as int) =~= other.slots@);
        }
    }

    /// Removes the record at position `i`.
    fn remove_at(&mut self, i: usize)
        requires
            i < old(self).slots@.len(),
        ensures
            final(self)@ == old(self)@.remove(old(self).slots@[i as int].key@),
            final(self).slots@ == old(self).slots@.remove(i as int),
    {
        proof {
            use_type_invariant(&*self);
            lemma_slots_map(self.slots@);
        }
        let ghost before = self.slots@;
        let mut slots: Vec<Slot> = Vec::new();
        std::mem::swap(&mut slots, &mut self.slots);
        slots.remove(i);
        proof {
            let s = slots@;
            let gone = before[i as int].key@;
            assert forall|a: int, b: int| 0 <= a < b < s.len() implies s[a].key@ != s[b].key@ by {
                let a0 = if a < i { a } else { a + 1 };
                let b0 = if b < i { b } else { b + 1 };
                assert(s[a] == before[a0]);
                assert(s[b] == before[b0]);
            }
            let m = slots_map(before).remove(gone);
            assert forall|k: KeyView|
                m.dom().contains(k) <==> exists|j: int| 0 <= j < s.len() && s[j].key@ == k by {
                if m.dom().contains(k) {
                    let j = choose|j: int| 0 <= j < before.len() && before[j].key@ == k;
                    assert(j != i);
                    if j < i {
                        assert(s[j].key@ == k);
                    } else {
                        assert(s[j - 1].key@ == k);
                    }
                }
                if exists|j: int| 0 <= j < s.len() && s[j].key@ == k {
                    let j = choose|j: int| 0 <= j < s.len() && s[j].key@ == k;
                    let j0 = if j < i { j } else { j + 1 };
                    assert(before[j0].key@ == k);
                    assert(slots_map(before).dom().contains(k));
                }
            }
            assert forall|j: int| 0 <= j < s.len() implies m[#[trigger] s[j].key@] == s[j].entry by {
                let j0 = if j < i { j } else { j + 1 };
                assert(s[j] == before[j0]);
            }
            lemma_slots_map_ext(s, m);
        }
        self.slots = slots;
    }

    /// Clamps every instant to `max(now + one day, trusted_high_water)`,
    /// so that a clock that ran ahead cannot pin records in the future,
    /// and keeps later instants no earlier than the first sighting.
    pub fn normalize_import(&mut self, now: u64, trusted_high_water: u64)
        ensures
            final(self)@ == clamped(old(self)@, import_ceiling(now, trusted_high_water)),
    {
        let ghost start = self.slots@;
        let skewed = now.saturating_add(MAX_FUTURE_SKEW_SECS);
        let ceiling = if skewed >= trusted_high_water { skewed } else { trusted_high_water };
        proof {
            use_type_invariant(&*self);
            lemma_slots_map(self.slots@);
        }
        let mut i: usize = 0;
        while i < self.slots.len()
            invariant
                i <= self.slots@.len(),
                self.slots@.len() == start.len(),
                ceiling == import_ceiling(now, trusted_high_water),
                forall|j: int| 0 <= j < start.len() ==> #[trigger] self.slots@[j].key@ == start[j].key@,
                forall|j: int|
                    0 <= j < i ==> #[trigger] self.slots@[j].entry == clamped_entry(
                        start[j].entry,
                        ceiling,
                    ),
                forall|j: int| i <= j < start.len() ==> #[trigger] self.slots@[j] == start[j],
            decreases start.len() - i,
        {
            let e = self.slots[i].entry;
            let first = if e.first_seen <= ceiling { e.first_seen } else { ceiling };
            let last = if e.last_seen <= ceiling { e.last_seen } else { ceiling };
            let entry = Entry {
                first_seen: first,
                last_seen: if last >= first { last } else { first },
                last_accessed: match e.last_accessed {
                    Some(t) => {
                        let t = if t <= ceiling { t } else { ceiling };
                        Some(if t >= first { t } else { first })
                    },
                    None => None,
                },
            };
            self.set_entry(i, entry);
            i = i + 1;
        }
        proof {
            use_type_invariant(&*self);
            lemma_slots_map(start);
            let s = self.slots@;
            let m = clamped(slots_map(start), ceiling);
            assert forall|k: KeyView|
                m.dom().contains(k) <==> exists|j: int| 0 <= j < s.len() && s[j].key@ == k by {
                if m.dom().contains(k) {
                    let j = choose|j: int| 0 <= j < start.len() && start[j].key@ == k;
                    assert(s[j].key@ == k);
                }
                if exists|j: int| 0 <= j < s.len() && s[j].key@ == k {
                    let j = choose|j: int| 0 <= j < s.len() && s[j].key@ == k;
                    assert(start[j].key@ == k);
                }
            }
            assert forall|j: int| 0 <= j < s.len() implies m[#[trigger] s[j].key@] == s[j].entry by {
                assert(s[j].key@ == start[j].key@);
                assert(slots_map(start)[start[j].key@] == start[j].entry);
            }
            lemma_slots_map_ext(s, m);
        }
    }

    /// The latest instant any record mentions, or zero for an empty
    /// history.
    pub fn max_timestamp(&self) -> (r: u64)
        ensures
            is_latest(self@, r),
    {
        proof {
            use_type_invariant(self);
            lemma_slots_map(self.slots@);
        }
        let mut maximum: u64 = 0;
        let mut i: usize = 0;
        while i < self.slots.len()
            invariant
                i <= self.slots@.len(),
                forall|j: int| 0 <= j < i ==> entry_latest(#[trigger] self.slots@[j].entry) <= maximum,
                maximum == 0 || exists|j: int|
                    0 <= j < i && entry_latest(#[trigger] self.slots@[j].entry) == maximum,
            decreases self.slots@.len() - i,
        {
            let e = self.slots[i].entry;
            let a = if e.first_seen >= e.last_seen { e.first_seen } else { e.last_seen };
            let b = match e.last_accessed {
                Some(t) => t,
                None => 0,
            };
            let latest = if a >= b { a } else { b };
            if latest > maximum {
                maximum = latest;
            }
            proof {
                assert(entry_latest(self.slots@[i as int].entry) == latest);
            }
            i = i + 1;
        }
        proof {
            assert forall|k: KeyView| #[trigger] self@.dom().contains(k) implies entry_latest(self@[k])
                <= maximum by {
                let j = choose|j: int| 0 <= j < self.slots@.len() && self.slots@[j].key@ == k;
                assert(self@[self.slots@[j].key@] == self.slots@[j].entry);
            }
            if maximum != 0 {
                let j = choose|j: int|
                    0 <= j < self.slots@.len() && entry_latest(#[trigger] self.slots@[j].entry) == maximum;
                let k = self.slots@[j].key@;
                assert(self@[k] == self.slots@[j].entry);
                assert(self@.dom().contains(k));
            }
        }
        maximum
    }

    /// Drops the records that are neither visible nor seen at or after
    /// `cutoff`.
    fn retain_recent(&mut self, visible: &[HistoryKey], cutoff: u64)
        ensures
            final(self)@ == retained(old(self)@, key_set(visible@), cutoff),
    {
        proof {
            use_type_invariant(&*self);
            lemma_slots_map(self.slots@);
        }
        let ghost start = self.slots@;
        let ghost vis = key_set(visible@);
        let mut kept: Vec<Slot> = Vec::new();
        let mut i: usize = 0;
        while i < self.slots.len()
            invariant
                i <= self.slots@.len(),
                self.slots@ == start,
                distinct_keys(start),
                vis == key_set(visible@),
                distinct_keys(kept@),
                forall|a: int|
                    0 <= a < kept@.len() ==> exists|j: int|
                        0 <= j < i && #[trigger] start[j].key@ == (#[trigger] kept@[a]).key@
                            && start[j].entry == kept@[a].entry,
                forall|a: int|
                    0 <= a < kept@.len() ==> (vis.contains(#[trigger] kept@[a].key@)
                        || kept@[a].entry.last_seen >= cutoff),
                forall|j: int|
                    0 <= j < i && (vis.contains(#[trigger] start[j].key@) || start[j].entry.last_seen
                        >= cutoff) ==> exists|a: int|
                        0 <= a < kept@.len() && #[trigger] kept@[a].key@ == start[j].key@,
            decreases start.len() - i,
        {
            let keep = contains_key(visible, &self.slots[i].key) || self.slots[i].entry.last_seen
                >= cutoff;
            if keep {
                let slot = Slot { key: self.slots[i].key.duplicate(), entry: self.slots[i].entry };
                let ghost before = kept@;
                kept.push(slot);
                proof {
                    assert forall|a: int, b: int| 0 <= a < b < kept@.len() implies kept@[a].key@
                        != kept@[b].key@ by {
                        if b == kept@.len() - 1 {
                            let j = choose|j: int|
                                0 <= j < i && #[trigger] start[j].key@ == (#[trigger] before[a]).key@
                                    && start[j].entry == before[a].entry;
                            assert(kept@[a] == before[a]);
                        } else {
                            assert(kept@[a] == before[a]);
                            assert(kept@[b] == before[b]);
                        }
                    }
                    assert forall|a: int| 0 <= a < kept@.len() implies exists|j: int|
                        0 <= j < i + 1 && #[trigger] start[j].key@ == (#[trigger] kept@[a]).key@
                            && start[j].entry == kept@[a].entry by {
                        if a < kept@.len() - 1 {
                            assert(kept@[a] == before[a]);
                            let j = choose|j: int|
                                0 <= j < i && #[trigger] start[j].key@ == (#[trigger] before[a]).key@
                                    && start[j].entry == before[a].entry;
                        } else {
                            assert(start[i as int].key@ == kept@[a].key@);
                        }
                    }
                    assert forall|j: int|
                        0 <= j < i + 1 && (vis.contains(#[trigger] start[j].key@)
                            || start[j].entry.last_seen >= cutoff) implies exists|a: int|
                        0 <= a < kept@.len() && #[trigger] kept@[a].key@ == start[j].key@ by {
                        if j < i {
                            let a = choose|a: int|
                                0 <= a < before.len() && #[trigger] before[a].key@ == start[j].key@;
                            assert(kept@[a] == before[a]);
                        } else {
                            assert(kept@[kept@.len() - 1].key@ == start[j].key@);
                        }
                    }
                    assert forall|a: int| 0 <= a < kept@.len() implies (vis.contains(
                        #[trigger] kept@[a].key@,
                    ) || kept@[a].entry.last_seen >= cutoff) by {
                        if a < kept@.len() - 1 {
                            assert(kept@[a] == before[a]);
                        }
                    }
                }
            }
            i = i + 1;
        }
        proof {
            let m = retained(slots_map(start), vis, cutoff);
            let s = kept@;
            assert forall|k: KeyView|
                m.dom().contains(k) <==> exists|a: int| 0 <= a < s.len() && s[a].key@ == k by {
                if m.dom().contains(k) {
                    let j = choose|j: int| 0 <= j < start.len() && start[j].key@ == k;
                    assert(slots_map(start)[start[j].key@] == start[j].entry);
                    let a = choose|a: int| 0 <= a < s.len() && #[trigger] s[a].key@ == start[j].key@;
                }
                if exists|a: int| 0 <= a < s.len() && s[a].key@ == k {
                    let a = choose|a: int| 0 <= a < s.len() && s[a].key@ == k;
                    let j = choose|j: int|
                        0 <= j < start.len() && #[trigger] start[j].key@ == (#[trigger] s[a]).key@
                            && start[j].entry == s[a].entry;
                    assert(slots_map(start)[start[j].key@] == start[j].entry);
                    assert(slots_map(start).dom().contains(k));
                }
            }
            assert forall|a: int| 0 <= a < s.len() implies m[#[trigger] s[a].key@] == s[a].entry by {
                let j = choose|j: int|
                    0 <= j < start.len() && #[trigger] start[j].key@ == (#[trigger] s[a]).key@
                        && start[j].entry == s[a].entry;
                assert(slots_map(start)[start[j].key@] == start[j].entry);
            }
            lemma_slots_map_ext(s, m);
        }
        self.slots = kept;
    }

    /// Position of a record whose key is not visible and whose last
    /// sighting is no later than that of any other such record.
    fn oldest_removable(&self, visible: &[HistoryKey]) -> (r: Option<usize>)
        ensures
            match r {
                Some(i) => {
                    &&& i < self.slots@.len()
                    &&& !key_set(visible@).contains(self.slots@[i as int].key@)
                    &&& forall|k: KeyView|
                        #[trigger] self@.dom().contains(k) && !key_set(visible@).contains(k)
                            ==> self@[self.slots@[i as int].key@].last_seen <= self@[k].last_seen
                },
                None => forall|k: KeyView| #[trigger]
                    self@.dom().contains(k) ==> key_set(visible@).contains(k),
            },
    {
        proof {
            use_type_invariant(self);
            lemma_slots_map(self.slots@);
        }
        let mut best: Option<usize> = None;
        let mut i: usize = 0;
        while i < self.slots.len()
            invariant
                i <= self.slots@.len(),
                match best {
                    Some(b) => {
                        &&& b < i
                        &&& !key_set(visible@).contains(self.slots@[b as int].key@)
                        &&& forall|j: int|
                            0 <= j < i && !key_set(visible@).contains(#[trigger] self.slots@[j].key@)
                                ==> self.slots@[b as int].entry.last_seen
                                <= self.slots@[j].entry.last_seen
                    },
                    None => forall|j: int|
                        0 <= j < i ==> key_set(visible@).contains(#[trigger] self.slots@[j].key@),
                },
            decreases self.slots@.len() - i,
        {
            if !contains_key(visible, &self.slots[i].key) {
                match best {
                    Some(b) => {
                        if self.slots[i].entry.last_seen < self.slots[b].entry.last_seen {
                            best = Some(i);
                        }
                    },
                    None => {
                        best = Some(i);
                    },
                }
            }
            i = i + 1;
        }
        proof {
            match best {
                Some(b) => {
                    assert forall|k: KeyView|
                        #[trigger] self@.dom().contains(k) && !key_set(visible@).contains(k)
                            implies self@[self.slots@[b as int].key@].last_seen
                        <= self@[k].last_seen by {
                        let j = choose|j: int| 0 <= j < self.slots@.len() && self.slots@[j].key@ == k;
                        assert(self@[self.slots@[j].key@] == self.slots@[j].entry);
                        assert(self@[self.slots@[b as int].key@] == self.slots@[b as int].entry);
                    }
                },
                None => {
                    assert forall|k: KeyView| #[trigger]
                        self@.dom().contains(k) implies key_set(visible@).contains(k) by {
                        let j = choose|j: int| 0 <= j < self.slots@.len() && self.slots@[j].key@ == k;
                    }
                },
            }
        }
        best
    }

    /// Drops records that are neither visible nor seen within the last six
    /// months; if more than [`MAX_ENTRIES`] remain, drops the least
    /// recently seen invisible ones until the cap is met or only visible
    /// records are left. Returns whether any record was dropped.
    pub fn prune(&mut self, visible: &[HistoryKey], now: u64) -> (changed: bool)
        ensures
            prune_result(old(self)@, key_set(visible@), now, final(self)@),
            changed == (final(self)@.len() != old(self)@.len()),
    {
        let original_len = self.len();
        let cutoff = now.saturating_sub(STALE_AFTER_SECS);
        let ghost vis = key_set(visible@);
        self.retain_recent(visible, cutoff);
        let ghost m1 = self@;
        proof {
            use_type_invariant(&*self);
            lemma_slots_map(self.slots@);
        }
        let total = self.slots.len();
        if total > MAX_ENTRIES {
            let excess = total - MAX_ENTRIES;
            let mut removed: usize = 0;
            let mut more = true;
            while more && removed < excess
                invariant
                    vis == key_set(visible@),
                    m1.dom().finite(),
                    m1.len() == total,
                    excess == total - MAX_ENTRIES,
                    removed <= excess,
                    self@.dom().finite(),
                    self@.len() + removed == total,
                    forall|k: KeyView| #[trigger]
                        self@.dom().contains(k) ==> m1.dom().contains(k) && self@[k] == m1[k],
                    forall|k: KeyView|
                        m1.dom().contains(k) && vis.contains(k) ==> #[trigger] self@.dom().contains(k),
                    !more ==> forall|k: KeyView| #[trigger] self@.dom().contains(k) ==> vis.contains(k),
                    forall|gone: KeyView, kept: KeyView|
                        #[trigger] m1.dom().contains(gone) && !self@.dom().contains(gone)
                            && #[trigger] self@.dom().contains(kept) && !vis.contains(kept)
                            ==> m1[gone].last_seen <= m1[kept].last_seen,
                decreases excess - removed + (if more { 1int } else { 0int }),
            {
                match self.oldest_removable(visible) {
                    Some(i) => {
                        let ghost before = self@;
                        proof {
                            use_type_invariant(&*self);
                            lemma_slots_map(self.slots@);
                        }
                        let ghost victim = self.slots@[i as int].key@;
                        self.remove_at(i);
                        proof {
                            use_type_invariant(&*self);
                            lemma_slots_map(self.slots@);
                            assert(before.dom().contains(victim));
                            assert forall|gone: KeyView, kept: KeyView|
                                #[trigger] m1.dom().contains(gone) && !self@.dom().contains(gone)
                                    && #[trigger] self@.dom().contains(kept) && !vis.contains(kept)
                                    implies m1[gone].last_seen <= m1[kept].last_seen by {
                                assert(before.dom().contains(kept));
                                if gone != victim {
                                    assert(!before.dom().contains(gone));
                                }
                            }
                        }
                        removed = removed + 1;
                    },
                    None => {
                        more = false;
                    },
                }
            }
            proof {
                let v = m1.dom().filter(|k: KeyView| vis.contains(k));
                assert(v.subset_of(self@.dom()));
                vstd::set_lib::lemma_len_subset(v, self@.dom());
                if !more {
                    assert(v =~= self@.dom());
                }
            }
        } else {
            proof {
                assert(self@ == m1);
            }
        }
        self.len() != original_len
    }

    /// Records that `key` was confirmed at `now`.
    pub fn access(&mut self, key: &HistoryKey, now: u64)
        ensures
            final(self)@ == old(self)@.insert(
                key@,
                accessed_entry(
                    if old(self)@.dom().contains(key@) {
                        old(self)@[key@]
                    } else {
                        fresh_entry(now)
                    },
                    now,
                ),
            ),
    {
        proof {
            use_type_invariant(&*self);
            lemma_slots_map(self.slots@);
        }
        match self.find(key) {
            Some(i) => {
                let e = self.slots[i].entry;
                let entry = Entry {
                    first_seen: e.first_seen,
                    last_seen: if e.last_seen >= now { e.last_seen } else { now },
                    last_accessed: Some(
                        match e.last_accessed {
                            Some(t) => if t >= now { t } else { now },
                            None => now,
                        },
                    ),
                };
                self.set_entry(i, entry);
            },
            None => {
                let entry = Entry { first_seen: now, last_seen: now, last_accessed: Some(now) };
                self.push_entry(key.duplicate(), entry);
            },
        }
    }
}


impl Default for History {
    fn default() -> (r: Self)
        ensures
            r@ == Map::<KeyView, Entry>::empty(),
    {
        History::new()
    }
}

impl Document {
    /// The document that persists `history` with the given high-water
    /// mark.
    pub fn from_history(history: &History, high_water: u64) -> (r: Document)
        ensures
            r.version == VERSION,
            r.high_water == high_water,
            imported(r.entries@) == history@,
    {
        proof {
            use_type_invariant(history);
        }
        let mut entries: Vec<PersistedEntry> = Vec::new();
        let mut i: usize = 0;
        proof {
            assert(history.slots@.take(0) =~= Seq::<Slot>::empty());
            assert(imported(entries@) =~= slots_map(Seq::<Slot>::empty()));
        }
        while i < history.slots.len()
            invariant
                i <= history.slots@.len(),
                distinct_keys(history.slots@),
                entries@.len() == i,
                imported(entries@) == slots_map(history.slots@.take(i as int)),
            decreases history.slots@.len() - i,
        {
            let slot = &history.slots[i];
            let ghost prefix = history.slots@.take(i as int);
            let ghost before = entries@;
            entries.push(
                PersistedEntry {
                    key: slot.key.duplicate(),
                    first_seen: slot.entry.first_seen,
                    last_seen: slot.entry.last_seen,
                    last_accessed: slot.entry.last_accessed,
                },
            );
            proof {
                assert(entries@.drop_last() =~= before);
                assert(history.slots@.take(i + 1).drop_last() =~= prefix);
                lemma_slots_map(prefix);
                assert(!slots_map(prefix).dom().contains(slot.key@)) by {
                    if slots_map(prefix).dom().contains(slot.key@) {
                        let j = choose|j: int| 0 <= j < prefix.len() && prefix[j].key@ == slot.key@;
                        assert(history.slots@[j].key@ == history.slots@[i as int].key@);
                    }
                }
                lemma_join_step(imported(before), Map::empty(), slot.key@, slot.entry);
                assert(join(imported(before), Map::empty()) =~= imported(before));
                assert(entries@.last().entry() == slot.entry);
            }
            i = i + 1;
        }
        proof {
            assert(history.slots@.take(history.slots@.len() as int) =~= history.slots@);
        }
        Document { version: VERSION, high_water, entries }
    }

    /// The history this document holds, read at `now`: `None` for another
    /// format version; otherwise the records folded together, clamped to
    /// `max(now + one day, high_water)`, with the logical time
    /// `max(high_water, latest instant)`.
    pub fn into_history(self, now: u64) -> (r: Option<(History, u64)>)
        ensures
            r is None <==> self.version != VERSION,
            r matches Some((h, t)) ==> {
                &&& h@ == clamped(imported(self.entries@), import_ceiling(now, self.high_water))
                &&& t >= self.high_water
                &&& forall|k: KeyView| #[trigger] h@.dom().contains(k) ==> entry_latest(h@[k]) <= t
                &&& t == self.high_water || exists|k: KeyView|
                    #[trigger] h@.dom().contains(k) && entry_latest(h@[k]) == t
            },
    {
        if self.version != VERSION {
            return None;
        }
        let mut history = History::new();
        let mut i: usize = 0;
        proof {
            assert(self.entries@.take(0) =~= Seq::<PersistedEntry>::empty());
        }
        while i < self.entries.len()
            invariant
                i <= self.entries@.len(),
                history@ == imported(self.entries@.take(i as int)),
            decreases self.entries@.len() - i,
        {
            let e = &self.entries[i];
            history.absorb(
                &e.key,
                Entry { first_seen: e.first_seen, last_seen: e.last_seen, last_accessed: e.last_accessed },
            );
            proof {
                assert(self.entries@.take(i + 1).drop_last() =~= self.entries@.take(i as int));
            }
            i = i + 1;
        }
        proof {
            assert(self.entries@.take(self.entries@.len() as int) =~= self.entries@);
        }
        history.normalize_import(now, self.high_water);
        let latest = history.max_timestamp();
        let logical_time = if self.high_water >= latest { self.high_water } else { latest };
        proof {
            if logical_time != self.high_water {
                let k = choose|k: KeyView|
                    #[trigger] history@.dom().contains(k) && entry_latest(history@[k]) == latest;
                assert(history@.dom().contains(k) && entry_latest(history@[k]) == logical_time);
            }
        }
        Some((history, logical_time))
    }
}

/// What a save writes: the stored history with `history` merged in and
/// pruned at `now`, and the logical time
/// `max(stored_time, now, latest instant)`.
pub fn prepare_save(
    stored: History,
    stored_time: u64,
    history: &History,
    visible: &[HistoryKey],
    now: u64,
) -> (r: (History, u64))
    ensures
        prune_result(join(stored@, history@), key_set(visible@), now, r.0@),
        r.1 >= stored_time,
        r.1 >= now,
        forall|k: KeyView| #[trigger] r.0@.dom().contains(k) ==> entry_latest(r.0@[k]) <= r.1,
        r.1 == stored_time || r.1 == now || exists|k: KeyView|
            #[trigger] r.0@.dom().contains(k) && entry_latest(r.0@[k]) == r.1,
{
    let mut merged = stored;
    merged.merge(history);
    merged.prune(visible, now);
    let base = if stored_time >= now { stored_time } else { now };
    let latest = merged.max_timestamp();
    let logical_time = if base >= latest { base } else { latest };
    let r = (merged, logical_time);
    proof {
        if logical_time != stored_time && logical_time != now {
            let k = choose|k: KeyView|
                #[trigger] r.0@.dom().contains(k) && entry_latest(r.0@[k]) == latest;
            assert(r.0@.dom().contains(k) && entry_latest(r.0@[k]) == r.1);
        }
    }
    r
}

impl History {
    /// Whether two histories hold the same records.
    pub fn same_records(&self, other: &History) -> (r: bool)
        ensures
            r == (self@ == other@),
    {
        proof {
            use_type_invariant(self);
            use_type_invariant(other);
            lemma_slots_map(self.slots@);
            lemma_slots_map(other.slots@);
        }
        if self.slots.len() != other.slots.len() {
            return false;
        }
        let mut i: usize = 0;
        while i < self.slots.len()
            invariant
                i <= self.slots@.len(),
                self.slots@.len() == other.slots@.len(),
                distinct_keys(self.slots@),
                distinct_keys(other.slots@),
                forall|j: int|
                    0 <= j < i ==> #[trigger] other@.dom().contains(self.slots@[j].key@)
                        && other@[self.slots@[j].key@] == self.slots@[j].entry,
            decreases self.slots@.len() - i,
        {
            proof {
                lemma_slots_map(self.slots@);
                lemma_slots_map(other.slots@);
            }
            match other.find(&self.slots[i].key) {
                Some(j) => {
                    if other.slots[j].entry != self.slots[i].entry {
                        proof {
                            assert(self@[self.slots@[i as int].key@] == self.slots@[i as int].entry);
                            assert(other@[other.slots@[j as int].key@] == other.slots@[j as int].entry);
                        }
                        return false;
                    }
                    proof {
                        assert(other@[other.slots@[j as int].key@] == other.slots@[j as int].entry);
                        assert(other.slots@[j as int].entry == self.slots@[i as int].entry);
                        assert(other.slots@[j as int].key@ == self.slots@[i as int].key@);
                        assert(other@.dom().contains(self.slots@[i as int].key@));
                        assert(other@[self.slots@[i as int].key@] == self.slots@[i as int].entry);
                        assert forall|k: int| 0 <= k < i + 1 implies #[trigger] other@.dom().contains(
                            self.slots@[k].key@,
                        ) && other@[self.slots@[k].key@] == self.slots@[k].entry by {
                            if k == i {
                                assert(self.slots@[k] == self.slots@[i as int]);
                            }
                        }
                    }
                },
                None => {
                    proof {
                        assert(self@.dom().contains(self.slots@[i as int].key@));
                    }
                    return false;
                },
            }
            i = i + 1;
        }
        proof {
            assert(self@.dom().subset_of(other@.dom())) by {
                assert forall|k: KeyView| self@.dom().contains(k) implies other@.dom().contains(k) by {
                    let j = choose|j: int| 0 <= j < self.slots@.len() && self.slots@[j].key@ == k;
                    assert(other@.dom().contains(self.slots@[j].key@));
                }
            }
            vstd::set_lib::lemma_subset_equality(self@.dom(), other@.dom());
            assert forall|k: KeyView| #[trigger] self@.dom().contains(k) implies self@[k] == other@[k] by {
                let j = choose|j: int| 0 <= j < self.slots@.len() && self.slots@[j].key@ == k;
                assert(self@[self.slots@[j].key@] == self.slots@[j].entry);
                assert(other@[self.slots@[j].key@] == self.slots@[j].entry);
            }
            assert(self@ =~= other@);
        }
        true
    }
}

impl PartialEq for History {
    fn eq(&self, other: &Self) -> (r: bool) {
        self.same_records(other)
    }
}

impl vstd::std_specs::cmp::PartialEqSpecImpl for History {
    open spec fn obeys_eq_spec() -> bool {
        true
    }

    open spec fn eq_spec(&self, other: &Self) -> bool {
        self@ == other@
    }
}

impl Eq for History {

}

/// What loading a store yields: the history, a warning for the user when
/// something had to be discarded, and the latest instant the store has
/// handed out.
#[derive(Debug)]
pub struct LoadOutcome {
    pub history: History,
    pub warning: Option<String>,
    pub logical_time: u64,
}

/// What saving to a store yields: the history as saved (merged with what
/// was stored and pruned) and a warning for the user, if any.
#[derive(Debug)]
pub struct SaveOutcome {
    pub history: History,
    pub warning: Option<String>,
}

/// Where the history persists between runs.
pub trait Store {
    /// Reads the history.
    fn load(&self) -> Result<LoadOutcome, String>;

    /// Writes `history`, merged with what is stored and pruned at `now`
    /// with `visible` items kept.
    fn save(&self, history: &History, visible: &[HistoryKey], now: u64) -> Result<SaveOutcome, String>;
}

/// Pruning keeps only records that survive the staleness cut, and all of
/// them when they fit under the cap; pruning the pruned history again at
/// the same time with the same visible items changes nothing.
pub proof fn lemma_prune_law(
    m: Map<KeyView, Entry>,
    visible: Set<KeyView>,
    now: u64,
    r: Map<KeyView, Entry>,
    r2: Map<KeyView, Entry>,
)
    requires
        m.dom().finite(),
        prune_result(m, visible, now, r),
        prune_result(r, visible, now, r2),
    ensures
        r.dom().subset_of(retained(m, visible, stale_cutoff(now)).dom()),
        forall|k: KeyView|
            #[trigger] retained(m, visible, stale_cutoff(now)).dom().contains(k) && !r.dom().contains(
                k,
            ) ==> !visible.contains(k),
        retained(m, visible, stale_cutoff(now)).len() <= MAX_ENTRIES ==> r == retained(
            m,
            visible,
            stale_cutoff(now),
        ),
        r2 == r,
{
    let c = stale_cutoff(now);
    let m1 = retained(m, visible, c);
    vstd::set_lib::lemma_len_subset(m1.dom(), m.dom());
    assert(r.dom().subset_of(m1.dom()));
    if m1.len() <= MAX_ENTRIES {
        vstd::set_lib::lemma_subset_equality(r.dom(), m1.dom());
        assert(r =~= m1);
    }
    let m2 = retained(r, visible, c);
    assert(m2 =~= r) by {
        assert forall|k: KeyView| r.dom().contains(k) implies #[trigger] m2.dom().contains(k) by {
            assert(m1.dom().contains(k));
        }
    }
    assert(r2.dom().subset_of(r.dom()));
    let vis = |k: KeyView| visible.contains(k);
    if r.len() <= MAX_ENTRIES {
        assert(pruned_len(m2, visible) == r.len());
    } else {
        let v = m1.dom().filter(vis);
        vstd::set_lib::lemma_len_subset(v, m1.dom());
        assert(m1.len() > MAX_ENTRIES);
        assert(r.len() == v.len());
        assert(v.subset_of(r.dom()));
        vstd::set_lib::lemma_subset_equality(v, r.dom());
        assert(r.dom().filter(vis) =~= r.dom());
        assert(pruned_len(m2, visible) == r.len());
    }
    vstd::set_lib::lemma_subset_equality(r2.dom(), r.dom());
    assert(r2 =~= r);
}

proof fn lemma_slots_map_finite(s: Seq<Slot>)
    ensures
        slots_map(s).dom().finite(),
    decreases s.len(),
{
    if s.len() > 0 {
        lemma_slots_map_finite(s.drop_last());
    }
}

/// A history holds finitely many records.
pub proof fn lemma_records_finite(h: History)
    ensures
        h@.dom().finite(),
{
    lemma_slots_map_finite(h.slots@);
}

/// Joining histories does not depend on their order.
pub proof fn lemma_join_commutative(a: Map<KeyView, Entry>, b: Map<KeyView, Entry>)
    ensures
        join(a, b) == join(b, a),
{
    assert(join(a, b) =~= join(b, a));
}

/// Joining histories does not depend on how they are grouped.
pub proof fn lemma_join_associative(
    a: Map<KeyView, Entry>,
    b: Map<KeyView, Entry>,
    c: Map<KeyView, Entry>,
)
    ensures
        join(join(a, b), c) == join(a, join(b, c)),
{
    assert(join(join(a, b), c) =~= join(a, join(b, c)));
}

/// Joining a history with itself changes nothing.
pub proof fn lemma_join_idempotent(a: Map<KeyView, Entry>)
    ensures
        join(a, a) == a,
{
    assert(join(a, a) =~= a);
}

/// A join loses nothing: every record of either side survives, with a
/// first sighting no later, a last sighting no earlier, and a
/// confirmation no earlier than before.
pub proof fn lemma_join_keeps_records(a: Map<KeyView, Entry>, b: Map<KeyView, Entry>, k: KeyView)
    requires
        a.dom().contains(k),
    ensures
        join(a, b).dom().contains(k),
        join(b, a).dom().contains(k),
        join(a, b)[k].first_seen <= a[k].first_seen,
        join(a, b)[k].last_seen >= a[k].last_seen,
        a[k].last_accessed matches Some(t) ==> join(a, b)[k].last_accessed matches Some(u) && u >= t,
        join(a, b) == join(b, a),
{
    lemma_join_commutative(a, b);
}

/// Seeing or confirming an item never moves its first sighting, and
/// never moves its last sighting or confirmation back, whatever the
/// clock says.
pub proof fn lemma_updates_are_monotonic(e: Entry, now: u64)
    ensures
        seen_entry(e, now).first_seen == e.first_seen,
        seen_entry(e, now).last_seen >= e.last_seen,
        seen_entry(e, now).last_accessed == e.last_accessed,
        accessed_entry(e, now).first_seen == e.first_seen,
        accessed_entry(e, now).last_seen >= e.last_seen,
        accessed_entry(e, now).last_accessed matches Some(u) && u >= now,
        e.last_accessed matches Some(t) ==> accessed_entry(e, now).last_accessed matches Some(u)
            && u >= t,
{
}

/// A history whose records are ordered and no later than `high_water`
/// reads back unchanged: clamping on import leaves it alone.
pub proof fn lemma_reload_is_identity(m: Map<KeyView, Entry>, now: u64, high_water: u64)
    requires
        forall|k: KeyView| #[trigger] m.dom().contains(k) ==> ordered_entry(m[k]) && entry_latest(m[k])
            <= high_water,
    ensures
        clamped(m, import_ceiling(now, high_water)) == m,
{
    let c = import_ceiling(now, high_water);
    assert forall|k: KeyView| #[trigger] m.dom().contains(k) implies clamped_entry(m[k], c) == m[k] by {
        let e = m[k];
        assert(e.first_seen <= c && e.last_seen <= c);
        match e.last_accessed {
            Some(t) => {
                assert(t <= c);
            },
            None => {},
        }
    }
    assert(clamped(m, c) =~= m);
}

/// A save never erases a confirmation made in the history being saved
/// when its item is still visible: the confirmation survives, no earlier
/// than it was.
pub proof fn lemma_save_keeps_visible_confirmations(
    stored: Map<KeyView, Entry>,
    history: Map<KeyView, Entry>,
    visible: Set<KeyView>,
    now: u64,
    saved: Map<KeyView, Entry>,
    k: KeyView,
)
    requires
        prune_result(join(stored, history), visible, now, saved),
        history.dom().contains(k),
        visible.contains(k),
    ensures
        saved.dom().contains(k),
        saved[k].first_seen <= history[k].first_seen,
        history[k].last_accessed matches Some(t) ==> saved[k].last_accessed matches Some(u) && u >= t,
{
    lemma_join_keeps_records(history, stored, k);
    let m1 = retained(join(stored, history), visible, stale_cutoff(now));
    assert(m1.dom().contains(k));
    assert(saved.dom().contains(k));
    assert(saved[k] == m1[k]);
    assert(m1[k] == join(history, stored)[k]);
}

} // verus!
