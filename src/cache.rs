//! A cache from keys to stored records with per-key exclusive slots and
//! expiry after a fixed time to live.
//!
//! The cache itself never waits: `try_lock` either hands out the slot of a key
//! or reports that another holder has it, and the caller waits for a release
//! before it asks again. Different keys never keep each other waiting.

use vstd::prelude::*;
use crate::bytes::{bytes_eq, copy_range};

verus! {

/// A key to look up, borrowed from the caller.
pub struct Key<'a>(pub &'a [u8]);

/// A record to store, borrowed from the caller.
pub struct Value<'a>(pub &'a [u8]);

/// What the cache knows of one key: whether a holder has its slot, the record
/// stored under it, if any, and when that record was stored.
pub struct Entry {
    pub held: bool,
    pub record: Option<Seq<u8>>,
    pub stamp: u64,
}

/// Whether the record of `e` was stored before time `c`.
pub open spec fn stored_before(e: Entry, c: int) -> bool {
    e.record is Some && (e.stamp as int) < c
}

/// The entries of `m` after dropping the record of each key that `p` picks: a
/// held slot stays without its record, a free one goes.
pub open spec fn evict_where(m: Map<Seq<u8>, Entry>, p: spec_fn(Seq<u8>) -> bool) -> Map<Seq<u8>, Entry> {
    Map::new(
        |k: Seq<u8>| m.contains_key(k) && !(p(k) && m[k].record is Some && !m[k].held),
        |k: Seq<u8>|
            if p(k) && m[k].record is Some {
                Entry { record: None, ..m[k] }
            } else {
                m[k]
            },
    )
}

/// The entries of `m` once every record stored before `threshold` is gone.
pub open spec fn after_eviction(m: Map<Seq<u8>, Entry>, threshold: int) -> Map<Seq<u8>, Entry> {
    evict_where(m, |k: Seq<u8>| stored_before(m[k], threshold))
}

/// `m` without the record of `k`: a held slot stays empty, a free one goes.
pub open spec fn drop_record(m: Map<Seq<u8>, Entry>, k: Seq<u8>) -> Map<Seq<u8>, Entry> {
    if m[k].held {
        m.insert(k, Entry { record: None, ..m[k] })
    } else {
        m.remove(k)
    }
}

/// What `try_lock` finds for `k` in the entries `m`, eviction done: `None` when
/// another holder has the slot, else the record stored under `k`, if any.
pub open spec fn lock_result(m: Map<Seq<u8>, Entry>, k: Seq<u8>) -> Option<Option<Seq<u8>>> {
    if m.contains_key(k) && m[k].held {
        None
    } else if m.contains_key(k) {
        Some(m[k].record)
    } else {
        Some(None)
    }
}

/// The entries once `try_lock` has taken the slot of `k` at time `now`.
pub open spec fn after_lock(m: Map<Seq<u8>, Entry>, k: Seq<u8>, now: u64) -> Map<Seq<u8>, Entry> {
    if m.contains_key(k) && m[k].held {
        m
    } else if m.contains_key(k) {
        m.insert(k, Entry { held: true, ..m[k] })
    } else {
        m.insert(k, Entry { held: true, record: None, stamp: now })
    }
}

/// The entries once the holder of `k` has stored `v` at time `now`.
pub open spec fn after_store(m: Map<Seq<u8>, Entry>, k: Seq<u8>, v: Seq<u8>, now: u64) -> Map<
    Seq<u8>,
    Entry,
> {
    m.insert(k, Entry { held: true, record: Some(v), stamp: now })
}

/// The entries once the holder of `k` has released its slot.
pub open spec fn after_release(m: Map<Seq<u8>, Entry>, k: Seq<u8>) -> Map<Seq<u8>, Entry> {
    if m[k].record is Some {
        m.insert(k, Entry { held: false, ..m[k] })
    } else {
        m.remove(k)
    }
}

/// The time index agrees with the entries `m`: a key is listed under time `t`
/// exactly when a record is stored under it with store time `t` (so each
/// stored record is listed once, under its own store time, and no key without
/// a record is listed), and every listed time has a key.
pub open spec fn index_matches(idx: Map<u64, Set<Seq<u8>>>, m: Map<Seq<u8>, Entry>) -> bool {
    &&& forall|t: u64, k: Seq<u8>|
        idx.contains_key(t) && #[trigger] idx[t].contains(k) ==> m.contains_key(k) && m[k].record is Some
            && m[k].stamp == t
    &&& forall|k: Seq<u8>|
        #[trigger] m.contains_key(k) && m[k].record is Some ==> idx.contains_key(m[k].stamp) && idx[m[k].stamp].contains(k)
    &&& forall|t: u64| #[trigger] idx.contains_key(t) ==> idx[t] != Set::<Seq<u8>>::empty()
}

/// The time before which records have expired at time `now`.
pub open spec fn expiry_threshold(now: u64, keep: u64) -> int {
    now as int - keep as int
}

struct Slot {
    key: Vec<u8>,
    held: bool,
    record: Option<Vec<u8>>,
    stamp: u64,
}

spec fn slot_entry(s: Slot) -> Entry {
    Entry {
        held: s.held,
        record: match s.record {
            Some(r) => Some(r@),
            None => None,
        },
        stamp: s.stamp,
    }
}

/// The exclusive hold on one key's slot. It is given back to the cache with
/// `release`.
pub struct Guard {
    key: Vec<u8>,
    record: Option<Vec<u8>>,
}

impl Guard {
    pub closed spec fn key_view(&self) -> Seq<u8> {
        self.key@
    }

    pub closed spec fn record_view(&self) -> Option<Seq<u8>> {
        match self.record {
            Some(r) => Some(r@),
            None => None,
        }
    }

    /// The key this guard holds.
    pub fn key(&self) -> (r: &[u8])
        ensures
            r@ == self.key_view(),
    {
        self.key.as_slice()
    }

    /// The record stored under the key, as of when the guard was taken or last stored into.
    pub fn peek(&self) -> (r: Option<&[u8]>)
        ensures
            r matches Some(b) ==> self.record_view() == Some(b@),
            r is None <==> self.record_view() is None,
    {
        match &self.record {
            Some(v) => Some(v.as_slice()),
            None => None,
        }
    }
}

/// The bucket of the slot table that a key belongs to: its first two bytes.
/// Cache keys are digests, so this spreads them evenly.
pub open spec fn bucket_of(k: Seq<u8>) -> u64 {
    if k.len() >= 2 {
        (k[0] as int * 256 + k[1] as int) as u64
    } else if k.len() == 1 {
        k[0] as u64
    } else {
        0
    }
}

fn bucket_id(k: &[u8]) -> (r: u64)
    ensures
        r == bucket_of(k@),
{
    if k.len() >= 2 {
        k[0] as u64 * 256 + k[1] as u64
    } else if k.len() == 1 {
        k[0] as u64
    } else {
        0
    }
}

spec fn has_slot(slots: Map<u64, Vec<Slot>>, b: u64, i: int) -> bool {
    slots.contains_key(b) && 0 <= i < slots[b]@.len()
}

spec fn slot_at(slots: Map<u64, Vec<Slot>>, b: u64, i: int) -> Slot {
    slots[b]@[i]
}

/// The in-memory cache. Its slots sit in buckets keyed by `bucket_of`.
/// Besides the slots it keeps an index from store time to the keys stored at
/// that time, in increasing time order, so that eviction visits the expired
/// records only.
pub struct MemCache {
    slots: std::collections::HashMap<u64, Vec<Slot>>,
    put_times: std::collections::VecDeque<(u64, Vec<Vec<u8>>)>,
    keep_duration: u64,
    entries: Ghost<Map<Seq<u8>, Entry>>,
}

impl MemCache {
    /// The time index: each store time that has keys, with the keys stored then.
    pub closed spec fn index_view(&self) -> Map<u64, Set<Seq<u8>>> {
        Map::new(
            |t: u64| exists|k: Seq<u8>| self.indexed(k, t),
            |t: u64| Set::new(|k: Seq<u8>| self.indexed(k, t)),
        )
    }

    /// The entries by key.
    pub closed spec fn view(&self) -> Map<Seq<u8>, Entry> {
        self.entries@
    }

    /// How long a record is kept, in milliseconds.
    pub closed spec fn keep(&self) -> u64 {
        self.keep_duration
    }

    spec fn slots_wf(&self) -> bool {
        &&& forall|b: u64, i: int| #[trigger] has_slot(self.slots@, b, i) ==> bucket_of(slot_at(self.slots@, b, i).key@) == b
        &&& forall|b: u64, i: int, j: int|
            has_slot(self.slots@, b, i) && has_slot(self.slots@, b, j) && i != j ==> (#[trigger] slot_at(self.slots@, b, i)).key@ != (
            #[trigger] slot_at(self.slots@, b, j)).key@
        &&& forall|b: u64, i: int|
            #[trigger] has_slot(self.slots@, b, i) ==> self.entries@.contains_key(slot_at(self.slots@, b, i).key@)
                && self.entries@[slot_at(self.slots@, b, i).key@] == slot_entry(slot_at(self.slots@, b, i))
        &&& forall|k: Seq<u8>|
            #[trigger] self.entries@.contains_key(k) ==> exists|i: int|
                has_slot(self.slots@, bucket_of(k), i) && slot_at(self.slots@, bucket_of(k), i).key@ == k
        &&& forall|k: Seq<u8>|
            #[trigger] self.entries@.contains_key(k) ==> self.entries@[k].held || self.entries@[k].record is Some
    }

    spec fn index_sorted(&self) -> bool {
        forall|a: int, b: int|
            0 <= a < b < self.put_times@.len() ==> (#[trigger] self.put_times@[a]).0 < (#[trigger] self.put_times@[b]).0
    }

    /// A stored record with store time `t` is in the index under `t`.
    spec fn indexed(&self, k: Seq<u8>, t: u64) -> bool {
        exists|a: int, j: int|
            0 <= a < self.put_times@.len() && 0 <= j < self.put_times@[a].1@.len()
                && self.put_times@[a].0 == t && (#[trigger] self.put_times@[a].1@[j])@ == k
    }

    spec fn index_sound(&self) -> bool {
        forall|k: Seq<u8>, t: u64|
            #[trigger] self.indexed(k, t) ==> self.entries@.contains_key(k) && self.entries@[k].record is Some
                && self.entries@[k].stamp == t
    }

    /// No bucket lists a key twice.
    spec fn index_distinct(&self) -> bool {
        forall|a: int, i: int, j: int|
            0 <= a < self.put_times@.len() && 0 <= i < j < self.put_times@[a].1@.len() ==> (
            #[trigger] self.put_times@[a].1@[i])@ != (#[trigger] self.put_times@[a].1@[j])@
    }

    spec fn index_complete(&self) -> bool {
        forall|k: Seq<u8>|
            #[trigger] self.entries@.contains_key(k) && self.entries@[k].record is Some ==> self.indexed(
                k,
                self.entries@[k].stamp,
            )
    }

    /// The cache is well formed: one slot per key, a free slot always holds a
    /// record, and the time index, in increasing time order, lists each stored
    /// record once, under its store time, and nothing else.
    pub closed spec fn wf(&self) -> bool {
        &&& self.slots_wf()
        &&& self.index_sorted()
        &&& self.index_sound()
        &&& self.index_complete()
        &&& self.index_distinct()
        &&& index_matches(self.index_view(), self@)
    }

    /// What `wf` says of the time index, over the public views.
    pub proof fn lemma_index_matches(&self)
        requires
            self.wf(),
        ensures
            index_matches(self.index_view(), self@),
    {
    }

    proof fn lemma_index_view(&self)
        requires
            self.index_sound(),
            self.index_complete(),
        ensures
            index_matches(self.index_view(), self@),
    {
        let idx = self.index_view();
        assert forall|t: u64, k: Seq<u8>| idx.contains_key(t) && #[trigger] idx[t].contains(k) implies self@.contains_key(k)
            && self@[k].record is Some && self@[k].stamp == t by {
            assert(self.indexed(k, t));
        }
        assert forall|k: Seq<u8>| #[trigger] self@.contains_key(k) && self@[k].record is Some implies idx.contains_key(
            self@[k].stamp,
        ) && idx[self@[k].stamp].contains(k) by {
            assert(self.indexed(k, self@[k].stamp));
        }
        assert forall|t: u64| #[trigger] idx.contains_key(t) implies idx[t] != Set::<Seq<u8>>::empty() by {
            let k = choose|k: Seq<u8>| self.indexed(k, t);
            assert(idx[t].contains(k));
        }
    }

    /// An empty cache that keeps records for `keep_duration` milliseconds.
    pub fn new(keep_duration: u64) -> (r: Self)
        ensures
            r.wf(),
            r@ == Map::<Seq<u8>, Entry>::empty(),
            r.index_view() == Map::<u64, Set<Seq<u8>>>::empty(),
            r.keep() == keep_duration,
    {
        let r = MemCache {
            slots: std::collections::HashMap::new(),
            put_times: std::collections::VecDeque::new(),
            keep_duration,
            entries: Ghost(Map::empty()),
        };
        assert(r.index_view() =~= Map::<u64, Set<Seq<u8>>>::empty());
        proof {
            r.lemma_index_view();
        }
        r
    }

    /// How long a record is kept, in milliseconds.
    pub fn keep_duration(&self) -> (r: u64)
        ensures
            r == self.keep(),
    {
        self.keep_duration
    }

    fn find_slot(&self, key: &[u8]) -> (r: Option<usize>)
        requires
            self.slots_wf(),
        ensures
            r matches Some(i) ==> has_slot(self.slots@, bucket_of(key@), i as int) && slot_at(self.slots@, bucket_of(key@), i as int).key@
                == key@,
            r is None ==> !self@.contains_key(key@),
    {
        broadcast use vstd::std_specs::hash::group_hash_axioms;
        let b = bucket_id(key);
        let bucket = match self.slots.get(&b) {
            Some(v) => v,
            None => {
                proof {
                    if self.entries@.contains_key(key@) {
                        let j = choose|j: int| has_slot(self.slots@, bucket_of(key@), j) && slot_at(self.slots@, bucket_of(key@), j).key@ == key@;
                    }
                }
                return None;
            },
        };
        let mut i: usize = 0;
        while i < bucket.len()
            invariant
                self.slots@.contains_key(b),
                *bucket == self.slots@[b],
                b == bucket_of(key@),
                i <= bucket@.len(),
                forall|j: int| 0 <= j < i ==> (#[trigger] bucket@[j]).key@ != key@,
            decreases bucket@.len() - i,
        {
            if bytes_eq(bucket[i].key.as_slice(), key) {
                return Some(i);
            }
            i = i + 1;
        }
        proof {
            if self.entries@.contains_key(key@) {
                let j = choose|j: int| has_slot(self.slots@, bucket_of(key@), j) && slot_at(self.slots@, bucket_of(key@), j).key@ == key@;
                assert(bucket@[j].key@ != key@);
            }
        }
        None
    }

    fn slot_ref(&self, b: u64, i: usize) -> (r: &Slot)
        requires
            has_slot(self.slots@, b, i as int),
        ensures
            *r == slot_at(self.slots@, b, i as int),
    {
        broadcast use vstd::std_specs::hash::group_hash_axioms;
        &self.slots.get(&b).unwrap()[i]
    }

    /// Tells whether a holder has the slot of `key`.
    pub fn is_held(&self, key: Key) -> (r: bool)
        requires
            self.wf(),
        ensures
            r == (self@.contains_key(key.0@) && self@[key.0@].held),
    {
        match self.find_slot(key.0) {
            Some(i) => self.slot_ref(bucket_id(key.0), i).held,
            None => false,
        }
    }

    fn put_slot(&mut self, b: u64, i: usize, slot: Slot)
        requires
            old(self).slots_wf(),
            has_slot(old(self).slots@, b, i as int),
            slot.key@ == slot_at(old(self).slots@, b, i as int).key@,
            slot.held || slot.record is Some,
        ensures
            final(self).slots_wf(),
            final(self).entries@ == old(self).entries@.insert(slot.key@, slot_entry(slot)),
            final(self).put_times == old(self).put_times,
            final(self).keep_duration == old(self).keep_duration,
    {
        broadcast use vstd::std_specs::hash::group_hash_axioms;
        let ghost k = slot.key@;
        let ghost e = slot_entry(slot);
        let ghost before = *self;
        let mut v = self.slots.remove(&b).unwrap();
        let ghost old_v = v@;
        v.set(i, slot);
        self.slots.insert(b, v);
        self.entries = Ghost(self.entries@.insert(k, e));
        assert(self.slots@ == before.slots@.insert(b, v));
        assert forall|c: u64, j: int| #[trigger] has_slot(self.slots@, c, j) == has_slot(before.slots@, c, j) by {}
        assert forall|c: u64, j: int| has_slot(self.slots@, c, j) implies #[trigger] slot_at(self.slots@, c, j) == if c == b && j == i {
            slot
        } else {
            slot_at(before.slots@, c, j)
        } by {}
        assert forall|c: u64, j: int| #[trigger] has_slot(self.slots@, c, j) implies bucket_of(slot_at(self.slots@, c, j).key@) == c by {
            assert(has_slot(before.slots@, c, j));
            if c == b && j == i {
                assert(has_slot(before.slots@, b, i as int));
            }
        }
        assert forall|c: u64, j: int, j2: int|
            has_slot(self.slots@, c, j) && has_slot(self.slots@, c, j2) && j != j2 implies (#[trigger] slot_at(self.slots@, c, j)).key@ != (
            #[trigger] slot_at(self.slots@, c, j2)).key@ by {
            assert(has_slot(before.slots@, c, j) && has_slot(before.slots@, c, j2));
            assert(slot_at(before.slots@, c, j).key@ != slot_at(before.slots@, c, j2).key@);
        }
        assert forall|c: u64, j: int| #[trigger] has_slot(self.slots@, c, j) implies self.entries@.contains_key(slot_at(self.slots@, c, j).key@)
            && self.entries@[slot_at(self.slots@, c, j).key@] == slot_entry(slot_at(self.slots@, c, j)) by {
            assert(has_slot(before.slots@, c, j));
            if !(c == b && j == i) {
                assert(has_slot(before.slots@, b, i as int));
                if c == b {
                    assert(slot_at(before.slots@, c, j).key@ != slot_at(before.slots@, b, i as int).key@);
                } else {
                    assert(bucket_of(slot_at(before.slots@, c, j).key@) == c);
                    assert(bucket_of(slot_at(before.slots@, b, i as int).key@) == b);
                }
            }
        }
        assert forall|q: Seq<u8>| #[trigger] self.entries@.contains_key(q) implies exists|j: int|
            has_slot(self.slots@, bucket_of(q), j) && slot_at(self.slots@, bucket_of(q), j).key@ == q by {
            if q != k {
                let j = choose|j: int| has_slot(before.slots@, bucket_of(q), j) && slot_at(before.slots@, bucket_of(q), j).key@ == q;
                assert(has_slot(self.slots@, bucket_of(q), j));
                if bucket_of(q) == b && j == i {
                    assert(false);
                }
                assert(slot_at(self.slots@, bucket_of(q), j).key@ == q);
            } else {
                assert(has_slot(before.slots@, b, i as int));
                assert(has_slot(self.slots@, b, i as int));
                assert(slot_at(self.slots@, b, i as int).key@ == q);
            }
        }
    }

    fn drop_slot(&mut self, b: u64, i: usize)
        requires
            old(self).slots_wf(),
            has_slot(old(self).slots@, b, i as int),
        ensures
            final(self).slots_wf(),
            final(self).entries@ == old(self).entries@.remove(slot_at(old(self).slots@, b, i as int).key@),
            final(self).put_times == old(self).put_times,
            final(self).keep_duration == old(self).keep_duration,
    {
        broadcast use vstd::std_specs::hash::group_hash_axioms;
        let ghost before = *self;
        let ghost k = slot_at(self.slots@, b, i as int).key@;
        let mut v = self.slots.remove(&b).unwrap();
        let ghost old_v = v@;
        let ghost n = old_v.len();
        let _gone = v.swap_remove(i);
        let ghost new_v = v@;
        self.slots.insert(b, v);
        self.entries = Ghost(self.entries@.remove(k));
        assert(self.slots@ == before.slots@.insert(b, v));
        assert(new_v == old_v.update(i as int, old_v[n - 1]).drop_last());
        // Where each slot of the new table was before.
        assert forall|c: u64, j: int| #[trigger] has_slot(self.slots@, c, j) implies has_slot(before.slots@, c, if c == b && j == i {
            n - 1
        } else {
            j
        }) && slot_at(self.slots@, c, j) == slot_at(before.slots@, c, if c == b && j == i {
            n - 1
        } else {
            j
        }) by {}
        assert(has_slot(before.slots@, b, i as int));
        assert forall|c: u64, j: int| #[trigger] has_slot(self.slots@, c, j) implies bucket_of(slot_at(self.slots@, c, j).key@) == c by {
            let oj = if c == b && j == i { n - 1 } else { j };
            assert(has_slot(before.slots@, c, oj));
        }
        assert forall|c: u64, j: int, j2: int|
            has_slot(self.slots@, c, j) && has_slot(self.slots@, c, j2) && j != j2 implies (#[trigger] slot_at(self.slots@, c, j)).key@ != (
            #[trigger] slot_at(self.slots@, c, j2)).key@ by {
            let oj = if c == b && j == i { n - 1 } else { j };
            let oj2 = if c == b && j2 == i { n - 1 } else { j2 };
            assert(has_slot(before.slots@, c, oj) && has_slot(before.slots@, c, oj2));
            assert(slot_at(before.slots@, c, oj).key@ != slot_at(before.slots@, c, oj2).key@);
        }
        assert forall|c: u64, j: int| #[trigger] has_slot(self.slots@, c, j) implies slot_at(self.slots@, c, j).key@ != k by {
            let oj = if c == b && j == i { n - 1 } else { j };
            assert(has_slot(before.slots@, c, oj));
            if c == b {
                assert(oj != i);
                assert(slot_at(before.slots@, c, oj).key@ != slot_at(before.slots@, b, i as int).key@);
            } else {
                assert(bucket_of(slot_at(before.slots@, c, oj).key@) == c);
            }
        }
        assert forall|c: u64, j: int| #[trigger] has_slot(self.slots@, c, j) implies self.entries@.contains_key(slot_at(self.slots@, c, j).key@)
            && self.entries@[slot_at(self.slots@, c, j).key@] == slot_entry(slot_at(self.slots@, c, j)) by {
            let oj = if c == b && j == i { n - 1 } else { j };
            assert(has_slot(before.slots@, c, oj));
            assert(slot_at(self.slots@, c, j).key@ != k);
        }
        assert forall|q: Seq<u8>| #[trigger] self.entries@.contains_key(q) implies exists|j: int|
            has_slot(self.slots@, bucket_of(q), j) && slot_at(self.slots@, bucket_of(q), j).key@ == q by {
            let j = choose|j: int| has_slot(before.slots@, bucket_of(q), j) && slot_at(before.slots@, bucket_of(q), j).key@ == q;
            if bucket_of(q) == b {
                if j == n - 1 {
                    assert(j != i);
                    assert(has_slot(self.slots@, b, i as int));
                    assert(slot_at(self.slots@, b, i as int).key@ == q);
                } else {
                    assert(j != i);
                    assert(has_slot(self.slots@, b, j));
                    assert(slot_at(self.slots@, b, j).key@ == q);
                }
            } else {
                assert(has_slot(self.slots@, bucket_of(q), j));
                assert(slot_at(self.slots@, bucket_of(q), j).key@ == q);
            }
        }
    }

    fn add_slot(&mut self, slot: Slot)
        requires
            old(self).slots_wf(),
            !old(self).entries@.contains_key(slot.key@),
            slot.held || slot.record is Some,
        ensures
            final(self).slots_wf(),
            final(self).entries@ == old(self).entries@.insert(slot.key@, slot_entry(slot)),
            final(self).put_times == old(self).put_times,
            final(self).keep_duration == old(self).keep_duration,
    {
        broadcast use vstd::std_specs::hash::group_hash_axioms;
        let ghost before = *self;
        let ghost k = slot.key@;
        let ghost e = slot_entry(slot);
        let b = bucket_id(slot.key.as_slice());
        let mut v = match self.slots.remove(&b) {
            Some(v) => v,
            None => Vec::new(),
        };
        let ghost old_v = v@;
        assert(before.slots@.contains_key(b) ==> old_v == before.slots@[b]@);
        assert(!before.slots@.contains_key(b) ==> old_v.len() == 0);
        let ghost n = old_v.len();
        v.push(slot);
        self.slots.insert(b, v);
        self.entries = Ghost(self.entries@.insert(k, e));
        assert(self.slots@ == before.slots@.insert(b, v));
        assert forall|c: u64, j: int| #[trigger] has_slot(self.slots@, c, j) implies (j == n && c == b) || (has_slot(before.slots@, c, j)
            && slot_at(self.slots@, c, j) == slot_at(before.slots@, c, j)) by {}
        assert(has_slot(self.slots@, b, n as int) && slot_at(self.slots@, b, n as int) == slot);
        assert forall|c: u64, j: int| #[trigger] has_slot(self.slots@, c, j) implies bucket_of(slot_at(self.slots@, c, j).key@) == c by {
            if !(j == n && c == b) {
                assert(has_slot(before.slots@, c, j));
            }
        }
        assert forall|c: u64, j: int, j2: int|
            has_slot(self.slots@, c, j) && has_slot(self.slots@, c, j2) && j != j2 implies (#[trigger] slot_at(self.slots@, c, j)).key@ != (
            #[trigger] slot_at(self.slots@, c, j2)).key@ by {
            if j == n && c == b {
                assert(has_slot(before.slots@, c, j2));
                assert(before.entries@.contains_key(slot_at(before.slots@, c, j2).key@));
            } else if j2 == n && c == b {
                assert(has_slot(before.slots@, c, j));
                assert(before.entries@.contains_key(slot_at(before.slots@, c, j).key@));
            } else {
                assert(has_slot(before.slots@, c, j) && has_slot(before.slots@, c, j2));
                assert(slot_at(before.slots@, c, j).key@ != slot_at(before.slots@, c, j2).key@);
            }
        }
        assert forall|c: u64, j: int| #[trigger] has_slot(self.slots@, c, j) implies self.entries@.contains_key(slot_at(self.slots@, c, j).key@)
            && self.entries@[slot_at(self.slots@, c, j).key@] == slot_entry(slot_at(self.slots@, c, j)) by {
            if !(j == n && c == b) {
                assert(has_slot(before.slots@, c, j));
                assert(before.entries@.contains_key(slot_at(before.slots@, c, j).key@));
            }
        }
        assert forall|q: Seq<u8>| #[trigger] self.entries@.contains_key(q) implies exists|j: int|
            has_slot(self.slots@, bucket_of(q), j) && slot_at(self.slots@, bucket_of(q), j).key@ == q by {
            if q != k {
                let j = choose|j: int| has_slot(before.slots@, bucket_of(q), j) && slot_at(before.slots@, bucket_of(q), j).key@ == q;
                assert(has_slot(self.slots@, bucket_of(q), j));
                assert(slot_at(self.slots@, bucket_of(q), j).key@ == q);
            } else {
                assert(slot_at(self.slots@, b, n as int).key@ == q);
            }
        }
    }

    /// Gives the slot back. A slot without a record goes, so that keys that were
    /// never stored leave nothing behind.
    pub fn release(&mut self, guard: Guard)
        requires
            old(self).wf(),
            old(self)@.contains_key(guard.key_view()),
            old(self)@[guard.key_view()].held,
        ensures
            final(self).wf(),
            final(self).keep() == old(self).keep(),
            final(self)@ == after_release(old(self)@, guard.key_view()),
    {
        let ghost k = guard.key_view();
        let found = self.find_slot(guard.key.as_slice());
        let i = match found {
            Some(i) => i,
            None => {
                return;
            },
        };
        let b = bucket_id(guard.key.as_slice());
        if self.slot_ref(b, i).record.is_some() {
            let key = copy_range(self.slot_ref(b, i).key.as_slice(), 0, self.slot_ref(b, i).key.len());
            let record = match &self.slot_ref(b, i).record {
                Some(r) => {
                    let c = copy_range(r.as_slice(), 0, r.len());
                    assert(c@ =~= r@);
                    Some(c)
                },
                None => None,
            };
            let stamp = self.slot_ref(b, i).stamp;
            let ghost old_slot = slot_at(self.slots@, b, i as int);
            proof {
                assert(key@ =~= k);
                assert(old(self)@[k] == slot_entry(old_slot));
            }
            let new_slot = Slot { key, held: false, record, stamp };
            assert(slot_entry(new_slot) == Entry { held: false, ..slot_entry(old_slot) });
            self.put_slot(b, i, new_slot);
            proof {
                assert(self.entries@ =~= old(self)@.insert(k, Entry { held: false, ..old(self)@[k] }));
                self.lemma_index_same_records(old(self));
                self.lemma_index_view();
            }
        } else {
            self.drop_slot(b, i);
            proof {
                self.lemma_index_same_records(old(self));
                self.lemma_index_view();
            }
        }
    }

    proof fn lemma_same_index(&self, other: &Self)
        requires
            self.put_times == other.put_times,
        ensures
            forall|t: u64| #[trigger] self.index_view().contains_key(t) == other.index_view().contains_key(t),
            forall|t: u64, k: Seq<u8>| self.index_view().contains_key(t) ==> #[trigger] self.index_view()[t].contains(k)
                == other.index_view()[t].contains(k),
    {
        assert forall|t: u64| #[trigger] self.index_view().contains_key(t) == other.index_view().contains_key(t) by {
            if self.index_view().contains_key(t) {
                let k = choose|k: Seq<u8>| self.indexed(k, t);
                assert(other.indexed(k, t));
            }
            if other.index_view().contains_key(t) {
                let k = choose|k: Seq<u8>| other.indexed(k, t);
                assert(self.indexed(k, t));
            }
        }
        assert forall|t: u64, k: Seq<u8>| self.index_view().contains_key(t) implies #[trigger] self.index_view()[t].contains(k)
            == other.index_view()[t].contains(k) by {
            assert(self.indexed(k, t) == other.indexed(k, t));
            assert(other.index_view().contains_key(t));
        }
    }

    /// The index stays exact when the stored records and their times stay the same.
    proof fn lemma_index_same_records(&self, before: &Self)
        requires
            before.index_sound(),
            before.index_complete(),
            before.index_distinct(),
            before.index_sorted(),
            self.put_times == before.put_times,
            forall|k: Seq<u8>| #[trigger] self.entries@.contains_key(k) && self.entries@[k].record is Some
                ==> before.entries@.contains_key(k) && before.entries@[k].record is Some
                && before.entries@[k].stamp == self.entries@[k].stamp,
            forall|k: Seq<u8>| #[trigger] before.entries@.contains_key(k) && before.entries@[k].record is Some
                ==> self.entries@.contains_key(k) && self.entries@[k].record is Some
                && before.entries@[k].stamp == self.entries@[k].stamp,
        ensures
            self.index_sound(),
            self.index_complete(),
            self.index_distinct(),
            self.index_sorted(),
    {
        assert forall|k: Seq<u8>, t: u64| #[trigger] self.indexed(k, t) implies self.entries@.contains_key(k)
            && self.entries@[k].record is Some && self.entries@[k].stamp == t by {
            assert(before.indexed(k, t));
        }
        assert forall|k: Seq<u8>| #[trigger] self.entries@.contains_key(k) && self.entries@[k].record is Some
            implies self.indexed(k, self.entries@[k].stamp) by {
            assert(before.indexed(k, before.entries@[k].stamp));
        }
    }

    spec fn front(&self, threshold: int) -> int {
        if self.put_times@.len() > 0 {
            self.put_times@[0].0 as int
        } else {
            threshold
        }
    }

    fn evict_key(&mut self, k: &[u8], t: u64)
        requires
            old(self).slots_wf(),
        ensures
            final(self).slots_wf(),
            final(self).put_times == old(self).put_times,
            final(self).keep_duration == old(self).keep_duration,
            final(self)@ == if old(self)@.contains_key(k@) && old(self)@[k@].record is Some
                && old(self)@[k@].stamp == t {
                drop_record(old(self)@, k@)
            } else {
                old(self)@
            },
    {
        let found = self.find_slot(k);
        let i = match found {
            Some(i) => i,
            None => {
                return;
            },
        };
        let b = bucket_id(k);
        let ghost old_slot = slot_at(self.slots@, b, i as int);
        assert(old(self)@[k@] == slot_entry(old_slot));
        if self.slot_ref(b, i).record.is_none() || self.slot_ref(b, i).stamp != t {
            return;
        }
        if self.slot_ref(b, i).held {
            let key = copy_range(self.slot_ref(b, i).key.as_slice(), 0, self.slot_ref(b, i).key.len());
            let stamp = self.slot_ref(b, i).stamp;
            assert(key@ =~= k@);
            let new_slot = Slot { key, held: true, record: None, stamp };
            assert(slot_entry(new_slot) == Entry { record: None, ..slot_entry(old_slot) });
            self.put_slot(b, i, new_slot);
        } else {
            self.drop_slot(b, i);
        }
    }

    /// Drops every record stored before `now` minus the time to live. It walks
    /// the time index from its oldest entry and stops at the first one that has
    /// not expired; a held slot loses its record but stays held.
    pub fn evict_expired(&mut self, now: u64)
        requires
            old(self).wf(),
        ensures
            final(self).wf(),
            final(self).keep() == old(self).keep(),
            final(self)@ == after_eviction(old(self)@, expiry_threshold(now, old(self).keep())),
            forall|t: u64| #[trigger] final(self).index_view().contains_key(t) ==> t as int >= expiry_threshold(
                now,
                old(self).keep(),
            ),
            forall|k: Seq<u8>, t: u64|
                old(self)@.contains_key(k) && stored_before(old(self)@[k], expiry_threshold(now, old(self).keep()))
                    ==> !(final(self).index_view().contains_key(t) && #[trigger] final(self).index_view()[t].contains(k)),
    {
        let ghost orig = self@;
        let ghost th = expiry_threshold(now, self.keep_duration);
        if now < self.keep_duration {
            proof {
                assert(self@ =~= after_eviction(orig, th));
                assert forall|k: Seq<u8>, t: u64| orig.contains_key(k) && stored_before(orig[k], th)
                    implies !(self.index_view().contains_key(t) && #[trigger] self.index_view()[t].contains(k)) by {
                }
            }
            return;
        }
        let threshold: u64 = now - self.keep_duration;
        proof {
            assert forall|q: Seq<u8>| #[trigger] orig.contains_key(q) && orig[q].record is Some implies
                orig[q].stamp >= self.front(th) by {
                assert(self.indexed(q, orig[q].stamp));
                let (a, j) = choose|a: int, j: int|
                    0 <= a < self.put_times@.len() && 0 <= j < self.put_times@[a].1@.len()
                        && self.put_times@[a].0 == orig[q].stamp && (#[trigger] self.put_times@[a].1@[j])@ == q;
                if a > 0 {
                    assert(self.put_times@[0].0 < self.put_times@[a].0);
                }
            }
            let c = self.front(th);
            assert(self@ =~= evict_where(orig, |q: Seq<u8>| stored_before(orig[q], c)));
        }
        while self.put_times.len() > 0 && self.put_times[0].0 < threshold
            invariant
                self.wf(),
                self.keep_duration == old(self).keep_duration,
                th == threshold as int,
                self@ == evict_where(orig, |q: Seq<u8>| stored_before(orig[q], self.front(th))),
                forall|q: Seq<u8>| #[trigger] orig.contains_key(q) && stored_before(orig[q], self.front(th))
                    ==> stored_before(orig[q], th),
            decreases self.put_times@.len(),
        {
            let ghost start = *self;
            let ghost c = self.front(th);
            let bucket = match self.put_times.pop_front() {
                Some(b) => b,
                None => {
                    return;
                },
            };
            let t = bucket.0;
            let ghost kv = bucket.1@.map_values(|v: Vec<u8>| v@);
            let ghost c1 = self.front(th);
            proof {
                assert(t as int == c);
                assert forall|a: int| 0 <= a < self.put_times@.len() implies (#[trigger] self.put_times@[a]).0 > t by {
                    assert(self.put_times@[a] == start.put_times@[a + 1]);
                    assert(start.put_times@[0].0 < start.put_times@[a + 1].0);
                }
                assert(c1 > t);
                // Where the records that survive so far sit in the index.
                assert forall|q: Seq<u8>| #[trigger] orig.contains_key(q) && orig[q].record is Some && orig[q].stamp >= t
                    implies (orig[q].stamp == t ==> kv.contains(q)) && (orig[q].stamp > t ==> orig[q].stamp >= c1
                        && self.indexed(q, orig[q].stamp)) by {
                    assert(!stored_before(orig[q], c));
                    assert(start@.contains_key(q) && start@[q] == orig[q]);
                    assert(start.indexed(q, orig[q].stamp));
                    let (a, j) = choose|a: int, j: int|
                        0 <= a < start.put_times@.len() && 0 <= j < start.put_times@[a].1@.len()
                            && start.put_times@[a].0 == orig[q].stamp && (#[trigger] start.put_times@[a].1@[j])@ == q;
                    if a == 0 {
                        assert(kv[j] == q);
                    } else {
                        assert(self.put_times@[a - 1] == start.put_times@[a]);
                        assert(self.put_times@[a - 1].1@[j]@ == q);
                        if a > 1 {
                            assert(start.put_times@[1].0 < start.put_times@[a].0);
                        }
                        assert(self.put_times@[0] == start.put_times@[1]);
                    }
                }
            }
            let keys = bucket.1;
            let mut j: usize = 0;
            while j < keys.len()
                invariant
                    j <= keys@.len(),
                    kv == keys@.map_values(|v: Vec<u8>| v@),
                    self.slots_wf(),
                    self.index_sorted(),
                    self.put_times@ == start.put_times@.drop_first(),
                    self.keep_duration == old(self).keep_duration,
                    self@ == evict_where(
                        orig,
                        |q: Seq<u8>|
                            stored_before(orig[q], t as int) || (orig[q].record is Some && orig[q].stamp == t
                                && kv.subrange(0, j as int).contains(q)),
                    ),
                    forall|q: Seq<u8>| #[trigger] orig.contains_key(q) && orig[q].record is Some && orig[q].stamp > t
                        ==> self.indexed(q, orig[q].stamp),
                decreases keys@.len() - j,
            {
                let ghost before = self@;
                let ghost kj = kv[j as int];
                self.evict_key(keys[j].as_slice(), t);
                proof {
                    let picked_before = |q: Seq<u8>|
                        stored_before(orig[q], t as int) || (orig[q].record is Some && orig[q].stamp == t
                            && kv.subrange(0, j as int).contains(q));
                    let picked_after = |q: Seq<u8>|
                        stored_before(orig[q], t as int) || (orig[q].record is Some && orig[q].stamp == t
                            && kv.subrange(0, j + 1).contains(q));
                    assert(kv.subrange(0, j + 1) =~= kv.subrange(0, j as int).push(kj));
                    assert forall|q: Seq<u8>| picked_after(q) == (picked_before(q) || (q == kj && orig[q].record is Some && orig[q].stamp == t)) by {
                        if kv.subrange(0, j + 1).contains(q) && q != kj {
                            let w = choose|w: int| 0 <= w < j + 1 && #[trigger] kv.subrange(0, j + 1)[w] == q;
                            assert(kv.subrange(0, j as int)[w] == q);
                        }
                        if kv.subrange(0, j as int).contains(q) {
                            let w = choose|w: int| 0 <= w < j && #[trigger] kv.subrange(0, j as int)[w] == q;
                            assert(kv.subrange(0, j + 1)[w] == q);
                        }
                        if q == kj {
                            assert(kv.subrange(0, j + 1)[j as int] == q);
                        }
                    }
                    assert(self@ =~= evict_where(orig, picked_after));
                }
                j = j + 1;
            }
            proof {
                let p = |q: Seq<u8>|
                    stored_before(orig[q], t as int) || (orig[q].record is Some && orig[q].stamp == t
                        && kv.subrange(0, kv.len() as int).contains(q));
                assert(kv.subrange(0, kv.len() as int) =~= kv);
                assert forall|q: Seq<u8>| #[trigger] orig.contains_key(q) implies p(q) == stored_before(orig[q], c1) by {
                    if orig[q].record is Some && orig[q].stamp >= t {
                        if orig[q].stamp == t {
                            assert(kv.contains(q));
                        }
                    }
                }
                assert(self@ =~= evict_where(orig, |q: Seq<u8>| stored_before(orig[q], c1)));
                assert forall|q: Seq<u8>| #[trigger] self@.contains_key(q) && self@[q].record is Some implies
                    self.indexed(q, self@[q].stamp) by {
                    assert(orig.contains_key(q));
                    assert(self@[q] == orig[q]);
                }
                assert forall|q: Seq<u8>| #[trigger] orig.contains_key(q) && stored_before(orig[q], c1)
                    implies stored_before(orig[q], th) by {
                    if orig[q].stamp < t {
                        assert(stored_before(orig[q], c));
                    }
                }
                assert forall|q: Seq<u8>, s: u64| #[trigger] self.indexed(q, s) implies self@.contains_key(q)
                    && self@[q].record is Some && self@[q].stamp == s by {
                    let (a, j) = choose|a: int, j: int|
                        0 <= a < self.put_times@.len() && 0 <= j < self.put_times@[a].1@.len()
                            && self.put_times@[a].0 == s && (#[trigger] self.put_times@[a].1@[j])@ == q;
                    assert(self.put_times@[a] == start.put_times@[a + 1]);
                    assert(start.put_times@[a + 1].1@[j]@ == q);
                    assert(start.indexed(q, s));
                    assert(start.put_times@[0].0 < start.put_times@[a + 1].0);
                    assert(start@.contains_key(q) && start@[q].record is Some && start@[q].stamp == s);
                    assert(orig.contains_key(q) && start@[q] == orig[q]);
                }
                assert forall|a: int, i: int, j: int|
                    0 <= a < self.put_times@.len() && 0 <= i < j < self.put_times@[a].1@.len() implies (
                    #[trigger] self.put_times@[a].1@[i])@ != (#[trigger] self.put_times@[a].1@[j])@ by {
                    assert(self.put_times@[a] == start.put_times@[a + 1]);
                }
                self.lemma_index_view();
            }
        }
        proof {
            let c = self.front(th);
            assert(c >= th);
            assert(self@ =~= after_eviction(orig, th));
            assert forall|k: Seq<u8>, t: u64| orig.contains_key(k) && stored_before(orig[k], th)
                implies !(self.index_view().contains_key(t) && #[trigger] self.index_view()[t].contains(k)) by {
                if self.index_view().contains_key(t) && self.index_view()[t].contains(k) {
                    assert(self.indexed(k, t));
                    assert(self@.contains_key(k) && self@[k].record is Some);
                }
            }
            assert forall|t: u64| #[trigger] self.index_view().contains_key(t) implies t as int >= th by {
                let k = choose|k: Seq<u8>| self.indexed(k, t);
                let (a, j) = choose|a: int, j: int|
                    0 <= a < self.put_times@.len() && 0 <= j < self.put_times@[a].1@.len()
                        && self.put_times@[a].0 == t && (#[trigger] self.put_times@[a].1@[j])@ == k;
                if a > 0 {
                    assert(self.put_times@[0].0 < self.put_times@[a].0);
                }
            }
        }
    }

    /// Adds `k`, which the index does not list, under time `t`. The search runs
    /// from the newest bucket, where a fresh store time belongs.
    #[verifier::rlimit(60)]
    fn index_add(&mut self, k: Vec<u8>, t: u64)
        requires
            old(self).index_sorted(),
            old(self).index_distinct(),
            forall|s: u64| !old(self).indexed(k@, s),
        ensures
            final(self).index_sorted(),
            final(self).index_distinct(),
            final(self).slots == old(self).slots,
            final(self).entries == old(self).entries,
            final(self).keep_duration == old(self).keep_duration,
            forall|q: Seq<u8>, s: u64| #[trigger] final(self).indexed(q, s) <==> (old(self).indexed(q, s) || (q == k@
                && s == t)),
    {
        let ghost kq = k@;
        let mut p: usize = self.put_times.len();
        while p > 0 && self.put_times[p - 1].0 > t
            invariant
                p <= self.put_times@.len(),
                forall|a: int| p <= a < self.put_times@.len() ==> (#[trigger] self.put_times@[a]).0 > t,
            decreases p,
        {
            p = p - 1;
        }
        let ghost before = self.put_times@;
        let ghost old_self = *self;
        if p > 0 && self.put_times[p - 1].0 == t {
            let b = p - 1;
            let mut bucket = match self.put_times.remove(b) {
                Some(x) => x,
                None => {
                    return;
                },
            };
            let ghost old_keys = bucket.1@;
            bucket.1.push(k);
            self.put_times.insert(b, bucket);
            proof {
                assert(self.put_times@ =~= before.update(b as int, bucket));
                assert(bucket.1@ == old_keys.push(k));
                assert forall|q: Seq<u8>, s: u64| #[trigger] self.indexed(q, s) <==> (old_self.indexed(q, s) || (q == kq
                    && s == t)) by {
                    if self.indexed(q, s) {
                        let (a, j) = choose|a: int, j: int|
                            0 <= a < self.put_times@.len() && 0 <= j < self.put_times@[a].1@.len()
                                && self.put_times@[a].0 == s && (#[trigger] self.put_times@[a].1@[j])@ == q;
                        if a != b || j < old_keys.len() {
                            assert(before[a].1@[j] == self.put_times@[a].1@[j]);
                        }
                    }
                    if old_self.indexed(q, s) {
                        let (a, j) = choose|a: int, j: int|
                            0 <= a < before.len() && 0 <= j < before[a].1@.len() && before[a].0 == s
                                && (#[trigger] before[a].1@[j])@ == q;
                        assert(self.put_times@[a].1@[j] == before[a].1@[j]);
                    }
                    if q == kq && s == t {
                        assert(self.put_times@[b as int].1@[old_keys.len() as int]@ == kq);
                    }
                }
                assert forall|a: int, i: int, j: int|
                    0 <= a < self.put_times@.len() && 0 <= i < j < self.put_times@[a].1@.len() implies (
                    #[trigger] self.put_times@[a].1@[i])@ != (#[trigger] self.put_times@[a].1@[j])@ by {
                    if a == b && j == old_keys.len() {
                        assert(before[a].1@[i] == self.put_times@[a].1@[i]);
                        assert(!old_self.indexed(kq, t));
                    }
                }
            }
        } else {
            let mut keys: Vec<Vec<u8>> = Vec::new();
            keys.push(k);
            self.put_times.insert(p, (t, keys));
            proof {
                assert(self.put_times@ =~= before.insert(p as int, (t, keys)));
                if p > 0 {
                    assert(before[p - 1].0 < t);
                }
                assert forall|a: int, c: int| 0 <= a < c < self.put_times@.len() implies (#[trigger] self.put_times@[a]).0
                    < (#[trigger] self.put_times@[c]).0 by {
                    if c < p {
                    } else if c == p {
                        assert(self.put_times@[a] == before[a]);
                        if a < p - 1 {
                            assert(before[a].0 < before[p - 1].0);
                        }
                    } else if a < p {
                        assert(self.put_times@[c] == before[c - 1]);
                        assert(self.put_times@[a] == before[a]);
                        if a < p - 1 {
                            assert(before[a].0 < before[p - 1].0);
                        }
                    } else if a == p {
                        assert(self.put_times@[c] == before[c - 1]);
                    } else {
                        assert(self.put_times@[a] == before[a - 1]);
                        assert(self.put_times@[c] == before[c - 1]);
                    }
                }
                assert forall|q: Seq<u8>, s: u64| #[trigger] self.indexed(q, s) <==> (old_self.indexed(q, s) || (q == kq
                    && s == t)) by {
                    if self.indexed(q, s) {
                        let (a, j) = choose|a: int, j: int|
                            0 <= a < self.put_times@.len() && 0 <= j < self.put_times@[a].1@.len()
                                && self.put_times@[a].0 == s && (#[trigger] self.put_times@[a].1@[j])@ == q;
                        if a < p {
                            assert(before[a].1@[j] == self.put_times@[a].1@[j]);
                        } else if a > p {
                            assert(before[a - 1].1@[j] == self.put_times@[a].1@[j]);
                        }
                    }
                    if old_self.indexed(q, s) {
                        let (a, j) = choose|a: int, j: int|
                            0 <= a < before.len() && 0 <= j < before[a].1@.len() && before[a].0 == s
                                && (#[trigger] before[a].1@[j])@ == q;
                        if a < p {
                            assert(self.put_times@[a].1@[j] == before[a].1@[j]);
                        } else {
                            assert(self.put_times@[a + 1].1@[j] == before[a].1@[j]);
                        }
                    }
                    if q == kq && s == t {
                        assert(self.put_times@[p as int].1@[0]@ == kq);
                    }
                }
                assert forall|a: int, i: int, j: int|
                    0 <= a < self.put_times@.len() && 0 <= i < j < self.put_times@[a].1@.len() implies (
                    #[trigger] self.put_times@[a].1@[i])@ != (#[trigger] self.put_times@[a].1@[j])@ by {
                    if a < p {
                        assert(self.put_times@[a] == before[a]);
                    } else if a > p {
                        assert(self.put_times@[a] == before[a - 1]);
                    }
                }
            }
        }
    }

    /// Takes `k` out of the bucket for time `t`, the only bucket that lists it.
    /// A bucket left empty stays until its time expires; it lists nothing.
    #[verifier::rlimit(60)]
    fn index_remove(&mut self, k: &[u8], t: u64)
        requires
            old(self).index_sorted(),
            old(self).index_distinct(),
            old(self).indexed(k@, t),
            forall|s: u64| #[trigger] old(self).indexed(k@, s) ==> s == t,
        ensures
            final(self).index_sorted(),
            final(self).index_distinct(),
            final(self).slots == old(self).slots,
            final(self).entries == old(self).entries,
            final(self).keep_duration == old(self).keep_duration,
            forall|q: Seq<u8>, s: u64| #[trigger] final(self).indexed(q, s) <==> (old(self).indexed(q, s) && q != k@),
    {
        let ghost before = self.put_times@;
        let ghost old_self = *self;
        let ghost (wa, wj) = choose|a: int, j: int|
            0 <= a < before.len() && 0 <= j < before[a].1@.len() && before[a].0 == t && (#[trigger] before[a].1@[j])@
                == k@;
        let mut lo: usize = 0;
        let mut hi: usize = self.put_times.len();
        while lo + 1 < hi && self.put_times[lo].0 != t
            invariant
                before == self.put_times@,
                0 <= lo <= wa < hi <= before.len(),
                old_self == *self,
                before[wa].0 == t,
                forall|x: int, y: int| 0 <= x < y < before.len() ==> (#[trigger] before[x]).0 < (#[trigger] before[y]).0,
            decreases hi - lo,
        {
            let mid = lo + (hi - lo) / 2;
            if self.put_times[mid].0 <= t {
                proof {
                    if mid > wa {
                        assert(before[wa].0 < before[mid as int].0);
                    }
                }
                lo = mid;
            } else {
                proof {
                    if mid <= wa {
                        if mid < wa {
                            assert(before[mid as int].0 < before[wa].0);
                        }
                    }
                }
                hi = mid;
            }
        }
        proof {
            if lo != wa {
                assert(before[lo as int].0 < before[wa].0);
            }
        }
        let a = lo;
        let mut bucket = match self.put_times.remove(a) {
            Some(x) => x,
            None => {
                return;
            },
        };
        let ghost old_keys = bucket.1@;
        let mut j: usize = 0;
        while j < bucket.1.len() && !bytes_eq(bucket.1[j].as_slice(), k)
            invariant
                bucket.1@ == old_keys,
                j <= old_keys.len(),
                forall|i: int| 0 <= i < j ==> (#[trigger] old_keys[i])@ != k@,
            decreases old_keys.len() - j,
        {
            j = j + 1;
        }
        if j == bucket.1.len() {
            proof {
                assert(old_keys[wj]@ == k@);
            }
            self.put_times.insert(a, bucket);
            return;
        }
        let _gone = bucket.1.remove(j);
        self.put_times.insert(a, bucket);
        proof {
            assert(self.put_times@ =~= before.update(a as int, bucket));
            assert(bucket.1@ == old_keys.remove(j as int));
            assert forall|q: Seq<u8>, s: u64| #[trigger] self.indexed(q, s) implies old_self.indexed(q, s) && q != k@ by {
                let (b, i) = choose|b: int, i: int|
                    0 <= b < self.put_times@.len() && 0 <= i < self.put_times@[b].1@.len()
                        && self.put_times@[b].0 == s && (#[trigger] self.put_times@[b].1@[i])@ == q;
                if b != a {
                    assert(before[b].1@[i] == self.put_times@[b].1@[i]);
                } else if i < j {
                    assert(before[b].1@[i] == self.put_times@[b].1@[i]);
                    assert(old_keys[i]@ != old_keys[j as int]@);
                } else {
                    assert(before[b].1@[i + 1] == self.put_times@[b].1@[i]);
                    assert(old_keys[i + 1]@ != old_keys[j as int]@);
                }
            }
            assert forall|q: Seq<u8>, s: u64| old_self.indexed(q, s) && q != k@ implies #[trigger] self.indexed(q, s) by {
                let (b, i) = choose|b: int, i: int|
                    0 <= b < before.len() && 0 <= i < before[b].1@.len() && before[b].0 == s
                        && (#[trigger] before[b].1@[i])@ == q;
                if b != a {
                    assert(self.put_times@[b].1@[i] == before[b].1@[i]);
                } else if i < j {
                    assert(self.put_times@[b].1@[i] == before[b].1@[i]);
                } else {
                    assert(i != j);
                    assert(self.put_times@[b].1@[i - 1] == before[b].1@[i]);
                }
            }
            assert forall|b: int, i: int, i2: int|
                0 <= b < self.put_times@.len() && 0 <= i < i2 < self.put_times@[b].1@.len() implies (
                #[trigger] self.put_times@[b].1@[i])@ != (#[trigger] self.put_times@[b].1@[i2])@ by {
                if b != a {
                    assert(self.put_times@[b] == before[b]);
                } else {
                    let oi = if i < j { i } else { i + 1 };
                    let oi2 = if i2 < j { i2 } else { i2 + 1 };
                    assert(self.put_times@[b].1@[i] == old_keys[oi]);
                    assert(self.put_times@[b].1@[i2] == old_keys[oi2]);
                }
            }
        }
    }

    /// Stores `value` under the key that `guard` holds, stamped with time `now`,
    /// and, before the slot is given back, lists the key in the time index
    /// under `now` and under no other time.
    pub fn store(&mut self, guard: &mut Guard, value: Value, now: u64)
        requires
            old(self).wf(),
            old(self)@.contains_key(old(guard).key_view()),
            old(self)@[old(guard).key_view()].held,
        ensures
            final(self).wf(),
            final(self).keep() == old(self).keep(),
            final(self)@ == after_store(old(self)@, old(guard).key_view(), value.0@, now),
            final(self).index_view().contains_key(now),
            final(self).index_view()[now].contains(old(guard).key_view()),
            forall|t: u64| #[trigger] final(self).index_view().contains_key(t) && final(self).index_view()[t].contains(
                old(guard).key_view(),
            ) ==> t == now,
            final(guard).key_view() == old(guard).key_view(),
            final(guard).record_view() == Some(value.0@),
    {
        let ghost k = guard.key_view();
        let found = self.find_slot(guard.key.as_slice());
        let i = match found {
            Some(i) => i,
            None => {
                return;
            },
        };
        let b = bucket_id(guard.key.as_slice());
        let ghost old_entry = self@[k];
        proof {
            assert(slot_at(self.slots@, b, i as int).key@ == k);
        }
        if self.slot_ref(b, i).record.is_some() {
            let t0 = self.slot_ref(b, i).stamp;
            proof {
                assert(self.indexed(k, t0));
            }
            self.index_remove(guard.key.as_slice(), t0);
        } else {
            proof {
                assert forall|s: u64| !self.indexed(k, s) by {
                    if self.indexed(k, s) {
                        assert(self@[k].record is Some);
                    }
                }
            }
        }
        let ghost removed = *self;
        let key = copy_range(guard.key.as_slice(), 0, guard.key.len());
        let index_key = copy_range(guard.key.as_slice(), 0, guard.key.len());
        let record = copy_range(value.0, 0, value.0.len());
        let kept = copy_range(value.0, 0, value.0.len());
        assert(key@ =~= k);
        assert(index_key@ =~= k);
        assert(record@ =~= value.0@);
        assert(kept@ =~= value.0@);
        self.put_slot(b, i, Slot { key, held: true, record: Some(record), stamp: now });
        let ghost mid = *self;
        proof {
            assert forall|s: u64| !mid.indexed(k, s) by {
                assert(mid.indexed(k, s) == removed.indexed(k, s));
            }
        }
        self.index_add(index_key, now);
        guard.record = Some(kept);
        proof {
            assert(self@ =~= after_store(old(self)@, k, value.0@, now));
            assert forall|q: Seq<u8>, s: u64| #[trigger] self.indexed(q, s) implies self.entries@.contains_key(q)
                && self.entries@[q].record is Some && self.entries@[q].stamp == s by {
                if q != k {
                    assert(mid.indexed(q, s) == removed.indexed(q, s));
                    assert(old(self).indexed(q, s));
                }
            }
            assert forall|q: Seq<u8>| #[trigger] self.entries@.contains_key(q) && self.entries@[q].record is Some
                implies self.indexed(q, self.entries@[q].stamp) by {
                if q != k {
                    let s = old(self).entries@[q].stamp;
                    assert(old(self).indexed(q, s));
                    assert(mid.indexed(q, s) == removed.indexed(q, s));
                }
            }
            self.lemma_index_view();
            let idx = self.index_view();
            assert(self@.contains_key(k) && self@[k].record is Some && self@[k].stamp == now);
            assert(idx.contains_key(now) && idx[now].contains(k));
            assert forall|t: u64| #[trigger] idx.contains_key(t) && idx[t].contains(k) implies t == now by {
                assert(self@[k].stamp == t);
            }
        }
    }

    /// Takes the slot of `key` at time `now`, after dropping the expired records.
    /// Gives `None` while another holder has the slot; the caller then waits for
    /// a release and asks again. Otherwise the guard shows the record stored
    /// under the key, if any: a hit, or a miss that the holder is to fill.
    pub fn try_lock(&mut self, key: Key, now: u64) -> (r: Option<Guard>)
        requires
            old(self).wf(),
        ensures
            final(self).wf(),
            final(self).keep() == old(self).keep(),
            ({
                let ev = after_eviction(old(self)@, expiry_threshold(now, old(self).keep()));
                &&& final(self)@ == after_lock(ev, key.0@, now)
                &&& match lock_result(ev, key.0@) {
                    None => r is None,
                    Some(rec) => r matches Some(g) && g.key_view() == key.0@ && g.record_view() == rec,
                }
            }),
            forall|t: u64| #[trigger] final(self).index_view().contains_key(t) ==> t as int >= expiry_threshold(
                now,
                old(self).keep(),
            ),
            forall|k: Seq<u8>, t: u64|
                old(self)@.contains_key(k) && stored_before(old(self)@[k], expiry_threshold(now, old(self).keep()))
                    ==> !(final(self).index_view().contains_key(t) && #[trigger] final(self).index_view()[t].contains(k)),
    {
        self.evict_expired(now);
        let ghost ev = self@;
        let ghost evicted = *self;
        let k = key.0;
        let b = bucket_id(k);
        match self.find_slot(k) {
            Some(i) => {
                if self.slot_ref(b, i).held {
                    return None;
                }
                let ghost old_slot = slot_at(self.slots@, b, i as int);
                let slot_key = copy_range(k, 0, k.len());
                let guard_key = copy_range(k, 0, k.len());
                let (record, seen) = match &self.slot_ref(b, i).record {
                    Some(r) => {
                        let c = copy_range(r.as_slice(), 0, r.len());
                        let d = copy_range(r.as_slice(), 0, r.len());
                        assert(c@ =~= r@);
                        assert(d@ =~= r@);
                        (Some(c), Some(d))
                    },
                    None => (None, None),
                };
                let stamp = self.slot_ref(b, i).stamp;
                assert(slot_key@ =~= k@);
                assert(guard_key@ =~= k@);
                let ghost before = *self;
                self.put_slot(b, i, Slot { key: slot_key, held: true, record, stamp });
                proof {
                    assert(ev[k@] == slot_entry(old_slot));
                    assert(self@ =~= after_lock(ev, k@, now));
                    self.lemma_index_same_records(&before);
                    self.lemma_index_view();
                    self.lemma_same_index(&evicted);
                }
                Some(Guard { key: guard_key, record: seen })
            },
            None => {
                let slot_key = copy_range(k, 0, k.len());
                let guard_key = copy_range(k, 0, k.len());
                assert(slot_key@ =~= k@);
                assert(guard_key@ =~= k@);
                let ghost before = *self;
                self.add_slot(Slot { key: slot_key, held: true, record: None, stamp: now });
                proof {
                    assert(self@ =~= after_lock(ev, k@, now));
                    self.lemma_index_same_records(&before);
                    self.lemma_index_view();
                    self.lemma_same_index(&evicted);
                }
                Some(Guard { key: guard_key, record: None })
            },
        }
    }
}

} // verus!

verus! {

/// Of concurrent requests for a key that nothing is stored under, the first to
/// take the slot finds no record and so is the one to fetch; while it holds the
/// slot every other request for the key waits, whatever expires meanwhile; once
/// it has stored a record and released, a request made before the record
/// expires finds that record, and so does the one after it.
pub proof fn lemma_single_fetch(
    m: Map<Seq<u8>, Entry>,
    held: Map<Seq<u8>, Entry>,
    k: Seq<u8>,
    v: Seq<u8>,
    stored_at: u64,
    th: int,
)
    requires
        held.contains_key(k),
        held[k].held,
        th <= stored_at,
    ensures
        !m.contains_key(k) ==> lock_result(after_eviction(m, th), k) == Some(None::<Seq<u8>>),
        lock_result(after_eviction(held, th), k) is None,
        ({
            let done = after_release(after_store(held, k, v, stored_at), k);
            let first = after_eviction(done, th);
            let again = after_eviction(after_release(after_lock(first, k, stored_at), k), th);
            &&& lock_result(first, k) == Some(Some(v))
            &&& lock_result(again, k) == Some(Some(v))
        }),
{
    let done = after_release(after_store(held, k, v, stored_at), k);
    assert(done.contains_key(k) && done[k].record == Some(v) && !done[k].held);
    let first = after_eviction(done, th);
    assert(first.contains_key(k) && first[k] == done[k]);
    let relocked = after_release(after_lock(first, k, stored_at), k);
    assert(relocked.contains_key(k) && relocked[k] == done[k]);
}

/// Whether a request for one key waits, and what it finds, does not depend on
/// what happens to another key: taking, filling or releasing the slot of `a`
/// leaves a request for `b` as it was.
pub proof fn lemma_keys_independent(m: Map<Seq<u8>, Entry>, a: Seq<u8>, b: Seq<u8>, v: Seq<u8>, now: u64)
    requires
        a != b,
    ensures
        lock_result(after_lock(m, a, now), b) == lock_result(m, b),
        lock_result(after_store(m, a, v, now), b) == lock_result(m, b),
        m.contains_key(a) ==> lock_result(after_release(m, a), b) == lock_result(m, b),
{
}

/// A record stored at time `t` and not held is gone once more than the time to
/// live has passed: eviction at `now` removes its entry, and a request then
/// finds nothing (a miss). Before that, it is still there.
pub proof fn lemma_expired_record_gone(m: Map<Seq<u8>, Entry>, k: Seq<u8>, t: u64, keep: u64, now: u64)
    requires
        m.contains_key(k),
        m[k].record is Some,
        m[k].stamp == t,
        !m[k].held,
    ensures
        (t as int) + (keep as int) < now as int ==> {
            &&& !after_eviction(m, expiry_threshold(now, keep)).contains_key(k)
            &&& lock_result(after_eviction(m, expiry_threshold(now, keep)), k) == Some(None::<Seq<u8>>)
        },
        (t as int) + (keep as int) >= now as int ==> lock_result(after_eviction(m, expiry_threshold(now, keep)), k)
            == Some(m[k].record),
{
}

} // verus!
