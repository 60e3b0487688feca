//! The LRU storage engine: a weighted, capacity-bounded store of entries keyed
//! by byte strings, with recency tracking and optional expiration.
//!
//! Each key is held once, beside its entry. The recency index (pairs of last
//! use and key) and the expiration index (pairs of expiry and key) are read off
//! the entries, so they always agree with the primary mapping.
use vstd::prelude::*;

use crate::bytes::{
    bytes_equal,
    bytes_less,
    bytes_lt,
    copy_bytes,
    lemma_bytes_lt_asymmetric,
    lemma_bytes_lt_total,
    lemma_bytes_lt_transitive,
};

verus! {

pub type Weight = usize;

pub type Timestamp = u32;

/// Bytes charged to every entry for its timestamps and expiration slot.
pub const ENTRY_OVERHEAD: usize = 20;

/// A value that knows how many bytes it occupies.
pub trait HasWeight {
    spec fn spec_weight(&self) -> nat;

    fn weight(&self) -> (r: Weight)
        ensures
            r as nat == self.spec_weight(),
    ;
}

impl HasWeight for Vec<u8> {
    open spec fn spec_weight(&self) -> nat {
        self@.len()
    }

    fn weight(&self) -> (r: Weight) {
        self.len()
    }
}

/// One stored value with its bookkeeping.
#[derive(Debug)]
pub struct LruEntry<V> {
    pub data: V,
    /// Last access, in epoch seconds: the recency key.
    pub used: Timestamp,
    /// Absolute expiry in epoch seconds; `None` never expires.
    pub expires: Option<Timestamp>,
    /// What the entry counts against the capacity.
    pub weight: Weight,
}

/// An entry is expired at `now` once its expiry lies strictly before `now`.
pub open spec fn is_expired(expires: Option<Timestamp>, now: Timestamp) -> bool {
    match expires {
        Some(ts) => ts < now,
        None => false,
    }
}

/// `k` is held in `m` and has not expired at `now`.
pub open spec fn is_live<V>(m: Map<Seq<u8>, LruEntry<V>>, k: Seq<u8>, now: Timestamp) -> bool {
    m.contains_key(k) && !is_expired(m[k].expires, now)
}

/// The weight of an entry: three copies of the key, the value and the fixed
/// overhead, saturated at the largest `usize`.
pub open spec fn entry_weight(key_len: nat, value_weight: nat) -> nat {
    let w = 3 * key_len + value_weight + ENTRY_OVERHEAD as nat;
    if w <= usize::MAX {
        w as nat
    } else {
        usize::MAX as nat
    }
}

/// `(t1, k1)` sorts before `(t2, k2)`: by timestamp, ties broken by key.
pub open spec fn stamp_lt(t1: Timestamp, k1: Seq<u8>, t2: Timestamp, k2: Seq<u8>) -> bool {
    t1 < t2 || (t1 == t2 && bytes_lt(k1, k2))
}

/// The entry with the earliest `(expiry, key)` pair of all entries that expire.
pub open spec fn is_first_to_expire<V>(m: Map<Seq<u8>, LruEntry<V>>, k: Seq<u8>) -> bool {
    &&& m.contains_key(k)
    &&& m[k].expires is Some
    &&& forall|k2: Seq<u8>|
        #![trigger m[k2]]
        m.contains_key(k2) && k2 != k && m[k2].expires is Some ==> stamp_lt(
            m[k].expires->0,
            k,
            m[k2].expires->0,
            k2,
        )
}

/// The entry with the earliest `(used, key)` pair: the least recently used.
pub open spec fn is_least_recent<V>(m: Map<Seq<u8>, LruEntry<V>>, k: Seq<u8>) -> bool {
    &&& m.contains_key(k)
    &&& forall|k2: Seq<u8>|
        #![trigger m[k2]]
        m.contains_key(k2) && k2 != k ==> stamp_lt(m[k].used, k, m[k2].used, k2)
}

/// Some entry that is first to expire has already expired at `now`.
pub open spec fn has_expired_head<V>(m: Map<Seq<u8>, LruEntry<V>>, now: Timestamp) -> bool {
    exists|k: Seq<u8>| is_first_to_expire(m, k) && is_expired(m[k].expires, now)
}

/// The entry that eviction takes next at `now`: the first to expire if it has
/// expired, otherwise the least recently used.
pub open spec fn is_victim<V>(m: Map<Seq<u8>, LruEntry<V>>, k: Seq<u8>, now: Timestamp) -> bool {
    if has_expired_head(m, now) {
        is_first_to_expire(m, k)
    } else {
        is_least_recent(m, k)
    }
}

/// One eviction at `now`: while the weight `w` is above `target`, the victim
/// leaves and its weight is taken off.
pub open spec fn evict_step<V>(
    m: Map<Seq<u8>, LruEntry<V>>,
    w: nat,
    m2: Map<Seq<u8>, LruEntry<V>>,
    w2: nat,
    now: Timestamp,
    target: nat,
) -> bool {
    w > target && exists|k: Seq<u8>|
        #[trigger] is_victim(m, k, now) && m2 == m.remove(k) && w2 == w - m[k].weight
}

/// `maps` and `ws` go from `m` of weight `w` to `m2` of weight `w2` by
/// evictions alone.
pub open spec fn evict_chain<V>(
    maps: Seq<Map<Seq<u8>, LruEntry<V>>>,
    ws: Seq<nat>,
    m: Map<Seq<u8>, LruEntry<V>>,
    w: nat,
    m2: Map<Seq<u8>, LruEntry<V>>,
    w2: nat,
    now: Timestamp,
    target: nat,
) -> bool {
    &&& maps.len() >= 1
    &&& ws.len() == maps.len()
    &&& maps[0] == m
    &&& ws[0] == w
    &&& maps.last() == m2
    &&& ws.last() == w2
    &&& forall|i: int|
        0 <= i < maps.len() - 1 ==> #[trigger] evict_step(maps[i], ws[i], maps[i + 1], ws[i + 1], now, target)
}

/// Eviction at `now` takes `m`, of weight `w`, to `m2`, of weight `w2`: victim
/// after victim (the first to expire if it has expired, else the least
/// recently used), each taken only while the weight was above `target`.
pub open spec fn evicted_down_to<V>(
    m: Map<Seq<u8>, LruEntry<V>>,
    w: nat,
    m2: Map<Seq<u8>, LruEntry<V>>,
    w2: nat,
    now: Timestamp,
    target: nat,
) -> bool {
    exists|maps: Seq<Map<Seq<u8>, LruEntry<V>>>, ws: Seq<nat>|
        evict_chain(maps, ws, m, w, m2, w2, now, target)
}

/// `new` holds `k` as `e`, and every other key of `new` was in `old`
/// with the same entry: only `k` was written, other keys were at most removed.
pub open spec fn stored_over<V>(
    old: Map<Seq<u8>, LruEntry<V>>,
    new: Map<Seq<u8>, LruEntry<V>>,
    k: Seq<u8>,
    e: LruEntry<V>,
) -> bool {
    &&& new.contains_key(k)
    &&& new[k] == e
    &&& forall|k2: Seq<u8>|
        #![trigger new.contains_key(k2)]
        new.contains_key(k2) && k2 != k ==> old.contains_key(k2) && new[k2] == old[k2]
}

/// A weighted LRU cache keyed by byte strings.
#[derive(Debug)]
pub struct LruCache<V> {
    keys: Vec<Vec<u8>>,
    entries: Vec<LruEntry<V>>,
    capacity: Weight,
    weight: Weight,
}

spec fn sum_weights<V>(s: Seq<LruEntry<V>>) -> nat
    decreases s.len(),
{
    if s.len() == 0 {
        0
    } else {
        sum_weights(s.drop_last()) + s.last().weight as nat
    }
}

proof fn lemma_sum_remove<V>(s: Seq<LruEntry<V>>, i: int)
    requires
        0 <= i < s.len(),
    ensures
        sum_weights(s) == sum_weights(s.remove(i)) + s[i].weight,
    decreases s.len(),
{
    if i == s.len() - 1 {
        assert(s.remove(i) =~= s.drop_last());
    } else {
        lemma_sum_remove(s.drop_last(), i);
        assert(s.remove(i).drop_last() =~= s.drop_last().remove(i));
    }
}

proof fn lemma_sum_update<V>(s: Seq<LruEntry<V>>, i: int, e: LruEntry<V>)
    requires
        0 <= i < s.len(),
        e.weight == s[i].weight,
    ensures
        sum_weights(s.update(i, e)) == sum_weights(s),
    decreases s.len(),
{
    if i == s.len() - 1 {
        assert(s.update(i, e).drop_last() =~= s.drop_last());
    } else {
        lemma_sum_update(s.drop_last(), i, e);
        assert(s.update(i, e).drop_last() =~= s.drop_last().update(i, e));
    }
}

spec fn keys_unique(keys: Seq<Vec<u8>>) -> bool {
    forall|i: int, j: int|
        0 <= i < keys.len() && 0 <= j < keys.len() && i != j ==> #[trigger] keys[i]@
            != #[trigger] keys[j]@
}

spec fn holds_key(keys: Seq<Vec<u8>>, k: Seq<u8>) -> bool {
    exists|i: int| 0 <= i < keys.len() && #[trigger] keys[i]@ == k
}

spec fn index_of(keys: Seq<Vec<u8>>, k: Seq<u8>) -> int {
    choose|i: int| 0 <= i < keys.len() && #[trigger] keys[i]@ == k
}

spec fn view_of<V>(keys: Seq<Vec<u8>>, entries: Seq<LruEntry<V>>) -> Map<Seq<u8>, LruEntry<V>> {
    Map::new(|k: Seq<u8>| holds_key(keys, k), |k: Seq<u8>| entries[index_of(keys, k)])
}

proof fn lemma_view_at<V>(keys: Seq<Vec<u8>>, entries: Seq<LruEntry<V>>, i: int)
    requires
        keys_unique(keys),
        0 <= i < keys.len(),
    ensures
        view_of(keys, entries).contains_key(keys[i]@),
        view_of(keys, entries)[keys[i]@] == entries[i],
{
    assert(holds_key(keys, keys[i]@));
    let j = index_of(keys, keys[i]@);
    assert(keys[j]@ == keys[i]@);
}

proof fn lemma_view_remove<V>(keys: Seq<Vec<u8>>, entries: Seq<LruEntry<V>>, i: int)
    requires
        keys_unique(keys),
        keys.len() == entries.len(),
        0 <= i < keys.len(),
    ensures
        keys_unique(keys.remove(i)),
        view_of(keys.remove(i), entries.remove(i)) == view_of(keys, entries).remove(keys[i]@),
{
    let nk = keys.remove(i);
    let ne = entries.remove(i);
    let old_m = view_of(keys, entries);
    let new_m = view_of(nk, ne);
    assert forall|a: int, b: int|
        0 <= a < nk.len() && 0 <= b < nk.len() && a != b implies #[trigger] nk[a]@
        != #[trigger] nk[b]@ by {
        let oa = if a < i { a } else { a + 1 };
        let ob = if b < i { b } else { b + 1 };
        assert(nk[a] == keys[oa]);
        assert(nk[b] == keys[ob]);
    }
    assert forall|k: Seq<u8>| new_m.contains_key(k) <==> old_m.remove(keys[i]@).contains_key(k) by {
        if new_m.contains_key(k) {
            let j = choose|j: int| 0 <= j < nk.len() && #[trigger] nk[j]@ == k;
            let oj = if j < i { j } else { j + 1 };
            assert(keys[oj]@ == k);
            assert(holds_key(keys, k));
        }
        if old_m.remove(keys[i]@).contains_key(k) {
            let j = choose|j: int| 0 <= j < keys.len() && #[trigger] keys[j]@ == k;
            assert(j != i);
            let nj = if j < i { j } else { j - 1 };
            assert(nk[nj]@ == k);
            assert(holds_key(nk, k));
        }
    }
    assert forall|k: Seq<u8>| #[trigger] new_m.contains_key(k) implies new_m[k] == old_m[k] by {
        let j = choose|j: int| 0 <= j < nk.len() && #[trigger] nk[j]@ == k;
        let oj = if j < i { j } else { j + 1 };
        assert(nk[j] == keys[oj]);
        lemma_view_at(nk, ne, j);
        lemma_view_at(keys, entries, oj);
    }
    assert(new_m =~= old_m.remove(keys[i]@));
}

proof fn lemma_view_push<V>(keys: Seq<Vec<u8>>, entries: Seq<LruEntry<V>>, k: Vec<u8>, e: LruEntry<V>)
    requires
        keys_unique(keys),
        keys.len() == entries.len(),
        !holds_key(keys, k@),
    ensures
        keys_unique(keys.push(k)),
        view_of(keys.push(k), entries.push(e)) == view_of(keys, entries).insert(k@, e),
{
    let nk = keys.push(k);
    let ne = entries.push(e);
    let old_m = view_of(keys, entries);
    let new_m = view_of(nk, ne);
    assert forall|a: int, b: int|
        0 <= a < nk.len() && 0 <= b < nk.len() && a != b implies #[trigger] nk[a]@
        != #[trigger] nk[b]@ by {
        if a == keys.len() {
            assert(keys[b]@ == nk[b]@);
        } else if b == keys.len() {
            assert(keys[a]@ == nk[a]@);
        } else {
            assert(keys[a]@ == nk[a]@);
            assert(keys[b]@ == nk[b]@);
        }
    }
    assert forall|q: Seq<u8>| new_m.contains_key(q) <==> old_m.insert(k@, e).contains_key(q) by {
        if new_m.contains_key(q) && q != k@ {
            let j = choose|j: int| 0 <= j < nk.len() && #[trigger] nk[j]@ == q;
            assert(keys[j]@ == q);
        }
        if old_m.contains_key(q) {
            let j = choose|j: int| 0 <= j < keys.len() && #[trigger] keys[j]@ == q;
            assert(nk[j]@ == q);
        }
        if q == k@ {
            assert(nk[keys.len() as int]@ == q);
        }
    }
    assert forall|q: Seq<u8>| #[trigger] new_m.contains_key(q) implies new_m[q] == old_m.insert(
        k@,
        e,
    )[q] by {
        let j = choose|j: int| 0 <= j < nk.len() && #[trigger] nk[j]@ == q;
        lemma_view_at(nk, ne, j);
        if j < keys.len() {
            assert(nk[j] == keys[j]);
            lemma_view_at(keys, entries, j);
        }
    }
    assert(new_m =~= old_m.insert(k@, e));
}

proof fn lemma_view_update<V>(keys: Seq<Vec<u8>>, entries: Seq<LruEntry<V>>, i: int, e: LruEntry<V>)
    requires
        keys_unique(keys),
        keys.len() == entries.len(),
        0 <= i < keys.len(),
    ensures
        view_of(keys, entries.update(i, e)) == view_of(keys, entries).insert(keys[i]@, e),
{
    let ne = entries.update(i, e);
    let old_m = view_of(keys, entries);
    let new_m = view_of(keys, ne);
    assert forall|q: Seq<u8>| #[trigger] new_m.contains_key(q) implies new_m[q] == old_m.insert(
        keys[i]@,
        e,
    )[q] by {
        let j = choose|j: int| 0 <= j < keys.len() && #[trigger] keys[j]@ == q;
        lemma_view_at(keys, ne, j);
        lemma_view_at(keys, entries, j);
    }
    assert(holds_key(keys, keys[i]@));
    assert(new_m =~= old_m.insert(keys[i]@, e));
}

impl<V> View for LruCache<V> {
    type V = Map<Seq<u8>, LruEntry<V>>;

    closed spec fn view(&self) -> Map<Seq<u8>, LruEntry<V>> {
        view_of(self.keys@, self.entries@)
    }
}

impl<V> LruCache<V> {
    /// The cache's internal consistency: one entry per key, the running
    /// weight is the sum of the entries' weights and within the capacity.
    pub closed spec fn wf(&self) -> bool {
        &&& self.keys@.len() == self.entries@.len()
        &&& keys_unique(self.keys@)
        &&& self.weight as nat == sum_weights(self.entries@)
        &&& self.weight <= self.capacity
    }

    /// The fixed byte budget.
    pub closed spec fn spec_capacity(&self) -> nat {
        self.capacity as nat
    }

    /// The sum of the weights of the stored entries.
    pub closed spec fn spec_weight(&self) -> nat {
        self.weight as nat
    }

    /// The weight of a consistent cache never exceeds its capacity.
    pub proof fn lemma_weight_bound(&self)
        requires
            self.wf(),
        ensures
            self.spec_weight() <= self.spec_capacity(),
    {
    }

    proof fn lemma_at(&self, i: int)
        requires
            self.wf(),
            0 <= i < self.keys@.len(),
        ensures
            self@.contains_key(self.keys@[i]@),
            self@[self.keys@[i]@] == self.entries@[i],
    {
        lemma_view_at(self.keys@, self.entries@, i);
    }

    /// An empty cache with the given byte budget.
    pub fn new(capacity: Weight) -> (r: LruCache<V>)
        ensures
            r.wf(),
            r@ == Map::<Seq<u8>, LruEntry<V>>::empty(),
            r.spec_capacity() == capacity,
            r.spec_weight() == 0,
    {
        let r = LruCache { keys: Vec::new(), entries: Vec::new(), capacity: capacity, weight: 0 };
        assert(r@ =~= Map::<Seq<u8>, LruEntry<V>>::empty());
        r
    }

    /// The fixed byte budget.
    pub fn capacity(&self) -> (r: Weight)
        ensures
            r as nat == self.spec_capacity(),
    {
        self.capacity
    }

    /// The sum of the weights of the stored entries.
    pub fn weight(&self) -> (r: Weight)
        ensures
            r as nat == self.spec_weight(),
    {
        self.weight
    }

    /// Removes every entry.
    pub fn clear(&mut self)
        ensures
            final(self).wf(),
            final(self)@ == Map::<Seq<u8>, LruEntry<V>>::empty(),
            final(self).spec_capacity() == old(self).spec_capacity(),
            final(self).spec_weight() == 0,
    {
        self.keys.clear();
        self.entries.clear();
        self.weight = 0;
        assert(self@ =~= Map::<Seq<u8>, LruEntry<V>>::empty());
    }

    /// The position of `key`, if it is held (expired or not).
    fn locate(&self, key: &[u8]) -> (r: Option<usize>)
        requires
            self.wf(),
        ensures
            match r {
                Some(i) => i < self.keys@.len() && self.keys@[i as int]@ == key@,
                None => !self@.contains_key(key@),
            },
    {
        let mut i: usize = 0;
        while i < self.keys.len()
            invariant
                self.wf(),
                i <= self.keys@.len(),
                forall|j: int| 0 <= j < i ==> #[trigger] self.keys@[j]@ != key@,
            decreases self.keys@.len() - i,
        {
            if bytes_equal(self.keys[i].as_slice(), key) {
                return Some(i);
            }
            i = i + 1;
        }
        None
    }

    /// The whole entry under `key`, if it is held and live at `now`, without
    /// touching its recency.
    pub fn peek_entry(&self, key: &[u8], now: Timestamp) -> (r: Option<&LruEntry<V>>)
        requires
            self.wf(),
        ensures
            r == if is_live(self@, key@, now) {
                Some(&self@[key@])
            } else {
                None
            },
    {
        match self.locate(key) {
            None => None,
            Some(i) => {
                proof {
                    self.lemma_at(i as int);
                }
                let entry = &self.entries[i];
                if is_expired_at(entry.expires, now) {
                    None
                } else {
                    Some(entry)
                }
            },
        }
    }

    /// The value under `key`, if it is held and live at `now`, without
    /// touching its recency.
    pub fn fast_get(&self, key: &[u8], now: Timestamp) -> (r: Option<&V>)
        requires
            self.wf(),
        ensures
            r == if is_live(self@, key@, now) {
                Some(&self@[key@].data)
            } else {
                None
            },
    {
        match self.peek_entry(key, now) {
            None => None,
            Some(entry) => Some(&entry.data),
        }
    }

    /// Whether `key` is held and live at `now`; recency is left alone.
    pub fn contains(&self, key: &[u8], now: Timestamp) -> (r: bool)
        requires
            self.wf(),
        ensures
            r == is_live(self@, key@, now),
    {
        self.fast_get(key, now).is_some()
    }

    /// Removes the entry at position `i`.
    fn delete_at(&mut self, i: usize)
        requires
            old(self).wf(),
            i < old(self).keys@.len(),
        ensures
            final(self).wf(),
            final(self)@ == old(self)@.remove(old(self).keys@[i as int]@),
            final(self).capacity == old(self).capacity,
            final(self).weight == old(self).weight - old(self).entries@[i as int].weight,
            final(self).keys@.len() == old(self).keys@.len() - 1,
    {
        proof {
            self.lemma_at(i as int);
            lemma_view_remove(self.keys@, self.entries@, i as int);
            lemma_sum_remove(self.entries@, i as int);
        }
        let w = self.entries[i].weight;
        self.keys.remove(i);
        self.entries.remove(i);
        self.weight = self.weight - w;
    }

    /// Removes `key` from the cache, expired or not; tells whether it was held.
    pub fn delete(&mut self, key: &[u8]) -> (r: bool)
        requires
            old(self).wf(),
        ensures
            final(self).wf(),
            r == old(self)@.contains_key(key@),
            final(self)@ == old(self)@.remove(key@),
            final(self).spec_capacity() == old(self).spec_capacity(),
            final(self).spec_weight() == old(self).spec_weight() - (if r {
                old(self)@[key@].weight as nat
            } else {
                0
            }),
    {
        match self.locate(key) {
            None => {
                assert(self@.remove(key@) =~= self@);
                false
            },
            Some(i) => {
                proof {
                    self.lemma_at(i as int);
                }
                self.delete_at(i);
                true
            },
        }
    }

    /// Looks `key` up as `get` does and hands back its whole entry.
    pub fn get_full_entry(&mut self, key: &[u8], now: Timestamp) -> (r: Option<&LruEntry<V>>)
        requires
            old(self).wf(),
        ensures
            final(self).wf(),
            final(self).spec_capacity() == old(self).spec_capacity(),
            final(self).spec_weight() == old(self).spec_weight(),
            if is_live(old(self)@, key@, now) {
                &&& final(self)@ == old(self)@.insert(key@, refreshed(old(self)@[key@], now))
                &&& r == Some(&final(self)@[key@])
            } else {
                &&& final(self)@ == old(self)@
                &&& r is None
            },
    {
        match self.locate(key) {
            None => None,
            Some(i) => {
                proof {
                    self.lemma_at(i as int);
                }
                if is_expired_at(self.entries[i].expires, now) {
                    return None;
                }
                if self.entries[i].used != now {
                    proof {
                        let e = refreshed(self.entries@[i as int], now);
                        lemma_view_update(self.keys@, self.entries@, i as int, e);
                        lemma_sum_update(self.entries@, i as int, e);
                    }
                    self.entries[i].used = now;
                } else {
                    assert(self.entries@[i as int] == refreshed(self.entries@[i as int], now));
                    assert(self@ =~= self@.insert(key@, refreshed(self@[key@], now)));
                }
                proof {
                    self.lemma_at(i as int);
                }
                Some(&self.entries[i])
            },
        }
    }

    /// The value under `key` if it is live at `now`; a hit moves the entry's
    /// last use to `now`.
    pub fn get(&mut self, key: &[u8], now: Timestamp) -> (r: Option<&V>)
        requires
            old(self).wf(),
        ensures
            final(self).wf(),
            final(self).spec_capacity() == old(self).spec_capacity(),
            final(self).spec_weight() == old(self).spec_weight(),
            if is_live(old(self)@, key@, now) {
                &&& final(self)@ == old(self)@.insert(key@, refreshed(old(self)@[key@], now))
                &&& r == Some(&old(self)@[key@].data)
            } else {
                &&& final(self)@ == old(self)@
                &&& r is None
            },
    {
        match self.get_full_entry(key, now) {
            None => None,
            Some(entry) => Some(&entry.data),
        }
    }

    /// Sets the expiry of a live `key` to `expires` and its last use to `now`;
    /// tells whether the key was live.
    pub fn touch(&mut self, key: &[u8], expires: Option<Timestamp>, now: Timestamp) -> (r: bool)
        requires
            old(self).wf(),
        ensures
            final(self).wf(),
            final(self).spec_capacity() == old(self).spec_capacity(),
            final(self).spec_weight() == old(self).spec_weight(),
            r == is_live(old(self)@, key@, now),
            r ==> final(self)@ == old(self)@.insert(
                key@,
                retimed(old(self)@[key@], expires, now),
            ),
            !r ==> final(self)@ == old(self)@,
    {
        match self.locate(key) {
            None => false,
            Some(i) => {
                proof {
                    self.lemma_at(i as int);
                }
                if is_expired_at(self.entries[i].expires, now) {
                    return false;
                }
                proof {
                    let e = retimed(self.entries@[i as int], expires, now);
                    lemma_view_update(self.keys@, self.entries@, i as int, e);
                    lemma_sum_update(self.entries@, i as int, e);
                }
                let ghost before = self.entries@;
                self.entries[i].expires = expires;
                self.entries[i].used = now;
                assert(self.entries@ =~= before.update(
                    i as int,
                    retimed(before[i as int], expires, now),
                ));
                true
            },
        }
    }
}

/// `e` with its last use moved to `now`.
pub open spec fn refreshed<V>(e: LruEntry<V>, now: Timestamp) -> LruEntry<V> {
    LruEntry { data: e.data, used: now, expires: e.expires, weight: e.weight }
}

/// `e` with a new expiry and its last use moved to `now`.
pub open spec fn retimed<V>(e: LruEntry<V>, expires: Option<Timestamp>, now: Timestamp) -> LruEntry<
    V,
> {
    LruEntry { data: e.data, used: now, expires: expires, weight: e.weight }
}

/// Whether an entry with expiry `expires` is expired at `now`.
pub fn is_expired_at(expires: Option<Timestamp>, now: Timestamp) -> (r: bool)
    ensures
        r == is_expired(expires, now),
{
    match expires {
        Some(ts) => ts < now,
        None => false,
    }
}

/// The weight of an entry for `key` holding `value`.
pub fn compute_weight<K: HasWeight, V: HasWeight>(key: &K, value: &V) -> (r: Weight)
    ensures
        r as nat == entry_weight(key.spec_weight(), value.spec_weight()),
{
    let kw = key.weight();
    let vw = value.weight();
    if kw > (usize::MAX - ENTRY_OVERHEAD) / 3 {
        return usize::MAX;
    }
    let base = 3 * kw + ENTRY_OVERHEAD;
    if vw > usize::MAX - base {
        usize::MAX
    } else {
        base + vw
    }
}

proof fn lemma_stamp_lt_transitive(
    t1: Timestamp,
    k1: Seq<u8>,
    t2: Timestamp,
    k2: Seq<u8>,
    t3: Timestamp,
    k3: Seq<u8>,
)
    requires
        stamp_lt(t1, k1, t2, k2),
        stamp_lt(t2, k2, t3, k3),
    ensures
        stamp_lt(t1, k1, t3, k3),
{
    if t1 == t2 && t2 == t3 {
        lemma_bytes_lt_transitive(k1, k2, k3);
    }
}

proof fn lemma_stamp_lt_total(t1: Timestamp, k1: Seq<u8>, t2: Timestamp, k2: Seq<u8>)
    requires
        k1 != k2,
    ensures
        stamp_lt(t1, k1, t2, k2) || stamp_lt(t2, k2, t1, k1),
{
    lemma_bytes_lt_total(k1, k2);
}

proof fn lemma_stamp_lt_asymmetric(t1: Timestamp, k1: Seq<u8>, t2: Timestamp, k2: Seq<u8>)
    requires
        stamp_lt(t1, k1, t2, k2),
    ensures
        !stamp_lt(t2, k2, t1, k1),
{
    if t1 == t2 {
        lemma_bytes_lt_asymmetric(k1, k2);
    }
}

/// Compares `(t1, k1)` with `(t2, k2)`: by timestamp, ties broken by key.
fn stamp_less(t1: Timestamp, k1: &[u8], t2: Timestamp, k2: &[u8]) -> (r: bool)
    ensures
        r == stamp_lt(t1, k1@, t2, k2@),
{
    t1 < t2 || (t1 == t2 && bytes_less(k1, k2))
}

impl<V> LruCache<V> {
    /// Position `b` holds the earliest `(expiry, key)` pair among the first
    /// `n` positions that expire.
    spec fn first_expiring_among(&self, b: int, n: int) -> bool {
        &&& 0 <= b < n
        &&& self.entries@[b].expires is Some
        &&& forall|j: int|
            #![trigger self.entries@[j]]
            0 <= j < n && j != b && self.entries@[j].expires is Some ==> stamp_lt(
                self.entries@[b].expires->0,
                self.keys@[b]@,
                self.entries@[j].expires->0,
                self.keys@[j]@,
            )
    }

    /// Position `b` holds the earliest `(used, key)` pair among the first `n`.
    spec fn least_recent_among(&self, b: int, n: int) -> bool {
        &&& 0 <= b < n
        &&& forall|j: int|
            #![trigger self.entries@[j]]
            0 <= j < n && j != b ==> stamp_lt(
                self.entries@[b].used,
                self.keys@[b]@,
                self.entries@[j].used,
                self.keys@[j]@,
            )
    }

    proof fn lemma_first_expiring(&self, b: int)
        requires
            self.wf(),
            self.first_expiring_among(b, self.keys@.len() as int),
        ensures
            is_first_to_expire(self@, self.keys@[b]@),
    {
        self.lemma_at(b);
        let m = self@;
        let k = self.keys@[b]@;
        assert forall|k2: Seq<u8>|
            #![trigger m[k2]]
            m.contains_key(k2) && k2 != k && m[k2].expires is Some implies stamp_lt(
            m[k].expires->0,
            k,
            m[k2].expires->0,
            k2,
        ) by {
            let j = choose|j: int| 0 <= j < self.keys@.len() && #[trigger] self.keys@[j]@ == k2;
            self.lemma_at(j);
            assert(self.entries@[j].expires is Some);
        }
    }

    proof fn lemma_least_recent(&self, b: int)
        requires
            self.wf(),
            self.least_recent_among(b, self.keys@.len() as int),
        ensures
            is_least_recent(self@, self.keys@[b]@),
    {
        self.lemma_at(b);
        let m = self@;
        let k = self.keys@[b]@;
        assert forall|k2: Seq<u8>|
            #![trigger m[k2]]
            m.contains_key(k2) && k2 != k implies stamp_lt(m[k].used, k, m[k2].used, k2) by {
            let j = choose|j: int| 0 <= j < self.keys@.len() && #[trigger] self.keys@[j]@ == k2;
            self.lemma_at(j);
            assert(self.entries@[j].used == m[k2].used);
        }
    }

    /// The position of the entry that eviction takes next.
    fn victim(&self, now: Timestamp) -> (r: usize)
        requires
            self.wf(),
            self.keys@.len() > 0,
        ensures
            r < self.keys@.len(),
            is_victim(self@, self.keys@[r as int]@, now),
    {
        let n = self.keys.len();
        let mut best: Option<usize> = None;
        let mut i: usize = 0;
        while i < n
            invariant
                self.wf(),
                n == self.keys@.len(),
                i <= n,
                match best {
                    Some(b) => self.first_expiring_among(b as int, i as int),
                    None => forall|j: int|
                        0 <= j < i ==> (#[trigger] self.entries@[j]).expires is None,
                },
            decreases n - i,
        {
            if let Some(e) = self.entries[i].expires {
                let better = match best {
                    None => true,
                    Some(b) => stamp_less(
                        e,
                        self.keys[i].as_slice(),
                        self.entries[b].expires.unwrap(),
                        self.keys[b].as_slice(),
                    ),
                };
                proof {
                    if let Some(b) = best {
                        let bi = b as int;
                        let eb = self.entries@[bi].expires->0;
                        assert(self.keys@[bi]@ != self.keys@[i as int]@);
                        if better {
                            assert forall|j: int|
                                #![trigger self.entries@[j]]
                                0 <= j < i + 1 && j != i && self.entries@[j].expires
                                    is Some implies stamp_lt(
                                e,
                                self.keys@[i as int]@,
                                self.entries@[j].expires->0,
                                self.keys@[j]@,
                            ) by {
                                if j != bi {
                                    lemma_stamp_lt_transitive(
                                        e,
                                        self.keys@[i as int]@,
                                        eb,
                                        self.keys@[bi]@,
                                        self.entries@[j].expires->0,
                                        self.keys@[j]@,
                                    );
                                }
                            }
                        } else {
                            lemma_stamp_lt_total(e, self.keys@[i as int]@, eb, self.keys@[bi]@);
                        }
                    }
                }
                if better {
                    best = Some(i);
                }
            }
            i = i + 1;
        }
        if let Some(b) = best {
            proof {
                self.lemma_first_expiring(b as int);
            }
            if is_expired_at(self.entries[b].expires, now) {
                return b;
            }
            proof {
                let k = self.keys@[b as int]@;
                if has_expired_head(self@, now) {
                    let k2 = choose|k2: Seq<u8>|
                        is_first_to_expire(self@, k2) && is_expired(self@[k2].expires, now);
                    if k2 != k {
                        lemma_stamp_lt_asymmetric(
                            self@[k].expires->0,
                            k,
                            self@[k2].expires->0,
                            k2,
                        );
                    }
                }
            }
        } else {
            proof {
                if has_expired_head(self@, now) {
                    let k2 = choose|k2: Seq<u8>|
                        is_first_to_expire(self@, k2) && is_expired(self@[k2].expires, now);
                    let j = choose|j: int| 0 <= j < self.keys@.len() && #[trigger] self.keys@[j]@ == k2;
                    self.lemma_at(j);
                }
            }
        }
        let mut lru: usize = 0;
        let mut i: usize = 1;
        while i < n
            invariant
                self.wf(),
                n == self.keys@.len(),
                1 <= i <= n,
                self.least_recent_among(lru as int, i as int),
                !has_expired_head(self@, now),
            decreases n - i,
        {
            let better = stamp_less(
                self.entries[i].used,
                self.keys[i].as_slice(),
                self.entries[lru].used,
                self.keys[lru].as_slice(),
            );
            proof {
                let li = lru as int;
                let ui = self.entries@[i as int].used;
                let ul = self.entries@[li].used;
                assert(self.keys@[li]@ != self.keys@[i as int]@);
                if better {
                    assert forall|j: int|
                        #![trigger self.entries@[j]]
                        0 <= j < i + 1 && j != i implies stamp_lt(
                        ui,
                        self.keys@[i as int]@,
                        self.entries@[j].used,
                        self.keys@[j]@,
                    ) by {
                        if j != li {
                            lemma_stamp_lt_transitive(
                                ui,
                                self.keys@[i as int]@,
                                ul,
                                self.keys@[li]@,
                                self.entries@[j].used,
                                self.keys@[j]@,
                            );
                        }
                    }
                } else {
                    lemma_stamp_lt_total(ui, self.keys@[i as int]@, ul, self.keys@[li]@);
                }
            }
            if better {
                lru = i;
            }
            i = i + 1;
        }
        proof {
            self.lemma_least_recent(lru as int);
        }
        lru
    }

    /// Evicts one entry: the first to expire if it has expired at `now`,
    /// otherwise the least recently used.
    fn deweight_once(&mut self, now: Timestamp)
        requires
            old(self).wf(),
            old(self).keys@.len() > 0,
        ensures
            final(self).wf(),
            final(self).keys@.len() == old(self).keys@.len() - 1,
            final(self).capacity == old(self).capacity,
            final(self).weight <= old(self).weight,
            exists|k: Seq<u8>|
                #[trigger] is_victim(old(self)@, k, now) && final(self)@ == old(self)@.remove(k)
                    && final(self).weight == old(self).weight - old(self)@[k].weight,
    {
        let v = self.victim(now);
        let ghost k = self.keys@[v as int]@;
        proof {
            self.lemma_at(v as int);
        }
        self.delete_at(v);
        assert(is_victim(old(self)@, k, now));
    }

    /// Evicts until the weight is at most `target`, or nothing is left.
    fn deweight(&mut self, target: Weight, now: Timestamp)
        requires
            old(self).wf(),
        ensures
            final(self).wf(),
            final(self).capacity == old(self).capacity,
            final(self).weight <= target || final(self)@.dom() == Set::<Seq<u8>>::empty(),
            final(self).weight <= target || final(self).weight == 0,
            old(self).weight <= target ==> final(self)@ == old(self)@,
            forall|k: Seq<u8>|
                #[trigger] final(self)@.contains_key(k) ==> old(self)@.contains_key(k)
                    && final(self)@[k] == old(self)@[k],
            evicted_down_to(
                old(self)@,
                old(self).weight as nat,
                final(self)@,
                final(self).weight as nat,
                now,
                target as nat,
            ),
    {
        let ghost mut maps: Seq<Map<Seq<u8>, LruEntry<V>>> = seq![self@];
        let ghost mut ws: Seq<nat> = seq![self.weight as nat];
        while self.weight > target && self.keys.len() > 0
            invariant
                self.wf(),
                self.capacity == old(self).capacity,
                self.weight <= old(self).weight,
                old(self).weight <= target ==> self@ == old(self)@,
                forall|k: Seq<u8>|
                    #[trigger] self@.contains_key(k) ==> old(self)@.contains_key(k) && self@[k]
                        == old(self)@[k],
                evict_chain(
                    maps,
                    ws,
                    old(self)@,
                    old(self).weight as nat,
                    self@,
                    self.weight as nat,
                    now,
                    target as nat,
                ),
            decreases self.keys@.len(),
        {
            let ghost m0 = self@;
            let ghost w0 = self.weight as nat;
            self.deweight_once(now);
            proof {
                let n = maps.len();
                assert(evict_step(m0, w0, self@, self.weight as nat, now, target as nat));
                let nmaps = maps.push(self@);
                let nws = ws.push(self.weight as nat);
                assert forall|i: int| 0 <= i < nmaps.len() - 1 implies #[trigger] evict_step(
                    nmaps[i],
                    nws[i],
                    nmaps[i + 1],
                    nws[i + 1],
                    now,
                    target as nat,
                ) by {
                    if i < n - 1 {
                        assert(nmaps[i] == maps[i] && nmaps[i + 1] == maps[i + 1]);
                        assert(nws[i] == ws[i] && nws[i + 1] == ws[i + 1]);
                    } else {
                        assert(nmaps[i] == m0 && nws[i] == w0);
                    }
                }
                maps = nmaps;
                ws = nws;
            }
        }
        if self.keys.len() == 0 {
            assert(self@.dom() =~= Set::<Seq<u8>>::empty());
            assert(sum_weights(self.entries@) == 0);
        }
        assert(evict_chain(
            maps,
            ws,
            old(self)@,
            old(self).weight as nat,
            self@,
            self.weight as nat,
            now,
            target as nat,
        ));
    }
}

/// A fresh entry for `data`, last used at `now`.
pub open spec fn fresh_entry<V>(data: V, expires: Option<Timestamp>, now: Timestamp, weight: nat) -> LruEntry<V> {
    LruEntry { data: data, used: now, expires: expires, weight: weight as Weight }
}

/// The weight that `key` holds in `m`, or 0 if it is not there.
pub open spec fn held_weight<V>(m: Map<Seq<u8>, LruEntry<V>>, key: Seq<u8>) -> nat {
    if m.contains_key(key) {
        m[key].weight as nat
    } else {
        0
    }
}

impl<V: HasWeight> LruCache<V> {
    /// Stores `value` under `key`, replacing what was there. An entry already
    /// expired at `now` is refused and nothing changes. Otherwise the old entry
    /// goes first; an entry heavier than the whole capacity is then refused,
    /// and else entries are evicted (expired first, then least recently used)
    /// until the new one fits.
    pub fn set(&mut self, key: Vec<u8>, value: V, expires: Option<Timestamp>, now: Timestamp) -> (r:
        bool)
        requires
            old(self).wf(),
        ensures
            final(self).wf(),
            final(self).spec_capacity() == old(self).spec_capacity(),
            r == (!is_expired(expires, now) && entry_weight(key@.len(), value.spec_weight())
                <= old(self).spec_capacity()),
            is_expired(expires, now) ==> final(self)@ == old(self)@,
            !is_expired(expires, now) && !r ==> final(self)@ == old(self)@.remove(key@),
            r ==> stored_over(
                old(self)@,
                final(self)@,
                key@,
                fresh_entry(value, expires, now, entry_weight(key@.len(), value.spec_weight())),
            ),
            r ==> final(self).spec_weight() <= final(self).spec_capacity(),
            r ==> evicted_down_to(
                old(self)@.remove(key@),
                (old(self).spec_weight() - held_weight(old(self)@, key@)) as nat,
                final(self)@.remove(key@),
                (final(self).spec_weight() - entry_weight(key@.len(), value.spec_weight())) as nat,
                now,
                (old(self).spec_capacity() - entry_weight(key@.len(), value.spec_weight())) as nat,
            ),
            r && old(self).spec_weight() - held_weight(old(self)@, key@) + entry_weight(
                key@.len(),
                value.spec_weight(),
            ) <= old(self).spec_capacity() ==> final(self)@ == old(self)@.insert(
                key@,
                fresh_entry(value, expires, now, entry_weight(key@.len(), value.spec_weight())),
            ),
    {
        if is_expired_at(expires, now) {
            return false;
        }
        self.delete(key.as_slice());
        let ghost deleted = self@;
        let ghost deleted_weight = self.weight;
        let weight = compute_weight(&key, &value);
        if weight > self.capacity {
            return false;
        }
        let capacity = self.capacity;
        self.deweight(capacity - weight, now);
        let ghost cleared = self@;
        let ghost cleared_weight = self.weight;
        assert(deleted == old(self)@.remove(key@));
        assert(!holds_key(self.keys@, key@)) by {
            assert(!self@.contains_key(key@));
        }
        proof {
            let e = fresh_entry(value, expires, now, weight as nat);
            lemma_view_push(self.keys@, self.entries@, key, e);
            assert(self.entries@.push(e).drop_last() =~= self.entries@);
        }
        let entry = LruEntry { data: value, used: now, expires: expires, weight: weight };
        self.keys.push(key);
        self.entries.push(entry);
        self.weight = self.weight + weight;
        proof {
            let e = fresh_entry(value, expires, now, weight as nat);
            assert(self@ == cleared.insert(key@, e));
            assert(self@.remove(key@) =~= cleared);
            assert forall|k2: Seq<u8>|
                #[trigger] self@.contains_key(k2) && k2 != key@ implies old(self)@.contains_key(k2)
                && self@[k2] == old(self)@[k2] by {
                assert(cleared.contains_key(k2));
            }
        }
        true
    }
}

spec fn key_views(s: Seq<Vec<u8>>) -> Seq<Seq<u8>> {
    s.map_values(|v: Vec<u8>| v@)
}

/// Each byte string of `s` sorts strictly before the ones after it.
pub open spec fn strictly_sorted(s: Seq<Seq<u8>>) -> bool {
    forall|a: int, b: int| 0 <= a < b < s.len() ==> bytes_lt(#[trigger] s[a], #[trigger] s[b])
}

/// The keys that are live at `now`.
pub open spec fn live_keys<V>(m: Map<Seq<u8>, LruEntry<V>>, now: Timestamp) -> Set<Seq<u8>> {
    m.dom().filter(|k: Seq<u8>| is_live(m, k, now))
}

spec fn live_among<V>(keys: Seq<Vec<u8>>, entries: Seq<LruEntry<V>>, i: int, now: Timestamp) -> Set<
    Seq<u8>,
> {
    Set::new(
        |k: Seq<u8>|
            exists|j: int|
                0 <= j < i && #[trigger] keys[j]@ == k && !is_expired(entries[j].expires, now),
    )
}

proof fn lemma_sorted_insert(s: Seq<Seq<u8>>, p: int, k: Seq<u8>)
    requires
        strictly_sorted(s),
        0 <= p <= s.len(),
        forall|a: int| 0 <= a < p ==> bytes_lt(#[trigger] s[a], k),
        p < s.len() ==> bytes_lt(k, s[p]),
    ensures
        strictly_sorted(s.insert(p, k)),
{
    let t = s.insert(p, k);
    assert forall|a: int, b: int| 0 <= a < b < t.len() implies bytes_lt(
        #[trigger] t[a],
        #[trigger] t[b],
    ) by {
        if a < p && b == p {
        } else if a < p && b > p {
            assert(t[b] == s[b - 1]);
            if b - 1 > p {
                lemma_bytes_lt_transitive(k, s[p], s[b - 1]);
            }
            lemma_bytes_lt_transitive(t[a], k, t[b]);
        } else if a == p {
            assert(t[b] == s[b - 1]);
            if b - 1 > p {
                lemma_bytes_lt_transitive(k, s[p], s[b - 1]);
            }
        } else if a > p {
            assert(t[a] == s[a - 1]);
            assert(t[b] == s[b - 1]);
        } else {
            assert(t[a] == s[a]);
            assert(t[b] == s[b]);
        }
    }
}

proof fn lemma_insert_to_set(s: Seq<Seq<u8>>, p: int, k: Seq<u8>)
    requires
        0 <= p <= s.len(),
    ensures
        s.insert(p, k).to_set() == s.to_set().insert(k),
{
    let t = s.insert(p, k);
    assert forall|x: Seq<u8>| t.to_set().contains(x) <==> s.to_set().insert(k).contains(x) by {
        if t.contains(x) {
            let a = choose|a: int| 0 <= a < t.len() && t[a] == x;
            if a < p {
                assert(s[a] == x);
            } else if a > p {
                assert(s[a - 1] == x);
            }
        }
        if s.contains(x) {
            let a = choose|a: int| 0 <= a < s.len() && s[a] == x;
            if a < p {
                assert(t[a] == x);
            } else {
                assert(t[a + 1] == x);
            }
        }
        if x == k {
            assert(t[p] == x);
        }
    }
    assert(t.to_set() =~= s.to_set().insert(k));
}

impl<V> LruCache<V> {
    /// Every key that is live at `now`, in byte-lexicographic order.
    pub fn all_keys(&self, now: Timestamp) -> (r: Vec<Vec<u8>>)
        requires
            self.wf(),
        ensures
            strictly_sorted(r@.map_values(|v: Vec<u8>| v@)),
            r@.map_values(|v: Vec<u8>| v@).to_set() == live_keys(self@, now),
    {
        let n = self.keys.len();
        let mut ret: Vec<Vec<u8>> = Vec::new();
        let mut i: usize = 0;
        assert(key_views(ret@).to_set() =~= live_among(self.keys@, self.entries@, 0, now));
        while i < n
            invariant
                self.wf(),
                n == self.keys@.len(),
                i <= n,
                strictly_sorted(key_views(ret@)),
                key_views(ret@).to_set() == live_among(self.keys@, self.entries@, i as int, now),
            decreases n - i,
        {
            let ghost before = key_views(ret@);
            if !is_expired_at(self.entries[i].expires, now) {
                let k = copy_bytes(self.keys[i].as_slice());
                let mut pos: usize = 0;
                while pos < ret.len() && bytes_less(ret[pos].as_slice(), k.as_slice())
                    invariant
                        pos <= ret@.len(),
                        before == key_views(ret@),
                        forall|a: int| 0 <= a < pos ==> bytes_lt(#[trigger] before[a], k@),
                    decreases ret@.len() - pos,
                {
                    pos = pos + 1;
                }
                proof {
                    let p = pos as int;
                    if p < before.len() {
                        assert(before.to_set().contains(before[p]));
                        let j = choose|j: int|
                            0 <= j < i && #[trigger] self.keys@[j]@ == before[p] && !is_expired(
                                self.entries@[j].expires,
                                now,
                            );
                        assert(self.keys@[j]@ != self.keys@[i as int]@);
                        lemma_bytes_lt_total(k@, before[p]);
                    }
                    lemma_sorted_insert(before, p, k@);
                    lemma_insert_to_set(before, p, k@);
                }
                ret.insert(pos, k);
                proof {
                    assert(key_views(ret@) =~= before.insert(pos as int, self.keys@[i as int]@));
                    assert(live_among(self.keys@, self.entries@, i + 1, now) =~= live_among(
                        self.keys@,
                        self.entries@,
                        i as int,
                        now,
                    ).insert(self.keys@[i as int]@));
                }
            } else {
                assert(live_among(self.keys@, self.entries@, i + 1, now) =~= live_among(
                    self.keys@,
                    self.entries@,
                    i as int,
                    now,
                ));
            }
            i = i + 1;
        }
        proof {
            assert forall|k: Seq<u8>|
                live_among(self.keys@, self.entries@, n as int, now).contains(k) <==> live_keys(
                    self@,
                    now,
                ).contains(k) by {
                if live_keys(self@, now).contains(k) {
                    let j = choose|j: int| 0 <= j < n && #[trigger] self.keys@[j]@ == k;
                    self.lemma_at(j);
                }
                if live_among(self.keys@, self.entries@, n as int, now).contains(k) {
                    let j = choose|j: int|
                        0 <= j < n && #[trigger] self.keys@[j]@ == k && !is_expired(
                            self.entries@[j].expires,
                            now,
                        );
                    self.lemma_at(j);
                }
            }
            assert(live_among(self.keys@, self.entries@, n as int, now) =~= live_keys(self@, now));
        }
        ret
    }
}

impl<V> LruCache<V> {
    /// The recency index: the pair of last use and key of each entry.
    pub closed spec fn recency_index(&self) -> Set<(Timestamp, Seq<u8>)> {
        Set::new(
            |p: (Timestamp, Seq<u8>)|
                exists|i: int|
                    0 <= i < self.keys@.len() && p.0 == self.entries@[i].used && p.1
                        == #[trigger] self.keys@[i]@,
        )
    }

    /// The expiration index: the pair of expiry and key of each entry that
    /// expires.
    pub closed spec fn expiration_index(&self) -> Set<(Timestamp, Seq<u8>)> {
        Set::new(
            |p: (Timestamp, Seq<u8>)|
                exists|i: int|
                    0 <= i < self.keys@.len() && self.entries@[i].expires == Some(p.0) && p.1
                        == #[trigger] self.keys@[i]@,
        )
    }

    /// Each held key has exactly one pair in the recency index, carrying its
    /// last use, and one in the expiration index, carrying its expiry, if and
    /// only if it expires; no pair names a key that is not held.
    pub proof fn lemma_index_consistency(&self)
        requires
            self.wf(),
        ensures
            forall|t: Timestamp, k: Seq<u8>|
                #[trigger] self.recency_index().contains((t, k)) <==> self@.contains_key(k)
                    && self@[k].used == t,
            forall|t: Timestamp, k: Seq<u8>|
                #[trigger] self.expiration_index().contains((t, k)) <==> self@.contains_key(k)
                    && self@[k].expires == Some(t),
    {
        assert forall|t: Timestamp, k: Seq<u8>|
            #[trigger] self.recency_index().contains((t, k)) <==> self@.contains_key(k)
                && self@[k].used == t by {
            if self.recency_index().contains((t, k)) {
                let i = choose|i: int|
                    0 <= i < self.keys@.len() && t == self.entries@[i].used && k
                        == #[trigger] self.keys@[i]@;
                self.lemma_at(i);
            }
            if self@.contains_key(k) {
                let i = choose|i: int| 0 <= i < self.keys@.len() && #[trigger] self.keys@[i]@ == k;
                self.lemma_at(i);
            }
        }
        assert forall|t: Timestamp, k: Seq<u8>|
            #[trigger] self.expiration_index().contains((t, k)) <==> self@.contains_key(k)
                && self@[k].expires == Some(t) by {
            if self.expiration_index().contains((t, k)) {
                let i = choose|i: int|
                    0 <= i < self.keys@.len() && self.entries@[i].expires == Some(t) && k
                        == #[trigger] self.keys@[i]@;
                self.lemma_at(i);
            }
            if self@.contains_key(k) {
                let i = choose|i: int| 0 <= i < self.keys@.len() && #[trigger] self.keys@[i]@ == k;
                self.lemma_at(i);
            }
        }
    }
}

/// `delete(k); delete(k)`: the first reports whether `k` was held, the second
/// finds it gone and leaves the cache as the first left it.
pub proof fn lemma_delete_idempotent<V>(m: Map<Seq<u8>, LruEntry<V>>, k: Seq<u8>)
    ensures
        !m.remove(k).contains_key(k),
        m.remove(k).remove(k) == m.remove(k),
{
    assert(m.remove(k).remove(k) =~= m.remove(k));
}

} // verus!
