//! The bounded map: a fixed-capacity table of keyed entries with an age
//! stamp per entry, a strictly increasing recency clock, and eviction of
//! the least recently used entry when an insertion would grow the table
//! past its capacity.
//!
//! The mathematical model of a map value is a pair of finite maps keyed by
//! the key type's view: the contents (`self@`, key to value) and the age
//! table (`self.ages()`, key to age stamp). Every operation's contract
//! states exactly how it moves both.
use vstd::prelude::*;
use crate::guard::MapGuard;
use crate::key::CacheKey;

verus! {

/// One table slot: the key, the entry's current age stamp, and the map's
/// own handle on the value.
struct Entry<K, V> {
    key: K,
    age: u64,
    guard: MapGuard<V>,
}

spec fn seq_has_key<K: CacheKey, V>(s: Seq<Entry<K, V>>, kv: K::V) -> bool {
    exists|i: int| 0 <= i < s.len() && (#[trigger] s[i]).key@ == kv
}

spec fn seq_idx<K: CacheKey, V>(s: Seq<Entry<K, V>>, kv: K::V) -> int {
    choose|i: int| 0 <= i < s.len() && (#[trigger] s[i]).key@ == kv
}

spec fn entries_model<K: CacheKey, V>(s: Seq<Entry<K, V>>) -> Map<K::V, V> {
    Map::new(|kv: K::V| seq_has_key(s, kv), |kv: K::V| s[seq_idx(s, kv)].guard@)
}

spec fn ages_model<K: CacheKey, V>(s: Seq<Entry<K, V>>) -> Map<K::V, u64> {
    Map::new(|kv: K::V| seq_has_key(s, kv), |kv: K::V| s[seq_idx(s, kv)].age)
}

spec fn keys_unique<K: CacheKey, V>(s: Seq<Entry<K, V>>) -> bool {
    forall|i: int, j: int| 0 <= i < j < s.len() ==> (#[trigger] s[i]).key@ != (#[trigger] s[j]).key@
}

spec fn ages_unique<K: CacheKey, V>(s: Seq<Entry<K, V>>) -> bool {
    forall|i: int, j: int| 0 <= i < j < s.len() ==> (#[trigger] s[i]).age != (#[trigger] s[j]).age
}

spec fn ages_below<K: CacheKey, V>(s: Seq<Entry<K, V>>, clock: u64) -> bool {
    forall|i: int| 0 <= i < s.len() ==> (#[trigger] s[i]).age < clock
}

proof fn lemma_idx_of<K: CacheKey, V>(s: Seq<Entry<K, V>>, i: int)
    requires
        keys_unique(s),
        0 <= i < s.len(),
    ensures
        seq_has_key(s, s[i].key@),
        seq_idx(s, s[i].key@) == i,
{
    assert(seq_has_key(s, s[i].key@));
    let j = seq_idx(s, s[i].key@);
    if i < j {
        assert(s[i].key@ != s[j].key@);
    } else if j < i {
        assert(s[j].key@ != s[i].key@);
    }
}

proof fn lemma_model_empty<K: CacheKey, V>()
    ensures
        entries_model(Seq::<Entry<K, V>>::empty()) == Map::<K::V, V>::empty(),
        ages_model(Seq::<Entry<K, V>>::empty()) == Map::<K::V, u64>::empty(),
{
    assert(entries_model(Seq::<Entry<K, V>>::empty()) =~= Map::<K::V, V>::empty());
    assert(ages_model(Seq::<Entry<K, V>>::empty()) =~= Map::<K::V, u64>::empty());
}

proof fn lemma_model_push<K: CacheKey, V>(s: Seq<Entry<K, V>>, e: Entry<K, V>)
    requires
        keys_unique(s),
        !seq_has_key(s, e.key@),
    ensures
        keys_unique(s.push(e)),
        entries_model(s.push(e)) == entries_model(s).insert(e.key@, e.guard@),
        ages_model(s.push(e)) == ages_model(s).insert(e.key@, e.age),
{
    let s1 = s.push(e);
    assert forall|i: int, j: int| 0 <= i < j < s1.len() implies (#[trigger] s1[i]).key@ != (
    #[trigger] s1[j]).key@ by {
        if j < s.len() {
            assert(s1[i] == s[i] && s1[j] == s[j]);
        } else {
            assert(s1[i] == s[i] && s1[j] == e);
            assert(seq_has_key(s, s[i].key@));
        }
    }
    assert forall|kv: K::V| #[trigger] seq_has_key(s1, kv) implies seq_has_key(s, kv) || kv
        == e.key@ by {
        let i = choose|i: int| 0 <= i < s1.len() && (#[trigger] s1[i]).key@ == kv;
        if i < s.len() {
            assert(s[i].key@ == kv);
        }
    }
    assert forall|kv: K::V| seq_has_key(s, kv) implies #[trigger] seq_has_key(s1, kv) by {
        let i = choose|i: int| 0 <= i < s.len() && (#[trigger] s[i]).key@ == kv;
        assert(s1[i].key@ == kv);
    }
    assert(s1[s.len() as int] == e);
    assert(seq_has_key(s1, e.key@));
    assert forall|kv: K::V| #[trigger] seq_has_key(s1, kv) implies {
        &&& seq_has_key(s, kv) ==> s1[seq_idx(s1, kv)] == s[seq_idx(s, kv)]
        &&& kv == e.key@ ==> s1[seq_idx(s1, kv)] == e
    } by {
        if seq_has_key(s, kv) {
            let i = seq_idx(s, kv);
            assert(0 <= i < s.len() && s[i].key@ == kv);
            assert(s1[i].key@ == kv);
            lemma_idx_of(s1, i);
        }
        if kv == e.key@ {
            lemma_idx_of(s1, s.len() as int);
        }
    }
    assert(entries_model(s1) =~= entries_model(s).insert(e.key@, e.guard@));
    assert(ages_model(s1) =~= ages_model(s).insert(e.key@, e.age));
}

proof fn lemma_model_update<K: CacheKey, V>(s: Seq<Entry<K, V>>, i: int, e: Entry<K, V>)
    requires
        keys_unique(s),
        0 <= i < s.len(),
        e.key@ == s[i].key@,
    ensures
        keys_unique(s.update(i, e)),
        entries_model(s.update(i, e)) == entries_model(s).insert(e.key@, e.guard@),
        ages_model(s.update(i, e)) == ages_model(s).insert(e.key@, e.age),
{
    let s1 = s.update(i, e);
    assert forall|p: int, q: int| 0 <= p < q < s1.len() implies (#[trigger] s1[p]).key@ != (
    #[trigger] s1[q]).key@ by {
        assert(s[p].key@ != s[q].key@);
        assert(s1[p].key@ == s[p].key@ && s1[q].key@ == s[q].key@);
    }
    assert forall|kv: K::V| #[trigger] seq_has_key(s1, kv) <==> seq_has_key(s, kv) by {
        if seq_has_key(s1, kv) {
            let p = choose|p: int| 0 <= p < s1.len() && (#[trigger] s1[p]).key@ == kv;
            assert(s[p].key@ == s1[p].key@);
        }
        if seq_has_key(s, kv) {
            let p = choose|p: int| 0 <= p < s.len() && (#[trigger] s[p]).key@ == kv;
            assert(s1[p].key@ == s[p].key@);
        }
    }
    assert forall|kv: K::V| #[trigger] seq_has_key(s1, kv) implies {
        &&& kv == e.key@ ==> s1[seq_idx(s1, kv)] == e
        &&& kv != e.key@ ==> s1[seq_idx(s1, kv)] == s[seq_idx(s, kv)]
    } by {
        if kv == e.key@ {
            assert(s1[i] == e);
            lemma_idx_of(s1, i);
        } else {
            let p = seq_idx(s, kv);
            assert(0 <= p < s.len() && s[p].key@ == kv);
            assert(p != i);
            assert(s1[p] == s[p]);
            lemma_idx_of(s1, p);
        }
    }
    assert(entries_model(s1) =~= entries_model(s).insert(e.key@, e.guard@));
    assert(ages_model(s1) =~= ages_model(s).insert(e.key@, e.age));
}

proof fn lemma_model_remove<K: CacheKey, V>(s: Seq<Entry<K, V>>, i: int)
    requires
        keys_unique(s),
        0 <= i < s.len(),
    ensures
        keys_unique(s.remove(i)),
        ages_unique(s) ==> ages_unique(s.remove(i)),
        forall|c: u64| ages_below(s, c) ==> ages_below(s.remove(i), c),
        entries_model(s.remove(i)) == entries_model(s).remove(s[i].key@),
        ages_model(s.remove(i)) == ages_model(s).remove(s[i].key@),
{
    let s1 = s.remove(i);
    let kv0 = s[i].key@;
    assert forall|j: int| 0 <= j < s1.len() implies #[trigger] s1[j] == (if j < i {
        s[j]
    } else {
        s[j + 1]
    }) by {}
    assert forall|p: int, q: int| 0 <= p < q < s1.len() implies (#[trigger] s1[p]).key@ != (
    #[trigger] s1[q]).key@ by {
        let p0 = if p < i { p } else { p + 1 };
        let q0 = if q < i { q } else { q + 1 };
        assert(s[p0].key@ != s[q0].key@);
    }
    if ages_unique(s) {
        assert forall|p: int, q: int| 0 <= p < q < s1.len() implies (#[trigger] s1[p]).age != (
        #[trigger] s1[q]).age by {
            let p0 = if p < i { p } else { p + 1 };
            let q0 = if q < i { q } else { q + 1 };
            assert(s[p0].age != s[q0].age);
        }
    }
    assert forall|c: u64| ages_below(s, c) implies ages_below(s1, c) by {
        assert forall|j: int| 0 <= j < s1.len() implies (#[trigger] s1[j]).age < c by {
            let j0 = if j < i { j } else { j + 1 };
            assert(s[j0].age < c);
        }
    }
    assert forall|kv: K::V| #[trigger] seq_has_key(s1, kv) <==> (seq_has_key(s, kv) && kv
        != kv0) by {
        if seq_has_key(s1, kv) {
            let p = choose|p: int| 0 <= p < s1.len() && (#[trigger] s1[p]).key@ == kv;
            let p0 = if p < i { p } else { p + 1 };
            assert(s[p0].key@ == kv);
            if p0 < i {
                assert(s[p0].key@ != s[i].key@);
            } else if i < p0 {
                assert(s[i].key@ != s[p0].key@);
            }
        }
        if seq_has_key(s, kv) && kv != kv0 {
            let p = seq_idx(s, kv);
            assert(0 <= p < s.len() && s[p].key@ == kv);
            assert(p != i);
            if p < i {
                assert(s1[p].key@ == kv);
            } else {
                assert(s1[p - 1].key@ == kv);
            }
        }
    }
    assert forall|kv: K::V| #[trigger] seq_has_key(s1, kv) implies s1[seq_idx(s1, kv)] == s[seq_idx(
        s,
        kv,
    )] by {
        let p = seq_idx(s, kv);
        assert(0 <= p < s.len() && s[p].key@ == kv);
        assert(p != i);
        if p < i {
            assert(s1[p] == s[p]);
            lemma_idx_of(s1, p);
        } else {
            assert(s1[p - 1] == s[p]);
            lemma_idx_of(s1, p - 1);
        }
    }
    assert(entries_model(s1) =~= entries_model(s).remove(kv0));
    assert(ages_model(s1) =~= ages_model(s).remove(kv0));
}

proof fn lemma_model_len<K: CacheKey, V>(s: Seq<Entry<K, V>>)
    requires
        keys_unique(s),
    ensures
        entries_model(s).dom().finite(),
        entries_model(s).dom() == ages_model(s).dom(),
        entries_model(s).len() == s.len(),
        ages_model(s).len() == s.len(),
    decreases s.len(),
{
    assert(entries_model(s).dom() =~= ages_model(s).dom());
    if s.len() == 0 {
        lemma_model_empty::<K, V>();
        assert(s =~= Seq::<Entry<K, V>>::empty());
    } else {
        let s0 = s.drop_last();
        let e = s.last();
        assert(s =~= s0.push(e));
        assert forall|i: int, j: int| 0 <= i < j < s0.len() implies (#[trigger] s0[i]).key@ != (
        #[trigger] s0[j]).key@ by {
            assert(s[i].key@ != s[j].key@);
        }
        if seq_has_key(s0, e.key@) {
            let p = choose|p: int| 0 <= p < s0.len() && (#[trigger] s0[p]).key@ == e.key@;
            assert(s[p].key@ == s[s.len() - 1].key@);
            assert(false);
        }
        lemma_model_len(s0);
        lemma_model_push(s0, e);
        assert(!entries_model(s0).dom().contains(e.key@));
        assert(!ages_model(s0).dom().contains(e.key@));
    }
}

/// A fixed-capacity key/value table with least-recently-used eviction.
///
/// Holds at most `capacity` entries; a fresh-key insertion that would grow
/// it further evicts the entry with the smallest age stamp. Reads and
/// writes stamp the touched entry with a fresh age from a strictly
/// increasing clock, so smaller age means less recently used.
pub struct FixedSizeLruMap<K, V> {
    next_age: u64,
    cap: usize,
    entries: Vec<Entry<K, V>>,
}

impl<K: CacheKey, V> View for FixedSizeLruMap<K, V> {
    type V = Map<<K as View>::V, V>;

    /// The contents: a finite map from key view to cached value.
    closed spec fn view(&self) -> Map<<K as View>::V, V> {
        entries_model(self.entries@)
    }
}

impl<K: CacheKey, V> FixedSizeLruMap<K, V> {
    /// The age table: each present key's current age stamp. Ages are
    /// pairwise distinct and all below `self.clock()`.
    pub closed spec fn ages(self) -> Map<K::V, u64> {
        ages_model(self.entries@)
    }

    /// The configured capacity; fixed at construction.
    pub closed spec fn capacity(self) -> usize {
        self.cap
    }

    /// The recency clock: the next age stamp to be handed out.
    pub closed spec fn clock(self) -> u64 {
        self.next_age
    }

    /// Well-formedness: keys and ages are duplicate-free, all ages are in
    /// the clock's past, and the table is within capacity.
    pub closed spec fn wf(self) -> bool {
        &&& keys_unique(self.entries@)
        &&& ages_unique(self.entries@)
        &&& ages_below(self.entries@, self.next_age)
        &&& self.entries@.len() <= self.cap
    }

    /// What a well-formed map guarantees of its model: the contents are a
    /// finite map no larger than the capacity, the age table covers
    /// exactly the present keys, and every age is below the clock.
    pub proof fn lemma_wf_model(self)
        requires
            self.wf(),
        ensures
            self@.dom().finite(),
            self@.len() <= self.capacity(),
            self.ages().dom() == self@.dom(),
            forall|kv: K::V| self@.contains_key(kv) ==> #[trigger] self.ages()[kv] < self.clock(),
    {
        lemma_model_len(self.entries@);
        assert forall|kv: K::V| self@.contains_key(kv) implies #[trigger] self.ages()[kv]
            < self.clock() by {
            let i = seq_idx(self.entries@, kv);
            assert(0 <= i < self.entries@.len() && self.entries@[i].key@ == kv);
        }
    }

    /// The age table after stamping `kv` as most recently used, at the
    /// point where the clock reads `self.clock()`.
    pub open spec fn stamped(self, kv: K::V) -> Map<K::V, u64> {
        self.ages().insert(kv, self.clock())
    }

    /// What one read step does: on a hit the entry is re-stamped as most
    /// recently used and a further handle to its value is returned; on a
    /// miss nothing changes, the clock included.
    pub open spec fn get_effect(pre: Self, post: Self, kv: K::V, r: Option<MapGuard<V>>) -> bool {
        &&& post@ == pre@
        &&& post.capacity() == pre.capacity()
        &&& (r is Some <==> pre@.contains_key(kv))
        &&& if pre@.contains_key(kv) {
            &&& (r matches Some(g) ==> g@ == pre@[kv])
            &&& post.ages() == pre.stamped(kv)
            &&& post.clock() == pre.clock() + 1
        } else {
            &&& post == pre
        }
    }

    /// Eviction: `w` is a least recently used key of the stamped table,
    /// and exactly that entry is dropped from contents and ages.
    pub open spec fn evicts(pre: Self, kv: K::V, v: V, post: Self, w: K::V) -> bool {
        &&& pre.stamped(kv).contains_key(w)
        &&& forall|x: K::V| #[trigger] pre.stamped(kv).contains_key(x) ==> pre.stamped(kv)[w]
            <= pre.stamped(kv)[x]
        &&& post@ == pre@.insert(kv, v).remove(w)
        &&& post.ages() == pre.stamped(kv).remove(w)
    }

    /// What one write step does: the value is installed at `kv` with a
    /// fresh age stamp. Overwriting a present key is an update and never
    /// evicts; a fresh key within capacity grows the table by one; a
    /// fresh key at capacity additionally evicts a least recently used
    /// entry of the stamped table.
    pub open spec fn insert_effect(
        pre: Self,
        post: Self,
        kv: K::V,
        v: V,
        fresh: MapGuard<V>,
        prev: Option<MapGuard<V>>,
    ) -> bool {
        &&& fresh@ == v
        &&& post.capacity() == pre.capacity()
        &&& post.clock() == pre.clock() + 1
        &&& (prev is Some <==> pre@.contains_key(kv))
        &&& (prev matches Some(g) ==> g@ == pre@[kv])
        &&& if pre@.contains_key(kv) {
            &&& post@ == pre@.insert(kv, v)
            &&& post.ages() == pre.stamped(kv)
            &&& post@.len() == pre@.len()
        } else if pre@.len() < pre.capacity() {
            &&& post@ == pre@.insert(kv, v)
            &&& post.ages() == pre.stamped(kv)
        } else {
            exists|w: K::V| #[trigger] Self::evicts(pre, kv, v, post, w)
        }
    }

    /// What one removal step does: the entry at `kv` leaves the contents
    /// and the age table, its guard is handed back, and the clock does
    /// not move.
    pub open spec fn remove_effect(pre: Self, post: Self, kv: K::V, r: Option<MapGuard<V>>) -> bool {
        &&& post.capacity() == pre.capacity()
        &&& post.clock() == pre.clock()
        &&& (r is Some <==> pre@.contains_key(kv))
        &&& (r matches Some(g) ==> g@ == pre@[kv])
        &&& post@ == pre@.remove(kv)
        &&& post.ages() == pre.ages().remove(kv)
    }

    /// An empty map that will never hold more than `capacity` entries.
    pub fn with_capacity(capacity: usize) -> (m: Self)
        ensures
            m.wf(),
            m@ == Map::<K::V, V>::empty(),
            m.ages() == Map::<K::V, u64>::empty(),
            m.capacity() == capacity,
            m.clock() == 0,
    {
        proof {
            lemma_model_empty::<K, V>();
        }
        let m = FixedSizeLruMap { next_age: 0, cap: capacity, entries: Vec::new() };
        proof {
            assert(m.entries@ =~= Seq::<Entry<K, V>>::empty());
        }
        m
    }

    spec fn entry_seq(self) -> Seq<Entry<K, V>> {
        self.entries@
    }

    fn find_index(&self, key: &K) -> (r: Option<usize>)
        ensures
            match r {
                Some(i) => i < self.entry_seq().len() && self.entry_seq()[i as int].key@ == key@,
                None => !seq_has_key(self.entry_seq(), key@),
            },
    {
        let n = self.entries.len();
        let mut i: usize = 0;
        while i < n
            invariant
                i <= n,
                n == self.entry_seq().len(),
                forall|j: int| 0 <= j < i ==> (#[trigger] self.entry_seq()[j]).key@ != key@,
            decreases n - i,
        {
            if self.entries[i].key.eq_key(key) {
                return Some(i);
            }
            i += 1;
        }
        None
    }

    /// The position of an entry of least age. Of entries that tie for
    /// the minimum the first is taken; a well-formed map never holds a
    /// tie, since the clock repeats no stamp, but the scan is kept
    /// correct without that assumption as a defensive fallback.
    fn min_age_index(&self) -> (m: usize)
        requires
            self.entry_seq().len() > 0,
        ensures
            m < self.entry_seq().len(),
            forall|j: int| 0 <= j < self.entry_seq().len() ==> self.entry_seq()[m as int].age <= (
            #[trigger] self.entry_seq()[j]).age,
    {
        let n = self.entries.len();
        let mut m: usize = 0;
        let mut i: usize = 1;
        while i < n
            invariant
                m < i <= n,
                n == self.entry_seq().len(),
                forall|j: int| 0 <= j < i ==> self.entry_seq()[m as int].age <= (
                #[trigger] self.entry_seq()[j]).age,
            decreases n - i,
        {
            if self.entries[i].age < self.entries[m].age {
                m = i;
            }
            i += 1;
        }
        m
    }

    fn tick(&mut self) -> (a: u64)
        requires
            old(self).next_age < u64::MAX,
        ensures
            a == old(self).next_age,
            final(self).next_age == old(self).next_age + 1,
            final(self).entries == old(self).entries,
            final(self).cap == old(self).cap,
    {
        let a = self.next_age;
        self.next_age = a + 1;
        a
    }

    /// True iff an entry for `key` is currently present. Does not touch
    /// the entry's recency.
    pub fn contains_key(&self, key: &K) -> (r: bool)
        ensures
            r == self@.contains_key(key@),
    {
        match self.find_index(key) {
            Some(_) => {
                true
            },
            None => {
                false
            },
        }
    }

    /// Point-in-time number of entries.
    pub fn len(&self) -> (n: usize)
        requires
            self.wf(),
        ensures
            n == self@.len(),
    {
        proof {
            lemma_model_len(self.entries@);
        }
        self.entries.len()
    }

    /// True iff the map currently holds no entry.
    pub fn is_empty(&self) -> (r: bool)
        requires
            self.wf(),
        ensures
            r == (self@.len() == 0),
    {
        proof {
            lemma_model_len(self.entries@);
        }
        self.entries.len() == 0
    }

    /// The clock's current reading: the age stamp the next touch will be
    /// given. At most one stamp is drawn per operation, so a 64-bit clock
    /// is not exhausted in a realistic lifetime; a caller that must be
    /// certain can still test this before a touching operation.
    pub fn next_stamp(&self) -> (a: u64)
        ensures
            a == self.clock(),
    {
        self.next_age
    }

    /// If present, stamps the entry as most recently used and returns a
    /// further handle to its value; if absent, returns nothing and does
    /// not move the clock.
    pub fn get(&mut self, key: &K) -> (r: Option<MapGuard<V>>)
        requires
            old(self).wf(),
            old(self).clock() < u64::MAX,
        ensures
            final(self).wf(),
            Self::get_effect(*old(self), *final(self), key@, r),
    {
        match self.find_index(key) {
            None => None,
            Some(i) => {
                let g = self.entries[i].guard.clone();
                let a = self.tick();
                self.entries[i].age = a;
                proof {
                    let s0 = old(self).entries@;
                    let s1 = self.entries@;
                    let kv = key@;
                    lemma_idx_of(s0, i as int);
                    assert(s1 =~= s0.update(i as int, s1[i as int]));
                    lemma_model_update(s0, i as int, s1[i as int]);
                    assert(self@ =~= old(self)@);
                    assert(g@ == old(self)@[kv]);
                }
                Some(g)
            },
        }
    }

    /// Wraps `value` in a fresh guard stamped most recently used and
    /// installs it at `key`. Returns the new guard together with the
    /// guard previously stored at `key`, if any: overwriting a present
    /// key is an update, not growth, and never evicts. A fresh key that
    /// would grow the table past its capacity causes the least recently
    /// used entry to be evicted; the entry just inserted always carries
    /// the freshest age, so with a nonzero capacity it survives its own
    /// insertion.
    pub fn insert(&mut self, key: K, value: V) -> (r: (MapGuard<V>, Option<MapGuard<V>>))
        requires
            old(self).wf(),
            old(self).clock() < u64::MAX,
        ensures
            final(self).wf(),
            Self::insert_effect(*old(self), *final(self), key@, value, r.0, r.1),
    {
        let ghost kv = key@;
        let ghost pre = *old(self);
        let found = self.find_index(&key);
        let a = self.tick();
        let fresh = MapGuard::new(value);
        match found {
            Some(i) => {
                let prev = self.entries[i].guard.clone();
                self.entries[i].age = a;
                self.entries[i].guard = fresh.clone();
                proof {
                    let s0 = pre.entries@;
                    let s1 = self.entries@;
                    lemma_idx_of(s0, i as int);
                    assert(s1 =~= s0.update(i as int, s1[i as int]));
                    lemma_model_update(s0, i as int, s1[i as int]);
                    lemma_model_len(s0);
                    lemma_model_len(s1);
                    assert(self@.dom() =~= pre@.dom());
                    assert(prev@ == pre@[kv]);
                }
                (fresh, Some(prev))
            },
            None => {
                let stored = fresh.clone();
                self.entries.push(Entry { key, age: a, guard: stored });
                proof {
                    let s0 = pre.entries@;
                    let s1 = self.entries@;
                    lemma_model_push(s0, s1.last());
                    assert(s1 =~= s0.push(s1.last()));
                    lemma_model_len(s0);
                }
                if self.entries.len() > self.cap {
                    let m = self.min_age_index();
                    let ghost s1 = self.entries@;
                    let ghost w = s1[m as int].key@;
                    let _victim = self.entries.remove(m);
                    proof {
                        lemma_idx_of(s1, m as int);
                        lemma_model_remove(s1, m as int);
                        assert(self.entries@ =~= s1.remove(m as int));
                        assert(ages_model(s1) == pre.stamped(kv));
                        assert(ages_model(s1)[w] == s1[m as int].age);
                        assert forall|x: K::V| #[trigger] pre.stamped(kv).contains_key(x) implies
                            pre.stamped(kv)[w] <= pre.stamped(kv)[x] by {
                            let j = seq_idx(s1, x);
                            assert(0 <= j < s1.len() && s1[j].key@ == x);
                            assert(ages_model(s1)[x] == s1[j].age);
                            assert(s1[m as int].age <= s1[j].age);
                        }
                        assert(Self::evicts(pre, kv, value, *self, w));
                    }
                    (fresh, None)
                } else {
                    (fresh, None)
                }
            },
        }
    }

    /// Removes the entry at `key`, handing its guard back, if one is
    /// present; absent keys are left as they are. Never moves the clock
    /// and never touches any other entry.
    pub fn remove(&mut self, key: &K) -> (r: Option<MapGuard<V>>)
        requires
            old(self).wf(),
        ensures
            final(self).wf(),
            Self::remove_effect(*old(self), *final(self), key@, r),
    {
        match self.find_index(key) {
            None => {
                proof {
                    assert(self@.remove(key@) =~= self@);
                    assert(self.ages().remove(key@) =~= self.ages());
                }
                None
            },
            Some(i) => {
                let ghost s0 = self.entries@;
                let e = self.entries.remove(i);
                proof {
                    lemma_idx_of(s0, i as int);
                    lemma_model_remove(s0, i as int);
                    assert(self.entries@ =~= s0.remove(i as int));
                    assert(e.guard@ == old(self)@[key@]);
                }
                Some(e.guard)
            },
        }
    }

    /// `get(key)`, and on a miss: build a value with `init`, install it
    /// with `insert`, and return that insertion's fresh guard. The check
    /// and the insertion are two separate steps by design: in a shell
    /// that shares the map, two racing callers may both build a value,
    /// and the later installation wins while the earlier caller still
    /// keeps its own guard. `init` runs outside any lock a shell holds.
    pub fn get_or_init<F: FnOnce() -> V>(&mut self, key: K, init: F) -> (r: MapGuard<V>)
        requires
            old(self).wf(),
            old(self).clock() < u64::MAX,
            call_requires(init, ()),
        ensures
            final(self).wf(),
            old(self)@.contains_key(key@) ==> Self::get_effect(
                *old(self),
                *final(self),
                key@,
                Some(r),
            ),
            !old(self)@.contains_key(key@) ==> exists|v: V|
                #[trigger] call_ensures(init, (), v) && Self::insert_effect(
                    *old(self),
                    *final(self),
                    key@,
                    v,
                    r,
                    None,
                ),
    {
        match self.get(&key) {
            Some(g) => g,
            None => {
                let v = init();
                let (g, _prev) = self.insert(key, v);
                g
            },
        }
    }
}

} // verus!
