//! Laws relating the map's operations across calls.
//!
//! Each operation's own contract (`get_effect`, `insert_effect`,
//! `remove_effect`) describes one step. The proof functions here state
//! the guarantees that span steps: the capacity bound, what least
//! recently used eviction spares, that updates do not grow the table,
//! the insert-then-get round trip, and that removing an absent key is
//! a no-op.
use vstd::prelude::*;
use crate::guard::MapGuard;
use crate::key::CacheKey;
use crate::map::FixedSizeLruMap;

verus! {

/// Capacity invariant: every well-formed map — and every operation
/// returns a well-formed map — holds at most `capacity` entries, so the
/// bound holds after any sequence of inserts.
pub proof fn lemma_capacity_invariant<K: CacheKey, V>(m: FixedSizeLruMap<K, V>)
    requires
        m.wf(),
    ensures
        m@.dom().finite(),
        m@.len() <= m.capacity(),
{
    m.lemma_wf_model();
}

/// Least recently used eviction: a fresh-key insertion into a full map
/// of nonzero capacity keeps the new key, and evicts exactly one old
/// key, one whose age stamp is least — so any key touched more recently
/// than some other key survives.
pub proof fn lemma_lru_eviction<K: CacheKey, V>(
    pre: FixedSizeLruMap<K, V>,
    post: FixedSizeLruMap<K, V>,
    kv: K::V,
    v: V,
    fresh: MapGuard<V>,
    prev: Option<MapGuard<V>>,
)
    requires
        pre.wf(),
        FixedSizeLruMap::insert_effect(pre, post, kv, v, fresh, prev),
        !pre@.contains_key(kv),
        pre@.len() >= pre.capacity(),
        pre.capacity() > 0,
    ensures
        post@.contains_key(kv),
        post@[kv] == v,
        exists|w: K::V|
            {
                &&& #[trigger] pre@.contains_key(w)
                &&& post@ == pre@.insert(kv, v).remove(w)
                &&& post.ages() == pre.stamped(kv).remove(w)
                &&& forall|x: K::V| #[trigger] pre@.contains_key(x) ==> pre.ages()[w]
                    <= pre.ages()[x]
            },
{
    pre.lemma_wf_model();
    let w0 = choose|w: K::V| #[trigger] FixedSizeLruMap::evicts(pre, kv, v, post, w);
    assert(FixedSizeLruMap::evicts(pre, kv, v, post, w0));
    assert(exists|x: K::V| pre@.dom().contains(x)) by {
        if !(exists|x: K::V| pre@.dom().contains(x)) {
            assert(pre@.dom() =~= Set::<K::V>::empty());
            pre@.dom().lemma_len0_is_empty();
        }
    }
    let b = choose|x: K::V| pre@.dom().contains(x);
    assert(pre.stamped(kv).contains_key(b));
    assert(pre.stamped(kv)[b] == pre.ages()[b] && pre.ages()[b] < pre.clock());
    assert(pre.stamped(kv)[w0] <= pre.stamped(kv)[b]);
    assert(w0 != kv) by {
        assert(pre.stamped(kv)[kv] == pre.clock());
    }
    assert(pre@.contains_key(w0));
    assert forall|x: K::V| #[trigger] pre@.contains_key(x) implies pre.ages()[w0]
        <= pre.ages()[x] by {
        assert(pre.stamped(kv).contains_key(x));
        assert(pre.stamped(kv)[w0] <= pre.stamped(kv)[x]);
        if x != kv {
            assert(pre.stamped(kv)[x] == pre.ages()[x]);
        }
    }
}

/// Update is not growth: inserting at an already-present key replaces
/// its value and age but never changes the set of keys, the entry
/// count, or any other entry.
pub proof fn lemma_update_is_not_growth<K: CacheKey, V>(
    pre: FixedSizeLruMap<K, V>,
    post: FixedSizeLruMap<K, V>,
    kv: K::V,
    v: V,
    fresh: MapGuard<V>,
    prev: Option<MapGuard<V>>,
)
    requires
        pre.wf(),
        FixedSizeLruMap::insert_effect(pre, post, kv, v, fresh, prev),
        pre@.contains_key(kv),
    ensures
        post@.dom() == pre@.dom(),
        post@.len() == pre@.len(),
        forall|x: K::V| x != kv && pre@.contains_key(x) ==> post@[x] == pre@[x],
{
    assert(post@.dom() =~= pre@.dom());
}

/// Round trip: inserting `v` at a fresh or present key of a map with
/// nonzero capacity and then reading the same key back yields a guard
/// for a value equal to `v` — and the guard the insertion itself
/// returned views `v` as well.
pub proof fn lemma_insert_then_get<K: CacheKey, V>(
    pre: FixedSizeLruMap<K, V>,
    mid: FixedSizeLruMap<K, V>,
    post: FixedSizeLruMap<K, V>,
    kv: K::V,
    v: V,
    fresh: MapGuard<V>,
    prev: Option<MapGuard<V>>,
    r: Option<MapGuard<V>>,
)
    requires
        pre.wf(),
        pre.capacity() > 0,
        FixedSizeLruMap::insert_effect(pre, mid, kv, v, fresh, prev),
        FixedSizeLruMap::get_effect(mid, post, kv, r),
    ensures
        fresh@ == v,
        mid@.contains_key(kv),
        mid@[kv] == v,
        r is Some,
        r matches Some(g) ==> g@ == v,
{
    if pre@.contains_key(kv) {
    } else if pre@.len() < pre.capacity() {
    } else {
        lemma_lru_eviction(pre, mid, kv, v, fresh, prev);
    }
}

/// Idempotent removal: removing an absent key returns nothing and
/// leaves the map — contents, ages and clock alike — exactly as it was.
pub proof fn lemma_remove_absent<K: CacheKey, V>(
    pre: FixedSizeLruMap<K, V>,
    post: FixedSizeLruMap<K, V>,
    kv: K::V,
    r: Option<MapGuard<V>>,
)
    requires
        pre.wf(),
        FixedSizeLruMap::remove_effect(pre, post, kv, r),
        !pre@.contains_key(kv),
    ensures
        r is None,
        post@ == pre@,
        post@.len() == pre@.len(),
        post.ages() == pre.ages(),
{
    pre.lemma_wf_model();
    assert(pre@.remove(kv) =~= pre@);
    assert(pre.ages().remove(kv) =~= pre.ages());
}

} // verus!
