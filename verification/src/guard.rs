//! The shared value handle that the map stores and hands out.
use vstd::prelude::*;
use vstd::std_specs::cmp::PartialEqSpec;
use vstd::std_specs::cmp::PartialOrdSpec;
use std::sync::Arc;

verus! {

/// Relies on std's `Arc::try_unwrap`: it returns the inner value when the
/// argument was the only strong reference, and otherwise returns the
/// argument back; either way the value carried is unchanged.
#[verifier::external_body]
fn arc_try_unwrap<T>(a: Arc<T>) -> (r: Result<T, Arc<T>>)
    ensures
        match r {
            Ok(v) => v == a,
            Err(e) => e == a,
        },
{
    Arc::try_unwrap(a)
}

/// A shared handle to a cached value.
///
/// The map stores one guard per entry and returns a further guard to the
/// caller on every read or write; all of them point at the same value.
/// A guard kept by a caller stays valid after the entry is evicted,
/// overwritten or removed: the value is freed only when the last guard is
/// dropped.
///
/// Hashing delegates to the wrapped value, as equality and ordering do.
#[derive(Hash)]
pub struct MapGuard<V> {
    inner: Arc<V>,
}

impl<V> View for MapGuard<V> {
    type V = V;

    closed spec fn view(&self) -> V {
        *self.inner
    }
}

impl<V> MapGuard<V> {
    /// Wraps a value in a fresh guard.
    pub(crate) fn new(value: V) -> (r: MapGuard<V>)
        ensures
            r@ == value,
    {
        MapGuard { inner: Arc::new(value) }
    }

    /// Read-only access to the wrapped value. No condition is attached:
    /// a guard answers with its value whether or not the entry it came
    /// from is still in any map.
    pub fn value(&self) -> (r: &V)
        ensures
            *r == self@,
    {
        &*self.inner
    }

    /// Reclaims the owned value if the calling guard is the last surviving
    /// reference to it; otherwise reports failure by handing the guard
    /// back unchanged.
    pub fn try_unwrap(this: MapGuard<V>) -> (r: Result<V, MapGuard<V>>)
        ensures
            match r {
                Ok(v) => v == this@,
                Err(g) => g@ == this@,
            },
    {
        match arc_try_unwrap(this.inner) {
            Ok(v) => Ok(v),
            Err(a) => Err(MapGuard { inner: a }),
        }
    }
}

impl<V> Clone for MapGuard<V> {
    /// Cloning shares the value: the clone is a handle to the same value,
    /// not a copy of it.
    fn clone(&self) -> (r: Self)
        ensures
            r@ == self@,
    {
        MapGuard { inner: self.inner.clone() }
    }
}

/// Two guards compare equal exactly when the wrapped values compare
/// equal, regardless of whether they share an allocation or an entry.
impl<V: PartialEq + PartialEqSpec> PartialEq for MapGuard<V> {
    fn eq(&self, other: &Self) -> (r: bool) {
        *self.value() == *other.value()
    }
}

impl<V: PartialEq + PartialEqSpec> vstd::std_specs::cmp::PartialEqSpecImpl for MapGuard<V> {
    open spec fn obeys_eq_spec() -> bool {
        V::obeys_eq_spec()
    }

    open spec fn eq_spec(&self, other: &Self) -> bool {
        self@.eq_spec(&other@)
    }
}

impl<V: Eq + PartialEqSpec> Eq for MapGuard<V> {}

/// Guards order as their wrapped values order, regardless of identity
/// or age.
impl<V: PartialOrd + PartialEqSpec + PartialOrdSpec> PartialOrd for MapGuard<V> {
    fn partial_cmp(&self, other: &Self) -> (r: Option<core::cmp::Ordering>) {
        self.value().partial_cmp(other.value())
    }
}

impl<V: PartialOrd + PartialEqSpec + PartialOrdSpec> vstd::std_specs::cmp::PartialOrdSpecImpl for MapGuard<V> {
    open spec fn obeys_partial_cmp_spec() -> bool {
        V::obeys_partial_cmp_spec()
    }

    open spec fn partial_cmp_spec(&self, other: &Self) -> Option<core::cmp::Ordering> {
        self@.partial_cmp_spec(&other@)
    }
}

} // verus!
