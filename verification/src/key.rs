//! Key comparison for the map.
//!
//! The map's mathematical model is keyed by the *view* of the key type, so
//! the executable equality test must agree with view equality. Key types
//! opt in by implementing [`CacheKey`]; implementations are provided for
//! the common cheap-to-compare key types (small scalars and strings).
use vstd::prelude::*;

verus! {

/// A type usable as a map key: it can decide, executably, whether two
/// keys have the same view.
pub trait CacheKey: View + Sized {
    /// Equality test that agrees with equality of views.
    fn eq_key(&self, other: &Self) -> (r: bool)
        ensures
            r <==> self@ == other@,
    ;
}

impl CacheKey for u64 {
    fn eq_key(&self, other: &Self) -> (r: bool)
        ensures
            r <==> self@ == other@,
    {
        *self == *other
    }
}

impl CacheKey for u32 {
    fn eq_key(&self, other: &Self) -> (r: bool)
        ensures
            r <==> self@ == other@,
    {
        *self == *other
    }
}

impl CacheKey for usize {
    fn eq_key(&self, other: &Self) -> (r: bool)
        ensures
            r <==> self@ == other@,
    {
        *self == *other
    }
}

impl CacheKey for i64 {
    fn eq_key(&self, other: &Self) -> (r: bool)
        ensures
            r <==> self@ == other@,
    {
        *self == *other
    }
}

impl CacheKey for String {
    fn eq_key(&self, other: &Self) -> (r: bool)
        ensures
            r <==> self@ == other@,
    {
        *self == *other
    }
}

} // verus!
