//! A fixed-capacity key/value cache that evicts the least recently used
//! entry when an insertion would grow it past its capacity.
//!
//! The cache hands out shared, reference-counted value handles
//! ([`MapGuard`]): a caller may keep a handle after the entry behind it has
//! been evicted or overwritten, and the wrapped value stays alive until the
//! last handle is dropped.
//!
//! Recency is tracked by an age stamp per entry, drawn from a strictly
//! increasing per-map clock; eviction scans for the entry with the smallest
//! age. Synchronization (a read/write lock or a copy-on-write pointer swap)
//! is a collaborator outside this crate's scope: the operations here state
//! what one linearized step does to the table, and a thin shell may put the
//! map behind whichever lock discipline it prefers.
mod guard;
mod key;
mod map;
pub mod laws;

pub use guard::MapGuard;
pub use key::CacheKey;
pub use map::FixedSizeLruMap;
