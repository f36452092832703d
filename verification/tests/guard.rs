use fixed_size_lru_map::FixedSizeLruMap;
use std::cmp::Ordering;
use std::collections::hash_map::DefaultHasher;
use std::hash::Hash;
use std::hash::Hasher;

#[test]
fn guard_equality_delegates_to_the_value() {
    let mut left = FixedSizeLruMap::<u64, i32>::with_capacity(2);
    let mut right = FixedSizeLruMap::<u64, i32>::with_capacity(2);
    let (a, _) = left.insert(1, 10);
    let (b, _) = right.insert(9, 10);
    let (c, _) = right.insert(8, 11);
    assert!(a == b);
    assert!(a != c);
}

#[test]
fn guard_ordering_delegates_to_the_value() {
    let mut map = FixedSizeLruMap::<u64, i32>::with_capacity(3);
    let (small, _) = map.insert(1, 10);
    let (large, _) = map.insert(2, 20);
    assert!(small < large);
    assert_eq!(Some(Ordering::Less), small.partial_cmp(&large));
    assert_eq!(Some(Ordering::Equal), small.partial_cmp(&small));
}

#[test]
fn guard_hashing_delegates_to_the_value() {
    let mut left = FixedSizeLruMap::<u64, i32>::with_capacity(2);
    let mut right = FixedSizeLruMap::<u64, i32>::with_capacity(2);
    let (a, _) = left.insert(1, 10);
    let (b, _) = right.insert(2, 10);
    let mut ha = DefaultHasher::new();
    let mut hb = DefaultHasher::new();
    let mut hv = DefaultHasher::new();
    a.hash(&mut ha);
    b.hash(&mut hb);
    10i32.hash(&mut hv);
    assert_eq!(ha.finish(), hb.finish());
    assert_eq!(ha.finish(), hv.finish());
}
