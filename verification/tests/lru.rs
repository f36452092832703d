use fixed_size_lru_map::FixedSizeLruMap;
use fixed_size_lru_map::MapGuard;

fn key(s: &str) -> String {
    String::from(s)
}

#[test]
fn len_and_is_empty_track_the_table() {
    let mut map = FixedSizeLruMap::<u64, i32>::with_capacity(4);
    assert!(map.is_empty());
    assert_eq!(0, map.len());
    map.insert(7, 70);
    assert!(!map.is_empty());
    assert_eq!(1, map.len());
    map.insert(8, 80);
    assert_eq!(2, map.len());
    map.remove(&7);
    assert_eq!(1, map.len());
}

#[test]
fn capacity_invariant_under_distinct_inserts() {
    let mut map = FixedSizeLruMap::<u64, u64>::with_capacity(3);
    for k in 0u64..10 {
        map.insert(k, k * 10);
        assert!(map.len() <= 3);
    }
    assert_eq!(3, map.len());
}

#[test]
fn round_trip_insert_then_get() {
    let mut map = FixedSizeLruMap::<String, i32>::with_capacity(2);
    map.insert(key("k"), 42);
    let got = map.get(&key("k")).expect("key must be present after insert");
    assert_eq!(42, *got.value());
}

#[test]
fn get_on_absent_key_returns_nothing() {
    let mut map = FixedSizeLruMap::<String, i32>::with_capacity(2);
    map.insert(key("k"), 42);
    assert!(map.get(&key("other")).is_none());
}

#[test]
fn refreshed_key_survives_eviction() {
    let mut map = FixedSizeLruMap::<String, i32>::with_capacity(2);
    map.insert(key("a"), 10);
    map.insert(key("b"), 20);
    assert!(map.get(&key("a")).is_some());
    map.insert(key("c"), 30);
    assert!(map.contains_key(&key("a")));
    assert!(!map.contains_key(&key("b")));
    assert!(map.contains_key(&key("c")));
    assert_eq!(2, map.len());
}

#[test]
fn eviction_order_follows_touches() {
    let mut map = FixedSizeLruMap::<u64, i32>::with_capacity(3);
    map.insert(1, 10);
    map.insert(2, 20);
    map.insert(3, 30);
    map.get(&2);
    map.get(&1);
    map.insert(4, 40);
    assert!(!map.contains_key(&3));
    map.insert(5, 50);
    assert!(!map.contains_key(&2));
    assert!(map.contains_key(&1));
    assert!(map.contains_key(&4));
    assert!(map.contains_key(&5));
    assert_eq!(3, map.len());
}

#[test]
fn update_is_not_growth() {
    let mut map = FixedSizeLruMap::<String, i32>::with_capacity(2);
    map.insert(key("a"), 10);
    map.insert(key("b"), 20);
    let (fresh, previous) = map.insert(key("a"), 11);
    assert_eq!(11, *fresh.value());
    assert_eq!(10, *previous.expect("the overwritten guard comes back").value());
    assert_eq!(2, map.len());
    assert!(map.contains_key(&key("a")));
    assert!(map.contains_key(&key("b")));
    assert_eq!(11, *map.get(&key("a")).unwrap().value());
}

#[test]
fn fresh_key_insert_reports_no_previous_value_even_when_evicting() {
    let mut map = FixedSizeLruMap::<u64, i32>::with_capacity(1);
    let (_, previous) = map.insert(1, 10);
    assert!(previous.is_none());
    let (fresh, previous) = map.insert(2, 20);
    assert!(previous.is_none());
    assert_eq!(20, *fresh.value());
    assert!(!map.contains_key(&1));
    assert!(map.contains_key(&2));
}

#[test]
fn capacity_zero_keeps_nothing_but_still_hands_out_guards() {
    let mut map = FixedSizeLruMap::<u64, i32>::with_capacity(0);
    let (guard, previous) = map.insert(1, 10);
    assert!(previous.is_none());
    assert_eq!(0, map.len());
    assert!(!map.contains_key(&1));
    assert_eq!(10, *guard.value());
}

#[test]
fn remove_absent_is_a_noop() {
    let mut map = FixedSizeLruMap::<String, i32>::with_capacity(2);
    map.insert(key("a"), 10);
    assert!(map.remove(&key("missing")).is_none());
    assert_eq!(1, map.len());
    assert!(map.contains_key(&key("a")));
}

#[test]
fn remove_present_hands_back_the_guard() {
    let mut map = FixedSizeLruMap::<String, i32>::with_capacity(2);
    map.insert(key("a"), 10);
    let gone = map.remove(&key("a")).expect("the removed guard comes back");
    assert_eq!(10, *gone.value());
    assert_eq!(0, map.len());
    assert!(!map.contains_key(&key("a")));
}

#[test]
fn remove_does_not_touch_recency_of_others() {
    let mut map = FixedSizeLruMap::<u64, i32>::with_capacity(2);
    map.insert(1, 10);
    map.insert(2, 20);
    map.remove(&2);
    map.insert(3, 30);
    map.insert(4, 40);
    assert!(!map.contains_key(&1));
    assert!(map.contains_key(&3));
    assert!(map.contains_key(&4));
}

#[test]
fn get_or_init_computes_once() {
    let mut map = FixedSizeLruMap::<String, i32>::with_capacity(2);
    let a = *map.get_or_init(key("a"), || 10).value();
    let b = *map.get_or_init(key("a"), || 99).value();
    assert_eq!(10, a);
    assert_eq!(10, b);
    assert_eq!(1, map.len());
}

#[test]
fn get_or_init_counts_as_a_touch() {
    let mut map = FixedSizeLruMap::<u64, i32>::with_capacity(2);
    map.insert(1, 10);
    map.insert(2, 20);
    map.get_or_init(1, || 99);
    map.insert(3, 30);
    assert!(map.contains_key(&1));
    assert!(!map.contains_key(&2));
    assert!(map.contains_key(&3));
}

#[test]
fn guard_survives_eviction_and_overwrite() {
    let mut map = FixedSizeLruMap::<String, i32>::with_capacity(1);
    let (kept, _) = map.insert(key("a"), 10);
    map.insert(key("b"), 20);
    assert!(!map.contains_key(&key("a")));
    assert_eq!(10, *kept.value());
    let (old_b, _) = map.insert(key("b"), 21);
    let (new_b, previous) = map.insert(key("b"), 22);
    assert_eq!(21, *old_b.value());
    assert_eq!(21, *previous.unwrap().value());
    assert_eq!(22, *new_b.value());
}

#[test]
fn try_unwrap_reclaims_only_the_last_reference() {
    let mut map = FixedSizeLruMap::<u64, String>::with_capacity(2);
    map.insert(1, String::from("payload"));
    let shared = map.get(&1).unwrap();
    let shared = match MapGuard::try_unwrap(shared) {
        Ok(_) => panic!("the map still holds a reference"),
        Err(guard) => guard,
    };
    assert_eq!("payload", shared.value());
    drop(map);
    match MapGuard::try_unwrap(shared) {
        Ok(value) => assert_eq!("payload", value),
        Err(_) => panic!("the last reference must reclaim the value"),
    }
}
