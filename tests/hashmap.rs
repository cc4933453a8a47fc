use kvs::hashmap::{HashMap, HashMapNode};
use kvs::map::OrderedMap;

fn my_hasher(key: &i32) -> u64 {
    (key % 10) as u64
}

fn is_send<T: Send>() {}
fn is_sync<T: Sync>() {}

#[test]
fn hashmap_test_send_sync() {
    is_send::<OrderedMap<i32, i32>>();
    is_sync::<OrderedMap<i32, i32>>();
}

#[test]
fn test_hashmap_add() {
    let mut map = HashMap::new_with_hasher(my_hasher);
    assert_eq!(map.add(&1, &2), None);
    assert_eq!(map.add(&11, &3), None);
    assert_eq!(map.add(&1, &4), Some(2));
    assert_eq!(map.add(&2, &5), None);
    assert_eq!(map.add(&2, &6), Some(5));
}

#[test]
fn test_hashmap_get() {
    let mut map = HashMap::new_with_hasher(my_hasher);
    assert_eq!(map.add(&1, &2), None);
    assert_eq!(map.get(&1), Some((1, 2)));
    assert_eq!(map.add(&11, &3), None);
    assert_eq!(map.get(&11), Some((11, 3)));
    assert_eq!(map.add(&1, &4), Some(2));
    assert_eq!(map.get(&1), Some((1, 4)));
    assert_eq!(map.add(&2, &5), None);
    assert_eq!(map.get(&2), Some((2, 5)));
    assert_eq!(map.add(&2, &6), Some(5));
    assert_eq!(map.get(&2), Some((2, 6)));
}

#[test]
fn test_hashmap_remove() {
    let mut map = HashMap::new_with_hasher(my_hasher);
    assert_eq!(map.add(&1, &2), None);
    assert_eq!(map.add(&11, &3), None);
    assert_eq!(map.add(&1, &4), Some(2));
    assert_eq!(map.add(&2, &5), None);
    assert_eq!(map.add(&2, &6), Some(5));
    assert_eq!(map.remove(&1), Some(4));
    assert_eq!(map.get(&1), None);
    assert_eq!(map.remove(&11), Some(3));
    assert_eq!(map.get(&11), None);
    assert_eq!(map.remove(&2), Some(6));
    assert_eq!(map.get(&2), None);
    assert_eq!(map.remove(&2), None);
}

#[test]
fn hashmap_default_hasher_round_trip() {
    let mut map = HashMap::new();
    for k in [0u64, 1, 2, 1000, u64::MAX] {
        assert_eq!(map.add(&k, &(k / 2)), None);
    }
    for k in [0u64, 1, 2, 1000, u64::MAX] {
        assert_eq!(map.get(&k), Some((k, k / 2)));
    }
    assert_eq!(map.get(&3u64), None);
    assert_eq!(map.add(&1000u64, &7), Some(500));
    assert_eq!(map.remove(&1000u64), Some(7));
    assert_eq!(map.get(&1000u64), None);
}

#[test]
fn hashmap_emptied_bucket_is_gone() {
    let mut map = HashMap::new_with_hasher(my_hasher);
    assert_eq!(map.add(&3, &30), None);
    assert_eq!(map.add(&13, &130), None);
    assert_eq!(map.add(&4, &40), None);
    assert_eq!(map.remove(&3), Some(30));
    assert_eq!(map.get(&13), Some((13, 130)));
    assert_eq!(map.remove(&13), Some(130));
    assert_eq!(map.get(&3), None);
    assert_eq!(map.get(&13), None);
    assert_eq!(map.get(&23), None);
    assert_eq!(map.remove(&23), None);
    assert_eq!(map.get(&4), Some((4, 40)));
    assert_eq!(map.add(&23, &230), None);
    assert_eq!(map.get(&23), Some((23, 230)));
}

#[test]
fn hashmap_colliding_keys_stay_apart() {
    let mut map = HashMap::new_with_hasher(my_hasher);
    for k in [5, 15, 25, 35] {
        assert_eq!(map.add(&k, &(k + 1)), None);
    }
    assert_eq!(map.remove(&25), Some(26));
    assert_eq!(map.get(&5), Some((5, 6)));
    assert_eq!(map.get(&15), Some((15, 16)));
    assert_eq!(map.get(&25), None);
    assert_eq!(map.get(&35), Some((35, 36)));
}

#[test]
fn hashmap_update_and_idempotent_remove() {
    let mut map = HashMap::new_with_hasher(my_hasher);
    assert_eq!(map.remove(&9), None);
    assert_eq!(map.add(&9, &1), None);
    assert_eq!(map.add(&9, &2), Some(1));
    assert_eq!(map.get(&9), Some((9, 2)));
    assert_eq!(map.remove(&19), None);
    assert_eq!(map.get(&9), Some((9, 2)));
}

#[test]
fn hashmap_bucket_constructors() {
    let a = HashMapNode::new(&1, &10, 1);
    let b = HashMapNode::new_head(Some(a.clone()), &0, &5, 0);
    let c = HashMapNode::new_insert(&b, &2, &20, 2);
    let _ = c;
}

#[test]
fn hashmap_copy_keeps_its_snapshot() {
    let mut map = HashMap::new_with_hasher(my_hasher);
    map.add(&1, &10);
    map.add(&11, &110);
    let snapshot = map.copy();
    assert_eq!(map.remove(&1), Some(10));
    assert_eq!(map.add(&11, &111), Some(110));
    assert_eq!(snapshot.get(&1), Some((1, 10)));
    assert_eq!(snapshot.get(&11), Some((11, 110)));
    assert_eq!(map.get(&1), None);
    assert_eq!(map.get(&11), Some((11, 111)));
}
