use kvs::map::{MapNode, OrderedMap};

#[test]
fn test_map_add() {
    let mut list = OrderedMap::new();
    assert_eq!(list.add(&1, &1), None);
    assert_eq!(list.add(&1, &2), Some(1));
    assert_eq!(list.add(&2, &1), None);
}

#[test]
fn test_map_get() {
    let mut list = OrderedMap::new();
    assert_eq!(list.add(&1, &1), None);
    assert_eq!(list.get(&1), Some((1, 1)));
    assert_eq!(list.add(&1, &2), Some(1));
    assert_eq!(list.get(&1), Some((1, 2)));
    assert_eq!(list.get(&2), None);
    assert_eq!(list.add(&2, &1), None);
    assert_eq!(list.get(&1), Some((1, 2)));
    assert_eq!(list.get(&2), Some((2, 1)));
}

#[test]
fn test_map_null() {
    let mut list = OrderedMap::new();
    assert_eq!(list.is_null(), true);
    assert_eq!(list.get(&0), None);
    assert_eq!(list.remove(&0), None);
    assert_eq!(list.add(&1, &1), None);
    assert_eq!(list.is_null(), false);
    assert_eq!(list.get(&1), Some((1, 1)));
    assert_eq!(list.remove(&1), Some(1));
    assert_eq!(list.is_null(), true);
}

#[test]
fn test_map_remove() {
    let mut list = OrderedMap::new();
    assert_eq!(list.remove(&1), None);
    assert_eq!(list.add(&1, &1), None);
    assert_eq!(list.get(&1), Some((1, 1)));
    assert_eq!(list.add(&2, &1), None);
    assert_eq!(list.get(&1), Some((1, 1)));
    assert_eq!(list.get(&2), Some((2, 1)));
    assert_eq!(list.remove(&2), Some(1));
    assert_eq!(list.get(&1), Some((1, 1)));
    assert_eq!(list.get(&2), None);
    assert_eq!(list.remove(&1), Some(1));
    assert_eq!(list.get(&1), None);
    assert_eq!(list.get(&2), None);
}

fn is_send<T: Send>() {}
fn is_sync<T: Sync>() {}

#[test]
fn map_test_send_sync() {
    is_send::<OrderedMap<i32, i32>>();
    is_sync::<OrderedMap<i32, i32>>();
}

#[test]
fn map_round_trip() {
    let mut m: OrderedMap<u64, String> = OrderedMap::new();
    assert_eq!(m.add(&7, &"seven".to_string()), None);
    assert_eq!(m.get(&7), Some((7, "seven".to_string())));
    assert_eq!(m.remove(&7), Some("seven".to_string()));
    assert_eq!(m.get(&7), None);
    assert!(m.is_null());
}

#[test]
fn map_update_returns_previous() {
    let mut m = OrderedMap::new();
    assert_eq!(m.add(&-3i64, &10), None);
    assert_eq!(m.add(&-3i64, &20), Some(10));
    assert_eq!(m.get(&-3i64), Some((-3, 20)));
}

#[test]
fn map_remove_absent_changes_nothing() {
    let mut m = OrderedMap::new();
    m.add(&1, &10);
    m.add(&3, &30);
    assert_eq!(m.remove(&2), None);
    assert_eq!(m.remove(&2), None);
    assert_eq!(m.get(&1), Some((1, 10)));
    assert_eq!(m.get(&3), Some((3, 30)));
    assert_eq!(m.get(&2), None);
}

#[test]
fn map_keys_in_any_insert_order() {
    let mut m = OrderedMap::new();
    for k in [5u32, 1, 9, 3, 7, 0, u32::MAX] {
        assert_eq!(m.add(&k, &(k as u64 * 2)), None);
    }
    for k in [0u32, 1, 3, 5, 7, 9, u32::MAX] {
        assert_eq!(m.get(&k), Some((k, k as u64 * 2)));
    }
    for k in [2u32, 4, 6, 8, 10] {
        assert_eq!(m.get(&k), None);
    }
    assert_eq!(m.remove(&0), Some(0));
    assert_eq!(m.remove(&u32::MAX), Some(u32::MAX as u64 * 2));
    assert_eq!(m.remove(&5), Some(10));
    assert_eq!(m.get(&5), None);
    assert_eq!(m.get(&3), Some((3, 6)));
    assert_eq!(m.get(&7), Some((7, 14)));
}

#[test]
fn map_copy_keeps_its_snapshot() {
    let mut m = OrderedMap::new();
    m.add(&1usize, &1);
    m.add(&2usize, &2);
    let snapshot = m.copy();
    assert_eq!(m.add(&1usize, &100), Some(1));
    assert_eq!(m.remove(&2usize), Some(2));
    assert_eq!(snapshot.get(&1usize), Some((1, 1)));
    assert_eq!(snapshot.get(&2usize), Some((2, 2)));
    assert_eq!(m.get(&1usize), Some((1, 100)));
    assert_eq!(m.get(&2usize), None);
}

#[test]
fn map_many_disjoint_adds() {
    let mut m = OrderedMap::new();
    for i in 0..64i32 {
        assert_eq!(m.add(&i, &i), None);
    }
    for i in 0..64i32 {
        assert_eq!(m.get(&i), Some((i, i)));
    }
}

#[test]
fn map_node_constructors() {
    let a = MapNode::new(&1, &10);
    let b = MapNode::new_head(Some(a.clone()), &0, &5);
    let c = MapNode::new_insert(&b, &2, &20);
    let d = MapNode::change_value(&c, &7);
    let _ = d;
}
