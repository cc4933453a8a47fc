use kvs::key::MapKey;
use kvs::list::{List, Node};
use std::collections::hash_map::DefaultHasher;
use std::hash::Hasher;

fn word_hash(x: u64) -> u64 {
    let mut h = DefaultHasher::new();
    h.write(&x.to_le_bytes());
    h.finish()
}

#[test]
fn test_list_add() {
    let mut list = List::new();
    assert_eq!(list.add(&1), Some(1));
    assert_eq!(list.add(&1), None);
    assert_eq!(list.add(&2), Some(2));
}

#[test]
fn test_list_find() {
    let mut list = List::new();
    assert_eq!(list.add(&1), Some(1));
    assert_eq!(list.find(&1), Some(0));
    assert_eq!(list.find(&2), None);
    assert_eq!(list.add(&2), Some(2));
    assert_eq!(list.find(&1), Some(0));
    assert_eq!(list.find(&2), Some(1));
}

#[test]
fn test_list_remove() {
    let mut list = List::new();
    assert_eq!(list.add(&1), Some(1));
    assert_eq!(list.add(&2), Some(2));
    assert_eq!(list.remove(&1), Some(1));
    assert_eq!(list.find(&1), None);
    assert_eq!(list.find(&2), Some(0));
}

fn is_send<T: Send>() {}
fn is_sync<T: Sync>() {}

#[test]
fn list_test_send_sync() {
    is_send::<List<i32>>();
    is_sync::<List<i32>>();
}

#[test]
fn list_orders_by_hash() {
    let items = [10u64, 20, 30, 40, 50, 60];
    let mut list = List::new();
    for x in items {
        assert_eq!(list.add(&x), Some(x));
    }
    let mut by_hash: Vec<u64> = items.to_vec();
    by_hash.sort_by_key(|x| word_hash(*x));
    for (i, x) in by_hash.iter().enumerate() {
        assert_eq!(list.find(x), Some(i as u32));
    }
    assert_eq!(list.remove(&by_hash[0]), Some(by_hash[0]));
    assert_eq!(list.find(&by_hash[1]), Some(0));
    assert_eq!(list.remove(&by_hash[0]), None);
}

#[test]
fn list_element_hash_is_std_default_hasher() {
    assert_eq!(7u64.default_hash(), word_hash(7));
    assert_eq!((-1i32).default_hash(), word_hash(u64::MAX));
    assert_ne!(7u64.default_hash(), 7);
}

#[test]
fn list_node_constructors() {
    let a = Node::new(&3);
    let b = Node::new_with_old(&a, &4, None);
    let _ = b;
}
