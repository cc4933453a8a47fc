use kvs::key::MapKey;
use kvs::linked_list::{LinkedList, Node};

#[test]
fn test_linked_list_add() {
    let mut list = LinkedList::new();
    assert_eq!(list.add(&1), Some(1));
    assert_eq!(list.add(&1), None);
    assert_eq!(list.add(&2), Some(2));
}

#[test]
fn test_linked_list_find() {
    let mut list = LinkedList::new();
    assert_eq!(list.add(&1), Some(1));
    assert_eq!(list.find(&1), Some(0));
    assert_eq!(list.find(&2), None);
    assert_eq!(list.add(&2), Some(2));
    assert_eq!(list.find(&1), Some(0));
    assert_eq!(list.find(&2), Some(1));
}

#[test]
fn test_linked_list_remove() {
    let mut list = LinkedList::new();
    assert_eq!(list.add(&1), Some(1));
    assert_eq!(list.add(&2), Some(2));
    assert_eq!(list.remove(&1), Some(1));
    assert_eq!(list.find(&1), None);
    assert_eq!(list.find(&2), Some(0));
}

fn is_send<T: Send>() {}
fn is_sync<T: Sync>() {}

#[test]
fn linked_list_test_send_sync() {
    is_send::<LinkedList<i32>>();
    is_sync::<LinkedList<i32>>();
}

#[test]
fn linked_list_node_hash() {
    let a = Node::new(&5u64);
    assert_eq!(a.hash(), 5u64.default_hash());
    let b = Node::new_with_next(&6u64, Some(a.clone()));
    assert_eq!(b.hash(), 6u64.default_hash());
    let c = Node::new_with_old(&b, &7u64, None);
    assert_eq!(c.hash(), b.hash());
}

#[test]
fn linked_list_remove_absent() {
    let mut list = LinkedList::new();
    assert_eq!(list.remove(&9), None);
    assert_eq!(list.add(&9), Some(9));
    assert_eq!(list.remove(&8), None);
    assert_eq!(list.find(&9), Some(0));
    assert_eq!(list.remove(&9), Some(9));
    assert_eq!(list.find(&9), None);
}
