use lrust_cache::list::{DoublyLinkedList, Node};

#[test]
fn list_push_pop_order() {
    let mut list: DoublyLinkedList<u32, &str> = DoublyLinkedList::new();
    assert!(list.is_empty());
    let a = list.push_front(Node::new(1, "a"));
    let b = list.push_front(Node::new(2, "b"));
    let _c = list.push_front(Node::new(3, "c"));
    assert_eq!(list.len(), 3);
    assert_ne!(a, b);
    // The back of the list is the first node pushed.
    let back = list.pop_back().unwrap();
    assert_eq!((back.key, back.value), (1, "a"));
    list.reinsert_front(b);
    let back = list.pop_back().unwrap();
    assert_eq!((back.key, back.value), (3, "c"));
    let back = list.pop_back().unwrap();
    assert_eq!((back.key, back.value), (2, "b"));
    assert!(list.pop_back().is_none());
    assert!(list.is_empty());
}

#[test]
fn list_remove_and_replace() {
    let mut list: DoublyLinkedList<u32, u32> = DoublyLinkedList::new();
    let a = list.push_front(Node::new(1, 10));
    let b = list.push_front(Node::new(2, 20));
    let c = list.push_front(Node::new(3, 30));
    let removed = list.remove(b);
    assert_eq!((removed.key, removed.value), (2, 20));
    assert_eq!(list.len(), 2);
    assert_eq!(list.replace_value(c, 33), 30);
    assert_eq!(*list.value_at(c), 33);
    assert_eq!(*list.value_at(a), 10);
    // The freed slot is reused.
    let d = list.push_front(Node::new(4, 40));
    assert_eq!(d, b);
    let back = list.pop_back().unwrap();
    assert_eq!((back.key, back.value), (1, 10));
}
