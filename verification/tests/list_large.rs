use chainlist::SinglyLinkedList;

#[test]
fn clear_long_chain() {
    let mut list = SinglyLinkedList::new();
    let mut i: u64 = 0;
    while i <= 10000 {
        list.push_front(i);
        i += 1;
    }
    assert_eq!(list.len(), 10001);
    list.clear();
    assert!(list.is_empty());
    assert_eq!(list.len(), 0);
}

#[test]
fn large_item() {
    let qty: u64 = 10000;
    let mut vec = Vec::new();
    for i in 0..=qty {
        vec.push(i * 5 + 4);
    }
    let mut list = SinglyLinkedList::new();
    list.extend_from_vec(vec);
    assert!(!list.is_empty());
    assert_eq!(list.len() as u64, qty + 1);
    assert_eq!(list.pop_front(), Some(4));
    assert_eq!(list.pop_back(), Some(5 * qty + 4));
    assert!(list.contains(&2504));
    assert!(!list.contains(&2503));
    for i in 1..=qty - 1 {
        assert_eq!(list.pop_front(), Some(i * 5 + 4));
    }
    assert!(list.is_empty());
}
