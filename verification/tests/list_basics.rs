use chainlist::SinglyLinkedList;

#[test]
fn new_list() {
    let mut list: SinglyLinkedList<u64> = SinglyLinkedList::new();
    assert!(list.is_empty());
    assert!(!list.contains(&233u64));
    assert_eq!(list.len(), 0);
    assert_eq!(list.debug_string(), "[]");
    assert!(list == SinglyLinkedList::new());
    assert_eq!(list.front(), None);
    assert_eq!(list.front_mut(), None);
    assert_eq!(list.back(), None);
    assert_eq!(list.back_mut(), None);
    assert_eq!(list.pop_front(), None);
    assert_eq!(list.pop_back(), None);
    let second = list.split_off(0);
    assert!(list == SinglyLinkedList::new());
    assert!(second == SinglyLinkedList::new());
    assert!(list.is_empty() && second.is_empty());
}

#[test]
fn small_item() {
    let mut list = SinglyLinkedList::from_vec(vec![1u64, 2, 3]);
    assert!(!list.is_empty());
    assert_eq!(list.len(), 3);
    assert!(list == SinglyLinkedList::from_vec(vec![1u64, 2, 3]));
    assert!(list != SinglyLinkedList::from_vec(vec![10u64, 2, 3]));
    list.push_back(4);
    assert_eq!(list.debug_string(), "[1, 2, 3, 4]");
    assert_eq!(list.pop_front(), Some(1));
    assert_eq!(list.debug_string(), "[2, 3, 4]");
    list.push_front(5);
    assert_eq!(list.pop_back(), Some(4));
    assert_eq!(list.pop_front(), Some(5));
    assert_eq!(list.pop_front(), Some(2));
    assert_eq!(list.pop_front(), Some(3));
    assert_eq!(list.pop_front(), None);
    assert_eq!(list.pop_back(), None);
    let mut list = SinglyLinkedList::from_vec(vec![6u64, 7, 8, 9, 10]);
    let second = list.split_off(3);
    assert_eq!(list.debug_string(), "[6, 7, 8]");
    assert_eq!(second.debug_string(), "[9, 10]");
    assert!(list != second);
    assert!(((list < second) && (second > list)) || ((list > second) && (second < list)));
    assert!(list < second);
}

#[test]
fn split_off_positions() {
    let mut list = SinglyLinkedList::from_vec(vec![10u64, 11, 12]);
    assert_eq!(list.split_off(0).len(), 3);
    assert_eq!(list.len(), 0);
    let mut list = SinglyLinkedList::from_vec(vec![10u64, 11, 12]);
    assert_eq!(list.split_off(1).len(), 2);
    assert_eq!(list.len(), 1);
    let mut list = SinglyLinkedList::from_vec(vec![10u64, 11, 12]);
    assert_eq!(list.split_off(2).len(), 1);
    let mut list = SinglyLinkedList::from_vec(vec![10u64, 11, 12]);
    assert_eq!(list.split_off(3).len(), 0);
    assert_eq!(list.debug_string(), "[10, 11, 12]");
}

#[test]
fn split_off_nonempty_at_zero() {
    let mut list = SinglyLinkedList::from_vec(vec![4u64, 5, 6]);
    let second = list.try_split_off(0).expect("position 0 is always in range");
    assert!(list.is_empty());
    assert_eq!(second.debug_string(), "[4, 5, 6]");
}

#[test]
fn split_off_past_end_is_rejected() {
    let mut list = SinglyLinkedList::from_vec(vec![10u64, 11, 12]);
    assert!(list.try_split_off(4).is_none());
    assert_eq!(list.debug_string(), "[10, 11, 12]");
    assert!(list.try_split_off(3).is_some());
}

#[test]
fn drain_reproduces_order() {
    let source = vec![9u64, 1, 8, 2, 7, 3];
    let mut list = SinglyLinkedList::from_vec(source.clone());
    let mut drained = Vec::new();
    while let Some(v) = list.pop_front() {
        drained.push(v);
    }
    assert_eq!(drained, source);
    assert!(list.is_empty());
}

#[test]
fn append_moves_whole_chain() {
    let mut a = SinglyLinkedList::from_vec(vec![1u64, 2]);
    let mut b = SinglyLinkedList::from_vec(vec![3u64, 4]);
    a.append(&mut b);
    assert_eq!(a.debug_string(), "[1, 2, 3, 4]");
    assert!(b.is_empty());
    let mut c = SinglyLinkedList::new();
    c.append(&mut a);
    assert_eq!(c.debug_string(), "[1, 2, 3, 4]");
    assert!(a.is_empty());
}

#[test]
fn front_back_access() {
    let mut list = SinglyLinkedList::from_vec(vec![5u64, 6, 7]);
    assert_eq!(list.front(), Some(&5));
    assert_eq!(list.back(), Some(&7));
    if let Some(v) = list.front_mut() {
        *v = 50;
    }
    if let Some(v) = list.back_mut() {
        *v = 70;
    }
    assert_eq!(list.debug_string(), "[50, 6, 70]");
}

#[test]
fn clear_empties_the_list() {
    let mut list = SinglyLinkedList::from_vec(vec![1u64, 2, 3]);
    list.clear();
    assert!(list.is_empty());
    assert_eq!(list.len(), 0);
    assert_eq!(list.debug_string(), "[]");
}

#[test]
fn contains_finds_values() {
    let list = SinglyLinkedList::from_vec(vec![2u64, 4, 6]);
    assert!(list.contains(&2));
    assert!(list.contains(&6));
    assert!(!list.contains(&5));
}

#[test]
fn cursors_walk_in_order_and_fuse() {
    let list = SinglyLinkedList::from_vec(vec![1u64, 2, 3]);
    let mut it = list.iter();
    assert_eq!(it.next(), Some(&1));
    assert_eq!(it.next(), Some(&2));
    assert_eq!(it.next(), Some(&3));
    assert_eq!(it.next(), None);
    assert_eq!(it.next(), None);
    let mut it = list.into_iter();
    assert_eq!(it.next(), Some(1));
    assert_eq!(it.next(), Some(2));
    assert_eq!(it.next(), Some(3));
    assert_eq!(it.next(), None);
    assert_eq!(it.next(), None);
}

#[test]
fn mutable_cursor_updates_each_value() {
    let mut list = SinglyLinkedList::from_vec(vec![1u64, 2, 3]);
    let mut it = list.iter_mut();
    while let Some(v) = it.next() {
        *v = *v * 10;
    }
    assert_eq!(list.debug_string(), "[10, 20, 30]");
    let mut empty: SinglyLinkedList<u64> = SinglyLinkedList::new();
    let mut it = empty.iter_mut();
    assert!(it.next().is_none());
    assert!(it.next().is_none());
}

#[test]
fn clone_is_equal_but_independent() {
    let original = SinglyLinkedList::from_vec(vec![1u64, 2, 3]);
    let mut copy = original.clone();
    assert!(original == copy);
    let mut it = copy.iter_mut();
    while let Some(v) = it.next() {
        *v = *v + 100;
    }
    assert_eq!(copy.debug_string(), "[101, 102, 103]");
    assert_eq!(original.debug_string(), "[1, 2, 3]");
    assert!(original != copy);
    copy.push_back(4);
    assert_eq!(original.len(), 3);
}

#[test]
fn extend_and_default() {
    let mut list: SinglyLinkedList<u64> = Default::default();
    assert!(list.is_empty());
    list.extend_from_vec(vec![1u64, 2]);
    list.extend_copied(&vec![3u64, 4]);
    assert_eq!(list.debug_string(), "[1, 2, 3, 4]");
}

#[test]
fn lexicographic_order_of_lists() {
    let a = SinglyLinkedList::from_vec(vec![6u64, 7, 8]);
    let b = SinglyLinkedList::from_vec(vec![9u64, 10]);
    assert!(a < b);
    let prefix = SinglyLinkedList::from_vec(vec![6u64, 7]);
    let longer = SinglyLinkedList::from_vec(vec![6u64, 7, 0]);
    assert!(prefix < longer);
    let equal = SinglyLinkedList::from_vec(vec![6u64, 7]);
    assert!(!(prefix < equal) && !(equal < prefix));
    assert!(prefix == equal);
}
