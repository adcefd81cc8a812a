use containers::linkedlist::{DoublyLinkedList, LinkedList};
use std::rc::Rc;

#[test]
fn list_new_is_empty() {
    let mut l: DoublyLinkedList<u64> = LinkedList::new();
    assert!(l.is_empty());
    assert_eq!(l.len(), 0);
    assert!(l.pop().is_err());
}

#[test]
fn list_append_reads_back_in_order() {
    let mut l: DoublyLinkedList<u64> = LinkedList::new();
    let values = [4u64, 9, 2, 7];
    for v in values {
        assert!(l.append(v).is_ok());
    }
    assert!(!l.is_empty());
    assert_eq!(l.len(), values.len());
    for (i, v) in values.iter().enumerate() {
        assert_eq!(l.index(i), v);
    }
}

#[test]
fn list_insert_at_head_and_middle() {
    let mut l: DoublyLinkedList<u64> = LinkedList::new();
    assert!(l.append(2).is_ok());
    assert!(l.append(3).is_ok());
    assert!(l.insert_at(1, 0).is_ok());
    assert_eq!(l.len(), 3);
    assert_eq!(*l.index(0), 1);
    assert_eq!(*l.index(1), 2);
    assert_eq!(*l.index(2), 3);
    assert!(l.insert_at(9, 1).is_ok());
    assert_eq!(*l.index(0), 1);
    assert_eq!(*l.index(1), 9);
    assert_eq!(*l.index(2), 2);
    assert_eq!(*l.index(3), 3);
    // one past the last node is out of reach for insert_at
    assert!(l.insert_at(8, 4).is_err());
    assert_eq!(l.len(), 4);
}

#[test]
fn list_pop_until_empty_then_signals_error() {
    let mut l: DoublyLinkedList<u64> = LinkedList::new();
    for v in [1u64, 2, 3] {
        assert!(l.append(v).is_ok());
    }
    assert!(l.pop().is_ok());
    assert!(l.pop().is_ok());
    assert!(l.pop().is_ok());
    assert!(l.pop().is_err());
    assert!(l.pop().is_err());
    assert!(l.is_empty());
}

#[test]
fn list_remove_at_relinks_neighbors() {
    let mut l: DoublyLinkedList<u64> = LinkedList::new();
    for v in [1u64, 2, 3, 4] {
        assert!(l.append(v).is_ok());
    }
    assert_eq!(l.remove_at(1), Ok(2));
    assert_eq!(l.len(), 3);
    assert_eq!(*l.index(0), 1);
    assert_eq!(*l.index(1), 3);
    assert_eq!(*l.index(2), 4);
    assert!(l.remove_at(3).is_err());
    assert_eq!(l.remove_at(0), Ok(1));
    assert_eq!(*l.index(0), 3);
}

#[test]
fn list_remove_last_index_matches_pop() {
    let mut left: DoublyLinkedList<u64> = LinkedList::new();
    let mut right: DoublyLinkedList<u64> = LinkedList::new();
    for v in [5u64, 6, 7] {
        assert!(left.append(v).is_ok());
        assert!(right.append(v).is_ok());
    }
    assert_eq!(left.remove_at(2), Ok(7));
    assert!(right.pop().is_ok());
    assert_eq!(left.len(), right.len());
    for i in 0..left.len() {
        assert_eq!(left.index(i), right.index(i));
    }
}

#[test]
fn list_replace_all_and_search() {
    let mut l: DoublyLinkedList<u64> = LinkedList::new();
    for v in [10u64, 20, 40, 40, 20, 20, 20] {
        assert!(l.append(v).is_ok());
    }
    l.replace_all(20, 30);
    let expected = [10u64, 30, 40, 40, 30, 30, 30];
    for (i, v) in expected.iter().enumerate() {
        assert_eq!(l.index(i), v);
    }
    assert_eq!(l.find_one(40), Some(2));
    assert_eq!(l.find_one(20), None);
    let hits = l.find_all(30).expect("four matches");
    assert_eq!(hits, vec![1, 4, 5, 6]);
    assert!(l.find_all(20).is_none());
}

#[test]
fn list_swap_exchanges_positions() {
    let mut l: DoublyLinkedList<u64> = LinkedList::new();
    for v in [1u64, 2, 3] {
        assert!(l.append(v).is_ok());
    }
    l.swap(0, 2);
    assert_eq!(*l.index(0), 3);
    assert_eq!(*l.index(1), 2);
    assert_eq!(*l.index(2), 1);
    l.swap(0, 1);
    assert_eq!(*l.index(0), 2);
    assert_eq!(*l.index(1), 3);
    l.swap(1, 1);
    assert_eq!(*l.index(1), 3);
    assert_eq!(l.len(), 3);
}

#[test]
fn list_index_mut_overwrites() {
    let mut l: DoublyLinkedList<u64> = LinkedList::new();
    for v in [1u64, 2, 3] {
        assert!(l.append(v).is_ok());
    }
    l.index_mut(1, 9);
    assert_eq!(*l.index(0), 1);
    assert_eq!(*l.index(1), 9);
    assert_eq!(*l.index(2), 3);
}

#[test]
fn list_iteration_is_ordered_and_restartable() {
    let mut l: DoublyLinkedList<u64> = LinkedList::new();
    for v in [1u64, 2, 3] {
        assert!(l.append(v).is_ok());
    }
    let mut it = l.iter();
    assert_eq!(it.next(&l), Some(&1));
    assert_eq!(it.next(&l), Some(&2));
    assert_eq!(it.next(&l), Some(&3));
    assert_eq!(it.next(&l), None);
    assert_eq!(it.next(&l), None);
    let mut again = l.iter();
    assert_eq!(again.next(&l), Some(&1));
}

#[test]
fn list_size_of_value_counts_links_and_payload() {
    let mut l: DoublyLinkedList<u64> = LinkedList::new();
    for v in [1u64, 2, 3] {
        assert!(l.append(v).is_ok());
    }
    let per_node = 2 * std::mem::size_of::<Option<usize>>() + std::mem::size_of::<u64>();
    assert_eq!(l.size_of_value(), 3 * per_node);
}

#[test]
fn list_default_is_empty() {
    let l: DoublyLinkedList<u64> = Default::default();
    assert!(l.is_empty());
}

#[test]
fn list_drop_releases_every_node_once() {
    let tracker = Rc::new(7i32);
    {
        let mut l: DoublyLinkedList<Rc<i32>> = LinkedList::new();
        for _ in 0..8 {
            assert!(l.append(tracker.clone()).is_ok());
        }
        assert_eq!(Rc::strong_count(&tracker), 9);
        assert!(l.pop().is_ok());
        assert_eq!(Rc::strong_count(&tracker), 8);
        assert_eq!(Rc::strong_count(&l.remove_at(0).expect("non-empty")), 8);
    }
    assert_eq!(Rc::strong_count(&tracker), 1);
}
