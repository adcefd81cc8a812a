use containers::array::{Array, InsertArray, MemArray, RemoveArray, ReplaceArray, SearchArray};
use std::rc::Rc;

#[test]
fn array_test_new_empty_array() {
    let array: Array<u8> = Array::new();
    assert_eq!(array.len(), 0);
}

#[test]
fn array_test_fixed_size_array() {
    let mut array: Array<u8> =
        Array::with_capacity(10).expect("Failed allocating memory for new array");
    // Cause another memory allocation by exceeding capacity
    for _ in 0..15 {
        assert!(array.insert(1).is_ok());
    }
    assert_eq!(array.memory_used(), 20);
    assert_eq!(array.len(), 15);
}

#[test]
#[should_panic]
fn array_test_insert_and_index() {
    let mut array: Array<u8> = Array::new();
    for x in 0..100 {
        assert!(array.insert(x).is_ok());
    }
    assert_eq!(*array.index(0), 0);
    assert_eq!(*array.index(99), 99);
    // Index out of bounds causing panic at runtime
    let _ = array.index(100);
}

#[test]
fn array_test_grow() {
    let mut array: Array<u8> = Array::new();
    // Test allocating up to 2^16 == 16384 bytes of memory
    for i in 0..16 {
        assert!(array.grow().is_ok());
        assert_eq!(array.len(), 0);
        assert_eq!(array.memory_used(), usize::pow(2, i));
    }
}

#[test]
fn test_array_test_new_empty_array() {
    let array: Array<u8> = Array::new();
    assert_eq!(array.len(), 0);
}

#[test]
fn test_array_test_fixed_size_array() {
    let mut array: Array<u8> =
        Array::with_capacity(10).expect("Failed allocating memory for new array");
    for _ in 0..15 {
        assert!(array.insert(1).is_ok());
    }
    assert_eq!(array.memory_used(), 20);
    assert_eq!(array.len(), 15);
}

#[test]
#[should_panic]
fn test_array_test_insert_and_index() {
    let mut array: Array<u8> = Array::new();
    for x in 0..100 {
        assert!(array.insert(x).is_ok());
    }
    assert_eq!(*array.index(0), 0);
    assert_eq!(*array.index(99), 99);
    let _ = array.index(100);
}

#[test]
fn test_array_test_grow() {
    let mut array: Array<u8> = Array::new();
    for i in 0..16 {
        assert!(array.grow().is_ok());
        assert_eq!(array.len(), 0);
        assert_eq!(array.memory_used(), usize::pow(2, i));
    }
}

#[test]
fn array_insert_reads_back_in_order() {
    let mut array: Array<u64> = Array::new();
    let values = [4u64, 9, 2, 7, 7, 0];
    for v in values {
        assert!(array.insert(v).is_ok());
    }
    assert_eq!(array.len(), values.len());
    for (i, v) in values.iter().enumerate() {
        assert_eq!(array.index(i), v);
    }
}

#[test]
fn array_capacity_doubles_from_ten() {
    let mut array: Array<u8> = Array::with_capacity(10).expect("allocation");
    for _ in 0..10 {
        assert!(array.insert(0).is_ok());
    }
    assert_eq!(array.memory_used(), 10);
    assert!(array.insert(0).is_ok());
    assert_eq!(array.memory_used(), 20);
}

#[test]
fn array_round_trip_change_replace_pop_find_all() {
    let mut a: Array<u64> = Array::new();
    for v in [10u64, 20, 40, 40, 20, 20, 20] {
        assert!(a.insert(v).is_ok());
    }
    assert!(a.change(2, 30).is_ok());
    a.replace(20, 30);
    let expected = [10u64, 30, 30, 40, 30, 30, 30];
    assert_eq!(a.len(), expected.len());
    for (i, v) in expected.iter().enumerate() {
        assert_eq!(a.index(i), v);
    }
    assert_eq!(a.pop(), Some(30));
    let after_pop = [10u64, 30, 30, 40, 30, 30];
    assert_eq!(a.len(), after_pop.len());
    for (i, v) in after_pop.iter().enumerate() {
        assert_eq!(a.index(i), v);
    }
    let hits = a.find_all(30).expect("four matches remain");
    assert_eq!(hits.len(), 4);
    assert_eq!(*hits.index(0), 1);
    assert_eq!(*hits.index(1), 2);
    assert_eq!(*hits.index(2), 4);
    assert_eq!(*hits.index(3), 5);
}

#[test]
fn array_pop_until_empty_then_signals_absence() {
    let mut a: Array<u64> = Array::new();
    for v in [1u64, 2, 3] {
        assert!(a.insert(v).is_ok());
    }
    assert_eq!(a.pop(), Some(3));
    assert_eq!(a.pop(), Some(2));
    assert_eq!(a.pop(), Some(1));
    assert_eq!(a.pop(), None);
    assert_eq!(a.pop(), None);
    assert_eq!(a.len(), 0);
}

#[test]
fn array_remove_last_index_matches_pop() {
    let mut left: Array<u64> = Array::new();
    let mut right: Array<u64> = Array::new();
    for v in [5u64, 6, 7] {
        assert!(left.insert(v).is_ok());
        assert!(right.insert(v).is_ok());
    }
    let removed = left.remove(2).expect("last index is valid");
    let popped = right.pop().expect("array is non-empty");
    assert_eq!(removed, popped);
    assert_eq!(left.len(), right.len());
    for i in 0..left.len() {
        assert_eq!(left.index(i), right.index(i));
    }
}

#[test]
fn array_remove_shifts_left() {
    let mut a: Array<u64> = Array::new();
    for v in [1u64, 2, 3, 4] {
        assert!(a.insert(v).is_ok());
    }
    assert_eq!(a.remove(1), Ok(2));
    assert_eq!(a.len(), 3);
    assert_eq!(*a.index(0), 1);
    assert_eq!(*a.index(1), 3);
    assert_eq!(*a.index(2), 4);
    assert!(a.remove(3).is_err());
}

#[test]
fn array_change_rejects_out_of_bounds() {
    let mut a: Array<u64> = Array::new();
    assert!(a.insert(1).is_ok());
    assert!(a.change(0, 2).is_ok());
    assert_eq!(*a.index(0), 2);
    assert!(a.change(1, 3).is_err());
    assert_eq!(a.len(), 1);
}

#[test]
fn array_find_first_match_and_absence() {
    let mut a: Array<u64> = Array::new();
    for v in [8u64, 3, 8, 1] {
        assert!(a.insert(v).is_ok());
    }
    assert_eq!(a.find(8), Some(0));
    assert_eq!(a.find(1), Some(3));
    assert_eq!(a.find(99), None);
    assert!(a.find_all(99).is_none());
}

#[test]
fn array_index_mut_overwrites() {
    let mut a: Array<u64> = Array::new();
    for v in [1u64, 2, 3] {
        assert!(a.insert(v).is_ok());
    }
    *a.index_mut(1) = 9;
    assert_eq!(*a.index(1), 9);
    assert_eq!(a.len(), 3);
}

#[test]
fn array_default_is_empty() {
    let a: Array<u64> = Array::default();
    assert_eq!(a.len(), 0);
    assert_eq!(a.memory_used(), 0);
}

#[test]
fn array_with_capacity_rejects_zero_sized_layouts() {
    assert!(Array::<u8>::with_capacity(0).is_err());
    assert!(Array::<()>::with_capacity(4).is_err());
    assert!(Array::<u8>::with_capacity(4).is_ok());
}

#[test]
fn array_find_all_result_grows_by_doubling() {
    let mut a: Array<u64> = Array::new();
    for v in [3u64, 1, 3, 3] {
        assert!(a.insert(v).is_ok());
    }
    let hits = a.find_all(3).expect("three matches");
    assert_eq!(hits.len(), 3);
    assert_eq!(hits.memory_used(), 4);
    assert_eq!(*hits.index(0), 0);
    assert_eq!(*hits.index(1), 2);
    assert_eq!(*hits.index(2), 3);
}

#[test]
fn array_drop_releases_every_element_once() {
    let tracker = Rc::new(5i32);
    {
        let mut a: Array<Rc<i32>> = Array::new();
        for _ in 0..8 {
            assert!(a.insert(tracker.clone()).is_ok());
        }
        assert_eq!(Rc::strong_count(&tracker), 9);
        assert!(a.pop().is_some());
        assert_eq!(Rc::strong_count(&tracker), 8);
    }
    assert_eq!(Rc::strong_count(&tracker), 1);
}
