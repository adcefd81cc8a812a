use containers::array::{Array, InsertArray, MemArray};
use containers::linkedlist::{DoublyLinkedList, LinkedList};
use containers::text::u64_to_decimal;

#[test]
fn render_empty_array_is_brackets() {
    let a: Array<u64> = Array::new();
    assert_eq!(a.to_text(), "[]");
}

#[test]
fn render_single_element_has_no_separator() {
    let mut a: Array<u64> = Array::new();
    assert!(a.insert(7).is_ok());
    assert_eq!(a.to_text(), "[7]");
}

#[test]
fn render_array_separates_with_comma_space() {
    let mut a: Array<u64> = Array::new();
    for v in [1u64, 2, 3] {
        assert!(a.insert(v).is_ok());
    }
    assert_eq!(a.to_text(), "[1, 2, 3]");
}

#[test]
fn render_empty_list_is_brackets() {
    let l: DoublyLinkedList<u64> = LinkedList::new();
    assert_eq!(l.to_text(), "[]");
}

#[test]
fn render_single_element_list() {
    let mut l: DoublyLinkedList<u64> = LinkedList::new();
    assert!(l.append(42).is_ok());
    assert_eq!(l.to_text(), "[42]");
}

#[test]
fn render_list_in_chain_order() {
    let mut l: DoublyLinkedList<u64> = LinkedList::new();
    for v in [10u64, 0, 305] {
        assert!(l.append(v).is_ok());
    }
    assert_eq!(l.to_text(), "[10, 0, 305]");
}

#[test]
fn decimal_rendering_exact_values() {
    assert_eq!(u64_to_decimal(0), "0");
    assert_eq!(u64_to_decimal(9), "9");
    assert_eq!(u64_to_decimal(10), "10");
    assert_eq!(u64_to_decimal(12345), "12345");
    assert_eq!(u64_to_decimal(u64::MAX), "18446744073709551615");
}
