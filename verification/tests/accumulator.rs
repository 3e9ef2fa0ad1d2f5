use reactive_state::utils::inf_vec::InfVec;
use reactive_state::utils::usize_set::USizeSet;

#[test]
fn set_insert_is_idempotent() {
    let mut s = USizeSet::new();
    s.insert(5);
    s.insert(9);
    s.insert(5);
    assert_eq!(s.len(), 2);
    assert_eq!(s.index(0), 5);
    assert_eq!(s.index(1), 9);
    s.clear();
    assert_eq!(s.len(), 0);
}

#[test]
fn set_keeps_insertion_order() {
    let mut s = USizeSet::new();
    s.insert(100);
    s.insert(0);
    s.insert(7);
    assert_eq!(s.len(), 3);
    assert_eq!(s.index(0), 100);
    assert_eq!(s.index(1), 0);
    assert_eq!(s.index(2), 7);
}

#[test]
fn slots_start_empty_and_take_once() {
    let mut v: InfVec<u32> = InfVec::new();
    assert!(!v.is_set(3));
    v.set(3, 42);
    assert!(v.is_set(3));
    assert!(!v.is_set(2));
    assert_eq!(v.take(3), Some(42));
    assert_eq!(v.take(3), None);
    v.set(0, 1);
    v.clear();
    assert!(!v.is_set(0));
}

#[test]
fn iter_walks_in_insertion_order() {
    let mut s = USizeSet::new();
    s.insert(8);
    s.insert(3);
    s.insert(8);
    let mut it = s.iter();
    assert_eq!(it.next(), Some(8));
    assert_eq!(it.next(), Some(3));
    assert_eq!(it.next(), None);
}
