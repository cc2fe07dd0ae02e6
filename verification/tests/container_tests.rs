//! The bounded accumulator and the bounded top-K selector.
use dst::container::{PriorityHeap, SummationEM};
use dst::hashmap::CGHashMap;

#[test]
fn container_test_insert() {
    let mut shm = SummationEM::<3, usize>::default();
    shm.insert(0, 10);
    shm.insert(1, 20);
    shm.insert(0, 30);

    let out = shm.consume();
    assert_eq!(out[0], (0, 40));
    assert_eq!(out[1], (1, 20));
    assert_eq!(out.len(), 2);
}

#[test]
fn test_pq_simple() {
    let mut ph = PriorityHeap::<4, usize>::default();

    for x in 0..8u64 {
        ph.insert_by_key((x as usize, x));
    }

    // The selector should contain 8, 7, ... 8 - N; if they sum
    // equivalently we've captured them all.
    let total: u64 = ph.consume().iter().map(|p| p.1).sum();
    assert_eq!(total, (4..8u64).sum());
}

#[test]
fn heap_tie_keeps_existing_occupant() {
    let mut ph = PriorityHeap::<1, usize>::default();
    assert!(ph.insert_by_key((1, 5)).is_none());
    // equal mass: the incoming pair is rejected and handed back
    let displaced = ph.insert_by_key((2, 5));
    assert_eq!(displaced, Some((2, 5)));
    assert_eq!(ph.consume(), vec![(1, 5)]);
}

#[test]
fn heap_evicts_minimum() {
    let mut ph = PriorityHeap::<2, usize>::default();
    ph.insert_by_key((1, 10));
    ph.insert_by_key((2, 30));
    let displaced = ph.insert_by_key((3, 20));
    assert_eq!(displaced, Some((1, 10)));
    let out = ph.consume();
    assert!(out.contains(&(3, 20)));
    assert!(out.contains(&(2, 30)));
}

#[test]
fn summation_scale_rounds_toward_zero() {
    let mut shm = SummationEM::<2, usize>::default();
    shm.insert(1, 7);
    shm.insert(2, 10);
    shm.scale(1, 3);
    let out = shm.consume();
    assert_eq!(out, vec![(1, 2), (2, 3)]);
}

#[test]
fn cghashmap_accumulates_like_summation() {
    let mut map = CGHashMap::<3, usize>::default();
    map.insert(5, 100);
    map.insert(6, 50);
    map.insert(5, 25);
    map.scale(2, 1);
    let out = map.consume();
    assert_eq!(out, vec![(5, 250), (6, 100)]);
}
