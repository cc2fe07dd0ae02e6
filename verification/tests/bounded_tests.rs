//! The sorted bounded priority queue and the array-shaped approximation
//! entry points.
use dst::bounded::{kx, summarize, BoundedPriorityQueue};

#[test]
fn approx_test_insert() {
    const N: usize = 3;
    let test_range = -10..10;
    let mut bpq_n: BoundedPriorityQueue<i32, N> = BoundedPriorityQueue::new();

    for v in test_range.clone() {
        bpq_n.insert(v);
    }

    // The queue should have the N largest values (the 3 at the end of the
    // range).
    let held = bpq_n.consume();
    let iter = test_range.rev().take(N).rev();
    for (a, b) in iter.zip(held.iter()) {
        assert_eq!(a, *b);
    }
}

#[test]
fn test_insert_by_key() {
    const N: usize = 3;
    let test_range = (0..20usize).zip(-10..10i32);
    let mut bpq_n: BoundedPriorityQueue<(usize, i32), N> = BoundedPriorityQueue::new();

    for v in test_range.clone() {
        bpq_n.insert_by_key(v);
    }

    // The queue should have the N largest values (the 3 at the end of the
    // range).
    let held = bpq_n.consume();
    let iter = test_range.rev().take(N).rev();
    for (a, b) in iter.zip(held.iter()) {
        assert_eq!(a, *b);
    }
}

#[test]
fn test_uninitialized() {
    const N: usize = 50;
    let test_range = -10..10;
    let mut bpq_n: BoundedPriorityQueue<i32, N> = BoundedPriorityQueue::new();

    for v in test_range.clone() {
        bpq_n.insert(v);
    }

    // The queue hands back only what was inserted, not N slots.
    let held = bpq_n.consume();
    assert_eq!(held.len(), test_range.clone().count());
    for (a, b) in test_range.zip(held.iter()) {
        assert_eq!(a, *b);
    }
}

#[test]
fn queue_keeps_arrival_order_while_filling() {
    let mut q: BoundedPriorityQueue<i32, 5> = BoundedPriorityQueue::new();
    q.insert(5);
    q.insert(3);
    q.insert(4);
    assert_eq!(q.consume(), vec![5, 3, 4]);
}

#[test]
fn queue_sorts_once_it_fills() {
    let mut q: BoundedPriorityQueue<i32, 3> = BoundedPriorityQueue::new();
    q.insert(5);
    q.insert(3);
    q.insert(4);
    assert_eq!(q.consume(), vec![3, 4, 5]);
}

#[test]
fn summarize_fn_keeps_residual_in_last_slot() {
    let input = vec![(0b0001usize, 100_000u64), (0b0010, 200_000), (0b0100, 300_000), (0b1000, 400_000)];
    let out = summarize::<3, usize>(&input);
    assert_eq!(out.len(), 3);
    // the two largest elements survive, the rest merge into the residual
    assert!(out.contains(&(0b0100, 300_000)));
    assert!(out.contains(&(0b1000, 400_000)));
    assert_eq!(out[2], (0b0011, 300_000));
}

#[test]
fn kx_fn_renormalizes() {
    let input = vec![(0b001usize, 250_000u64), (0b010, 200_000), (0b100, 250_000), (0b011, 300_000)];
    let out = kx::<3, usize>(&input);
    assert_eq!(out.len(), 3);
    assert!(out.contains(&(0b001, 312_500)));
    assert!(out.contains(&(0b100, 312_500)));
    assert!(out.contains(&(0b011, 375_000)));
}
