//! The interval hypothesis space.
use dst::interval::Interval;

const VALUES: [((i32, i32), (i32, i32)); 4] = [
    ((0, 10), (1, 11)),  // A.0 < B.0 && A.1 < B.1
    ((0, 10), (-1, 11)), // A.0 > B.0 && A.1 < B.1
    ((0, 10), (1, 9)),   // A.0 < B.0 && A.1 > B.1
    ((0, 10), (-1, 9)),  // A.0 > B.0 && A.1 > B.1
];

#[test]
fn test_interval_is_subset_regular() {
    const EXPECTED: [bool; VALUES.len()] = [false, true, false, false];
    for ((elem_a, elem_b), result) in VALUES.into_iter().zip(EXPECTED) {
        let a = Interval::<1>::build(vec![Some(elem_a)]);
        let b = Interval::<1>::build(vec![Some(elem_b)]);
        assert_eq!(a.is_subset(&b), result);
    }
}

#[test]
fn test_interval_is_subset_irregular() {
    let b = Interval::<1>::build(vec![Some((0, 10))]);

    assert!(Interval::<1>::empty().is_subset(&Interval::empty()));
    assert!(!Interval::<1>::empty().is_subset(&b));
    assert!(!b.is_subset(&Interval::empty()));
}

#[test]
fn test_interval_cup() {
    const EXPECTED: [(i32, i32); VALUES.len()] = [(0, 11), (-1, 11), (0, 10), (-1, 10)];
    for ((elem_a, elem_b), result) in VALUES.into_iter().zip(EXPECTED) {
        let a = Interval::<1>::build(vec![Some(elem_a)]);
        let b = Interval::<1>::build(vec![Some(elem_b)]);
        let c = Interval::<1>::build(vec![Some(result)]);
        assert_eq!(Interval::cup(&a, &b), c);
    }
}

#[test]
fn test_interval_cup_disjoint() {
    let a = Interval::<1>::build(vec![Some((0, 10))]);
    let b = Interval::<1>::build(vec![Some((11, 20))]);
    let c = Interval::cup(&a, &b);
    // a disjoint union is not representable: the hull stands in for it
    assert_eq!(c, Interval::<1>::build(vec![Some((0, 20))]));
}

#[test]
fn test_interval_cup_irregular() {
    let b = Interval::<1>::build(vec![Some((0, 10))]);
    assert_eq!(Interval::cup(&Interval::empty(), &b), b);
    assert_eq!(Interval::<1>::cup(&Interval::empty(), &Interval::empty()), Interval::empty());
}

#[test]
fn test_interval_cap() {
    const EXPECTED: [(i32, i32); VALUES.len()] = [(1, 10), (0, 10), (1, 9), (0, 9)];
    for ((elem_a, elem_b), result) in VALUES.into_iter().zip(EXPECTED) {
        let a = Interval::<1>::build(vec![Some(elem_a)]);
        let b = Interval::<1>::build(vec![Some(elem_b)]);
        let c = Interval::<1>::build(vec![Some(result)]);
        assert_eq!(Interval::cap(&a, &b), c);
    }
}

#[test]
fn test_interval_cap_disjoint() {
    let a = Interval::<1>::build(vec![Some((0, 10))]);
    let b = Interval::<1>::build(vec![Some((11, 20))]);
    assert_eq!(Interval::cap(&a, &b), Interval::empty());
}

#[test]
fn test_interval_cap_irregular() {
    let b = Interval::<1>::build(vec![Some((0, 10))]);
    assert_eq!(Interval::cap(&Interval::empty(), &b), Interval::empty());
}

#[test]
fn test_intersect_i32() {
    // Intervals are disjoint.
    let (a, b) = ((-1i32, 0i32), (1i32, 2i32));
    assert!(Interval::<1>::intersect(&a, &b).is_none());

    // Interval a is contained within interval b.
    let (a, b) = ((-1i32, 1i32), (-2i32, 2i32));
    assert!(Interval::<1>::intersect(&a, &b).is_some_and(|c| c == a));

    // Interval b is contained within interval a.
    let (a, b) = ((-2i32, 2i32), (-1i32, 1i32));
    assert!(Interval::<1>::intersect(&a, &b).is_some_and(|c| c == b));

    // Interval a overlaps with interval b on the left side.
    let (a, b) = ((-2i32, 1i32), (0i32, 2i32));
    assert!(Interval::<1>::intersect(&a, &b).is_some_and(|c| c == (0i32, 1i32)));

    // Interval b overlaps with interval a on the left side.
    let (a, b) = ((-2i32, 1i32), (-3i32, 0i32));
    assert!(Interval::<1>::intersect(&a, &b).is_some_and(|c| c == (-2i32, 0i32)));
}
