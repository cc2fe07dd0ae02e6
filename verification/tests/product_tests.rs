//! The Cartesian-product cursor.
use dst::product::CartesianProduct;

fn items() -> Vec<Vec<usize>> {
    vec![vec![1], vec![3, 4, 5, 6], vec![1, 2, 3]]
}

#[test]
fn product_test_inc_single() {
    let mut product = CartesianProduct::<3, usize>::new(items());

    // A single increment should have incremented the second index.
    assert!(product.inc(0).is_ok());
    assert_eq!(product.indices[0], 0);
    assert_eq!(product.indices[1], 1);
    assert_eq!(product.indices[2], 0);
}

#[test]
fn product_test_inc_multiple() {
    let mut product = CartesianProduct::<3, usize>::new(items());

    for _ in 0..6 {
        assert!(product.inc(0).is_ok());
    }
    assert_ne!(product.indices[2], 0);
}

#[test]
fn product_test_inc_consuming() {
    let mut product = CartesianProduct::<3, usize>::new(items());

    // The indices of the first value have been produced (0, 0, ...), so
    // the total is `-1`.
    let total_items = (1 * 4 * 3) - 1;
    for _ in 0..total_items {
        assert!(product.inc(0).is_ok());
    }

    assert!(product.inc(0).is_err());
}

#[test]
fn product_test_iterator() {
    let mut product = CartesianProduct::<3, usize>::new(items());

    // Iterate over all values within the second collection.
    assert_eq!(product.next().unwrap(), vec![1usize, 3, 1]);
    assert_eq!(product.next().unwrap(), vec![1usize, 4, 1]);
    assert_eq!(product.next().unwrap(), vec![1usize, 5, 1]);
    assert_eq!(product.next().unwrap(), vec![1usize, 6, 1]);

    // Roll over the last collection.
    assert_eq!(product.next().unwrap(), vec![1usize, 3, 2]);
}

#[test]
fn product_test_iterator_consumed() {
    let mut product = CartesianProduct::<3, usize>::new(items());

    // The total items isn't -1 here; we effectively return
    // the last computed value.
    let total_items = 1 * 4 * 3;
    for _ in 0..total_items {
        assert!(product.next().is_some());
    }

    assert!(product.next().is_none());
}
