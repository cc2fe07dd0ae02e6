//! The approximation strategies, exercised over bitset hypotheses with
//! masses in micro-units (1.0 == 1_000_000).
use dst::approx::{Approximation, KX, Summarize};

#[test]
fn test_kx_full() {
    let input = vec![(1usize, 250_000u64), (2, 500_000), (3, 250_000)];
    for elem in KX::approx::<3>(&input).iter().flatten() {
        assert!(input.contains(elem));
    }
}

#[test]
fn test_kx_overflow() {
    let input = vec![(1usize, 250_000u64), (2, 200_000), (3, 250_000), (4, 300_000)];
    let output = vec![
        (1usize, 250_000u64 * 1_000_000 / 800_000),
        (3, 250_000 * 1_000_000 / 800_000),
        (4, 300_000 * 1_000_000 / 800_000),
    ];

    for elem in KX::approx::<3>(&input).iter().flatten() {
        assert!(output.contains(elem));
    }
}

#[test]
fn test_kx_incomplete() {
    let input = vec![(1usize, 500_000u64), (3, 500_000)];
    let output = vec![(1usize, 500_000u64), (3, 500_000), (0, 0)];

    for elem in KX::approx::<3>(&input).iter().flatten() {
        assert!(output.contains(elem));
    }
}

#[test]
fn test_summarize_full() {
    let input = vec![(1usize, 250_000u64), (2, 500_000), (3, 250_000)];
    for elem in Summarize::approx::<3>(&input).iter().flatten() {
        assert!(input.contains(elem));
    }
}

#[test]
fn test_summarize_overflow() {
    let input = vec![(1usize, 100_000u64), (2, 200_000), (3, 300_000), (4, 400_000)];
    let output = vec![(4usize, 400_000u64), (3, 300_000), (1 | 2, 100_000 + 200_000)];

    for elem in Summarize::approx::<3>(&input).iter().flatten() {
        assert!(output.contains(elem));
    }
}

#[test]
fn test_summarize_incomplete() {
    let input = vec![(1usize, 500_000u64), (3, 500_000)];
    let output = vec![(1usize, 500_000u64), (3, 500_000), (0, 0)];

    for elem in Summarize::approx::<3>(&input).iter().flatten() {
        assert!(output.contains(elem));
    }
}

// Mass conservation: Summarize preserves the total exactly, and Top-N
// rescales back to one unit within one micro-unit per retained element.
#[test]
fn summarize_conserves_mass() {
    let input = vec![
        (0b0001usize, 120_000u64),
        (0b0010, 180_000),
        (0b0100, 250_000),
        (0b1000, 300_000),
        (0b0011, 90_000),
        (0b1100, 60_000),
    ];
    let total_in: u64 = input.iter().map(|p| p.1).sum();
    let out = Summarize::approx::<3>(&input);
    let total_out: u64 = out.iter().flatten().map(|p| p.1).sum();
    assert_eq!(total_in, total_out);
}

#[test]
fn kx_conserves_mass_exactly() {
    let input = vec![
        (0b0001usize, 120_000u64),
        (0b0010, 180_000),
        (0b0100, 250_000),
        (0b1000, 300_000),
        (0b0011, 90_000),
        (0b1100, 60_000),
    ];
    let out = KX::approx::<3>(&input);
    let total_out: u64 = out.iter().flatten().map(|p| p.1).sum();
    assert_eq!(total_out, 1_000_000);
}

// Idempotence of Top-N: an already-bounded assignment comes back unchanged
// (up to reordering).
#[test]
fn kx_idempotent_when_bounded() {
    let input = vec![(0b001usize, 350_000u64), (0b010, 400_000), (0b100, 250_000)];
    let out = KX::approx::<4>(&input);
    let mut got: Vec<(usize, u64)> = out.iter().flatten().cloned().collect();
    let mut want = input.clone();
    got.sort();
    want.sort();
    assert_eq!(got, want);
}

#[test]
fn kx_empty_input_pads_with_none() {
    let input: Vec<(usize, u64)> = vec![];
    let out = KX::approx::<3>(&input);
    assert_eq!(out.len(), 3);
    assert!(out.iter().all(|s| s.is_none()));
}
