//! Belief and plausibility queries, and multi-source fusion, on the
//! traffic-light and high-conflict film scenarios.
use dst::approx::KX;
use dst::comb::{CombRule, Dempster, FusionError};
use dst::dst::{bel, comb_approx, pl};
use dst::set::WideBitset;

const RED: usize = 0b100;
const YELLOW: usize = 0b010;
const GREEN: usize = 0b001;

fn traffic_bba() -> Vec<(usize, u64)> {
    vec![
        (RED, 350_000),
        (YELLOW, 250_000),
        (GREEN, 150_000),
        (RED | YELLOW, 60_000),
        (RED | GREEN, 50_000),
        (YELLOW | GREEN, 40_000),
        (RED | YELLOW | GREEN, 100_000),
    ]
}

#[test]
fn test_bel() {
    let bba = traffic_bba();
    assert_eq!(bel(&bba, &RED), 350_000);
    assert_eq!(bel(&bba, &YELLOW), 250_000);
    assert_eq!(bel(&bba, &GREEN), 150_000);
    assert_eq!(bel(&bba, &(RED | YELLOW)), 660_000);
    assert_eq!(bel(&bba, &(RED | GREEN)), 550_000);
    assert_eq!(bel(&bba, &(YELLOW | GREEN)), 440_000);
    assert_eq!(bel(&bba, &(RED | YELLOW | GREEN)), 1_000_000);
}

#[test]
fn test_pl() {
    // tolerance of 0.001 in mass units: 1_000 micro-units
    let tol: i64 = 1_000;
    let bba = traffic_bba();
    assert!((pl(&bba, &RED) as i64 - 560_000).abs() < tol);
    assert!((pl(&bba, &YELLOW) as i64 - 450_000).abs() < tol);
    assert!((pl(&bba, &GREEN) as i64 - 340_000).abs() < tol);
    assert!((pl(&bba, &(RED | YELLOW)) as i64 - 850_000).abs() < tol);
    assert!((pl(&bba, &(RED | GREEN)) as i64 - 750_000).abs() < tol);
    assert!((pl(&bba, &(YELLOW | GREEN)) as i64 - 650_000).abs() < tol);
    assert!((pl(&bba, &(RED | YELLOW | GREEN)) as i64 - 1_000_000).abs() < tol);
}

// Belief is a lower bound and plausibility an upper bound: bel <= pl.
#[test]
fn bel_never_exceeds_pl() {
    let bba = traffic_bba();
    let queries = [
        RED,
        YELLOW,
        GREEN,
        RED | YELLOW,
        RED | GREEN,
        YELLOW | GREEN,
        RED | YELLOW | GREEN,
    ];
    for q in queries {
        assert!(bel(&bba, &q) <= pl(&bba, &q));
    }
}

#[test]
fn films_high_conflict() {
    const FILM_X: usize = 0b001;
    const FILM_Y: usize = 0b010;
    const FILM_Z: usize = 0b100;
    let films = vec![
        vec![(FILM_X, 990_000u64), (FILM_Y, 10_000)],
        vec![(FILM_Z, 990_000), (FILM_Y, 10_000)],
    ];

    let bba = comb_approx::<2, usize, KX, Dempster>(&films).unwrap();

    let eps: i64 = 1_000;

    // `FILM_Y` should carry essentially all the mass.
    assert!((bel(&bba, &FILM_Y) as i64 - 1_000_000).abs() < eps);
    assert!((bel(&bba, &FILM_X) as i64) < eps);
    assert!((bel(&bba, &FILM_Z) as i64) < eps);
}

// Combination commutativity: fusing A with B and B with A yields the same
// multiset of (hypothesis, mass) pairs.
#[test]
fn dempster_comb_commutes() {
    let a: Vec<Option<(usize, u64)>> = vec![
        Some((0b011, 600_000)),
        Some((0b110, 300_000)),
        Some((0b111, 100_000)),
    ];
    let b: Vec<Option<(usize, u64)>> = vec![
        Some((0b001, 500_000)),
        Some((0b100, 400_000)),
        Some((0b111, 100_000)),
    ];
    let mut ab = Dempster::comb::<3>(&a, &b).unwrap();
    let mut ba = Dempster::comb::<3>(&b, &a).unwrap();
    ab.sort();
    ba.sort();
    assert_eq!(ab, ba);
}

// Full contradiction: pairwise disjoint focal elements make the combined
// belief undefined, reported as an error rather than a silent overflow.
#[test]
fn full_contradiction_reported() {
    let a: Vec<Option<(usize, u64)>> = vec![Some((0b01, 1_000_000)), None];
    let b: Vec<Option<(usize, u64)>> = vec![Some((0b10, 1_000_000)), None];
    let r = Dempster::comb::<2>(&a, &b);
    assert_eq!(r, Err(FusionError::FullContradiction));
}

#[test]
fn empty_input_reported() {
    let none: Vec<Vec<(usize, u64)>> = vec![];
    let r = comb_approx::<2, usize, KX, Dempster>(&none);
    assert_eq!(r, Err(FusionError::EmptyInput));
}

#[test]
fn wide_bitset_engine() {
    // elementary hypotheses in the upper limb, beyond a 64-bit bitset
    let a = WideBitset { lo: 0, hi: 0b01 };
    let b = WideBitset { lo: 0, hi: 0b10 };
    let both = WideBitset { lo: 0, hi: 0b11 };
    let bba = vec![(a, 600_000u64), (b, 250_000), (both, 150_000)];
    assert_eq!(bel(&bba, &a), 600_000);
    assert_eq!(bel(&bba, &both), 1_000_000);
    assert_eq!(pl(&bba, &a), 750_000);
    assert!(bel(&bba, &a) <= pl(&bba, &a));
}

#[test]
fn comb_scales_by_conflict() {
    // one agreeing pair and one conflicting pair: K = 0.5, so the
    // surviving mass is renormalized by 1 / (1 - 0.5) = 2
    let a: Vec<Option<(usize, u64)>> = vec![Some((0b01, 500_000)), Some((0b10, 500_000))];
    let b: Vec<Option<(usize, u64)>> = vec![Some((0b01, 1_000_000)), None];
    let out = Dempster::comb::<2>(&a, &b).unwrap();
    assert_eq!(out, vec![(0b01, 1_000_000)]);
}
