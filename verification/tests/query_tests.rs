//! Direct combined-belief queries over several assignments at once.
use dst::query::comb_dempster_q;

#[test]
fn test_comb_dempster_q() {}

#[test]
fn comb_dempster_q_high_conflict() {
    const FILM_X: usize = 0b001;
    const FILM_Y: usize = 0b010;
    const FILM_Z: usize = 0b100;
    let films = vec![
        vec![(FILM_X, 990_000u64), (FILM_Y, 10_000)],
        vec![(FILM_Z, 990_000), (FILM_Y, 10_000)],
    ];

    // only the (Y, Y) tuple survives; after renormalizing by the
    // conflict, Y carries one whole unit of combined belief
    assert_eq!(comb_dempster_q(&films, FILM_Y), 1_000_000);
}

#[test]
fn comb_dempster_q_two_sensors() {
    const A: usize = 0b01;
    const B: usize = 0b10;
    let readings = vec![
        vec![(A, 600_000u64), (A | B, 400_000)],
        vec![(A, 500_000), (B, 500_000)],
    ];
    // tuples intersecting in exactly A: (A,A) = 0.30, (A|B, A) = 0.20;
    // conflict: (A, B) = 0.30; normalize by 1 / (1 - 0.30)
    let expected = 500_000_000_000u64 * 1_000_000 / 700_000_000_000;
    assert_eq!(comb_dempster_q(&readings, A), expected);
}
