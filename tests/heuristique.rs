use npuzzle::heuristique::Heuristique;
use npuzzle::strategy::Strategy;

fn total(h: Heuristique, grid: &Vec<Vec<i64>>, goal: &Vec<Vec<i64>>) -> u64 {
    h.process_h(goal, grid).iter().flatten().sum()
}

fn goal3() -> Vec<Vec<i64>> {
    vec![vec![1, 2, 3], vec![4, 5, 6], vec![7, 8, 0]]
}

#[test]
fn heuristics_zero_on_goal() {
    let goal = goal3();
    for h in [Heuristique::Hamming, Heuristique::Manhattan, Heuristique::LinearConflict] {
        assert_eq!(total(h, &goal, &goal), 0);
        let table = h.process_h(&goal, &goal);
        assert!(table.iter().flatten().all(|&c| c == 0));
    }
    let snail = vec![vec![1, 2, 3], vec![8, 0, 4], vec![7, 6, 5]];
    for h in [Heuristique::Hamming, Heuristique::Manhattan, Heuristique::LinearConflict] {
        assert_eq!(total(h, &snail, &snail), 0);
    }
}

#[test]
fn swapped_tiles_manhattan_two() {
    let grid = vec![vec![1, 2, 3], vec![4, 5, 6], vec![8, 7, 0]];
    let goal = goal3();
    assert_eq!(total(Heuristique::Manhattan, &grid, &goal), 2);
    assert_eq!(
        Heuristique::Manhattan.process_h(&goal, &grid),
        vec![vec![0, 0, 0], vec![0, 0, 0], vec![1, 1, 0]]
    );
    assert_eq!(total(Heuristique::Hamming, &grid, &goal), 2);
    assert_eq!(total(Heuristique::LinearConflict, &grid, &goal), 2);
}

#[test]
fn hamming_skips_empty_cell() {
    let grid = vec![vec![1, 2, 3], vec![4, 5, 6], vec![7, 0, 8]];
    let goal = goal3();
    // 8 is out of place; the empty cell is not counted
    assert_eq!(total(Heuristique::Hamming, &grid, &goal), 1);
}

#[test]
fn linear_conflict_penalty_per_tile() {
    let grid = vec![vec![3, 2, 1], vec![4, 5, 6], vec![7, 8, 0]];
    let goal = goal3();
    assert_eq!(total(Heuristique::Manhattan, &grid, &goal), 4);
    assert_eq!(
        Heuristique::LinearConflict.process_h(&goal, &grid),
        vec![vec![3, 0, 3], vec![0, 0, 0], vec![0, 0, 0]]
    );
    assert_eq!(total(Heuristique::LinearConflict, &grid, &goal), 6);
}

#[test]
fn manhattan_never_above_linear_conflict() {
    let goal = goal3();
    let grids = vec![
        vec![vec![1, 8, 2], vec![0, 4, 3], vec![7, 6, 5]],
        vec![vec![8, 7, 6], vec![5, 4, 3], vec![2, 1, 0]],
        vec![vec![0, 1, 2], vec![3, 4, 5], vec![6, 7, 8]],
    ];
    for g in grids.iter() {
        assert!(total(Heuristique::Manhattan, g, &goal) <= total(Heuristique::LinearConflict, g, &goal));
    }
}

#[test]
fn heuristic_is_repeatable() {
    let goal = goal3();
    let grid = vec![vec![1, 8, 2], vec![0, 4, 3], vec![7, 6, 5]];
    for h in [Heuristique::Hamming, Heuristique::Manhattan, Heuristique::LinearConflict] {
        assert_eq!(h.process_h(&goal, &grid), h.process_h(&goal.clone(), &grid.clone()));
    }
}

#[test]
fn heuristic_names() {
    assert_eq!(Heuristique::parse("Hamming".to_string()), Some(Heuristique::Hamming));
    assert_eq!(Heuristique::parse("STD".to_string()), Some(Heuristique::Manhattan));
    assert_eq!(Heuristique::parse("manhattan".to_string()), Some(Heuristique::Manhattan));
    assert_eq!(Heuristique::parse("LinearConflict".to_string()), Some(Heuristique::LinearConflict));
    assert_eq!(Heuristique::parse("euclid".to_string()), None);
}

#[test]
fn standard_strategy_sums_shares() {
    let goal = goal3();
    let grid = vec![vec![3, 2, 1], vec![4, 5, 6], vec![7, 8, 0]];
    let mut s = Strategy::parse("standard".to_string(), Heuristique::LinearConflict).unwrap();
    s.init(&goal);
    assert_eq!(s.process(&grid, &goal), 6);
    assert_eq!(s.process(&goal, &goal), 0);
}

#[test]
fn sandwich_strategy_squares_weights() {
    let goal = goal3();
    let grid = vec![vec![1, 2, 3], vec![4, 5, 6], vec![8, 7, 0]];
    let mut s = Strategy::parse("Sandwich".to_string(), Heuristique::Manhattan).unwrap();
    s.init(&goal);
    match &s {
        Strategy::Sandwich(w, _) => {
            assert_eq!(w, &vec![vec![3, 3, 3], vec![3, 2, 2], vec![3, 2, 1]]);
        },
        _ => panic!("expected the sandwich strategy"),
    }
    // 1 * 3^2 + 1 * 2^2
    assert_eq!(s.process(&grid, &goal), 13);
    assert_eq!(s.process(&goal, &goal), 0);
}

#[test]
fn cross_strategy_linear_weights() {
    let goal = goal3();
    let grid = vec![vec![1, 2, 3], vec![4, 5, 6], vec![8, 7, 0]];
    let mut s = Strategy::parse("cross".to_string(), Heuristique::Manhattan).unwrap();
    s.init(&goal);
    match &s {
        Strategy::Cross(w, _) => {
            assert_eq!(w, &vec![vec![5, 4, 3], vec![4, 3, 2], vec![3, 2, 1]]);
        },
        _ => panic!("expected the cross strategy"),
    }
    // 1 * 3 + 1 * 2
    assert_eq!(s.process(&grid, &goal), 5);
}

#[test]
fn unknown_strategy_name() {
    assert!(Strategy::parse("diagonal".to_string(), Heuristique::Manhattan).is_none());
    assert!(matches!(
        Strategy::parse("STD".to_string(), Heuristique::Hamming),
        Some(Strategy::Standard(Heuristique::Hamming))
    ));
}

#[test]
fn per_heuristic_tables() {
    let goal = goal3();
    let grid = vec![vec![3, 2, 1], vec![4, 5, 6], vec![7, 8, 0]];
    assert_eq!(
        Heuristique::process_manhattan(&grid, &goal),
        vec![vec![2, 0, 2], vec![0, 0, 0], vec![0, 0, 0]]
    );
    assert_eq!(
        Heuristique::process_hamming(&grid, &goal),
        vec![vec![1, 0, 1], vec![0, 0, 0], vec![0, 0, 0]]
    );
    assert_eq!(
        Heuristique::process_linearconflict(&goal, &goal),
        vec![vec![0, 0, 0], vec![0, 0, 0], vec![0, 0, 0]]
    );
}
