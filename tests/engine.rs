use npuzzle::algorithm::Algorithm;
use npuzzle::engine::{NPuzzle, Outcome, PuzzleError};
use npuzzle::file::FileParsingError;
use npuzzle::goal::Goal;
use npuzzle::heuristique::Heuristique;
use npuzzle::utils::MAX_SIDE;

fn two_moves() -> String {
    "3\n1 2 3\n4 5 6\n0 7 8\n".to_string()
}

fn setup(text: String, algorithm: Algorithm, cap: u64, thread: usize) -> Result<NPuzzle, PuzzleError> {
    NPuzzle::new(
        text,
        Heuristique::Manhattan,
        algorithm,
        "std".to_string(),
        Goal::Standard,
        cap,
        false,
        thread,
    )
}

#[test]
fn astar_solves_two_moves() {
    let mut p = setup(two_moves(), Algorithm::AStar, 100, 1).unwrap();
    assert_eq!(p.open_list, vec![0]);
    assert_eq!(p.nodes.len(), 1);
    match p.run() {
        Outcome::Solved(s) => {
            assert_eq!(s.moves, 2);
            assert_eq!(s.path.len(), 3);
            assert_eq!(s.path[0], vec![vec![1, 2, 3], vec![4, 5, 6], vec![0, 7, 8]]);
            assert_eq!(s.path[1], vec![vec![1, 2, 3], vec![4, 5, 6], vec![7, 0, 8]]);
            assert_eq!(s.path[2], vec![vec![1, 2, 3], vec![4, 5, 6], vec![7, 8, 0]]);
            assert_eq!(s.iterations, 3);
            assert!(s.iterations <= 100);
        },
        other => panic!("expected a solution, got {:?}", other),
    }
}

#[test]
fn already_solved_board() {
    let mut p = setup("3\n1 2 3\n4 5 6\n7 8 0\n".to_string(), Algorithm::AStar, 10, 1).unwrap();
    match p.run() {
        Outcome::Solved(s) => {
            assert_eq!(s.moves, 0);
            assert_eq!(s.path.len(), 1);
            assert_eq!(s.iterations, 1);
        },
        other => panic!("expected a solution, got {:?}", other),
    }
}

#[test]
fn every_algorithm_reaches_goal() {
    for alg in [Algorithm::AStar, Algorithm::BStar, Algorithm::Greedy] {
        for thread in 1..4usize {
            let text = "3\n1 2 3\n0 4 6\n7 5 8\n".to_string();
            let mut p = setup(text, alg, 1000, thread).unwrap();
            match p.run() {
                Outcome::Solved(s) => {
                    assert_eq!(s.path.len() as u64, s.moves + 1);
                    assert_eq!(s.path[s.path.len() - 1], vec![vec![1, 2, 3], vec![4, 5, 6], vec![7, 8, 0]]);
                    assert_eq!(s.path[0], vec![vec![1, 2, 3], vec![0, 4, 6], vec![7, 5, 8]]);
                },
                other => panic!("expected a solution, got {:?}", other),
            }
        }
    }
}

#[test]
fn snail_goal_search() {
    let text = "3\n1 2 3\n8 4 0\n7 6 5\n".to_string();
    let mut p = NPuzzle::new(
        text,
        Heuristique::LinearConflict,
        Algorithm::AStar,
        "sandwich".to_string(),
        Goal::Snail,
        100,
        false,
        2,
    )
    .unwrap();
    match p.run() {
        Outcome::Solved(s) => {
            assert_eq!(s.path[s.path.len() - 1], vec![vec![1, 2, 3], vec![8, 0, 4], vec![7, 6, 5]]);
        },
        other => panic!("expected a solution, got {:?}", other),
    }
}

#[test]
fn iteration_cap_stops_search() {
    let mut p = setup(two_moves(), Algorithm::AStar, 1, 1).unwrap();
    assert!(matches!(p.run(), Outcome::IterationLimit));
    // one round closed the root; the node chosen next is back on the frontier
    assert_eq!(p.close_list, vec![0]);
    assert!(p.open_list.contains(&2));
    assert_eq!(p.open_list.len(), 2);
    let mut q = setup(two_moves(), Algorithm::AStar, 0, 1).unwrap();
    assert!(matches!(q.run(), Outcome::IterationLimit));
    assert_eq!(q.open_list, vec![0]);
    assert!(q.close_list.is_empty());
}

#[test]
fn empty_frontier_is_exhausted() {
    let mut p = setup(two_moves(), Algorithm::AStar, 100, 1).unwrap();
    p.open_list.clear();
    assert!(matches!(p.run(), Outcome::Exhausted));
    assert!(p.open_list.is_empty());
}

#[test]
fn greedy_prefers_new_children() {
    let mut p = setup(two_moves(), Algorithm::Greedy, 100, 3).unwrap();
    p.open_list.clear();
    let fresh = p.expand(&vec![0]);
    assert_eq!(fresh, vec![1, 2]);
    // an older frontier entry that comes first in frontier order
    p.open_list.push(0);
    let next = p.select(fresh);
    // both new children first, best first, then the frontier
    assert_eq!(next, vec![2, 1, 0]);
    assert!(p.open_list.is_empty());
}

#[test]
fn swapped_tiles_puzzle_is_refused() {
    let text = "3\n1 2 3\n4 5 6\n8 7 0\n".to_string();
    assert_eq!(setup(text, Algorithm::AStar, 100, 1).err(), Some(PuzzleError::Unsolvable));
}

#[test]
fn unsolvable_four_by_four() {
    let text = "4\n3 9 1 15\n14 11 4 6\n13 0 10 12\n2 7 8 5\n".to_string();
    assert_eq!(setup(text, Algorithm::AStar, 100, 1).err(), Some(PuzzleError::Unsolvable));
}

#[test]
fn setup_errors() {
    assert_eq!(
        setup("".to_string(), Algorithm::AStar, 100, 1).err(),
        Some(PuzzleError::File(FileParsingError::EmptyMap))
    );
    assert_eq!(
        setup("2\n1 2\n3 4\n".to_string(), Algorithm::AStar, 100, 1).err(),
        Some(PuzzleError::File(FileParsingError::NoEmptySpace))
    );
    let side = MAX_SIDE + 1;
    let mut big = format!("{}\n", side);
    for _ in 0..side {
        let row: Vec<String> = (0..side).map(|_| "0".to_string()).collect();
        big.push_str(&row.join(" "));
        big.push('\n');
    }
    assert_eq!(setup(big, Algorithm::AStar, 100, 1).err(), Some(PuzzleError::TooLarge));
    let bad_goal = NPuzzle::new(
        two_moves(),
        Heuristique::Manhattan,
        Algorithm::AStar,
        "std".to_string(),
        Goal::Custom("3\n1 2 3\n4 5 6\n7 9 0\n".to_string()),
        100,
        false,
        1,
    );
    assert_eq!(bad_goal.err(), Some(PuzzleError::GoalMismatch));
    let bad_strategy = NPuzzle::new(
        two_moves(),
        Heuristique::Manhattan,
        Algorithm::AStar,
        "zigzag".to_string(),
        Goal::Standard,
        100,
        false,
        1,
    );
    assert_eq!(bad_strategy.err(), Some(PuzzleError::UnknownStrategy));
}

#[test]
fn expand_and_select_one_round() {
    let mut p = setup(two_moves(), Algorithm::AStar, 100, 1).unwrap();
    let root = vec![0usize];
    p.open_list.clear();
    let fresh = p.expand(&root);
    // the empty cell at the bottom-left can move up or right
    assert_eq!(fresh, vec![1, 2]);
    assert_eq!(p.close_list, vec![0]);
    assert_eq!(p.nodes[1].parent, Some(0));
    assert_eq!(p.nodes[1].g, 1);
    assert_eq!(p.nodes[1].grid, vec![vec![1, 2, 3], vec![0, 5, 6], vec![4, 7, 8]]);
    assert_eq!(p.nodes[2].grid, vec![vec![1, 2, 3], vec![4, 5, 6], vec![7, 0, 8]]);
    assert_eq!(p.nodes[2].h, 1);
    assert_eq!(p.nodes[2].f, 2);
    let next = p.select(fresh);
    assert_eq!(next, vec![2]);
    assert_eq!(p.open_list, vec![1]);
    assert_eq!(p.max_state, 1);
    let grids = p.path_to(2);
    assert_eq!(grids.len(), 2);
}

#[test]
fn weighted_delta_priorities() {
    let mut p = setup(two_moves(), Algorithm::BStar, 100, 1).unwrap();
    assert_eq!(p.nodes[0].f, 0);
    p.open_list.clear();
    let fresh = p.expand(&vec![0]);
    // up: g 1 + h 3 - (0 + 2); right: g 1 + h 1 - (0 + 2)
    assert_eq!(p.nodes[fresh[0]].f, 2);
    assert_eq!(p.nodes[fresh[1]].f, 0);
}

#[test]
fn algorithm_names() {
    assert_eq!(Algorithm::parse("AStar".to_string()), Some(Algorithm::AStar));
    assert_eq!(Algorithm::parse("bstar".to_string()), Some(Algorithm::BStar));
    assert_eq!(Algorithm::parse("GREEDY".to_string()), Some(Algorithm::Greedy));
    assert_eq!(Algorithm::parse("dijkstra".to_string()), None);
}
