use npuzzle::utils::{creat_new_rand, find_nb, interversion, same_grid, solvable, with_duplicate};
use npuzzle::file::parse_file;

#[test]
fn test_interversion_1() {
    let i = interversion(
        &vec![vec![1, 2, 3], vec![4, 5, 6], vec![8, 7, 0]],
        &vec![vec![1, 2, 3], vec![4, 5, 6], vec![7, 8, 0]],
    );
    assert_eq!(1 as usize, i);
}

#[test]
fn test_interversion_2() {
    let i = interversion(
        &vec![vec![0, 2, 3], vec![4, 5, 6], vec![7, 8, 1]],
        &vec![vec![1, 2, 3], vec![4, 5, 6], vec![7, 8, 0]],
    );
    assert_eq!(7 as usize, i);
}

#[test]
fn test_find_nb_1() {
    let v = &vec![vec![1, 2, 3], vec![4, 5, 6], vec![7, 8, 0]];
    let coord = find_nb(0, v);
    assert_eq!((2, 2), coord);
}

#[test]
fn find_nb_missing_value() {
    let v = &vec![vec![1, 2, 3], vec![4, 5, 6], vec![7, 8, 0]];
    assert_eq!((-1, -1), find_nb(9, v));
}

#[test]
fn find_nb_first_of_repeated_value() {
    let v = &vec![vec![1, 5], vec![5, 0]];
    assert_eq!((0, 1), find_nb(5, v));
}

#[test]
fn test_solvable_1() {
    let initial = &vec![vec![1, 8, 2], vec![0, 4, 3], vec![7, 6, 5]];
    let goal = &vec![vec![1, 2, 3], vec![4, 5, 6], vec![7, 8, 0]];
    assert_eq!(true, solvable(initial, goal));
}

#[test]
fn test_solvable_2() {
    let initial = &vec![
        vec![13, 2, 10, 3],
        vec![1, 12, 8, 4],
        vec![5, 0, 9, 6],
        vec![15, 14, 11, 7],
    ];
    let goal = &vec![
        vec![1, 2, 3, 4],
        vec![5, 6, 7, 8],
        vec![9, 10, 11, 12],
        vec![13, 14, 15, 0],
    ];
    assert_eq!(true, solvable(initial, goal));
}

#[test]
fn test_solvable_3() {
    let initial = &vec![
        vec![6, 13, 7, 10],
        vec![8, 9, 11, 0],
        vec![15, 2, 12, 5],
        vec![14, 3, 1, 4],
    ];
    let goal = &vec![
        vec![1, 2, 3, 4],
        vec![5, 6, 7, 8],
        vec![9, 10, 11, 12],
        vec![13, 14, 15, 0],
    ];
    assert_eq!(true, solvable(initial, goal));
}

#[test]
fn test_solvable_4() {
    let initial = &vec![
        vec![3, 9, 1, 15],
        vec![14, 11, 4, 6],
        vec![13, 0, 10, 12],
        vec![2, 7, 8, 5],
    ];
    let goal = &vec![
        vec![1, 2, 3, 4],
        vec![5, 6, 7, 8],
        vec![9, 10, 11, 12],
        vec![13, 14, 15, 0],
    ];
    assert_eq!(false, solvable(initial, goal));
}

#[test]
fn solvable_grid_against_itself() {
    let g = &vec![vec![3, 1, 2], vec![0, 8, 7], vec![5, 4, 6]];
    assert!(solvable(g, g));
    let h = &vec![vec![2, 1], vec![3, 0]];
    assert!(solvable(h, h));
}

#[test]
fn swapped_tiles_one_inversion_unsolvable() {
    let initial = &vec![vec![1, 2, 3], vec![4, 5, 6], vec![8, 7, 0]];
    let goal = &vec![vec![1, 2, 3], vec![4, 5, 6], vec![7, 8, 0]];
    assert_eq!(1, interversion(initial, goal));
    // one inversion on an odd side: the parity law refuses it
    assert_eq!(false, solvable(initial, goal));
}

#[test]
fn solvable_is_repeatable() {
    let initial = &vec![vec![1, 8, 2], vec![0, 4, 3], vec![7, 6, 5]];
    let goal = &vec![vec![1, 2, 3], vec![4, 5, 6], vec![7, 8, 0]];
    let first = solvable(initial, goal);
    let second = solvable(&initial.clone(), &goal.clone());
    assert_eq!(first, second);
    assert_eq!(interversion(initial, goal), interversion(initial, goal));
}

#[test]
fn test_duplicate_1() {
    let initial = &vec![
        vec![1, 9, 1, 15],
        vec![14, 11, 4, 6],
        vec![13, 0, 10, 12],
        vec![2, 7, 8, 5],
    ];
    assert_eq!(true, with_duplicate(initial));
}

#[test]
fn test_duplicate_2() {
    let initial = &vec![
        vec![1, 2, 3, 4],
        vec![5, 6, 7, 8],
        vec![9, 10, 11, 12],
        vec![13, 14, 15, 0],
    ];
    assert_eq!(false, with_duplicate(initial));
}

#[test]
fn test_duplicate_3() {
    let initial = &vec![
        vec![1, 2, 3, 4],
        vec![5, 1, 7, 8],
        vec![9, 10, 11, 12],
        vec![13, 14, 15, 0],
    ];
    assert_eq!(true, with_duplicate(initial));
}

#[test]
fn test_duplicate_4() {
    let initial = &vec![
        vec![1, 2, 3, 4],
        vec![5, 6, 7, 8],
        vec![9, 10, 11, 12],
        vec![1, 14, 15, 0],
    ];
    assert_eq!(true, with_duplicate(initial));
}

#[test]
fn duplicate_across_rows_and_columns() {
    let initial = &vec![vec![0, 7], vec![7, 1]];
    assert_eq!(true, with_duplicate(initial));
}

#[test]
fn same_grid_compares_contents() {
    let a = vec![vec![1, 2], vec![3, 0]];
    assert!(same_grid(&a, &a.clone()));
    assert!(!same_grid(&a, &vec![vec![1, 2], vec![0, 3]]));
    assert!(!same_grid(&a, &vec![vec![1, 2]]));
}

#[test]
fn random_board_is_a_valid_file() {
    for size in 1..5usize {
        let text = creat_new_rand(size);
        let (n, grid) = parse_file(text).unwrap();
        assert_eq!(n, size as i64);
        assert_eq!(grid.len(), size);
        assert!(!with_duplicate(&grid));
        let mut values: Vec<i64> = grid.iter().flatten().cloned().collect();
        values.sort();
        let expected: Vec<i64> = (0..(size * size) as i64).collect();
        assert_eq!(values, expected);
    }
}

#[test]
fn random_board_text_layout() {
    let text = creat_new_rand(1);
    assert_eq!(text, "1\n\n0");
    let text = creat_new_rand(2);
    let lines: Vec<&str> = text.split('\n').collect();
    assert_eq!(lines.len(), 4);
    assert_eq!(lines[0], "2");
    assert_eq!(lines[1], "");
    assert_eq!(lines[2].split(' ').count(), 2);
}
