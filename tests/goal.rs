use npuzzle::goal::Goal;

#[test]
fn test_goals() {
    let goal: Goal = Goal::Snail;
    assert_eq!(
        goal.generate(3, &vec![vec![3, 1, 5], vec![4, 2, 6], vec![0, 8, 7]]),
        Some(vec![vec![1, 2, 3], vec![8, 0, 4], vec![7, 6, 5]])
    );
}

#[test]
fn snail_goal_of_side_four() {
    let map = vec![
        vec![15, 14, 13, 12],
        vec![11, 10, 9, 8],
        vec![7, 6, 5, 4],
        vec![3, 2, 1, 0],
    ];
    assert_eq!(
        Goal::Snail.generate(4, &map),
        Some(vec![
            vec![1, 2, 3, 4],
            vec![12, 13, 14, 5],
            vec![11, 0, 15, 6],
            vec![10, 9, 8, 7],
        ])
    );
}

#[test]
fn standard_goal_row_major() {
    let map = vec![vec![3, 1, 5], vec![4, 2, 6], vec![0, 8, 7]];
    assert_eq!(
        Goal::Standard.generate(3, &map),
        Some(vec![vec![1, 2, 3], vec![4, 5, 6], vec![7, 8, 0]])
    );
    let map4 = vec![
        vec![0, 1, 2, 3],
        vec![4, 5, 6, 7],
        vec![8, 9, 10, 11],
        vec![12, 13, 14, 15],
    ];
    assert_eq!(
        Goal::Standard.generate(4, &map4),
        Some(vec![
            vec![1, 2, 3, 4],
            vec![5, 6, 7, 8],
            vec![9, 10, 11, 12],
            vec![13, 14, 15, 0],
        ])
    );
}

#[test]
fn custom_goal_from_text() {
    let map = vec![vec![3, 1], vec![2, 0]];
    let goal = Goal::Custom("2\n0 1\n2 3\n".to_string());
    assert_eq!(goal.generate(2, &map), Some(vec![vec![0, 1], vec![2, 3]]));
}

#[test]
fn custom_goal_with_other_values_is_refused() {
    let map = vec![vec![3, 1], vec![2, 0]];
    let goal = Goal::Custom("2\n0 1\n2 4\n".to_string());
    assert_eq!(goal.generate(2, &map), None);
    let wrong_side = Goal::Custom("1\n0\n".to_string());
    assert_eq!(wrong_side.generate(2, &map), None);
    let bad_text = Goal::Custom("two\n".to_string());
    assert_eq!(bad_text.generate(2, &map), None);
}

#[test]
fn goal_names() {
    assert!(matches!(Goal::parse("Snail".to_string(), String::new()), Goal::Snail));
    assert!(matches!(Goal::parse("STD".to_string(), String::new()), Goal::Standard));
    assert!(matches!(Goal::parse("standard".to_string(), String::new()), Goal::Standard));
    match Goal::parse("custom".to_string(), "2\n1 0\n2 3".to_string()) {
        Goal::Custom(t) => assert_eq!(t, "2\n1 0\n2 3"),
        _ => panic!("expected a custom goal"),
    }
}
