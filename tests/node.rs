use npuzzle::node::Node;

#[test]
fn test_node_equality() {
    let first = Node {
        grid: vec![vec![0; 3]; 3],
        f: 10,
        g: 5,
        h: 5,
        parent: None,
    };
    let second = first.clone();
    assert_eq!(true, first == second);
}

#[test]
fn test_node_inequality() {
    let first = Node {
        grid: vec![vec![0; 3]; 3],
        f: 10,
        g: 5,
        h: 5,
        parent: None,
    };
    let mut second = first.clone();
    second.g = 3;
    assert_eq!(false, first == second);
}

#[test]
fn node_order_lower_priority_then_fewer_moves() {
    let a = Node { grid: vec![vec![0]], f: 4, g: 1, h: 3, parent: None };
    let b = Node { grid: vec![vec![0]], f: 5, g: 0, h: 5, parent: None };
    let c = Node { grid: vec![vec![0]], f: 4, g: 2, h: 2, parent: None };
    assert!(a.is_before(&b));
    assert!(!b.is_before(&a));
    assert!(a.is_before(&c));
    assert!(!c.is_before(&a));
    assert!(!a.is_before(&a));
}
