use tui_kit::algos::{connected, insort};

#[test]
fn insort_test() {
    let mut v = vec![1, 5, 8];

    insort(&mut v, 0);
    assert_eq!(v, vec![0, 1, 5, 8]);

    insort(&mut v, 3);
    assert_eq!(v, vec![0, 1, 3, 5, 8]);

    insort(&mut v, 9);
    assert_eq!(v, vec![0, 1, 3, 5, 8, 9]);
}

#[test]
fn insort_into_empty_and_duplicates() {
    let mut v: Vec<i32> = vec![];
    insort(&mut v, 4);
    assert_eq!(v, vec![4]);
    insort(&mut v, 4);
    assert_eq!(v, vec![4, 4]);
    insort(&mut v, -2);
    insort(&mut v, i32::MAX);
    insort(&mut v, i32::MIN);
    assert_eq!(v, vec![i32::MIN, -2, 4, 4, i32::MAX]);
}

#[test]
fn connected_test() {
    // Nodes are told apart by identity, not by value: all three hold 1.
    let nodes = vec![1, 1, 1];
    assert_eq!(nodes.len(), 3);
    let edges = vec![(0, 1), (1, 2)];
    assert!(connected(&edges, 0, 2));
    assert!(!connected(&edges, 2, 0))
}

#[test]
fn connected_needs_at_least_one_edge() {
    let edges: Vec<(usize, usize)> = vec![(0, 1)];
    assert!(!connected(&edges, 0, 0));
    assert!(connected(&edges, 0, 1));
    let cycle = vec![(0, 1), (1, 0)];
    assert!(connected(&cycle, 0, 0));
    assert!(!connected(&[], 3, 3));
}

#[test]
fn connected_follows_long_and_branching_paths() {
    let edges = vec![(4, 5), (3, 4), (0, 7), (2, 3), (1, 2), (0, 1), (7, 8)];
    assert!(connected(&edges, 0, 5));
    assert!(connected(&edges, 0, 8));
    assert!(!connected(&edges, 1, 8));
    assert!(!connected(&edges, 5, 0));
}
