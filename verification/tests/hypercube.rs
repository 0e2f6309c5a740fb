use sumcheck_gkr::hypercube::{generate_hypercube, hypercube_edges};

#[test]
fn test_hypercube_generation() {
    let empty: Vec<Vec<u8>> = vec![vec![]];
    assert_eq!(generate_hypercube(0), empty);
    assert_eq!(generate_hypercube(1), vec![vec![0], vec![1]]);
}

#[test]
fn hypercube_points_are_binary_digits_most_significant_first() {
    let cube = generate_hypercube(3);
    assert_eq!(cube.len(), 8);
    assert_eq!(cube[0], vec![0, 0, 0]);
    assert_eq!(cube[1], vec![0, 0, 1]);
    assert_eq!(cube[6], vec![1, 1, 0]);
}

#[test]
fn hypercube_edges_join_points_one_coordinate_apart() {
    assert_eq!(hypercube_edges(0), vec![]);
    assert_eq!(hypercube_edges(1), vec![(0, 1)]);
    assert_eq!(hypercube_edges(2), vec![(0, 1), (0, 2), (1, 3), (2, 3)]);
    let edges = hypercube_edges(3);
    assert_eq!(edges.len(), 12);
    assert!(edges.contains(&(6, 7)));
    assert!(edges.contains(&(3, 7)));
    assert!(!edges.contains(&(0, 3)));
}
