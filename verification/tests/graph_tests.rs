use degrees_of_separation::degrees_separation::adj_list;
use degrees_of_separation::degrees_separation::calculate_all_distances;
use degrees_of_separation::degrees_separation::find_distance;

#[test]
fn check_self_connection() {
    // Should return Some(0) if the same point is passed twice
    let adjacency_test: Vec<Vec<usize>> = vec![vec![], vec![1], vec![3], vec![2]];
    assert_eq!(find_distance(&adjacency_test, 1, 1), Some(0));
}

#[test]
fn check_one_degree() {
    // Should return Some(1) on a pair of points with one degree of separation
    let adjacency_test: Vec<Vec<usize>> = vec![vec![], vec![1], vec![3], vec![2]];
    assert_eq!(find_distance(&adjacency_test, 2, 3), Some(1));
}

#[test]
fn check_no_connections() {
    // Should return None on a point with no connections to the other point
    let adjacency_test: Vec<Vec<usize>> = vec![vec![], vec![1], vec![3], vec![2]];
    assert_eq!(find_distance(&adjacency_test, 0, 1), None);
}

#[test]
fn check_valid_connections_count() {
    // Total connections - valid connections = invalid connections
    let adjacency_test: Vec<Vec<usize>> = vec![vec![], vec![1], vec![3], vec![2]];
    let dist_info = calculate_all_distances(&adjacency_test);
    let distances = dist_info.0;

    #[allow(unused_variables)]
    let num_connections = dist_info.2;
    let invalid_connections = dist_info.3;
    let valid_connections = distances.len() - invalid_connections;

    println!("Invalid - (no connection or self connection): {}", invalid_connections);
    println!("Connections check: {}", distances.len() - invalid_connections);
    println!("Valid connections: {}", valid_connections);

    assert_eq!(invalid_connections, distances.len() - valid_connections)
}

#[test]
fn adjacency_of_small_graph() {
    // Nodes {0, 1, 2, 3} with edges (1,2) and (2,3), already compact
    let adj = adj_list(4, vec![1, 2], vec![2, 3]);
    let expected: Vec<Vec<usize>> = vec![vec![], vec![2], vec![1, 3], vec![2]];
    assert_eq!(adj, expected);
}

#[test]
fn adjacency_is_symmetric() {
    let nodes = vec![1, 2, 0];
    let edges = vec![2, 3, 4];
    let adj = adj_list(5, nodes.clone(), edges.clone());
    for k in 0..nodes.len() {
        assert!(adj[nodes[k]].contains(&edges[k]));
        assert!(adj[edges[k]].contains(&nodes[k]));
    }
}

#[test]
fn adjacency_keeps_self_loops_and_multiplicity() {
    // A self-loop appears twice in its own list; parallel edges are kept
    let adj = adj_list(2, vec![1, 0], vec![1, 1]);
    let expected: Vec<Vec<usize>> = vec![vec![1], vec![1, 1, 0]];
    assert_eq!(adj, expected);
}

#[test]
fn end_to_end_distances() {
    // All 10 pairs of the 4-node graph with edges (1,2), (2,3):
    // (0,0) (1,1) (2,2) (3,3) discarded; (0,1) (0,2) (0,3) unreachable;
    // (1,2) = 1, (1,3) = 2, (2,3) = 1
    let adj = adj_list(4, vec![1, 2], vec![2, 3]);
    assert_eq!(find_distance(&adj, 1, 3), Some(2));
    assert_eq!(find_distance(&adj, 0, 1), None);

    let (distances, organized, valid, invalid) = calculate_all_distances(&adj);
    assert_eq!(distances, vec![0, 0, 0, 1, 2, 1]);
    assert_eq!(valid, 3);
    assert_eq!(invalid, 3);
    assert_eq!(organized.len(), 4);
    assert_eq!(organized[0], vec![(0, 1), (0, 2), (0, 3)]);
    assert_eq!(organized[1], vec![(1, 2), (2, 3)]);
    assert_eq!(organized[2], vec![(1, 3)]);
    assert_eq!(organized[3], Vec::<(usize, usize)>::new());
}

#[test]
fn pair_count_conservation() {
    // valid + invalid + discarded self-pairs == u * (u + 1) / 2
    let adj = adj_list(4, vec![1, 2], vec![2, 3]);
    let (_, _, valid, invalid) = calculate_all_distances(&adj);
    let u = adj.len();
    assert_eq!(valid + invalid + u, u * (u + 1) / 2);
}

#[test]
fn empty_graph_has_no_pairs() {
    let adj = adj_list(0, vec![], vec![]);
    let (distances, organized, valid, invalid) = calculate_all_distances(&adj);
    assert!(distances.is_empty());
    assert!(organized.is_empty());
    assert_eq!(valid, 0);
    assert_eq!(invalid, 0);
}
