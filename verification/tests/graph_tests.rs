use graph_separation::data_preprocessing::create_adjacency_list;
use graph_separation::degrees_separation::bfs_connectivity;

#[test]
fn test_self_connection() {
    let nodes = vec![1, 2, 3];
    let edges = vec![1, 1, 2, 3]; // Self connection at node 1
    let adj_list = create_adjacency_list(&nodes, &edges).unwrap();
    assert_eq!(adj_list[1].contains(&1), false); // Self connections should not be included
}

#[test]
fn test_no_connection() {
    let nodes = vec![1, 2, 3];
    let edges = vec![1, 2]; // No connection to node 3
    let adj_list = create_adjacency_list(&nodes, &edges).unwrap();
    assert_eq!(adj_list[2].is_empty(), true); // Node 3 should have no connections
}

#[test]
fn test_second_degree_of_separation() {
    let nodes = vec![1, 2, 3, 4, 5];
    let _edges = vec![1, 2, 2, 3, 3, 4, 4, 5];

    // Removing direct connections to node 1, isolating second degree connections so first degree is not considered
    let modified_edges = vec![2, 3, 3, 4, 4, 5];

    let adj_list = create_adjacency_list(&nodes, &modified_edges).unwrap();

    // Using bfs_connectivity to find how many nodes are reachable from node 2
    let connectivity = bfs_connectivity(&adj_list).unwrap();

    // Check if the connectivity from node 2 matches the expected value
    // The expected value is 3 since, from node 2, nodes 3, 4, and 5 should be reachable
    assert_eq!(connectivity[1], 3, "Test failed: Incorrect number of second-degree separations");
}
