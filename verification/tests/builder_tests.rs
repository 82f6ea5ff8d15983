use graph_separation::data_preprocessing::{create_adjacency_list, insert_edge};
use graph_separation::degrees_separation::bfs_connectivity;
use graph_separation::error::GraphError;
use graph_separation::graph::is_closed;
use std::collections::HashSet;

fn set_of(items: &[usize]) -> HashSet<usize> {
    items.iter().copied().collect()
}

fn empty_rows(n: usize) -> Vec<HashSet<usize>> {
    let mut rows = Vec::new();
    for _ in 0..n {
        rows.push(HashSet::new());
    }
    rows
}

#[test]
fn self_loop_is_dropped_and_pairs_enter_both_rows() {
    let adj = create_adjacency_list(&[1, 1, 2], &[1, 2, 3]).unwrap();
    assert_eq!(adj.len(), 4);
    assert_eq!(adj[0], set_of(&[]));
    assert_eq!(adj[1], set_of(&[2]));
    assert_eq!(adj[2], set_of(&[1, 3]));
    assert_eq!(adj[3], set_of(&[2]));
}

#[test]
fn node_without_edge_has_empty_row_and_reaches_itself() {
    let adj = create_adjacency_list(&[1, 2, 3], &[2]).unwrap();
    assert_eq!(adj.len(), 4);
    assert_eq!(adj[1], set_of(&[2]));
    assert_eq!(adj[2], set_of(&[1]));
    assert!(adj[3].is_empty());
    let connectivity = bfs_connectivity(&adj).unwrap();
    assert_eq!(connectivity[3], 1);
    assert_eq!(connectivity, vec![1, 2, 2, 1]);
}

#[test]
fn hand_built_single_edge_graph() {
    let mut adj = empty_rows(4);
    insert_edge(&mut adj, 1, 2);
    assert!(adj[3].is_empty());
    assert_eq!(bfs_connectivity(&adj).unwrap()[3], 1);
}

#[test]
fn empty_source_list_is_invalid_input() {
    assert_eq!(create_adjacency_list(&[], &[]), Err(GraphError::InvalidInput));
    assert_eq!(create_adjacency_list(&[], &[4, 5]), Err(GraphError::InvalidInput));
}

#[test]
fn size_is_largest_identifier_plus_one() {
    assert_eq!(create_adjacency_list(&[0], &[0]).unwrap().len(), 1);
    assert_eq!(create_adjacency_list(&[2], &[7]).unwrap().len(), 8);
    assert_eq!(create_adjacency_list(&[9, 1], &[3, 4]).unwrap().len(), 10);
    assert_eq!(create_adjacency_list(&[5], &[]).unwrap().len(), 6);
}

#[test]
fn target_beyond_every_source_is_kept() {
    let adj = create_adjacency_list(&[0], &[3]).unwrap();
    assert_eq!(adj[0], set_of(&[3]));
    assert_eq!(adj[3], set_of(&[0]));
}

#[test]
fn built_graph_is_symmetric() {
    let nodes = [4, 0, 2, 7, 7, 3, 1];
    let edges = [1, 5, 2, 0, 4, 4, 4];
    let adj = create_adjacency_list(&nodes, &edges).unwrap();
    for u in 0..adj.len() {
        for v in 0..adj.len() {
            assert_eq!(adj[u].contains(&v), adj[v].contains(&u));
        }
    }
}

#[test]
fn built_graph_has_no_self_loops() {
    let nodes = [0, 1, 2, 3, 3, 2];
    let edges = [0, 1, 2, 3, 2, 2];
    let adj = create_adjacency_list(&nodes, &edges).unwrap();
    for u in 0..adj.len() {
        assert!(!adj[u].contains(&u));
    }
    assert_eq!(adj[3], set_of(&[2]));
    assert_eq!(adj[2], set_of(&[3]));
}

#[test]
fn built_graph_is_closed() {
    let adj = create_adjacency_list(&[4, 0, 2], &[1, 5, 2]).unwrap();
    assert!(is_closed(&adj));
}

#[test]
fn duplicate_pair_changes_nothing() {
    let once = create_adjacency_list(&[1, 2], &[2, 3]).unwrap();
    let twice = create_adjacency_list(&[1, 2, 1], &[2, 3, 2]).unwrap();
    let swapped = create_adjacency_list(&[1, 2, 2], &[2, 3, 1]).unwrap();
    assert_eq!(once, twice);
    assert_eq!(once, swapped);
}

#[test]
fn insert_edge_twice_is_insert_edge_once() {
    let mut once = empty_rows(3);
    insert_edge(&mut once, 0, 2);
    let mut twice = once.clone();
    insert_edge(&mut twice, 0, 2);
    assert_eq!(once, twice);
    insert_edge(&mut twice, 2, 0);
    assert_eq!(once, twice);
    assert_eq!(once[0], set_of(&[2]));
    assert_eq!(once[1], set_of(&[]));
    assert_eq!(once[2], set_of(&[0]));
}

#[test]
fn insert_edge_skips_loops_and_unknown_nodes() {
    let mut adj = empty_rows(3);
    insert_edge(&mut adj, 1, 1);
    insert_edge(&mut adj, 0, 3);
    insert_edge(&mut adj, 5, 1);
    assert_eq!(adj, empty_rows(3));
}

#[test]
fn closedness_check_finds_unknown_neighbour() {
    let mut adj = empty_rows(2);
    assert!(is_closed(&adj));
    adj[0].insert(1);
    assert!(is_closed(&adj));
    adj[1].insert(2);
    assert!(!is_closed(&adj));
    assert!(is_closed(&empty_rows(0)));
}
