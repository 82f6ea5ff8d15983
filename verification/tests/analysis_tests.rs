use graph_separation::data_preprocessing::create_adjacency_list;
use graph_separation::degrees_separation::{
    average_shortest_path_length, bfs_connectivity, first_maximum,
    separation_distribution_and_max, separation_statistics, significant_len, tally_levels,
    PathLengthAverage, SeparationMoments,
};
use graph_separation::error::GraphError;
use graph_separation::shortest_paths::bfs_shortest_path_all;
use graph_separation::tally::{count_reached, sum_of_hops, sum_of_squares};
use std::collections::HashSet;

fn path_of_three() -> Vec<HashSet<usize>> {
    create_adjacency_list(&[0, 1], &[1, 2]).unwrap()
}

fn cycle_of_five() -> Vec<HashSet<usize>> {
    create_adjacency_list(&[0, 1, 2, 3, 4], &[1, 2, 3, 4, 0]).unwrap()
}

fn no_edges(n: usize) -> Vec<HashSet<usize>> {
    create_adjacency_list(&[n - 1], &[n - 1]).unwrap()
}

#[test]
fn distance_to_self_is_zero() {
    let adj = create_adjacency_list(&[0, 1, 4], &[1, 2, 5]).unwrap();
    for start in 0..adj.len() {
        assert_eq!(bfs_shortest_path_all(&adj, start)[start], 0);
    }
}

#[test]
fn distances_along_a_path() {
    let adj = create_adjacency_list(&[2, 3, 4], &[3, 4, 5]).unwrap();
    assert_eq!(bfs_shortest_path_all(&adj, 2), vec![-1, -1, 0, 1, 2, 3]);
    assert_eq!(bfs_shortest_path_all(&adj, 4), vec![-1, -1, 2, 1, 0, 1]);
    assert_eq!(bfs_shortest_path_all(&adj, 0), vec![0, -1, -1, -1, -1, -1]);
}

#[test]
fn distances_take_the_shorter_way() {
    // 0-1-2-3-4 with the chord 0-3
    let adj = create_adjacency_list(&[0, 1, 2, 3, 0], &[1, 2, 3, 4, 3]).unwrap();
    assert_eq!(bfs_shortest_path_all(&adj, 0), vec![0, 1, 2, 1, 2]);
    assert_eq!(bfs_shortest_path_all(&adj, 4), vec![2, 3, 2, 1, 0]);
}

#[test]
fn finite_distance_stays_below_component_size() {
    let adj = create_adjacency_list(&[0, 1, 2, 5, 6], &[1, 2, 3, 6, 7]).unwrap();
    let connectivity = bfs_connectivity(&adj).unwrap();
    for start in 0..adj.len() {
        for d in bfs_shortest_path_all(&adj, start) {
            assert!(d < connectivity[start] as i32);
        }
    }
    assert_eq!(connectivity, vec![4, 4, 4, 4, 1, 3, 3, 3]);
}

#[test]
fn path_two_to_five_reaches_four_nodes() {
    let adj = create_adjacency_list(&[2, 3, 4], &[3, 4, 5]).unwrap();
    let connectivity = bfs_connectivity(&adj).unwrap();
    assert_eq!(connectivity[2], 4);
    assert_eq!(connectivity[1], 1);
    assert_eq!(connectivity, vec![1, 1, 4, 4, 4, 4]);
}

#[test]
fn every_node_reaches_itself() {
    let adj = create_adjacency_list(&[9, 3, 3], &[1, 4, 5]).unwrap();
    for reached in bfs_connectivity(&adj).unwrap() {
        assert!(reached >= 1);
    }
}

#[test]
fn graph_without_nodes_fails_every_analysis() {
    let adj: Vec<HashSet<usize>> = Vec::new();
    assert_eq!(bfs_connectivity(&adj), Err(GraphError::EmptyGraph));
    assert_eq!(average_shortest_path_length(&adj), Err(GraphError::EmptyGraph));
    assert_eq!(separation_distribution_and_max(&adj), Err(GraphError::EmptyGraph));
    assert_eq!(separation_statistics(&adj), Err(GraphError::EmptyGraph));
}

#[test]
fn average_of_a_path_of_three() {
    let average = average_shortest_path_length(&path_of_three()).unwrap();
    assert_eq!(average, PathLengthAverage { total_distance: 8, path_count: 6 });
}

#[test]
fn average_of_a_single_node() {
    let average = average_shortest_path_length(&no_edges(1)).unwrap();
    assert_eq!(average, PathLengthAverage { total_distance: 0, path_count: 0 });
}

#[test]
fn average_counts_only_joined_pairs() {
    // 0-1 and 2-3, node 4 alone
    let adj = create_adjacency_list(&[0, 2, 4], &[1, 3, 4]).unwrap();
    let average = average_shortest_path_length(&adj).unwrap();
    assert_eq!(average, PathLengthAverage { total_distance: 4, path_count: 4 });
}

#[test]
fn moments_of_a_path_of_three() {
    let moments = separation_statistics(&path_of_three()).unwrap();
    assert_eq!(moments, SeparationMoments { count: 9, sum: 8, sum_sq: 12 });
}

#[test]
fn moments_of_a_cycle_of_five() {
    let moments = separation_statistics(&cycle_of_five()).unwrap();
    assert_eq!(moments, SeparationMoments { count: 25, sum: 30, sum_sq: 50 });
}

#[test]
fn average_is_the_mean_over_distinct_pairs() {
    for adj in [path_of_three(), cycle_of_five(), no_edges(4)] {
        let average = average_shortest_path_length(&adj).unwrap();
        let moments = separation_statistics(&adj).unwrap();
        assert_eq!(average.total_distance, moments.sum);
        assert_eq!(average.path_count, moments.count - adj.len() as u64);
    }
}

#[test]
fn average_over_connectivity_and_mean() {
    // mean * n / (n - V), with n the sum of the connectivity and V the number of nodes
    let adj = path_of_three();
    let average = average_shortest_path_length(&adj).unwrap();
    let moments = separation_statistics(&adj).unwrap();
    let reached: usize = bfs_connectivity(&adj).unwrap().iter().sum();
    assert_eq!(reached as u64, moments.count);
    let mean = moments.sum as f64 / moments.count as f64;
    let expected = mean * reached as f64 / (reached - adj.len()) as f64;
    let got = average.total_distance as f64 / average.path_count as f64;
    assert!((got - expected).abs() < 1e-12);
    assert!((got - 8.0 / 6.0).abs() < 1e-12);
}

#[test]
fn average_of_two_joined_nodes_is_one() {
    let mut adj: Vec<HashSet<usize>> = vec![HashSet::new(), HashSet::new()];
    adj[0].insert(1);
    adj[1].insert(0);
    let average = average_shortest_path_length(&adj).unwrap();
    assert_eq!(average, PathLengthAverage { total_distance: 2, path_count: 2 });
    assert_eq!(average.total_distance as f64 / average.path_count as f64, 1.0);
}

#[test]
fn average_without_edges_has_no_pairs() {
    let average = average_shortest_path_length(&no_edges(4)).unwrap();
    assert_eq!(average, PathLengthAverage { total_distance: 0, path_count: 0 });
}

#[test]
fn average_leaves_out_each_node_with_itself() {
    let adj = cycle_of_five();
    let average = average_shortest_path_length(&adj).unwrap();
    let moments = separation_statistics(&adj).unwrap();
    let mut distinct_sum = 0u128;
    let mut distinct_count = 0u64;
    for start in 0..adj.len() {
        for (target, d) in bfs_shortest_path_all(&adj, start).into_iter().enumerate() {
            if target != start && d >= 0 {
                distinct_sum += d as u128;
                distinct_count += 1;
            }
        }
    }
    assert_eq!(average.total_distance, distinct_sum);
    assert_eq!(average.path_count, distinct_count);
    assert_eq!(average, PathLengthAverage { total_distance: 30, path_count: 20 });
    assert_eq!(moments.sum, distinct_sum);
    assert_eq!(moments.count, distinct_count + adj.len() as u64);
}

#[test]
fn distribution_of_a_path_of_three() {
    let distribution = separation_distribution_and_max(&path_of_three()).unwrap();
    assert_eq!(distribution.counts, vec![0, 4, 2]);
    assert_eq!(distribution.total_pairs, 3);
    assert_eq!(distribution.max_degree_of_separation, 1);
    assert_eq!(distribution.max_count, 4);
}

#[test]
fn distribution_tie_goes_to_the_first_distance() {
    let distribution = separation_distribution_and_max(&cycle_of_five()).unwrap();
    assert_eq!(distribution.counts, vec![0, 10, 10, 0, 0]);
    assert_eq!(distribution.total_pairs, 10);
    assert_eq!(distribution.max_degree_of_separation, 1);
    assert_eq!(distribution.max_count, 10);
}

#[test]
fn distribution_without_edges() {
    let distribution = separation_distribution_and_max(&no_edges(3)).unwrap();
    assert_eq!(distribution.counts, vec![0, 0, 0]);
    assert_eq!(distribution.total_pairs, 3);
    assert_eq!(distribution.max_degree_of_separation, 0);
    assert_eq!(distribution.max_count, 0);
}

#[test]
fn distribution_of_a_single_node() {
    let distribution = separation_distribution_and_max(&no_edges(1)).unwrap();
    assert_eq!(distribution.counts, vec![0]);
    assert_eq!(distribution.total_pairs, 0);
    assert_eq!(distribution.max_degree_of_separation, 0);
}

#[test]
fn first_maximum_takes_the_first_of_equals() {
    assert_eq!(first_maximum(&[0, 3, 1, 3]), 1);
    assert_eq!(first_maximum(&[5]), 0);
    assert_eq!(first_maximum(&[1, 2, 3]), 2);
    assert_eq!(first_maximum(&[0, 0]), 0);
}

#[test]
fn significant_len_drops_trailing_zeros() {
    assert_eq!(significant_len(&[0, 4, 2, 0, 0]), 3);
    assert_eq!(significant_len(&[0, 4, 2]), 3);
    assert_eq!(significant_len(&[0, 0, 0]), 3);
    assert_eq!(significant_len(&[]), 0);
    assert_eq!(significant_len(&[7, 0]), 1);
}

#[test]
fn tally_levels_counts_positive_entries_within_range() {
    let mut counts = vec![0u64, 1, 0, 0];
    tally_levels(&mut counts, &[0, 1, 1, 3, -1, 4, 2, 7]);
    assert_eq!(counts, vec![0, 3, 1, 1]);
}

#[test]
fn table_sums() {
    let table = [0, 1, -1, 3, 2, -1];
    assert_eq!(sum_of_hops(&table), 6);
    assert_eq!(sum_of_squares(&table), 14);
    assert_eq!(count_reached(&table), 4);
    assert_eq!(sum_of_hops(&[]), 0);
    assert_eq!(count_reached(&[-1, -1]), 0);
    assert_eq!(sum_of_squares(&[i32::MAX]), (i32::MAX as u128) * (i32::MAX as u128));
}
