//! The four analyses. Each runs one breadth-first search per node and sums
//! over the distance tables; each fails on a graph without nodes.
//!
//! The results are exact integers: sums, counts and the denominators that
//! go with them. Ratios, percentages and roots are left to the caller.

use crate::error::GraphError;
use crate::graph::{as_ints, closed, distance_row, neighbor_sets, reachable_set};
use crate::shortest_paths::bfs_shortest_path_all;
use crate::tally::{
    count_reached, distinct_pair_total, hop_weight, lemma_distinct_step, lemma_reached_count,
    lemma_sources_step, lemma_tally_bounds, lemma_tally_distinct, lemma_tally_step,
    lemma_tally_whole, level_weight, pair_total, reached_weight, square_weight, sum_of_hops,
    sum_of_squares, tally, tally_distinct, tally_sources,
};
use std::collections::HashSet;
use vstd::prelude::*;

verus! {

/// The sum of the hop distances of all ordered pairs of nodes that are joined by a walk.
pub open spec fn total_distance(g: Seq<Set<usize>>) -> int {
    pair_total(g, hop_weight())
}

/// The number of ordered pairs of nodes that are joined by a walk; a node and
/// itself are such a pair.
pub open spec fn finite_pairs(g: Seq<Set<usize>>) -> int {
    pair_total(g, reached_weight())
}

/// The sum of the hop distances of all ordered pairs of distinct nodes that are joined by a walk.
pub open spec fn distinct_distance(g: Seq<Set<usize>>) -> int {
    distinct_pair_total(g, hop_weight())
}

/// The number of ordered pairs of distinct nodes that are joined by a walk.
pub open spec fn distinct_pairs(g: Seq<Set<usize>>) -> int {
    distinct_pair_total(g, reached_weight())
}

/// The sum of the squared hop distances of all ordered pairs of nodes that are joined by a walk.
pub open spec fn total_squared_distance(g: Seq<Set<usize>>) -> int {
    pair_total(g, square_weight())
}

/// The number of ordered pairs of nodes that are exactly `level` hops apart.
pub open spec fn pairs_at(g: Seq<Set<usize>>, level: int) -> int {
    pair_total(g, level_weight(level))
}

/// `i` is the first place at which `xs` takes its greatest value.
pub open spec fn is_first_max(xs: Seq<u64>, i: int) -> bool {
    &&& 0 <= i < xs.len()
    &&& forall|j: int| 0 <= j < xs.len() ==> xs[j] <= xs[i]
    &&& forall|j: int| 0 <= j < i ==> xs[j] < xs[i]
}

/// The average shortest path length as an exact fraction:
/// `total_distance / path_count`, or nothing to average where `path_count` is 0.
#[derive(Debug, Clone, Copy, PartialEq, Eq)]
pub struct PathLengthAverage {
    /// The sum of the finite distances between distinct nodes, each unordered
    /// pair counted in both directions.
    pub total_distance: u128,
    /// The number of finite distances between distinct nodes, counted likewise.
    pub path_count: u64,
}

/// How the degrees of separation are distributed.
#[derive(Debug, PartialEq, Eq)]
pub struct SeparationDistribution {
    /// For each distance, from 0 up to the number of nodes, how many ordered
    /// pairs of distinct nodes are that far apart.
    pub counts: Vec<u64>,
    /// The number of unordered pairs of distinct nodes, by which the counts are normalised.
    pub total_pairs: u64,
    /// The first distance with the greatest count.
    pub max_degree_of_separation: usize,
    /// The greatest count.
    pub max_count: u64,
}

/// The moments of the finite distances, from which mean and deviation follow.
#[derive(Debug, Clone, Copy, PartialEq, Eq)]
pub struct SeparationMoments {
    /// The number of finite distances, the distance 0 of each node to itself among them.
    pub count: u64,
    /// The sum of the finite distances.
    pub sum: u128,
    /// The sum of the squares of the finite distances.
    pub sum_sq: u128,
}

/// For every node, in node order, the number of nodes that it reaches, itself included.
pub fn bfs_connectivity(adj_list: &[HashSet<usize>]) -> (result: Result<Vec<usize>, GraphError>)
    requires
        closed(neighbor_sets(adj_list@)),
        adj_list@.len() <= i32::MAX,
    ensures
        result is Err <==> adj_list@.len() == 0,
        result matches Err(e) ==> e == GraphError::EmptyGraph,
        result matches Ok(connectivity) ==> {
            &&& connectivity@.len() == adj_list@.len()
            &&& forall|s: int|
                0 <= s < adj_list@.len() ==> #[trigger] connectivity@[s] == reachable_set(
                    neighbor_sets(adj_list@),
                    s as usize,
                ).len()
            &&& forall|s: int| 0 <= s < adj_list@.len() ==> 1 <= #[trigger] connectivity@[s] <= adj_list@.len()
        },
{
    let n: usize = adj_list.len();
    if n == 0 {
        return Err(GraphError::EmptyGraph);
    }
    let ghost g = neighbor_sets(adj_list@);
    let mut connectivity: Vec<usize> = Vec::new();
    for start in 0..n
        invariant
            n == adj_list@.len() <= i32::MAX,
            g == neighbor_sets(adj_list@),
            closed(g),
            connectivity@.len() == start,
            forall|s: int|
                0 <= s < start ==> #[trigger] connectivity@[s] == reachable_set(g, s as usize).len(),
            forall|s: int| 0 <= s < start ==> 1 <= #[trigger] connectivity@[s] <= n,
    {
        let distances = bfs_shortest_path_all(adj_list, start);
        let reached: usize = count_reached(distances.as_slice());
        proof {
            lemma_reached_count(g, start);
        }
        connectivity.push(reached);
    }
    Ok(connectivity)
}

/// The sum and the number of the finite distances between distinct nodes,
/// over every node as a source: each pair of nodes that a walk joins counts
/// twice, once from either end, and no node counts as a pair with itself.
/// A graph without edges has no such pair.
pub fn average_shortest_path_length(adj_list: &[HashSet<usize>]) -> (result: Result<
    PathLengthAverage,
    GraphError,
>)
    requires
        closed(neighbor_sets(adj_list@)),
        adj_list@.len() <= i32::MAX,
    ensures
        result is Err <==> adj_list@.len() == 0,
        result matches Err(e) ==> e == GraphError::EmptyGraph,
        result matches Ok(average) ==> {
            &&& average.total_distance == distinct_distance(neighbor_sets(adj_list@))
            &&& average.path_count == distinct_pairs(neighbor_sets(adj_list@))
        },
{
    let n: usize = adj_list.len();
    if n == 0 {
        return Err(GraphError::EmptyGraph);
    }
    let ghost g = neighbor_sets(adj_list@);
    let mut total: u128 = 0;
    let mut count: u64 = 0;
    for start in 0..n
        invariant
            n == adj_list@.len() <= i32::MAX,
            g == neighbor_sets(adj_list@),
            closed(g),
            total == tally_distinct(g, hop_weight(), start as nat),
            count == tally_distinct(g, reached_weight(), start as nat),
            total <= start * (n * n),
            count <= start * n,
    {
        let distances = bfs_shortest_path_all(adj_list, start);
        let row_sum: u128 = sum_of_hops(distances.as_slice());
        let row_count: usize = count_reached(distances.as_slice());
        proof {
            lemma_distinct_step(g, hop_weight(), start);
            lemma_distinct_step(g, reached_weight(), start);
            lemma_reached_count(g, start);
            lemma_row_bounds(distance_row(g, start), n as int);
            lemma_cube_fits(start as int, n as int);
        }
        total = total + row_sum;
        count = count + (row_count - 1) as u64;
    }
    Ok(PathLengthAverage { total_distance: total, path_count: count })
}

/// The number, the sum and the sum of squares of all finite distances, over
/// every node as a source. The distance 0 of a node to itself is one of them.
pub fn separation_statistics(adj_list: &[HashSet<usize>]) -> (result: Result<
    SeparationMoments,
    GraphError,
>)
    requires
        closed(neighbor_sets(adj_list@)),
        adj_list@.len() <= i32::MAX,
    ensures
        result is Err <==> adj_list@.len() == 0,
        result matches Err(e) ==> e == GraphError::EmptyGraph,
        result matches Ok(moments) ==> {
            &&& moments.count == finite_pairs(neighbor_sets(adj_list@))
            &&& moments.sum == total_distance(neighbor_sets(adj_list@))
            &&& moments.sum_sq == total_squared_distance(neighbor_sets(adj_list@))
            &&& moments.count >= adj_list@.len()
        },
{
    let n: usize = adj_list.len();
    if n == 0 {
        return Err(GraphError::EmptyGraph);
    }
    let ghost g = neighbor_sets(adj_list@);
    let mut sum: u128 = 0;
    let mut sum_sq: u128 = 0;
    let mut count: u64 = 0;
    for start in 0..n
        invariant
            n == adj_list@.len() <= i32::MAX,
            g == neighbor_sets(adj_list@),
            closed(g),
            sum == tally_sources(g, hop_weight(), start as nat),
            sum_sq == tally_sources(g, square_weight(), start as nat),
            count == tally_sources(g, reached_weight(), start as nat),
            sum <= start * (n * n),
            sum_sq <= start * (n * (n * n)),
            start <= count <= start * n,
    {
        let distances = bfs_shortest_path_all(adj_list, start);
        let row_sum: u128 = sum_of_hops(distances.as_slice());
        let row_sum_sq: u128 = sum_of_squares(distances.as_slice());
        let row_count: usize = count_reached(distances.as_slice());
        proof {
            lemma_sources_step(g, hop_weight(), start);
            lemma_sources_step(g, square_weight(), start);
            lemma_sources_step(g, reached_weight(), start);
            lemma_reached_count(g, start);
            lemma_row_bounds(distance_row(g, start), n as int);
            lemma_cube_fits(start as int, n as int);
        }
        sum = sum + row_sum;
        sum_sq = sum_sq + row_sum_sq;
        count = count + row_count as u64;
    }
    Ok(SeparationMoments { count, sum, sum_sq })
}

/// Adds to `counts` the entries of one distance table: an entry `d` above 0
/// and below the length of `counts` adds one to `counts[d]`; every other
/// entry is passed over.
pub fn tally_levels(counts: &mut Vec<u64>, distances: &[i32])
    requires
        forall|k: int| 0 <= k < old(counts)@.len() ==> old(counts)@[k] + distances@.len() <= u64::MAX,
    ensures
        final(counts)@.len() == old(counts)@.len(),
        old(counts)@.len() > 0 ==> final(counts)@[0] == old(counts)@[0],
        forall|k: int|
            0 < k < old(counts)@.len() ==> #[trigger] final(counts)@[k] == old(counts)@[k] + tally(
                as_ints(distances@),
                level_weight(k),
            ),
        forall|k: int|
            0 <= k < old(counts)@.len() ==> #[trigger] final(counts)@[k] <= old(counts)@[k]
                + distances@.len(),
{
    let ghost row = as_ints(distances@);
    let ghost before = counts@;
    let levels: usize = counts.len();
    for t in 0..distances.len()
        invariant
            row == as_ints(distances@),
            before == old(counts)@,
            levels == before.len(),
            counts@.len() == levels,
            forall|k: int| 0 <= k < levels ==> before[k] + distances@.len() <= u64::MAX,
            levels > 0 ==> counts@[0] == before[0],
            forall|k: int|
                0 < k < levels ==> #[trigger] counts@[k] == before[k] + tally(
                    row.take(t as int),
                    level_weight(k),
                ),
            forall|k: int| 0 <= k < levels ==> #[trigger] counts@[k] <= before[k] + t,
    {
        proof {
            assert forall|k: int| 0 < k < levels implies tally(
                row.take(t + 1),
                level_weight(k),
            ) == tally(row.take(t as int), level_weight(k)) + (if row[t as int] == k {
                1int
            } else {
                0int
            }) by {
                lemma_tally_step(row, level_weight(k), t as int);
            }
        }
        let d: i32 = distances[t];
        if d > 0 && (d as usize) < levels {
            let level: usize = d as usize;
            let seen: u64 = counts[level];
            counts[level] = seen + 1;
        }
    }
    proof {
        assert forall|k: int| 0 < k < levels implies #[trigger] counts@[k] == before[k] + tally(
            row,
            level_weight(k),
        ) by {
            lemma_tally_whole(row, level_weight(k));
        }
    }
}

/// The first place at which `counts` takes its greatest value.
pub fn first_maximum(counts: &[u64]) -> (best: usize)
    requires
        counts@.len() > 0,
    ensures
        is_first_max(counts@, best as int),
{
    let mut best: usize = 0;
    for i in 1..counts.len()
        invariant
            best < i <= counts@.len(),
            forall|j: int| 0 <= j < i ==> counts@[j] <= counts@[best as int],
            forall|j: int| 0 <= j < best ==> counts@[j] < counts@[best as int],
    {
        if counts[i] > counts[best] {
            best = i;
        }
    }
    best
}

/// For each distance how many ordered pairs of distinct nodes are that far
/// apart, the number of unordered pairs to normalise by, and the first
/// distance with the greatest count.
pub fn separation_distribution_and_max(adj_list: &[HashSet<usize>]) -> (result: Result<
    SeparationDistribution,
    GraphError,
>)
    requires
        closed(neighbor_sets(adj_list@)),
        adj_list@.len() <= i32::MAX,
    ensures
        result is Err <==> adj_list@.len() == 0,
        result matches Err(e) ==> e == GraphError::EmptyGraph,
        result matches Ok(distribution) ==> {
            &&& distribution.counts@.len() == adj_list@.len()
            &&& distribution.counts@[0] == 0
            &&& forall|k: int|
                0 < k < adj_list@.len() ==> #[trigger] distribution.counts@[k] == pairs_at(
                    neighbor_sets(adj_list@),
                    k,
                )
            &&& distribution.total_pairs == adj_list@.len() * (adj_list@.len() - 1) / 2
            &&& is_first_max(distribution.counts@, distribution.max_degree_of_separation as int)
            &&& distribution.max_count == distribution.counts@[distribution.max_degree_of_separation as int]
        },
{
    let n: usize = adj_list.len();
    if n == 0 {
        return Err(GraphError::EmptyGraph);
    }
    let ghost g = neighbor_sets(adj_list@);
    proof {
        lemma_cube_fits(0, n as int);
        assert(n * (n - 1) <= n * n) by (nonlinear_arith)
            requires
                n >= 1,
        ;
    }
    let total_pairs: u64 = (n as u64) * ((n - 1) as u64) / 2;
    let mut counts: Vec<u64> = Vec::new();
    for k in 0..n
        invariant
            counts@.len() == k,
            forall|j: int| 0 <= j < k ==> counts@[j] == 0,
    {
        counts.push(0);
    }
    for start in 0..n
        invariant
            0 < n == adj_list@.len() <= i32::MAX,
            g == neighbor_sets(adj_list@),
            closed(g),
            counts@.len() == n,
            counts@[0] == 0,
            forall|k: int|
                0 < k < n ==> #[trigger] counts@[k] == tally_sources(g, level_weight(k), start as nat),
            forall|k: int| 0 <= k < n ==> #[trigger] counts@[k] <= start * n,
    {
        let distances = bfs_shortest_path_all(adj_list, start);
        proof {
            lemma_cube_fits(start as int, n as int);
            assert forall|k: int| 0 < k < n implies tally_sources(
                g,
                level_weight(k),
                (start + 1) as nat,
            ) == tally_sources(g, level_weight(k), start as nat) + tally(
                distance_row(g, start),
                level_weight(k),
            ) by {
                lemma_sources_step(g, level_weight(k), start);
            }
        }
        tally_levels(&mut counts, distances.as_slice());
    }
    let best: usize = first_maximum(counts.as_slice());
    let max_count: u64 = counts[best];
    Ok(SeparationDistribution { counts, total_pairs, max_degree_of_separation: best, max_count })
}

/// A node and itself add nothing to the sum of the distances, and one pair
/// for each node to their number. So the average shortest path length, which
/// leaves these pairs out, is the mean of all finite distances taken over the
/// pairs of distinct nodes alone: the same sum, over the number less one for
/// each node.
pub proof fn lemma_self_pairs(g: Seq<Set<usize>>)
    ensures
        distinct_distance(g) == total_distance(g),
        distinct_pairs(g) == finite_pairs(g) - g.len(),
{
    lemma_tally_distinct(g, hop_weight(), g.len());
    lemma_tally_distinct(g, reached_weight(), g.len());
    let n = g.len() as int;
    assert(hop_weight()(0) == 0 && reached_weight()(0) == 1);
    assert(n * 0 == 0 && n * 1 == n) by (nonlinear_arith);
}

/// The length of `counts` without the zeros at its end; where every count
/// is zero, the whole length.
pub fn significant_len(counts: &[u64]) -> (len: usize)
    ensures
        len <= counts@.len(),
        forall|j: int| len <= j < counts@.len() ==> counts@[j] == 0,
        (forall|j: int| 0 <= j < counts@.len() ==> counts@[j] == 0) ==> len == counts@.len(),
        (exists|j: int| 0 <= j < counts@.len() && counts@[j] != 0) ==> len > 0 && counts@[len - 1]
            != 0,
{
    let mut len: usize = counts.len();
    while len > 0 && counts[len - 1] == 0
        invariant
            len <= counts@.len(),
            forall|j: int| len <= j < counts@.len() ==> counts@[j] == 0,
        decreases len,
    {
        len = len - 1;
    }
    if len == 0 {
        counts.len()
    } else {
        len
    }
}

/// A distance table of `n` entries, each below `n`, sums to `n * n` at most,
/// and its squares to `n * (n * n)` at most.
proof fn lemma_row_bounds(row: Seq<int>, n: int)
    requires
        row.len() == n,
        forall|t: int| 0 <= t < n ==> -1 <= #[trigger] row[t] < n,
    ensures
        0 <= tally(row, hop_weight()) <= n * n,
        0 <= tally(row, square_weight()) <= n * (n * n),
{
    assert forall|t: int| 0 <= t < row.len() implies 0 <= #[trigger] hop_weight()(row[t]) <= n by {
        assert(-1 <= row[t] < n);
    }
    lemma_tally_bounds(row, hop_weight(), 0, n);
    assert forall|t: int| 0 <= t < row.len() implies 0 <= #[trigger] square_weight()(row[t]) <= n
        * n by {
        let d = row[t];
        assert(-1 <= d < n);
        assert(d >= 0 ==> 0 <= d * d <= n * n) by (nonlinear_arith)
            requires
                d < n,
        ;
    }
    lemma_tally_bounds(row, square_weight(), 0, n * n);
    assert(n * 0 == 0) by (nonlinear_arith);
}

/// Sums of at most `n` rows, each of at most `n` entries below `n` or below
/// its square, fit the accumulators.
proof fn lemma_cube_fits(start: int, n: int)
    requires
        0 <= start < n <= i32::MAX,
    ensures
        n * 0 == 0,
        n * n <= 0x4000_0000_0000_0000,
        (start + 1) * n == start * n + n,
        (start + 1) * n <= n * n,
        (start + 1) * (n * n) == start * (n * n) + n * n,
        (start + 1) * (n * n) <= 0x2000_0000_0000_0000_0000_0000,
        (start + 1) * (n * (n * n)) == start * (n * (n * n)) + n * (n * n),
        (start + 1) * (n * (n * n)) <= 0x1000_0000_0000_0000_0000_0000_0000_0000,
{
    assert(n * n <= 0x4000_0000_0000_0000) by (nonlinear_arith)
        requires
            0 <= n <= 0x8000_0000,
    ;
    let sq = n * n;
    assert((start + 1) * n == start * n + n && (start + 1) * n <= n * n) by (nonlinear_arith)
        requires
            0 <= start < n,
    ;
    assert((start + 1) * sq == start * sq + sq && (start + 1) * sq <= 0x8000_0000 * sq)
        by (nonlinear_arith)
        requires
            0 <= start < n <= 0x8000_0000,
            0 <= sq,
    ;
    let cube = n * sq;
    assert(cube <= 0x8000_0000 * 0x4000_0000_0000_0000) by (nonlinear_arith)
        requires
            cube == n * sq,
            0 <= n <= 0x8000_0000,
            0 <= sq <= 0x4000_0000_0000_0000,
    ;
    assert((start + 1) * cube == start * cube + cube && (start + 1) * cube <= 0x8000_0000 * cube)
        by (nonlinear_arith)
        requires
            0 <= start < n <= 0x8000_0000,
            0 <= cube,
    ;
}

} // verus!
