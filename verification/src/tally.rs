//! Sums over distance tables: what each entry weighs, the sum over one table,
//! and the sum over the tables of all sources.

use crate::graph::{
    as_ints, distance_row, lemma_distance_to_self, lemma_hop_distance, lemma_walk_ends, reachable,
    reachable_set, walk,
};
use vstd::prelude::*;

verus! {

/// Weighs a finite distance by its hop count, and the sentinel by nothing.
pub open spec fn hop_weight() -> spec_fn(int) -> int {
    |d: int| if d >= 0 { d } else { 0int }
}

/// Weighs a finite distance by one, and the sentinel by nothing.
pub open spec fn reached_weight() -> spec_fn(int) -> int {
    |d: int| if d >= 0 { 1int } else { 0int }
}

/// Weighs a finite distance by the square of its hop count, and the sentinel by nothing.
pub open spec fn square_weight() -> spec_fn(int) -> int {
    |d: int| if d >= 0 { d * d } else { 0int }
}

/// Weighs the distance `level` by one, and every other entry by nothing.
pub open spec fn level_weight(level: int) -> spec_fn(int) -> int {
    |d: int| if d == level { 1int } else { 0int }
}

/// The sum of the weights of the entries of `row`.
pub open spec fn tally(row: Seq<int>, weight: spec_fn(int) -> int) -> int
    decreases row.len(),
{
    if row.len() == 0 {
        0
    } else {
        tally(row.drop_last(), weight) + weight(row.last())
    }
}

/// The sum of the weights of the distance tables of the first `sources` nodes.
pub open spec fn tally_sources(g: Seq<Set<usize>>, weight: spec_fn(int) -> int, sources: nat) -> int
    decreases sources,
{
    if sources == 0 {
        0
    } else {
        tally_sources(g, weight, (sources - 1) as nat) + tally(
            distance_row(g, (sources - 1) as usize),
            weight,
        )
    }
}

/// The sum of the weights of the distances of all ordered pairs of nodes:
/// every source's table, every entry of it.
pub open spec fn pair_total(g: Seq<Set<usize>>, weight: spec_fn(int) -> int) -> int {
    tally_sources(g, weight, g.len())
}

/// The tally of a prefix grows by the weight of the next entry.
pub proof fn lemma_tally_step(row: Seq<int>, weight: spec_fn(int) -> int, t: int)
    requires
        0 <= t < row.len(),
    ensures
        tally(row.take(t + 1), weight) == tally(row.take(t), weight) + weight(row[t]),
{
    assert(row.take(t + 1).drop_last() =~= row.take(t));
}

/// The tally of the whole prefix is the tally of the table.
pub proof fn lemma_tally_whole(row: Seq<int>, weight: spec_fn(int) -> int)
    ensures
        tally(row.take(row.len() as int), weight) == tally(row, weight),
        tally(row.take(0), weight) == 0,
{
    assert(row.take(row.len() as int) =~= row);
}

/// A tally lies between the least and the greatest weight, times the length.
pub proof fn lemma_tally_bounds(row: Seq<int>, weight: spec_fn(int) -> int, lo: int, hi: int)
    requires
        forall|t: int| 0 <= t < row.len() ==> lo <= #[trigger] weight(row[t]) <= hi,
    ensures
        row.len() * lo <= tally(row, weight) <= row.len() * hi,
    decreases row.len(),
{
    if row.len() > 0 {
        let rest = row.drop_last();
        assert forall|t: int| 0 <= t < rest.len() implies lo <= #[trigger] weight(rest[t]) <= hi by {
            assert(rest[t] == row[t]);
        }
        lemma_tally_bounds(rest, weight, lo, hi);
        assert(lo <= weight(row[row.len() - 1]) <= hi);
        let n = row.len() as int;
        assert(n * lo == (n - 1) * lo + lo && n * hi == (n - 1) * hi + hi) by (nonlinear_arith);
    }
}

/// The sum over the first sources grows by the tally of the next source's table.
pub proof fn lemma_sources_step(g: Seq<Set<usize>>, weight: spec_fn(int) -> int, s: usize)
    ensures
        tally_sources(g, weight, (s + 1) as nat) == tally_sources(g, weight, s as nat) + tally(
            distance_row(g, s),
            weight,
        ),
{
    assert(((s + 1) as nat - 1) as usize == s);
}

/// The sum of the weights of the distance tables of the first `sources`
/// nodes, each table without the entry of its own source.
pub open spec fn tally_distinct(g: Seq<Set<usize>>, weight: spec_fn(int) -> int, sources: nat) -> int
    decreases sources,
{
    if sources == 0 {
        0
    } else {
        tally_distinct(g, weight, (sources - 1) as nat) + tally(
            distance_row(g, (sources - 1) as usize).remove(sources - 1),
            weight,
        )
    }
}

/// The sum of the weights of the distances of all ordered pairs of distinct nodes.
pub open spec fn distinct_pair_total(g: Seq<Set<usize>>, weight: spec_fn(int) -> int) -> int {
    tally_distinct(g, weight, g.len())
}

/// A table without one entry tallies less by the weight of that entry.
pub proof fn lemma_tally_remove(row: Seq<int>, weight: spec_fn(int) -> int, k: int)
    requires
        0 <= k < row.len(),
    ensures
        tally(row.remove(k), weight) == tally(row, weight) - weight(row[k]),
    decreases row.len(),
{
    if k == row.len() - 1 {
        assert(row.remove(k) =~= row.drop_last());
    } else {
        lemma_tally_remove(row.drop_last(), weight, k);
        assert(row.remove(k).drop_last() =~= row.drop_last().remove(k));
        assert(row.remove(k).last() == row.last());
    }
}

/// The sum over distinct pairs grows by the tally of the next source's
/// table, less the weight of the source's distance 0 to itself.
pub proof fn lemma_distinct_step(g: Seq<Set<usize>>, weight: spec_fn(int) -> int, s: usize)
    requires
        s < g.len(),
    ensures
        tally_distinct(g, weight, (s + 1) as nat) == tally_distinct(g, weight, s as nat) + tally(
            distance_row(g, s),
            weight,
        ) - weight(0),
{
    let row = distance_row(g, s);
    lemma_distance_to_self(g, s);
    lemma_tally_remove(row, weight, s as int);
    assert(row[s as int] == 0);
    assert(((s + 1) as nat - 1) as usize == s);
}

/// Each source weighs in its own table by the weight of the distance 0.
pub proof fn lemma_tally_distinct(g: Seq<Set<usize>>, weight: spec_fn(int) -> int, sources: nat)
    requires
        sources <= g.len(),
    ensures
        tally_distinct(g, weight, sources) == tally_sources(g, weight, sources) - sources * weight(0),
    decreases sources,
{
    if sources > 0 {
        let k = sources - 1;
        let s = k as usize;
        lemma_tally_distinct(g, weight, k as nat);
        lemma_distance_to_self(g, s);
        let row = distance_row(g, s);
        lemma_tally_remove(row, weight, k);
        assert(row[k] == 0);
        let w = weight(0);
        let n = sources as int;
        assert(n * w == (n - 1) * w + w) by (nonlinear_arith);
        assert(tally_distinct(g, weight, sources) == tally_distinct(g, weight, k as nat) + tally(
            row.remove(k),
            weight,
        ));
        assert(tally_sources(g, weight, sources) == tally_sources(g, weight, k as nat) + tally(
            row,
            weight,
        ));
    } else {
        assert(sources * weight(0) == 0) by (nonlinear_arith)
            requires
                sources == 0,
        ;
    }
}

/// The nodes below `bound` that `s` reaches.
spec fn reached_below(g: Seq<Set<usize>>, s: usize, bound: int) -> Set<usize> {
    Set::new(|t: usize| t < bound && reachable(g, s, t))
}

/// The finite entries among the first `bound` of a table are as many as the
/// nodes below `bound` that the source reaches.
proof fn lemma_reached_below(g: Seq<Set<usize>>, s: usize, bound: int)
    requires
        0 <= bound <= g.len(),
        g.len() <= usize::MAX,
    ensures
        reached_below(g, s, bound).finite(),
        reached_below(g, s, bound).len() == tally(distance_row(g, s).take(bound), reached_weight()),
    decreases bound,
{
    let row = distance_row(g, s);
    if bound == 0 {
        assert(reached_below(g, s, 0) =~= Set::<usize>::empty());
    } else {
        let t = (bound - 1) as usize;
        lemma_reached_below(g, s, bound - 1);
        lemma_tally_step(row, reached_weight(), bound - 1);
        lemma_hop_distance(g, s, t);
        if reachable(g, s, t) {
            assert(reached_below(g, s, bound) =~= reached_below(g, s, bound - 1).insert(t));
        } else {
            assert(reached_below(g, s, bound) =~= reached_below(g, s, bound - 1));
        }
    }
}

/// The finite entries of a source's distance table are as many as the nodes
/// that the source reaches.
pub proof fn lemma_reached_count(g: Seq<Set<usize>>, s: usize)
    requires
        g.len() <= usize::MAX,
    ensures
        reachable_set(g, s).finite(),
        reachable_set(g, s).len() == tally(distance_row(g, s), reached_weight()),
{
    lemma_reached_below(g, s, g.len() as int);
    lemma_tally_whole(distance_row(g, s), reached_weight());
    assert(reachable_set(g, s) =~= reached_below(g, s, g.len() as int)) by {
        assert forall|t: usize| reachable(g, s, t) implies t < g.len() by {
            let hops = choose|hops: nat| walk(g, s, t, hops);
            lemma_walk_ends(g, s, t, hops);
        }
    }
}

/// The sum of the hop counts of the finite entries of a distance table.
pub fn sum_of_hops(distances: &[i32]) -> (sum: u128)
    ensures
        sum == tally(as_ints(distances@), hop_weight()),
{
    let ghost row = as_ints(distances@);
    let mut sum: u128 = 0;
    for t in 0..distances.len()
        invariant
            row == as_ints(distances@),
            sum == tally(row.take(t as int), hop_weight()),
            sum <= t * 0x8000_0000,
    {
        proof {
            lemma_tally_step(row, hop_weight(), t as int);
        }
        let d: i32 = distances[t];
        if d >= 0 {
            sum = sum + d as u128;
        }
    }
    proof {
        lemma_tally_whole(row, hop_weight());
    }
    sum
}

/// The sum of the squared hop counts of the finite entries of a distance table.
pub fn sum_of_squares(distances: &[i32]) -> (sum: u128)
    ensures
        sum == tally(as_ints(distances@), square_weight()),
{
    let ghost row = as_ints(distances@);
    let mut sum: u128 = 0;
    for t in 0..distances.len()
        invariant
            row == as_ints(distances@),
            sum == tally(row.take(t as int), square_weight()),
            sum <= t * 0x4000_0000_0000_0000,
    {
        proof {
            lemma_tally_step(row, square_weight(), t as int);
        }
        let d: i32 = distances[t];
        if d >= 0 {
            let wide: u128 = d as u128;
            assert(wide * wide <= 0x4000_0000_0000_0000) by (nonlinear_arith)
                requires
                    wide <= 0x8000_0000,
            ;
            sum = sum + wide * wide;
        }
    }
    proof {
        lemma_tally_whole(row, square_weight());
    }
    sum
}

/// The number of finite entries of a distance table.
pub fn count_reached(distances: &[i32]) -> (count: usize)
    ensures
        count == tally(as_ints(distances@), reached_weight()),
        count <= distances@.len(),
{
    let ghost row = as_ints(distances@);
    let mut count: usize = 0;
    for t in 0..distances.len()
        invariant
            row == as_ints(distances@),
            count == tally(row.take(t as int), reached_weight()),
            count <= t,
    {
        proof {
            lemma_tally_step(row, reached_weight(), t as int);
        }
        if distances[t] >= 0 {
            count = count + 1;
        }
    }
    proof {
        lemma_tally_whole(row, reached_weight());
    }
    count
}

} // verus!
