//! The model: a graph as a sequence of neighbour sets, walks along its edges,
//! and the hop distance between two nodes.

use std::collections::HashSet;
use vstd::prelude::*;
use vstd::set_lib::lemma_len_subset;

verus! {

broadcast use vstd::std_specs::hash::group_hash_axioms;

/// The neighbour sets of an adjacency list, one per node, in node order.
pub open spec fn neighbor_sets(adj: Seq<HashSet<usize>>) -> Seq<Set<usize>> {
    Seq::new(adj.len(), |u: int| adj[u]@)
}

/// Every neighbour that a row names is itself a node of the graph.
pub open spec fn closed(g: Seq<Set<usize>>) -> bool {
    forall|u: int, v: usize| 0 <= u < g.len() && #[trigger] g[u].contains(v) ==> v < g.len()
}

/// `v` is a neighbour of `u` exactly when `u` is a neighbour of `v`.
pub open spec fn symmetric(g: Seq<Set<usize>>) -> bool {
    forall|u: usize, v: usize|
        u < g.len() && v < g.len() ==> (#[trigger] g[u as int].contains(v) <==> g[v as int].contains(u))
}

/// No node is its own neighbour.
pub open spec fn loop_free(g: Seq<Set<usize>>) -> bool {
    forall|u: usize| u < g.len() ==> !(#[trigger] g[u as int].contains(u))
}

/// The graphs that the builder produces: closed, symmetric and without loops.
pub open spec fn well_formed(g: Seq<Set<usize>>) -> bool {
    closed(g) && symmetric(g) && loop_free(g)
}

/// There is an edge from node `u` to node `v`.
pub open spec fn has_edge(g: Seq<Set<usize>>, u: usize, v: usize) -> bool {
    u < g.len() && v < g.len() && g[u as int].contains(v)
}

/// Some walk of exactly `hops` edges leads from `s` to `t`.
pub open spec fn walk(g: Seq<Set<usize>>, s: usize, t: usize, hops: nat) -> bool
    decreases hops,
{
    if hops == 0 {
        s == t && s < g.len()
    } else {
        exists|m: usize| walk(g, s, m, (hops - 1) as nat) && #[trigger] has_edge(g, m, t)
    }
}

/// Some walk leads from `s` to `t`.
pub open spec fn reachable(g: Seq<Set<usize>>, s: usize, t: usize) -> bool {
    exists|hops: nat| walk(g, s, t, hops)
}

/// The nodes that `s` reaches, `s` itself among them.
pub open spec fn reachable_set(g: Seq<Set<usize>>, s: usize) -> Set<usize> {
    Set::new(|t: usize| reachable(g, s, t))
}

/// `d` is the length of a shortest walk from `s` to `t`.
pub open spec fn is_distance(g: Seq<Set<usize>>, s: usize, t: usize, d: nat) -> bool {
    walk(g, s, t, d) && forall|k: nat| k < d ==> !walk(g, s, t, k)
}

/// The least number of hops from `s` to `t`, or -1 where `s` does not reach `t`.
pub open spec fn hop_distance(g: Seq<Set<usize>>, s: usize, t: usize) -> int {
    if reachable(g, s, t) {
        (choose|d: nat| is_distance(g, s, t, d)) as int
    } else {
        -1
    }
}

/// The distance table of a source: the hop distance to every node, in node order.
pub open spec fn distance_row(g: Seq<Set<usize>>, s: usize) -> Seq<int> {
    Seq::new(g.len(), |t: int| hop_distance(g, s, t as usize))
}

/// A table of machine integers as a sequence of integers.
pub open spec fn as_ints(table: Seq<i32>) -> Seq<int> {
    Seq::new(table.len(), |t: int| table[t] as int)
}

/// A walk grows by one hop along any edge that leaves its end.
pub proof fn lemma_walk_extends(g: Seq<Set<usize>>, s: usize, m: usize, t: usize, hops: nat)
    requires
        walk(g, s, m, hops),
        has_edge(g, m, t),
    ensures
        walk(g, s, t, hops + 1),
{
    assert(walk(g, s, m, ((hops + 1) - 1) as nat));
}

/// A walk starts and ends at nodes of the graph.
pub proof fn lemma_walk_ends(g: Seq<Set<usize>>, s: usize, t: usize, hops: nat)
    requires
        walk(g, s, t, hops),
    ensures
        s < g.len(),
        t < g.len(),
    decreases hops,
{
    if hops > 0 {
        let m = choose|m: usize| walk(g, s, m, (hops - 1) as nat) && #[trigger] has_edge(g, m, t);
        lemma_walk_ends(g, s, m, (hops - 1) as nat);
    }
}

/// A shortest walk fixes the hop distance.
pub proof fn lemma_distance_unique(g: Seq<Set<usize>>, s: usize, t: usize, d: nat)
    requires
        is_distance(g, s, t, d),
    ensures
        reachable(g, s, t),
        hop_distance(g, s, t) == d,
{
    let c = choose|c: nat| is_distance(g, s, t, c);
    assert(is_distance(g, s, t, c));
    if c < d {
        assert(!walk(g, s, t, c));
    }
    if d < c {
        assert(!walk(g, s, t, d));
    }
}

/// Among the walks from `s` to `t`, if there is any, one is shortest.
pub proof fn lemma_shortest_exists(g: Seq<Set<usize>>, s: usize, t: usize, hops: nat)
    requires
        walk(g, s, t, hops),
    ensures
        exists|d: nat| d <= hops && #[trigger] is_distance(g, s, t, d),
    decreases hops,
{
    if exists|k: nat| k < hops && walk(g, s, t, k) {
        let k = choose|k: nat| k < hops && walk(g, s, t, k);
        lemma_shortest_exists(g, s, t, k);
        let d = choose|d: nat| d <= k && #[trigger] is_distance(g, s, t, d);
        assert(d <= hops && is_distance(g, s, t, d));
    } else {
        assert(is_distance(g, s, t, hops));
    }
}

/// The hop distance is -1 or the length of a shortest walk.
pub proof fn lemma_hop_distance(g: Seq<Set<usize>>, s: usize, t: usize)
    ensures
        hop_distance(g, s, t) >= -1,
        reachable(g, s, t) <==> hop_distance(g, s, t) >= 0,
        reachable(g, s, t) ==> is_distance(g, s, t, hop_distance(g, s, t) as nat),
{
    if reachable(g, s, t) {
        let hops = choose|hops: nat| walk(g, s, t, hops);
        lemma_shortest_exists(g, s, t, hops);
        let d = choose|d: nat| d <= hops && #[trigger] is_distance(g, s, t, d);
        lemma_distance_unique(g, s, t, d);
    }
}

/// Every node is at distance 0 from itself.
pub proof fn lemma_distance_to_self(g: Seq<Set<usize>>, s: usize)
    requires
        s < g.len(),
    ensures
        reachable(g, s, s),
        hop_distance(g, s, s) == 0,
{
    assert(walk(g, s, s, 0));
    assert(is_distance(g, s, s, 0));
    lemma_distance_unique(g, s, s, 0);
}

/// Only a node is at distance 0 from itself: distinct nodes are at least one hop apart.
pub proof fn lemma_distance_zero(g: Seq<Set<usize>>, s: usize, t: usize)
    ensures
        hop_distance(g, s, t) == 0 <==> s == t && s < g.len(),
{
    lemma_hop_distance(g, s, t);
    if s == t && s < g.len() {
        lemma_distance_to_self(g, s);
    }
    if hop_distance(g, s, t) == 0 {
        assert(walk(g, s, t, 0));
    }
}

/// The node identifiers below `n`.
pub open spec fn below(n: nat) -> Set<usize> {
    Set::new(|v: usize| v < n)
}

/// There are `n` node identifiers below `n`.
pub proof fn lemma_below_len(n: nat)
    requires
        n <= usize::MAX + 1,
    ensures
        below(n).finite(),
        below(n).len() == n,
    decreases n,
{
    if n == 0 {
        assert(below(0) =~= Set::<usize>::empty());
    } else {
        lemma_below_len((n - 1) as nat);
        assert(below(n) =~= below((n - 1) as nat).insert((n - 1) as usize));
    }
}

/// Distinct nodes of a graph with `n` nodes are at most `n`.
pub proof fn lemma_distinct_nodes(nodes: Seq<usize>, n: nat)
    requires
        nodes.no_duplicates(),
        forall|j: int| 0 <= j < nodes.len() ==> nodes[j] < n,
        n <= usize::MAX + 1,
    ensures
        nodes.len() <= n,
{
    nodes.unique_seq_to_set();
    lemma_below_len(n);
    assert(nodes.to_set().subset_of(below(n))) by {
        assert forall|v: usize| nodes.to_set().contains(v) implies below(n).contains(v) by {
            assert(nodes.contains(v));
        }
    }
    lemma_len_subset(nodes.to_set(), below(n));
}

/// A node reaches finitely many nodes, no more than the graph has, and
/// itself among them.
pub proof fn lemma_reach_count(g: Seq<Set<usize>>, s: usize)
    ensures
        reachable_set(g, s).finite(),
        reachable_set(g, s).len() <= g.len(),
        s < g.len() ==> reachable_set(g, s).len() >= 1,
{
    let reached = reachable_set(g, s);
    let bound: nat = if g.len() <= usize::MAX {
        g.len()
    } else {
        (usize::MAX + 1) as nat
    };
    lemma_below_len(bound);
    assert(reached.subset_of(below(bound))) by {
        assert forall|t: usize| reached.contains(t) implies below(bound).contains(t) by {
            let hops = choose|hops: nat| walk(g, s, t, hops);
            lemma_walk_ends(g, s, t, hops);
        }
    }
    lemma_len_subset(reached, below(bound));
    if s < g.len() {
        lemma_distance_to_self(g, s);
        let alone = Set::<usize>::empty().insert(s);
        assert(alone.subset_of(reached));
        lemma_len_subset(alone, reached);
    }
}

/// The node before the end of a shortest walk is one hop nearer.
pub proof fn lemma_shortest_prefix(g: Seq<Set<usize>>, s: usize, t: usize, d: nat)
    requires
        is_distance(g, s, t, d),
        d > 0,
    ensures
        exists|m: usize| is_distance(g, s, m, (d - 1) as nat) && #[trigger] has_edge(g, m, t),
{
    let m = choose|m: usize| walk(g, s, m, (d - 1) as nat) && #[trigger] has_edge(g, m, t);
    assert forall|k: nat| k < d - 1 implies !walk(g, s, m, k) by {
        if walk(g, s, m, k) {
            lemma_walk_extends(g, s, m, t, k);
            assert(!walk(g, s, t, k + 1));
        }
    }
    assert(is_distance(g, s, m, (d - 1) as nat) && has_edge(g, m, t));
}

/// A shortest walk of `d` hops passes one node at each distance from 0 to `d`.
proof fn lemma_levels(g: Seq<Set<usize>>, s: usize, t: usize, d: nat) -> (chain: Seq<usize>)
    requires
        is_distance(g, s, t, d),
    ensures
        chain.len() == d + 1,
        forall|k: int| 0 <= k <= d ==> is_distance(g, s, #[trigger] chain[k], k as nat),
    decreases d,
{
    if d == 0 {
        seq![t]
    } else {
        lemma_shortest_prefix(g, s, t, d);
        let m = choose|m: usize| is_distance(g, s, m, (d - 1) as nat) && #[trigger] has_edge(g, m, t);
        let shorter = lemma_levels(g, s, m, (d - 1) as nat);
        let chain = shorter.push(t);
        assert forall|k: int| 0 <= k <= d implies is_distance(g, s, #[trigger] chain[k], k as nat) by {
            if k < d {
                assert(chain[k] == shorter[k]);
            }
        }
        chain
    }
}

/// No hop distance reaches the number of nodes that the source reaches,
/// itself included.
pub proof fn lemma_distance_below_reach(g: Seq<Set<usize>>, s: usize, t: usize)
    ensures
        reachable_set(g, s).finite(),
        hop_distance(g, s, t) < reachable_set(g, s).len(),
        hop_distance(g, s, t) < g.len(),
{
    let reached = reachable_set(g, s);
    lemma_reach_count(g, s);
    lemma_hop_distance(g, s, t);
    if reachable(g, s, t) {
        let d = hop_distance(g, s, t) as nat;
        let chain = lemma_levels(g, s, t, d);
        assert(chain.no_duplicates()) by {
            assert forall|i: int, j: int|
                0 <= i < chain.len() && 0 <= j < chain.len() && i != j implies chain[i] != chain[j] by {
                lemma_distance_unique(g, s, chain[i], i as nat);
                lemma_distance_unique(g, s, chain[j], j as nat);
            }
        }
        chain.unique_seq_to_set();
        assert(chain.to_set().subset_of(reached)) by {
            assert forall|v: usize| chain.to_set().contains(v) implies reached.contains(v) by {
                assert(chain.contains(v));
                let k = choose|k: int| 0 <= k < chain.len() && chain[k] == v;
                assert(is_distance(g, s, chain[k], k as nat));
            }
        }
        lemma_len_subset(chain.to_set(), reached);
    }
}

/// Whether every identifier in `row` is below `bound`.
pub fn all_below(row: &HashSet<usize>, bound: usize) -> (ok: bool)
    ensures
        ok <==> forall|v: usize| row@.contains(v) ==> v < bound,
{
    let mut ok: bool = true;
    let ghost mut beyond: usize = 0;
    for v in it: row.iter()
        invariant
            it.seq().unref().to_set() == row@,
            ok ==> forall|j: int| 0 <= j < it.index() ==> *#[trigger] it.seq()[j] < bound,
            !ok ==> row@.contains(beyond) && beyond >= bound,
    {
        proof {
            assert(*v == it.seq().unref()[it.index()]);
            assert(it.seq().unref().contains(*v));
            assert(it.seq().unref().to_set().contains(*v));
        }
        if *v >= bound {
            ok = false;
            proof {
                beyond = *v;
            }
        }
    }
    ok
}

/// Whether an adjacency list is closed: whether every neighbour that a row
/// names has a row of its own. The analyses ask this of their input.
pub fn is_closed(adj_list: &[HashSet<usize>]) -> (ok: bool)
    ensures
        ok <==> closed(neighbor_sets(adj_list@)),
{
    let n: usize = adj_list.len();
    let ghost g = neighbor_sets(adj_list@);
    for u in 0..n
        invariant
            n == adj_list@.len(),
            g == neighbor_sets(adj_list@),
            forall|r: int, v: usize| 0 <= r < u && #[trigger] g[r].contains(v) ==> v < n,
    {
        if !all_below(&adj_list[u], n) {
            proof {
                let v = choose|v: usize| adj_list@[u as int]@.contains(v) && !(v < n);
                assert(g[u as int].contains(v));
            }
            return false;
        }
        proof {
            assert forall|r: int, v: usize| 0 <= r < u + 1 && #[trigger] g[r].contains(v) implies v
                < n by {
                if r == u {
                    assert(adj_list@[u as int]@.contains(v));
                }
            }
        }
    }
    true
}

} // verus!
