//! Building the adjacency list from an edge list given as two parallel
//! sequences of node identifiers.

use crate::error::GraphError;
use crate::graph::{closed, loop_free, neighbor_sets, symmetric, well_formed};
use std::collections::HashSet;
use vstd::prelude::*;

verus! {

broadcast use vstd::std_specs::hash::group_hash_axioms;

/// `m` is the greatest of `ids`.
pub open spec fn is_largest(ids: Seq<usize>, m: usize) -> bool {
    ids.contains(m) && forall|i: int| 0 <= i < ids.len() ==> ids[i] <= m
}

/// The greatest of `ids`, where there is any.
pub open spec fn largest_id(ids: Seq<usize>) -> usize {
    choose|m: usize| is_largest(ids, m)
}

/// The `i`-th source and the `i`-th target are `u` and `v`, in either order.
pub open spec fn is_pair(nodes: Seq<usize>, edges: Seq<usize>, i: int, u: usize, v: usize) -> bool {
    &&& 0 <= i < nodes.len()
    &&& i < edges.len()
    &&& (nodes[i] == u && edges[i] == v) || (nodes[i] == v && edges[i] == u)
}

/// One of the first `k` pairs joins the distinct nodes `u` and `v`.
pub open spec fn joined_within(
    nodes: Seq<usize>,
    edges: Seq<usize>,
    k: int,
    u: usize,
    v: usize,
) -> bool {
    u != v && exists|i: int| 0 <= i < k && #[trigger] is_pair(nodes, edges, i, u, v)
}

/// Some pair joins the distinct nodes `u` and `v`. Sources and targets pair
/// up place by place, as far as the shorter sequence goes.
pub open spec fn joined(nodes: Seq<usize>, edges: Seq<usize>, u: usize, v: usize) -> bool {
    joined_within(nodes, edges, nodes.len() as int, u, v)
}

/// The graph of an edge list: one row for every identifier up to the
/// greatest that occurs, and in the row of `u` every node that some pair
/// joins to `u`.
pub open spec fn adjacency_of(nodes: Seq<usize>, edges: Seq<usize>) -> Seq<Set<usize>> {
    Seq::new(
        (largest_id(nodes + edges) + 1) as nat,
        |u: int| Set::new(|v: usize| joined(nodes, edges, u as usize, v)),
    )
}

/// The graph with the edge between `u` and `v` added, in both rows. A loop,
/// or an edge to a node that the graph does not have, adds nothing.
pub open spec fn with_edge(g: Seq<Set<usize>>, u: usize, v: usize) -> Seq<Set<usize>> {
    if u != v && u < g.len() && v < g.len() {
        g.update(u as int, g[u as int].insert(v)).update(v as int, g[v as int].insert(u))
    } else {
        g
    }
}

/// A sequence has at most one greatest element.
pub proof fn lemma_largest_unique(ids: Seq<usize>, m: usize)
    requires
        is_largest(ids, m),
    ensures
        largest_id(ids) == m,
{
    let c = largest_id(ids);
    assert(is_largest(ids, c));
    let i = choose|i: int| 0 <= i < ids.len() && ids[i] == m;
    let j = choose|j: int| 0 <= j < ids.len() && ids[j] == c;
    assert(ids[i] <= c && ids[j] <= m);
}

/// A sequence that is not empty has a greatest element.
pub proof fn lemma_largest_exists(ids: Seq<usize>)
    requires
        ids.len() > 0,
    ensures
        is_largest(ids, largest_id(ids)),
    decreases ids.len(),
{
    let last = ids.last();
    if ids.len() == 1 {
        assert(ids[0] == last);
        assert(is_largest(ids, last));
    } else {
        let rest = ids.drop_last();
        lemma_largest_exists(rest);
        let m = largest_id(rest);
        let i = choose|i: int| 0 <= i < rest.len() && rest[i] == m;
        assert(ids[i] == m);
        assert forall|k: int| 0 <= k < ids.len() implies ids[k] <= (if m < last {
            last
        } else {
            m
        }) by {
            if k < rest.len() {
                assert(rest[k] <= m);
            }
        }
        if m < last {
            assert(ids[ids.len() - 1] == last);
            assert(is_largest(ids, last));
        } else {
            assert(is_largest(ids, m));
        }
    }
}

/// Sequences with the same elements have the same greatest element.
pub proof fn lemma_largest_same(a: Seq<usize>, b: Seq<usize>)
    requires
        a.len() > 0,
        forall|x: usize| a.contains(x) <==> b.contains(x),
    ensures
        largest_id(a) == largest_id(b),
{
    lemma_largest_exists(a);
    let m = largest_id(a);
    assert(b.contains(m));
    assert forall|i: int| 0 <= i < b.len() implies b[i] <= m by {
        assert(b.contains(b[i]));
        let j = choose|j: int| 0 <= j < a.len() && a[j] == b[i];
        assert(a[j] <= m);
    }
    lemma_largest_unique(b, m);
}

/// The graph of an edge list is closed, symmetric and free of loops, whatever
/// the pairs: a pair of a node with itself leaves no trace.
pub proof fn lemma_adjacency_well_formed(nodes: Seq<usize>, edges: Seq<usize>)
    ensures
        well_formed(adjacency_of(nodes, edges)),
        symmetric(adjacency_of(nodes, edges)),
        loop_free(adjacency_of(nodes, edges)),
        closed(adjacency_of(nodes, edges)),
{
    let g = adjacency_of(nodes, edges);
    let ids = nodes + edges;
    if ids.len() > 0 {
        lemma_largest_exists(ids);
    }
    assert forall|u: int, v: usize| 0 <= u < g.len() && #[trigger] g[u].contains(v) implies v
        < g.len() by {
        let i = choose|i: int|
            0 <= i < nodes.len() && #[trigger] is_pair(nodes, edges, i, u as usize, v);
        assert(ids[i] == nodes[i]);
        assert(ids[nodes.len() + i] == edges[i]);
    }
    assert forall|u: usize, v: usize| u < g.len() && v < g.len() implies (#[trigger] g[u as int].contains(
        v,
    ) <==> g[v as int].contains(u)) by {
        if g[u as int].contains(v) {
            let i = choose|i: int| 0 <= i < nodes.len() && #[trigger] is_pair(nodes, edges, i, u, v);
            assert(is_pair(nodes, edges, i, v, u));
        }
        if g[v as int].contains(u) {
            let i = choose|i: int| 0 <= i < nodes.len() && #[trigger] is_pair(nodes, edges, i, v, u);
            assert(is_pair(nodes, edges, i, u, v));
        }
    }
}

/// A pair that the edge list holds already, in either order, changes nothing
/// when it is given once more, in either order.
pub proof fn lemma_duplicate_pair(nodes: Seq<usize>, edges: Seq<usize>, i: int, u: usize, v: usize)
    requires
        nodes.len() == edges.len(),
        is_pair(nodes, edges, i, u, v),
    ensures
        adjacency_of(nodes.push(u), edges.push(v)) == adjacency_of(nodes, edges),
        adjacency_of(nodes.push(v), edges.push(u)) == adjacency_of(nodes, edges),
{
    lemma_repeated_pair(nodes, edges, i, u, v);
    lemma_repeated_pair(nodes, edges, i, v, u);
}

/// A node that no pair joins to another node has an empty row.
pub proof fn lemma_isolated_row(nodes: Seq<usize>, edges: Seq<usize>, k: usize)
    requires
        k < adjacency_of(nodes, edges).len(),
        forall|i: int|
            0 <= i < nodes.len() && i < edges.len() && (nodes[i] == k || edges[i] == k) ==> nodes[i]
                == edges[i],
    ensures
        adjacency_of(nodes, edges)[k as int] == Set::<usize>::empty(),
{
    let row = adjacency_of(nodes, edges)[k as int];
    assert forall|v: usize| !row.contains(v) by {
        if row.contains(v) {
            let i = choose|i: int| 0 <= i < nodes.len() && #[trigger] is_pair(nodes, edges, i, k, v);
            assert(nodes[i] == edges[i]);
        }
    }
    assert(row =~= Set::<usize>::empty());
}

/// A pair that the edge list holds already, in either order, changes nothing
/// when it is given once more.
proof fn lemma_repeated_pair(nodes: Seq<usize>, edges: Seq<usize>, i: int, u: usize, v: usize)
    requires
        nodes.len() == edges.len(),
        is_pair(nodes, edges, i, u, v),
    ensures
        adjacency_of(nodes.push(u), edges.push(v)) == adjacency_of(nodes, edges),
{
    let nodes2 = nodes.push(u);
    let edges2 = edges.push(v);
    let ids = nodes + edges;
    let ids2 = nodes2 + edges2;
    let n = nodes.len() as int;
    assert forall|x: usize| ids.contains(x) <==> ids2.contains(x) by {
        if ids.contains(x) {
            let k = choose|k: int| 0 <= k < ids.len() && ids[k] == x;
            if k < n {
                assert(ids2[k] == x);
            } else {
                assert(ids2[k + 1] == x);
            }
        }
        if ids2.contains(x) {
            let k = choose|k: int| 0 <= k < ids2.len() && ids2[k] == x;
            assert(ids[i] == nodes[i] && ids[n + i] == edges[i]);
            if k < n {
                assert(ids[k] == x);
            } else if k == n {
                assert(x == u);
            } else if k < 2 * n + 1 {
                assert(ids[k - 1] == x);
            } else {
                assert(x == v);
            }
        }
    }
    lemma_largest_same(ids, ids2);
    assert forall|a: usize, b: usize| joined(nodes2, edges2, a, b) <==> joined(
        nodes,
        edges,
        a,
        b,
    ) by {
        if joined(nodes2, edges2, a, b) {
            let k = choose|k: int| 0 <= k < nodes2.len() && #[trigger] is_pair(nodes2, edges2, k, a, b);
            if k < n {
                assert(is_pair(nodes, edges, k, a, b));
            } else {
                assert(is_pair(nodes, edges, i, a, b));
            }
        }
        if joined(nodes, edges, a, b) {
            let k = choose|k: int| 0 <= k < nodes.len() && #[trigger] is_pair(nodes, edges, k, a, b);
            assert(is_pair(nodes2, edges2, k, a, b));
        }
    }
    assert(adjacency_of(nodes2, edges2) =~= adjacency_of(nodes, edges)) by {
        let g = adjacency_of(nodes, edges);
        let g2 = adjacency_of(nodes2, edges2);
        assert forall|r: int| 0 <= r < g.len() implies g2[r] =~= g[r] by {
            assert forall|b: usize| g2[r].contains(b) <==> g[r].contains(b) by {
                assert(joined(nodes2, edges2, r as usize, b) <==> joined(nodes, edges, r as usize, b));
            }
        }
    }
}

/// An edge added a second time, in either order, changes nothing.
pub proof fn lemma_with_edge_idempotent(g: Seq<Set<usize>>, u: usize, v: usize)
    ensures
        with_edge(with_edge(g, u, v), u, v) == with_edge(g, u, v),
        with_edge(with_edge(g, u, v), v, u) == with_edge(g, u, v),
        with_edge(g, v, u) == with_edge(g, u, v),
{
    let once = with_edge(g, u, v);
    if u != v && u < g.len() && v < g.len() {
        assert(once[u as int] =~= g[u as int].insert(v));
        assert(once[v as int] =~= g[v as int].insert(u));
        assert(once[u as int].insert(v) =~= once[u as int]);
        assert(once[v as int].insert(u) =~= once[v as int]);
        assert(with_edge(once, u, v) =~= once);
        assert(with_edge(once, v, u) =~= once);
        assert(with_edge(g, v, u) =~= once);
    }
}

/// An added edge keeps a graph closed, symmetric and free of loops.
pub proof fn lemma_with_edge_well_formed(g: Seq<Set<usize>>, u: usize, v: usize)
    requires
        well_formed(g),
    ensures
        well_formed(with_edge(g, u, v)),
{
    let once = with_edge(g, u, v);
    if u != v && u < g.len() && v < g.len() {
        assert forall|a: int, b: usize| 0 <= a < once.len() && #[trigger] once[a].contains(
            b,
        ) implies b < once.len() by {
            if !g[a].contains(b) {
            }
        }
        assert forall|a: usize, b: usize| a < once.len() && b < once.len() implies (#[trigger] once[a as int].contains(
            b,
        ) <==> once[b as int].contains(a)) by {
            assert(g[a as int].contains(b) <==> g[b as int].contains(a));
        }
        assert forall|a: usize| a < once.len() implies !(#[trigger] once[a as int].contains(a)) by {
            assert(!g[a as int].contains(a));
        }
    }
}

/// Adds the edge between `node` and `edge` to both rows. A pair of a node
/// with itself is dropped, and so is a pair that names a node beyond the
/// rows of `adj_list`.
pub fn insert_edge(adj_list: &mut Vec<HashSet<usize>>, node: usize, edge: usize)
    ensures
        neighbor_sets(final(adj_list)@) == with_edge(neighbor_sets(old(adj_list)@), node, edge),
{
    if node != edge {
        if node < adj_list.len() && edge < adj_list.len() {
            adj_list[node].insert(edge);
            adj_list[edge].insert(node);
        }
    }
    assert(neighbor_sets(adj_list@) =~= with_edge(neighbor_sets(old(adj_list)@), node, edge));
}

/// The graph of the first `k` pairs, with `size` rows.
spec fn partial_graph(nodes: Seq<usize>, edges: Seq<usize>, size: nat, k: int) -> Seq<Set<usize>> {
    Seq::new(size, |u: int| Set::new(|v: usize| joined_within(nodes, edges, k, u as usize, v)))
}

/// One more pair adds its edge to the graph of the pairs before it.
proof fn lemma_partial_step(nodes: Seq<usize>, edges: Seq<usize>, size: nat, k: int)
    requires
        0 <= k < nodes.len(),
        k < edges.len(),
        nodes[k] < size,
        edges[k] < size,
        size <= usize::MAX + 1,
    ensures
        with_edge(partial_graph(nodes, edges, size, k), nodes[k], edges[k]) == partial_graph(
            nodes,
            edges,
            size,
            k + 1,
        ),
{
    let before = partial_graph(nodes, edges, size, k);
    let after = partial_graph(nodes, edges, size, k + 1);
    let grown = with_edge(before, nodes[k], edges[k]);
    assert forall|r: int| 0 <= r < size implies grown[r] =~= after[r] by {
        let u = r as usize;
        let a = nodes[k];
        let b = edges[k];
        assert(grown[r] == if a == b {
            before[r]
        } else if r == a {
            before[r].insert(b)
        } else if r == b {
            before[r].insert(a)
        } else {
            before[r]
        });
        assert forall|v: usize| grown[r].contains(v) <==> after[r].contains(v) by {
            if after[r].contains(v) {
                let i = choose|i: int| 0 <= i < k + 1 && #[trigger] is_pair(nodes, edges, i, u, v);
                if i < k {
                    assert(before[r].contains(v));
                }
            }
            if before[r].contains(v) {
                let i = choose|i: int| 0 <= i < k && #[trigger] is_pair(nodes, edges, i, u, v);
                assert(is_pair(nodes, edges, i, u, v));
            }
            if grown[r].contains(v) && !before[r].contains(v) {
                assert(is_pair(nodes, edges, k, u, v));
            }
        }
    }
    assert(grown =~= after);
}

/// The adjacency list of an edge list: `nodes` holds the sources and `edges`
/// the targets, pair by pair. The list has one row for every identifier up to
/// the greatest in either sequence; each pair of distinct nodes enters both
/// rows, once however often it is given. Without a source there is nothing
/// to size the list by.
pub fn create_adjacency_list(nodes: &[usize], edges: &[usize]) -> (result: Result<
    Vec<HashSet<usize>>,
    GraphError,
>)
    requires
        forall|i: int| 0 <= i < nodes@.len() ==> nodes@[i] < usize::MAX,
        forall|i: int| 0 <= i < edges@.len() ==> edges@[i] < usize::MAX,
    ensures
        result is Err <==> nodes@.len() == 0,
        result matches Err(e) ==> e == GraphError::InvalidInput,
        result matches Ok(adj_list) ==> {
            &&& adj_list@.len() == largest_id(nodes@ + edges@) + 1
            &&& neighbor_sets(adj_list@) == adjacency_of(nodes@, edges@)
            &&& well_formed(neighbor_sets(adj_list@))
        },
{
    if nodes.len() == 0 {
        return Err(GraphError::InvalidInput);
    }
    let ghost ids = nodes@ + edges@;
    let mut max_node: usize = nodes[0];
    let ghost mut at: int = 0;
    for i in 1..nodes.len()
        invariant
            0 <= at < i <= nodes@.len(),
            nodes@[at] == max_node,
            forall|j: int| 0 <= j < i ==> nodes@[j] <= max_node,
    {
        if nodes[i] > max_node {
            max_node = nodes[i];
            proof {
                at = i as int;
            }
        }
    }
    proof {
        assert(ids[at] == max_node);
    }
    for i in 0..edges.len()
        invariant
            ids == nodes@ + edges@,
            ids.contains(max_node),
            forall|j: int| 0 <= j < nodes@.len() ==> nodes@[j] <= max_node,
            forall|j: int| 0 <= j < i ==> edges@[j] <= max_node,
    {
        if edges[i] > max_node {
            max_node = edges[i];
            proof {
                assert(ids[nodes@.len() + i] == max_node);
            }
        }
    }
    proof {
        assert forall|j: int| 0 <= j < ids.len() implies ids[j] <= max_node by {
            if j < nodes@.len() {
                assert(ids[j] == nodes@[j]);
            } else {
                assert(ids[j] == edges@[j - nodes@.len()]);
            }
        }
        lemma_largest_unique(ids, max_node);
        let top = choose|top: int| 0 <= top < ids.len() && ids[top] == max_node;
        if top < nodes@.len() {
            assert(ids[top] == nodes@[top]);
        } else {
            assert(ids[top] == edges@[top - nodes@.len()]);
        }
    }
    let size: usize = max_node + 1;
    let mut adj_list: Vec<HashSet<usize>> = Vec::new();
    for row in 0..size
        invariant
            adj_list@.len() == row,
            forall|r: int| 0 <= r < row ==> adj_list@[r]@ == Set::<usize>::empty(),
    {
        adj_list.push(HashSet::new());
    }
    let pairs: usize = if nodes.len() <= edges.len() {
        nodes.len()
    } else {
        edges.len()
    };
    proof {
        assert(neighbor_sets(adj_list@) =~= partial_graph(nodes@, edges@, size as nat, 0)) by {
            assert forall|r: int| 0 <= r < size implies neighbor_sets(adj_list@)[r] =~= partial_graph(
                nodes@,
                edges@,
                size as nat,
                0,
            )[r] by {}
        }
    }
    for i in 0..pairs
        invariant
            pairs <= nodes@.len(),
            pairs <= edges@.len(),
            forall|j: int| 0 <= j < nodes@.len() ==> nodes@[j] < size,
            forall|j: int| 0 <= j < edges@.len() ==> edges@[j] < size,
            neighbor_sets(adj_list@) == partial_graph(nodes@, edges@, size as nat, i as int),
    {
        proof {
            lemma_partial_step(nodes@, edges@, size as nat, i as int);
        }
        insert_edge(&mut adj_list, nodes[i], edges[i]);
    }
    proof {
        let built = partial_graph(nodes@, edges@, size as nat, pairs as int);
        let whole = adjacency_of(nodes@, edges@);
        assert(adj_list@.len() == size) by {
            assert(neighbor_sets(adj_list@).len() == built.len());
        }
        assert forall|r: int| 0 <= r < size implies built[r] =~= whole[r] by {
            let u = r as usize;
            assert forall|v: usize| built[r].contains(v) <==> whole[r].contains(v) by {
                if built[r].contains(v) {
                    let i = choose|i: int| 0 <= i < pairs && #[trigger] is_pair(nodes@, edges@, i, u, v);
                    assert(is_pair(nodes@, edges@, i, u, v));
                }
                if whole[r].contains(v) {
                    let i = choose|i: int|
                        0 <= i < nodes@.len() && #[trigger] is_pair(nodes@, edges@, i, u, v);
                    assert(i < pairs);
                }
            }
        }
        assert(built =~= whole);
        lemma_adjacency_well_formed(nodes@, edges@);
    }
    Ok(adj_list)
}

} // verus!
