//! Breadth-first search from one source: the distance table of the source.

use crate::graph::{
    as_ints, closed, distance_row, has_edge, hop_distance, lemma_distance_unique,
    lemma_distinct_nodes, lemma_hop_distance, lemma_walk_extends, neighbor_sets, reachable,
    reachable_set, walk,
};
use std::collections::{HashSet, VecDeque};
use vstd::prelude::*;
use vstd::seq_lib::seq_to_set_is_finite;

verus! {

broadcast use vstd::std_specs::hash::group_hash_axioms;

/// `w` has been discovered, at most one hop beyond `base`.
spec fn met(dist: Seq<i32>, w: usize, base: int) -> bool {
    w < dist.len() && dist[w as int] != -1 && dist[w as int] <= base + 1
}

/// Every neighbour of `u` has been discovered, at most one hop beyond `u`.
spec fn settled(g: Seq<Set<usize>>, dist: Seq<i32>, u: usize) -> bool {
    forall|w: usize| #[trigger] g[u as int].contains(w) ==> met(dist, w, dist[u as int] as int)
}

/// The `j`-th discovered node: where it stands, how far it is, and a walk that shows it.
spec fn entry_ok(
    g: Seq<Set<usize>>,
    start: usize,
    dist: Seq<i32>,
    order: Seq<usize>,
    rank: Seq<int>,
    j: int,
) -> bool {
    let v = order[j];
    &&& v < g.len()
    &&& rank[v as int] == j
    &&& 0 <= dist[v as int] <= j
    &&& walk(g, start, v, dist[v as int] as nat)
}

/// The state of a search from `start`: `order` lists the discovered nodes as
/// they entered the queue, `rank` gives each its place in `order`, and the
/// first `done` of them have left the queue with all their neighbours seen.
spec fn search_inv(
    g: Seq<Set<usize>>,
    start: usize,
    dist: Seq<i32>,
    order: Seq<usize>,
    rank: Seq<int>,
    done: int,
) -> bool {
    &&& dist.len() == g.len()
    &&& rank.len() == g.len()
    &&& g.len() <= i32::MAX
    &&& 0 <= done <= order.len()
    &&& 1 <= order.len() <= g.len()
    &&& order[0] == start
    &&& forall|j: int| 0 <= j < order.len() ==> #[trigger] entry_ok(g, start, dist, order, rank, j)
    &&& forall|t: int|
        0 <= t < g.len() && dist[t] != -1 ==> 0 <= #[trigger] rank[t] < order.len() && order[rank[t]]
            == t
    &&& forall|i: int, j: int|
        0 <= i <= j < order.len() ==> dist[#[trigger] order[i] as int] <= dist[#[trigger] order[j] as int]
    &&& done < order.len() ==> dist[order.last() as int] <= dist[order[done] as int] + 1
    &&& forall|j: int| 0 <= j < done ==> settled(g, dist, #[trigger] order[j])
}

/// A search begins with its source alone, discovered at distance 0.
proof fn lemma_search_start(g: Seq<Set<usize>>, start: usize, dist: Seq<i32>, rank: Seq<int>)
    requires
        start < g.len() <= i32::MAX,
        dist.len() == g.len(),
        rank.len() == g.len(),
        rank[start as int] == 0,
        dist[start as int] == 0,
        forall|t: int| 0 <= t < g.len() && t != start ==> dist[t] == -1,
    ensures
        search_inv(g, start, dist, seq![start], rank, 0),
{
    let order = seq![start];
    assert(walk(g, start, start, 0));
    assert(entry_ok(g, start, dist, order, rank, 0));
}

/// The node at the head of the queue.
proof fn lemma_head(
    g: Seq<Set<usize>>,
    start: usize,
    dist: Seq<i32>,
    order: Seq<usize>,
    rank: Seq<int>,
    done: int,
)
    requires
        search_inv(g, start, dist, order, rank, done),
        done < order.len(),
    ensures
        order[done] < g.len(),
        0 <= dist[order[done] as int] < g.len(),
{
    assert(entry_ok(g, start, dist, order, rank, done));
}

/// A node discovered earlier lies at most one hop beyond the head of the queue.
proof fn lemma_known(
    g: Seq<Set<usize>>,
    start: usize,
    dist: Seq<i32>,
    order: Seq<usize>,
    rank: Seq<int>,
    done: int,
    w: usize,
)
    requires
        search_inv(g, start, dist, order, rank, done),
        done < order.len(),
        w < g.len(),
        dist[w as int] != -1,
    ensures
        met(dist, w, dist[order[done] as int] as int),
{
    let j = rank[w as int];
    assert(order[j] == w);
    assert(dist[order[j] as int] <= dist[order[order.len() - 1] as int]);
}

/// The search discovers `w`, a neighbour of the node at the head of the queue.
proof fn lemma_discover(
    g: Seq<Set<usize>>,
    start: usize,
    dist: Seq<i32>,
    order: Seq<usize>,
    rank: Seq<int>,
    done: int,
    w: usize,
)
    requires
        search_inv(g, start, dist, order, rank, done),
        done < order.len(),
        has_edge(g, order[done], w),
        dist[w as int] == -1,
    ensures
        search_inv(
            g,
            start,
            dist.update(w as int, (dist[order[done] as int] + 1) as i32),
            order.push(w),
            rank.update(w as int, order.len() as int),
            done,
        ),
{
    let node = order[done];
    let len = order.len() as int;
    let far = (dist[node as int] + 1) as i32;
    let d2 = dist.update(w as int, far);
    let o2 = order.push(w);
    let r2 = rank.update(w as int, len);
    assert(entry_ok(g, start, dist, order, rank, done));
    assert(far == dist[node as int] + 1);
    assert forall|j: int| 0 <= j < len implies order[j] != w && order[j] < g.len() by {
        assert(entry_ok(g, start, dist, order, rank, j));
    }
    assert(o2.no_duplicates()) by {
        assert forall|i: int, j: int| 0 <= i < o2.len() && 0 <= j < o2.len() && i != j implies o2[i]
            != o2[j] by {
            if i < len {
                assert(entry_ok(g, start, dist, order, rank, i));
            }
            if j < len {
                assert(entry_ok(g, start, dist, order, rank, j));
            }
        }
    }
    lemma_distinct_nodes(o2, g.len());
    lemma_walk_extends(g, start, node, w, dist[node as int] as nat);
    assert forall|j: int| 0 <= j < o2.len() implies #[trigger] entry_ok(g, start, d2, o2, r2, j) by {
        if j < len {
            assert(entry_ok(g, start, dist, order, rank, j));
        }
    }
    assert forall|t: int| 0 <= t < g.len() && d2[t] != -1 implies 0 <= #[trigger] r2[t] < o2.len()
        && o2[r2[t]] == t by {
        if t != w {
            assert(0 <= rank[t] < len && order[rank[t]] == t);
        }
    }
    assert forall|i: int, j: int| 0 <= i <= j < o2.len() implies d2[#[trigger] o2[i] as int]
        <= d2[#[trigger] o2[j] as int] by {
        if j < len {
            assert(dist[order[i] as int] <= dist[order[j] as int]);
        } else if i < len {
            assert(dist[order[i] as int] <= dist[order[len - 1] as int]);
        }
    }
    assert forall|j: int| 0 <= j < done implies settled(g, d2, #[trigger] o2[j]) by {
        assert(settled(g, dist, order[j]));
        assert forall|x: usize| #[trigger] g[o2[j] as int].contains(x) implies met(
            d2,
            x,
            d2[o2[j] as int] as int,
        ) by {
            assert(met(dist, x, dist[order[j] as int] as int));
        }
    }
}

/// The node at the head of the queue leaves it once all its neighbours are seen.
proof fn lemma_settle(
    g: Seq<Set<usize>>,
    start: usize,
    dist: Seq<i32>,
    order: Seq<usize>,
    rank: Seq<int>,
    done: int,
)
    requires
        search_inv(g, start, dist, order, rank, done),
        done < order.len(),
        settled(g, dist, order[done]),
    ensures
        search_inv(g, start, dist, order, rank, done + 1),
{
    if done + 1 < order.len() {
        assert(dist[order[done] as int] <= dist[order[done + 1] as int]);
    }
    assert forall|j: int| 0 <= j < done + 1 implies settled(g, dist, #[trigger] order[j]) by {}
}

/// Where every discovered node is settled, a walk of `hops` edges ends at a
/// node discovered at distance `hops` or less.
proof fn lemma_complete(g: Seq<Set<usize>>, start: usize, dist: Seq<i32>, t: usize, hops: nat)
    requires
        dist.len() == g.len(),
        start < g.len(),
        dist[start as int] == 0,
        forall|u: usize| u < g.len() && dist[u as int] != -1 ==> #[trigger] settled(g, dist, u),
        walk(g, start, t, hops),
    ensures
        t < g.len(),
        dist[t as int] != -1,
        dist[t as int] <= hops,
    decreases hops,
{
    if hops > 0 {
        let m = choose|m: usize| walk(g, start, m, (hops - 1) as nat) && #[trigger] has_edge(g, m, t);
        lemma_complete(g, start, dist, m, (hops - 1) as nat);
        assert(settled(g, dist, m));
        assert(g[m as int].contains(t));
        assert(met(dist, t, dist[m as int] as int));
    }
}

/// A search whose queue has run empty holds the distance table of its source.
proof fn lemma_search_done(
    g: Seq<Set<usize>>,
    start: usize,
    dist: Seq<i32>,
    order: Seq<usize>,
    rank: Seq<int>,
)
    requires
        search_inv(g, start, dist, order, rank, order.len() as int),
    ensures
        dist[start as int] == 0,
        forall|t: int| 0 <= t < g.len() ==> #[trigger] dist[t] == hop_distance(g, start, t as usize),
        reachable_set(g, start).finite(),
        reachable_set(g, start).len() == order.len(),
        forall|t: int| 0 <= t < g.len() ==> #[trigger] dist[t] < order.len(),
{
    assert(entry_ok(g, start, dist, order, rank, 0));
    assert forall|u: usize| u < g.len() && dist[u as int] != -1 implies #[trigger] settled(
        g,
        dist,
        u,
    ) by {
        let j = rank[u as int];
        assert(order[j] == u);
        assert(settled(g, dist, order[j]));
    }
    assert forall|t: int| 0 <= t < g.len() implies #[trigger] dist[t] == hop_distance(
        g,
        start,
        t as usize,
    ) && dist[t] < order.len() by {
        let node = t as usize;
        if dist[t] == -1 {
            assert forall|k: nat| !walk(g, start, node, k) by {
                if walk(g, start, node, k) {
                    lemma_complete(g, start, dist, node, k);
                }
            }
        } else {
            let j = rank[t];
            assert(order[j] == node);
            assert(entry_ok(g, start, dist, order, rank, j));
            let d = dist[t] as nat;
            assert forall|k: nat| k < d implies !walk(g, start, node, k) by {
                if walk(g, start, node, k) {
                    lemma_complete(g, start, dist, node, k);
                }
            }
            lemma_distance_unique(g, start, node, d);
        }
    }
    assert(order.no_duplicates()) by {
        assert forall|i: int, j: int| 0 <= i < order.len() && 0 <= j < order.len() && i != j implies order[i]
            != order[j] by {
            assert(entry_ok(g, start, dist, order, rank, i));
            assert(entry_ok(g, start, dist, order, rank, j));
        }
    }
    order.unique_seq_to_set();
    seq_to_set_is_finite(order);
    assert(reachable_set(g, start) =~= order.to_set()) by {
        assert forall|t: usize| reachable(g, start, t) implies order.to_set().contains(t) by {
            let k = choose|k: nat| walk(g, start, t, k);
            lemma_complete(g, start, dist, t, k);
            let j = rank[t as int];
            assert(order[j] == t);
            assert(order.contains(t));
        }
        assert forall|t: usize| order.to_set().contains(t) implies reachable(g, start, t) by {
            assert(order.contains(t));
            let j = choose|j: int| 0 <= j < order.len() && order[j] == t;
            assert(entry_ok(g, start, dist, order, rank, j));
        }
    }
}

/// The distance table of `start`: for every node the least number of hops
/// from `start`, or -1 where `start` does not reach it.
///
/// The search explores the graph level by level from a first-in, first-out
/// queue. No distance it assigns reaches the number of nodes that `start`
/// reaches, `start` included.
pub fn bfs_shortest_path_all(adj_list: &[HashSet<usize>], start: usize) -> (distances: Vec<i32>)
    requires
        closed(neighbor_sets(adj_list@)),
        start < adj_list@.len(),
        adj_list@.len() <= i32::MAX,
    ensures
        distances@.len() == adj_list@.len(),
        as_ints(distances@) == distance_row(neighbor_sets(adj_list@), start),
        distances@[start as int] == 0,
        reachable_set(neighbor_sets(adj_list@), start).finite(),
        1 <= reachable_set(neighbor_sets(adj_list@), start).len() <= adj_list@.len(),
        forall|t: int|
            0 <= t < adj_list@.len() ==> -1 <= #[trigger] distances@[t] < reachable_set(
                neighbor_sets(adj_list@),
                start,
            ).len(),
{
    let n: usize = adj_list.len();
    let ghost g = neighbor_sets(adj_list@);
    let mut distances: Vec<i32> = Vec::new();
    for i in 0..n
        invariant
            distances@.len() == i,
            forall|t: int| 0 <= t < i ==> distances@[t] == -1,
    {
        distances.push(-1);
    }
    distances[start] = 0;
    let mut queue: VecDeque<usize> = VecDeque::new();
    queue.push_back(start);
    let ghost mut order: Seq<usize> = seq![start];
    let ghost mut rank: Seq<int> = Seq::new(n as nat, |t: int| 0int);
    let ghost mut done: int = 0;
    proof {
        lemma_search_start(g, start, distances@, rank);
        assert(queue@ =~= order.subrange(0, 1));
    }
    while queue.len() > 0
        invariant
            n == adj_list@.len(),
            g == neighbor_sets(adj_list@),
            closed(g),
            search_inv(g, start, distances@, order, rank, done),
            queue@ == order.subrange(done, order.len() as int),
        decreases g.len() - done,
    {
        let node: usize = queue.pop_front().unwrap();
        proof {
            assert(node == order[done]);
            lemma_head(g, start, distances@, order, rank, done);
            assert(queue@ =~= order.subrange(done + 1, order.len() as int));
        }
        let base: i32 = distances[node];
        let row: &HashSet<usize> = &adj_list[node];
        for neighbor in it: row.iter()
            invariant
                n == adj_list@.len(),
                g == neighbor_sets(adj_list@),
                closed(g),
                search_inv(g, start, distances@, order, rank, done),
                done < order.len(),
                node == order[done],
                node < g.len(),
                distances@.len() == g.len(),
                base == distances@[node as int],
                row@ == g[node as int],
                queue@ == order.subrange(done + 1, order.len() as int),
                it.seq().unref().to_set() == row@,
                forall|j: int| 0 <= j < it.index() ==> met(distances@, *#[trigger] it.seq()[j], base as int),
        {
            let w: usize = *neighbor;
            proof {
                let k = it.index();
                assert(w == it.seq().unref()[k]);
                assert(it.seq().unref().contains(w));
                assert(it.seq().unref().to_set().contains(w));
                assert(g[node as int].contains(w));
                lemma_head(g, start, distances@, order, rank, done);
            }
            if distances[w] == -1 {
                proof {
                    lemma_discover(g, start, distances@, order, rank, done, w);
                }
                distances[w] = base + 1;
                queue.push_back(w);
                proof {
                    rank = rank.update(w as int, order.len() as int);
                    order = order.push(w);
                    assert(queue@ =~= order.subrange(done + 1, order.len() as int));
                }
            } else {
                proof {
                    lemma_known(g, start, distances@, order, rank, done, w);
                }
            }
        }
        proof {
            assert(settled(g, distances@, node));
            lemma_settle(g, start, distances@, order, rank, done);
            done = done + 1;
        }
    }
    proof {
        assert(done == order.len()) by {
            if done < order.len() {
                assert(queue@.len() == order.len() - done);
            }
        }
        lemma_search_done(g, start, distances@, order, rank);
        assert(as_ints(distances@) =~= distance_row(g, start));
        assert forall|t: int| 0 <= t < g.len() implies -1 <= #[trigger] distances@[t] by {
            lemma_hop_distance(g, start, t as usize);
        }
    }
    distances
}

} // verus!
