//! Centrality: the depth-bounded breadth-first traversal that scores a node, and the
//! contribution that each scoring mode assigns to a traversal step.
use crate::config::{depth_limit, ConfigError};
use crate::dijkstra::{
    is_distance, is_walk, lemma_walk_basics, lemma_walk_extend, shortest_paths, walk_end, within_reach,
    Walk,
};
use crate::graph::{lemma_unmarked_update, links_in_range, unmarked, Adjacency, Graph};
use crate::ranking::{
    is_ranking, is_ratio_ranking, rank_descending, rank_ratios, ranks_before, ratio_before, Ratio,
};
use vstd::prelude::*;

verus! {

/// How a traversal step contributes to the score of the node the traversal started from.
#[derive(Debug, Clone, Copy, PartialEq, Eq)]
pub enum CentralityMode {
    /// The weight of the edge.
    Linear,
    /// The natural logarithm of one plus the weight of the edge.
    Logarithmic,
    /// One over the square of the depth plus one.
    InverseSquare,
    /// The weight, damped by the degree of the neighbor and by the depth.
    WeightedDegree,
    /// The mean of the linear, inverse-square and logarithmic contributions.
    Blended,
}

/// One scored step of a traversal: an edge taken out of a node that was expanded.
#[derive(Debug, Clone, Copy, PartialEq, Eq)]
pub struct Step {
    /// The node that was expanded.
    pub from: usize,
    /// The neighbor the edge leads to.
    pub to: usize,
    /// The weight of the edge.
    pub weight: u64,
    /// The depth of the expanded node: the least number of edges from the start to it.
    pub depth: usize,
    /// The number of adjacency entries of the neighbor.
    pub degree: usize,
}

/// Whether a node at depth `d` is expanded under the depth limit `max`.
pub open spec fn within(max: Option<usize>, d: int) -> bool {
    match max {
        Some(m) => d <= m,
        None => true,
    }
}

/// Some walk from `source` to `v` takes exactly `d` edges.
pub open spec fn hop_reach(adj: Adjacency, source: usize, v: usize, d: int) -> bool {
    exists|hops: Walk| #[trigger]
        is_walk(adj, source, hops) && walk_end(adj, source, hops) == v && hops.len() == d
}

/// `d` is the least number of edges of a walk from `source` to `v`.
pub open spec fn is_hop_depth(adj: Adjacency, source: usize, v: usize, d: int) -> bool {
    &&& hop_reach(adj, source, v, d)
    &&& forall|hops: Walk| #[trigger]
        is_walk(adj, source, hops) && walk_end(adj, source, hops) == v ==> d <= hops.len()
}

/// The step along the edge at position `k` of node `u`, expanded at depth `d`.
pub open spec fn step_at(adj: Adjacency, u: usize, d: usize, k: int) -> Step {
    Step {
        from: u,
        to: adj[u as int][k].0,
        weight: adj[u as int][k].1,
        depth: d,
        degree: adj[adj[u as int][k].0 as int].len() as usize,
    }
}

/// The steps scored when `u` is expanded at depth `d`: one for each of its adjacency
/// entries, in their order.
pub open spec fn expansion(adj: Adjacency, u: usize, d: usize) -> Seq<Step> {
    if u < adj.len() {
        Seq::new(adj[u as int].len(), |k: int| step_at(adj, u, d, k))
    } else {
        Seq::empty()
    }
}

/// The steps scored by expanding the nodes of `order`, each at its depth, one after another.
pub open spec fn trail(adj: Adjacency, order: Seq<(usize, usize)>) -> Seq<Step>
    decreases order.len(),
{
    if order.len() == 0 {
        Seq::empty()
    } else {
        trail(adj, order.drop_last()) + expansion(adj, order.last().0, order.last().1)
    }
}

/// The entry at position `k` of the node at place `p` of `order` leads to `v`.
pub open spec fn finds(adj: Adjacency, order: Seq<(usize, usize)>, p: int, k: int, v: usize) -> bool {
    &&& 0 <= p < order.len()
    &&& order[p].0 < adj.len()
    &&& 0 <= k < adj[order[p].0 as int].len()
    &&& adj[order[p].0 as int][k].0 == v
}

/// The entry `a`, given by place and position, comes before the entry `b`.
pub open spec fn comes_before(a: (int, int), b: (int, int)) -> bool {
    a.0 < b.0 || (a.0 == b.0 && a.1 < b.1)
}

/// Of the entries of the nodes of `order` that lead to `v`, the one at `(p, k)` is the first.
pub open spec fn first_finds(
    adj: Adjacency,
    order: Seq<(usize, usize)>,
    p: int,
    k: int,
    v: usize,
) -> bool {
    &&& finds(adj, order, p, k, v)
    &&& forall|q: int, l: int| #[trigger] finds(adj, order, q, l, v) ==> !comes_before((q, l), (p, k))
}

/// The node at place `i` of `order` was first led to before the node at place `j`.
pub open spec fn found_earlier(adj: Adjacency, order: Seq<(usize, usize)>, i: int, j: int) -> bool {
    exists|p: int, k: int, q: int, l: int|
        #[trigger] first_finds(adj, order, p, k, order[i].0) && #[trigger] first_finds(
            adj,
            order,
            q,
            l,
            order[j].0,
        ) && comes_before((p, k), (q, l))
}

/// The nodes of `order` after the first stand in the order in which the entries of the
/// nodes of `order` first lead to them.
pub open spec fn in_discovery_order(adj: Adjacency, order: Seq<(usize, usize)>) -> bool {
    forall|i: int, j: int| 1 <= i < j < order.len() ==> #[trigger] found_earlier(adj, order, i, j)
}

/// The entry at position `l` of the queued node at place `q` leads to `v`, and that node is
/// within the limit.
spec fn queued_find(
    adj: Adjacency,
    queue: Seq<(usize, usize)>,
    max: Option<usize>,
    q: int,
    l: int,
    v: usize,
) -> bool {
    &&& 0 <= q < queue.len()
    &&& within(max, queue[q].1 as int)
    &&& 0 <= l < adj[queue[q].0 as int].len()
    &&& adj[queue[q].0 as int][l].0 == v
}

/// The queued node at place `i` was first led to by the entry `at`.
spec fn discovered(
    adj: Adjacency,
    queue: Seq<(usize, usize)>,
    max: Option<usize>,
    at: (int, int),
    i: int,
) -> bool {
    &&& queued_find(adj, queue, max, at.0, at.1, queue[i].0)
    &&& forall|q: int, l: int|
        #[trigger] queued_find(adj, queue, max, q, l, queue[i].0) ==> !comes_before((q, l), at)
}

/// `order` lists, with their depths, exactly the nodes that a traversal from `source`
/// expands under the limit `max`: each node whose depth is within the limit, once, by
/// non-decreasing depth, and nodes of equal depth in the order in which they were first
/// led to.
pub open spec fn is_traversal_order(
    adj: Adjacency,
    source: usize,
    max: Option<usize>,
    order: Seq<(usize, usize)>,
) -> bool {
    &&& forall|i: int|
        0 <= i < order.len() ==> is_hop_depth(
            adj,
            source,
            (#[trigger] order[i]).0,
            order[i].1 as int,
        ) && within(max, order[i].1 as int)
    &&& forall|i: int, j: int|
        0 <= i < j < order.len() ==> (#[trigger] order[i]).0 != (#[trigger] order[j]).0
            && order[i].1 <= order[j].1
    &&& forall|v: usize, d: int|
        #[trigger] is_hop_depth(adj, source, v, d) && within(max, d) ==> exists|i: int|
            0 <= i < order.len() && (#[trigger] order[i]).0 == v && order[i].1 == d
    &&& in_discovery_order(adj, order)
}

/// The neighbor at position `k` of `u` has been seen, no deeper than one below depth `d`.
spec fn edge_seen(adj: Adjacency, seen: Seq<Option<usize>>, u: int, k: int, d: int) -> bool {
    seen[adj[u][k].0 as int] is Some && seen[adj[u][k].0 as int]->0 <= d + 1
}

/// Every neighbor of `u` has been seen, no deeper than one below the depth of `u`.
spec fn expanded(adj: Adjacency, seen: Seq<Option<usize>>, u: int) -> bool {
    forall|k: int| 0 <= k < adj[u].len() ==> #[trigger] edge_seen(adj, seen, u, k, seen[u]->0 as int)
}

/// Once every seen node within the limit is expanded, a walk of at most one edge more than
/// the limit ends at a node that was seen no deeper than the walk is long.
proof fn lemma_seen_is_lower_bound(
    adj: Adjacency,
    source: usize,
    seen: Seq<Option<usize>>,
    max: Option<usize>,
    hops: Walk,
)
    requires
        links_in_range(adj),
        seen.len() == adj.len(),
        source < adj.len(),
        seen[source as int] == Some(0usize),
        forall|u: int|
            0 <= u < seen.len() && (#[trigger] seen[u]) is Some && within(max, seen[u]->0 as int)
                ==> expanded(adj, seen, u),
        is_walk(adj, source, hops),
        within(max, hops.len() - 1),
    ensures
        seen[walk_end(adj, source, hops) as int] is Some,
        seen[walk_end(adj, source, hops) as int]->0 <= hops.len(),
    decreases hops.len(),
{
    if hops.len() > 0 {
        let before = hops.drop_last();
        let h = hops.last();
        lemma_walk_basics(adj, source, before);
        lemma_seen_is_lower_bound(adj, source, seen, max, before);
        let u = h.0 as int;
        assert(seen[u] is Some && seen[u]->0 <= before.len());
        assert(within(max, seen[u]->0 as int));
        assert(expanded(adj, seen, u));
        assert(edge_seen(adj, seen, u, h.1, seen[u]->0 as int));
    }
}

/// The trail of a longer order is the trail of the shorter one followed by one expansion.
proof fn lemma_trail_push(adj: Adjacency, order: Seq<(usize, usize)>, e: (usize, usize))
    ensures
        trail(adj, order.push(e)) == trail(adj, order) + expansion(adj, e.0, e.1),
{
    assert(order.push(e).drop_last() =~= order);
}

/// What a traversal from one node yields.
pub struct Traversal {
    /// The nodes that were expanded, each with its depth, in the order of their expansion.
    pub order: Vec<(usize, usize)>,
    /// The steps that were scored, in the order in which they were taken.
    pub steps: Vec<Step>,
}

/// Breadth-first traversal from `source`, bounded by `max_depth` where one is given. Nodes
/// are expanded level by level; a node deeper than the limit is dropped without expanding
/// it. Expanding a node scores one step for each of its adjacency entries, also for
/// entries that lead back to nodes already seen.
pub fn traverse(graph: &Graph, source: usize, max_depth: Option<usize>) -> (t: Traversal)
    requires
        graph.wf(),
    ensures
        is_traversal_order(graph@.adjacency, source, max_depth, t.order@),
        t.steps@ == trail(graph@.adjacency, t.order@),
{
    let ghost adj = graph@.adjacency;
    let n = graph.node_count();
    let mut order: Vec<(usize, usize)> = Vec::new();
    let mut steps: Vec<Step> = Vec::new();
    proof {
        assert(is_walk(adj, source, Seq::empty()));
        assert(hop_reach(adj, source, source, 0));
        assert(is_hop_depth(adj, source, source, 0));
    }
    if source >= n {
        order.push((source, 0));
        proof {
            let none = Seq::<(usize, usize)>::empty();
            assert(order@ =~= none.push((source, 0usize)));
            lemma_trail_push(adj, none, (source, 0usize));
            assert(trail(adj, none) =~= Seq::empty());
            assert(trail(adj, order@) =~= Seq::empty());
            assert forall|v: usize, d: int| #[trigger]
                is_hop_depth(adj, source, v, d) && within(max_depth, d) implies exists|i: int|
                0 <= i < order.len() && (#[trigger] order[i]).0 == v && order[i].1 == d by {
                let hops = choose|hops: Walk| #[trigger]
                    is_walk(adj, source, hops) && walk_end(adj, source, hops) == v && hops.len()
                        == d;
                crate::dijkstra::lemma_outside_source_stays(adj, source, hops);
                assert(order[0].0 == v);
            }
        }
        return Traversal { order, steps };
    }
    let mut visited: Vec<Option<usize>> = Vec::new();
    while visited.len() < n
        invariant
            visited.len() <= n,
            forall|j: int| 0 <= j < visited.len() ==> visited[j] is None,
        decreases n - visited.len(),
    {
        visited.push(None);
    }
    visited[source] = Some(0);
    let mut queue: Vec<(usize, usize)> = Vec::new();
    queue.push((source, 0));
    let mut head: usize = 0;
    let ghost mut found_at: Seq<(int, int)> = seq![(0int, 0int)];
    assert(queue[0] == (source, 0usize));
    while head < queue.len()
        invariant
            graph.wf(),
            found_at.len() == queue.len(),
            forall|i: int|
                1 <= i < queue.len() ==> discovered(
                    adj,
                    queue@,
                    max_depth,
                    #[trigger] found_at[i],
                    i,
                ) && found_at[i].0 < head,
            forall|i: int, j: int|
                1 <= i < j < queue.len() ==> comes_before(#[trigger] found_at[i], #[trigger] found_at[j]),
            adj == graph@.adjacency,
            n == adj.len(),
            visited.len() == n,
            source < n,
            head <= queue.len(),
            queue.len() >= 1,
            queue[0] == (source, 0usize),
            forall|i: int|
                0 <= i < queue.len() ==> (#[trigger] queue[i]).0 < n && visited[queue[i].0 as int]
                    == Some(queue[i].1) && queue[i].1 <= i && hop_reach(
                    adj,
                    source,
                    queue[i].0,
                    queue[i].1 as int,
                ),
            forall|v: int|
                0 <= v < n && (#[trigger] visited[v]) is Some ==> exists|i: int|
                    0 <= i < queue.len() && (#[trigger] queue[i]).0 == v,
            forall|i: int, j: int|
                0 <= i < j < queue.len() ==> (#[trigger] queue[i]).0 != (#[trigger] queue[j]).0
                    && queue[i].1 <= queue[j].1,
            head < queue.len() ==> forall|j: int|
                0 <= j < queue.len() ==> (#[trigger] queue[j]).1 <= queue[head as int].1 + 1,
            forall|i: int|
                0 <= i < head && within(max_depth, (#[trigger] queue[i]).1 as int) ==> expanded(
                    adj,
                    visited@,
                    queue[i].0 as int,
                ),
            order.len() <= head,
            order@ == queue@.take(order.len() as int),
            forall|i: int|
                0 <= i < order.len() ==> within(max_depth, (#[trigger] queue[i]).1 as int),
            forall|i: int|
                order.len() <= i < head ==> !within(max_depth, (#[trigger] queue[i]).1 as int),
            steps@ == trail(adj, order@),
        decreases unmarked(visited@) + queue.len() - head,
    {
        let (current, depth) = queue[head];
        let expand = match max_depth {
            Some(m) => depth <= m,
            None => true,
        };
        if expand {
            proof {
                if order.len() < head {
                    assert(!within(max_depth, queue[order.len() as int].1 as int));
                    assert(queue[order.len() as int].1 <= queue[head as int].1);
                }
            }
            let list = graph.edges_at(current);
            let ghost steps0 = steps@;
            let ghost total = unmarked(visited@) + queue.len();
            let mut k: usize = 0;
            while k < list.len()
                invariant
                    graph.wf(),
                    found_at.len() == queue.len(),
                    forall|i: int|
                        1 <= i < queue.len() ==> discovered(
                            adj,
                            queue@,
                            max_depth,
                            #[trigger] found_at[i],
                            i,
                        ) && comes_before(found_at[i], (head as int, k as int)),
                    forall|i: int, j: int|
                        1 <= i < j < queue.len() ==> comes_before(
                            #[trigger] found_at[i],
                            #[trigger] found_at[j],
                        ),
                    adj == graph@.adjacency,
                    n == adj.len(),
                    visited.len() == n,
                    source < n,
                    head < queue.len(),
                    queue[0] == (source, 0usize),
                    queue[head as int] == (current, depth),
                    within(max_depth, depth as int),
                    list@ == adj[current as int],
                    k <= list.len(),
                    forall|i: int|
                        0 <= i < queue.len() ==> (#[trigger] queue[i]).0 < n && visited[queue[i].0 as int]
                            == Some(queue[i].1) && queue[i].1 <= i && hop_reach(
                            adj,
                            source,
                            queue[i].0,
                            queue[i].1 as int,
                        ),
                    forall|v: int|
                        0 <= v < n && (#[trigger] visited[v]) is Some ==> exists|i: int|
                            0 <= i < queue.len() && (#[trigger] queue[i]).0 == v,
                    forall|i: int, j: int|
                        0 <= i < j < queue.len() ==> (#[trigger] queue[i]).0 != (
                        #[trigger] queue[j]).0 && queue[i].1 <= queue[j].1,
                    forall|j: int| 0 <= j < queue.len() ==> (#[trigger] queue[j]).1 <= depth + 1,
                    forall|i: int|
                        0 <= i < head && within(max_depth, (#[trigger] queue[i]).1 as int)
                            ==> expanded(adj, visited@, queue[i].0 as int),
                    forall|j: int|
                        0 <= j < k ==> #[trigger] edge_seen(
                            adj,
                            visited@,
                            current as int,
                            j,
                            depth as int,
                        ),
                    order.len() == head,
                    order@ == queue@.take(order.len() as int),
                    forall|i: int|
                        0 <= i < order.len() ==> within(max_depth, (#[trigger] queue[i]).1 as int),
                    steps@ == steps0 + expansion(adj, current, depth).take(k as int),
                    steps0 == trail(adj, order@),
                    unmarked(visited@) + queue.len() == total,
                decreases list.len() - k,
            {
                let (nb, w) = list[k];
                assert(adj[current as int][k as int] == (nb, w));
                assert(nb < n);
                if visited[nb].is_none() {
                    let ghost seen0 = visited@;
                    let ghost queue0 = queue@;
                    let ghost found0 = found_at;
                    visited[nb] = Some(depth + 1);
                    queue.push((nb, depth + 1));
                    proof {
                        found_at = found0.push((head as int, k as int));
                        assert forall|i: int| 1 <= i < queue.len() implies discovered(
                            adj,
                            queue@,
                            max_depth,
                            #[trigger] found_at[i],
                            i,
                        ) && comes_before(found_at[i], (head as int, k + 1)) by {
                            let v = queue[i].0;
                            if i < queue0.len() {
                                assert(queue[i] == queue0[i]);
                                assert(found_at[i] == found0[i]);
                                assert(discovered(adj, queue0, max_depth, found0[i], i));
                                assert(queue[found0[i].0] == queue0[found0[i].0]);
                                assert forall|q: int, l: int| #[trigger]
                                    queued_find(adj, queue@, max_depth, q, l, v) implies !comes_before(
                                    (q, l),
                                    found_at[i],
                                ) by {
                                    if q < queue0.len() {
                                        assert(queue[q] == queue0[q]);
                                        assert(queued_find(adj, queue0, max_depth, q, l, v));
                                    }
                                }
                            } else {
                                assert(v == nb);
                                assert(queue[head as int] == queue0[head as int]);
                                assert forall|q: int, l: int| #[trigger]
                                    queued_find(adj, queue@, max_depth, q, l, v) implies !comes_before(
                                    (q, l),
                                    (head as int, k as int),
                                ) by {
                                    if q < head {
                                        assert(queue[q] == queue0[q]);
                                        assert(expanded(adj, seen0, queue0[q].0 as int));
                                        assert(seen0[queue0[q].0 as int] is Some);
                                        assert(edge_seen(
                                            adj,
                                            seen0,
                                            queue0[q].0 as int,
                                            l,
                                            seen0[queue0[q].0 as int]->0 as int,
                                        ));
                                    } else if q == head && l < k {
                                        assert(edge_seen(adj, seen0, current as int, l, depth as int));
                                    }
                                }
                            }
                        }
                        assert forall|i: int, j: int| 1 <= i < j < queue.len() implies comes_before(
                            #[trigger] found_at[i],
                            #[trigger] found_at[j],
                        ) by {
                            assert(found_at[i] == found0[i]);
                            if j < queue0.len() {
                                assert(found_at[j] == found0[j]);
                            }
                        }
                        lemma_unmarked_update(seen0, nb as int, (depth + 1) as usize);
                        let hops = choose|hops: Walk| #[trigger]
                            is_walk(adj, source, hops) && walk_end(adj, source, hops) == current
                                && hops.len() == depth as int;
                        lemma_walk_extend(adj, source, hops, k as int);
                        assert(hop_reach(adj, source, nb, depth + 1));
                        assert forall|i: int| 0 <= i < queue.len() implies (#[trigger] queue[i]).0
                            < n && visited[queue[i].0 as int] == Some(queue[i].1) && queue[i].1
                            <= i && hop_reach(adj, source, queue[i].0, queue[i].1 as int) by {
                            if i < queue0.len() {
                                assert(queue[i] == queue0[i]);
                                assert(seen0[queue0[i].0 as int] is Some);
                            }
                        }
                        assert forall|v: int| 0 <= v < n && (#[trigger] visited[v]) is Some implies exists|
                            i: int,
                        | 0 <= i < queue.len() && (#[trigger] queue[i]).0 == v by {
                            if v == nb {
                                assert(queue[queue0.len() as int].0 == v);
                            } else {
                                assert(seen0[v] is Some);
                                let i = choose|i: int|
                                    0 <= i < queue0.len() && (#[trigger] queue0[i]).0 == v;
                                assert(queue[i].0 == v);
                            }
                        }
                        assert forall|i: int, j: int| 0 <= i < j < queue.len() implies (
                        #[trigger] queue[i]).0 != (#[trigger] queue[j]).0 && queue[i].1
                            <= queue[j].1 by {
                            assert(queue[i] == queue0[i]);
                            if j < queue0.len() {
                                assert(queue[j] == queue0[j]);
                            } else {
                                assert(seen0[queue0[i].0 as int] is Some);
                                assert(queue0[i].1 <= queue0[head as int].1 || i > head);
                                if i > head {
                                    assert(queue0[head as int].1 <= queue0[i].1);
                                }
                            }
                        }
                        assert forall|j: int| 0 <= j < queue.len() implies (#[trigger] queue[j]).1
                            <= depth + 1 by {
                            if j < queue0.len() {
                                assert(queue[j] == queue0[j]);
                            }
                        }
                        assert forall|i: int|
                            0 <= i < head && within(
                                max_depth,
                                (#[trigger] queue[i]).1 as int,
                            ) implies expanded(adj, visited@, queue[i].0 as int) by {
                            assert(queue[i] == queue0[i]);
                            let u = queue0[i].0 as int;
                            assert(expanded(adj, seen0, u));
                            assert(seen0[u] is Some);
                            assert forall|j: int| 0 <= j < adj[u].len() implies #[trigger] edge_seen(
                                adj,
                                visited@,
                                u,
                                j,
                                visited[u]->0 as int,
                            ) by {
                                assert(edge_seen(adj, seen0, u, j, seen0[u]->0 as int));
                            }
                        }
                        assert forall|j: int| 0 <= j < k + 1 implies #[trigger] edge_seen(
                            adj,
                            visited@,
                            current as int,
                            j,
                            depth as int,
                        ) by {
                            if j < k {
                                assert(edge_seen(adj, seen0, current as int, j, depth as int));
                            }
                        }
                        assert(queue@.take(order.len() as int) =~= queue0.take(order.len() as int));
                    }
                } else {
                    proof {
                        let i = choose|i: int|
                            0 <= i < queue.len() && (#[trigger] queue[i]).0 == nb as int;
                        assert(queue[i].1 <= depth + 1);
                        assert(edge_seen(adj, visited@, current as int, k as int, depth as int));
                    }
                }
                let degree = graph.degree(nb);
                steps.push(Step { from: current, to: nb, weight: w, depth, degree });
                proof {
                    let full = expansion(adj, current, depth);
                    assert(full[k as int] == step_at(adj, current, depth, k as int));
                    assert(full.take(k + 1) =~= full.take(k as int).push(full[k as int]));
                    assert(steps@ =~= steps0 + full.take(k + 1));
                }
                k += 1;
            }
            let ghost order0 = order@;
            order.push((current, depth));
            proof {
                let full = expansion(adj, current, depth);
                assert(full.take(list.len() as int) =~= full);
                lemma_trail_push(adj, order0, (current, depth));
                assert(order@ =~= queue@.take(order.len() as int));
                assert forall|j: int|
                    0 <= j < adj[current as int].len() implies #[trigger] edge_seen(
                    adj,
                    visited@,
                    current as int,
                    j,
                    visited[current as int]->0 as int,
                ) by {
                    assert(edge_seen(adj, visited@, current as int, j, depth as int));
                }
                assert(expanded(adj, visited@, current as int));
            }
        }
        proof {
            if head + 1 < queue.len() {
                assert(queue[head as int].1 <= queue[head + 1].1);
            }
        }
        head += 1;
    }
    proof {
        assert forall|u: int|
            0 <= u < visited.len() && (#[trigger] visited[u]) is Some && within(
                max_depth,
                visited[u]->0 as int,
            ) implies expanded(adj, visited@, u) by {
            let i = choose|i: int| 0 <= i < queue.len() && (#[trigger] queue[i]).0 == u;
            assert(visited[queue[i].0 as int] == Some(queue[i].1));
        }
        assert forall|i: int| 0 <= i < order.len() implies is_hop_depth(
            adj,
            source,
            (#[trigger] order[i]).0,
            order[i].1 as int,
        ) && within(max_depth, order[i].1 as int) by {
            assert(order[i] == queue[i]);
            let v = queue[i].0;
            let d = queue[i].1;
            assert forall|hops: Walk| #[trigger]
                is_walk(adj, source, hops) && walk_end(adj, source, hops) == v implies d
                <= hops.len() by {
                if within(max_depth, hops.len() - 1) {
                    lemma_seen_is_lower_bound(adj, source, visited@, max_depth, hops);
                }
            }
        }
        assert forall|i: int, j: int| 0 <= i < j < order.len() implies (#[trigger] order[i]).0 != (
        #[trigger] order[j]).0 && order[i].1 <= order[j].1 by {
            assert(order[i] == queue[i]);
            assert(order[j] == queue[j]);
        }
        assert forall|v: usize, d: int| #[trigger]
            is_hop_depth(adj, source, v, d) && within(max_depth, d) implies exists|i: int|
            0 <= i < order.len() && (#[trigger] order[i]).0 == v && order[i].1 == d by {
            let hops = choose|hops: Walk| #[trigger]
                is_walk(adj, source, hops) && walk_end(adj, source, hops) == v && hops.len() == d;
            lemma_walk_basics(adj, source, hops);
            lemma_seen_is_lower_bound(adj, source, visited@, max_depth, hops);
            let i = choose|i: int| 0 <= i < queue.len() && (#[trigger] queue[i]).0 == v as int;
            assert(visited[queue[i].0 as int] == Some(queue[i].1));
            assert(hop_reach(adj, source, v, queue[i].1 as int));
            let other = choose|other: Walk| #[trigger]
                is_walk(adj, source, other) && walk_end(adj, source, other) == v && other.len()
                    == queue[i].1 as int;
            assert(d <= other.len());
            if i >= order.len() {
                assert(!within(max_depth, queue[i].1 as int));
            }
            assert(order[i] == queue[i]);
        }
    }
    proof {
        assert forall|i: int| 1 <= i < order.len() implies first_finds(
            adj,
            order@,
            (#[trigger] found_at[i]).0,
            found_at[i].1,
            order[i].0,
        ) by {
            let at = found_at[i];
            let v = order[i].0;
            assert(order[i] == queue[i]);
            assert(discovered(adj, queue@, max_depth, at, i));
            if at.0 >= order.len() {
                assert(!within(max_depth, queue[at.0].1 as int));
            }
            assert(order[at.0] == queue[at.0]);
            assert forall|q: int, l: int| #[trigger] finds(adj, order@, q, l, v) implies !comes_before(
                (q, l),
                at,
            ) by {
                assert(order[q] == queue[q]);
                assert(queued_find(adj, queue@, max_depth, q, l, v));
            }
        }
        assert forall|i: int, j: int| 1 <= i < j < order.len() implies #[trigger] found_earlier(
            adj,
            order@,
            i,
            j,
        ) by {
            let a = found_at[i];
            let b = found_at[j];
            assert(first_finds(adj, order@, a.0, a.1, order[i].0));
            assert(first_finds(adj, order@, b.0, b.1, order[j].0));
            assert(comes_before((a.0, a.1), (b.0, b.1)));
        }
    }
    Traversal { order, steps }
}

/// The formula by which one step adds to a score, with the numbers it is applied to.
#[derive(Debug, Clone, Copy, PartialEq, Eq)]
pub enum Contribution {
    /// The weight of the edge.
    Weight { weight: u64 },
    /// The natural logarithm of one plus the weight.
    LogWeight { weight: u64 },
    /// One over the square of `depth + 1`.
    InverseSquare { depth: usize },
    /// The weight times `1 / (1 + degree)` times `1 / (1 + depth)`.
    WeightedDegree { weight: u64, degree: usize, depth: usize },
    /// A third of the sum of the weight, one over the square of `depth + 1`, and the
    /// natural logarithm of one plus the weight.
    Blended { weight: u64, depth: usize },
}

/// The contribution of `step` under `mode`.
pub open spec fn contribution_of(mode: CentralityMode, step: Step) -> Contribution {
    match mode {
        CentralityMode::Linear => Contribution::Weight { weight: step.weight },
        CentralityMode::Logarithmic => Contribution::LogWeight { weight: step.weight },
        CentralityMode::InverseSquare => Contribution::InverseSquare { depth: step.depth },
        CentralityMode::WeightedDegree => Contribution::WeightedDegree {
            weight: step.weight,
            degree: step.degree,
            depth: step.depth,
        },
        CentralityMode::Blended => Contribution::Blended { weight: step.weight, depth: step.depth },
    }
}

/// The contributions of a sequence of steps under `mode`, step by step.
pub open spec fn contributions(mode: CentralityMode, steps: Seq<Step>) -> Seq<Contribution> {
    Seq::new(steps.len(), |i: int| contribution_of(mode, steps[i]))
}

/// The contribution of `step` under `mode`.
pub fn contribution(mode: CentralityMode, step: &Step) -> (c: Contribution)
    ensures
        c == contribution_of(mode, *step),
{
    match mode {
        CentralityMode::Linear => Contribution::Weight { weight: step.weight },
        CentralityMode::Logarithmic => Contribution::LogWeight { weight: step.weight },
        CentralityMode::InverseSquare => Contribution::InverseSquare { depth: step.depth },
        CentralityMode::WeightedDegree => Contribution::WeightedDegree {
            weight: step.weight,
            degree: step.degree,
            depth: step.depth,
        },
        CentralityMode::Blended => Contribution::Blended { weight: step.weight, depth: step.depth },
    }
}

/// `terms` are the contributions, under `mode`, of the steps of a traversal from `node`
/// bounded by `max`.
pub open spec fn scores_node(
    adj: Adjacency,
    mode: CentralityMode,
    max: Option<usize>,
    node: usize,
    terms: Seq<Contribution>,
) -> bool {
    exists|order: Seq<(usize, usize)>| #[trigger]
        is_traversal_order(adj, node, max, order) && terms == contributions(
            mode,
            trail(adj, order),
        )
}

/// The terms whose sum is the centrality score of one node.
pub struct NodeScore {
    /// The node that is scored.
    pub node: usize,
    /// The contributions of the steps of the traversal from it, in the order of the steps.
    pub terms: Vec<Contribution>,
}

/// `scores` holds, for each node with at least two adjacency entries and for no other, the
/// terms of its score under `mode`.
pub open spec fn scores_all(
    adj: Adjacency,
    mode: CentralityMode,
    max: Option<usize>,
    scores: Seq<NodeScore>,
) -> bool {
    &&& forall|i: int|
        0 <= i < scores.len() ==> (#[trigger] scores[i]).node < adj.len() && adj[scores[i].node as int].len()
            >= 2 && scores_node(adj, mode, max, scores[i].node, scores[i].terms@)
    &&& forall|v: int|
        0 <= v < adj.len() && (#[trigger] adj[v]).len() >= 2 ==> exists|i: int|
            0 <= i < scores.len() && (#[trigger] scores[i]).node == v
}

/// The scores stand in the order of the nodes.
pub open spec fn in_node_order(scores: Seq<NodeScore>) -> bool {
    forall|i: int, j: int|
        0 <= i < j < scores.len() ==> (#[trigger] scores[i]).node < (#[trigger] scores[j]).node
}

/// The sum of the weights among `terms`: the score that the linear mode assigns.
pub open spec fn weight_total(terms: Seq<Contribution>) -> nat
    decreases terms.len(),
{
    if terms.len() == 0 {
        0
    } else {
        weight_total(terms.drop_last()) + match terms.last() {
            Contribution::Weight { weight } => weight as nat,
            _ => 0nat,
        }
    }
}

/// The score `a` comes before the score `b` in the ranking by the sum of the weights: the
/// larger sum first, and of two equal sums the earlier node.
pub open spec fn heavier_first(a: NodeScore, b: NodeScore) -> bool {
    weight_total(a.terms@) > weight_total(b.terms@) || (weight_total(a.terms@) == weight_total(
        b.terms@,
    ) && a.node < b.node)
}

/// The scores stand ranked by the sum of their weights, the largest first.
pub open spec fn in_ranked_order(scores: Seq<NodeScore>) -> bool {
    forall|i: int, j: int|
        0 <= i < j < scores.len() ==> heavier_first(#[trigger] scores[i], #[trigger] scores[j])
}

/// `scores` is the centrality of the graph under `mode`: the terms of the score of every
/// node with at least two adjacency entries. Under the linear mode, where the score is the
/// sum of the weights, the scores stand ranked by descending score; under the other modes,
/// whose scores are no integers, they stand in the order of the nodes.
pub open spec fn is_centrality(
    adj: Adjacency,
    mode: CentralityMode,
    max: Option<usize>,
    scores: Seq<NodeScore>,
) -> bool {
    &&& scores_all(adj, mode, max, scores)
    &&& mode == CentralityMode::Linear ==> in_ranked_order(scores)
    &&& mode != CentralityMode::Linear ==> in_node_order(scores)
}

/// For every node with at least two adjacency entries, in the order of the nodes, the
/// contributions under `mode` of a traversal from it bounded by `max_depth`. The score of the
/// node is the sum of its terms.
pub fn centrality_terms(graph: &Graph, mode: CentralityMode, max_depth: Option<usize>) -> (scores:
    Vec<NodeScore>)
    requires
        graph.wf(),
    ensures
        scores_all(graph@.adjacency, mode, max_depth, scores@),
        in_node_order(scores@),
{
    let ghost adj = graph@.adjacency;
    let n = graph.node_count();
    let mut scores: Vec<NodeScore> = Vec::new();
    let mut node: usize = 0;
    while node < n
        invariant
            graph.wf(),
            adj == graph@.adjacency,
            n == adj.len(),
            node <= n,
            forall|i: int|
                0 <= i < scores.len() ==> (#[trigger] scores[i]).node < node && adj[scores[i].node as int].len()
                    >= 2 && scores_node(adj, mode, max_depth, scores[i].node, scores[i].terms@),
            forall|i: int, j: int|
                0 <= i < j < scores.len() ==> (#[trigger] scores[i]).node < (
                #[trigger] scores[j]).node,
            forall|v: int|
                0 <= v < node && (#[trigger] adj[v]).len() >= 2 ==> exists|i: int|
                    0 <= i < scores.len() && (#[trigger] scores[i]).node == v,
        decreases n - node,
    {
        if graph.degree(node) >= 2 {
            let t = traverse(graph, node, max_depth);
            let mut terms: Vec<Contribution> = Vec::new();
            let mut i: usize = 0;
            while i < t.steps.len()
                invariant
                    i <= t.steps.len(),
                    terms.len() == i,
                    forall|j: int|
                        0 <= j < i ==> terms[j] == contribution_of(mode, #[trigger] t.steps[j]),
                decreases t.steps.len() - i,
            {
                terms.push(contribution(mode, &t.steps[i]));
                i += 1;
            }
            let ghost before = scores@;
            proof {
                assert(terms@ =~= contributions(mode, trail(adj, t.order@)));
                assert(is_traversal_order(adj, node, max_depth, t.order@));
            }
            scores.push(NodeScore { node, terms });
            proof {
                assert forall|v: int| 0 <= v < node + 1 && (#[trigger] adj[v]).len() >= 2 implies exists|
                    i: int,
                | 0 <= i < scores.len() && (#[trigger] scores[i]).node == v by {
                    if v == node {
                        assert(scores[before.len() as int].node == v);
                    } else {
                        let i = choose|i: int| 0 <= i < before.len() && (#[trigger] before[i]).node == v;
                        assert(scores[i].node == v);
                    }
                }
            }
        }
        node += 1;
    }
    scores
}

/// The sum of the weights of the entries of an adjacency list.
pub open spec fn row_weight(entries: Seq<(usize, u64)>) -> nat
    decreases entries.len(),
{
    if entries.len() == 0 {
        0
    } else {
        row_weight(entries.drop_last()) + entries.last().1 as nat
    }
}

/// The sum of the weights of the entries of `u`; 0 for a node the graph lacks.
pub open spec fn node_weight(adj: Adjacency, u: usize) -> nat {
    if u < adj.len() {
        row_weight(adj[u as int])
    } else {
        0
    }
}

/// The sum of the weights of the entries of the nodes of `order`.
pub open spec fn order_weight(adj: Adjacency, order: Seq<(usize, usize)>) -> nat
    decreases order.len(),
{
    if order.len() == 0 {
        0
    } else {
        order_weight(adj, order.drop_last()) + node_weight(adj, order.last().0)
    }
}

/// Whether the limit `wider` lets through every depth that the limit `max` lets through.
pub open spec fn no_tighter(max: Option<usize>, wider: Option<usize>) -> bool {
    match wider {
        None => true,
        Some(w) => max matches Some(m) && m <= w,
    }
}

proof fn lemma_weight_total_joined(a: Seq<Contribution>, b: Seq<Contribution>)
    ensures
        weight_total(a + b) == weight_total(a) + weight_total(b),
    decreases b.len(),
{
    if b.len() == 0 {
        assert(a + b =~= a);
    } else {
        assert((a + b).drop_last() =~= a + b.drop_last());
        lemma_weight_total_joined(a, b.drop_last());
    }
}

proof fn lemma_expansion_weight(adj: Adjacency, u: usize, d: usize, k: int)
    requires
        u < adj.len(),
        0 <= k <= adj[u as int].len(),
    ensures
        weight_total(contributions(CentralityMode::Linear, expansion(adj, u, d).take(k)))
            == row_weight(adj[u as int].take(k)),
    decreases k,
{
    let steps = expansion(adj, u, d);
    let terms = contributions(CentralityMode::Linear, steps.take(k));
    if k == 0 {
        assert(terms =~= Seq::empty());
        assert(adj[u as int].take(0) =~= Seq::empty());
    } else {
        lemma_expansion_weight(adj, u, d, k - 1);
        assert(terms.drop_last() =~= contributions(CentralityMode::Linear, steps.take(k - 1)));
        assert(adj[u as int].take(k).drop_last() =~= adj[u as int].take(k - 1));
        assert(terms.last() == Contribution::Weight { weight: adj[u as int][k - 1].1 });
    }
}

/// Under the linear mode the score of a traversal is the sum of the weights of the entries
/// of the nodes it expands.
pub proof fn lemma_trail_weight(adj: Adjacency, order: Seq<(usize, usize)>)
    ensures
        weight_total(contributions(CentralityMode::Linear, trail(adj, order))) == order_weight(
            adj,
            order,
        ),
    decreases order.len(),
{
    let mode = CentralityMode::Linear;
    if order.len() == 0 {
        assert(contributions(mode, trail(adj, order)) =~= Seq::empty());
    } else {
        let rest = order.drop_last();
        let u = order.last().0;
        let d = order.last().1;
        lemma_trail_weight(adj, rest);
        let first = contributions(mode, trail(adj, rest));
        let second = contributions(mode, expansion(adj, u, d));
        assert(contributions(mode, trail(adj, order)) =~= first + second);
        lemma_weight_total_joined(first, second);
        if u < adj.len() {
            let full = adj[u as int].len() as int;
            lemma_expansion_weight(adj, u, d, full);
            assert(expansion(adj, u, d).take(full) =~= expansion(adj, u, d));
            assert(adj[u as int].take(full) =~= adj[u as int]);
        } else {
            assert(second =~= Seq::empty());
        }
    }
}

proof fn lemma_order_weight_without(adj: Adjacency, order: Seq<(usize, usize)>, j: int)
    requires
        0 <= j < order.len(),
    ensures
        order_weight(adj, order) == order_weight(adj, order.remove(j)) + node_weight(
            adj,
            order[j].0,
        ),
    decreases order.len(),
{
    if j == order.len() - 1 {
        assert(order.remove(j) =~= order.drop_last());
    } else {
        lemma_order_weight_without(adj, order.drop_last(), j);
        assert(order.remove(j).drop_last() =~= order.drop_last().remove(j));
        assert(order.remove(j).last() == order.last());
    }
}

proof fn lemma_order_weight_within(
    adj: Adjacency,
    part: Seq<(usize, usize)>,
    whole: Seq<(usize, usize)>,
)
    requires
        part.no_duplicates(),
        forall|i: int| 0 <= i < part.len() ==> whole.contains(#[trigger] part[i]),
    ensures
        order_weight(adj, part) <= order_weight(adj, whole),
    decreases part.len(),
{
    if part.len() > 0 {
        let x = part.last();
        let rest = part.drop_last();
        assert(whole.contains(part[part.len() - 1]));
        let j = choose|j: int| 0 <= j < whole.len() && whole[j] == x;
        let left = whole.remove(j);
        assert forall|i: int| 0 <= i < rest.len() implies left.contains(#[trigger] rest[i]) by {
            assert(whole.contains(part[i]));
            let at = choose|at: int| 0 <= at < whole.len() && whole[at] == rest[i];
            assert(part[i] != part[part.len() - 1]);
            if at < j {
                assert(left[at] == rest[i]);
            } else {
                assert(left[at - 1] == rest[i]);
            }
        }
        lemma_order_weight_within(adj, rest, left);
        lemma_order_weight_without(adj, whole, j);
    }
}

/// Under the linear mode the score of a node does not fall as the depth limit grows: a
/// traversal under a limit that is no tighter expands every node that the other expands.
pub proof fn lemma_linear_score_grows_with_limit(
    adj: Adjacency,
    source: usize,
    max: Option<usize>,
    wider: Option<usize>,
    order: Seq<(usize, usize)>,
    further: Seq<(usize, usize)>,
)
    requires
        is_traversal_order(adj, source, max, order),
        is_traversal_order(adj, source, wider, further),
        no_tighter(max, wider),
    ensures
        weight_total(contributions(CentralityMode::Linear, trail(adj, order))) <= weight_total(
            contributions(CentralityMode::Linear, trail(adj, further)),
        ),
{
    lemma_trail_weight(adj, order);
    lemma_trail_weight(adj, further);
    assert forall|i: int, j: int| 0 <= i < order.len() && 0 <= j < order.len() && i != j implies order[i]
        != order[j] by {
        if i < j {
            assert(order[i].0 != order[j].0);
        } else {
            assert(order[j].0 != order[i].0);
        }
    }
    assert forall|i: int| 0 <= i < order.len() implies further.contains(#[trigger] order[i]) by {
        let v = order[i].0;
        let d = order[i].1 as int;
        assert(is_hop_depth(adj, source, v, d) && within(max, d));
        assert(within(wider, d));
        let at = choose|at: int|
            0 <= at < further.len() && (#[trigger] further[at]).0 == v && further[at].1 == d;
        assert(further[at] == order[i]);
    }
    lemma_order_weight_within(adj, order, further);
}

/// Under the linear mode the scores of a centrality never rise from one place to the next.
pub proof fn lemma_centrality_descends(
    adj: Adjacency,
    max: Option<usize>,
    scores: Seq<NodeScore>,
    i: int,
    j: int,
)
    requires
        is_centrality(adj, CentralityMode::Linear, max, scores),
        0 <= i <= j < scores.len(),
    ensures
        weight_total(scores[i].terms@) >= weight_total(scores[j].terms@),
{
    if i < j {
        assert(heavier_first(scores[i], scores[j]));
    }
}

/// The sum of the weights among `terms`.
pub fn total_weight(terms: &Vec<Contribution>) -> (total: u128)
    ensures
        total == weight_total(terms@),
{
    let mut total: u128 = 0;
    let mut i: usize = 0;
    while i < terms.len()
        invariant
            i <= terms.len(),
            total == weight_total(terms@.take(i as int)),
            total <= i * u64::MAX,
        decreases terms.len() - i,
    {
        assert(terms@.take(i + 1).drop_last() =~= terms@.take(i as int));
        match terms[i] {
            Contribution::Weight { weight } => {
                total += weight as u128;
            },
            _ => {},
        }
        i += 1;
    }
    assert(terms@.take(terms.len() as int) =~= terms@);
    total
}

/// `scores` holds the score `s`.
spec fn held_in(scores: Seq<NodeScore>, s: NodeScore) -> bool {
    exists|p: int|
        0 <= p < scores.len() && (#[trigger] scores[p]).node == s.node && scores[p].terms@
            == s.terms@
}

/// `scores` holds a score of the node `v`.
spec fn node_in(scores: Seq<NodeScore>, v: usize) -> bool {
    exists|p: int| 0 <= p < scores.len() && (#[trigger] scores[p]).node == v
}

/// A copy of `terms`.
fn copy_terms(terms: &Vec<Contribution>) -> (copy: Vec<Contribution>)
    ensures
        copy@ == terms@,
{
    let mut copy: Vec<Contribution> = Vec::new();
    let mut i: usize = 0;
    while i < terms.len()
        invariant
            i <= terms.len(),
            copy@ == terms@.take(i as int),
        decreases terms.len() - i,
    {
        copy.push(terms[i]);
        assert(copy@ =~= terms@.take(i + 1));
        i += 1;
    }
    assert(terms@.take(terms.len() as int) =~= terms@);
    copy
}

/// The scores of `scores`, ranked by the sum of their weights, the largest first; scores
/// with equal sums keep their order.
fn ranked_by_weight(scores: &Vec<NodeScore>) -> (ranked: Vec<NodeScore>)
    requires
        in_node_order(scores@),
    ensures
        in_ranked_order(ranked@),
        ranked.len() == scores.len(),
        forall|i: int| 0 <= i < ranked.len() ==> held_in(scores@, #[trigger] ranked[i]),
        forall|p: int| 0 <= p < scores.len() ==> node_in(ranked@, (#[trigger] scores[p]).node),
{
    let mut totals: Vec<u128> = Vec::new();
    let mut i: usize = 0;
    while i < scores.len()
        invariant
            i <= scores.len(),
            totals.len() == i,
            forall|j: int| 0 <= j < i ==> #[trigger] totals[j] == weight_total(scores[j].terms@),
        decreases scores.len() - i,
    {
        totals.push(total_weight(&scores[i].terms));
        i += 1;
    }
    let order = rank_descending(&totals);
    let mut ranked: Vec<NodeScore> = Vec::new();
    let mut i: usize = 0;
    while i < order.len()
        invariant
            is_ranking(totals@, order@),
            totals.len() == scores.len(),
            i <= order.len(),
            ranked.len() == i,
            forall|j: int|
                0 <= j < i ==> (#[trigger] ranked[j]).node == scores[order[j] as int].node
                    && ranked[j].terms@ == scores[order[j] as int].terms@,
        decreases order.len() - i,
    {
        let held = &scores[order[i]];
        ranked.push(NodeScore { node: held.node, terms: copy_terms(&held.terms) });
        i += 1;
    }
    proof {
        assert forall|i: int, j: int| 0 <= i < j < ranked.len() implies heavier_first(
            #[trigger] ranked[i],
            #[trigger] ranked[j],
        ) by {
            assert(ranks_before(totals@, order[i], order[j]));
            assert(totals[order[i] as int] == weight_total(scores[order[i] as int].terms@));
            assert(totals[order[j] as int] == weight_total(scores[order[j] as int].terms@));
            if order[i] < order[j] {
                assert(scores[order[i] as int].node < scores[order[j] as int].node);
            }
        }
        assert forall|i: int| 0 <= i < ranked.len() implies held_in(
            scores@,
            #[trigger] ranked[i],
        ) by {
            let p = order[i] as int;
            assert(scores[p].node == ranked[i].node && scores[p].terms@ == ranked[i].terms@);
        }
        assert forall|p: int| 0 <= p < scores.len() implies node_in(
            ranked@,
            (#[trigger] scores[p]).node,
        ) by {
            assert(order@.contains(p as usize));
            let q = choose|q: int| 0 <= q < order.len() && order[q] == p as usize;
            assert(ranked[q].node == scores[p].node);
        }
    }
    ranked
}

/// The centrality of every node with at least two adjacency entries: the contributions
/// under `mode` of a traversal from it bounded by `max_depth`, whose sum is its score.
/// Under the linear mode the result is ranked by descending score, nodes with equal scores
/// in the order of the nodes. The scores of the other modes are sums of quotients and
/// logarithms; their terms are given in the order of the nodes.
pub fn compute_centrality(graph: &Graph, mode: CentralityMode, max_depth: Option<usize>) -> (scores:
    Vec<NodeScore>)
    requires
        graph.wf(),
    ensures
        is_centrality(graph@.adjacency, mode, max_depth, scores@),
{
    let ghost adj = graph@.adjacency;
    let table = centrality_terms(graph, mode, max_depth);
    match mode {
        CentralityMode::Linear => {
            let ranked = ranked_by_weight(&table);
            proof {
                assert forall|i: int| 0 <= i < ranked.len() implies (#[trigger] ranked[i]).node
                    < adj.len() && adj[ranked[i].node as int].len() >= 2 && scores_node(
                    adj,
                    mode,
                    max_depth,
                    ranked[i].node,
                    ranked[i].terms@,
                ) by {
                    assert(held_in(table@, ranked[i]));
                    let p = choose|p: int|
                        0 <= p < table.len() && (#[trigger] table[p]).node == ranked[i].node
                            && table[p].terms@ == ranked[i].terms@;
                    assert(scores_node(adj, mode, max_depth, table[p].node, table[p].terms@));
                }
                assert forall|v: int| 0 <= v < adj.len() && (#[trigger] adj[v]).len() >= 2 implies exists|
                    i: int,
                | 0 <= i < ranked.len() && (#[trigger] ranked[i]).node == v by {
                    let p = choose|p: int| 0 <= p < table.len() && (#[trigger] table[p]).node == v;
                    assert(node_in(ranked@, table[p].node));
                    let i = choose|i: int| 0 <= i < ranked.len() && (#[trigger] ranked[i]).node == v;
                    assert(ranked[i].node == v);
                }
            }
            ranked
        },
        _ => table,
    }
}

/// The depth limit that a configuration asks for, as the traversal takes it.
pub open spec fn limit_of(max_depth: Option<isize>) -> Option<usize> {
    match max_depth {
        Some(d) => Some(d as usize),
        None => None,
    }
}

/// The centrality as `compute_centrality` yields it, for a depth limit that may be
/// negative: such a limit is refused before any traversal.
pub fn centrality_within(graph: &Graph, mode: CentralityMode, max_depth: Option<isize>) -> (r: Result<
    Vec<NodeScore>,
    ConfigError,
>)
    requires
        graph.wf(),
    ensures
        match r {
            Ok(scores) => (max_depth matches Some(d) ==> d >= 0) && is_centrality(
                graph@.adjacency,
                mode,
                limit_of(max_depth),
                scores@,
            ),
            Err(e) => max_depth matches Some(d) && d < 0 && e == ConfigError::NegativeDepth,
        },
{
    match depth_limit(max_depth) {
        Ok(limit) => Ok(compute_centrality(graph, mode, limit)),
        Err(e) => Err(e),
    }
}

/// A node with its score under the linear mode.
#[derive(Debug, Clone, Copy, PartialEq, Eq)]
pub struct LinearScore {
    /// The node that is scored.
    pub node: usize,
    /// The sum of the weights of the steps of the traversal from it.
    pub score: u128,
}

/// `s` is the linear score of a node with at least two adjacency entries.
pub open spec fn is_linear_score(adj: Adjacency, max: Option<usize>, s: LinearScore) -> bool {
    &&& s.node < adj.len()
    &&& adj[s.node as int].len() >= 2
    &&& exists|terms: Seq<Contribution>| #[trigger]
        scores_node(adj, CentralityMode::Linear, max, s.node, terms) && s.score == weight_total(
            terms,
        )
}

/// `ranked` holds the linear score of every node with at least two adjacency entries, by
/// descending score, and nodes with equal scores in the order of the nodes.
pub open spec fn is_linear_ranking(adj: Adjacency, max: Option<usize>, ranked: Seq<LinearScore>) -> bool {
    &&& forall|i: int| 0 <= i < ranked.len() ==> is_linear_score(adj, max, #[trigger] ranked[i])
    &&& forall|i: int, j: int|
        0 <= i < j < ranked.len() ==> (#[trigger] ranked[i]).score > (#[trigger] ranked[j]).score || (
        ranked[i].score == ranked[j].score && ranked[i].node < ranked[j].node)
    &&& forall|v: int|
        0 <= v < adj.len() && (#[trigger] adj[v]).len() >= 2 ==> exists|i: int|
            0 <= i < ranked.len() && (#[trigger] ranked[i]).node == v
}

/// In a ranking by linear score the scores never rise from one place to the next.
pub proof fn lemma_linear_ranking_descends(
    adj: Adjacency,
    max: Option<usize>,
    ranked: Seq<LinearScore>,
    i: int,
    j: int,
)
    requires
        is_linear_ranking(adj, max, ranked),
        0 <= i <= j < ranked.len(),
    ensures
        ranked[i].score >= ranked[j].score,
{
    if i < j {
        assert(ranked[i].score > ranked[j].score || (ranked[i].score == ranked[j].score
            && ranked[i].node < ranked[j].node));
    }
}

/// Centrality under the linear mode, ranked: for every node with at least two adjacency
/// entries the sum of the weights of the steps of its traversal, the largest first. Nodes
/// with equal scores keep the order of the nodes.
pub fn rank_linear_centrality(graph: &Graph, max_depth: Option<usize>) -> (ranked: Vec<LinearScore>)
    requires
        graph.wf(),
    ensures
        is_linear_ranking(graph@.adjacency, max_depth, ranked@),
{
    let ghost adj = graph@.adjacency;
    let scores = compute_centrality(graph, CentralityMode::Linear, max_depth);
    let mut ranked: Vec<LinearScore> = Vec::new();
    let mut i: usize = 0;
    while i < scores.len()
        invariant
            i <= scores.len(),
            ranked.len() == i,
            forall|j: int|
                0 <= j < i ==> (#[trigger] ranked[j]) == (LinearScore {
                    node: scores[j].node,
                    score: weight_total(scores[j].terms@) as u128,
                }) && ranked[j].score == weight_total(scores[j].terms@),
        decreases scores.len() - i,
    {
        ranked.push(LinearScore { node: scores[i].node, score: total_weight(&scores[i].terms) });
        i += 1;
    }
    proof {
        assert forall|i: int| 0 <= i < ranked.len() implies is_linear_score(
            adj,
            max_depth,
            #[trigger] ranked[i],
        ) by {
            assert(scores_node(
                adj,
                CentralityMode::Linear,
                max_depth,
                scores[i].node,
                scores[i].terms@,
            ));
        }
        assert forall|i: int, j: int| 0 <= i < j < ranked.len() implies (#[trigger] ranked[i]).score > (
        #[trigger] ranked[j]).score || (ranked[i].score == ranked[j].score && ranked[i].node
            < ranked[j].node) by {
            assert(heavier_first(scores[i], scores[j]));
        }
        assert forall|v: int| 0 <= v < adj.len() && (#[trigger] adj[v]).len() >= 2 implies exists|
            i: int,
        | 0 <= i < ranked.len() && (#[trigger] ranked[i]).node == v by {
            let p = choose|p: int| 0 <= p < scores.len() && (#[trigger] scores[p]).node == v;
            assert(ranked[p].node == v);
        }
    }
    ranked
}

/// The least weight of a walk from `source` to `v`, where there is one.
pub open spec fn distance(adj: Adjacency, source: usize, v: usize) -> int {
    choose|d: int| is_distance(adj, source, v, d)
}

/// How many of the first `m` nodes, the source apart, lie within reach of `source`.
pub open spec fn reach_count(adj: Adjacency, source: usize, m: nat) -> nat
    decreases m,
{
    if m == 0 {
        0
    } else {
        let v = (m - 1) as usize;
        reach_count(adj, source, (m - 1) as nat) + if v != source && within_reach(adj, source, v) {
            1nat
        } else {
            0nat
        }
    }
}

/// The sum of the distances from `source` to those of the first `m` nodes within its reach.
pub open spec fn reach_total(adj: Adjacency, source: usize, m: nat) -> int
    decreases m,
{
    if m == 0 {
        0
    } else {
        let v = (m - 1) as usize;
        reach_total(adj, source, (m - 1) as nat) + if v != source && within_reach(adj, source, v) {
            distance(adj, source, v)
        } else {
            0
        }
    }
}

/// The two numbers that closeness is made of. The score is their quotient, `reached / total`:
/// the reciprocal of the mean distance to the nodes reached.
#[derive(Debug, Clone, Copy, PartialEq, Eq)]
pub struct Closeness {
    /// The node that is scored.
    pub node: usize,
    /// How many other nodes it reaches.
    pub reached: usize,
    /// The sum of its distances to them; never zero.
    pub total: u128,
}

/// Whether `c` holds the closeness of its node.
pub open spec fn is_closeness(adj: Adjacency, c: Closeness) -> bool {
    &&& c.node < adj.len()
    &&& adj[c.node as int].len() >= 1
    &&& c.reached == reach_count(adj, c.node, adj.len())
    &&& c.total == reach_total(adj, c.node, adj.len())
    &&& c.total > 0
    &&& c.reached > 0
}

/// The closeness of `a` is greater than that of `b`.
pub open spec fn closer(a: Closeness, b: Closeness) -> bool {
    a.reached * b.total > b.reached * a.total
}

/// `a` comes before `b` in the ranking by closeness: the greater closeness first, and of
/// two equal ones the earlier node.
pub open spec fn closer_first(a: Closeness, b: Closeness) -> bool {
    closer(a, b) || (a.reached * b.total == b.reached * a.total && a.node < b.node)
}

/// Whether closeness is defined for `v`: it has a neighbor, and its distances do not sum to 0.
pub open spec fn has_closeness(adj: Adjacency, v: int) -> bool {
    0 <= v < adj.len() && adj[v].len() >= 1 && reach_total(adj, v as usize, adj.len()) > 0
}

/// A distance is unique.
pub proof fn lemma_distance_unique(adj: Adjacency, source: usize, v: usize, d: int)
    requires
        is_distance(adj, source, v, d),
    ensures
        distance(adj, source, v) == d,
{
    let other = distance(adj, source, v);
    assert(is_distance(adj, source, v, other));
    let a = choose|hops: Walk| #[trigger]
        is_walk(adj, source, hops) && walk_end(adj, source, hops) == v
            && crate::dijkstra::walk_weight(adj, hops) == d;
    let b = choose|hops: Walk| #[trigger]
        is_walk(adj, source, hops) && walk_end(adj, source, hops) == v
            && crate::dijkstra::walk_weight(adj, hops) == other;
    assert(is_walk(adj, source, a));
    assert(is_walk(adj, source, b));
}

/// Closeness of every node for which it is defined, ranked: the greatest closeness first,
/// and nodes of equal closeness in the order of the nodes. A node qualifies if it has at
/// least one adjacency entry and the distances to the nodes it reaches do not sum to zero.
pub fn closeness(graph: &Graph) -> (ranked: Vec<Closeness>)
    requires
        graph.wf(),
    ensures
        forall|i: int| 0 <= i < ranked.len() ==> is_closeness(graph@.adjacency, #[trigger] ranked[i]),
        forall|i: int, j: int|
            0 <= i < j < ranked.len() ==> closer_first(#[trigger] ranked[i], #[trigger] ranked[j]),
        forall|v: int| #[trigger]
            has_closeness(graph@.adjacency, v) ==> exists|i: int|
                0 <= i < ranked.len() && (#[trigger] ranked[i]).node == v,
{
    let ghost adj = graph@.adjacency;
    let scores = closeness_by_node(graph);
    let mut items: Vec<Ratio> = Vec::new();
    let mut i: usize = 0;
    while i < scores.len()
        invariant
            i <= scores.len(),
            items.len() == i,
            forall|j: int| 0 <= j < scores.len() ==> is_closeness(adj, #[trigger] scores[j]),
            forall|j: int|
                0 <= j < i ==> (#[trigger] items[j]) == (scores[j].total, scores[j].reached),
        decreases scores.len() - i,
    {
        items.push((scores[i].total, scores[i].reached));
        i += 1;
    }
    proof {
        assert forall|j: int| 0 <= j < items.len() implies (#[trigger] items[j]).1 > 0 by {
            assert(is_closeness(adj, scores[j]));
        }
    }
    let order = rank_ratios(&items, false);
    let mut ranked: Vec<Closeness> = Vec::new();
    let mut i: usize = 0;
    while i < order.len()
        invariant
            is_ratio_ranking(items@, false, order@),
            items.len() == scores.len(),
            i <= order.len(),
            ranked.len() == i,
            forall|j: int| 0 <= j < i ==> (#[trigger] ranked[j]) == scores[order[j] as int],
        decreases order.len() - i,
    {
        ranked.push(scores[order[i]]);
        i += 1;
    }
    proof {
        assert forall|i: int, j: int| 0 <= i < j < ranked.len() implies closer_first(
            #[trigger] ranked[i],
            #[trigger] ranked[j],
        ) by {
            let a = scores[order[i] as int];
            let b = scores[order[j] as int];
            assert(ratio_before(items@, false, order[i], order[j]));
            assert(items[order[i] as int] == (a.total, a.reached));
            assert(items[order[j] as int] == (b.total, b.reached));
            assert(a.total * b.reached == b.reached * a.total) by (nonlinear_arith);
            assert(b.total * a.reached == a.reached * b.total) by (nonlinear_arith);
            if order[i] < order[j] {
                assert(a.node < b.node);
            }
        }
        assert forall|v: int| #[trigger] has_closeness(adj, v) implies exists|i: int|
            0 <= i < ranked.len() && (#[trigger] ranked[i]).node == v by {
            let p = choose|p: int| 0 <= p < scores.len() && (#[trigger] scores[p]).node == v;
            assert(order@.contains(p as usize));
            let q = choose|q: int| 0 <= q < order.len() && order[q] == p as usize;
            assert(ranked[q].node == v);
        }
    }
    ranked
}

/// Closeness of every node for which it is defined, in the order of the nodes.
pub fn closeness_by_node(graph: &Graph) -> (scores: Vec<Closeness>)
    requires
        graph.wf(),
    ensures
        forall|i: int| 0 <= i < scores.len() ==> is_closeness(graph@.adjacency, #[trigger] scores[i]),
        forall|i: int, j: int|
            0 <= i < j < scores.len() ==> (#[trigger] scores[i]).node < (#[trigger] scores[j]).node,
        forall|v: int| #[trigger]
            has_closeness(graph@.adjacency, v) ==> exists|i: int|
                0 <= i < scores.len() && (#[trigger] scores[i]).node == v,
{
    let ghost adj = graph@.adjacency;
    let n = graph.node_count();
    let mut scores: Vec<Closeness> = Vec::new();
    let mut node: usize = 0;
    while node < n
        invariant
            graph.wf(),
            adj == graph@.adjacency,
            n == adj.len(),
            node <= n,
            forall|i: int|
                0 <= i < scores.len() ==> is_closeness(adj, #[trigger] scores[i]) && scores[i].node
                    < node,
            forall|i: int, j: int|
                0 <= i < j < scores.len() ==> (#[trigger] scores[i]).node < (
                #[trigger] scores[j]).node,
            forall|v: int|
                0 <= v < node && #[trigger] has_closeness(adj, v) ==> exists|i: int|
                    0 <= i < scores.len() && (#[trigger] scores[i]).node == v,
        decreases n - node,
    {
        if graph.degree(node) >= 1 {
            let found = shortest_paths(graph, node);
            let mut reached: usize = 0;
            let mut total: u128 = 0;
            let mut v: usize = 0;
            while v < n
                invariant
                    v <= n,
                    n == adj.len(),
                    reached == reach_count(adj, node, v as nat),
                    total == reach_total(adj, node, v as nat),
                    reached <= v,
                    total <= v * u64::MAX,
                    total > 0 ==> reached > 0,
                    forall|x: usize| #[trigger]
                        found@.contains_key(x) <==> within_reach(adj, node, x),
                    forall|x: usize| #[trigger]
                        found@.contains_key(x) ==> is_distance(adj, node, x, found@[x] as int),
                decreases n - v,
            {
                if v != node {
                    match found.get(v) {
                        Some(d) => {
                            proof {
                                assert(found@.contains_key(v));
                                lemma_distance_unique(adj, node, v, d as int);
                            }
                            reached += 1;
                            total += d as u128;
                        },
                        None => {
                            assert(!found@.contains_key(v));
                        },
                    }
                }
                v += 1;
            }
            if total > 0 {
                let ghost before = scores@;
                scores.push(Closeness { node, reached, total });
                proof {
                    assert forall|w: int| 0 <= w < node + 1 && #[trigger] has_closeness(adj, w) implies exists|
                        i: int,
                    | 0 <= i < scores.len() && (#[trigger] scores[i]).node == w by {
                        if w == node {
                            assert(scores[before.len() as int].node == w);
                        } else {
                            let i = choose|i: int|
                                0 <= i < before.len() && (#[trigger] before[i]).node == w;
                            assert(scores[i].node == w);
                        }
                    }
                }
            }
        }
        node += 1;
    }
    scores
}

} // verus!
