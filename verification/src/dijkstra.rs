//! Single-source shortest distances by a priority-queue relaxation search.
use crate::graph::{links_in_range, Adjacency, Graph};
use vstd::prelude::*;

verus! {

/// A walk is a sequence of hops; a hop names the node it leaves and the position of the
/// edge it takes in that node's adjacency list.
pub type Walk = Seq<(usize, int)>;

/// The node at which a walk from `source` ends.
pub open spec fn walk_end(adj: Adjacency, source: usize, hops: Walk) -> usize {
    if hops.len() == 0 {
        source
    } else {
        adj[hops.last().0 as int][hops.last().1].0
    }
}

/// Whether `hops` is a walk through `adj` that starts at `source`.
pub open spec fn is_walk(adj: Adjacency, source: usize, hops: Walk) -> bool
    decreases hops.len(),
{
    if hops.len() == 0 {
        true
    } else {
        let h = hops.last();
        &&& is_walk(adj, source, hops.drop_last())
        &&& h.0 == walk_end(adj, source, hops.drop_last())
        &&& h.0 < adj.len()
        &&& 0 <= h.1 < adj[h.0 as int].len()
    }
}

/// The sum of the weights of the edges that a walk takes.
pub open spec fn walk_weight(adj: Adjacency, hops: Walk) -> int
    decreases hops.len(),
{
    if hops.len() == 0 {
        0
    } else {
        walk_weight(adj, hops.drop_last()) + adj[hops.last().0 as int][hops.last().1].1
    }
}

/// Some walk from `source` to `v` has weight exactly `d`.
pub open spec fn reaches_with(adj: Adjacency, source: usize, v: usize, d: int) -> bool {
    exists|hops: Walk| #[trigger]
        is_walk(adj, source, hops) && walk_end(adj, source, hops) == v && walk_weight(adj, hops)
            == d
}

/// No walk from `source` to `v` weighs less than `d`.
pub open spec fn no_shorter(adj: Adjacency, source: usize, v: usize, d: int) -> bool {
    forall|hops: Walk| #[trigger]
        is_walk(adj, source, hops) && walk_end(adj, source, hops) == v ==> d <= walk_weight(
            adj,
            hops,
        )
}

/// `d` is the least weight of a walk from `source` to `v`.
pub open spec fn is_distance(adj: Adjacency, source: usize, v: usize, d: int) -> bool {
    reaches_with(adj, source, v, d) && no_shorter(adj, source, v, d)
}

/// Some walk from `source` to `v` has a weight that a `u64` can hold.
pub open spec fn within_reach(adj: Adjacency, source: usize, v: usize) -> bool {
    exists|hops: Walk| #[trigger]
        is_walk(adj, source, hops) && walk_end(adj, source, hops) == v && walk_weight(adj, hops)
            <= u64::MAX
}

/// A walk that takes one more edge from where it ended is a walk again, heavier by that edge.
pub proof fn lemma_walk_extend(adj: Adjacency, source: usize, hops: Walk, k: int)
    requires
        is_walk(adj, source, hops),
        walk_end(adj, source, hops) < adj.len(),
        0 <= k < adj[walk_end(adj, source, hops) as int].len(),
    ensures
        is_walk(adj, source, hops.push((walk_end(adj, source, hops), k))),
        walk_end(adj, source, hops.push((walk_end(adj, source, hops), k))) == adj[walk_end(
            adj,
            source,
            hops,
        ) as int][k].0,
        walk_weight(adj, hops.push((walk_end(adj, source, hops), k))) == walk_weight(adj, hops)
            + adj[walk_end(adj, source, hops) as int][k].1,
{
    let longer = hops.push((walk_end(adj, source, hops), k));
    assert(longer.drop_last() =~= hops);
}

/// Weights are never negative, and a walk with a hop ends inside the graph.
pub proof fn lemma_walk_basics(adj: Adjacency, source: usize, hops: Walk)
    requires
        is_walk(adj, source, hops),
        links_in_range(adj),
    ensures
        walk_weight(adj, hops) >= 0,
        hops.len() > 0 ==> walk_end(adj, source, hops) < adj.len() && source < adj.len(),
    decreases hops.len(),
{
    if hops.len() > 0 {
        lemma_walk_basics(adj, source, hops.drop_last());
    }
}

/// The source is at distance 0 from itself.
pub proof fn lemma_source_at_zero(adj: Adjacency, source: usize)
    requires
        links_in_range(adj),
    ensures
        is_distance(adj, source, source, 0),
{
    let stay = Seq::<(usize, int)>::empty();
    assert(is_walk(adj, source, stay) && walk_end(adj, source, stay) == source && walk_weight(
        adj,
        stay,
    ) == 0);
    assert forall|hops: Walk| #[trigger]
        is_walk(adj, source, hops) && walk_end(adj, source, hops) == source implies 0
        <= walk_weight(adj, hops) by {
        lemma_walk_basics(adj, source, hops);
    }
}

/// No distance is negative.
pub proof fn lemma_distance_nonnegative(adj: Adjacency, source: usize, v: usize, d: int)
    requires
        links_in_range(adj),
        is_distance(adj, source, v, d),
    ensures
        d >= 0,
{
    let hops = choose|hops: Walk| #[trigger]
        is_walk(adj, source, hops) && walk_end(adj, source, hops) == v && walk_weight(adj, hops)
            == d;
    lemma_walk_basics(adj, source, hops);
}

/// Relaxing an edge cannot improve a distance: the far end is no further than the near end
/// plus the weight of the edge.
pub proof fn lemma_edge_bounds_distance(
    adj: Adjacency,
    source: usize,
    u: usize,
    k: int,
    du: int,
    dv: int,
)
    requires
        u < adj.len(),
        0 <= k < adj[u as int].len(),
        is_distance(adj, source, u, du),
        is_distance(adj, source, adj[u as int][k].0, dv),
    ensures
        dv <= du + adj[u as int][k].1,
{
    let hops = choose|hops: Walk| #[trigger]
        is_walk(adj, source, hops) && walk_end(adj, source, hops) == u && walk_weight(adj, hops)
            == du;
    lemma_walk_extend(adj, source, hops, k);
    assert(is_walk(adj, source, hops.push((u, k))));
}

/// Distances do not decrease in the order in which a shortest walk relaxes its edges: every
/// node but the source is entered by an edge from a node whose distance is smaller by exactly
/// the weight of that edge, and so is not larger.
pub proof fn lemma_distance_grows_along_walk(adj: Adjacency, source: usize, v: usize, d: int)
    requires
        links_in_range(adj),
        is_distance(adj, source, v, d),
        v != source,
    ensures
        exists|u: usize, k: int|
            #![trigger adj[u as int][k]]
            u < adj.len() && 0 <= k < adj[u as int].len() && adj[u as int][k].0 == v
                && is_distance(adj, source, u, d - adj[u as int][k].1) && 0 <= d
                - adj[u as int][k].1 <= d,
{
    let hops = choose|hops: Walk| #[trigger]
        is_walk(adj, source, hops) && walk_end(adj, source, hops) == v && walk_weight(adj, hops)
            == d;
    assert(hops.len() > 0);
    let before = hops.drop_last();
    let u = hops.last().0;
    let k = hops.last().1;
    let w = adj[u as int][k].1;
    lemma_walk_basics(adj, source, before);
    assert(is_walk(adj, source, before) && walk_end(adj, source, before) == u);
    assert(reaches_with(adj, source, u, d - w));
    assert forall|other: Walk| #[trigger]
        is_walk(adj, source, other) && walk_end(adj, source, other) == u implies d - w
        <= walk_weight(adj, other) by {
        lemma_walk_extend(adj, source, other, k);
        assert(is_walk(adj, source, other.push((u, k))));
    }
    assert(adj[u as int][k].0 == v);
}

/// The start of a walk is a walk, and weighs no more than the whole.
pub proof fn lemma_walk_prefix(adj: Adjacency, source: usize, hops: Walk, i: int)
    requires
        is_walk(adj, source, hops),
        0 <= i <= hops.len(),
    ensures
        is_walk(adj, source, hops.take(i)),
        walk_weight(adj, hops.take(i)) <= walk_weight(adj, hops),
    decreases hops.len() - i,
{
    if i == hops.len() {
        assert(hops.take(i) =~= hops);
    } else {
        lemma_walk_prefix(adj, source, hops, i + 1);
        assert(hops.take(i + 1).drop_last() =~= hops.take(i));
    }
}

/// Along a shortest walk every node is at its distance: the start of a shortest walk is a
/// shortest walk to where it ends. So the distances of the nodes never decrease in the
/// order in which the walk relaxes its edges.
pub proof fn lemma_distances_along_shortest_walk(
    adj: Adjacency,
    source: usize,
    hops: Walk,
    i: int,
    j: int,
)
    requires
        is_walk(adj, source, hops),
        is_distance(adj, source, walk_end(adj, source, hops), walk_weight(adj, hops)),
        0 <= i <= j <= hops.len(),
    ensures
        is_distance(
            adj,
            source,
            walk_end(adj, source, hops.take(i)),
            walk_weight(adj, hops.take(i)),
        ),
        is_distance(
            adj,
            source,
            walk_end(adj, source, hops.take(j)),
            walk_weight(adj, hops.take(j)),
        ),
        walk_weight(adj, hops.take(i)) <= walk_weight(adj, hops.take(j)),
{
    lemma_start_is_shortest(adj, source, hops, i);
    lemma_start_is_shortest(adj, source, hops, j);
    lemma_walk_prefix(adj, source, hops, j);
    lemma_walk_prefix(adj, source, hops.take(j), i);
    assert(hops.take(j).take(i) =~= hops.take(i));
}

proof fn lemma_start_is_shortest(adj: Adjacency, source: usize, hops: Walk, i: int)
    requires
        is_walk(adj, source, hops),
        is_distance(adj, source, walk_end(adj, source, hops), walk_weight(adj, hops)),
        0 <= i <= hops.len(),
    ensures
        is_distance(
            adj,
            source,
            walk_end(adj, source, hops.take(i)),
            walk_weight(adj, hops.take(i)),
        ),
    decreases hops.len() - i,
{
    if i == hops.len() {
        assert(hops.take(i) =~= hops);
    } else {
        lemma_start_is_shortest(adj, source, hops, i + 1);
        lemma_walk_prefix(adj, source, hops, i + 1);
        let longer = hops.take(i + 1);
        let start = hops.take(i);
        assert(longer.drop_last() =~= start);
        let u = longer.last().0;
        let k = longer.last().1;
        let w = adj[u as int][k].1;
        assert(is_walk(adj, source, start) && walk_end(adj, source, start) == u);
        assert(reaches_with(adj, source, u, walk_weight(adj, start)));
        assert forall|other: Walk| #[trigger]
            is_walk(adj, source, other) && walk_end(adj, source, other) == u implies walk_weight(
            adj,
            start,
        ) <= walk_weight(adj, other) by {
            lemma_walk_extend(adj, source, other, k);
            assert(is_walk(adj, source, other.push((u, k))));
        }
    }
}

/// What a search has found so far: for each node the weight of the lightest walk seen.
spec fn found(adj: Adjacency, source: usize, dist: Seq<Option<u64>>) -> bool {
    forall|v: int|
        0 <= v < dist.len() && (#[trigger] dist[v]) is Some ==> reaches_with(
            adj,
            source,
            v as usize,
            dist[v]->0 as int,
        )
}

/// The edge at position `k` of `u` cannot improve on `dist` when `u` is left at cost `d`.
spec fn edge_relaxed(adj: Adjacency, dist: Seq<Option<u64>>, u: int, k: int, d: u64) -> bool {
    d + adj[u][k].1 <= u64::MAX ==> dist[adj[u][k].0 as int] is Some && dist[adj[u][k].0 as int]->0
        <= d + adj[u][k].1
}

/// No edge out of `u` can improve on `dist`.
spec fn settled(adj: Adjacency, dist: Seq<Option<u64>>, u: int) -> bool {
    forall|k: int| 0 <= k < adj[u].len() ==> #[trigger] edge_relaxed(adj, dist, u, k, dist[u]->0)
}

/// In a search state where the source is at 0 and no edge can improve anything, every walk
/// whose weight fits in a `u64` ends at a node whose recorded value is at most that weight.
proof fn lemma_settled_is_lower_bound(
    adj: Adjacency,
    source: usize,
    dist: Seq<Option<u64>>,
    hops: Walk,
)
    requires
        links_in_range(adj),
        dist.len() == adj.len(),
        source < adj.len(),
        dist[source as int] == Some(0u64),
        forall|u: int| 0 <= u < dist.len() && (#[trigger] dist[u]) is Some ==> settled(adj, dist, u),
        is_walk(adj, source, hops),
        walk_weight(adj, hops) <= u64::MAX,
    ensures
        dist[walk_end(adj, source, hops) as int] is Some,
        dist[walk_end(adj, source, hops) as int]->0 <= walk_weight(adj, hops),
    decreases hops.len(),
{
    if hops.len() > 0 {
        let before = hops.drop_last();
        let h = hops.last();
        lemma_walk_basics(adj, source, before);
        lemma_settled_is_lower_bound(adj, source, dist, before);
        let u = h.0 as int;
        assert(dist[u] is Some);
        assert(settled(adj, dist, u));
        assert(edge_relaxed(adj, dist, u, h.1, dist[u]->0));
    }
}

/// From a source outside the graph no edge can be taken.
pub proof fn lemma_outside_source_stays(adj: Adjacency, source: usize, hops: Walk)
    requires
        is_walk(adj, source, hops),
        source >= adj.len(),
        links_in_range(adj),
    ensures
        hops.len() == 0,
{
    if hops.len() > 0 {
        lemma_walk_basics(adj, source, hops);
    }
}

/// Room left under each recorded value; it shrinks with every improvement.
spec fn slack(dist: Seq<Option<u64>>) -> int
    decreases dist.len(),
{
    if dist.len() == 0 {
        0
    } else {
        slack(dist.drop_last()) + room(dist.last())
    }
}

/// The room under one value: the value itself, or one more than any `u64` where none is recorded.
spec fn room(d: Option<u64>) -> int {
    match d {
        Some(x) => x as int,
        None => u64::MAX as int + 1,
    }
}

proof fn lemma_slack_nonnegative(dist: Seq<Option<u64>>)
    ensures
        slack(dist) >= 0,
    decreases dist.len(),
{
    if dist.len() > 0 {
        lemma_slack_nonnegative(dist.drop_last());
    }
}

proof fn lemma_slack_update(dist: Seq<Option<u64>>, i: int, x: Option<u64>)
    requires
        0 <= i < dist.len(),
    ensures
        slack(dist.update(i, x)) == slack(dist) - room(dist[i]) + room(x),
    decreases dist.len(),
{
    let after = dist.update(i, x);
    if i == dist.len() - 1 {
        assert(after.drop_last() =~= dist.drop_last());
    } else {
        assert(after.drop_last() =~= dist.drop_last().update(i, x));
        lemma_slack_update(dist.drop_last(), i, x);
    }
}

/// Takes an entry of least cost out of the queue.
fn pop_min(heap: &mut Vec<(u64, usize)>) -> (e: (u64, usize))
    requires
        old(heap).len() > 0,
    ensures
        old(heap)@.contains(e),
        final(heap).len() == old(heap).len() - 1,
        forall|x: (u64, usize)| #[trigger] final(heap)@.contains(x) ==> old(heap)@.contains(x) && e.0 <= x.0,
        forall|x: (u64, usize)| #[trigger] old(heap)@.contains(x) && x != e ==> final(heap)@.contains(x),
{
    let mut best: usize = 0;
    let mut i: usize = 1;
    while i < heap.len()
        invariant
            1 <= i <= heap.len(),
            best < i,
            forall|j: int| 0 <= j < i ==> heap[best as int].0 <= (#[trigger] heap[j]).0,
        decreases heap.len() - i,
    {
        if heap[i].0 < heap[best].0 {
            best = i;
        }
        i += 1;
    }
    let e = heap.swap_remove(best);
    proof {
        let before = old(heap)@;
        let after = heap@;
        assert(before[best as int] == e);
        assert forall|x: (u64, usize)| #[trigger] after.contains(x) implies before.contains(x) && e.0
            <= x.0 by {
            let j = choose|j: int| 0 <= j < after.len() && after[j] == x;
            if j == best {
                assert(before[before.len() - 1] == x);
            } else {
                assert(before[j] == x);
            }
        }
        assert forall|x: (u64, usize)| #[trigger] before.contains(x) && x != e implies after.contains(
            x,
        ) by {
            let j = choose|j: int| 0 <= j < before.len() && before[j] == x;
            if j == before.len() - 1 {
                assert(after[best as int] == x);
            } else {
                assert(after[j] == x);
            }
        }
    }
    e
}

/// The distances found from one source: a map from each node reached to its distance.
pub struct DistanceMap {
    source: usize,
    table: Vec<Option<u64>>,
}

impl View for DistanceMap {
    type V = Map<usize, u64>;

    closed spec fn view(&self) -> Map<usize, u64> {
        Map::new(
            |v: usize| v == self.source || (v < self.table.len() && self.table[v as int] is Some),
            |v: usize|
                if v < self.table.len() && self.table[v as int] is Some {
                    self.table[v as int]->0
                } else {
                    0u64
                },
        )
    }
}

impl DistanceMap {
    /// The node the distances are measured from.
    pub closed spec fn origin(&self) -> usize {
        self.source
    }

    /// The node the distances are measured from.
    pub fn source(&self) -> (s: usize)
        ensures
            s == self.origin(),
            self@.contains_key(s),
    {
        self.source
    }

    /// The distance of `node`; `None` for a node that was not reached.
    pub fn get(&self, node: usize) -> (r: Option<u64>)
        ensures
            r == (if self@.contains_key(node) {
                Some(self@[node])
            } else {
                None
            }),
    {
        if node < self.table.len() && self.table[node].is_some() {
            self.table[node]
        } else if node == self.source {
            Some(0)
        } else {
            None
        }
    }
}

/// Least cumulative edge weight from `start` to every node that a walk from `start` reaches
/// within the range of `u64`; other nodes are absent from the result.
pub fn shortest_paths(graph: &Graph, start: usize) -> (r: DistanceMap)
    requires
        graph.wf(),
    ensures
        r.origin() == start,
        r@.contains_key(start) && r@[start] == 0,
        forall|v: usize| #[trigger] r@.contains_key(v) <==> within_reach(graph@.adjacency, start, v),
        forall|v: usize| #[trigger]
            r@.contains_key(v) ==> is_distance(graph@.adjacency, start, v, r@[v] as int),
{
    let ghost adj = graph@.adjacency;
    let n = graph.node_count();
    let mut dist: Vec<Option<u64>> = Vec::new();
    while dist.len() < n
        invariant
            dist.len() <= n,
            forall|j: int| 0 <= j < dist.len() ==> dist[j] is None,
        decreases n - dist.len(),
    {
        dist.push(None);
    }
    if start >= n {
        let r = DistanceMap { source: start, table: dist };
        proof {
            assert(is_walk(adj, start, Seq::empty()));
            assert(walk_weight(adj, Seq::<(usize, int)>::empty()) == 0);
            assert forall|v: usize| #[trigger] within_reach(adj, start, v) implies v == start by {
                let hops = choose|hops: Walk| #[trigger]
                    is_walk(adj, start, hops) && walk_end(adj, start, hops) == v && walk_weight(
                        adj,
                        hops,
                    ) <= u64::MAX;
                lemma_outside_source_stays(adj, start, hops);
            }
            assert forall|hops: Walk| #[trigger]
                is_walk(adj, start, hops) && walk_end(adj, start, hops) == start implies 0
                <= walk_weight(adj, hops) by {
                lemma_walk_basics(adj, start, hops);
            }
        }
        return r;
    }
    dist[start] = Some(0);
    let mut heap: Vec<(u64, usize)> = Vec::new();
    heap.push((0, start));
    proof {
        assert(is_walk(adj, start, Seq::empty()));
        assert(walk_weight(adj, Seq::<(usize, int)>::empty()) == 0);
        assert(reaches_with(adj, start, start, 0));
        assert(heap@[0] == (0u64, start));
        lemma_slack_nonnegative(dist@);
    }
    while heap.len() > 0
        invariant
            graph.wf(),
            adj == graph@.adjacency,
            n == adj.len(),
            dist.len() == n,
            start < n,
            dist[start as int] == Some(0u64),
            found(adj, start, dist@),
            forall|i: int|
                0 <= i < heap.len() ==> (#[trigger] heap[i]).1 < n && reaches_with(
                    adj,
                    start,
                    heap[i].1,
                    heap[i].0 as int,
                ),
            forall|u: int|
                0 <= u < n && (#[trigger] dist[u]) is Some ==> heap@.contains(
                    (dist[u]->0, u as usize),
                ) || settled(adj, dist@, u),
            slack(dist@) >= 0,
        decreases slack(dist@), heap.len(),
    {
        let ghost slack0 = slack(dist@);
        let ghost len0 = heap.len();
        let ghost heap0 = heap@;
        let (cost, node) = pop_min(&mut heap);
        proof {
            let i = choose|i: int| 0 <= i < heap0.len() && heap0[i] == (cost, node);
            assert(heap0[i].1 < n);
            assert forall|i: int| 0 <= i < heap.len() implies (#[trigger] heap[i]).1 < n
                && reaches_with(adj, start, heap[i].1, heap[i].0 as int) by {
                assert(heap@.contains(heap[i]));
                let j = choose|j: int| 0 <= j < heap0.len() && heap0[j] == heap[i];
                assert(heap0[j].1 < n);
            }
        }
        let list = graph.edges_at(node);
        let mut k: usize = 0;
        while k < list.len()
            invariant
                graph.wf(),
                adj == graph@.adjacency,
                n == adj.len(),
                dist.len() == n,
                start < n,
                node < n,
                list@ == adj[node as int],
                k <= list.len(),
                dist[start as int] == Some(0u64),
                found(adj, start, dist@),
                reaches_with(adj, start, node, cost as int),
                forall|i: int|
                    0 <= i < heap.len() ==> (#[trigger] heap[i]).1 < n && reaches_with(
                        adj,
                        start,
                        heap[i].1,
                        heap[i].0 as int,
                    ),
                forall|u: int|
                    0 <= u < n && (#[trigger] dist[u]) is Some ==> heap@.contains(
                        (dist[u]->0, u as usize),
                    ) || settled(adj, dist@, u) || (u == node && dist[u]->0 == cost),
                forall|j: int| 0 <= j < k ==> #[trigger] edge_relaxed(adj, dist@, node as int, j, cost),
                slack(dist@) >= 0,
                slack(dist@) <= slack0,
                slack(dist@) < slack0 || heap.len() == len0 - 1,
            decreases list.len() - k,
        {
            let (nb, w) = list[k];
            assert(adj[node as int][k as int] == (nb, w));
            assert(nb < n);
            match cost.checked_add(w) {
                Some(next) => {
                    let better = match dist[nb] {
                        None => true,
                        Some(d) => next < d,
                    };
                    if better {
                        let ghost dist0 = dist@;
                        let ghost heap1 = heap@;
                        dist[nb] = Some(next);
                        heap.push((next, nb));
                        proof {
                            lemma_slack_update(dist0, nb as int, Some(next));
                            lemma_slack_nonnegative(dist@);
                            let hops = choose|hops: Walk| #[trigger]
                                is_walk(adj, start, hops) && walk_end(adj, start, hops) == node
                                    && walk_weight(adj, hops) == cost as int;
                            lemma_walk_extend(adj, start, hops, k as int);
                            assert(reaches_with(adj, start, nb, next as int));
                            assert(heap@[heap1.len() as int] == (next, nb));
                            assert(next > 0 || nb != start) by {
                                if nb == start {
                                    assert(dist0[start as int] == Some(0u64));
                                }
                            }
                            assert forall|v: int| 0 <= v < dist.len() && (#[trigger] dist[v]) is Some implies reaches_with(
                                adj, start, v as usize, dist[v]->0 as int) by {
                                if v != nb {
                                    assert(dist0[v] is Some);
                                }
                            }
                            assert forall|i: int| 0 <= i < heap.len() implies (#[trigger] heap[i]).1 < n
                                && reaches_with(adj, start, heap[i].1, heap[i].0 as int) by {
                                if i < heap1.len() {
                                    assert(heap[i] == heap1[i]);
                                }
                            }
                            assert forall|u: int| 0 <= u < n && (#[trigger] dist[u]) is Some implies heap@.contains(
                                (dist[u]->0, u as usize),
                            ) || settled(adj, dist@, u) || (u == node && dist[u]->0 == cost) by {
                                if u == nb {
                                    assert(heap@.contains((next, nb)));
                                } else {
                                    assert(dist0[u] is Some);
                                    if heap1.contains((dist0[u]->0, u as usize)) {
                                        let i = choose|i: int|
                                            0 <= i < heap1.len() && heap1[i] == (
                                                dist0[u]->0,
                                                u as usize,
                                            );
                                        assert(heap@[i] == heap1[i]);
                                    } else if settled(adj, dist0, u) {
                                        assert forall|j: int| 0 <= j < adj[u].len() implies #[trigger] edge_relaxed(
                                            adj, dist@, u, j, dist[u]->0) by {
                                            assert(edge_relaxed(adj, dist0, u, j, dist0[u]->0));
                                        }
                                    }
                                }
                            }
                            assert forall|j: int| 0 <= j < k + 1 implies #[trigger] edge_relaxed(
                                adj, dist@, node as int, j, cost) by {
                                if j < k {
                                    assert(edge_relaxed(adj, dist0, node as int, j, cost));
                                }
                            }
                        }
                    } else {
                        assert(edge_relaxed(adj, dist@, node as int, k as int, cost));
                    }
                },
                None => {
                    assert(edge_relaxed(adj, dist@, node as int, k as int, cost));
                },
            }
            k += 1;
        }
        proof {
            assert forall|u: int| 0 <= u < n && (#[trigger] dist[u]) is Some implies heap@.contains(
                (dist[u]->0, u as usize),
            ) || settled(adj, dist@, u) by {
                if u == node && dist[u]->0 == cost {
                    assert forall|j: int| 0 <= j < adj[u].len() implies #[trigger] edge_relaxed(
                        adj, dist@, u, j, dist[u]->0) by {
                        assert(edge_relaxed(adj, dist@, node as int, j, cost));
                    }
                }
            }
        }
    }
    let r = DistanceMap { source: start, table: dist };
    proof {
        assert forall|u: int| 0 <= u < dist.len() && (#[trigger] dist[u]) is Some implies settled(
            adj,
            dist@,
            u,
        ) by {
            assert(!heap@.contains((dist[u]->0, u as usize)));
        }
        assert forall|v: usize| #[trigger] within_reach(adj, start, v) implies r@.contains_key(v) by {
            let hops = choose|hops: Walk| #[trigger]
                is_walk(adj, start, hops) && walk_end(adj, start, hops) == v && walk_weight(
                    adj,
                    hops,
                ) <= u64::MAX;
            lemma_walk_basics(adj, start, hops);
            lemma_settled_is_lower_bound(adj, start, dist@, hops);
        }
        assert forall|v: usize| #[trigger] r@.contains_key(v) implies within_reach(adj, start, v)
            && is_distance(adj, start, v, r@[v] as int) by {
            assert(v < n && dist[v as int] is Some);
            let d = dist[v as int]->0;
            assert(reaches_with(adj, start, v, d as int));
            assert forall|hops: Walk| #[trigger]
                is_walk(adj, start, hops) && walk_end(adj, start, hops) == v implies d
                <= walk_weight(adj, hops) by {
                if walk_weight(adj, hops) <= u64::MAX {
                    lemma_settled_is_lower_bound(adj, start, dist@, hops);
                }
            }
        }
    }
    r
}

} // verus!
