//! Communities: grouping of nodes by category label, connectivity between labels, and
//! connected components of the entities.
use crate::graph::{
    contains_id, label_scored, label_total, lemma_unmarked_update, links_in_range, undirected,
    unmarked, Adjacency, Graph,
};
use crate::ranking::{
    is_ranking, is_ratio_ranking, rank_descending, rank_ratios, ranks_before, Ratio,
};
use vstd::prelude::*;

verus! {

/// Whether the entries of a list grow strictly from each to the next.
pub open spec fn ascending(list: Seq<usize>) -> bool {
    forall|i: int, j: int| 0 <= i < j < list.len() ==> list[i] < list[j]
}

/// `groups` holds, for each label, the nodes that carry it, in the order of the nodes.
pub open spec fn is_grouping(
    categories: Seq<Seq<usize>>,
    label_count: nat,
    groups: Seq<Seq<usize>>,
) -> bool {
    &&& groups.len() == label_count
    &&& forall|a: int| 0 <= a < groups.len() ==> ascending(#[trigger] groups[a])
    &&& forall|a: int, e: usize|
        0 <= a < groups.len() ==> (#[trigger] groups[a].contains(e) <==> e < categories.len()
            && categories[e as int].contains(a as usize))
}

/// Some node carries both label `a` and label `b`.
pub open spec fn shares_member(categories: Seq<Seq<usize>>, a: usize, b: usize) -> bool {
    exists|e: int|
        0 <= e < categories.len() && (#[trigger] categories[e]).contains(a) && categories[e].contains(
            b,
        )
}

/// `links` holds, for each label, the other labels that share a node with it, in ascending
/// order.
pub open spec fn is_connectivity(
    categories: Seq<Seq<usize>>,
    label_count: nat,
    links: Seq<Seq<usize>>,
) -> bool {
    &&& links.len() == label_count
    &&& forall|a: int| 0 <= a < links.len() ==> ascending(#[trigger] links[a])
    &&& forall|a: int, b: usize|
        0 <= a < links.len() ==> (#[trigger] links[a].contains(b) <==> b < label_count && b != a
            && shares_member(categories, a as usize, b))
}

/// Grouping by label is a cover, not a partition: a node appears in as many groups as it
/// has labels.
pub proof fn lemma_groups_cover(
    categories: Seq<Seq<usize>>,
    label_count: nat,
    groups: Seq<Seq<usize>>,
    e: usize,
)
    requires
        is_grouping(categories, label_count, groups),
        e < categories.len(),
        categories[e as int].no_duplicates(),
        forall|j: int| 0 <= j < categories[e as int].len() ==> categories[e as int][j] < label_count,
    ensures
        Set::new(|a: usize| a < label_count && groups[a as int].contains(e)).finite(),
        Set::new(|a: usize| a < label_count && groups[a as int].contains(e)).len()
            == categories[e as int].len(),
{
    let holding = Set::new(|a: usize| a < label_count && groups[a as int].contains(e));
    let own = categories[e as int];
    assert forall|a: usize| holding.contains(a) <==> own.to_set().contains(a) by {
        if own.contains(a) {
            let j = choose|j: int| 0 <= j < own.len() && own[j] == a;
            assert(own[j] < label_count);
            assert(groups[a as int].contains(e));
        }
        if a < label_count {
            assert(groups[a as int].contains(e) <==> own.contains(a));
        }
    }
    assert(holding =~= own.to_set());
    own.unique_seq_to_set();
    vstd::seq_lib::seq_to_set_is_finite(own);
}

/// Connectivity between labels is symmetric, and no label is connected to itself.
pub proof fn lemma_connectivity_symmetric(
    categories: Seq<Seq<usize>>,
    label_count: nat,
    links: Seq<Seq<usize>>,
    a: usize,
    b: usize,
)
    requires
        is_connectivity(categories, label_count, links),
        a < label_count,
        b < label_count,
    ensures
        links[a as int].contains(b) <==> links[b as int].contains(a),
        !links[a as int].contains(a),
{
    assert(links[a as int].contains(b) <==> b != a && shares_member(categories, a, b));
    assert(links[b as int].contains(a) <==> a != b && shares_member(categories, b, a));
    assert(links[a as int].contains(a) <==> a != a && shares_member(categories, a, a));
    if shares_member(categories, a, b) {
        let e = choose|e: int|
            0 <= e < categories.len() && (#[trigger] categories[e]).contains(a) && categories[e].contains(
                b,
            );
        assert(categories[e].contains(b) && categories[e].contains(a));
    }
    if shares_member(categories, b, a) {
        let e = choose|e: int|
            0 <= e < categories.len() && (#[trigger] categories[e]).contains(b) && categories[e].contains(
                a,
            );
        assert(categories[e].contains(a) && categories[e].contains(b));
    }
}

/// Groups the nodes by category label: for each label, the nodes that carry it, in the
/// order of the nodes. A node with several labels appears in the group of each.
pub fn group_by_label(graph: &Graph) -> (groups: Vec<Vec<usize>>)
    requires
        graph.wf(),
    ensures
        is_grouping(graph@.categories, graph@.labels.len(), Seq::new(groups.len() as nat, |a: int| groups[a]@)),
{
    let ghost categories = graph@.categories;
    let n = graph.node_count();
    let label_count = graph.label_count();
    let mut groups: Vec<Vec<usize>> = Vec::new();
    while groups.len() < label_count
        invariant
            groups.len() <= label_count,
            forall|a: int| 0 <= a < groups.len() ==> (#[trigger] groups[a])@.len() == 0,
        decreases label_count - groups.len(),
    {
        groups.push(Vec::new());
    }
    let mut e: usize = 0;
    while e < n
        invariant
            graph.wf(),
            categories == graph@.categories,
            n == categories.len(),
            label_count == graph@.labels.len(),
            groups.len() == label_count,
            e <= n,
            forall|a: int| 0 <= a < groups.len() ==> ascending((#[trigger] groups[a])@),
            forall|a: int, x: usize|
                0 <= a < groups.len() ==> (#[trigger] groups[a]@.contains(x) <==> x < e
                    && categories[x as int].contains(a as usize)),
        decreases n - e,
    {
        let own = graph.labels_at(e);
        let mut j: usize = 0;
        while j < own.len()
            invariant
                graph.wf(),
                categories == graph@.categories,
                n == categories.len(),
                label_count == graph@.labels.len(),
                groups.len() == label_count,
                e < n,
                own@ == categories[e as int],
                j <= own.len(),
                forall|a: int| 0 <= a < groups.len() ==> ascending((#[trigger] groups[a])@),
                forall|a: int, x: usize|
                    0 <= a < groups.len() ==> (#[trigger] groups[a]@.contains(x) <==> (x < e
                        && categories[x as int].contains(a as usize)) || (x == e && exists|i: int|
                        0 <= i < j && own[i] == a)),
            decreases own.len() - j,
        {
            let label = own[j];
            assert(categories[e as int][j as int] < label_count);
            let ghost before = Seq::new(groups.len() as nat, |a: int| groups[a]@);
            proof {
                assert(!before[label as int].contains(e)) by {
                    if groups[label as int]@.contains(e) {
                        let i = choose|i: int| 0 <= i < j && own[i] == label;
                        assert(own@[i] == own@[j as int]);
                    }
                }
            }
            groups[label].push(e);
            proof {
                let target = groups[label as int]@;
                assert(target =~= before[label as int].push(e));
                assert(ascending(target)) by {
                    assert forall|p: int, q: int| 0 <= p < q < target.len() implies target[p]
                        < target[q] by {
                        if q == target.len() - 1 {
                            assert(before[label as int].contains(target[p]));
                        }
                    }
                }
                assert forall|a: int, x: usize| 0 <= a < groups.len() implies (
                #[trigger] groups[a]@.contains(x) <==> (x < e && categories[x as int].contains(
                    a as usize,
                )) || (x == e && exists|i: int| 0 <= i < j + 1 && own[i] == a)) by {
                    if a == label {
                        if target.contains(x) {
                            let p = choose|p: int| 0 <= p < target.len() && target[p] == x;
                            if p < before[a].len() {
                                assert(before[a][p] == x);
                                assert(before[a].contains(x));
                            } else {
                                assert(own[j as int] == a);
                            }
                        }
                        if before[a].contains(x) {
                            let p = choose|p: int| 0 <= p < before[a].len() && before[a][p] == x;
                            assert(target[p] == x);
                        }
                        if x == e {
                            assert(target[target.len() - 1] == e);
                            assert(own[j as int] == a);
                        }
                    } else {
                        assert(groups[a]@ == before[a]);
                        if x == e && exists|i: int| 0 <= i < j + 1 && own[i] == a {
                            let i = choose|i: int| 0 <= i < j + 1 && own[i] == a;
                            assert(i < j);
                        }
                    }
                }
                assert forall|a: int| 0 <= a < groups.len() implies ascending(
                    (#[trigger] groups[a])@,
                ) by {
                    if a != label {
                        assert(groups[a]@ == before[a]);
                    }
                }
            }
            j += 1;
        }
        proof {
            assert forall|a: int, x: usize| 0 <= a < groups.len() implies (
            #[trigger] groups[a]@.contains(x) <==> x < e + 1 && categories[x as int].contains(
                a as usize,
            )) by {
                if x == e {
                    if categories[e as int].contains(a as usize) {
                        let i = choose|i: int|
                            0 <= i < categories[e as int].len() && categories[e as int][i] == a as usize;
                        assert(own[i] == a);
                    }
                    if exists|i: int| 0 <= i < j && own[i] == a {
                        let i = choose|i: int| 0 <= i < j && own[i] == a;
                        assert(categories[e as int][i] == a as usize);
                    }
                }
            }
        }
        e += 1;
    }
    groups
}

/// Whether a node of `group` carries the label `b`.
fn any_carries(graph: &Graph, group: &Vec<usize>, b: usize) -> (r: bool)
    requires
        graph.wf(),
        forall|i: int| 0 <= i < group.len() ==> group[i] < graph@.categories.len(),
    ensures
        r == exists|i: int|
            0 <= i < group.len() && graph@.categories[(#[trigger] group[i]) as int].contains(b),
{
    let mut i: usize = 0;
    while i < group.len()
        invariant
            graph.wf(),
            i <= group.len(),
            forall|k: int| 0 <= k < group.len() ==> group[k] < graph@.categories.len(),
            forall|k: int|
                0 <= k < i ==> !graph@.categories[(#[trigger] group[k]) as int].contains(b),
        decreases group.len() - i,
    {
        match graph.genres_of(group[i]) {
            Some(own) => {
                if contains_id(own, b) {
                    return true;
                }
            },
            None => {},
        }
        i += 1;
    }
    false
}

/// For each label, the other labels that share at least one node with it, in ascending
/// order. The relation is symmetric, and no label is linked to itself.
pub fn genre_connectivity_map(graph: &Graph) -> (links: Vec<Vec<usize>>)
    requires
        graph.wf(),
    ensures
        is_connectivity(graph@.categories, graph@.labels.len(), Seq::new(links.len() as nat, |a: int| links[a]@)),
{
    let ghost categories = graph@.categories;
    let groups = group_by_label(graph);
    let ghost grouping = Seq::new(groups.len() as nat, |a: int| groups[a]@);
    let label_count = graph.label_count();
    let n = graph.node_count();
    let mut links: Vec<Vec<usize>> = Vec::new();
    let mut a: usize = 0;
    while a < label_count
        invariant
            graph.wf(),
            categories == graph@.categories,
            n == categories.len(),
            label_count == graph@.labels.len(),
            grouping == Seq::new(groups.len() as nat, |a: int| groups[a]@),
            is_grouping(categories, label_count as nat, grouping),
            a <= label_count,
            links.len() == a,
            forall|c: int| 0 <= c < links.len() ==> ascending((#[trigger] links[c])@),
            forall|c: int, b: usize|
                0 <= c < links.len() ==> (#[trigger] links[c]@.contains(b) <==> b < label_count && b
                    != c && shares_member(categories, c as usize, b)),
        decreases label_count - a,
    {
        let mut row: Vec<usize> = Vec::new();
        let mut b: usize = 0;
        assert(grouping[a as int] == groups[a as int]@);
        while b < label_count
            invariant
                graph.wf(),
                categories == graph@.categories,
                n == categories.len(),
                label_count == graph@.labels.len(),
                grouping == Seq::new(groups.len() as nat, |a: int| groups[a]@),
                is_grouping(categories, label_count as nat, grouping),
                a < label_count,
                b <= label_count,
                ascending(row@),
                forall|x: usize|
                    #[trigger] row@.contains(x) <==> x < b && x != a && shares_member(
                        categories,
                        a,
                        x,
                    ),
            decreases label_count - b,
        {
            let group = &groups[a];
            proof {
                assert(grouping[a as int] == group@);
                assert forall|i: int| 0 <= i < group.len() implies group[i] < categories.len() by {
                    assert(grouping[a as int].contains(group[i]));
                }
            }
            let shared = b != a && any_carries(graph, group, b);
            let ghost before = row@;
            proof {
                if b != a {
                    if shares_member(categories, a, b) {
                        let e = choose|e: int|
                            0 <= e < categories.len() && (#[trigger] categories[e]).contains(a)
                                && categories[e].contains(b);
                        assert(grouping[a as int].contains(e as usize));
                        let i = choose|i: int| 0 <= i < group.len() && group[i] == e as usize;
                        assert(categories[group[i] as int].contains(b));
                    }
                    if shared {
                        let i = choose|i: int|
                            0 <= i < group.len() && categories[(#[trigger] group[i]) as int].contains(
                                b,
                            );
                        assert(grouping[a as int].contains(group[i]));
                        assert(categories[group[i] as int].contains(a));
                    }
                }
                assert(shared <==> b != a && shares_member(categories, a, b));
            }
            if shared {
                row.push(b);
                proof {
                    assert forall|p: int, q: int| 0 <= p < q < row.len() implies row[p] < row[q] by {
                        if q == row.len() - 1 {
                            assert(before.contains(row[p]));
                        } else {
                            assert(row[p] == before[p] && row[q] == before[q]);
                        }
                    }
                    assert(row@[row.len() - 1] == b);
                }
            }
            proof {
                assert forall|x: usize| #[trigger]
                    row@.contains(x) <==> x < b + 1 && x != a && shares_member(
                        categories,
                        a,
                        x,
                    ) by {
                    if row@.contains(x) {
                        let p = choose|p: int| 0 <= p < row.len() && row[p] == x;
                        if p < before.len() {
                            assert(before[p] == x);
                            assert(before.contains(x));
                        }
                    }
                    if before.contains(x) {
                        let p = choose|p: int| 0 <= p < before.len() && before[p] == x;
                        assert(row[p] == x);
                    }
                }
            }
            b += 1;
        }
        let ghost done = Seq::new(links.len() as nat, |c: int| links[c]@);
        links.push(row);
        proof {
            assert forall|c: int, x: usize| 0 <= c < links.len() implies (
            #[trigger] links[c]@.contains(x) <==> x < label_count && x != c && shares_member(
                categories,
                c as usize,
                x,
            )) by {
                if c < a {
                    assert(links[c]@ == done[c]);
                }
            }
            assert forall|c: int| 0 <= c < links.len() implies ascending((#[trigger] links[c])@) by {
                if c < a {
                    assert(links[c]@ == done[c]);
                }
            }
        }
        a += 1;
    }
    links
}

/// Whether `v` is an entity: a node with a recorded numeric attribute.
pub open spec fn is_entity(attrs: Seq<Option<u64>>, v: usize) -> bool {
    v < attrs.len() && attrs[v as int] is Some
}

/// Some edge leads from `u` to `v`.
pub open spec fn adjacent(adj: Adjacency, u: usize, v: usize) -> bool {
    u < adj.len() && exists|k: int| 0 <= k < adj[u as int].len() && (#[trigger] adj[u as int][k]).0 == v
}

/// `path` is a chain of entities, each joined to the next by an edge.
pub open spec fn is_entity_path(adj: Adjacency, attrs: Seq<Option<u64>>, path: Seq<usize>) -> bool {
    &&& path.len() > 0
    &&& forall|i: int| 0 <= i < path.len() ==> is_entity(attrs, #[trigger] path[i])
    &&& forall|i: int| 0 <= i < path.len() - 1 ==> adjacent(adj, #[trigger] path[i], path[i + 1])
}

/// A path of edges between entities leads from `u` to `v`.
pub open spec fn connected(adj: Adjacency, attrs: Seq<Option<u64>>, u: usize, v: usize) -> bool {
    exists|path: Seq<usize>| #[trigger]
        is_entity_path(adj, attrs, path) && path[0] == u && path.last() == v
}

/// `ids` numbers the connected components of the entities and `roots` names the first node
/// of each: exactly the entities have a number; two entities have the same number if and
/// only if they are connected; the components are numbered from 0 in the order of their
/// first nodes.
pub open spec fn is_component_labeling(
    adj: Adjacency,
    attrs: Seq<Option<u64>>,
    ids: Seq<Option<usize>>,
    roots: Seq<usize>,
) -> bool {
    &&& ids.len() == adj.len()
    &&& forall|v: int| 0 <= v < ids.len() ==> ((#[trigger] ids[v]) is Some <==> is_entity(attrs, v as usize))
    &&& forall|u: int, v: int|
        0 <= u < ids.len() && 0 <= v < ids.len() && (#[trigger] ids[u]) is Some && (
        #[trigger] ids[v]) is Some ==> (ids[u] == ids[v] <==> connected(
            adj,
            attrs,
            u as usize,
            v as usize,
        ))
    &&& forall|v: int| 0 <= v < ids.len() && (#[trigger] ids[v]) is Some ==> ids[v]->0 < roots.len() && roots[ids[v]->0 as int] <= v
    &&& forall|c: int| 0 <= c < roots.len() ==> (#[trigger] roots[c]) < ids.len() && ids[roots[c] as int] == Some(c as usize)
    &&& ascending(roots)
}

/// The neighbor at position `k` of `x`, if it is an entity, has the number of `x`.
spec fn link_agrees(
    adj: Adjacency,
    attrs: Seq<Option<u64>>,
    ids: Seq<Option<usize>>,
    x: int,
    k: int,
) -> bool {
    is_entity(attrs, adj[x][k].0) ==> ids[adj[x][k].0 as int] == ids[x]
}

/// Every neighbor of `x` that is an entity has the number of `x`.
spec fn closed_at(adj: Adjacency, attrs: Seq<Option<u64>>, ids: Seq<Option<usize>>, x: int) -> bool {
    forall|k: int| 0 <= k < adj[x].len() ==> #[trigger] link_agrees(adj, attrs, ids, x, k)
}

/// An entity is connected to itself.
pub proof fn lemma_connected_self(adj: Adjacency, attrs: Seq<Option<u64>>, u: usize)
    requires
        is_entity(attrs, u),
    ensures
        connected(adj, attrs, u, u),
{
    let path = seq![u];
    assert(is_entity_path(adj, attrs, path));
    assert(path[0] == u && path.last() == u);
}

/// A connection can be taken one edge further, to an entity.
pub proof fn lemma_connected_step(
    adj: Adjacency,
    attrs: Seq<Option<u64>>,
    u: usize,
    x: usize,
    y: usize,
)
    requires
        connected(adj, attrs, u, x),
        adjacent(adj, x, y),
        is_entity(attrs, y),
    ensures
        connected(adj, attrs, u, y),
{
    let path = choose|path: Seq<usize>| #[trigger]
        is_entity_path(adj, attrs, path) && path[0] == u && path.last() == x;
    let longer = path.push(y);
    assert forall|i: int| 0 <= i < longer.len() - 1 implies adjacent(
        adj,
        #[trigger] longer[i],
        longer[i + 1],
    ) by {
        if i < path.len() - 1 {
            assert(adjacent(adj, path[i], path[i + 1]));
        }
    }
    assert(is_entity_path(adj, attrs, longer));
    assert(longer[0] == u && longer.last() == y);
}

/// In an undirected graph an edge can be taken both ways.
pub proof fn lemma_adjacent_symmetric(adj: Adjacency, u: usize, v: usize)
    requires
        links_in_range(adj),
        undirected(adj),
        adjacent(adj, u, v),
    ensures
        adjacent(adj, v, u),
{
    let k = choose|k: int| 0 <= k < adj[u as int].len() && (#[trigger] adj[u as int][k]).0 == v;
    let back = (u, adj[u as int][k].1);
    assert(adj[adj[u as int][k].0 as int].contains(back));
    let j = choose|j: int| 0 <= j < adj[v as int].len() && adj[v as int][j] == back;
    assert(adj[v as int][j].0 == u);
}

/// In an undirected graph, being connected is symmetric.
pub proof fn lemma_connected_symmetric(adj: Adjacency, attrs: Seq<Option<u64>>, u: usize, v: usize)
    requires
        links_in_range(adj),
        undirected(adj),
        connected(adj, attrs, u, v),
    ensures
        connected(adj, attrs, v, u),
{
    let path = choose|path: Seq<usize>| #[trigger]
        is_entity_path(adj, attrs, path) && path[0] == u && path.last() == v;
    let back = path.reverse();
    assert forall|i: int| 0 <= i < back.len() implies is_entity(attrs, #[trigger] back[i]) by {
        assert(back[i] == path[path.len() - 1 - i]);
    }
    assert forall|i: int| 0 <= i < back.len() - 1 implies adjacent(
        adj,
        #[trigger] back[i],
        back[i + 1],
    ) by {
        let j = path.len() - 2 - i;
        assert(back[i] == path[j + 1] && back[i + 1] == path[j]);
        assert(adjacent(adj, path[j], path[j + 1]));
        lemma_adjacent_symmetric(adj, path[j], path[j + 1]);
    }
    assert(is_entity_path(adj, attrs, back));
    assert(back[0] == v && back.last() == u);
}

/// Being connected is transitive.
pub proof fn lemma_connected_transitive(
    adj: Adjacency,
    attrs: Seq<Option<u64>>,
    u: usize,
    v: usize,
    w: usize,
)
    requires
        connected(adj, attrs, u, v),
        connected(adj, attrs, v, w),
    ensures
        connected(adj, attrs, u, w),
{
    let first = choose|path: Seq<usize>| #[trigger]
        is_entity_path(adj, attrs, path) && path[0] == u && path.last() == v;
    let second = choose|path: Seq<usize>| #[trigger]
        is_entity_path(adj, attrs, path) && path[0] == v && path.last() == w;
    let joined = first + second.drop_first();
    assert forall|i: int| 0 <= i < joined.len() implies is_entity(attrs, #[trigger] joined[i]) by {
        if i >= first.len() {
            assert(joined[i] == second[i - first.len() + 1]);
        }
    }
    assert forall|i: int| 0 <= i < joined.len() - 1 implies adjacent(
        adj,
        #[trigger] joined[i],
        joined[i + 1],
    ) by {
        if i < first.len() - 1 {
            assert(adjacent(adj, first[i], first[i + 1]));
        } else {
            let j = i - first.len() + 1;
            assert(joined[i] == second[j]);
            assert(joined[i + 1] == second[j + 1]);
            assert(adjacent(adj, second[j], second[j + 1]));
        }
    }
    assert(is_entity_path(adj, attrs, joined));
    assert(joined[0] == u);
    if second.len() == 1 {
        assert(joined.last() == first.last());
    } else {
        assert(joined.last() == second.last());
    }
}

/// Where every numbered node agrees with its entity neighbors, the number is the same
/// all along a path of entities.
proof fn lemma_number_constant_on_path(
    adj: Adjacency,
    attrs: Seq<Option<u64>>,
    ids: Seq<Option<usize>>,
    path: Seq<usize>,
    i: int,
)
    requires
        ids.len() == adj.len(),
        attrs.len() == adj.len(),
        is_entity_path(adj, attrs, path),
        forall|v: int| 0 <= v < ids.len() && is_entity(attrs, v as usize) ==> closed_at(adj, attrs, ids, v),
        0 <= i < path.len(),
    ensures
        ids[path[i] as int] == ids[path[0] as int],
    decreases i,
{
    if i > 0 {
        lemma_number_constant_on_path(adj, attrs, ids, path, i - 1);
        let x = path[i - 1];
        let y = path[i];
        assert(is_entity(attrs, x));
        assert(is_entity(attrs, y));
        assert(adjacent(adj, x, path[i - 1 + 1]));
        let k = choose|k: int| 0 <= k < adj[x as int].len() && (#[trigger] adj[x as int][k]).0 == y;
        assert(closed_at(adj, attrs, ids, x as int));
        assert(link_agrees(adj, attrs, ids, x as int, k));
    }
}

/// The components partition the entities: every entity lies in exactly one component, and
/// in it together with exactly the entities it is connected to.
pub proof fn lemma_components_partition(
    adj: Adjacency,
    attrs: Seq<Option<u64>>,
    ids: Seq<Option<usize>>,
    roots: Seq<usize>,
    v: usize,
)
    requires
        is_component_labeling(adj, attrs, ids, roots),
        v < ids.len(),
        is_entity(attrs, v),
    ensures
        exists|c: usize| c < roots.len() && ids[v as int] == Some(c),
        forall|c: usize, d: usize|
            ids[v as int] == Some(c) && ids[v as int] == Some(d) ==> c == d,
        forall|u: int|
            0 <= u < ids.len() && is_entity(attrs, u as usize) ==> (#[trigger] ids[u] == ids[v as int]
                <==> connected(adj, attrs, u as usize, v)),
{
    assert(ids[v as int] is Some);
    let c = ids[v as int]->0;
    assert(c < roots.len() && ids[v as int] == Some(c));
    assert forall|u: int| 0 <= u < ids.len() && is_entity(attrs, u as usize) implies (
    #[trigger] ids[u] == ids[v as int] <==> connected(adj, attrs, u as usize, v)) by {
        assert(ids[u] is Some);
    }
}

/// The connected components of the entities of a graph.
pub struct Components {
    /// For each node the number of its component; `None` for a node that is no entity.
    pub ids: Vec<Option<usize>>,
    /// For each component its first node.
    pub roots: Vec<usize>,
}

/// Finds the connected components of the entities by a depth-first traversal from each
/// entity not yet numbered. Only entities are entered; nodes that are no entity get no
/// number. Components are numbered from 0 in the order in which they are first met.
pub fn connected_components(graph: &Graph) -> (found: Components)
    requires
        graph.wf(),
    ensures
        is_component_labeling(graph@.adjacency, graph@.attributes, found.ids@, found.roots@),
{
    let ghost adj = graph@.adjacency;
    let ghost attrs = graph@.attributes;
    let n = graph.node_count();
    let mut ids: Vec<Option<usize>> = Vec::new();
    while ids.len() < n
        invariant
            ids.len() <= n,
            forall|j: int| 0 <= j < ids.len() ==> ids[j] is None,
        decreases n - ids.len(),
    {
        ids.push(None);
    }
    let mut roots: Vec<usize> = Vec::new();
    let mut root: usize = 0;
    while root < n
        invariant
            graph.wf(),
            adj == graph@.adjacency,
            attrs == graph@.attributes,
            n == adj.len(),
            ids.len() == n,
            root <= n,
            forall|v: int|
                0 <= v < n && (#[trigger] ids[v]) is Some ==> is_entity(attrs, v as usize)
                    && ids[v]->0 < roots.len() && roots[ids[v]->0 as int] <= v && connected(
                    adj,
                    attrs,
                    roots[ids[v]->0 as int],
                    v as usize,
                ) && closed_at(adj, attrs, ids@, v),
            forall|v: int| 0 <= v < root && is_entity(attrs, v as usize) ==> (#[trigger] ids[v]) is Some,
            forall|c: int|
                0 <= c < roots.len() ==> (#[trigger] roots[c]) < root && ids[roots[c] as int]
                    == Some(c as usize),
            ascending(roots@),
        decreases n - root,
    {
        if graph.is_member(root) && ids[root].is_none() {
            let c = roots.len();
            let ghost roots0 = roots@;
            let ghost ids0 = ids@;
            roots.push(root);
            ids[root] = Some(c);
            let mut stack: Vec<usize> = Vec::new();
            stack.push(root);
            proof {
                lemma_connected_self(adj, attrs, root);
                lemma_unmarked_update(ids0, root as int, c);
                assert(stack@[0] == root);
                assert(stack@.contains(root));
                assert forall|v: int| 0 <= v < n && (#[trigger] ids[v]) is Some implies is_entity(
                    attrs,
                    v as usize,
                ) && ids[v]->0 < roots.len() && roots[ids[v]->0 as int] <= v && connected(
                    adj,
                    attrs,
                    roots[ids[v]->0 as int],
                    v as usize,
                ) && (closed_at(adj, attrs, ids@, v) || (ids[v] == Some(c) && stack@.contains(
                    v as usize,
                ))) by {
                    if v != root {
                        assert(ids0[v] is Some);
                        assert(roots[ids0[v]->0 as int] == roots0[ids0[v]->0 as int]);
                        assert(closed_at(adj, attrs, ids0, v));
                        assert forall|k: int| 0 <= k < adj[v].len() implies #[trigger] link_agrees(
                            adj,
                            attrs,
                            ids@,
                            v,
                            k,
                        ) by {
                            assert(link_agrees(adj, attrs, ids0, v, k));
                        }
                    }
                }
                assert forall|p: int, q: int| 0 <= p < q < roots.len() implies roots[p] < roots[q] by {
                    assert(roots[p] == roots0[p]);
                    if q < roots0.len() {
                        assert(roots[q] == roots0[q]);
                    }
                }
            }
            while stack.len() > 0
                invariant
                    graph.wf(),
                    adj == graph@.adjacency,
                    attrs == graph@.attributes,
                    n == adj.len(),
                    ids.len() == n,
                    root < n,
                    roots.len() == c + 1,
                    roots[c as int] == root,
                    forall|i: int| 0 <= i < stack.len() ==> (#[trigger] stack[i]) < n && ids[stack[i] as int] == Some(c),
                    forall|v: int|
                        0 <= v < n && (#[trigger] ids[v]) is Some ==> is_entity(attrs, v as usize)
                            && ids[v]->0 < roots.len() && roots[ids[v]->0 as int] <= v && connected(
                            adj,
                            attrs,
                            roots[ids[v]->0 as int],
                            v as usize,
                        ) && (closed_at(adj, attrs, ids@, v) || (ids[v] == Some(c) && stack@.contains(
                            v as usize,
                        ))),
                    forall|v: int|
                        0 <= v <= root && is_entity(attrs, v as usize) ==> (#[trigger] ids[v]) is Some,
                    forall|k: int|
                        0 <= k < roots.len() ==> (#[trigger] roots[k]) <= root && ids[roots[k] as int]
                            == Some(k as usize),
                    ascending(roots@),
                decreases unmarked(ids@) + stack.len(),
            {
                let ghost stack0 = stack@;
                let x = stack.pop().unwrap();
                assert(x == stack0[stack0.len() - 1]);
                let list = graph.edges_at(x);
                proof {
                    assert forall|v: int| 0 <= v < n && (#[trigger] ids[v]) is Some && v != x
                        && !closed_at(adj, attrs, ids@, v) implies stack@.contains(v as usize) by {
                        let i = choose|i: int| 0 <= i < stack0.len() && stack0[i] == v as usize;
                        assert(stack@[i] == v as usize);
                    }
                }
                let ghost total = unmarked(ids@) + stack.len();
                let mut k: usize = 0;
                while k < list.len()
                    invariant
                        graph.wf(),
                        adj == graph@.adjacency,
                        attrs == graph@.attributes,
                        n == adj.len(),
                        ids.len() == n,
                        root < n,
                        x < n,
                        ids[x as int] == Some(c),
                        list@ == adj[x as int],
                        k <= list.len(),
                        roots.len() == c + 1,
                        roots[c as int] == root,
                        forall|i: int| 0 <= i < stack.len() ==> (#[trigger] stack[i]) < n && ids[stack[i] as int] == Some(c),
                        forall|v: int|
                            0 <= v < n && (#[trigger] ids[v]) is Some ==> is_entity(
                                attrs,
                                v as usize,
                            ) && ids[v]->0 < roots.len() && roots[ids[v]->0 as int] <= v
                                && connected(adj, attrs, roots[ids[v]->0 as int], v as usize) && (
                            closed_at(adj, attrs, ids@, v) || (ids[v] == Some(c) && stack@.contains(
                                v as usize,
                            )) || v == x),
                        forall|j: int| 0 <= j < k ==> #[trigger] link_agrees(adj, attrs, ids@, x as int, j),
                        forall|v: int|
                            0 <= v <= root && is_entity(attrs, v as usize) ==> (
                            #[trigger] ids[v]) is Some,
                        forall|j: int|
                            0 <= j < roots.len() ==> (#[trigger] roots[j]) <= root && ids[roots[j] as int]
                                == Some(j as usize),
                        ascending(roots@),
                        unmarked(ids@) + stack.len() == total,
                    decreases list.len() - k,
                {
                    let y = list[k].0;
                    assert(adj[x as int][k as int].0 == y);
                    assert(y < n);
                    if graph.is_member(y) {
                        if ids[y].is_none() {
                            let ghost ids1 = ids@;
                            let ghost stack1 = stack@;
                            ids[y] = Some(c);
                            stack.push(y);
                            proof {
                                lemma_unmarked_update(ids1, y as int, c);
                                assert(adjacent(adj, x, y));
                                lemma_connected_step(adj, attrs, root, x, y);
                                assert(stack@[stack1.len() as int] == y);
                                assert forall|i: int| 0 <= i < stack.len() implies (
                                #[trigger] stack[i]) < n && ids[stack[i] as int] == Some(c) by {
                                    if i < stack1.len() {
                                        assert(stack[i] == stack1[i]);
                                    }
                                }
                                assert forall|v: int| 0 <= v < n && (#[trigger] ids[v]) is Some implies is_entity(
                                    attrs,
                                    v as usize,
                                ) && ids[v]->0 < roots.len() && roots[ids[v]->0 as int] <= v
                                    && connected(adj, attrs, roots[ids[v]->0 as int], v as usize)
                                    && (closed_at(adj, attrs, ids@, v) || (ids[v] == Some(c)
                                    && stack@.contains(v as usize)) || v == x) by {
                                    if v == y {
                                        assert(stack@.contains(y));
                                        if y < root {
                                            assert(ids1[y as int] is Some);
                                        }
                                    } else {
                                        assert(ids1[v] is Some);
                                        if closed_at(adj, attrs, ids1, v) {
                                            assert forall|j: int| 0 <= j < adj[v].len() implies #[trigger] link_agrees(
                                                adj, attrs, ids@, v, j) by {
                                                assert(link_agrees(adj, attrs, ids1, v, j));
                                            }
                                        } else if ids1[v] == Some(c) && stack1.contains(v as usize) {
                                            let i = choose|i: int|
                                                0 <= i < stack1.len() && stack1[i] == v as usize;
                                            assert(stack@[i] == v as usize);
                                        }
                                    }
                                }
                                assert forall|j: int| 0 <= j < k + 1 implies #[trigger] link_agrees(
                                    adj, attrs, ids@, x as int, j) by {
                                    if j < k {
                                        assert(link_agrees(adj, attrs, ids1, x as int, j));
                                    }
                                }
                            }
                        } else {
                            proof {
                                if ids[y as int] != Some(c) {
                                    assert(closed_at(adj, attrs, ids@, y as int));
                                    lemma_adjacent_symmetric(adj, x, y);
                                    let j = choose|j: int|
                                        0 <= j < adj[y as int].len() && (#[trigger] adj[y as int][j]).0 == x;
                                    assert(link_agrees(adj, attrs, ids@, y as int, j));
                                }
                                assert(link_agrees(adj, attrs, ids@, x as int, k as int));
                            }
                        }
                    } else {
                        assert(link_agrees(adj, attrs, ids@, x as int, k as int));
                    }
                    k += 1;
                }
                proof {
                    assert(closed_at(adj, attrs, ids@, x as int));
                }
            }
        }
        root += 1;
    }
    proof {
        assert forall|v: int| 0 <= v < ids.len() && is_entity(attrs, v as usize) implies closed_at(
            adj, attrs, ids@, v) by {
            assert(ids[v] is Some);
        }
        assert forall|u: int, v: int|
            0 <= u < ids.len() && 0 <= v < ids.len() && (#[trigger] ids[u]) is Some && (
            #[trigger] ids[v]) is Some implies (ids[u] == ids[v] <==> connected(
            adj,
            attrs,
            u as usize,
            v as usize,
        )) by {
            if connected(adj, attrs, u as usize, v as usize) {
                let path = choose|path: Seq<usize>| #[trigger]
                    is_entity_path(adj, attrs, path) && path[0] == u as usize && path.last()
                        == v as usize;
                lemma_number_constant_on_path(adj, attrs, ids@, path, path.len() - 1);
            }
            if ids[u] == ids[v] {
                let r = roots[ids[u]->0 as int];
                lemma_connected_symmetric(adj, attrs, r, u as usize);
                lemma_connected_transitive(adj, attrs, u as usize, r, v as usize);
            }
        }
    }
    Components { ids, roots }
}

/// By what the nodes are grouped into communities.
#[derive(Debug, Clone, Copy, PartialEq, Eq)]
pub enum Clustering {
    /// By category label: a group for each label, of the nodes that carry it.
    ByLabel,
    /// By connectivity: a group for each connected component of the entities.
    ByConnectivity,
}

/// Some group of `groups` holds `v`.
pub open spec fn grouped(groups: Seq<Seq<usize>>, v: usize) -> bool {
    exists|c: int| 0 <= c < groups.len() && #[trigger] groups[c].contains(v)
}

/// `groups` are the connected components of the entities: every entity lies in exactly
/// one group and no other node in any; two entities lie in the same group if and only if
/// a path of edges through entities joins them; and the groups, each in the order of the
/// nodes, stand in the order of their first nodes.
pub open spec fn is_component_grouping(
    adj: Adjacency,
    attrs: Seq<Option<u64>>,
    groups: Seq<Seq<usize>>,
) -> bool {
    &&& forall|c: int|
        0 <= c < groups.len() ==> ascending(#[trigger] groups[c]) && groups[c].len() > 0
    &&& forall|c: int, v: usize|
        0 <= c < groups.len() && #[trigger] groups[c].contains(v) ==> is_entity(attrs, v)
    &&& forall|v: usize| #[trigger] is_entity(attrs, v) ==> grouped(groups, v)
    &&& forall|c: int, d: int, u: usize, v: usize|
        0 <= c < groups.len() && 0 <= d < groups.len() && #[trigger] groups[c].contains(u)
            && #[trigger] groups[d].contains(v) ==> (c == d <==> connected(adj, attrs, u, v))
    &&& forall|c: int, d: int|
        0 <= c < d < groups.len() ==> (#[trigger] groups[c])[0] < (#[trigger] groups[d])[0]
}

/// `groups` are the communities of the graph under `strategy`.
pub open spec fn is_communities(
    adj: Adjacency,
    attrs: Seq<Option<u64>>,
    categories: Seq<Seq<usize>>,
    label_count: nat,
    strategy: Clustering,
    groups: Seq<Seq<usize>>,
) -> bool {
    match strategy {
        Clustering::ByLabel => is_grouping(categories, label_count, groups),
        Clustering::ByConnectivity => is_component_grouping(adj, attrs, groups),
    }
}

/// The components are a partition of the entities: every entity lies in a group, and in
/// no two.
pub proof fn lemma_exactly_one_group(
    adj: Adjacency,
    attrs: Seq<Option<u64>>,
    groups: Seq<Seq<usize>>,
    v: usize,
)
    requires
        is_component_grouping(adj, attrs, groups),
        is_entity(attrs, v),
    ensures
        grouped(groups, v),
        forall|c: int, d: int|
            0 <= c < groups.len() && 0 <= d < groups.len() && #[trigger] groups[c].contains(v)
                && #[trigger] groups[d].contains(v) ==> c == d,
{
    lemma_connected_self(adj, attrs, v);
}

/// The nodes of component `c`, in the order of the nodes.
fn members_of(found: &Components, c: usize) -> (group: Vec<usize>)
    ensures
        ascending(group@),
        forall|v: usize|
            #[trigger] group@.contains(v) <==> v < found.ids.len() && found.ids[v as int] == Some(c),
{
    let mut group: Vec<usize> = Vec::new();
    let mut v: usize = 0;
    while v < found.ids.len()
        invariant
            v <= found.ids.len(),
            ascending(group@),
            forall|x: usize| #[trigger] group@.contains(x) <==> x < v && found.ids[x as int] == Some(c),
        decreases found.ids.len() - v,
    {
        let ghost before = group@;
        let belongs = match found.ids[v] {
            Some(id) => id == c,
            None => false,
        };
        if belongs {
            group.push(v);
            proof {
                assert(group@[group.len() - 1] == v);
                assert forall|p: int, q: int| 0 <= p < q < group.len() implies group[p] < group[q] by {
                    if q == group.len() - 1 {
                        assert(before.contains(group[p]));
                    }
                }
            }
        }
        proof {
            assert forall|x: usize| #[trigger]
                group@.contains(x) <==> x < v + 1 && found.ids[x as int] == Some(c) by {
                if group@.contains(x) {
                    let p = choose|p: int| 0 <= p < group.len() && group[p] == x;
                    if p < before.len() {
                        assert(before.contains(x));
                    }
                }
                if before.contains(x) {
                    let p = choose|p: int| 0 <= p < before.len() && before[p] == x;
                    assert(group[p] == x);
                }
            }
        }
        v += 1;
    }
    group
}

/// Finds the communities of the graph under `strategy`. By label: for each label the nodes
/// that carry it, so that a node with several labels appears in several groups. By
/// connectivity: the connected components of the entities, numbered in the order in which
/// they are first met, so that every entity appears in exactly one group.
pub fn find_communities(graph: &Graph, strategy: Clustering) -> (groups: Vec<Vec<usize>>)
    requires
        graph.wf(),
    ensures
        is_communities(
            graph@.adjacency,
            graph@.attributes,
            graph@.categories,
            graph@.labels.len(),
            strategy,
            Seq::new(groups.len() as nat, |a: int| groups[a]@),
        ),
{
    match strategy {
        Clustering::ByLabel => group_by_label(graph),
        Clustering::ByConnectivity => {
            let ghost adj = graph@.adjacency;
            let ghost attrs = graph@.attributes;
            let n = graph.node_count();
            let found = connected_components(graph);
            let mut groups: Vec<Vec<usize>> = Vec::new();
            let mut c: usize = 0;
            while c < found.roots.len()
                invariant
                    c <= found.roots.len(),
                    groups.len() == c,
                    forall|b: int| 0 <= b < c ==> ascending((#[trigger] groups[b])@),
                    forall|b: int, v: usize|
                        0 <= b < c ==> (#[trigger] groups[b]@.contains(v) <==> v < found.ids.len()
                            && found.ids[v as int] == Some(b as usize)),
                decreases found.roots.len() - c,
            {
                let group = members_of(&found, c);
                let ghost before = Seq::new(groups.len() as nat, |a: int| groups[a]@);
                groups.push(group);
                proof {
                    assert forall|b: int| 0 <= b < c + 1 implies ascending((#[trigger] groups[b])@) by {
                        if b < c {
                            assert(groups[b]@ == before[b]);
                        }
                    }
                    assert forall|b: int, v: usize| 0 <= b < c + 1 implies (
                    #[trigger] groups[b]@.contains(v) <==> v < found.ids.len() && found.ids[v as int]
                        == Some(b as usize)) by {
                        if b < c {
                            assert(groups[b]@ == before[b]);
                        }
                    }
                }
                c += 1;
            }
            proof {
                let ids = found.ids@;
                let roots = found.roots@;
                let listed = Seq::new(groups.len() as nat, |a: int| groups[a]@);
                assert(is_component_labeling(adj, attrs, ids, roots));
                assert(attrs.len() == n && ids.len() == n);
                assert forall|b: int| 0 <= b < listed.len() implies (#[trigger] listed[b]).contains(
                    roots[b],
                ) && listed[b][0] == roots[b] by {
                    assert(ids[roots[b] as int] == Some(b as usize));
                    assert(groups[b]@.contains(roots[b]));
                    let first = listed[b][0];
                    assert(listed[b].contains(first));
                    assert(groups[b]@.contains(first));
                    assert(ids[first as int] == Some(b as usize));
                    assert(roots[ids[first as int]->0 as int] <= first);
                    let at = choose|at: int| 0 <= at < listed[b].len() && listed[b][at] == roots[b];
                    if at > 0 {
                        assert(listed[b][0] < listed[b][at]);
                    }
                }
                assert forall|b: int| 0 <= b < listed.len() implies ascending(#[trigger] listed[b])
                    && listed[b].len() > 0 by {
                    assert(listed[b].contains(roots[b]));
                }
                assert forall|b: int, v: usize|
                    0 <= b < listed.len() && #[trigger] listed[b].contains(v) implies is_entity(
                    attrs,
                    v,
                ) by {
                    assert(groups[b]@.contains(v));
                    assert(ids[v as int] is Some);
                }
                assert forall|v: usize| #[trigger] is_entity(attrs, v) implies grouped(listed, v) by {
                    assert(ids[v as int] is Some);
                    let b = ids[v as int]->0 as int;
                    assert(groups[b]@.contains(v));
                    assert(listed[b].contains(v));
                }
                assert forall|b: int, d: int, u: usize, v: usize|
                    0 <= b < listed.len() && 0 <= d < listed.len() && #[trigger] listed[b].contains(
                        u,
                    ) && #[trigger] listed[d].contains(v) implies (b == d <==> connected(
                    adj,
                    attrs,
                    u,
                    v,
                )) by {
                    assert(groups[b]@.contains(u));
                    assert(groups[d]@.contains(v));
                    assert(ids[u as int] == Some(b as usize));
                    assert(ids[v as int] == Some(d as usize));
                    assert(ids[u as int] == ids[v as int] <==> connected(adj, attrs, u, v));
                }
                assert forall|b: int, d: int| 0 <= b < d < listed.len() implies (
                #[trigger] listed[b])[0] < (#[trigger] listed[d])[0] by {
                    assert(listed[b].contains(roots[b]) && listed[b][0] == roots[b]);
                    assert(listed[d].contains(roots[d]) && listed[d][0] == roots[d]);
                    assert(roots[b] < roots[d]);
                }
                assert(is_component_grouping(adj, attrs, listed));
            }
            groups
        },
    }
}

/// `list` holds the entities, in the order of the nodes.
pub open spec fn is_entity_list(attrs: Seq<Option<u64>>, list: Seq<usize>) -> bool {
    &&& ascending(list)
    &&& forall|v: usize| #[trigger] list.contains(v) <==> is_entity(attrs, v)
}

/// The entities of the graph, in the order of the nodes.
pub fn entities(graph: &Graph) -> (list: Vec<usize>)
    requires
        graph.wf(),
    ensures
        is_entity_list(graph@.attributes, list@),
{
    let ghost attrs = graph@.attributes;
    let n = graph.node_count();
    let mut list: Vec<usize> = Vec::new();
    let mut v: usize = 0;
    while v < n
        invariant
            graph.wf(),
            attrs == graph@.attributes,
            n == attrs.len(),
            v <= n,
            ascending(list@),
            forall|x: usize| #[trigger] list@.contains(x) <==> x < v && is_entity(attrs, x),
        decreases n - v,
    {
        let ghost before = list@;
        if graph.is_member(v) {
            list.push(v);
            proof {
                assert(list@[list.len() - 1] == v);
                assert forall|p: int, q: int| 0 <= p < q < list.len() implies list[p] < list[q] by {
                    if q == list.len() - 1 {
                        assert(before.contains(list[p]));
                    }
                }
            }
        }
        proof {
            assert forall|x: usize| #[trigger] list@.contains(x) <==> x < v + 1 && is_entity(attrs, x) by {
                if list@.contains(x) {
                    let p = choose|p: int| 0 <= p < list.len() && list[p] == x;
                    if p < before.len() {
                        assert(before.contains(x));
                    }
                }
                if before.contains(x) {
                    let p = choose|p: int| 0 <= p < before.len() && before[p] == x;
                    assert(list[p] == x);
                }
            }
        }
        v += 1;
    }
    list
}

/// An entity with its attribute `a` comes before `b` when ranked by attribute: the larger
/// attribute first, and of two equal ones the earlier node.
pub open spec fn outranks(a: (usize, u64), b: (usize, u64)) -> bool {
    a.1 > b.1 || (a.1 == b.1 && a.0 < b.0)
}

/// `top` holds the first `n` entities as ranked by descending attribute, each with its
/// attribute; all of them where there are fewer than `n`.
pub open spec fn is_top_ranking(attrs: Seq<Option<u64>>, n: nat, top: Seq<(usize, u64)>) -> bool {
    &&& top.len() <= n
    &&& forall|i: int|
        0 <= i < top.len() ==> is_entity(attrs, (#[trigger] top[i]).0) && attrs[top[i].0 as int]
            == Some(top[i].1)
    &&& forall|i: int, j: int| 0 <= i < j < top.len() ==> outranks(#[trigger] top[i], #[trigger] top[j])
    &&& forall|v: usize|
        #[trigger] is_entity(attrs, v) && (forall|i: int| 0 <= i < top.len() ==> (#[trigger] top[i]).0 != v)
            ==> top.len() == n && forall|i: int|
            0 <= i < top.len() ==> outranks(#[trigger] top[i], (v, attrs[v as int]->0))
}

/// The `n` entities with the largest numeric attribute, largest first, each with its
/// attribute. Entities with equal attributes keep the order of the nodes. The influence
/// score grows with the attribute, so this is the ranking by influence.
pub fn top_influential_artists(graph: &Graph, n: usize) -> (top: Vec<(usize, u64)>)
    requires
        graph.wf(),
    ensures
        is_top_ranking(graph@.attributes, n as nat, top@),
{
    let ghost attrs = graph@.attributes;
    let members = entities(graph);
    let mut keys: Vec<u128> = Vec::new();
    let mut lengths: Vec<u64> = Vec::new();
    let mut i: usize = 0;
    while i < members.len()
        invariant
            graph.wf(),
            attrs == graph@.attributes,
            is_entity_list(attrs, members@),
            i <= members.len(),
            keys.len() == i,
            lengths.len() == i,
            forall|j: int|
                0 <= j < i ==> members[j] < attrs.len() && attrs[members[j] as int] == Some(
                    #[trigger] lengths[j],
                ) && keys[j] == lengths[j],
        decreases members.len() - i,
    {
        assert(members@.contains(members[i as int]));
        let length = match graph.length_of(members[i]) {
            Some(length) => length,
            None => 0,
        };
        keys.push(length as u128);
        lengths.push(length);
        i += 1;
    }
    let order = rank_descending(&keys);
    let count = if n < members.len() { n } else { members.len() };
    let mut top: Vec<(usize, u64)> = Vec::new();
    let mut i: usize = 0;
    while i < count
        invariant
            count <= order.len(),
            order.len() == members.len(),
            lengths.len() == members.len(),
            is_ranking(keys@, order@),
            i <= count,
            top.len() == i,
            forall|j: int|
                0 <= j < i ==> (#[trigger] top[j]) == (
                    members[order[j] as int],
                    lengths[order[j] as int],
                ),
        decreases count - i,
    {
        top.push((members[order[i]], lengths[order[i]]));
        i += 1;
    }
    proof {
        assert forall|i: int| 0 <= i < top.len() implies is_entity(attrs, (#[trigger] top[i]).0)
            && attrs[top[i].0 as int] == Some(top[i].1) by {
            assert(members@.contains(members[order[i] as int]));
        }
        assert forall|i: int, j: int| 0 <= i < j < top.len() implies outranks(
            #[trigger] top[i],
            #[trigger] top[j],
        ) by {
            assert(ranks_before(keys@, order[i], order[j]));
            assert(keys[order[i] as int] == lengths[order[i] as int]);
            assert(keys[order[j] as int] == lengths[order[j] as int]);
            if order[i] < order[j] {
                assert(members[order[i] as int] < members[order[j] as int]);
            }
        }
        assert forall|v: usize|
            #[trigger] is_entity(attrs, v) && (forall|i: int|
                0 <= i < top.len() ==> (#[trigger] top[i]).0 != v) implies top.len() == n
            && forall|i: int|
            0 <= i < top.len() ==> outranks(#[trigger] top[i], (v, attrs[v as int]->0)) by {
            assert(members@.contains(v));
            let p = choose|p: int| 0 <= p < members.len() && members[p] == v;
            assert(order@.contains(p as usize));
            let q = choose|q: int| 0 <= q < order.len() && order[q] == p as usize;
            if q < top.len() {
                assert(top[q].0 == v);
            }
            assert(attrs[members[p] as int] == Some(lengths[p]));
            assert forall|i: int| 0 <= i < top.len() implies outranks(
                #[trigger] top[i],
                (v, attrs[v as int]->0),
            ) by {
                assert(ranks_before(keys@, order[i], order[q]));
                assert(keys[order[i] as int] == lengths[order[i] as int]);
                assert(keys[p] == lengths[p]);
                if order[i] < order[q] {
                    assert(members[order[i] as int] < members[p]);
                }
            }
        }
    }
    top
}

/// The labels other than `a` that share a node with `a`.
pub open spec fn linked_labels(categories: Seq<Seq<usize>>, label_count: nat, a: usize) -> Set<
    usize,
> {
    Set::new(|b: usize| b < label_count && b != a && shares_member(categories, a, b))
}

/// The number of labels other than `a` that share a node with `a`.
pub open spec fn link_count(categories: Seq<Seq<usize>>, label_count: nat, a: usize) -> nat {
    linked_labels(categories, label_count, a).len()
}

/// The sum, over the labels in `own`, of the number of labels each is linked to.
pub open spec fn breadth(categories: Seq<Seq<usize>>, label_count: nat, own: Seq<usize>) -> nat
    decreases own.len(),
{
    if own.len() == 0 {
        0
    } else {
        breadth(categories, label_count, own.drop_last()) + link_count(
            categories,
            label_count,
            own.last(),
        )
    }
}

/// A row of the connectivity map is as long as the number of labels its label is linked to.
pub proof fn lemma_row_length(
    categories: Seq<Seq<usize>>,
    label_count: nat,
    links: Seq<Seq<usize>>,
    a: usize,
)
    requires
        is_connectivity(categories, label_count, links),
        a < label_count,
    ensures
        links[a as int].len() == link_count(categories, label_count, a),
{
    let row = links[a as int];
    let linked = linked_labels(categories, label_count, a);
    assert(ascending(row));
    assert(row.no_duplicates());
    assert forall|b: usize| row.to_set().contains(b) <==> linked.contains(b) by {
        assert(row.contains(b) <==> b < label_count && b != a && shares_member(categories, a, b));
    }
    assert(row.to_set() =~= linked);
    row.unique_seq_to_set();
}

/// What the priority of an entity for labeling is made of. The priority is the breadth
/// times the influence of the entity, which grows with its attribute.
#[derive(Debug, Clone, Copy, PartialEq, Eq)]
pub struct LabelingTarget {
    /// The entity.
    pub node: usize,
    /// Its numeric attribute.
    pub length: u64,
    /// The sum, over its labels, of the number of other labels each is linked to.
    pub connectivity: u128,
}

/// Whether `t` describes an entity of the graph.
pub open spec fn is_labeling_target(
    attrs: Seq<Option<u64>>,
    categories: Seq<Seq<usize>>,
    label_count: nat,
    t: LabelingTarget,
) -> bool {
    &&& is_entity(attrs, t.node)
    &&& attrs[t.node as int] == Some(t.length)
    &&& t.connectivity == breadth(categories, label_count, categories[t.node as int])
}

/// For every entity, in the order of the nodes, its attribute and the connectivity breadth
/// of its labels: the two numbers that its priority for labeling is computed from.
pub fn prioritized_labeling_targets(graph: &Graph) -> (targets: Vec<LabelingTarget>)
    requires
        graph.wf(),
    ensures
        forall|i: int|
            0 <= i < targets.len() ==> is_labeling_target(
                graph@.attributes,
                graph@.categories,
                graph@.labels.len(),
                #[trigger] targets[i],
            ),
        is_entity_list(graph@.attributes, Seq::new(targets.len() as nat, |i: int| targets[i].node)),
{
    let ghost attrs = graph@.attributes;
    let ghost categories = graph@.categories;
    let label_count = graph.label_count();
    let links = genre_connectivity_map(graph);
    let ghost rows = Seq::new(links.len() as nat, |a: int| links[a]@);
    let members = entities(graph);
    let mut targets: Vec<LabelingTarget> = Vec::new();
    let mut i: usize = 0;
    while i < members.len()
        invariant
            graph.wf(),
            attrs == graph@.attributes,
            categories == graph@.categories,
            label_count == graph@.labels.len(),
            rows == Seq::new(links.len() as nat, |a: int| links[a]@),
            is_connectivity(categories, label_count as nat, rows),
            is_entity_list(attrs, members@),
            i <= members.len(),
            targets.len() == i,
            forall|j: int|
                0 <= j < i ==> is_labeling_target(
                    attrs,
                    categories,
                    label_count as nat,
                    #[trigger] targets[j],
                ) && targets[j].node == members[j],
        decreases members.len() - i,
    {
        let node = members[i];
        assert(members@.contains(node));
        let length = match graph.length_of(node) {
            Some(length) => length,
            None => 0,
        };
        let mut connectivity: u128 = 0;
        match graph.genres_of(node) {
            Some(own) => {
                let mut j: usize = 0;
                while j < own.len()
                    invariant
                        graph.wf(),
                        categories == graph@.categories,
                        label_count == graph@.labels.len(),
                        rows == Seq::new(links.len() as nat, |a: int| links[a]@),
                        is_connectivity(categories, label_count as nat, rows),
                        node < categories.len(),
                        own@ == categories[node as int],
                        j <= own.len(),
                        connectivity == breadth(categories, label_count as nat, own@.take(j as int)),
                        connectivity <= j * 0xffff_ffff_ffff_ffff,
                    decreases own.len() - j,
                {
                    let label = own[j];
                    proof {
                        assert(categories[node as int][j as int] < label_count);
                        lemma_row_length(categories, label_count as nat, rows, label);
                        assert(rows[label as int] == links[label as int]@);
                        assert(own@.take(j + 1).drop_last() =~= own@.take(j as int));
                    }
                    connectivity += links[label].len() as u128;
                    j += 1;
                }
                assert(own@.take(own.len() as int) =~= own@);
            },
            None => {},
        }
        targets.push(LabelingTarget { node, length, connectivity });
        i += 1;
    }
    proof {
        assert(Seq::new(targets.len() as nat, |i: int| targets[i].node) =~= members@);
    }
    targets
}

/// The aggregate score of one group. Its mean is `total / scored`, where `scored` is not 0.
#[derive(Debug, Clone, Copy, PartialEq, Eq)]
pub struct GroupScore {
    /// The label of the group.
    pub label: usize,
    /// The sum of the numeric attributes of its members.
    pub total: u128,
    /// The number of members that have a numeric attribute.
    pub scored: usize,
}

/// The aggregate score of the group of every label, in the order of the labels.
pub fn community_scores(graph: &Graph) -> (scores: Vec<GroupScore>)
    requires
        graph.wf(),
    ensures
        scores.len() == graph@.labels.len(),
        forall|a: int|
            0 <= a < scores.len() ==> (#[trigger] scores[a]).label == a && scores[a].total
                == label_total(
                graph@.attributes,
                graph@.categories,
                a as usize,
                graph@.categories.len(),
            ) && scores[a].scored == label_scored(
                graph@.attributes,
                graph@.categories,
                a as usize,
                graph@.categories.len(),
            ),
{
    let ghost attrs = graph@.attributes;
    let ghost categories = graph@.categories;
    let n = graph.node_count();
    let label_count = graph.label_count();
    let mut scores: Vec<GroupScore> = Vec::new();
    let mut a: usize = 0;
    while a < label_count
        invariant
            graph.wf(),
            attrs == graph@.attributes,
            categories == graph@.categories,
            n == categories.len(),
            label_count == graph@.labels.len(),
            a <= label_count,
            scores.len() == a,
            forall|b: int|
                0 <= b < a ==> (#[trigger] scores[b]).label == b && scores[b].total == label_total(
                    attrs,
                    categories,
                    b as usize,
                    n as nat,
                ) && scores[b].scored == label_scored(attrs, categories, b as usize, n as nat),
        decreases label_count - a,
    {
        let mut total: u128 = 0;
        let mut scored: usize = 0;
        let mut e: usize = 0;
        while e < n
            invariant
                graph.wf(),
                attrs == graph@.attributes,
                categories == graph@.categories,
                n == categories.len(),
                e <= n,
                total == label_total(attrs, categories, a, e as nat),
                scored == label_scored(attrs, categories, a, e as nat),
                total <= e * u64::MAX,
                scored <= e,
            decreases n - e,
        {
            let carries = match graph.genres_of(e) {
                Some(own) => contains_id(own, a),
                None => false,
            };
            if carries {
                match graph.length_of(e) {
                    Some(length) => {
                        total += length as u128;
                        scored += 1;
                    },
                    None => {},
                }
            }
            e += 1;
        }
        scores.push(GroupScore { label: a, total, scored });
        a += 1;
    }
    scores
}

/// The totals of a sequence of group scores.
pub open spec fn totals(scores: Seq<GroupScore>) -> Seq<u128> {
    Seq::new(scores.len(), |i: int| scores[i].total)
}

/// Ranks groups by descending total: the positions in `scores`, the largest total first;
/// groups with equal totals keep their order.
pub fn rank_by_total(scores: &Vec<GroupScore>) -> (order: Vec<usize>)
    ensures
        is_ranking(totals(scores@), order@),
{
    let mut keys: Vec<u128> = Vec::new();
    let mut i: usize = 0;
    while i < scores.len()
        invariant
            i <= scores.len(),
            keys.len() == i,
            forall|j: int| 0 <= j < i ==> keys[j] == (#[trigger] scores[j]).total,
        decreases scores.len() - i,
    {
        keys.push(scores[i].total);
        i += 1;
    }
    assert(keys@ =~= totals(scores@));
    rank_descending(&keys)
}

/// The means of a sequence of group scores, each as the quotient of the total and the
/// number of members scored; the mean of a group without such members counts as 0.
pub open spec fn means(scores: Seq<GroupScore>) -> Seq<Ratio> {
    Seq::new(
        scores.len(),
        |i: int|
            (
                scores[i].total,
                if scores[i].scored == 0 {
                    1usize
                } else {
                    scores[i].scored
                },
            ),
    )
}

/// Ranks groups by descending mean: the positions in `scores`, the largest mean first;
/// groups with equal means keep their order.
pub fn rank_by_mean(scores: &Vec<GroupScore>) -> (order: Vec<usize>)
    ensures
        is_ratio_ranking(means(scores@), true, order@),
{
    let mut items: Vec<Ratio> = Vec::new();
    let mut i: usize = 0;
    while i < scores.len()
        invariant
            i <= scores.len(),
            items.len() == i,
            forall|j: int| 0 <= j < i ==> (#[trigger] items[j]) == means(scores@)[j],
        decreases scores.len() - i,
    {
        let scored: usize = if scores[i].scored == 0 {
            1
        } else {
            scores[i].scored
        };
        items.push((scores[i].total, scored));
        i += 1;
    }
    assert(items@ =~= means(scores@));
    rank_ratios(&items, true)
}

/// The number of the first `m` nodes that belong to component `c`.
pub open spec fn members_below(ids: Seq<Option<usize>>, c: usize, m: nat) -> nat
    decreases m,
{
    if m == 0 {
        0
    } else {
        members_below(ids, c, (m - 1) as nat) + if ids[m - 1] == Some(c) {
            1nat
        } else {
            0nat
        }
    }
}

/// The size of every component: the number of entities in it.
pub fn component_sizes(found: &Components) -> (sizes: Vec<usize>)
    ensures
        sizes.len() == found.roots.len(),
        forall|c: int|
            0 <= c < sizes.len() ==> #[trigger] sizes[c] == members_below(
                found.ids@,
                c as usize,
                found.ids.len() as nat,
            ),
{
    let mut sizes: Vec<usize> = Vec::new();
    let mut c: usize = 0;
    while c < found.roots.len()
        invariant
            c <= found.roots.len(),
            sizes.len() == c,
            forall|b: int|
                0 <= b < c ==> #[trigger] sizes[b] == members_below(
                    found.ids@,
                    b as usize,
                    found.ids.len() as nat,
                ),
        decreases found.roots.len() - c,
    {
        let mut size: usize = 0;
        let mut v: usize = 0;
        while v < found.ids.len()
            invariant
                v <= found.ids.len(),
                size == members_below(found.ids@, c, v as nat),
                size <= v,
            decreases found.ids.len() - v,
        {
            match found.ids[v] {
                Some(id) => {
                    if id == c {
                        size += 1;
                    }
                },
                None => {},
            }
            v += 1;
        }
        sizes.push(size);
        c += 1;
    }
    sizes
}

} // verus!
