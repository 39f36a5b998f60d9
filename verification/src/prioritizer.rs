//! Greedy maximum-coverage selection of influential nodes.
use crate::config::{budget, ConfigError};
use crate::graph::{contains_id, Adjacency, Graph};
use vstd::prelude::*;

verus! {

/// The nodes that the entries of one adjacency list lead to.
pub open spec fn targets(entries: Seq<(usize, u64)>) -> Set<usize> {
    Set::new(|x: usize| exists|k: int| 0 <= k < entries.len() && (#[trigger] entries[k]).0 == x)
}

/// The nodes covered by a selection: every neighbor of every selected node.
pub open spec fn coverage(adj: Adjacency, selected: Seq<usize>) -> Set<usize>
    decreases selected.len(),
{
    if selected.len() == 0 {
        Set::empty()
    } else {
        coverage(adj, selected.drop_last()).union(targets(adj[selected.last() as int]))
    }
}

/// The nodes that an adjacency list leads to and that are not yet covered.
pub open spec fn fresh(entries: Seq<(usize, u64)>, covered: Set<usize>) -> Set<usize> {
    targets(entries).difference(covered)
}

/// The number of nodes that an adjacency list would newly cover. A node counts once,
/// however many entries lead to it.
pub open spec fn gain(entries: Seq<(usize, u64)>, covered: Set<usize>) -> nat {
    fresh(entries, covered).len()
}

/// What selecting `v` would add, after `chosen` has been selected.
pub open spec fn gain_after(adj: Adjacency, chosen: Seq<usize>, v: usize) -> nat {
    gain(adj[v as int], coverage(adj, chosen))
}

/// `v` is the pick that follows the selection `chosen`: it is new, adds something, adds at
/// least as much as any other new node, and more than any new node before it.
pub open spec fn greedy_choice(adj: Adjacency, chosen: Seq<usize>, v: usize) -> bool {
    &&& v < adj.len()
    &&& !chosen.contains(v)
    &&& gain_after(adj, chosen, v) > 0
    &&& forall|u: usize|
        u < adj.len() && !chosen.contains(u) ==> #[trigger] gain_after(adj, chosen, u)
            <= gain_after(adj, chosen, v)
    &&& forall|u: usize|
        u < v && !chosen.contains(u) ==> #[trigger] gain_after(adj, chosen, u) < gain_after(
            adj,
            chosen,
            v,
        )
}

/// After `chosen`, no node that is left would add anything.
pub open spec fn greedy_exhausted(adj: Adjacency, chosen: Seq<usize>) -> bool {
    forall|u: usize|
        u < adj.len() && !chosen.contains(u) ==> #[trigger] gain_after(adj, chosen, u) == 0
}

/// `selected` is what greedy selection of at most `k` nodes yields: every pick is the greedy
/// choice after the picks before it, and selection stops short of `k` only when nothing is
/// left to gain.
pub open spec fn is_greedy_selection(adj: Adjacency, k: nat, selected: Seq<usize>) -> bool {
    &&& selected.len() <= k
    &&& forall|i: int|
        0 <= i < selected.len() ==> greedy_choice(adj, #[trigger] selected.take(i), selected[i])
    &&& selected.len() < k ==> greedy_exhausted(adj, selected)
}

/// The nodes marked in a table of flags.
pub open spec fn marked(mask: Seq<bool>) -> Set<usize> {
    Set::new(|x: usize| x < mask.len() && mask[x as int])
}

/// Coverage only grows as more nodes are selected.
pub proof fn lemma_coverage_grows(adj: Adjacency, selected: Seq<usize>, i: int, j: int)
    requires
        0 <= i <= j <= selected.len(),
    ensures
        coverage(adj, selected.take(i)).subset_of(coverage(adj, selected.take(j))),
    decreases j - i,
{
    if i < j {
        lemma_coverage_grows(adj, selected, i, j - 1);
        assert(selected.take(j).drop_last() =~= selected.take(j - 1));
    }
}

/// The nodes that a list leads to are those that the list without its last entry leads
/// to, and the node of that entry.
pub proof fn lemma_targets_last(entries: Seq<(usize, u64)>)
    requires
        entries.len() > 0,
    ensures
        targets(entries) == targets(entries.drop_last()).insert(entries.last().0),
{
    let rest = entries.drop_last();
    assert forall|x: usize| targets(entries).contains(x) <==> targets(rest).insert(
        entries.last().0,
    ).contains(x) by {
        if targets(entries).contains(x) {
            let k = choose|k: int| 0 <= k < entries.len() && (#[trigger] entries[k]).0 == x;
            if k < rest.len() {
                assert(rest[k].0 == x);
            }
        }
        if targets(rest).contains(x) {
            let k = choose|k: int| 0 <= k < rest.len() && (#[trigger] rest[k]).0 == x;
            assert(entries[k].0 == x);
        }
        if x == entries.last().0 {
            assert(entries[entries.len() - 1].0 == x);
        }
    }
    assert(targets(entries) =~= targets(rest).insert(entries.last().0));
}

/// The nodes that an adjacency list leads to are finitely many.
pub proof fn lemma_targets_finite(entries: Seq<(usize, u64)>)
    ensures
        targets(entries).finite(),
    decreases entries.len(),
{
    if entries.len() == 0 {
        assert(targets(entries) =~= Set::empty());
    } else {
        lemma_targets_finite(entries.drop_last());
        lemma_targets_last(entries);
    }
}

/// A node gains nothing exactly when every node it leads to is covered already, and never
/// more than it has entries.
pub proof fn lemma_gain_bounds(entries: Seq<(usize, u64)>, covered: Set<usize>)
    ensures
        gain(entries, covered) <= entries.len(),
        gain(entries, covered) == 0 <==> targets(entries).subset_of(covered),
    decreases entries.len(),
{
    lemma_targets_finite(entries);
    if entries.len() == 0 {
        assert(fresh(entries, covered) =~= Set::empty());
    } else {
        let rest = entries.drop_last();
        let t = entries.last().0;
        lemma_gain_bounds(rest, covered);
        lemma_targets_last(entries);
        lemma_targets_finite(rest);
        if covered.contains(t) {
            assert(fresh(entries, covered) =~= fresh(rest, covered));
        } else {
            assert(fresh(entries, covered) =~= fresh(rest, covered).insert(t));
        }
    }
    if fresh(entries, covered).len() == 0 {
        assert(fresh(entries, covered) =~= Set::empty());
    }
    if targets(entries).subset_of(covered) {
        assert(fresh(entries, covered) =~= Set::empty());
    }
}

/// A selection covers finitely many nodes.
pub proof fn lemma_coverage_finite(adj: Adjacency, selected: Seq<usize>)
    ensures
        coverage(adj, selected).finite(),
    decreases selected.len(),
{
    if selected.len() > 0 {
        lemma_coverage_finite(adj, selected.drop_last());
        lemma_targets_finite(adj[selected.last() as int]);
    }
}

/// The number of nodes covered never falls from one round to a later one.
pub proof fn lemma_coverage_size_grows(adj: Adjacency, selected: Seq<usize>, i: int, j: int)
    requires
        0 <= i <= j <= selected.len(),
    ensures
        coverage(adj, selected.take(i)).len() <= coverage(adj, selected.take(j)).len(),
{
    lemma_coverage_grows(adj, selected, i, j);
    lemma_coverage_finite(adj, selected.take(j));
    vstd::set_lib::lemma_len_subset(coverage(adj, selected.take(i)), coverage(adj, selected.take(j)));
}

/// A greedy selection never holds a node twice.
pub proof fn lemma_greedy_picks_are_distinct(adj: Adjacency, k: nat, selected: Seq<usize>)
    requires
        is_greedy_selection(adj, k, selected),
    ensures
        selected.no_duplicates(),
        selected.len() <= k,
{
    assert forall|i: int, j: int| 0 <= i < selected.len() && 0 <= j < selected.len() && i != j implies selected[i]
        != selected[j] by {
        let (lo, hi) = if i < j { (i, j) } else { (j, i) };
        assert(greedy_choice(adj, selected.take(hi), selected[hi]));
        assert(selected.take(hi)[lo] == selected[lo]);
    }
}

/// Greedy selection is deterministic: the graph and the budget fix every pick.
pub proof fn lemma_greedy_selection_unique(adj: Adjacency, k: nat, a: Seq<usize>, b: Seq<usize>)
    requires
        is_greedy_selection(adj, k, a),
        is_greedy_selection(adj, k, b),
    ensures
        a == b,
{
    lemma_greedy_common_prefix(adj, k, a, b, if a.len() <= b.len() { a.len() } else { b.len() });
    let m = if a.len() <= b.len() { a.len() as int } else { b.len() as int };
    if a.len() < b.len() {
        assert(a.take(m) =~= a);
        assert(greedy_choice(adj, b.take(m), b[m]));
        assert(gain_after(adj, a, b[m]) == 0);
    } else if b.len() < a.len() {
        assert(b.take(m) =~= b);
        assert(greedy_choice(adj, a.take(m), a[m]));
        assert(gain_after(adj, b, a[m]) == 0);
    } else {
        assert(a.take(m) =~= a);
        assert(b.take(m) =~= b);
    }
}

proof fn lemma_greedy_common_prefix(adj: Adjacency, k: nat, a: Seq<usize>, b: Seq<usize>, m: nat)
    requires
        is_greedy_selection(adj, k, a),
        is_greedy_selection(adj, k, b),
        m <= a.len(),
        m <= b.len(),
    ensures
        a.take(m as int) == b.take(m as int),
    decreases m,
{
    if m == 0 {
        assert(a.take(0) =~= b.take(0));
    } else {
        let i = (m - 1) as int;
        lemma_greedy_common_prefix(adj, k, a, b, i as nat);
        let before = a.take(i);
        assert(greedy_choice(adj, a.take(i), a[i]));
        assert(greedy_choice(adj, b.take(i), b[i]));
        let x = a[i];
        let y = b[i];
        if x < y {
            assert(gain_after(adj, before, x) < gain_after(adj, before, y));
            assert(gain_after(adj, before, y) <= gain_after(adj, before, x));
        } else if y < x {
            assert(gain_after(adj, before, y) < gain_after(adj, before, x));
            assert(gain_after(adj, before, x) <= gain_after(adj, before, y));
        }
        assert(a.take(m as int) =~= a.take(i).push(x));
        assert(b.take(m as int) =~= b.take(i).push(y));
    }
}

/// Whether an entry of `list` before position `i` leads to the node that the entry at `i`
/// leads to.
fn met_before(list: &Vec<(usize, u64)>, i: usize) -> (r: bool)
    requires
        i < list.len(),
    ensures
        r == targets(list@.take(i as int)).contains(list[i as int].0),
{
    let t = list[i].0;
    let mut j: usize = 0;
    while j < i
        invariant
            j <= i < list.len(),
            t == list[i as int].0,
            forall|k: int| 0 <= k < j ==> (#[trigger] list[k]).0 != t,
        decreases i - j,
    {
        if list[j].0 == t {
            assert(list@.take(i as int)[j as int].0 == t);
            return true;
        }
        j += 1;
    }
    proof {
        if targets(list@.take(i as int)).contains(t) {
            let k = choose|k: int|
                0 <= k < list@.take(i as int).len() && (#[trigger] list@.take(i as int)[k]).0 == t;
            assert(list[k].0 == t);
        }
    }
    false
}

/// Counts the nodes that `list` leads to and that are not marked in `covered`, each once.
fn count_new(list: &Vec<(usize, u64)>, covered: &Vec<bool>) -> (c: usize)
    requires
        forall|k: int| 0 <= k < list.len() ==> (#[trigger] list[k]).0 < covered.len(),
    ensures
        c == gain(list@, marked(covered@)),
{
    let mut c: usize = 0;
    let mut i: usize = 0;
    assert(fresh(list@.take(0), marked(covered@)) =~= Set::empty());
    while i < list.len()
        invariant
            i <= list.len(),
            c <= i,
            c == gain(list@.take(i as int), marked(covered@)),
            forall|k: int| 0 <= k < list.len() ==> (#[trigger] list[k]).0 < covered.len(),
        decreases list.len() - i,
    {
        let t = list[i].0;
        let ghost so_far = list@.take(i as int);
        let ghost longer = list@.take(i + 1);
        let ghost mask = marked(covered@);
        proof {
            assert(longer.drop_last() =~= so_far);
            lemma_targets_last(longer);
            lemma_targets_finite(so_far);
        }
        if !covered[t] && !met_before(list, i) {
            proof {
                assert(fresh(longer, mask) =~= fresh(so_far, mask).insert(t));
            }
            c += 1;
        } else {
            proof {
                assert(fresh(longer, mask) =~= fresh(so_far, mask));
            }
        }
        i += 1;
    }
    assert(list@.take(list.len() as int) =~= list@);
    c
}

/// Marks every node that an entry of `list` leads to.
fn mark_all(list: &Vec<(usize, u64)>, covered: &mut Vec<bool>)
    requires
        forall|k: int| 0 <= k < list.len() ==> (#[trigger] list[k]).0 < old(covered).len(),
    ensures
        final(covered).len() == old(covered).len(),
        marked(final(covered)@) == marked(old(covered)@).union(targets(list@)),
{
    let mut i: usize = 0;
    while i < list.len()
        invariant
            i <= list.len(),
            covered.len() == old(covered).len(),
            forall|k: int| 0 <= k < list.len() ==> (#[trigger] list[k]).0 < covered.len(),
            forall|x: int|
                0 <= x < covered.len() ==> (#[trigger] covered[x] <==> old(covered)[x] || exists|k: int|
                    0 <= k < i && (#[trigger] list[k]).0 == x),
        decreases list.len() - i,
    {
        let ghost before = covered@;
        let t = list[i].0;
        covered[t] = true;
        proof {
            assert forall|x: int| 0 <= x < covered.len() implies (#[trigger] covered[x] <==> old(
                covered,
            )[x] || exists|k: int| 0 <= k < i + 1 && (#[trigger] list[k]).0 == x) by {
                if x == t {
                    assert(list[i as int].0 == x);
                } else if before[x] && !old(covered)[x] {
                    let k = choose|k: int| 0 <= k < i && (#[trigger] list[k]).0 == x;
                    assert(list[k].0 == x);
                }
            }
        }
        i += 1;
    }
    proof {
        let goal = marked(old(covered)@).union(targets(list@));
        assert forall|x: usize| marked(covered@).contains(x) <==> goal.contains(x) by {
            if x < covered.len() {
                assert(covered[x as int] <==> old(covered)[x as int] || exists|k: int|
                    0 <= k < list.len() && (#[trigger] list[k]).0 == x);
            } else if targets(list@).contains(x) {
                let k = choose|k: int| 0 <= k < list.len() && (#[trigger] list@[k]).0 == x;
                assert(list[k].0 < covered.len());
            }
        }
        assert(marked(covered@) =~= goal);
    }
}

/// Selects up to `k` nodes by greedy maximum coverage. Each round picks, among the nodes not
/// yet selected, the one whose neighbors include the most nodes not yet covered, the
/// lowest-numbered of them on a tie, and covers its neighbors. A neighbor counts once,
/// however many entries lead to it. Selection ends early when no node would add anything.
pub fn select_influential_nodes(graph: &Graph, k: usize) -> (selected: Vec<usize>)
    requires
        graph.wf(),
    ensures
        is_greedy_selection(graph@.adjacency, k as nat, selected@),
        selected@.no_duplicates(),
        selected.len() <= k,
{
    let ghost adj = graph@.adjacency;
    let n = graph.node_count();
    let mut selected: Vec<usize> = Vec::new();
    let mut covered: Vec<bool> = Vec::new();
    while covered.len() < n
        invariant
            covered.len() <= n,
            forall|j: int| 0 <= j < covered.len() ==> !covered[j],
        decreases n - covered.len(),
    {
        covered.push(false);
    }
    assert(marked(covered@) =~= coverage(adj, selected@));
    let mut exhausted = false;
    while selected.len() < k && !exhausted
        invariant
            graph.wf(),
            adj == graph@.adjacency,
            n == adj.len(),
            covered.len() == n,
            selected.len() <= k,
            marked(covered@) == coverage(adj, selected@),
            forall|i: int|
                0 <= i < selected.len() ==> greedy_choice(
                    adj,
                    #[trigger] selected@.take(i),
                    selected[i],
                ),
            exhausted ==> greedy_exhausted(adj, selected@),
        decreases k - selected.len() + if exhausted { 0int } else { 1int },
    {
        let mut best_node: Option<usize> = None;
        let mut best_gain: usize = 0;
        let mut v: usize = 0;
        while v < n
            invariant
                graph.wf(),
                adj == graph@.adjacency,
                n == adj.len(),
                covered.len() == n,
                v <= n,
                marked(covered@) == coverage(adj, selected@),
                best_node is None ==> best_gain == 0,
                best_node is None ==> forall|u: usize|
                    u < v && !selected@.contains(u) ==> #[trigger] gain_after(adj, selected@, u)
                        == 0,
                best_node matches Some(b) ==> {
                    &&& b < v
                    &&& !selected@.contains(b)
                    &&& best_gain > 0
                    &&& gain_after(adj, selected@, b) == best_gain
                    &&& forall|u: usize|
                        u < v && !selected@.contains(u) ==> #[trigger] gain_after(
                            adj,
                            selected@,
                            u,
                        ) <= best_gain
                    &&& forall|u: usize|
                        u < b && !selected@.contains(u) ==> #[trigger] gain_after(
                            adj,
                            selected@,
                            u,
                        ) < best_gain
                },
            decreases n - v,
        {
            if !contains_id(&selected, v) {
                match graph.neighbors(v) {
                    Some(list) => {
                        assert forall|j: int| 0 <= j < list.len() implies (#[trigger] list[j]).0
                            < covered.len() by {
                            assert(adj[v as int][j].0 < adj.len());
                        }
                        let new_coverage = count_new(list, &covered);
                        if new_coverage > best_gain {
                            best_gain = new_coverage;
                            best_node = Some(v);
                        }
                    },
                    None => {},
                }
            }
            v += 1;
        }
        match best_node {
            Some(node) => {
                let ghost before = selected@;
                selected.push(node);
                match graph.neighbors(node) {
                    Some(list) => {
                        assert forall|j: int| 0 <= j < list.len() implies (#[trigger] list[j]).0
                            < covered.len() by {
                            assert(adj[node as int][j].0 < adj.len());
                        }
                        mark_all(list, &mut covered);
                    },
                    None => {},
                }
                proof {
                    assert(selected@.drop_last() =~= before);
                    assert(greedy_choice(adj, before, node));
                    assert forall|i: int| 0 <= i < selected.len() implies greedy_choice(
                        adj,
                        #[trigger] selected@.take(i),
                        selected[i],
                    ) by {
                        if i < before.len() {
                            assert(selected@.take(i) =~= before.take(i));
                        } else {
                            assert(selected@.take(i) =~= before);
                        }
                    }
                }
            },
            None => {
                exhausted = true;
            },
        }
    }
    proof {
        lemma_greedy_picks_are_distinct(adj, k as nat, selected@);
    }
    selected
}

/// Selects up to `k` nodes by greedy maximum coverage, as `select_influential_nodes` does.
/// A negative `k` is refused before anything is selected.
pub fn select_top_k(graph: &Graph, k: isize) -> (r: Result<Vec<usize>, ConfigError>)
    requires
        graph.wf(),
    ensures
        match r {
            Ok(selected) => k >= 0 && is_greedy_selection(
                graph@.adjacency,
                k as nat,
                selected@,
            ) && selected@.no_duplicates() && selected.len() <= k,
            Err(e) => k < 0 && e == ConfigError::NegativeBudget,
        },
{
    match budget(k) {
        Ok(count) => Ok(select_influential_nodes(graph, count)),
        Err(e) => Err(e),
    }
}

} // verus!
