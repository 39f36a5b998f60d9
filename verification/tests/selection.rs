use genre_graph::graph::Graph;
use genre_graph::prioritizer::select_influential_nodes;

fn star_and_pair() -> Graph {
    let mut g = Graph::new();
    for name in ["hub", "a", "b", "c", "p", "q"] {
        g.add_node(name);
    }
    g.add_edge(0, 1, 1);
    g.add_edge(0, 2, 1);
    g.add_edge(0, 3, 1);
    g.add_edge(4, 5, 1);
    g
}

#[test]
fn budget_of_zero_selects_nothing() {
    assert!(select_influential_nodes(&star_and_pair(), 0).is_empty());
    assert!(select_influential_nodes(&Graph::new(), 0).is_empty());
}

#[test]
fn the_node_that_covers_most_is_picked_first() {
    assert_eq!(select_influential_nodes(&star_and_pair(), 1), vec![0]);
}

#[test]
fn ties_go_to_the_earlier_node() {
    assert_eq!(select_influential_nodes(&star_and_pair(), 2), vec![0, 1]);
}

#[test]
fn selection_ends_when_nothing_is_left_to_gain() {
    let mut g = Graph::new();
    let a = g.add_node("a");
    let b = g.add_node("b");
    g.add_node("lone");
    g.add_edge(a, b, 3);
    assert_eq!(select_influential_nodes(&g, 5), vec![a, b]);
}

#[test]
fn no_node_is_selected_twice_and_the_budget_holds() {
    let g = star_and_pair();
    for k in 0..8 {
        let picked = select_influential_nodes(&g, k);
        assert!(picked.len() <= k);
        for i in 0..picked.len() {
            for j in 0..i {
                assert_ne!(picked[i], picked[j]);
            }
        }
    }
}

#[test]
fn coverage_never_shrinks_from_round_to_round() {
    let g = star_and_pair();
    let picked = select_influential_nodes(&g, 6);
    let mut covered: Vec<usize> = Vec::new();
    let mut size = 0;
    for node in picked {
        for &(v, _) in g.neighbors(node).unwrap() {
            if !covered.contains(&v) {
                covered.push(v);
            }
        }
        assert!(covered.len() >= size);
        size = covered.len();
    }
    assert_eq!(size, 6);
}

#[test]
fn duplicate_entries_cover_a_node_once() {
    let mut g = Graph::new();
    for name in ["a", "b", "c", "d"] {
        g.add_node(name);
    }
    g.add_edge(0, 1, 1);
    g.add_edge(2, 3, 1);
    g.add_edge(2, 3, 1);
    assert_eq!(select_influential_nodes(&g, 1), vec![0]);
}

#[test]
fn the_node_that_covers_most_nodes_beats_the_one_with_most_entries() {
    let mut g = Graph::new();
    for name in ["A", "B", "C", "D", "E"] {
        g.add_node(name);
    }
    g.add_edge(0, 1, 1);
    g.add_edge(0, 1, 1);
    g.add_edge(0, 1, 1);
    g.add_edge(2, 3, 1);
    g.add_edge(2, 4, 1);
    assert_eq!(select_influential_nodes(&g, 1), vec![2]);
    assert_eq!(select_influential_nodes(&g, 9), vec![2, 0, 1, 3]);
}

#[test]
fn a_loop_on_a_node_covers_that_node() {
    let mut g = Graph::new();
    g.add_node("a");
    g.add_node("b");
    g.add_edge(0, 0, 1);
    g.add_edge(0, 1, 1);
    assert_eq!(select_influential_nodes(&g, 3), vec![0]);
}

#[test]
fn selection_is_the_same_on_every_run() {
    let g = star_and_pair();
    assert_eq!(select_influential_nodes(&g, 4), select_influential_nodes(&g, 4));
    assert_eq!(select_influential_nodes(&g, 4), vec![0, 1, 4, 5]);
}
