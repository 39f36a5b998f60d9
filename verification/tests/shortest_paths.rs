use genre_graph::dijkstra::shortest_paths;
use genre_graph::graph::Graph;

fn triangle() -> (Graph, usize, usize, usize) {
    let mut g = Graph::new();
    let a = g.add_node("A");
    let b = g.add_node("B");
    let c = g.add_node("C");
    g.add_edge(a, b, 1);
    g.add_edge(b, c, 2);
    g.add_edge(a, c, 5);
    (g, a, b, c)
}

#[test]
fn source_is_at_distance_zero() {
    let (g, a, _, _) = triangle();
    let d = shortest_paths(&g, a);
    assert_eq!(d.source(), a);
    assert_eq!(d.get(a), Some(0));
}

#[test]
fn lighter_detour_beats_direct_edge() {
    let (g, a, b, c) = triangle();
    let d = shortest_paths(&g, a);
    assert_eq!(d.get(b), Some(1));
    assert_eq!(d.get(c), Some(3));
}

#[test]
fn unreachable_node_is_absent() {
    let (mut g, a, _, _) = triangle();
    let lone = g.add_node("D");
    let d = shortest_paths(&g, a);
    assert_eq!(d.get(lone), None);
    assert_eq!(d.get(99), None);
}

#[test]
fn isolated_source_reaches_only_itself() {
    let mut g = Graph::new();
    let only = g.add_node("solo");
    let d = shortest_paths(&g, only);
    assert_eq!(d.get(only), Some(0));
    assert_eq!(d.get(only + 1), None);
}

#[test]
fn source_outside_the_graph_is_its_own_distance() {
    let (g, _, b, _) = triangle();
    let d = shortest_paths(&g, 42);
    assert_eq!(d.get(42), Some(0));
    assert_eq!(d.get(b), None);
}

#[test]
fn distance_beyond_the_integer_range_counts_as_unreached() {
    let mut g = Graph::new();
    let a = g.add_node("A");
    let b = g.add_node("B");
    let c = g.add_node("C");
    g.add_edge(a, b, u64::MAX);
    g.add_edge(b, c, 1);
    let d = shortest_paths(&g, a);
    assert_eq!(d.get(b), Some(u64::MAX));
    assert_eq!(d.get(c), None);
}
