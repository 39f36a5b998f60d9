use genre_graph::graph::{EdgeWeight, Graph, Record};

fn record(id: &str, genres: &[&str], length: u64) -> Record {
    Record { id: id.to_string(), genres: genres.iter().map(|g| g.to_string()).collect(), length }
}

fn three_artists() -> Vec<Record> {
    vec![
        record("A", &["Rock", "Pop"], 1000),
        record("B", &["Rock"], 500),
        record("C", &["Jazz"], 2000),
    ]
}

#[test]
fn new_graph_is_empty() {
    let g = Graph::new();
    assert_eq!(g.node_count(), 0);
    assert_eq!(g.label_count(), 0);
    assert_eq!(g.node_id("A"), None);
    assert!(g.neighbors(0).is_none());
    assert!(!g.is_member(0));
}

#[test]
fn add_node_finds_or_appends() {
    let mut g = Graph::new();
    let a = g.add_node("A");
    let b = g.add_node("B");
    assert_eq!((a, b), (0, 1));
    assert_eq!(g.add_node("A"), 0);
    assert_eq!(g.node_count(), 2);
    assert_eq!(g.name(1).map(|s| s.as_str()), Some("B"));
    assert_eq!(g.name(2), None);
    assert_eq!(g.node_id("B"), Some(1));
}

#[test]
fn edge_is_listed_at_both_ends() {
    let mut g = Graph::new();
    let a = g.add_node("A");
    let b = g.add_node("B");
    g.add_edge(a, b, 7);
    assert_eq!(g.neighbors(a).unwrap(), &vec![(b, 7)]);
    assert_eq!(g.neighbors(b).unwrap(), &vec![(a, 7)]);
    assert_eq!(g.degree(a), 1);
    assert_eq!(g.degree(5), 0);
}

#[test]
fn edge_to_a_node_the_graph_lacks_changes_nothing() {
    let mut g = Graph::new();
    let a = g.add_node("A");
    g.add_edge(a, 3, 7);
    g.add_edge(9, a, 7);
    assert_eq!(g.neighbors(a).unwrap().len(), 0);
    assert_eq!(g.node_count(), 1);
}

#[test]
fn self_loop_is_listed_twice() {
    let mut g = Graph::new();
    let a = g.add_node("A");
    g.add_edge(a, a, 2);
    assert_eq!(g.neighbors(a).unwrap(), &vec![(a, 2), (a, 2)]);
}

#[test]
fn neighbors_of_absent_node_is_empty_result() {
    let mut g = Graph::new();
    g.add_node("A");
    assert!(g.neighbors(1).is_none());
    assert_eq!(g.neighbors(0).unwrap().len(), 0);
}

#[test]
fn member_is_a_node_with_an_attribute() {
    let mut g = Graph::new();
    let rock = g.add_node("Rock");
    let a = g.insert_length("A", 10);
    assert!(g.is_member(a));
    assert!(!g.is_member(rock));
    assert!(!g.is_member(17));
    assert_eq!(g.length_of(a), Some(10));
    assert_eq!(g.length_of(rock), None);
}

#[test]
fn genres_are_interned_once() {
    let mut g = Graph::new();
    let a = g.insert_genres("A", &vec!["Rock".to_string(), "Pop".to_string(), "Rock".to_string()]);
    let b = g.insert_genres("B", &vec!["Pop".to_string(), "Jazz".to_string()]);
    assert_eq!(g.label_count(), 3);
    assert_eq!(g.genres_of(a).unwrap(), &vec![0, 1]);
    assert_eq!(g.genres_of(b).unwrap(), &vec![1, 2]);
    assert_eq!(g.genre_id("Jazz"), Some(2));
    assert_eq!(g.genre_id("Folk"), None);
    assert_eq!(g.genre_name(0).map(|s| s.as_str()), Some("Rock"));
    assert_eq!(g.genre_name(3), None);
}

#[test]
fn build_links_entities_that_share_a_category_by_count() {
    let g = Graph::build(&three_artists(), EdgeWeight::SharedCount);
    let (a, b, c) = (0, 1, 2);
    assert_eq!(g.node_count(), 3);
    assert_eq!(g.neighbors(a).unwrap(), &vec![(b, 1)]);
    assert_eq!(g.neighbors(b).unwrap(), &vec![(a, 1)]);
    assert_eq!(g.neighbors(c).unwrap().len(), 0);
    assert_eq!(g.length_of(c), Some(2000));
}

#[test]
fn build_counts_every_shared_category() {
    let records = vec![
        record("A", &["Rock", "Pop", "Jazz"], 10),
        record("B", &["Jazz", "Rock"], 20),
        record("C", &["Folk"], 30),
        record("D", &["Pop"], 40),
    ];
    let g = Graph::build(&records, EdgeWeight::SharedCount);
    assert_eq!(g.neighbors(0).unwrap(), &vec![(1, 2), (3, 1)]);
    assert_eq!(g.neighbors(1).unwrap(), &vec![(0, 2)]);
    assert_eq!(g.neighbors(2).unwrap().len(), 0);
    assert_eq!(g.neighbors(3).unwrap(), &vec![(0, 1)]);
}

#[test]
fn build_by_category_attribute_gives_one_edge_per_shared_category() {
    let records = vec![
        record("A", &["Rock", "Pop"], 1000),
        record("B", &["Pop", "Rock"], 500),
        record("C", &["Pop"], 2000),
    ];
    let g = Graph::build(&records, EdgeWeight::CategoryAttribute);
    // Rock weighs 1000 + 500, Pop weighs 1000 + 500 + 2000.
    assert_eq!(g.neighbors(0).unwrap(), &vec![(1, 1500), (1, 3500), (2, 3500)]);
    assert_eq!(g.neighbors(1).unwrap(), &vec![(0, 1500), (0, 3500), (2, 3500)]);
    assert_eq!(g.neighbors(2).unwrap(), &vec![(0, 3500), (1, 3500)]);
}

#[test]
fn category_attribute_is_capped_at_the_largest_integer() {
    let records = vec![record("A", &["Rock"], u64::MAX), record("B", &["Rock"], 5)];
    let g = Graph::build(&records, EdgeWeight::CategoryAttribute);
    assert_eq!(g.neighbors(0).unwrap(), &vec![(1, u64::MAX)]);
}

#[test]
fn build_leaves_out_rows_without_identifier_or_attribute() {
    let records = vec![
        record("", &["Rock"], 100),
        record("Zero", &["Rock"], 0),
        record("A", &["Rock"], 1),
    ];
    let g = Graph::build(&records, EdgeWeight::SharedCount);
    assert_eq!(g.node_count(), 1);
    assert_eq!(g.node_id("A"), Some(0));
    assert_eq!(g.node_id("Zero"), None);
    assert_eq!(g.neighbors(0).unwrap().len(), 0);
}

#[test]
fn a_later_row_of_the_same_entity_replaces_the_earlier() {
    let records = vec![record("A", &["Rock"], 1), record("B", &["Pop"], 2), record("A", &["Pop"], 3)];
    let g = Graph::build(&records, EdgeWeight::SharedCount);
    assert_eq!(g.node_count(), 2);
    assert_eq!(g.length_of(0), Some(3));
    assert_eq!(g.genres_of(0).unwrap(), &vec![1]);
    assert_eq!(g.neighbors(0).unwrap(), &vec![(1, 1)]);
}

#[test]
fn built_graph_is_undirected() {
    let g = Graph::build(&three_artists(), EdgeWeight::SharedCount);
    for u in 0..g.node_count() {
        for &(v, w) in g.neighbors(u).unwrap() {
            assert!(g.neighbors(v).unwrap().contains(&(u, w)));
        }
    }
}
