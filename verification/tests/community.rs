use genre_graph::community::{
    community_scores, component_sizes, connected_components, entities, find_communities,
    group_by_label, Clustering,
    genre_connectivity_map, prioritized_labeling_targets, rank_by_mean, rank_by_total,
    top_influential_artists,
    GroupScore, LabelingTarget,
};
use genre_graph::graph::{EdgeWeight, Graph, Record};

fn labels(names: &[&str]) -> Vec<String> {
    names.iter().map(|g| g.to_string()).collect()
}

fn three_artists() -> Graph {
    let records = vec![
        Record { id: "A".to_string(), genres: labels(&["Rock", "Pop"]), length: 1000 },
        Record { id: "B".to_string(), genres: labels(&["Rock"]), length: 500 },
        Record { id: "C".to_string(), genres: labels(&["Jazz"]), length: 2000 },
    ];
    Graph::build(&records, EdgeWeight::SharedCount)
}

#[test]
fn test_genre_connectivity_basic() {
    let mut graph = Graph::new();

    graph.insert_genres("Artist1", &labels(&["Rock", "Pop"]));
    graph.insert_genres("Artist2", &labels(&["Rock", "Indie"]));
    graph.insert_genres("Artist3", &labels(&["Pop", "Jazz"]));

    let connectivity = genre_connectivity_map(&graph);
    let rock = graph.genre_id("Rock").unwrap();
    let pop = graph.genre_id("Pop").unwrap();
    let indie = graph.genre_id("Indie").unwrap();
    let jazz = graph.genre_id("Jazz").unwrap();

    // Rock connects to Pop and Indie
    assert!(connectivity[rock].contains(&pop));
    assert!(connectivity[rock].contains(&indie));

    // Pop connects to Rock and Jazz
    assert!(connectivity[pop].contains(&rock));
    assert!(connectivity[pop].contains(&jazz));
}

#[test]
fn test_prioritized_labeling_scoring() {
    let mut graph = Graph::new();

    graph.insert_length("A1", 1000);
    graph.insert_length("A2", 500);

    graph.insert_genres("A1", &labels(&["Rock", "Pop"]));
    graph.insert_genres("A2", &labels(&["Rock"]));

    let targets = prioritized_labeling_targets(&graph);
    let a1 = graph.node_id("A1").unwrap();

    assert_eq!(targets.len(), 2);
    assert!(targets[0].node == a1 || targets[1].node == a1);
}

#[test]
fn labeling_targets_carry_attribute_and_breadth() {
    let mut graph = Graph::new();
    graph.insert_length("A1", 1000);
    graph.insert_length("A2", 500);
    graph.insert_genres("A1", &labels(&["Rock", "Pop"]));
    graph.insert_genres("A2", &labels(&["Rock"]));
    graph.insert_genres("NoLength", &labels(&["Rock", "Folk"]));
    // Rock is linked to Pop and Folk, Pop to Rock, Folk to Rock.
    assert_eq!(
        prioritized_labeling_targets(&graph),
        vec![
            LabelingTarget { node: 0, length: 1000, connectivity: 3 },
            LabelingTarget { node: 1, length: 500, connectivity: 2 },
        ]
    );
}

#[test]
fn connectivity_links_only_labels_with_a_shared_member() {
    let g = three_artists();
    let links = genre_connectivity_map(&g);
    let rock = g.genre_id("Rock").unwrap();
    let pop = g.genre_id("Pop").unwrap();
    let jazz = g.genre_id("Jazz").unwrap();
    assert_eq!(links[rock], vec![pop]);
    assert_eq!(links[pop], vec![rock]);
    assert!(links[jazz].is_empty());
    assert!(!links[rock].contains(&jazz));
    assert!(!links[pop].contains(&jazz));
}

#[test]
fn connectivity_is_symmetric_and_irreflexive() {
    let mut g = Graph::new();
    g.insert_genres("x", &labels(&["a", "b", "c"]));
    g.insert_genres("y", &labels(&["c", "d"]));
    let links = genre_connectivity_map(&g);
    assert_eq!(links, vec![vec![1, 2], vec![0, 2], vec![0, 1, 3], vec![2]]);
    for a in 0..links.len() {
        assert!(!links[a].contains(&a));
        for &b in &links[a] {
            assert!(links[b].contains(&a));
        }
    }
}

#[test]
fn communities_group_entities_by_label() {
    let g = three_artists();
    let groups = find_communities(&g, Clustering::ByLabel);
    assert_eq!(groups, vec![vec![0, 1], vec![0], vec![2]]);
}

#[test]
fn entity_with_k_labels_is_in_k_groups() {
    let mut g = Graph::new();
    g.insert_genres("x", &labels(&["a", "b", "c"]));
    g.insert_genres("y", &labels(&[]));
    g.insert_genres("z", &labels(&["b"]));
    let groups = find_communities(&g, Clustering::ByLabel);
    let holding = |e: usize| groups.iter().filter(|group| group.contains(&e)).count();
    assert_eq!(holding(0), 3);
    assert_eq!(holding(1), 0);
    assert_eq!(holding(2), 1);
}

#[test]
fn components_of_the_three_artists() {
    let g = three_artists();
    let found = connected_components(&g);
    assert_eq!(found.ids, vec![Some(0), Some(0), Some(1)]);
    assert_eq!(found.roots, vec![0, 2]);
    assert_eq!(component_sizes(&found), vec![2, 1]);
}

#[test]
fn components_do_not_pass_through_nodes_that_are_no_entity() {
    let mut g = Graph::new();
    let a = g.insert_length("A", 1);
    let b = g.insert_length("B", 2);
    let rock = g.add_node("Rock");
    let c = g.insert_length("C", 3);
    g.add_edge(a, rock, 1);
    g.add_edge(rock, b, 1);
    g.add_edge(b, c, 1);
    let found = connected_components(&g);
    assert_eq!(found.ids[a], Some(0));
    assert_eq!(found.ids[b], Some(1));
    assert_eq!(found.ids[c], Some(1));
    assert_eq!(found.ids[rock], None);
    assert_eq!(found.roots, vec![a, b]);
}

#[test]
fn components_of_an_empty_graph() {
    let found = connected_components(&Graph::new());
    assert!(found.ids.is_empty());
    assert!(found.roots.is_empty());
    assert!(component_sizes(&found).is_empty());
}

#[test]
fn every_entity_is_in_exactly_one_component() {
    let mut g = Graph::new();
    for name in ["a", "b", "c", "d", "e"] {
        g.insert_length(name, 1);
    }
    g.add_edge(0, 3, 1);
    g.add_edge(3, 4, 1);
    g.add_edge(1, 2, 1);
    let found = connected_components(&g);
    assert_eq!(found.ids, vec![Some(0), Some(1), Some(1), Some(0), Some(0)]);
    assert_eq!(component_sizes(&found).iter().sum::<usize>(), 5);
}

#[test]
fn entities_are_listed_in_node_order() {
    let mut g = Graph::new();
    g.add_node("Rock");
    g.insert_length("A", 1);
    g.add_node("Pop");
    g.insert_length("B", 1);
    assert_eq!(entities(&g), vec![1, 3]);
}

#[test]
fn top_artists_are_ranked_by_descending_attribute() {
    let g = three_artists();
    assert_eq!(top_influential_artists(&g, 2), vec![(2, 2000), (0, 1000)]);
    assert_eq!(top_influential_artists(&g, 10), vec![(2, 2000), (0, 1000), (1, 500)]);
    assert!(top_influential_artists(&g, 0).is_empty());
}

#[test]
fn top_artists_with_equal_attributes_keep_node_order() {
    let mut g = Graph::new();
    g.insert_length("a", 5);
    g.insert_length("b", 9);
    g.insert_length("c", 5);
    g.insert_length("d", 9);
    assert_eq!(top_influential_artists(&g, 3), vec![(1, 9), (3, 9), (0, 5)]);
}

#[test]
fn community_scores_sum_the_attributes_of_the_members() {
    let g = three_artists();
    let scores = community_scores(&g);
    assert_eq!(
        scores,
        vec![
            GroupScore { label: 0, total: 1500, scored: 2 },
            GroupScore { label: 1, total: 1000, scored: 1 },
            GroupScore { label: 2, total: 2000, scored: 1 },
        ]
    );
    assert_eq!(rank_by_total(&scores), vec![2, 0, 1]);
    // The means are 750, 1000 and 2000.
    assert_eq!(rank_by_mean(&scores), vec![2, 1, 0]);
}

#[test]
fn group_without_scored_members_has_mean_zero() {
    let scores = vec![
        GroupScore { label: 0, total: 0, scored: 0 },
        GroupScore { label: 1, total: 3, scored: 2 },
        GroupScore { label: 2, total: 0, scored: 4 },
    ];
    assert_eq!(rank_by_mean(&scores), vec![1, 0, 2]);
}

#[test]
fn community_scores_pass_over_members_without_attribute() {
    let mut g = Graph::new();
    g.insert_length("A", 10);
    g.insert_genres("A", &labels(&["Rock"]));
    g.insert_genres("B", &labels(&["Rock"]));
    let scores = community_scores(&g);
    assert_eq!(scores, vec![GroupScore { label: 0, total: 10, scored: 1 }]);
}

#[test]
fn grouping_by_label_is_the_clustering_by_label() {
    let g = three_artists();
    assert_eq!(group_by_label(&g), find_communities(&g, Clustering::ByLabel));
}

#[test]
fn clustering_by_connectivity_gives_the_components() {
    let g = three_artists();
    assert_eq!(find_communities(&g, Clustering::ByConnectivity), vec![vec![0, 1], vec![2]]);
}

#[test]
fn clustering_by_connectivity_holds_every_entity_once_and_nothing_else() {
    let mut g = Graph::new();
    let a = g.insert_length("A", 1);
    let b = g.insert_length("B", 2);
    let rock = g.add_node("Rock");
    let c = g.insert_length("C", 3);
    let d = g.insert_length("D", 4);
    g.add_edge(a, rock, 1);
    g.add_edge(rock, b, 1);
    g.add_edge(d, b, 1);
    g.add_edge(b, c, 1);
    let groups = find_communities(&g, Clustering::ByConnectivity);
    assert_eq!(groups, vec![vec![a], vec![b, c, d]]);
    for node in 0..g.node_count() {
        let held = groups.iter().filter(|group| group.contains(&node)).count();
        assert_eq!(held, if g.is_member(node) { 1 } else { 0 });
    }
}

#[test]
fn clustering_of_an_empty_graph_is_empty() {
    let g = Graph::new();
    assert!(find_communities(&g, Clustering::ByLabel).is_empty());
    assert!(find_communities(&g, Clustering::ByConnectivity).is_empty());
}
