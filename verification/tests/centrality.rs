use genre_graph::centrality::{
    centrality_terms, closeness, closeness_by_node, compute_centrality, contribution, rank_linear_centrality,
    total_weight, traverse,
    CentralityMode, Closeness, Contribution, LinearScore, Step,
};
use genre_graph::graph::Graph;

fn triangle() -> Graph {
    let mut g = Graph::new();
    let a = g.add_node("A");
    let b = g.add_node("B");
    let c = g.add_node("C");
    g.add_edge(a, b, 1);
    g.add_edge(b, c, 2);
    g.add_edge(a, c, 5);
    g
}

fn path(n: usize) -> Graph {
    let mut g = Graph::new();
    for i in 0..n {
        g.add_node(&format!("n{}", i));
    }
    for i in 1..n {
        g.add_edge(i - 1, i, i as u64);
    }
    g
}

#[test]
fn traversal_scores_every_entry_of_every_expanded_node() {
    let t = traverse(&triangle(), 0, None);
    assert_eq!(t.order, vec![(0, 0), (1, 1), (2, 1)]);
    assert_eq!(
        t.steps,
        vec![
            Step { from: 0, to: 1, weight: 1, depth: 0, degree: 2 },
            Step { from: 0, to: 2, weight: 5, depth: 0, degree: 2 },
            Step { from: 1, to: 0, weight: 1, depth: 1, degree: 2 },
            Step { from: 1, to: 2, weight: 2, depth: 1, degree: 2 },
            Step { from: 2, to: 1, weight: 2, depth: 1, degree: 2 },
            Step { from: 2, to: 0, weight: 5, depth: 1, degree: 2 },
        ]
    );
}

#[test]
fn depth_limit_is_inclusive() {
    let g = path(5);
    let t = traverse(&g, 0, Some(1));
    assert_eq!(t.order, vec![(0, 0), (1, 1)]);
    assert_eq!(t.steps.len(), 3);
    let t = traverse(&g, 0, Some(0));
    assert_eq!(t.order, vec![(0, 0)]);
    assert_eq!(t.steps, vec![Step { from: 0, to: 1, weight: 1, depth: 0, degree: 2 }]);
    let t = traverse(&g, 2, None);
    assert_eq!(t.order, vec![(2, 0), (1, 1), (3, 1), (0, 2), (4, 2)]);
    assert_eq!(t.steps.len(), 8);
}

#[test]
fn traversal_from_a_node_outside_the_graph_scores_nothing() {
    let t = traverse(&triangle(), 9, None);
    assert_eq!(t.order, vec![(9, 0)]);
    assert!(t.steps.is_empty());
}

#[test]
fn each_mode_has_its_contribution() {
    let step = Step { from: 0, to: 1, weight: 7, depth: 2, degree: 3 };
    assert_eq!(contribution(CentralityMode::Linear, &step), Contribution::Weight { weight: 7 });
    assert_eq!(
        contribution(CentralityMode::Logarithmic, &step),
        Contribution::LogWeight { weight: 7 }
    );
    assert_eq!(
        contribution(CentralityMode::InverseSquare, &step),
        Contribution::InverseSquare { depth: 2 }
    );
    assert_eq!(
        contribution(CentralityMode::WeightedDegree, &step),
        Contribution::WeightedDegree { weight: 7, degree: 3, depth: 2 }
    );
    assert_eq!(
        contribution(CentralityMode::Blended, &step),
        Contribution::Blended { weight: 7, depth: 2 }
    );
}

#[test]
fn centrality_scores_nodes_with_at_least_two_entries() {
    let g = path(4);
    let scores = compute_centrality(&g, CentralityMode::Linear, None);
    let nodes: Vec<usize> = scores.iter().map(|s| s.node).collect();
    assert_eq!(nodes, vec![1, 2]);
    let total = |terms: &Vec<Contribution>| -> u64 {
        terms
            .iter()
            .map(|t| match t {
                Contribution::Weight { weight } => *weight,
                _ => panic!("linear mode yields weights"),
            })
            .sum()
    };
    // Every edge of the path is scored once from each end: 2 * (1 + 2 + 3).
    assert_eq!(total(&scores[0].terms), 12);
    assert_eq!(total(&scores[1].terms), 12);
}

#[test]
fn centrality_terms_follow_the_depth_limit() {
    let g = path(4);
    let scores = compute_centrality(&g, CentralityMode::InverseSquare, Some(0));
    assert_eq!(scores.len(), 2);
    assert_eq!(
        scores[0].terms,
        vec![Contribution::InverseSquare { depth: 0 }, Contribution::InverseSquare { depth: 0 }]
    );
}

#[test]
fn closeness_is_reached_over_total_distance() {
    let scores = closeness_by_node(&triangle());
    assert_eq!(
        scores,
        vec![
            Closeness { node: 0, reached: 2, total: 4 },
            Closeness { node: 1, reached: 2, total: 3 },
            Closeness { node: 2, reached: 2, total: 5 },
        ]
    );
}

#[test]
fn closeness_is_ranked_by_descending_score() {
    let ranked = closeness(&triangle());
    assert_eq!(
        ranked,
        vec![
            Closeness { node: 1, reached: 2, total: 3 },
            Closeness { node: 0, reached: 2, total: 4 },
            Closeness { node: 2, reached: 2, total: 5 },
        ]
    );
    for i in 1..ranked.len() {
        let (a, b) = (ranked[i - 1], ranked[i]);
        assert!(a.reached as f64 / a.total as f64 >= b.reached as f64 / b.total as f64);
    }
}

#[test]
fn nodes_of_equal_closeness_keep_node_order() {
    let ranked = closeness(&path(3));
    // The ends reach two nodes over 1 + 3 and 2 + 3; the middle reaches two over 1 + 2.
    assert_eq!(
        ranked,
        vec![
            Closeness { node: 1, reached: 2, total: 3 },
            Closeness { node: 0, reached: 2, total: 4 },
            Closeness { node: 2, reached: 2, total: 5 },
        ]
    );
    let mut g = Graph::new();
    for name in ["a", "b", "c", "d"] {
        g.add_node(name);
    }
    g.add_edge(0, 1, 2);
    g.add_edge(2, 3, 4);
    let nodes: Vec<usize> = closeness(&g).iter().map(|c| c.node).collect();
    assert_eq!(nodes, vec![0, 1, 2, 3]);
}

#[test]
fn isolated_node_has_no_closeness() {
    let mut g = triangle();
    let lone = g.add_node("D");
    let scores = closeness(&g);
    assert_eq!(scores.len(), 3);
    assert!(scores.iter().all(|c| c.node != lone));
    let mut single = Graph::new();
    single.add_node("solo");
    assert!(closeness(&single).is_empty());
    assert!(compute_centrality(&single, CentralityMode::Linear, None).is_empty());
}

#[test]
fn closeness_is_undefined_where_all_distances_are_zero() {
    let mut g = Graph::new();
    let a = g.add_node("A");
    let b = g.add_node("B");
    g.add_edge(a, b, 0);
    assert!(closeness(&g).is_empty());
}

#[test]
fn linear_centrality_is_ranked_by_descending_score() {
    let mut g = Graph::new();
    for name in ["hub", "a", "b", "c"] {
        g.add_node(name);
    }
    g.add_edge(0, 1, 1);
    g.add_edge(0, 2, 2);
    g.add_edge(0, 3, 3);
    g.add_edge(1, 2, 10);
    let ranked = rank_linear_centrality(&g, Some(0));
    assert_eq!(
        ranked,
        vec![
            LinearScore { node: 2, score: 12 },
            LinearScore { node: 1, score: 11 },
            LinearScore { node: 0, score: 6 },
        ]
    );
    for i in 1..ranked.len() {
        assert!(ranked[i - 1].score >= ranked[i].score);
    }
}

#[test]
fn linear_centrality_keeps_node_order_on_ties() {
    let ranked = rank_linear_centrality(&path(4), None);
    assert_eq!(
        ranked,
        vec![LinearScore { node: 1, score: 12 }, LinearScore { node: 2, score: 12 }]
    );
}

#[test]
fn total_weight_adds_the_weights_only() {
    let terms = vec![
        Contribution::Weight { weight: u64::MAX },
        Contribution::LogWeight { weight: 5 },
        Contribution::Weight { weight: 1 },
    ];
    assert_eq!(total_weight(&terms), u64::MAX as u128 + 1);
    assert_eq!(total_weight(&Vec::new()), 0);
}

#[test]
fn nodes_of_equal_depth_are_expanded_in_the_order_of_discovery() {
    let mut g = Graph::new();
    for name in ["s", "x", "y", "z"] {
        g.add_node(name);
    }
    g.add_edge(0, 3, 1);
    g.add_edge(0, 1, 1);
    g.add_edge(1, 2, 1);
    g.add_edge(3, 2, 1);
    let t = traverse(&g, 0, None);
    assert_eq!(t.order, vec![(0, 0), (3, 1), (1, 1), (2, 2)]);
}

fn chain() -> Graph {
    let mut g = Graph::new();
    for name in ["X", "Y", "Z", "W"] {
        g.add_node(name);
    }
    g.add_edge(0, 1, 1);
    g.add_edge(1, 2, 2);
    g.add_edge(2, 3, 5);
    g
}

#[test]
fn linear_centrality_comes_ranked_by_descending_score() {
    let scores = compute_centrality(&chain(), CentralityMode::Linear, Some(0));
    let ranked: Vec<(usize, u128)> =
        scores.iter().map(|s| (s.node, total_weight(&s.terms))).collect();
    assert_eq!(ranked, vec![(2, 7), (1, 3)]);
    assert_eq!(
        scores[0].terms,
        vec![Contribution::Weight { weight: 2 }, Contribution::Weight { weight: 5 }]
    );
}

#[test]
fn linear_centrality_within_one_step_is_ranked_too() {
    let mut g = chain();
    g.add_edge(3, 0, 40);
    g.add_node("lone");
    let scores = compute_centrality(&g, CentralityMode::Linear, Some(1));
    let ranked: Vec<(usize, u128)> =
        scores.iter().map(|s| (s.node, total_weight(&s.terms))).collect();
    // From W the entries of W, Z and X are scored: (5 + 40) + (2 + 5) + (1 + 40).
    assert_eq!(ranked, vec![(3, 93), (0, 89), (2, 55), (1, 51)]);
    for i in 1..ranked.len() {
        assert!(ranked[i - 1].1 >= ranked[i].1);
    }
}

#[test]
fn terms_of_the_other_modes_come_in_node_order() {
    let g = chain();
    let nodes = |mode| -> Vec<usize> {
        compute_centrality(&g, mode, Some(0)).iter().map(|s| s.node).collect()
    };
    assert_eq!(nodes(CentralityMode::Logarithmic), vec![1, 2]);
    assert_eq!(nodes(CentralityMode::InverseSquare), vec![1, 2]);
    assert_eq!(nodes(CentralityMode::WeightedDegree), vec![1, 2]);
    assert_eq!(nodes(CentralityMode::Blended), vec![1, 2]);
    let table: Vec<usize> =
        centrality_terms(&g, CentralityMode::Linear, Some(0)).iter().map(|s| s.node).collect();
    assert_eq!(table, vec![1, 2]);
}

#[test]
fn linear_score_does_not_fall_as_the_limit_grows() {
    let g = path(6);
    let score_of = |limit: Option<usize>, node: usize| -> u128 {
        compute_centrality(&g, CentralityMode::Linear, limit)
            .iter()
            .find(|s| s.node == node)
            .map(|s| total_weight(&s.terms))
            .unwrap()
    };
    for node in 1..5 {
        let mut last = 0;
        for limit in [Some(0), Some(1), Some(2), Some(3), Some(9), None] {
            let score = score_of(limit, node);
            assert!(score >= last);
            last = score;
        }
        // Without a limit every edge is scored from both ends: 2 * (1 + 2 + 3 + 4 + 5).
        assert_eq!(last, 30);
    }
    assert_eq!(score_of(Some(0), 2), 5);
    assert_eq!(score_of(Some(1), 2), 5 + 3 + 7);
}
