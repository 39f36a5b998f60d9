use genre_graph::centrality::{centrality_within, compute_centrality, CentralityMode};
use genre_graph::config::{budget, depth_limit, ConfigError};
use genre_graph::graph::Graph;
use genre_graph::loader::LoadError;
use genre_graph::prioritizer::{select_influential_nodes, select_top_k};

fn pair() -> Graph {
    let mut g = Graph::new();
    let a = g.add_node("a");
    let b = g.add_node("b");
    let c = g.add_node("c");
    g.add_edge(a, b, 1);
    g.add_edge(b, c, 1);
    g
}

#[test]
fn select_top_k_of_zero_is_empty() {
    assert_eq!(select_top_k(&pair(), 0), Ok(Vec::new()));
}

#[test]
fn select_top_k_selects_as_the_greedy_selection_does() {
    let g = pair();
    assert_eq!(select_top_k(&g, 2), Ok(vec![1, 0]));
    assert_eq!(select_top_k(&g, 2).unwrap(), select_influential_nodes(&g, 2));
}

#[test]
fn negative_budget_is_refused() {
    assert_eq!(select_top_k(&pair(), -1), Err(ConfigError::NegativeBudget));
    assert_eq!(budget(isize::MIN), Err(ConfigError::NegativeBudget));
    assert_eq!(budget(7), Ok(7));
}

#[test]
fn negative_depth_is_refused() {
    let g = pair();
    let r = centrality_within(&g, CentralityMode::Linear, Some(-3));
    assert!(matches!(r, Err(ConfigError::NegativeDepth)));
    assert_eq!(depth_limit(Some(-1)), Err(ConfigError::NegativeDepth));
    assert_eq!(depth_limit(Some(0)), Ok(Some(0)));
    assert_eq!(depth_limit(None), Ok(None));
}

#[test]
fn depth_that_is_not_negative_is_passed_on() {
    let g = pair();
    let within = centrality_within(&g, CentralityMode::Linear, Some(0)).unwrap();
    let direct = compute_centrality(&g, CentralityMode::Linear, Some(0));
    assert_eq!(within.len(), direct.len());
    for (a, b) in within.iter().zip(direct.iter()) {
        assert_eq!(a.node, b.node);
        assert_eq!(a.terms, b.terms);
    }
    let unbounded = centrality_within(&g, CentralityMode::Linear, None).unwrap();
    assert_eq!(unbounded[0].terms.len(), 4);
}

#[test]
fn errors_describe_themselves() {
    assert_eq!(ConfigError::NegativeBudget.describe(), "the number of nodes to select is negative");
    assert_eq!(ConfigError::NegativeDepth.describe(), "the depth limit is negative");
    assert_eq!(
        LoadError::Malformed.describe(),
        "the data cannot be read as comma-separated records"
    );
}
