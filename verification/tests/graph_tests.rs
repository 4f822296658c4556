//! The console's directed graph store.

use graph_demo::graph::DirectedGraph;

#[test]
fn insert_and_query_nodes() {
    let mut g = DirectedGraph::new();
    assert!(g.get_all().is_empty());
    g.insert_node("a".to_string());
    g.insert_node("b".to_string());
    g.insert_node("a".to_string());
    assert_eq!(g.get_all(), vec!["a", "b"]);
    assert!(g.contains(&"a".to_string()));
    assert!(!g.contains(&"c".to_string()));
}

#[test]
fn edges_need_both_endpoints() {
    let mut g = DirectedGraph::new();
    g.insert_node("a".to_string());
    g.insert_edge("a".to_string(), "missing".to_string());
    assert!(g.get_adj(&"a".to_string()).is_empty());

    g.insert_node("b".to_string());
    g.insert_edge("a".to_string(), "b".to_string());
    g.insert_edge("a".to_string(), "b".to_string());
    assert_eq!(g.get_adj(&"a".to_string()), vec!["b"]);
}

#[test]
fn removals_cascade() {
    let mut g = DirectedGraph::new();
    for n in ["a", "b", "c"] {
        g.insert_node(n.to_string());
    }
    g.insert_edge("a".to_string(), "b".to_string());
    g.insert_edge("b".to_string(), "c".to_string());
    g.insert_edge("c".to_string(), "a".to_string());

    g.remove_edge(&"b".to_string(), &"c".to_string());
    assert!(g.get_adj(&"b".to_string()).is_empty());

    g.remove_node(&"a".to_string());
    assert_eq!(g.get_all(), vec!["b", "c"]);
    assert!(g.get_adj(&"c".to_string()).is_empty());
}
