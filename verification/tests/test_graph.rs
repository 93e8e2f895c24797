use rer::graph::DepGraph;
use std::collections::HashSet;

#[test]
fn test_no_cycle() {
    let mut g = DepGraph::new();
    g.add_edge("a", "b");
    g.add_edge("b", "c");
    assert!(g.find_cycle().is_empty());
}

#[test]
fn test_finds_cycle() {
    let mut g = DepGraph::new();
    g.add_edge("a", "b");
    g.add_edge("b", "c");
    g.add_edge("c", "a");
    let cycle = g.find_cycle();
    assert!(!cycle.is_empty());
    // every node in the cycle has a successor also in the cycle
    let set: HashSet<&String> = cycle.iter().collect();
    for n in &cycle {
        assert!(g.successors(n).iter().any(|s| set.contains(s)));
    }
}

#[test]
fn test_dependency_order_children_first() {
    // app -> lib -> base ; request order [app]
    let mut g = DepGraph::new();
    g.add_edge("app", "lib");
    g.add_edge("lib", "base");
    let order = g.dependency_order(&["app".to_string()]);
    let pos = |n: &str| order.iter().position(|x| x == n).unwrap();
    assert!(pos("base") < pos("lib"));
    assert!(pos("lib") < pos("app"));
}

#[test]
fn dependency_order_keeps_request_order_otherwise() {
    let mut g = DepGraph::new();
    g.add_node("z");
    g.add_node("y");
    g.add_edge("x", "w");
    let order = g.dependency_order(&["y".to_string(), "missing".to_string(), "x".to_string()]);
    // requested names first (dependencies moved before), then the rest by name
    assert_eq!(order, vec!["y", "w", "x", "z"]);
}

#[test]
fn cycle_found_is_a_cycle_of_edges() {
    let mut g = DepGraph::new();
    g.add_edge("a", "b");
    g.add_edge("b", "a");
    g.add_edge("b", "c");
    let cycle = g.find_cycle();
    assert_eq!(cycle, vec!["a", "b"]);
    // adding an edge twice keeps one edge
    g.add_edge("a", "b");
    assert_eq!(g.successors("a"), vec!["b"]);
    assert!(g.successors("nowhere").is_empty());
}

#[test]
fn dependency_order_allows_a_package_requiring_itself() {
    let mut g = DepGraph::new();
    g.add_edge("a", "a");
    g.add_edge("a", "b");
    assert_eq!(g.dependency_order(&["a".to_string()]), vec!["b".to_string(), "a".to_string()]);
}
