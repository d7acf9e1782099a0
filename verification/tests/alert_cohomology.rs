use lau_plato_nervous::alert_cohomology::{compute_cohomology, Alert, AlertGraph, CohomologyResult};

fn bits(x: f64) -> u64 {
    x.to_bits()
}

fn alert(id: &str, deps: &[&str], fired: bool) -> Alert {
    Alert {
        id: id.into(),
        severity: bits(1.0),
        dependencies: deps.iter().map(|d| d.to_string()).collect(),
        fired,
    }
}

#[test]
fn alert_cohomology_test_empty_graph() {
    let g = AlertGraph::new();
    assert!(g.is_empty());
}

#[test]
fn test_add_alert() {
    let mut g = AlertGraph::new();
    g.add_alert(Alert {
        id: "a1".into(),
        severity: bits(0.5),
        dependencies: vec![],
        fired: true,
    });
    assert_eq!(g.len(), 1);
}

#[test]
fn test_h0_single_component() {
    let mut g = AlertGraph::new();
    g.add_alert(alert("a", &[], true));
    g.add_alert(alert("b", &[], true));
    g.add_edge("a".into(), "b".into(), bits(1.0));
    let comps = g.compute_h0();
    assert_eq!(comps.len(), 1);
}

#[test]
fn test_h0_two_components() {
    let mut g = AlertGraph::new();
    g.add_alert(alert("a", &[], true));
    g.add_alert(alert("b", &[], true));
    // No edges → two components
    let comps = g.compute_h0();
    assert_eq!(comps.len(), 2);
}

#[test]
fn test_h1_no_missed_alerts() {
    let mut g = AlertGraph::new();
    g.add_alert(alert("a", &[], true));
    g.add_alert(alert("b", &["a"], true));
    let missed = g.compute_h1();
    assert!(missed.is_empty());
}

#[test]
fn test_h1_missed_alert() {
    let mut g = AlertGraph::new();
    g.add_alert(alert("a", &[], true));
    g.add_alert(alert("b", &["a"], false));
    let missed = g.compute_h1();
    assert_eq!(missed, vec!["b"]);
}

#[test]
fn test_h1_not_missed_dep_not_fired() {
    let mut g = AlertGraph::new();
    g.add_alert(alert("a", &[], false));
    g.add_alert(alert("b", &["a"], false));
    let missed = g.compute_h1();
    // b's dependency a didn't fire either, so b is not "missed"
    assert!(missed.is_empty());
}

#[test]
fn test_compute_cohomology() {
    let mut g = AlertGraph::new();
    g.add_alert(alert("a", &[], true));
    g.add_alert(alert("b", &["a"], false));
    g.add_edge("a".into(), "b".into(), bits(1.0));
    let result = compute_cohomology(&g);
    assert_eq!(result.h0_dimension, 1);
    assert_eq!(result.h1_dimension, 1);
}

#[test]
fn test_adjacency_matrix() {
    let mut g = AlertGraph::new();
    g.add_alert(alert("a", &[], true));
    g.add_alert(alert("b", &[], true));
    g.add_edge("a".into(), "b".into(), bits(2.0));
    let adj = g.adjacency_matrix();
    assert_eq!(adj.len(), 2);
}

#[test]
fn h0_lists_clusters_in_order_of_first_alert() {
    let mut g = AlertGraph::new();
    for id in ["e", "d", "c", "b", "a"] {
        g.add_alert(alert(id, &[], true));
    }
    g.add_edge("a".into(), "e".into(), bits(1.0));
    g.add_edge("c".into(), "d".into(), bits(1.0));
    g.add_edge("d".into(), "a".into(), bits(1.0));
    let comps = g.compute_h0();
    assert_eq!(comps, vec![vec!["e", "d", "c", "a"], vec!["b"]]);
}

#[test]
fn h1_is_sorted_and_requires_every_dependency_fired() {
    let mut g = AlertGraph::new();
    g.add_alert(alert("zeta", &["root"], false));
    g.add_alert(alert("root", &[], true));
    g.add_alert(alert("alpha", &["root"], false));
    g.add_alert(alert("mixed", &["root", "quiet"], false));
    g.add_alert(alert("quiet", &[], false));
    g.add_alert(alert("ghost", &["unknown"], false));
    g.add_alert(alert("orphan", &[], false));
    assert_eq!(g.compute_h1(), vec!["alpha", "zeta"]);
}

#[test]
fn add_alert_replaces_same_id() {
    let mut g = AlertGraph::new();
    g.add_alert(alert("a", &[], false));
    g.add_alert(alert("b", &["a"], false));
    assert!(g.compute_h1().is_empty());
    g.add_alert(alert("a", &[], true));
    assert_eq!(g.len(), 2);
    assert_eq!(g.compute_h1(), vec!["b"]);
}

#[test]
fn adjacency_matrix_sorted_nodes_and_last_weight() {
    let mut g = AlertGraph::new();
    g.add_alert(alert("b", &[], true));
    g.add_edge("c".into(), "a".into(), bits(1.5));
    g.add_edge("b".into(), "c".into(), bits(2.0));
    g.add_edge("b".into(), "c".into(), bits(3.0));
    let adj = g.adjacency_matrix();
    // nodes sorted: a, b, c
    assert_eq!(adj.len(), 3);
    assert!(adj.iter().all(|row| row.len() == 3));
    assert_eq!(adj[2][0], bits(1.5));
    assert_eq!(adj[1][2], bits(3.0));
    assert_eq!(adj[0][1], 0);
    assert_eq!(adj[1][1], 0);
}

#[test]
fn cohomology_result_fields() {
    let mut g = AlertGraph::new();
    g.add_alert(alert("a", &[], true));
    g.add_alert(alert("b", &["a"], false));
    g.add_alert(alert("c", &["a"], false));
    let r: CohomologyResult = compute_cohomology(&g);
    assert_eq!(r.h0_dimension, 3);
    assert_eq!(r.components.len(), 3);
    assert_eq!(r.missed_alerts, vec!["b", "c"]);
    assert_eq!(r.h1_dimension, 2);
}
