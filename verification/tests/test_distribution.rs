//! Smoke tests for 1-hop and 2-hop distributions.

use graph_metrics::graph::Graph;
use graph_metrics::graph_analysis::{degree_distribution, two_hop_distribution};

fn path_graph_3() -> Graph {
    // Path 1-2-3 has degrees [1,2,1]
    let mut g = Graph::new();
    let n1 = g.add_node(0);
    let n2 = g.add_node(1);
    let n3 = g.add_node(2);
    g.add_edge(n1, n2);
    g.add_edge(n2, n3);
    g
}

#[test]
fn degree_distribution_path_graph() {
    let dist = degree_distribution(&path_graph_3());
    assert_eq!(dist.get(1).cloned().unwrap_or(0), 2);
    assert_eq!(dist.get(2).cloned().unwrap_or(0), 1);
}

#[test]
fn two_hop_distribution_path_graph() {
    // In the same path, nodes 1 & 3 each see each other at distance=2; node2 sees none.
    let dist2 = two_hop_distribution(&path_graph_3());
    assert_eq!(dist2.get(1).cloned().unwrap_or(0), 2);
    assert_eq!(dist2.get(0).cloned().unwrap_or(0), 1);
}

#[test]
fn degree_distribution_empty_graph() {
    let g = Graph::new();
    assert_eq!(degree_distribution(&g).len(), 0);
    assert_eq!(two_hop_distribution(&g).len(), 0);
}

#[test]
fn distributions_idempotent() {
    let g = path_graph_3();
    assert_eq!(degree_distribution(&g), degree_distribution(&g));
    assert_eq!(two_hop_distribution(&g), two_hop_distribution(&g));
}
