//! Tests for closeness and betweenness centrality.

use graph_metrics::graph::Graph;
use graph_metrics::graph_analysis::closeness_centrality;
use graph_metrics::betweenness::betweenness_centrality;

/// Build a 3-node triangle: every pair connected.
/// All shortest paths are direct, so betweenness should be zero.
fn triangle_graph() -> Graph {
    let mut g = Graph::new();
    let a = g.add_node(0);
    let b = g.add_node(1);
    let c = g.add_node(2);
    // connect all pairs
    g.add_edge(a, b);
    g.add_edge(b, c);
    g.add_edge(a, c);
    g
}

/// Build a simple path on 4 nodes: 0-1-2-3.
/// Nodes 1 and 2 lie on more shortest paths than the endpoints.
fn path_graph_4() -> Graph {
    let mut g = Graph::new();
    let n0 = g.add_node(0);
    let n1 = g.add_node(1);
    let n2 = g.add_node(2);
    let n3 = g.add_node(3);
    // chain 0-1-2-3
    g.add_edge(n0, n1);
    g.add_edge(n1, n2);
    g.add_edge(n2, n3);
    g
}

fn as_f64(num: u128, den: u128) -> f64 {
    num as f64 / den as f64
}

#[test]
/// In a triangle, every node's closeness = 1 (distance=1 to all others).
fn test_closeness_triangle() {
    let clos = closeness_centrality(&triangle_graph());
    for (_, score) in clos.iter() {
        let v = as_f64(score.num, score.den);
        assert!((v - 1.0).abs() < 1e-6, "expected closeness 1.0, got {}", v);
    }
}

#[test]
/// In a triangle, no node lies on any shortest path between others -> betweenness = 0.
fn test_betweenness_triangle() {
    let betw = betweenness_centrality(&triangle_graph()).unwrap();
    for (_, score) in betw.iter() {
        let v = as_f64(score.num, score.den);
        assert!((v - 0.0).abs() < 1e-6, "expected betweenness 0.0, got {}", v);
    }
}

#[test]
/// On path 0-1-2-3, endpoints have closeness .5 (distance sum 6), middles .75 (sum 4).
fn test_closeness_path4() {
    let clos = closeness_centrality(&path_graph_4());
    assert!((as_f64(clos[0].1.num, clos[0].1.den) - 0.5).abs() < 1e-6);
    assert!((as_f64(clos[1].1.num, clos[1].1.den) - 0.75).abs() < 1e-6);
    assert!((as_f64(clos[2].1.num, clos[2].1.den) - 0.75).abs() < 1e-6);
    assert!((as_f64(clos[3].1.num, clos[3].1.den) - 0.5).abs() < 1e-6);
}

#[test]
/// On path 0-1-2-3, nodes 1 and 2 each lie on 4 ordered shortest paths; endpoints lie on none.
fn test_betweenness_path4() {
    let betw = betweenness_centrality(&path_graph_4()).unwrap();
    let b0 = as_f64(betw[0].1.num, betw[0].1.den);
    let b1 = as_f64(betw[1].1.num, betw[1].1.den);
    let b2 = as_f64(betw[2].1.num, betw[2].1.den);
    let b3 = as_f64(betw[3].1.num, betw[3].1.den);
    assert!((b1 - 4.0).abs() < 1e-6, "node 1 betweenness; got {}", b1);
    assert!((b2 - 4.0).abs() < 1e-6, "node 2 betweenness; got {}", b2);
    assert!((b0 - 0.0).abs() < 1e-6);
    assert!((b3 - 0.0).abs() < 1e-6);
}

#[test]
/// Closeness scores stay in [0, 1] on a connected graph.
fn test_closeness_unit_range_path4() {
    let clos = closeness_centrality(&path_graph_4());
    for (_, score) in clos.iter() {
        assert!(score.den > 0);
        assert!(score.num <= score.den);
    }
}

#[test]
/// An isolated node gets the explicit zero closeness, not a division fault.
fn test_closeness_isolated_node() {
    let mut g = Graph::new();
    g.add_node(7);
    let clos = closeness_centrality(&g);
    assert_eq!(clos.len(), 1);
    assert_eq!(clos[0].0, 7);
    assert_eq!(clos[0].1.num, 0);
    assert_eq!(clos[0].1.den, 1);
}

#[test]
/// Centralities are pure functions of the graph: re-running gives the same
/// exact rationals.
fn test_centrality_idempotent() {
    let g = path_graph_4();
    let c1 = closeness_centrality(&g);
    let c2 = closeness_centrality(&g);
    assert_eq!(c1.len(), c2.len());
    for i in 0..c1.len() {
        assert_eq!(c1[i].0, c2[i].0);
        assert_eq!(c1[i].1.num, c2[i].1.num);
        assert_eq!(c1[i].1.den, c2[i].1.den);
    }
    let b1 = betweenness_centrality(&g).unwrap();
    let b2 = betweenness_centrality(&g).unwrap();
    assert_eq!(b1.len(), b2.len());
    for i in 0..b1.len() {
        assert_eq!(b1[i].0, b2[i].0);
        assert_eq!(b1[i].1.num, b2[i].1.num);
        assert_eq!(b1[i].1.den, b2[i].1.den);
    }
}
