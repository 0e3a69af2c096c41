//! Tests for the BFS oracle, the average-path estimator, and the
//! densest-subgraph peeler.

use graph_metrics::graph::Graph;
use graph_metrics::bfs::bfs_distances;
use graph_metrics::graph_analysis::average_shortest_path;
use graph_metrics::peel::densest_subgraph_peel;

fn clique(k: usize) -> Graph {
    let mut g = Graph::new();
    let mut idx = Vec::new();
    for p in 0..k {
        idx.push(g.add_node(p));
    }
    for i in 0..k {
        for j in (i + 1)..k {
            g.add_edge(idx[i], idx[j]);
        }
    }
    g
}

fn path_graph_4() -> Graph {
    let mut g = Graph::new();
    let n0 = g.add_node(0);
    let n1 = g.add_node(1);
    let n2 = g.add_node(2);
    let n3 = g.add_node(3);
    g.add_edge(n0, n1);
    g.add_edge(n1, n2);
    g.add_edge(n2, n3);
    g
}

#[test]
fn bfs_distances_path4() {
    let g = path_graph_4();
    let (dist, order) = bfs_distances(&g, 0);
    assert_eq!(dist, vec![0, 1, 2, 3]);
    assert_eq!(order, vec![0, 1, 2, 3]);
}

#[test]
fn bfs_unreached_sentinel() {
    let mut g = Graph::new();
    let a = g.add_node(0);
    let b = g.add_node(1);
    g.add_node(2); // isolated
    g.add_edge(a, b);
    let (dist, order) = bfs_distances(&g, 0);
    assert_eq!(dist[0], 0);
    assert_eq!(dist[1], 1);
    assert_eq!(dist[2], usize::MAX);
    assert_eq!(order.len(), 2);
}

#[test]
/// Path 0-1-2-3 with all four sources sampled: total distance 20 over 12
/// reachable pairs, i.e. 5/3.
fn average_shortest_path_path4() {
    let avg = average_shortest_path(&path_graph_4());
    assert_eq!(avg.num, 20);
    assert_eq!(avg.den, 12);
    let value = avg.num as f64 / avg.den as f64;
    assert!((value - 5.0 / 3.0).abs() < 1e-9);
}

#[test]
/// A single node has no reachable pairs: the average is undefined, reported
/// as a zero denominator (NaN once divided).
fn average_shortest_path_degenerate() {
    let mut g = Graph::new();
    g.add_node(0);
    let avg = average_shortest_path(&g);
    assert_eq!(avg.den, 0);
    assert!((avg.num as f64 / avg.den as f64).is_nan());
}

#[test]
/// Peeling a clique of size k keeps all k nodes at density (k-1)/2.
fn densest_subgraph_clique() {
    for k in 2..=6usize {
        let g = clique(k);
        let r = densest_subgraph_peel(&g);
        assert_eq!(r.nodes.len(), k, "clique of {} nodes", k);
        let mut sorted = r.nodes.clone();
        sorted.sort();
        assert_eq!(sorted, (0..k).collect::<Vec<_>>());
        let density = r.density.num as f64 / r.density.den as f64;
        let expected = (k as f64 - 1.0) / 2.0;
        assert!((density - expected).abs() < 1e-9, "density for k={}", k);
    }
}

#[test]
/// A clique with a pendant node: peeling drops the pendant and keeps the
/// clique at its full density.
fn densest_subgraph_clique_with_tail() {
    let mut g = clique(4);
    let t = g.add_node(99);
    g.add_edge(0, t);
    let r = densest_subgraph_peel(&g);
    let mut sorted = r.nodes.clone();
    sorted.sort();
    assert_eq!(sorted, vec![0, 1, 2, 3]);
    let density = r.density.num as f64 / r.density.den as f64;
    assert!((density - 1.5).abs() < 1e-9);
}

#[test]
/// An edgeless graph records no positive density at all.
fn densest_subgraph_no_edges() {
    let mut g = Graph::new();
    g.add_node(0);
    g.add_node(1);
    let r = densest_subgraph_peel(&g);
    assert_eq!(r.nodes.len(), 0);
    assert_eq!(r.density.num, 0);
    assert_eq!(r.density.den, 1);
}

#[test]
fn peel_idempotent() {
    let g = clique(5);
    let a = densest_subgraph_peel(&g);
    let b = densest_subgraph_peel(&g);
    assert_eq!(a.nodes, b.nodes);
    assert_eq!(a.density.num, b.density.num);
    assert_eq!(a.density.den, b.density.den);
}

#[test]
fn graph_counts() {
    let g = clique(4);
    assert_eq!(g.node_count(), 4);
    assert_eq!(g.edge_count(), 6);
    assert_eq!(g.payload(2), 2);
    assert_eq!(g.degree(2), 3);
}
