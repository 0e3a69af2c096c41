//! Edge-case behavior: duplicate edges, self-loops, stars, larger cliques.

use graph_metrics::graph::Graph;
use graph_metrics::bfs::bfs_distances;
use graph_metrics::betweenness::betweenness_centrality;
use graph_metrics::graph_analysis::{closeness_centrality, degree_distribution};
use graph_metrics::peel::densest_subgraph_peel;

fn as_f64(num: u128, den: u128) -> f64 {
    num as f64 / den as f64
}

#[test]
/// A star: the center carries all shortest paths between leaves, the leaves
/// none. With 3 leaves there are 3*2 ordered leaf pairs.
fn betweenness_star() {
    let mut g = Graph::new();
    let c = g.add_node(0);
    for p in 1..=3 {
        let leaf = g.add_node(p);
        g.add_edge(c, leaf);
    }
    let betw = betweenness_centrality(&g).unwrap();
    assert!((as_f64(betw[0].1.num, betw[0].1.den) - 6.0).abs() < 1e-9);
    for i in 1..=3 {
        assert_eq!(betw[i].1.num, 0);
    }
}

#[test]
/// Duplicate edges are tolerated: degrees count multiplicity, distances are
/// unaffected.
fn duplicate_edges_tolerated() {
    let mut g = Graph::new();
    let a = g.add_node(0);
    let b = g.add_node(1);
    g.add_edge(a, b);
    g.add_edge(a, b);
    let hist = degree_distribution(&g);
    assert_eq!(hist[2], 2); // both nodes have degree 2
    let (dist, _) = bfs_distances(&g, a);
    assert_eq!(dist, vec![0, 1]);
    let clos = closeness_centrality(&g);
    assert!((as_f64(clos[0].1.num, clos[0].1.den) - 1.0).abs() < 1e-9);
}

#[test]
/// On a larger clique every closeness score is exactly one and peeling
/// keeps everything; on a clique minus one edge the two far nodes drop
/// below one.
fn closeness_clique5() {
    let mut g = Graph::new();
    for p in 0..5 {
        g.add_node(p);
    }
    for i in 0..5usize {
        for j in (i + 1)..5usize {
            g.add_edge(i, j);
        }
    }
    for (_, score) in closeness_centrality(&g) {
        assert_eq!(score.num as u128 * 1, score.den);
    }
    let r = densest_subgraph_peel(&g);
    assert_eq!(r.nodes.len(), 5);
    assert!((as_f64(r.density.num, r.density.den) - 2.0).abs() < 1e-9);
}

#[test]
/// An empty graph is handled by every metric.
fn empty_graph_everywhere() {
    let g = Graph::new();
    assert_eq!(closeness_centrality(&g).len(), 0);
    assert_eq!(betweenness_centrality(&g).unwrap().len(), 0);
    let r = densest_subgraph_peel(&g);
    assert_eq!(r.nodes.len(), 0);
    assert_eq!(r.density.num, 0);
    assert_eq!(r.density.den, 1);
}
