//! Distance-based metrics: average shortest-path length over sampled
//! sources, closeness centrality, and the degree / two-hop histograms.

use vstd::prelude::*;
use crate::Ratio;
use crate::graph::{Graph, NODE_LIMIT, UNREACHED};
use crate::graph::lemma_dist_zero_iff_self;
use crate::bfs::bfs_distances;

verus! {

/// Sum over nodes `v < m` of the geodesic distance from `u` to `v`;
/// unreachable nodes and `u` itself contribute zero.
pub open spec fn dist_sum_to(g: Graph, u: int, m: int) -> int
    decreases m,
{
    if m <= 0 {
        0
    } else {
        dist_sum_to(g, u, m - 1) + if g.reach(u, m - 1) && m - 1 != u {
            g.dist(u, m - 1) as int
        } else {
            0
        }
    }
}

/// Number of nodes `v < m`, other than `u`, reachable from `u`.
pub open spec fn reach_count_to(g: Graph, u: int, m: int) -> int
    decreases m,
{
    if m <= 0 {
        0
    } else {
        reach_count_to(g, u, m - 1) + if g.reach(u, m - 1) && m - 1 != u {
            1int
        } else {
            0int
        }
    }
}

/// Numerator of the closeness score of `u`: `n - 1`, or zero for a node with
/// no positive finite distances.
pub open spec fn closeness_num(g: Graph, u: int) -> int {
    if dist_sum_to(g, u, g.n() as int) > 0 {
        g.n() - 1
    } else {
        0
    }
}

/// Denominator of the closeness score of `u`: the distance sum, or one for a
/// node whose score is pinned to zero.
pub open spec fn closeness_den(g: Graph, u: int) -> int {
    if dist_sum_to(g, u, g.n() as int) > 0 {
        dist_sum_to(g, u, g.n() as int)
    } else {
        1
    }
}

/// How many sources the average-path estimator samples: the first
/// `min(5, n)` nodes in enumeration order.
pub open spec fn sample_count(g: Graph) -> int {
    if g.n() < 5 {
        g.n() as int
    } else {
        5
    }
}

/// Total geodesic distance over all pairs `(s, v)` with `s` among the first
/// `m` sources and `v` reachable from `s`.
pub open spec fn avg_num(g: Graph, m: int) -> int
    decreases m,
{
    if m <= 0 {
        0
    } else {
        avg_num(g, m - 1) + dist_sum_to(g, m - 1, g.n() as int)
    }
}

/// Total number of reachable pairs counted by `avg_num`.
pub open spec fn avg_den(g: Graph, m: int) -> int
    decreases m,
{
    if m <= 0 {
        0
    } else {
        avg_den(g, m - 1) + reach_count_to(g, m - 1, g.n() as int)
    }
}

/// One full traversal from `s`, folded into the distance sum and the count
/// of reachable non-source nodes.
pub(crate) fn dist_sum_of(g: &Graph, s: usize) -> (r: (u64, u64))
    requires
        g.wf(),
        g.bounded(),
        (s as int) < g.n(),
    ensures
        r.0 == dist_sum_to(*g, s as int, g.n() as int),
        r.1 == reach_count_to(*g, s as int, g.n() as int),
        r.0 <= (NODE_LIMIT as int) * (NODE_LIMIT as int),
        r.1 <= NODE_LIMIT,
{
    let n = g.adj.len();
    let (dist, _order) = bfs_distances(g, s);
    let mut sum: u64 = 0;
    let mut pairs: u64 = 0;
    let mut v: usize = 0;
    while v < n
        invariant
            g.wf(),
            g.bounded(),
            n == g.n(),
            (s as int) < g.n(),
            v <= n,
            dist@.len() == n,
            forall|x: int|
                0 <= x < n ==> ((#[trigger] dist@[x]) != UNREACHED <==> g.reach(s as int, x)),
            forall|x: int|
                0 <= x < n && (#[trigger] dist@[x]) != UNREACHED
                    ==> dist@[x] < n && g.dist(s as int, x) == dist@[x],
            sum == dist_sum_to(*g, s as int, v as int),
            pairs == reach_count_to(*g, s as int, v as int),
            sum <= (v as int) * (NODE_LIMIT as int),
            pairs <= v,
        decreases n - v,
    {
        let d = dist[v];
        proof {
            assert((v as int + 1) * (NODE_LIMIT as int)
                == (v as int) * (NODE_LIMIT as int) + (NODE_LIMIT as int)) by (nonlinear_arith);
            assert((v as int) * (NODE_LIMIT as int)
                <= (NODE_LIMIT as int) * (NODE_LIMIT as int)) by (nonlinear_arith)
                requires 0 <= v as int <= NODE_LIMIT as int;
            if d != UNREACHED {
                lemma_dist_zero_iff_self(*g, s as int, v as int);
            }
        }
        if d > 0 && d != UNREACHED {
            sum = sum + d as u64;
            pairs = pairs + 1;
        }
        v = v + 1;
    }
    proof {
        assert((n as int) * (NODE_LIMIT as int)
            <= (NODE_LIMIT as int) * (NODE_LIMIT as int)) by (nonlinear_arith)
            requires 0 <= n as int <= NODE_LIMIT as int;
    }
    (sum, pairs)
}

/// Average shortest-path length over all reachable pairs seen from the first
/// `min(5, n)` sources, as the exact fraction
/// `total distance / reachable pairs`.
///
/// When no sampled source reaches any other node the denominator is zero and
/// the average is undefined; callers that divide obtain the conventional NaN.
pub fn average_shortest_path(g: &Graph) -> (r: Ratio)
    requires
        g.wf(),
        g.bounded(),
    ensures
        r.num == avg_num(*g, sample_count(*g)),
        r.den == avg_den(*g, sample_count(*g)),
{
    let n = g.adj.len();
    let m = if n < 5 { n } else { 5 };
    let mut total: u64 = 0;
    let mut pairs: u64 = 0;
    let mut s: usize = 0;
    while s < m
        invariant
            g.wf(),
            g.bounded(),
            n == g.n(),
            m == sample_count(*g),
            m <= n,
            s <= m,
            total == avg_num(*g, s as int),
            pairs == avg_den(*g, s as int),
            total <= (s as int) * ((NODE_LIMIT as int) * (NODE_LIMIT as int)),
            pairs <= (s as int) * (NODE_LIMIT as int),
        decreases m - s,
    {
        let (sum, cnt) = dist_sum_of(g, s);
        proof {
            let l2 = (NODE_LIMIT as int) * (NODE_LIMIT as int);
            assert((s as int + 1) * l2 == (s as int) * l2 + l2) by (nonlinear_arith);
            assert((s as int + 1) * l2 <= 5 * l2) by (nonlinear_arith)
                requires 0 <= s as int + 1 <= 5, 0 <= l2;
            assert((s as int + 1) * (NODE_LIMIT as int)
                == (s as int) * (NODE_LIMIT as int) + (NODE_LIMIT as int)) by (nonlinear_arith);
            assert((s as int + 1) * (NODE_LIMIT as int) <= 5 * (NODE_LIMIT as int))
                by (nonlinear_arith)
                requires 0 <= s as int + 1 <= 5;
        }
        total = total + sum;
        pairs = pairs + cnt;
        s = s + 1;
    }
    Ratio { num: total as u128, den: pairs as u128 }
}

/// Closeness centrality of every node: the pair `(payload, score)` for node
/// `u`, where the score is exactly `(n - 1) / (sum of distances from u)`,
/// and zero (as `0 / 1`) when the distance sum is zero.
pub fn closeness_centrality(g: &Graph) -> (r: Vec<(usize, Ratio)>)
    requires
        g.wf(),
        g.bounded(),
    ensures
        r@.len() == g.n(),
        forall|u: int|
            0 <= u < g.n()
                ==> (#[trigger] r@[u]).0 == g.payloads@[u]
                    && r@[u].1.num == closeness_num(*g, u)
                    && r@[u].1.den == closeness_den(*g, u)
                    && r@[u].1.wf(),
{
    let n = g.adj.len();
    let mut r: Vec<(usize, Ratio)> = Vec::new();
    let mut u: usize = 0;
    while u < n
        invariant
            g.wf(),
            g.bounded(),
            n == g.n(),
            u <= n,
            r@.len() == u,
            forall|x: int|
                0 <= x < u as int
                    ==> (#[trigger] r@[x]).0 == g.payloads@[x]
                        && r@[x].1.num == closeness_num(*g, x)
                        && r@[x].1.den == closeness_den(*g, x)
                        && r@[x].1.wf(),
        decreases n - u,
    {
        let (sum, _cnt) = dist_sum_of(g, u);
        let score = if sum > 0 {
            Ratio { num: (n - 1) as u128, den: sum as u128 }
        } else {
            Ratio { num: 0, den: 1 }
        };
        r.push((g.payloads[u], score));
        u = u + 1;
    }
    r
}

proof fn lemma_dist_sum_lower(g: Graph, u: int, m: int)
    requires
        g.wf(),
        g.connected(),
        0 <= u < g.n(),
        0 <= m <= g.n(),
    ensures
        dist_sum_to(g, u, m) >= m - if u < m { 1int } else { 0int },
        dist_sum_to(g, u, m) >= 0,
    decreases m,
{
    if m > 0 {
        lemma_dist_sum_lower(g, u, m - 1);
        if m - 1 != u {
            assert(g.reach(u, m - 1));
            lemma_dist_zero_iff_self(g, u, m - 1);
        }
    }
}

proof fn lemma_dist_sum_complete(g: Graph, u: int, m: int)
    requires
        g.wf(),
        g.complete(),
        0 <= u < g.n(),
        0 <= m <= g.n(),
    ensures
        dist_sum_to(g, u, m) == m - if u < m { 1int } else { 0int },
    decreases m,
{
    if m > 0 {
        lemma_dist_sum_complete(g, u, m - 1);
        let v = m - 1;
        if v != u {
            assert(g.edge(u, v));
            assert(g.walk_to(u, u, 0));
            assert(g.walk_to(u, v, 1)) by {
                assert(g.edge(u, v) && g.walk_to(u, u, 0));
            }
            assert(g.reach(u, v));
            assert(!g.walk_to(u, v, 0));
            assert(g.is_dist(u, v, 1)) by {
                assert forall|k: nat| k < 1 implies !g.walk_to(u, v, k) by {
                    assert(k == 0);
                }
            }
            crate::graph::lemma_dist_of(g, u, v, 1);
        }
    }
}

/// On a connected graph every closeness score lies in `[0, 1]`: the
/// numerator never exceeds the denominator, because all `n - 1` other nodes
/// are reachable and each contributes at least one hop to the distance sum.
pub proof fn lemma_closeness_connected_in_unit(g: Graph, u: int)
    requires
        g.wf(),
        g.connected(),
        0 <= u < g.n(),
    ensures
        0 <= closeness_num(g, u) <= closeness_den(g, u),
{
    lemma_dist_sum_lower(g, u, g.n() as int);
}

/// On a complete graph every closeness score is exactly one: every other
/// node sits at distance one, so the distance sum equals `n - 1`.
pub proof fn lemma_closeness_complete_one(g: Graph, u: int)
    requires
        g.wf(),
        g.complete(),
        0 <= u < g.n(),
        g.n() >= 2,
    ensures
        closeness_num(g, u) == g.n() - 1,
        closeness_den(g, u) == g.n() - 1,
{
    lemma_dist_sum_complete(g, u, g.n() as int);
}

/// Number of nodes below `m` whose degree is exactly `d`.
pub open spec fn deg_count(g: Graph, d: int, m: int) -> int
    decreases m,
{
    if m <= 0 {
        0
    } else {
        deg_count(g, d, m - 1) + if g.deg(m - 1) == d { 1int } else { 0int }
    }
}

/// Largest degree among the nodes below `m` (zero when there are none).
pub open spec fn max_deg_to(g: Graph, m: int) -> int
    decreases m,
{
    if m <= 0 {
        0
    } else if g.deg(m - 1) > max_deg_to(g, m - 1) {
        g.deg(m - 1) as int
    } else {
        max_deg_to(g, m - 1)
    }
}

proof fn lemma_deg_count_le(g: Graph, d: int, m: int)
    requires
        0 <= m,
    ensures
        0 <= deg_count(g, d, m) <= m,
    decreases m,
{
    if m > 0 {
        lemma_deg_count_le(g, d, m - 1);
    }
}

proof fn lemma_deg_le_max(g: Graph, u: int, m: int)
    requires
        0 <= u < m,
    ensures
        g.deg(u) <= max_deg_to(g, m),
        max_deg_to(g, m) >= 0,
    decreases m,
{
    if u < m - 1 {
        lemma_deg_le_max(g, u, m - 1);
    }
}

/// Degree histogram: entry `d` is the number of nodes of degree `d`. The
/// histogram covers every degree that occurs (its length is one more than
/// the largest degree; empty graphs yield an empty histogram).
pub fn degree_distribution(g: &Graph) -> (r: Vec<usize>)
    requires
        g.wf(),
        g.bounded(),
    ensures
        g.n() == 0 ==> r@.len() == 0,
        g.n() > 0 ==> r@.len() == max_deg_to(*g, g.n() as int) + 1,
        forall|d: int| 0 <= d < r@.len() ==> (#[trigger] r@[d]) == deg_count(*g, d, g.n() as int),
        forall|u: int| 0 <= u < g.n() ==> (#[trigger] g.deg(u)) < r@.len(),
{
    let n = g.adj.len();
    if n == 0 {
        let r: Vec<usize> = Vec::new();
        return r;
    }
    let mut md: usize = 0;
    let mut u: usize = 0;
    while u < n
        invariant
            g.wf(),
            g.bounded(),
            n == g.n(),
            u <= n,
            md == max_deg_to(*g, u as int),
            md <= NODE_LIMIT,
        decreases n - u,
    {
        let d = g.adj[u].len();
        if d > md {
            md = d;
        }
        u = u + 1;
    }
    let mut r: Vec<usize> = Vec::new();
    while r.len() < md + 1
        invariant
            md <= NODE_LIMIT,
            r@.len() <= md + 1,
            forall|d: int| 0 <= d < r@.len() ==> (#[trigger] r@[d]) == 0,
        decreases md + 1 - r@.len(),
    {
        r.push(0);
    }
    proof {
        assert forall|d: int| 0 <= d < r@.len() implies (#[trigger] r@[d]) == deg_count(*g, d, 0) by {
        }
    }
    let mut u: usize = 0;
    while u < n
        invariant
            g.wf(),
            g.bounded(),
            n == g.n(),
            u <= n,
            r@.len() == md + 1,
            md == max_deg_to(*g, n as int),
            forall|d: int| 0 <= d < r@.len() ==> (#[trigger] r@[d]) == deg_count(*g, d, u as int),
        decreases n - u,
    {
        let d = g.adj[u].len();
        proof {
            lemma_deg_le_max(*g, u as int, n as int);
            lemma_deg_count_le(*g, d as int, u as int);
        }
        let c = r[d];
        r[d] = c + 1;
        u = u + 1;
    }
    proof {
        assert forall|u2: int| 0 <= u2 < g.n() implies (#[trigger] g.deg(u2)) < r@.len() by {
            lemma_deg_le_max(*g, u2, n as int);
        }
    }
    r
}

/// Re-running closeness on an unmodified graph yields identical results:
/// the contract pins every entry, so any two outputs that satisfy it agree.
pub proof fn lemma_closeness_deterministic(
    g: Graph,
    r1: Seq<(usize, Ratio)>,
    r2: Seq<(usize, Ratio)>,
)
    requires
        r1.len() == g.n(),
        r2.len() == g.n(),
        forall|u: int|
            0 <= u < g.n()
                ==> (#[trigger] r1[u]).0 == g.payloads@[u]
                    && r1[u].1.num == closeness_num(g, u)
                    && r1[u].1.den == closeness_den(g, u),
        forall|u: int|
            0 <= u < g.n()
                ==> (#[trigger] r2[u]).0 == g.payloads@[u]
                    && r2[u].1.num == closeness_num(g, u)
                    && r2[u].1.den == closeness_den(g, u),
    ensures
        r1 == r2,
{
    assert forall|u: int| 0 <= u < g.n() implies r1[u] == r2[u] by {
        assert(r1[u].1.num == r2[u].1.num && r1[u].1.den == r2[u].1.den);
        assert(r1[u].1 == r2[u].1);
    }
    assert(r1 =~= r2);
}

/// Re-running the degree histogram on an unmodified graph yields identical
/// results, for the same reason.
pub proof fn lemma_degree_distribution_deterministic(g: Graph, r1: Seq<usize>, r2: Seq<usize>)
    requires
        g.n() == 0 ==> r1.len() == 0 && r2.len() == 0,
        g.n() > 0 ==> r1.len() == max_deg_to(g, g.n() as int) + 1,
        g.n() > 0 ==> r2.len() == max_deg_to(g, g.n() as int) + 1,
        forall|d: int| 0 <= d < r1.len() ==> (#[trigger] r1[d]) == deg_count(g, d, g.n() as int),
        forall|d: int| 0 <= d < r2.len() ==> (#[trigger] r2[d]) == deg_count(g, d, g.n() as int),
    ensures
        r1 == r2,
{
    assert(r1 =~= r2);
}

/// Re-running the two-hop histogram on an unmodified graph yields identical
/// results, for the same reason.
pub proof fn lemma_two_hop_deterministic(g: Graph, r1: Seq<usize>, r2: Seq<usize>)
    requires
        r1.len() == g.n(),
        r2.len() == g.n(),
        forall|c: int| 0 <= c < r1.len() ==> (#[trigger] r1[c]) == two_hop_count(g, c, g.n() as int),
        forall|c: int| 0 <= c < r2.len() ==> (#[trigger] r2[c]) == two_hop_count(g, c, g.n() as int),
    ensures
        r1 == r2,
{
    assert(r1 =~= r2);
}

/// Number of nodes `v < m` at geodesic distance exactly two from `u`.
pub open spec fn two_hop_to(g: Graph, u: int, m: int) -> int
    decreases m,
{
    if m <= 0 {
        0
    } else {
        two_hop_to(g, u, m - 1) + if g.reach(u, m - 1) && g.dist(u, m - 1) == 2 {
            1int
        } else {
            0int
        }
    }
}

/// Number of nodes below `m` whose two-hop count is exactly `c`.
pub open spec fn two_hop_count(g: Graph, c: int, m: int) -> int
    decreases m,
{
    if m <= 0 {
        0
    } else {
        two_hop_count(g, c, m - 1) + if two_hop_to(g, m - 1, g.n() as int) == c {
            1int
        } else {
            0int
        }
    }
}

proof fn lemma_two_hop_le(g: Graph, u: int, m: int)
    requires
        g.wf(),
        0 <= u < g.n(),
        0 <= m <= g.n(),
    ensures
        0 <= two_hop_to(g, u, m) <= m - if u < m { 1int } else { 0int },
    decreases m,
{
    if m > 0 {
        lemma_two_hop_le(g, u, m - 1);
        if u == m - 1 && g.reach(u, m - 1) {
            lemma_dist_zero_iff_self(g, u, m - 1);
        }
    }
}

proof fn lemma_two_hop_count_le(g: Graph, c: int, m: int)
    requires
        0 <= m,
    ensures
        0 <= two_hop_count(g, c, m) <= m,
    decreases m,
{
    if m > 0 {
        lemma_two_hop_count_le(g, c, m - 1);
    }
}

/// Two-hop histogram: entry `c` is the number of nodes that have exactly `c`
/// nodes at geodesic distance two. Entries run from `0` to `n - 1`, the
/// largest possible two-hop count.
pub fn two_hop_distribution(g: &Graph) -> (r: Vec<usize>)
    requires
        g.wf(),
        g.bounded(),
    ensures
        r@.len() == g.n(),
        forall|c: int|
            0 <= c < r@.len() ==> (#[trigger] r@[c]) == two_hop_count(*g, c, g.n() as int),
{
    let n = g.adj.len();
    let mut r: Vec<usize> = Vec::new();
    while r.len() < n
        invariant
            n == g.n(),
            r@.len() <= n,
            forall|c: int| 0 <= c < r@.len() ==> (#[trigger] r@[c]) == 0,
        decreases n - r@.len(),
    {
        r.push(0);
    }
    let mut u: usize = 0;
    while u < n
        invariant
            g.wf(),
            g.bounded(),
            n == g.n(),
            u <= n,
            r@.len() == n,
            forall|c: int| 0 <= c < n ==> (#[trigger] r@[c]) == two_hop_count(*g, c, u as int),
        decreases n - u,
    {
        let (dist, _order) = bfs_distances(g, u);
        let mut cnt: usize = 0;
        let mut v: usize = 0;
        while v < n
            invariant
                g.wf(),
                g.bounded(),
                n == g.n(),
                (u as int) < g.n(),
                v <= n,
                dist@.len() == n,
                forall|x: int|
                    0 <= x < n ==> ((#[trigger] dist@[x]) != UNREACHED <==> g.reach(u as int, x)),
                forall|x: int|
                    0 <= x < n && (#[trigger] dist@[x]) != UNREACHED
                        ==> g.dist(u as int, x) == dist@[x],
                cnt == two_hop_to(*g, u as int, v as int),
                cnt <= v,
            decreases n - v,
        {
            if dist[v] == 2 {
                cnt = cnt + 1;
            }
            v = v + 1;
        }
        proof {
            lemma_two_hop_le(*g, u as int, n as int);
            lemma_two_hop_count_le(*g, cnt as int, u as int);
        }
        let c = r[cnt];
        r[cnt] = c + 1;
        u = u + 1;
    }
    r
}

} // verus!
