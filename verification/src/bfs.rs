//! The breadth-first distance oracle: one traversal from a source node
//! yields, for every node, its exact hop distance (or `UNREACHED`), plus the
//! discovery order every other metric leans on.

use vstd::prelude::*;
use crate::graph::{Graph, UNREACHED};
use crate::graph::{lemma_dist_of, lemma_is_dist_unique};

verus! {

/// Number of entries of `dist` below `m` that are not `UNREACHED`.
spec fn count_disc(dist: Seq<usize>, m: int) -> int
    decreases m,
{
    if m <= 0 {
        0
    } else {
        count_disc(dist, m - 1) + if dist[m - 1] != UNREACHED { 1int } else { 0int }
    }
}

proof fn lemma_count_disc_le(dist: Seq<usize>, m: int)
    requires
        0 <= m <= dist.len(),
    ensures
        0 <= count_disc(dist, m) <= m,
    decreases m,
{
    if m > 0 {
        lemma_count_disc_le(dist, m - 1);
    }
}

proof fn lemma_count_disc_update(dist: Seq<usize>, w: int, d: usize, m: int)
    requires
        0 <= w < dist.len(),
        0 <= m <= dist.len(),
        dist[w] == UNREACHED,
        d != UNREACHED,
    ensures
        count_disc(dist.update(w, d), m) == count_disc(dist, m) + if w < m { 1int } else { 0int },
    decreases m,
{
    if m > 0 {
        lemma_count_disc_update(dist, w, d, m - 1);
    }
}

proof fn lemma_count_disc_all_unreached(dist: Seq<usize>, m: int)
    requires
        0 <= m <= dist.len(),
        forall|i: int| 0 <= i < dist.len() ==> dist[i] == UNREACHED,
    ensures
        count_disc(dist, m) == 0,
    decreases m,
{
    if m > 0 {
        lemma_count_disc_all_unreached(dist, m - 1);
    }
}

/// The state every per-node distance claim rests on after the traversal:
/// the source is at distance zero, and following any arc from a discovered
/// node raises the recorded distance by at most one.
spec fn bfs_closed(g: Graph, s: int, dist: Seq<usize>) -> bool {
    &&& dist.len() == g.n()
    &&& 0 <= s < g.n()
    &&& dist[s] == 0
    &&& forall|u: int, w: int|
        0 <= u < g.n() && dist[u] != UNREACHED && #[trigger] g.edge(u, w)
            ==> 0 <= w < g.n() && dist[w] != UNREACHED && dist[w] <= dist[u] + 1
}

/// In a closed distance table, a walk of `k` hops from the source pins the
/// recorded distance of its endpoint to at most `k`.
proof fn lemma_bfs_lower(g: Graph, s: int, dist: Seq<usize>, k: nat)
    requires
        g.wf(),
        bfs_closed(g, s, dist),
    ensures
        forall|v: int|
            0 <= v < g.n() && #[trigger] g.walk_to(s, v, k)
                ==> dist[v] != UNREACHED && dist[v] <= k,
    decreases k,
{
    if k > 0 {
        lemma_bfs_lower(g, s, dist, (k - 1) as nat);
        assert forall|v: int|
            0 <= v < g.n() && #[trigger] g.walk_to(s, v, k)
                implies dist[v] != UNREACHED && dist[v] <= k by {
            let u = choose|u: int| #[trigger] g.edge(u, v) && g.walk_to(s, u, (k - 1) as nat);
            assert(g.walk_to(s, u, (k - 1) as nat));
            assert(dist[u] != UNREACHED && dist[u] <= k - 1);
            assert(dist[v] <= dist[u] + 1);
        }
    }
}

/// The distance table of a traversal is pinned by the graph and the source:
/// any two tables that satisfy the oracle's contract agree, so re-running
/// the traversal on an unmodified graph yields identical distances.
pub proof fn lemma_bfs_deterministic(g: Graph, s: int, d1: Seq<usize>, d2: Seq<usize>)
    requires
        d1.len() == g.n(),
        d2.len() == g.n(),
        forall|v: int| 0 <= v < g.n() ==> ((#[trigger] d1[v]) != UNREACHED <==> g.reach(s, v)),
        forall|v: int|
            0 <= v < g.n() && (#[trigger] d1[v]) != UNREACHED ==> g.is_dist(s, v, d1[v] as nat),
        forall|v: int| 0 <= v < g.n() ==> ((#[trigger] d2[v]) != UNREACHED <==> g.reach(s, v)),
        forall|v: int|
            0 <= v < g.n() && (#[trigger] d2[v]) != UNREACHED ==> g.is_dist(s, v, d2[v] as nat),
    ensures
        d1 == d2,
{
    assert forall|v: int| 0 <= v < g.n() implies d1[v] == d2[v] by {
        if g.reach(s, v) {
            lemma_is_dist_unique(g, s, v, d1[v] as nat, d2[v] as nat);
        }
    }
    assert(d1 =~= d2);
}

/// Breadth-first traversal from `s`. Returns the distance table and the
/// discovery order: `dist[v]` is the exact geodesic distance from `s` to `v`
/// (`UNREACHED` when no walk exists), and `order` lists exactly the reached
/// nodes, without repetition, by nondecreasing distance, starting at `s`.
pub fn bfs_distances(g: &Graph, s: usize) -> (r: (Vec<usize>, Vec<usize>))
    requires
        g.wf(),
        g.bounded(),
        (s as int) < g.n(),
    ensures
        r.0@.len() == g.n(),
        r.0@[s as int] == 0,
        forall|v: int|
            0 <= v < g.n() ==> ((#[trigger] r.0@[v]) != UNREACHED <==> g.reach(s as int, v)),
        forall|v: int|
            0 <= v < g.n() && (#[trigger] r.0@[v]) != UNREACHED
                ==> r.0@[v] < g.n() && g.is_dist(s as int, v, r.0@[v] as nat)
                    && g.dist(s as int, v) == r.0@[v],
        r.1@.len() >= 1 && r.1@[0] == s,
        forall|i: int| 0 <= i < r.1@.len() ==> (#[trigger] r.1@[i]) < g.n(),
        forall|i: int, j: int| #![trigger r.1@[i], r.1@[j]]
            0 <= i < j < r.1@.len() ==> r.1@[i] != r.1@[j],
        forall|v: int|
            0 <= v < g.n() ==> ((#[trigger] r.0@[v]) != UNREACHED <==> r.1@.contains(v as usize)),
        forall|i: int, j: int| #![trigger r.1@[i], r.1@[j]]
            0 <= i <= j < r.1@.len()
                ==> r.0@[r.1@[i] as int] <= r.0@[r.1@[j] as int],
{
    let n = g.adj.len();
    let mut dist: Vec<usize> = Vec::new();
    while dist.len() < n
        invariant
            dist@.len() <= n,
            forall|i: int| 0 <= i < dist@.len() ==> (#[trigger] dist@[i]) == UNREACHED,
        decreases n - dist@.len(),
    {
        dist.push(UNREACHED);
    }
    proof {
        lemma_count_disc_all_unreached(dist@, n as int);
        lemma_count_disc_update(dist@, s as int, 0, n as int);
    }
    dist[s] = 0;
    let mut q: Vec<usize> = Vec::new();
    q.push(s);
    let mut head: usize = 0;
    proof {
        assert(g.walk_to(s as int, s as int, 0));
        assert forall|v: int|
            0 <= v < n implies ((#[trigger] dist@[v]) != UNREACHED <==> q@.contains(v as usize)) by {
            if dist@[v] != UNREACHED {
                assert(v == s as int);
                assert(q@[0] == s);
            }
            if q@.contains(v as usize) {
                let i = choose|i: int| 0 <= i < q@.len() && q@[i] == v as usize;
                assert(i == 0);
            }
        }
    }
    while head < q.len()
        invariant
            g.wf(),
            g.bounded(),
            n == g.n(),
            (s as int) < g.n(),
            dist@.len() == n,
            head <= q@.len(),
            q@.len() == count_disc(dist@, n as int),
            q@.len() <= n,
            q@.len() >= 1 && q@[0] == s && dist@[s as int] == 0,
            forall|i: int| 0 <= i < q@.len() ==> (#[trigger] q@[i]) < n,
            forall|i: int, j: int| #![trigger q@[i], q@[j]]
                0 <= i < j < q@.len() ==> q@[i] != q@[j],
            forall|v: int|
                0 <= v < n ==> ((#[trigger] dist@[v]) != UNREACHED <==> q@.contains(v as usize)),
            forall|i: int| 0 <= i < q@.len() ==> dist@[#[trigger] q@[i] as int] <= i,
            forall|i: int, j: int| #![trigger q@[i], q@[j]]
                0 <= i <= j < q@.len()
                    ==> dist@[q@[i] as int] <= dist@[q@[j] as int],
            head < q@.len()
                ==> dist@[q@[q@.len() - 1] as int] <= dist@[q@[head as int] as int] + 1,
            forall|i: int, j: int|
                0 <= i < head && 0 <= j < g.adj@[q@[i] as int]@.len()
                    ==> dist@[#[trigger] g.adj@[q@[i] as int]@[j] as int] != UNREACHED
                        && dist@[g.adj@[q@[i] as int]@[j] as int] <= dist@[q@[i] as int] + 1,
            forall|v: int|
                0 <= v < n && (#[trigger] dist@[v]) != UNREACHED
                    ==> g.walk_to(s as int, v, dist@[v] as nat),
        decreases n - head,
    {
        let u = q[head];
        let du = dist[u];
        proof {
            assert(q@.contains(q@[head as int]));
            assert(du <= head);
        }
        let deg = g.adj[u].len();
        let mut j: usize = 0;
        while j < deg
            invariant
                g.wf(),
                g.bounded(),
                n == g.n(),
                (s as int) < g.n(),
                dist@.len() == n,
                head < q@.len(),
                u == q@[head as int],
                du == dist@[u as int],
                du <= head,
                deg == g.adj@[u as int]@.len(),
                j <= deg,
                q@.len() == count_disc(dist@, n as int),
                q@.len() <= n,
                q@.len() >= 1 && q@[0] == s && dist@[s as int] == 0,
                forall|i: int| 0 <= i < q@.len() ==> (#[trigger] q@[i]) < n,
                forall|i: int, jj: int| #![trigger q@[i], q@[jj]]
                    0 <= i < jj < q@.len() ==> q@[i] != q@[jj],
                forall|v: int|
                    0 <= v < n ==> ((#[trigger] dist@[v]) != UNREACHED <==> q@.contains(
                        v as usize,
                    )),
                forall|i: int| 0 <= i < q@.len() ==> dist@[#[trigger] q@[i] as int] <= i,
                forall|i: int, jj: int| #![trigger q@[i], q@[jj]]
                    0 <= i <= jj < q@.len()
                        ==> dist@[q@[i] as int] <= dist@[q@[jj] as int],
                dist@[q@[q@.len() - 1] as int] <= du + 1,
                forall|i: int, jj: int|
                    0 <= i < head && 0 <= jj < g.adj@[q@[i] as int]@.len()
                        ==> dist@[#[trigger] g.adj@[q@[i] as int]@[jj] as int] != UNREACHED
                            && dist@[g.adj@[q@[i] as int]@[jj] as int]
                                <= dist@[q@[i] as int] + 1,
                forall|jj: int|
                    0 <= jj < j
                        ==> dist@[#[trigger] g.adj@[u as int]@[jj] as int] != UNREACHED
                            && dist@[g.adj@[u as int]@[jj] as int] <= du + 1,
                forall|v: int|
                    0 <= v < n && (#[trigger] dist@[v]) != UNREACHED
                        ==> g.walk_to(s as int, v, dist@[v] as nat),
            decreases deg - j,
        {
            let w = g.adj[u][j];
            if dist[w] == UNREACHED {
                proof {
                    lemma_count_disc_update(dist@, w as int, (du + 1) as usize, n as int);
                    lemma_count_disc_le(dist@, n as int);
                    assert(!q@.contains(w));
                    assert(g.edge(u as int, w as int)) by {
                        assert(g.adj@[u as int]@[j as int] == w);
                    }
                    assert(g.walk_to(s as int, u as int, du as nat));
                }
                let ghost dist_old = dist@;
                let ghost q_old = q@;
                dist[w] = du + 1;
                q.push(w);
                proof {
                    assert(dist@ == dist_old.update(w as int, (du + 1) as usize));
                    assert(q@ == q_old.push(w));
                    lemma_count_disc_le(dist@, n as int);
                    assert(g.walk_to(s as int, w as int, (du + 1) as nat)) by {
                        assert(g.edge(u as int, w as int)
                            && g.walk_to(s as int, u as int, du as nat));
                    }
                    assert forall|v: int|
                        0 <= v < n implies ((#[trigger] dist@[v]) != UNREACHED <==> q@.contains(
                            v as usize,
                        )) by {
                        if v == w as int {
                            assert(q@[q@.len() - 1] == w);
                        } else {
                            assert(dist@[v] == dist_old[v]);
                            if dist_old[v] != UNREACHED {
                                let i = choose|i: int|
                                    0 <= i < q_old.len() && q_old[i] == v as usize;
                                assert(q@[i] == v as usize);
                            }
                            if q@.contains(v as usize) {
                                let i = choose|i: int| 0 <= i < q@.len() && q@[i] == v as usize;
                                assert(i < q_old.len());
                                assert(q_old[i] == v as usize);
                                assert(q_old.contains(v as usize));
                            }
                        }
                    }
                }
            }
            j = j + 1;
        }
        head = head + 1;
    }
    proof {
        assert(bfs_closed(*g, s as int, dist@)) by {
            assert forall|u: int, w: int|
                0 <= u < g.n() && dist@[u] != UNREACHED && #[trigger] g.edge(u, w)
                    implies 0 <= w < g.n() && dist@[w] != UNREACHED
                        && dist@[w] <= dist@[u] + 1 by {
                assert(q@.contains(u as usize));
                let i = choose|i: int| 0 <= i < q@.len() && q@[i] == u as usize;
                let jj = choose|jj: int|
                    0 <= jj < g.adj@[u]@.len() && g.adj@[u]@[jj] == w;
                assert(dist@[#[trigger] g.adj@[q@[i] as int]@[jj] as int] != UNREACHED
                    && dist@[g.adj@[q@[i] as int]@[jj] as int] <= dist@[q@[i] as int] + 1);
            }
        }
        assert forall|v: int|
            0 <= v < g.n() && (#[trigger] dist@[v]) != UNREACHED
                implies dist@[v] < g.n() && g.is_dist(s as int, v, dist@[v] as nat)
                    && g.dist(s as int, v) == dist@[v] && g.reach(s as int, v) by {
            assert(q@.contains(v as usize));
            let i = choose|i: int| 0 <= i < q@.len() && q@[i] == v as usize;
            assert(dist@[v] <= i);
            assert(g.walk_to(s as int, v, dist@[v] as nat));
            assert forall|k: nat| k < dist@[v] implies !g.walk_to(s as int, v, k) by {
                if g.walk_to(s as int, v, k) {
                    lemma_bfs_lower(*g, s as int, dist@, k);
                }
            }
            lemma_dist_of(*g, s as int, v, dist@[v] as nat);
        }
        assert forall|v: int|
            0 <= v < g.n() && (#[trigger] dist@[v]) == UNREACHED
                implies !g.reach(s as int, v) by {
            if g.reach(s as int, v) {
                let k = choose|k: nat| g.walk_to(s as int, v, k);
                lemma_bfs_lower(*g, s as int, dist@, k);
            }
        }
    }
    (dist, q)
}

} // verus!
