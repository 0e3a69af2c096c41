//! The graph store: a dense node set with integer payloads and neighbor
//! adjacency, together with the spec-level model of walks and geodesic
//! distance that every metric's contract is stated over.

use vstd::prelude::*;

verus! {

/// Largest node count and adjacency-list length the metrics accept; keeps
/// every distance sum comfortably inside 64-bit arithmetic.
pub const NODE_LIMIT: usize = 0x4000_0000;

/// Sentinel distance for nodes a traversal never reached.
pub const UNREACHED: usize = usize::MAX;

/// An in-memory undirected graph: node `u` (a dense index) carries the
/// opaque payload `payloads[u]` and the neighbor list `adj[u]`.
///
/// The fields are public so that contracts can speak about them directly;
/// build graphs through `new`, `add_node` and `add_edge`, which keep `wf()`
/// and `undirected()`.
pub struct Graph {
    /// Payload (external id) of each node, indexed by node index.
    pub payloads: Vec<usize>,
    /// Neighbor lists, indexed by node index; entries are node indices.
    pub adj: Vec<Vec<usize>>,
}

impl Graph {
    /// Number of nodes.
    pub open spec fn n(self) -> nat {
        self.adj@.len()
    }

    /// Every adjacency entry names an existing node, and every node has a
    /// payload.
    pub open spec fn wf(self) -> bool {
        &&& self.payloads@.len() == self.adj@.len()
        &&& forall|u: int, j: int|
            0 <= u < self.adj@.len() && 0 <= j < self.adj@[u]@.len()
                ==> (#[trigger] self.adj@[u]@[j]) < self.adj@.len()
    }

    /// Node count and every degree stay within `NODE_LIMIT`.
    pub open spec fn bounded(self) -> bool {
        &&& self.n() <= NODE_LIMIT
        &&& forall|u: int| 0 <= u < self.n() ==> (#[trigger] self.adj@[u]@.len()) <= NODE_LIMIT
    }

    /// Degree of node `u`: the length of its neighbor list (duplicate edges,
    /// if the builder produced any, count with multiplicity).
    pub open spec fn deg(self, u: int) -> nat {
        self.adj@[u]@.len()
    }

    /// There is an arc from `u` to `v`: `v` occurs in `u`'s neighbor list.
    pub open spec fn edge(self, u: int, v: int) -> bool {
        &&& 0 <= u < self.n()
        &&& exists|j: int| 0 <= j < self.adj@[u]@.len() && self.adj@[u]@[j] == v
    }

    /// The arc relation is symmetric, as building only through `add_edge`
    /// guarantees.
    pub open spec fn undirected(self) -> bool {
        forall|u: int, v: int| #[trigger] self.edge(u, v) ==> self.edge(v, u)
    }

    /// Every node reaches every node.
    pub open spec fn connected(self) -> bool {
        forall|s: int, v: int|
            0 <= s < self.n() && 0 <= v < self.n() ==> #[trigger] self.reach(s, v)
    }

    /// Every pair of distinct nodes is joined by an arc.
    pub open spec fn complete(self) -> bool {
        forall|u: int, v: int|
            0 <= u < self.n() && 0 <= v < self.n() && u != v ==> #[trigger] self.edge(u, v)
    }

    /// There is a walk of exactly `k` hops from `s` to `v` (vertices may
    /// repeat; the shortest walk is the shortest path).
    pub open spec fn walk_to(self, s: int, v: int, k: nat) -> bool
        decreases k,
    {
        if k == 0 {
            s == v && 0 <= v < self.n()
        } else {
            exists|u: int| #[trigger] self.edge(u, v) && self.walk_to(s, u, (k - 1) as nat)
        }
    }

    /// `v` is reachable from `s`.
    pub open spec fn reach(self, s: int, v: int) -> bool {
        exists|k: nat| self.walk_to(s, v, k)
    }

    /// `d` is the geodesic (shortest-walk) distance from `s` to `v`.
    pub open spec fn is_dist(self, s: int, v: int, d: nat) -> bool {
        &&& self.walk_to(s, v, d)
        &&& forall|k: nat| k < d ==> !self.walk_to(s, v, k)
    }

    /// The geodesic distance from `s` to `v`; meaningful when `reach(s, v)`.
    pub open spec fn dist(self, s: int, v: int) -> nat {
        choose|d: nat| self.is_dist(s, v, d)
    }

    /// An empty graph.
    pub fn new() -> (g: Graph)
        ensures
            g.wf(),
            g.undirected(),
            g.bounded(),
            g.n() == 0,
    {
        Graph { payloads: Vec::new(), adj: Vec::new() }
    }

    /// Number of nodes.
    pub fn node_count(&self) -> (r: usize)
        ensures
            r == self.n(),
    {
        self.adj.len()
    }

    /// Payload of node `u`.
    pub fn payload(&self, u: usize) -> (p: usize)
        requires
            self.wf(),
            u < self.n(),
        ensures
            p == self.payloads@[u as int],
    {
        self.payloads[u]
    }

    /// Degree of node `u` (its neighbor-list length).
    pub fn degree(&self, u: usize) -> (d: usize)
        requires
            u < self.n(),
        ensures
            d == self.deg(u as int),
    {
        self.adj[u].len()
    }

    /// Add an isolated node carrying `payload`; returns its index.
    pub fn add_node(&mut self, payload: usize) -> (idx: usize)
        requires
            old(self).wf(),
            old(self).n() < NODE_LIMIT,
        ensures
            final(self).wf(),
            idx == old(self).n(),
            final(self).n() == old(self).n() + 1,
            final(self).payloads@ == old(self).payloads@.push(payload),
            forall|u: int| 0 <= u < old(self).n() ==> final(self).adj@[u] == old(self).adj@[u],
            final(self).adj@[old(self).n() as int]@.len() == 0,
            old(self).undirected() ==> final(self).undirected(),
            old(self).bounded() ==> final(self).bounded(),
    {
        let idx = self.adj.len();
        self.payloads.push(payload);
        self.adj.push(Vec::new());
        proof {
            let oldg = *old(self);
            let newg = *self;
            assert forall|u: int, v: int| #[trigger] newg.edge(u, v) implies oldg.edge(u, v) by {
                let j = choose|j: int| 0 <= j < newg.adj@[u]@.len() && newg.adj@[u]@[j] == v;
                if u < oldg.n() {
                    assert(0 <= j < oldg.adj@[u]@.len() && oldg.adj@[u]@[j] == v);
                }
            }
            assert forall|u: int, v: int| #[trigger] oldg.edge(u, v) implies newg.edge(u, v) by {
                let j = choose|j: int| 0 <= j < oldg.adj@[u]@.len() && oldg.adj@[u]@[j] == v;
                assert(0 <= j < newg.adj@[u]@.len() && newg.adj@[u]@[j] == v);
            }
        }
        idx
    }

    /// Add an undirected edge between existing nodes `u` and `v`: each ends
    /// up in the other's neighbor list (a self-loop lands twice in its own).
    pub fn add_edge(&mut self, u: usize, v: usize)
        requires
            old(self).wf(),
            u < old(self).n(),
            v < old(self).n(),
            old(self).adj@[u as int]@.len() + 2 <= NODE_LIMIT,
            old(self).adj@[v as int]@.len() + 2 <= NODE_LIMIT,
        ensures
            final(self).wf(),
            final(self).n() == old(self).n(),
            final(self).payloads@ == old(self).payloads@,
            u != v ==> final(self).adj@[u as int]@ == old(self).adj@[u as int]@.push(v),
            u != v ==> final(self).adj@[v as int]@ == old(self).adj@[v as int]@.push(u),
            u == v ==> final(self).adj@[u as int]@ == old(self).adj@[u as int]@.push(v).push(u),
            forall|w: int|
                0 <= w < old(self).n() && w != u && w != v
                    ==> final(self).adj@[w] == old(self).adj@[w],
            old(self).undirected() ==> final(self).undirected(),
            old(self).bounded() ==> final(self).bounded(),
    {
        self.adj[u].push(v);
        self.adj[v].push(u);
        proof {
            let oldg = *old(self);
            let newg = *self;
            if oldg.bounded() {
                assert forall|w: int| 0 <= w < newg.n() implies
                    (#[trigger] newg.adj@[w]@.len()) <= NODE_LIMIT by {
                    if w != u && w != v {
                        assert(newg.adj@[w] == oldg.adj@[w]);
                    }
                }
            }
            if oldg.undirected() {
                assert forall|x: int, y: int| #[trigger] newg.edge(x, y) implies newg.edge(y, x) by {
                    let j = choose|j: int| 0 <= j < newg.adj@[x]@.len() && newg.adj@[x]@[j] == y;
                    if j < oldg.adj@[x]@.len() {
                        // the arc already existed
                        assert(oldg.edge(x, y));
                        assert(oldg.edge(y, x));
                        let i = choose|i: int|
                            0 <= i < oldg.adj@[y]@.len() && oldg.adj@[y]@[i] == x;
                        assert(newg.adj@[y]@[i] == x);
                    } else {
                        // the arc is one of the two just pushed
                        assert((x == u && y == v) || (x == v && y == u));
                        if y == u && x == v {
                            let i = oldg.adj@[u as int]@.len() as int;
                            assert(newg.adj@[u as int]@[i] == v);
                        } else {
                            let i = newg.adj@[v as int]@.len() - 1;
                            assert(newg.adj@[v as int]@[i] == u);
                        }
                    }
                }
            }
        }
    }

    /// Total number of undirected edges: half the adjacency entries (each
    /// `add_edge` contributed two).
    pub fn edge_count(&self) -> (r: u64)
        requires
            self.wf(),
            self.bounded(),
        ensures
            r == total_adj(*self, self.n() as int) / 2,
    {
        let n = self.adj.len();
        let mut total: u64 = 0;
        let mut u: usize = 0;
        while u < n
            invariant
                self.wf(),
                self.bounded(),
                n == self.n(),
                u <= n,
                total == total_adj(*self, u as int),
            decreases n - u,
        {
            proof {
                lemma_total_adj_bound(*self, u + 1);
            }
            total = total + self.adj[u].len() as u64;
            u = u + 1;
        }
        total / 2
    }
}

/// Under `bounded`, the adjacency total over the first `m` lists stays
/// within `m * NODE_LIMIT`.
pub proof fn lemma_total_adj_bound(g: Graph, m: int)
    requires
        g.bounded(),
        0 <= m <= g.n(),
    ensures
        total_adj(g, m) >= 0,
        total_adj(g, m) <= m * (NODE_LIMIT as int),
        total_adj(g, m) <= (NODE_LIMIT as int) * (NODE_LIMIT as int),
    decreases m,
{
    if m > 0 {
        lemma_total_adj_bound(g, m - 1);
        assert(g.adj@[m - 1]@.len() <= NODE_LIMIT);
        assert((m - 1) * (NODE_LIMIT as int) + NODE_LIMIT as int == m * (NODE_LIMIT as int))
            by (nonlinear_arith);
    }
    assert(m * (NODE_LIMIT as int) <= (NODE_LIMIT as int) * (NODE_LIMIT as int)) by (nonlinear_arith)
        requires 0 <= m <= NODE_LIMIT as int;
}

/// Sum of the first `m` adjacency-list lengths.
pub open spec fn total_adj(g: Graph, m: int) -> int
    decreases m,
{
    if m <= 0 {
        0
    } else {
        total_adj(g, m - 1) + g.adj@[m - 1]@.len()
    }
}

/// Geodesic distances are unique: two distances for the same pair coincide.
pub proof fn lemma_is_dist_unique(g: Graph, s: int, v: int, d1: nat, d2: nat)
    requires
        g.is_dist(s, v, d1),
        g.is_dist(s, v, d2),
    ensures
        d1 == d2,
{
    if d1 < d2 {
        assert(!g.walk_to(s, v, d1));
    }
    if d2 < d1 {
        assert(!g.walk_to(s, v, d2));
    }
}

/// A witnessed geodesic distance is the `dist` value.
pub proof fn lemma_dist_of(g: Graph, s: int, v: int, d: nat)
    requires
        g.is_dist(s, v, d),
    ensures
        g.dist(s, v) == d,
{
    let d0 = choose|k: nat| g.is_dist(s, v, k);
    lemma_is_dist_unique(g, s, v, d0, d);
}

/// Any walk bounds the geodesic distance: a walk of `k` hops yields a
/// geodesic distance of at most `k`.
pub proof fn lemma_walk_gives_dist(g: Graph, s: int, v: int, k: nat)
    requires
        g.walk_to(s, v, k),
    ensures
        exists|d: nat| g.is_dist(s, v, d) && d <= k,
    decreases k,
{
    if exists|j: nat| j < k && g.walk_to(s, v, j) {
        let j = choose|j: nat| j < k && g.walk_to(s, v, j);
        lemma_walk_gives_dist(g, s, v, j);
    } else {
        assert(g.is_dist(s, v, k));
    }
}

/// A reachable node has a well-defined geodesic distance.
pub proof fn lemma_reach_has_dist(g: Graph, s: int, v: int)
    requires
        g.reach(s, v),
    ensures
        g.is_dist(s, v, g.dist(s, v)),
{
    let k = choose|k: nat| g.walk_to(s, v, k);
    lemma_walk_gives_dist(g, s, v, k);
    let d = choose|d: nat| g.is_dist(s, v, d) && d <= k;
    lemma_dist_of(g, s, v, d);
}

/// Distance zero holds exactly from a node to itself.
pub proof fn lemma_dist_zero_iff_self(g: Graph, s: int, v: int)
    requires
        g.reach(s, v),
    ensures
        g.dist(s, v) == 0 <==> s == v,
        s == v ==> 0 <= v < g.n(),
{
    lemma_reach_has_dist(g, s, v);
    if s == v {
        let k = choose|k: nat| g.walk_to(s, v, k);
        assert(g.walk_to(s, v, k));
        lemma_self_walk(g, s, v, k);
        assert(g.walk_to(s, s, 0));
        lemma_dist_of(g, s, v, 0);
    } else {
        if g.dist(s, v) == 0 {
            assert(g.walk_to(s, v, 0));
        }
    }
}

/// The start of any walk is a node of the graph.
proof fn lemma_self_walk(g: Graph, s: int, v: int, k: nat)
    requires
        g.walk_to(s, v, k),
    ensures
        0 <= s < g.n(),
    decreases k,
{
    if k > 0 {
        let u = choose|u: int| g.edge(u, v) && g.walk_to(s, u, (k - 1) as nat);
        lemma_self_walk(g, s, u, (k - 1) as nat);
    }
}

} // verus!
