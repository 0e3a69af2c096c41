//! Betweenness centrality by per-source breadth-first search with
//! shortest-path counting, followed by reverse-level dependency
//! accumulation. Scores are exact rationals, pinned by the contract to a
//! spec-level rendition of the same accumulation: `num_sp` counts the
//! shortest paths, `delta` is the dependency recursion, and `bc_fold` sums
//! one dependency per source. If the exact bookkeeping would leave 128-bit
//! range the computation reports `None` rather than losing precision.

use vstd::prelude::*;
use crate::Ratio;
use crate::graph::{Graph, UNREACHED};
use crate::graph::{
    lemma_dist_of, lemma_dist_zero_iff_self, lemma_reach_has_dist, lemma_walk_gives_dist,
};
use crate::bfs::bfs_distances;

verus! {

/// Node `v` never lies strictly inside a shortest path: from no source `s`
/// other than `v` does an arc leaving `v` climb exactly one layer further
/// away from `s`. Such a node accumulates no dependency, so its betweenness
/// is zero.
pub open spec fn never_intermediate(g: Graph, v: int) -> bool {
    forall|s: int, w: int|
        #![trigger g.reach(s, v), g.edge(v, w)]
        0 <= s < g.n() && s != v && g.reach(s, v) && g.reach(s, w) && g.edge(v, w)
            ==> g.dist(s, w) != g.dist(s, v) + 1
}

/// Every reached node other than the source has a predecessor neighbor
/// exactly one layer closer to the source.
pub proof fn lemma_dist_pred(g: Graph, s: int, v: int)
    requires
        g.wf(),
        g.reach(s, v),
        v != s,
    ensures
        exists|u: int|
            #[trigger] g.edge(u, v) && g.reach(s, u) && g.dist(s, u) + 1 == g.dist(s, v),
{
    lemma_reach_has_dist(g, s, v);
    let d = g.dist(s, v);
    lemma_dist_zero_iff_self(g, s, v);
    assert(g.walk_to(s, v, d));
    let u = choose|u: int| #[trigger] g.edge(u, v) && g.walk_to(s, u, (d - 1) as nat);
    lemma_walk_gives_dist(g, s, u, (d - 1) as nat);
    let du = choose|k: nat| g.is_dist(s, u, k) && k <= d - 1;
    lemma_dist_of(g, s, u, du);
    assert(g.reach(s, u)) by {
        assert(g.walk_to(s, u, du));
    }
    if du < d - 1 {
        assert(g.walk_to(s, v, (du + 1) as nat)) by {
            assert(g.edge(u, v) && g.walk_to(s, u, du));
        }
        assert(false);
    }
    assert(g.edge(u, v) && g.reach(s, u) && g.dist(s, u) + 1 == g.dist(s, v));
}

/// On a complete graph (any clique) no node is ever interior to a shortest
/// path, so `betweenness_centrality` pins every score to zero there.
pub proof fn lemma_complete_never_intermediate(g: Graph, v: int)
    requires
        g.wf(),
        g.complete(),
        0 <= v < g.n(),
    ensures
        never_intermediate(g, v),
{
    assert forall|s: int, w: int|
        #![trigger g.reach(s, v), g.edge(v, w)]
        0 <= s < g.n() && s != v && g.reach(s, v) && g.reach(s, w) && g.edge(v, w)
            implies g.dist(s, w) != g.dist(s, v) + 1 by {
        lemma_reach_has_dist(g, s, v);
        lemma_dist_zero_iff_self(g, s, v);
        lemma_reach_has_dist(g, s, w);
        let j = choose|j: int| 0 <= j < g.adj@[v]@.len() && g.adj@[v]@[j] == w;
        assert(0 <= w < g.n());
        if w != s {
            assert(g.edge(s, w));
            assert(g.walk_to(s, s, 0));
            assert(g.walk_to(s, w, 1)) by {
                assert(g.edge(s, w) && g.walk_to(s, s, 0));
            }
            lemma_walk_gives_dist(g, s, w, 1);
            let d = choose|d: nat| g.is_dist(s, w, d) && d <= 1;
            lemma_dist_of(g, s, w, d);
        } else {
            lemma_dist_zero_iff_self(g, s, w);
        }
    }
}

/// A node of degree at most one is never interior to a shortest path: in an
/// undirected graph its only arc leads back toward any source.
pub proof fn lemma_leaf_never_intermediate(g: Graph, v: int)
    requires
        g.wf(),
        g.undirected(),
        0 <= v < g.n(),
        g.deg(v) <= 1,
    ensures
        never_intermediate(g, v),
{
    assert forall|s: int, w: int|
        #![trigger g.reach(s, v), g.edge(v, w)]
        0 <= s < g.n() && s != v && g.reach(s, v) && g.reach(s, w) && g.edge(v, w)
            implies g.dist(s, w) != g.dist(s, v) + 1 by {
        lemma_reach_has_dist(g, s, v);
        lemma_dist_zero_iff_self(g, s, v);
        lemma_dist_pred(g, s, v);
        let u = choose|u: int|
            #[trigger] g.edge(u, v) && g.reach(s, u) && g.dist(s, u) + 1 == g.dist(s, v);
        assert(g.edge(v, u));
        let ju = choose|j: int| 0 <= j < g.adj@[v]@.len() && g.adj@[v]@[j] == u;
        let jw = choose|j: int| 0 <= j < g.adj@[v]@.len() && g.adj@[v]@[j] == w;
        assert(ju == 0 && jw == 0);
        assert(u == w);
    }
}

/// Multiplicity of node `w` among the first `j` entries of a neighbor list
/// (parallel edges count once per entry, as the traversal walks them).
pub open spec fn row_mult(row: Seq<usize>, w: int, j: int) -> int
    decreases j,
{
    if j <= 0 {
        0
    } else {
        row_mult(row, w, j - 1) + if row[j - 1] == w {
            1int
        } else {
            0int
        }
    }
}

/// Number of shortest walks from `s` to `v`: one for the source itself, and
/// otherwise the sum, over every node one layer closer, of its own count
/// times the number of arcs it has to `v`.
pub open spec fn num_sp(g: Graph, s: int, v: int) -> int
    decreases g.dist(s, v), 1int, 0int,
{
    if v == s {
        1
    } else if g.reach(s, v) {
        num_sp_sum(g, s, v, g.n() as int)
    } else {
        0
    }
}

/// Partial predecessor sum of `num_sp`, over predecessors below `m`.
pub open spec fn num_sp_sum(g: Graph, s: int, v: int, m: int) -> int
    decreases g.dist(s, v), 0int, m,
{
    if m <= 0 {
        0
    } else {
        num_sp_sum(g, s, v, m - 1) + if g.reach(s, m - 1) && g.dist(s, m - 1) + 1 == g.dist(s, v) {
            row_mult(g.adj@[m - 1]@, v, g.adj@[m - 1]@.len() as int) * num_sp(g, s, m - 1)
        } else {
            0int
        }
    }
}

/// The dependency of `v` on the shortest paths from `s`, as an
/// exact unreduced rational: over each adjacency entry of `v` that climbs
/// exactly one layer away from `s`, accumulate
/// `(num_sp(v) / num_sp(w)) * (1 + delta(w))`.
pub open spec fn delta(g: Graph, s: int, v: int) -> (int, int)
    decreases g.n() - g.dist(s, v), 1int, 0int,
{
    delta_fold(g, s, v, g.adj@[v]@.len() as int)
}

/// Partial dependency fold over the first `j` adjacency entries of `v`.
pub open spec fn delta_fold(g: Graph, s: int, v: int, j: int) -> (int, int)
    decreases g.n() - g.dist(s, v), 0int, j,
{
    if j <= 0 {
        (0int, 1int)
    } else {
        let acc = delta_fold(g, s, v, j - 1);
        let w = g.adj@[v]@[j - 1] as int;
        if g.reach(s, w) && g.dist(s, w) == g.dist(s, v) + 1 && g.dist(s, w) < g.n() {
            let dw = delta(g, s, w);
            let tn = num_sp(g, s, v) * (dw.1 + dw.0);
            let td = num_sp(g, s, w) * dw.1;
            (acc.0 * td + tn * acc.1, acc.1 * td)
        } else {
            acc
        }
    }
}

/// What source `s` adds to the running score of `v`: its dependency when
/// `v` is a reached non-source node, and the rational zero otherwise.
pub open spec fn qdelta(g: Graph, s: int, v: int) -> (int, int) {
    if 0 <= s < g.n() && s != v && g.reach(s, v) {
        delta(g, s, v)
    } else {
        (0int, 1int)
    }
}

/// Betweenness of `v`: the exact rational sum of its dependencies over the
/// sources below `m`, accumulated in source order.
pub open spec fn bc_fold(g: Graph, v: int, m: int) -> (int, int)
    decreases m,
{
    if m <= 0 {
        (0int, 1int)
    } else {
        let acc = bc_fold(g, v, m - 1);
        let t = qdelta(g, m - 1, v);
        (acc.0 * t.1 + t.0 * acc.1, acc.1 * t.1)
    }
}

proof fn lemma_mul_nonneg(a: int, b: int)
    requires
        a >= 0,
        b >= 0,
    ensures
        a * b >= 0,
{
    assert(a * b >= 0) by (nonlinear_arith)
        requires a >= 0, b >= 0;
}

proof fn lemma_mul_ge_one(a: int, b: int)
    requires
        a >= 1,
        b >= 1,
    ensures
        a * b >= 1,
{
    assert(a * b >= 1) by (nonlinear_arith)
        requires a >= 1, b >= 1;
}

proof fn lemma_row_mult_nonneg(row: Seq<usize>, w: int, j: int)
    ensures
        row_mult(row, w, j) >= 0,
    decreases j,
{
    if j > 0 {
        lemma_row_mult_nonneg(row, w, j - 1);
    }
}

proof fn lemma_row_mult_pos(row: Seq<usize>, w: int, j: int, witness: int)
    requires
        0 <= witness < j <= row.len(),
        row[witness] == w,
    ensures
        row_mult(row, w, j) >= 1,
    decreases j,
{
    lemma_row_mult_nonneg(row, w, j - 1);
    if witness < j - 1 {
        lemma_row_mult_pos(row, w, j - 1, witness);
    }
}

proof fn lemma_num_sp_nonneg(g: Graph, s: int, v: int)
    ensures
        num_sp(g, s, v) >= 0,
    decreases g.dist(s, v), 1int, 0int,
{
    if v != s && g.reach(s, v) {
        lemma_num_sp_sum_nonneg(g, s, v, g.n() as int);
    }
}

proof fn lemma_num_sp_sum_nonneg(g: Graph, s: int, v: int, m: int)
    ensures
        num_sp_sum(g, s, v, m) >= 0,
    decreases g.dist(s, v), 0int, m,
{
    if m > 0 {
        lemma_num_sp_sum_nonneg(g, s, v, m - 1);
        if g.reach(s, m - 1) && g.dist(s, m - 1) + 1 == g.dist(s, v) {
            lemma_row_mult_nonneg(g.adj@[m - 1]@, v, g.adj@[m - 1]@.len() as int);
            lemma_num_sp_nonneg(g, s, m - 1);
            lemma_mul_nonneg(
                row_mult(g.adj@[m - 1]@, v, g.adj@[m - 1]@.len() as int),
                num_sp(g, s, m - 1),
            );
        }
    }
}

proof fn lemma_num_sp_sum_term_lower(g: Graph, s: int, v: int, m: int, u: int)
    requires
        0 <= u < m,
        g.reach(s, u),
        g.dist(s, u) + 1 == g.dist(s, v),
    ensures
        num_sp_sum(g, s, v, m) >= row_mult(g.adj@[u]@, v, g.adj@[u]@.len() as int) * num_sp(
            g,
            s,
            u,
        ),
    decreases m,
{
    if u == m - 1 {
        lemma_num_sp_sum_nonneg(g, s, v, m - 1);
    } else {
        lemma_num_sp_sum_term_lower(g, s, v, m - 1, u);
        if g.reach(s, m - 1) && g.dist(s, m - 1) + 1 == g.dist(s, v) {
            lemma_row_mult_nonneg(g.adj@[m - 1]@, v, g.adj@[m - 1]@.len() as int);
            lemma_num_sp_nonneg(g, s, m - 1);
            lemma_mul_nonneg(
                row_mult(g.adj@[m - 1]@, v, g.adj@[m - 1]@.len() as int),
                num_sp(g, s, m - 1),
            );
        }
    }
}

/// Every reached node has at least one shortest path to it.
pub proof fn lemma_num_sp_pos(g: Graph, s: int, v: int)
    requires
        g.wf(),
        g.reach(s, v),
    ensures
        num_sp(g, s, v) >= 1,
    decreases g.dist(s, v),
{
    if v != s {
        lemma_reach_has_dist(g, s, v);
        lemma_dist_zero_iff_self(g, s, v);
        lemma_dist_pred(g, s, v);
        let u = choose|u: int|
            #[trigger] g.edge(u, v) && g.reach(s, u) && g.dist(s, u) + 1 == g.dist(s, v);
        lemma_num_sp_pos(g, s, u);
        let j = choose|j: int| 0 <= j < g.adj@[u]@.len() && g.adj@[u]@[j] == v;
        lemma_row_mult_pos(g.adj@[u]@, v, g.adj@[u]@.len() as int, j);
        lemma_mul_ge_one(row_mult(g.adj@[u]@, v, g.adj@[u]@.len() as int), num_sp(g, s, u));
        lemma_num_sp_sum_term_lower(g, s, v, g.n() as int, u);
    }
}

proof fn lemma_delta_den_pos(g: Graph, s: int, v: int)
    requires
        g.wf(),
    ensures
        delta(g, s, v).1 >= 1,
    decreases g.n() - g.dist(s, v), 1int, 0int,
{
    lemma_delta_fold_den_pos(g, s, v, g.adj@[v]@.len() as int);
}

proof fn lemma_delta_fold_den_pos(g: Graph, s: int, v: int, j: int)
    requires
        g.wf(),
    ensures
        delta_fold(g, s, v, j).1 >= 1,
    decreases g.n() - g.dist(s, v), 0int, j,
{
    if j > 0 {
        lemma_delta_fold_den_pos(g, s, v, j - 1);
        let w = g.adj@[v]@[j - 1] as int;
        if g.reach(s, w) && g.dist(s, w) == g.dist(s, v) + 1 && g.dist(s, w) < g.n() {
            lemma_delta_den_pos(g, s, w);
            lemma_num_sp_pos(g, s, w);
            lemma_mul_ge_one(num_sp(g, s, w), delta(g, s, w).1);
            lemma_mul_ge_one(delta_fold(g, s, v, j - 1).1, num_sp(g, s, w) * delta(g, s, w).1);
        }
    }
}

/// Betweenness denominators are positive: the score is a well-formed
/// rational.
pub proof fn lemma_bc_den_pos(g: Graph, v: int, m: int)
    requires
        g.wf(),
    ensures
        bc_fold(g, v, m).1 >= 1,
    decreases m,
{
    if m > 0 {
        lemma_bc_den_pos(g, v, m - 1);
        if 0 <= m - 1 < g.n() && m - 1 != v && g.reach(m - 1, v) {
            lemma_delta_den_pos(g, m - 1, v);
        }
        lemma_mul_ge_one(bc_fold(g, v, m - 1).1, qdelta(g, m - 1, v).1);
    }
}

proof fn lemma_mul_mono(a: int, b: int, c: int)
    requires
        a <= b,
        c >= 0,
    ensures
        a * c <= b * c,
{
    assert(a * c <= b * c) by (nonlinear_arith)
        requires a <= b, c >= 0;
}

proof fn lemma_le_mul(a: int, b: int)
    requires
        a >= 1,
        b >= 0,
    ensures
        b <= a * b,
{
    assert(b <= a * b) by (nonlinear_arith)
        requires a >= 1, b >= 0;
}

proof fn lemma_row_mult_mono(row: Seq<usize>, w: int, j1: int, j2: int)
    requires
        0 <= j1 <= j2,
    ensures
        row_mult(row, w, j1) <= row_mult(row, w, j2),
    decreases j2,
{
    if j1 < j2 {
        lemma_row_mult_mono(row, w, j1, j2 - 1);
    }
}

proof fn lemma_num_sp_sum_mono(g: Graph, s: int, v: int, m1: int, m2: int)
    requires
        0 <= m1 <= m2,
    ensures
        num_sp_sum(g, s, v, m1) <= num_sp_sum(g, s, v, m2),
    decreases m2,
{
    if m1 < m2 {
        lemma_num_sp_sum_mono(g, s, v, m1, m2 - 1);
        if g.reach(s, m2 - 1) && g.dist(s, m2 - 1) + 1 == g.dist(s, v) {
            lemma_row_mult_nonneg(g.adj@[m2 - 1]@, v, g.adj@[m2 - 1]@.len() as int);
            lemma_num_sp_nonneg(g, s, m2 - 1);
            lemma_mul_nonneg(
                row_mult(g.adj@[m2 - 1]@, v, g.adj@[m2 - 1]@.len() as int),
                num_sp(g, s, m2 - 1),
            );
        }
    }
}

proof fn lemma_delta_num_nonneg(g: Graph, s: int, v: int)
    requires
        g.wf(),
    ensures
        delta(g, s, v).0 >= 0,
    decreases g.n() - g.dist(s, v), 1int, 0int,
{
    lemma_delta_fold_num_nonneg(g, s, v, g.adj@[v]@.len() as int);
}

proof fn lemma_delta_fold_num_nonneg(g: Graph, s: int, v: int, j: int)
    requires
        g.wf(),
    ensures
        delta_fold(g, s, v, j).0 >= 0,
    decreases g.n() - g.dist(s, v), 0int, j,
{
    if j > 0 {
        lemma_delta_fold_num_nonneg(g, s, v, j - 1);
        lemma_delta_fold_den_pos(g, s, v, j - 1);
        let w = g.adj@[v]@[j - 1] as int;
        if g.reach(s, w) && g.dist(s, w) == g.dist(s, v) + 1 && g.dist(s, w) < g.n() {
            lemma_delta_num_nonneg(g, s, w);
            lemma_delta_den_pos(g, s, w);
            lemma_num_sp_pos(g, s, w);
            lemma_num_sp_nonneg(g, s, v);
            let dw = delta(g, s, w);
            let acc = delta_fold(g, s, v, j - 1);
            lemma_mul_nonneg(num_sp(g, s, v), dw.1 + dw.0);
            lemma_mul_nonneg(num_sp(g, s, w), dw.1);
            lemma_mul_nonneg(acc.0, num_sp(g, s, w) * dw.1);
            lemma_mul_nonneg(num_sp(g, s, v) * (dw.1 + dw.0), acc.1);
        }
    }
}

proof fn lemma_bc_num_nonneg(g: Graph, v: int, m: int)
    requires
        g.wf(),
    ensures
        bc_fold(g, v, m).0 >= 0,
    decreases m,
{
    if m > 0 {
        lemma_bc_num_nonneg(g, v, m - 1);
        lemma_bc_den_pos(g, v, m - 1);
        let t = qdelta(g, m - 1, v);
        if 0 <= m - 1 < g.n() && m - 1 != v && g.reach(m - 1, v) {
            lemma_delta_num_nonneg(g, m - 1, v);
            lemma_delta_den_pos(g, m - 1, v);
        }
        lemma_mul_nonneg(bc_fold(g, v, m - 1).0, t.1);
        lemma_mul_nonneg(t.0, bc_fold(g, v, m - 1).1);
    }
}

/// Every number the accumulation passes through stays within the machine
/// words: shortest-path counts fit 64 bits, and each partial dependency and
/// score fits 128 bits. Under this bound the computation cannot fail.
pub open spec fn bc_in_range(g: Graph) -> bool {
    &&& forall|s: int, v: int|
        0 <= s < g.n() && 0 <= v < g.n() ==> #[trigger] num_sp(g, s, v) <= u64::MAX
    &&& forall|s: int, v: int, j: int|
        0 <= s < g.n() && 0 <= v < g.n() && 0 <= j <= g.adj@[v]@.len()
            ==> (#[trigger] delta_fold(g, s, v, j)).0 <= u128::MAX && delta_fold(
            g,
            s,
            v,
            j,
        ).1 <= u128::MAX
    &&& forall|v: int, m: int|
        0 <= v < g.n() && 0 <= m <= g.n()
            ==> (#[trigger] bc_fold(g, v, m)).0 <= u128::MAX && bc_fold(g, v, m).1 <= u128::MAX
}

proof fn lemma_le_mul_r(b: int, a: int)
    requires
        b >= 0,
        a >= 1,
    ensures
        b <= b * a,
{
    assert(b <= b * a) by (nonlinear_arith)
        requires b >= 0, a >= 1;
}

/// Under `bc_in_range`, every number one dependency step passes through is
/// bounded by the step's own fold components, hence by the machine words.
proof fn lemma_delta_step_bounds(g: Graph, s: int, v: int, j: int)
    requires
        g.wf(),
        bc_in_range(g),
        0 <= s < g.n(),
        0 <= v < g.n(),
        0 <= j < g.adj@[v]@.len(),
        g.reach(s, ({
            g.adj@[v]@[j] as int
        })),
        g.dist(s, g.adj@[v]@[j] as int) == g.dist(s, v) + 1,
        g.dist(s, g.adj@[v]@[j] as int) < g.n(),
        g.reach(s, v),
    ensures
        ({
            let w = g.adj@[v]@[j] as int;
            let dw = delta(g, s, w);
            let acc = delta_fold(g, s, v, j);
            let tn = num_sp(g, s, v) * (dw.1 + dw.0);
            let td = num_sp(g, s, w) * dw.1;
            &&& delta_fold(g, s, v, j + 1) == (acc.0 * td + tn * acc.1, acc.1 * td)
            &&& 0 <= dw.1 + dw.0 <= u128::MAX
            &&& 0 <= tn <= u128::MAX
            &&& 1 <= td <= u128::MAX
            &&& 0 <= acc.0 * td
            &&& 0 <= tn * acc.1
            &&& acc.0 * td + tn * acc.1 <= u128::MAX
            &&& acc.1 * td <= u128::MAX
        }),
{
    let w = g.adj@[v]@[j] as int;
    let dw = delta(g, s, w);
    let acc = delta_fold(g, s, v, j);
    let tn = num_sp(g, s, v) * (dw.1 + dw.0);
    let td = num_sp(g, s, w) * dw.1;
    assert(delta_fold(g, s, v, j + 1) == (acc.0 * td + tn * acc.1, acc.1 * td));
    lemma_delta_num_nonneg(g, s, w);
    lemma_delta_den_pos(g, s, w);
    lemma_delta_fold_num_nonneg(g, s, v, j);
    lemma_delta_fold_den_pos(g, s, v, j);
    lemma_num_sp_pos(g, s, v);
    lemma_num_sp_pos(g, s, w);
    lemma_mul_ge_one(num_sp(g, s, w), dw.1);
    lemma_mul_nonneg(num_sp(g, s, v), dw.1 + dw.0);
    lemma_mul_nonneg(acc.0, td);
    lemma_mul_nonneg(tn, acc.1);
    // the fold components at j + 1 are within range
    assert(delta_fold(g, s, v, j + 1).0 <= u128::MAX);
    assert(delta_fold(g, s, v, j + 1).1 <= u128::MAX);
    // each intermediate sits below one of them
    lemma_le_mul(acc.1, td);
    lemma_le_mul_r(tn, acc.1);
    lemma_le_mul(num_sp(g, s, v), dw.1 + dw.0);
}

/// Under `bc_in_range`, every number one score-accumulation step passes
/// through is bounded the same way.
proof fn lemma_bc_step_bounds(g: Graph, s: int, v: int)
    requires
        g.wf(),
        bc_in_range(g),
        0 <= s < g.n(),
        0 <= v < g.n(),
        v != s,
        g.reach(s, v),
    ensures
        ({
            let t = delta(g, s, v);
            let acc = bc_fold(g, v, s);
            &&& qdelta(g, s, v) == t
            &&& bc_fold(g, v, s + 1) == (acc.0 * t.1 + t.0 * acc.1, acc.1 * t.1)
            &&& 0 <= acc.0 * t.1
            &&& 0 <= t.0 * acc.1
            &&& acc.0 * t.1 + t.0 * acc.1 <= u128::MAX
            &&& 1 <= acc.1 * t.1 <= u128::MAX
        }),
{
    let t = delta(g, s, v);
    let acc = bc_fold(g, v, s);
    assert(bc_fold(g, v, s + 1) == (acc.0 * t.1 + t.0 * acc.1, acc.1 * t.1));
    lemma_delta_num_nonneg(g, s, v);
    lemma_delta_den_pos(g, s, v);
    lemma_bc_num_nonneg(g, v, s);
    lemma_bc_den_pos(g, v, s);
    lemma_mul_nonneg(acc.0, t.1);
    lemma_mul_nonneg(t.0, acc.1);
    lemma_mul_ge_one(acc.1, t.1);
    assert(bc_fold(g, v, s + 1).0 <= u128::MAX);
    assert(bc_fold(g, v, s + 1).1 <= u128::MAX);
}

proof fn lemma_delta_zero_when_never(g: Graph, s: int, v: int, j: int)
    requires
        g.wf(),
        never_intermediate(g, v),
        0 <= s < g.n(),
        s != v,
        g.reach(s, v),
        0 <= j <= g.adj@[v]@.len(),
    ensures
        delta_fold(g, s, v, j) == (0int, 1int),
    decreases j,
{
    if j > 0 {
        lemma_delta_zero_when_never(g, s, v, j - 1);
        let w = g.adj@[v]@[j - 1] as int;
        if g.reach(s, w) && g.dist(s, w) == g.dist(s, v) + 1 && g.dist(s, w) < g.n() {
            assert(g.edge(v, w)) by {
                assert(g.adj@[v]@[j - 1] == w);
            }
            assert(g.reach(s, v) && g.edge(v, w));
            assert(false);
        }
    }
}

/// The betweenness of a node that is never interior to any shortest path is
/// the rational zero.
pub proof fn lemma_bc_zero_when_never(g: Graph, v: int, m: int)
    requires
        g.wf(),
        never_intermediate(g, v),
    ensures
        bc_fold(g, v, m) == (0int, 1int),
    decreases m,
{
    if m > 0 {
        lemma_bc_zero_when_never(g, v, m - 1);
        if 0 <= m - 1 < g.n() && m - 1 != v && g.reach(m - 1, v) {
            lemma_delta_zero_when_never(g, m - 1, v, g.adj@[v]@.len() as int);
        }
    }
}

/// Betweenness results are pinned by the graph: two outputs that satisfy
/// the contract's `Some` case agree, so re-running the metric on an
/// unmodified graph yields identical scores.
pub proof fn lemma_betweenness_deterministic(
    g: Graph,
    r1: Seq<(usize, Ratio)>,
    r2: Seq<(usize, Ratio)>,
)
    requires
        r1.len() == g.n(),
        r2.len() == g.n(),
        forall|v: int|
            0 <= v < g.n()
                ==> (#[trigger] r1[v]).0 == g.payloads@[v]
                    && r1[v].1.num == bc_fold(g, v, g.n() as int).0
                    && r1[v].1.den == bc_fold(g, v, g.n() as int).1,
        forall|v: int|
            0 <= v < g.n()
                ==> (#[trigger] r2[v]).0 == g.payloads@[v]
                    && r2[v].1.num == bc_fold(g, v, g.n() as int).0
                    && r2[v].1.den == bc_fold(g, v, g.n() as int).1,
    ensures
        r1 == r2,
{
    assert forall|v: int| 0 <= v < g.n() implies r1[v] == r2[v] by {
        assert(r1[v].1 == r2[v].1);
    }
    assert(r1 =~= r2);
}

/// Betweenness centrality of every node: the pair `(payload, score)` for
/// node `v`, the score being the exact rational `bc_fold(g, v, n)` — the
/// sum, over all sources, of `v`'s dependency `delta`, which in turn
/// accumulates `num_sp(v)/num_sp(w) * (1 + delta(w))` over the arcs of `v`
/// that climb one layer away from the source.
///
/// The traversal sweeps each source's layers with exact shortest-path
/// counts (`num_sp`) and then the layers in reverse for the dependencies,
/// scanning the node array once per layer. Returns `None` when an exact
/// intermediate would exceed 128-bit integers; on `Some` every score is
/// pinned, and a node that is never interior to any shortest path
/// (`never_intermediate`) scores zero.
pub fn betweenness_centrality(g: &Graph) -> (r: Option<Vec<(usize, Ratio)>>)
    requires
        g.wf(),
        g.bounded(),
    ensures
        r matches Some(scores) ==> {
            &&& scores@.len() == g.n()
            &&& forall|v: int|
                0 <= v < g.n()
                    ==> (#[trigger] scores@[v]).0 == g.payloads@[v]
                        && scores@[v].1.num == bc_fold(*g, v, g.n() as int).0
                        && scores@[v].1.den == bc_fold(*g, v, g.n() as int).1
                        && scores@[v].1.wf()
            &&& forall|v: int|
                0 <= v < g.n() && never_intermediate(*g, v)
                    ==> (#[trigger] scores@[v]).1.num == 0
        },
        bc_in_range(*g) ==> r is Some,
{
    let n = g.adj.len();
    let mut cb: Vec<(u128, u128)> = Vec::new();
    while cb.len() < n
        invariant
            g.wf(),
            n == g.n(),
            cb@.len() <= n,
            forall|x: int|
                0 <= x < cb@.len()
                    ==> (#[trigger] cb@[x]).0 == bc_fold(*g, x, 0).0
                        && cb@[x].1 == bc_fold(*g, x, 0).1,
        decreases n - cb@.len(),
    {
        cb.push((0, 1));
    }
    let mut s: usize = 0;
    while s < n
        invariant
            g.wf(),
            g.bounded(),
            n == g.n(),
            s <= n,
            cb@.len() == n,
            forall|x: int|
                0 <= x < n
                    ==> (#[trigger] cb@[x]).0 == bc_fold(*g, x, s as int).0
                        && cb@[x].1 == bc_fold(*g, x, s as int).1,
        decreases n - s,
    {
        let (dist, _order) = bfs_distances(g, s);
        // highest finite layer
        let mut max_d: usize = 0;
        let mut x: usize = 0;
        while x < n
            invariant
                n == g.n(),
                x <= n,
                dist@.len() == n,
                max_d < n || max_d == 0,
                forall|y: int| 0 <= y < n && (#[trigger] dist@[y]) != UNREACHED ==> dist@[y] < n,
                forall|y: int|
                    0 <= y < x && (#[trigger] dist@[y]) != UNREACHED ==> dist@[y] <= max_d,
            decreases n - x,
        {
            let dx = dist[x];
            if dx != UNREACHED && dx > max_d {
                max_d = dx;
            }
            x = x + 1;
        }
        // forward sweep: shortest-path counts, layer by layer
        let mut sigma: Vec<u64> = Vec::new();
        while sigma.len() < n
            invariant
                sigma@.len() <= n,
                forall|y: int| 0 <= y < sigma@.len() ==> (#[trigger] sigma@[y]) == 0,
            decreases n - sigma@.len(),
        {
            sigma.push(0);
        }
        sigma[s] = 1;
        proof {
            assert forall|y: int|
                0 <= y < n && g.reach(s as int, y) && g.dist(s as int, y) <= 0
                    implies sigma@[y] == num_sp(*g, s as int, y) by {
                lemma_dist_zero_iff_self(*g, s as int, y);
            }
        }
        let mut d: usize = 0;
        while d <= max_d
            invariant
                g.wf(),
                g.bounded(),
                n == g.n(),
                (s as int) < n,
                max_d < n,
                d <= max_d + 1,
                dist@.len() == n,
                dist@[s as int] == 0,
                forall|y: int|
                    0 <= y < n ==> ((#[trigger] dist@[y]) != UNREACHED <==> g.reach(s as int, y)),
                forall|y: int|
                    0 <= y < n && (#[trigger] dist@[y]) != UNREACHED
                        ==> dist@[y] <= max_d && g.dist(s as int, y) == dist@[y],
                sigma@.len() == n,
                forall|y: int|
                    0 <= y < n && (#[trigger] dist@[y]) != UNREACHED && dist@[y] <= d as int
                        ==> sigma@[y] == num_sp(*g, s as int, y),
                forall|y: int|
                    0 <= y < n && (#[trigger] dist@[y]) != UNREACHED && dist@[y] > d as int
                        ==> sigma@[y] == 0,
                forall|y: int|
                    0 <= y < n && (#[trigger] dist@[y]) == UNREACHED ==> sigma@[y] == 0,
            decreases max_d + 1 - d,
        {
            let mut v: usize = 0;
            while v < n
                invariant
                    g.wf(),
                    g.bounded(),
                    n == g.n(),
                    (s as int) < n,
                    max_d < n,
                    d <= max_d,
                    v <= n,
                    dist@.len() == n,
                    dist@[s as int] == 0,
                    forall|y: int|
                        0 <= y < n ==> ((#[trigger] dist@[y]) != UNREACHED <==> g.reach(
                            s as int,
                            y,
                        )),
                    forall|y: int|
                        0 <= y < n && (#[trigger] dist@[y]) != UNREACHED
                            ==> dist@[y] <= max_d && g.dist(s as int, y) == dist@[y],
                    sigma@.len() == n,
                    forall|y: int|
                        0 <= y < n && (#[trigger] dist@[y]) != UNREACHED && dist@[y] <= d as int
                            ==> sigma@[y] == num_sp(*g, s as int, y),
                    forall|y: int|
                        0 <= y < n && (#[trigger] dist@[y]) != UNREACHED && dist@[y] == d + 1
                            ==> sigma@[y] == num_sp_sum(*g, s as int, y, v as int),
                    forall|y: int|
                        0 <= y < n && (#[trigger] dist@[y]) != UNREACHED && dist@[y] > d + 1
                            ==> sigma@[y] == 0,
                    forall|y: int|
                        0 <= y < n && (#[trigger] dist@[y]) == UNREACHED ==> sigma@[y] == 0,
                decreases n - v,
            {
                if dist[v] == d {
                    let deg = g.adj[v].len();
                    let sv = sigma[v];
                    let mut j: usize = 0;
                    while j < deg
                        invariant
                            g.wf(),
                            g.bounded(),
                            n == g.n(),
                            (s as int) < n,
                            max_d < n,
                            d <= max_d,
                            (v as int) < n,
                            dist@.len() == n,
                            dist@[v as int] == d,
                            deg == g.adj@[v as int]@.len(),
                            j <= deg,
                            dist@[s as int] == 0,
                            forall|y: int|
                                0 <= y < n ==> ((#[trigger] dist@[y]) != UNREACHED <==> g.reach(
                                    s as int,
                                    y,
                                )),
                            forall|y: int|
                                0 <= y < n && (#[trigger] dist@[y]) != UNREACHED
                                    ==> dist@[y] <= max_d && g.dist(s as int, y) == dist@[y],
                            sigma@.len() == n,
                            sv == num_sp(*g, s as int, v as int),
                            forall|y: int|
                                0 <= y < n && (#[trigger] dist@[y]) != UNREACHED && dist@[y]
                                    <= d as int ==> sigma@[y] == num_sp(*g, s as int, y),
                            forall|y: int|
                                0 <= y < n && (#[trigger] dist@[y]) != UNREACHED && dist@[y] == d
                                    + 1 ==> sigma@[y] == num_sp_sum(*g, s as int, y, v as int)
                                    + row_mult(g.adj@[v as int]@, y, j as int) * num_sp(
                                    *g,
                                    s as int,
                                    v as int,
                                ),
                            forall|y: int|
                                0 <= y < n && (#[trigger] dist@[y]) != UNREACHED && dist@[y] > d
                                    + 1 ==> sigma@[y] == 0,
                            forall|y: int|
                                0 <= y < n && (#[trigger] dist@[y]) == UNREACHED ==> sigma@[y]
                                    == 0,
                        decreases deg - j,
                    {
                        let w = g.adj[v][j];
                        if dist[w] == d + 1 {
                            let sw = sigma[w];
                            match sw.checked_add(sv) {
                                Some(x2) => {
                                    proof {
                                        lemma_row_mult_nonneg(
                                            g.adj@[v as int]@,
                                            w as int,
                                            j as int,
                                        );
                                        assert((row_mult(g.adj@[v as int]@, w as int, j as int)
                                            + 1) * num_sp(*g, s as int, v as int) == row_mult(
                                            g.adj@[v as int]@,
                                            w as int,
                                            j as int,
                                        ) * num_sp(*g, s as int, v as int) + num_sp(
                                            *g,
                                            s as int,
                                            v as int,
                                        )) by (nonlinear_arith);
                                    }
                                    sigma[w] = x2;
                                },
                                None => {
                                    proof {
                                        if bc_in_range(*g) {
                                            let sa = s as int;
                                            let va = v as int;
                                            let wa = w as int;
                                            let row = g.adj@[va]@;
                                            let full = row.len() as int;
                                            assert((row_mult(row, wa, j as int) + 1) * num_sp(
                                                *g,
                                                sa,
                                                va,
                                            ) == row_mult(row, wa, j as int) * num_sp(*g, sa, va)
                                                + num_sp(*g, sa, va)) by (nonlinear_arith);
                                            assert(row_mult(row, wa, j as int + 1) == row_mult(
                                                row,
                                                wa,
                                                j as int,
                                            ) + 1);
                                            lemma_row_mult_mono(row, wa, j as int + 1, full);
                                            lemma_num_sp_nonneg(*g, sa, va);
                                            lemma_mul_mono(
                                                row_mult(row, wa, j as int + 1),
                                                row_mult(row, wa, full),
                                                num_sp(*g, sa, va),
                                            );
                                            assert(g.reach(sa, va));
                                            assert(g.dist(sa, va) + 1 == g.dist(sa, wa));
                                            assert(num_sp_sum(*g, sa, wa, va + 1) == num_sp_sum(
                                                *g,
                                                sa,
                                                wa,
                                                va,
                                            ) + row_mult(row, wa, full) * num_sp(*g, sa, va));
                                            lemma_num_sp_sum_mono(*g, sa, wa, va + 1, n as int);
                                            assert(wa != sa);
                                            assert(num_sp(*g, sa, wa) == num_sp_sum(
                                                *g,
                                                sa,
                                                wa,
                                                n as int,
                                            ));
                                            assert(num_sp(*g, sa, wa) <= u64::MAX);
                                            assert(false);
                                        }
                                    }
                                    return None;
                                },
                            }
                        }
                        j = j + 1;
                    }
                } else {
                    proof {
                        assert forall|y: int|
                            0 <= y < n && (#[trigger] dist@[y]) != UNREACHED && dist@[y] == d + 1
                                implies num_sp_sum(*g, s as int, y, v as int + 1) == num_sp_sum(
                                *g,
                                s as int,
                                y,
                                v as int,
                            ) by {
                            if g.reach(s as int, v as int) {
                                assert(g.dist(s as int, v as int) == dist@[v as int]);
                            }
                        }
                    }
                }
                v = v + 1;
            }
            d = d + 1;
        }
        // reverse sweep: dependencies, deepest layer first
        let mut delta_v: Vec<(u128, u128)> = Vec::new();
        while delta_v.len() < n
            invariant
                delta_v@.len() <= n,
                forall|y: int|
                    0 <= y < delta_v@.len()
                        ==> (#[trigger] delta_v@[y]).0 == 0 && delta_v@[y].1 == 1,
            decreases n - delta_v@.len(),
        {
            delta_v.push((0, 1));
        }
        let mut d: usize = max_d + 1;
        while d > 0
            invariant
                g.wf(),
                g.bounded(),
                n == g.n(),
                (s as int) < n,
                max_d < n,
                d <= max_d + 1,
                dist@.len() == n,
                dist@[s as int] == 0,
                forall|y: int|
                    0 <= y < n ==> ((#[trigger] dist@[y]) != UNREACHED <==> g.reach(s as int, y)),
                forall|y: int|
                    0 <= y < n && (#[trigger] dist@[y]) != UNREACHED
                        ==> dist@[y] <= max_d && g.dist(s as int, y) == dist@[y],
                sigma@.len() == n,
                forall|y: int|
                    0 <= y < n && (#[trigger] dist@[y]) != UNREACHED
                        ==> sigma@[y] == num_sp(*g, s as int, y),
                delta_v@.len() == n,
                forall|y: int|
                    0 <= y < n && (#[trigger] dist@[y]) != UNREACHED && dist@[y] >= d as int
                        ==> delta_v@[y].0 == delta(*g, s as int, y).0 && delta_v@[y].1 == delta(
                        *g,
                        s as int,
                        y,
                    ).1,
                forall|y: int|
                    0 <= y < n && ((#[trigger] dist@[y]) == UNREACHED || dist@[y] < d as int)
                        ==> delta_v@[y].0 == 0 && delta_v@[y].1 == 1,
                cb@.len() == n,
                forall|y: int|
                    0 <= y < n && (#[trigger] dist@[y]) != UNREACHED && dist@[y] >= d as int
                        ==> cb@[y].0 == bc_fold(*g, y, s as int + 1).0 && cb@[y].1 == bc_fold(
                        *g,
                        y,
                        s as int + 1,
                    ).1,
                forall|y: int|
                    0 <= y < n && ((#[trigger] dist@[y]) == UNREACHED || dist@[y] < d as int)
                        ==> cb@[y].0 == bc_fold(*g, y, s as int).0 && cb@[y].1 == bc_fold(
                        *g,
                        y,
                        s as int,
                    ).1,
            decreases d,
        {
            d = d - 1;
            let mut v: usize = 0;
            while v < n
                invariant
                    g.wf(),
                    g.bounded(),
                    n == g.n(),
                    (s as int) < n,
                    max_d < n,
                    d <= max_d,
                    v <= n,
                    dist@.len() == n,
                    dist@[s as int] == 0,
                    forall|y: int|
                        0 <= y < n ==> ((#[trigger] dist@[y]) != UNREACHED <==> g.reach(
                            s as int,
                            y,
                        )),
                    forall|y: int|
                        0 <= y < n && (#[trigger] dist@[y]) != UNREACHED
                            ==> dist@[y] <= max_d && g.dist(s as int, y) == dist@[y],
                    sigma@.len() == n,
                    forall|y: int|
                        0 <= y < n && (#[trigger] dist@[y]) != UNREACHED
                            ==> sigma@[y] == num_sp(*g, s as int, y),
                    delta_v@.len() == n,
                    forall|y: int|
                        0 <= y < n && (#[trigger] dist@[y]) != UNREACHED
                            && (dist@[y] > d as int || (dist@[y] == d as int && y < v as int))
                            ==> delta_v@[y].0 == delta(*g, s as int, y).0 && delta_v@[y].1
                            == delta(*g, s as int, y).1,
                    forall|y: int|
                        0 <= y < n && ((#[trigger] dist@[y]) == UNREACHED || dist@[y] < d as int
                            || (dist@[y] == d as int && y >= v as int))
                            ==> delta_v@[y].0 == 0 && delta_v@[y].1 == 1,
                    cb@.len() == n,
                    forall|y: int|
                        0 <= y < n && (#[trigger] dist@[y]) != UNREACHED
                            && (dist@[y] > d as int || (dist@[y] == d as int && y < v as int))
                            ==> cb@[y].0 == bc_fold(*g, y, s as int + 1).0 && cb@[y].1 == bc_fold(
                            *g,
                            y,
                            s as int + 1,
                        ).1,
                    forall|y: int|
                        0 <= y < n && ((#[trigger] dist@[y]) == UNREACHED || dist@[y] < d as int
                            || (dist@[y] == d as int && y >= v as int))
                            ==> cb@[y].0 == bc_fold(*g, y, s as int).0 && cb@[y].1 == bc_fold(
                            *g,
                            y,
                            s as int,
                        ).1,
                decreases n - v,
            {
                if dist[v] == d {
                    let deg = g.adj[v].len();
                    let sv = sigma[v];
                    let mut j: usize = 0;
                    while j < deg
                        invariant
                            g.wf(),
                            g.bounded(),
                            n == g.n(),
                            (s as int) < n,
                            max_d < n,
                            d <= max_d,
                            (v as int) < n,
                            dist@.len() == n,
                            dist@[v as int] == d,
                            deg == g.adj@[v as int]@.len(),
                            j <= deg,
                            dist@[s as int] == 0,
                            forall|y: int|
                                0 <= y < n ==> ((#[trigger] dist@[y]) != UNREACHED <==> g.reach(
                                    s as int,
                                    y,
                                )),
                            forall|y: int|
                                0 <= y < n && (#[trigger] dist@[y]) != UNREACHED
                                    ==> dist@[y] <= max_d && g.dist(s as int, y) == dist@[y],
                            sigma@.len() == n,
                            sv == num_sp(*g, s as int, v as int),
                            forall|y: int|
                                0 <= y < n && (#[trigger] dist@[y]) != UNREACHED
                                    ==> sigma@[y] == num_sp(*g, s as int, y),
                            delta_v@.len() == n,
                            delta_v@[v as int].0 == delta_fold(*g, s as int, v as int, j as int).0,
                            delta_v@[v as int].1 == delta_fold(*g, s as int, v as int, j as int).1,
                            forall|y: int|
                                0 <= y < n && (#[trigger] dist@[y]) != UNREACHED
                                    && (dist@[y] > d as int || (dist@[y] == d as int && y
                                    < v as int)) ==> delta_v@[y].0 == delta(*g, s as int, y).0
                                    && delta_v@[y].1 == delta(*g, s as int, y).1,
                            forall|y: int|
                                0 <= y < n && ((#[trigger] dist@[y]) == UNREACHED || dist@[y]
                                    < d as int || (dist@[y] == d as int && y > v as int))
                                    ==> delta_v@[y].0 == 0 && delta_v@[y].1 == 1,
                            cb@.len() == n,
                            forall|y: int|
                                0 <= y < n && (#[trigger] dist@[y]) != UNREACHED
                                    && (dist@[y] > d as int || (dist@[y] == d as int && y
                                    < v as int)) ==> cb@[y].0 == bc_fold(*g, y, s as int + 1).0
                                    && cb@[y].1 == bc_fold(*g, y, s as int + 1).1,
                            forall|y: int|
                                0 <= y < n && ((#[trigger] dist@[y]) == UNREACHED || dist@[y]
                                    < d as int || (dist@[y] == d as int && y >= v as int))
                                    ==> cb@[y].0 == bc_fold(*g, y, s as int).0 && cb@[y].1
                                    == bc_fold(*g, y, s as int).1,
                        decreases deg - j,
                    {
                        let w = g.adj[v][j];
                        if dist[w] == d + 1 {
                            proof {
                                assert(g.adj@[v as int]@[j as int] == w);
                                assert(g.reach(s as int, w as int));
                                assert(g.dist(s as int, w as int) == d + 1);
                                assert(g.reach(s as int, v as int));
                                assert(g.dist(s as int, v as int) == d);
                                assert(g.dist(s as int, w as int) < n);
                                lemma_num_sp_pos(*g, s as int, w as int);
                                lemma_delta_den_pos(*g, s as int, w as int);
                            }
                            let ghost dw = delta(*g, s as int, w as int);
                            let ghost acc = delta_fold(*g, s as int, v as int, j as int);
                            let (dnw, ddw) = delta_v[w];
                            let sw = sigma[w];
                            proof {
                                assert(dnw == dw.0 && ddw == dw.1);
                                assert(sw == num_sp(*g, s as int, w as int));
                                assert(sv == num_sp(*g, s as int, v as int));
                            }
                            let sum = match ddw.checked_add(dnw) {
                                Some(x2) => x2,
                                None => {
                                    proof {
                                        if bc_in_range(*g) {
                                            lemma_delta_step_bounds(*g, s as int, v as int, j as int);
                                            assert(ddw + dnw == dw.1 + dw.0);
                                            assert(false);
                                        }
                                    }
                                    return None;
                                },
                            };
                            let tn = match (sv as u128).checked_mul(sum) {
                                Some(x2) => x2,
                                None => {
                                    proof {
                                        if bc_in_range(*g) {
                                            lemma_delta_step_bounds(*g, s as int, v as int, j as int);
                                            assert(sv * sum == num_sp(*g, s as int, v as int) * (dw.1 + dw.0));
                                            assert(false);
                                        }
                                    }
                                    return None;
                                },
                            };
                            let td = match (sw as u128).checked_mul(ddw) {
                                Some(x2) => x2,
                                None => {
                                    proof {
                                        if bc_in_range(*g) {
                                            lemma_delta_step_bounds(*g, s as int, v as int, j as int);
                                            assert(sw * ddw == num_sp(*g, s as int, w as int) * dw.1);
                                            assert(false);
                                        }
                                    }
                                    return None;
                                },
                            };
                            let (an, ad) = delta_v[v];
                            proof {
                                assert(an == acc.0 && ad == acc.1);
                            }
                            let t1 = match an.checked_mul(td) {
                                Some(x2) => x2,
                                None => {
                                    proof {
                                        if bc_in_range(*g) {
                                            lemma_delta_step_bounds(*g, s as int, v as int, j as int);
                                            assert(td == num_sp(*g, s as int, w as int) * dw.1);
                                            assert(an * td == acc.0 * (num_sp(*g, s as int, w as int) * dw.1));
                                            assert(false);
                                        }
                                    }
                                    return None;
                                },
                            };
                            let t2 = match tn.checked_mul(ad) {
                                Some(x2) => x2,
                                None => {
                                    proof {
                                        if bc_in_range(*g) {
                                            lemma_delta_step_bounds(*g, s as int, v as int, j as int);
                                            assert(tn == num_sp(*g, s as int, v as int) * (dw.1 + dw.0));
                                            assert(tn * ad == (num_sp(*g, s as int, v as int) * (dw.1 + dw.0)) * acc.1);
                                            assert(false);
                                        }
                                    }
                                    return None;
                                },
                            };
                            let nn = match t1.checked_add(t2) {
                                Some(x2) => x2,
                                None => {
                                    proof {
                                        if bc_in_range(*g) {
                                            lemma_delta_step_bounds(*g, s as int, v as int, j as int);
                                            assert(t1 == acc.0 * (num_sp(*g, s as int, w as int) * dw.1));
                                            assert(t2 == (num_sp(*g, s as int, v as int) * (dw.1 + dw.0)) * acc.1);
                                            assert(false);
                                        }
                                    }
                                    return None;
                                },
                            };
                            let nd = match ad.checked_mul(td) {
                                Some(x2) => x2,
                                None => {
                                    proof {
                                        if bc_in_range(*g) {
                                            lemma_delta_step_bounds(*g, s as int, v as int, j as int);
                                            assert(td == num_sp(*g, s as int, w as int) * dw.1);
                                            assert(ad * td == acc.1 * (num_sp(*g, s as int, w as int) * dw.1));
                                            assert(false);
                                        }
                                    }
                                    return None;
                                },
                            };
                            delta_v[v] = (nn, nd);
                        }
                        j = j + 1;
                    }
                    // this node's dependency is complete; fold it into its score
                    proof {
                        assert(delta(*g, s as int, v as int) == delta_fold(
                            *g,
                            s as int,
                            v as int,
                            deg as int,
                        ));
                    }
                    if v != s {
                        proof {
                            assert(qdelta(*g, s as int, v as int) == delta(*g, s as int, v as int));
                            assert(bc_fold(*g, v as int, s as int + 1) == (
                                bc_fold(*g, v as int, s as int).0 * qdelta(*g, s as int, v as int).1
                                    + qdelta(*g, s as int, v as int).0 * bc_fold(
                                    *g,
                                    v as int,
                                    s as int,
                                ).1,
                                bc_fold(*g, v as int, s as int).1 * qdelta(*g, s as int, v as int).1,
                            ));
                        }
                        let ghost tq = delta(*g, s as int, v as int);
                        let ghost accb = bc_fold(*g, v as int, s as int);
                        let (cn, cd) = cb[v];
                        let (dn2, dd2) = delta_v[v];
                        proof {
                            assert(cn == accb.0 && cd == accb.1);
                            assert(dn2 == tq.0 && dd2 == tq.1);
                        }
                        let t1 = match cn.checked_mul(dd2) {
                            Some(x2) => x2,
                            None => {
                                proof {
                                    if bc_in_range(*g) {
                                        lemma_bc_step_bounds(*g, s as int, v as int);
                                        assert(cn * dd2 == accb.0 * tq.1);
                                        assert(false);
                                    }
                                }
                                return None;
                            },
                        };
                        let t2 = match dn2.checked_mul(cd) {
                            Some(x2) => x2,
                            None => {
                                proof {
                                    if bc_in_range(*g) {
                                        lemma_bc_step_bounds(*g, s as int, v as int);
                                        assert(dn2 * cd == tq.0 * accb.1);
                                        assert(false);
                                    }
                                }
                                return None;
                            },
                        };
                        let nn = match t1.checked_add(t2) {
                            Some(x2) => x2,
                            None => {
                                proof {
                                    if bc_in_range(*g) {
                                        lemma_bc_step_bounds(*g, s as int, v as int);
                                        assert(t1 == accb.0 * tq.1);
                                        assert(t2 == tq.0 * accb.1);
                                        assert(false);
                                    }
                                }
                                return None;
                            },
                        };
                        let nd = match cd.checked_mul(dd2) {
                            Some(x2) => x2,
                            None => {
                                proof {
                                    if bc_in_range(*g) {
                                        lemma_bc_step_bounds(*g, s as int, v as int);
                                        assert(cd * dd2 == accb.1 * tq.1);
                                        assert(false);
                                    }
                                }
                                return None;
                            },
                        };
                        cb[v] = (nn, nd);
                    } else {
                        proof {
                            assert(qdelta(*g, s as int, v as int) == (0int, 1int));
                        }
                    }
                } else {
                    proof {
                        if g.reach(s as int, v as int) {
                            assert(g.dist(s as int, v as int) == dist@[v as int]);
                        }
                    }
                }
                v = v + 1;
            }
        }
        proof {
            assert forall|y: int|
                0 <= y < n implies (#[trigger] cb@[y]).0 == bc_fold(*g, y, s as int + 1).0
                    && cb@[y].1 == bc_fold(*g, y, s as int + 1).1 by {
                if dist@[y] == UNREACHED {
                    assert(!g.reach(s as int, y));
                    assert(qdelta(*g, s as int, y) == (0int, 1int));
                    assert(cb@[y].0 == bc_fold(*g, y, s as int).0 && cb@[y].1 == bc_fold(
                        *g,
                        y,
                        s as int,
                    ).1);
                    assert(bc_fold(*g, y, s as int + 1) == (
                        bc_fold(*g, y, s as int).0 * qdelta(*g, s as int, y).1 + qdelta(
                            *g,
                            s as int,
                            y,
                        ).0 * bc_fold(*g, y, s as int).1,
                        bc_fold(*g, y, s as int).1 * qdelta(*g, s as int, y).1,
                    ));
                } else {
                    assert(dist@[y] >= 0);
                }
            }
        }
        s = s + 1;
    }
    let mut out: Vec<(usize, Ratio)> = Vec::new();
    let mut v: usize = 0;
    while v < n
        invariant
            g.wf(),
            n == g.n(),
            v <= n,
            cb@.len() == n,
            forall|x: int|
                0 <= x < n
                    ==> (#[trigger] cb@[x]).0 == bc_fold(*g, x, n as int).0 && cb@[x].1 == bc_fold(
                    *g,
                    x,
                    n as int,
                ).1,
            out@.len() == v,
            forall|x: int|
                0 <= x < v as int
                    ==> (#[trigger] out@[x]).0 == g.payloads@[x]
                        && out@[x].1.num == bc_fold(*g, x, n as int).0
                        && out@[x].1.den == bc_fold(*g, x, n as int).1
                        && out@[x].1.wf(),
        decreases n - v,
    {
        proof {
            lemma_bc_den_pos(*g, v as int, n as int);
        }
        let (a, b) = cb[v];
        out.push((g.payloads[v], Ratio { num: a, den: b }));
        v = v + 1;
    }
    proof {
        assert forall|v2: int|
            0 <= v2 < g.n() && never_intermediate(*g, v2)
                implies (#[trigger] out@[v2]).1.num == 0 by {
            lemma_bc_zero_when_never(*g, v2, n as int);
        }
    }
    Some(out)
}


} // verus!
