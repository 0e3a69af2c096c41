//! Densest-subgraph approximation by greedy peeling: repeatedly drop the
//! node of minimum degree within the working subset, tracking the subset of
//! highest density seen.

use vstd::prelude::*;
use crate::Ratio;
use crate::graph::{Graph, NODE_LIMIT, lemma_total_adj_bound, total_adj};

verus! {

/// Result of the densest-subgraph peeling: the payloads of the best subset
/// and its exact density `internal edges / subset size` (`0 / 1` when no
/// subset with positive density was seen).
pub struct SubgraphResult {
    /// Node payloads of the best subset, in node-index order.
    pub nodes: Vec<usize>,
    /// Highest observed density.
    pub density: Ratio,
}

/// Among the first `j` neighbors of `u`, how many lie inside `mask`.
pub open spec fn row_in_count(g: Graph, mask: Seq<bool>, u: int, j: int) -> int
    decreases j,
{
    if j <= 0 {
        0
    } else {
        row_in_count(g, mask, u, j - 1) + if mask[g.adj@[u]@[j - 1] as int] {
            1int
        } else {
            0int
        }
    }
}

/// Ordered adjacency pairs internal to `mask`, over sources below `m`; every
/// undirected internal edge is counted once from each endpoint.
pub open spec fn pairs_to(g: Graph, mask: Seq<bool>, m: int) -> int
    decreases m,
{
    if m <= 0 {
        0
    } else {
        pairs_to(g, mask, m - 1) + if mask[m - 1] {
            row_in_count(g, mask, m - 1, g.adj@[m - 1]@.len() as int)
        } else {
            0int
        }
    }
}

/// Number of selected nodes below `m`.
pub open spec fn mask_count(mask: Seq<bool>, m: int) -> int
    decreases m,
{
    if m <= 0 {
        0
    } else {
        mask_count(mask, m - 1) + if mask[m - 1] { 1int } else { 0int }
    }
}

/// Payloads of the selected nodes below `m`, in node-index order.
pub open spec fn masked_payloads(g: Graph, mask: Seq<bool>, m: int) -> Seq<usize>
    decreases m,
{
    if m <= 0 {
        Seq::empty()
    } else {
        let p = masked_payloads(g, mask, m - 1);
        if mask[m - 1] {
            p.push(g.payloads@[m - 1])
        } else {
            p
        }
    }
}

/// The mask selecting every node of an `n`-node graph.
pub open spec fn full_mask(n: nat) -> Seq<bool> {
    Seq::new(n, |i: int| true)
}

/// `r` reports some node subset faithfully: its payload list and its exact
/// density `(internal pairs / 2) / size`, with the empty subset reported as
/// density `0 / 1`.
pub open spec fn reports_subset(g: Graph, mask: Seq<bool>, r: SubgraphResult) -> bool {
    &&& mask.len() == g.n()
    &&& r.nodes@ == masked_payloads(g, mask, g.n() as int)
    &&& mask_count(mask, g.n() as int) > 0 ==> {
        &&& r.density.num == pairs_to(g, mask, g.n() as int) / 2
        &&& r.density.den == mask_count(mask, g.n() as int)
    }
    &&& mask_count(mask, g.n() as int) == 0 ==> r.density.num == 0 && r.density.den == 1
}

/// Degree of `u` restricted to the subset `mask`.
pub open spec fn subset_deg(g: Graph, mask: Seq<bool>, u: int) -> int {
    row_in_count(g, mask, u, g.adj@[u]@.len() as int)
}

/// First masked node of minimum subset degree among indices below `m`
/// (negative when no node below `m` is masked).
pub open spec fn first_min_node(g: Graph, mask: Seq<bool>, m: int) -> int
    decreases m,
{
    if m <= 0 {
        -1
    } else {
        let prev = first_min_node(g, mask, m - 1);
        if !mask[m - 1] {
            prev
        } else if prev < 0 {
            m - 1
        } else if subset_deg(g, mask, m - 1) < subset_deg(g, mask, prev) {
            m - 1
        } else {
            prev
        }
    }
}

/// The mask after dropping node `u` (unchanged when no node was found).
pub open spec fn peeled_mask(mask: Seq<bool>, u: int) -> Seq<bool> {
    if 0 <= u < mask.len() {
        mask.update(u, false)
    } else {
        mask
    }
}

/// `r` is strictly denser than `b` (densities as `num / den` pairs, compared
/// by cross-multiplication).
pub open spec fn denser(b: (int, int, Seq<bool>), r: (int, int, Seq<bool>)) -> bool {
    r.0 * b.1 > b.0 * r.1
}

/// Keep the strictly denser of a recorded best and a challenger; ties keep
/// the record.
pub open spec fn keep_denser(b: (int, int, Seq<bool>), r: (int, int, Seq<bool>)) -> (
    int,
    int,
    Seq<bool>,
) {
    if denser(b, r) {
        r
    } else {
        b
    }
}

/// The outcome of peeling `cnt` more nodes starting from `mask`: the best
/// density seen, as `(pairs / 2, subset size, subset mask)`. A round is
/// recorded only when strictly denser than everything after it, so among
/// equally dense rounds the earliest (largest) subset wins, and zero
/// densities are never recorded.
pub open spec fn peel_rec(g: Graph, mask: Seq<bool>, cnt: int) -> (int, int, Seq<bool>)
    decreases cnt,
{
    if cnt <= 0 {
        (0, 1, Seq::new(g.n(), |i: int| false))
    } else {
        let u = first_min_node(g, mask, g.n() as int);
        let rest = peel_rec(g, peeled_mask(mask, u), cnt - 1);
        let half = pairs_to(g, mask, g.n() as int) / 2;
        if half > 0 && half * rest.1 >= rest.0 * cnt {
            (half, cnt, mask)
        } else {
            rest
        }
    }
}

/// What the whole peeling run reports: the best of the chain that starts
/// from the full node set, or the empty report when nothing has positive
/// density.
pub open spec fn peel_spec(g: Graph) -> (int, int, Seq<bool>) {
    keep_denser(
        (0, 1, Seq::new(g.n(), |i: int| false)),
        peel_rec(g, full_mask(g.n()), g.n() as int),
    )
}

proof fn lemma_peel_rec_wf(g: Graph, mask: Seq<bool>, cnt: int)
    requires
        g.wf(),
        g.bounded(),
        mask.len() == g.n(),
    ensures
        peel_rec(g, mask, cnt).0 >= 0,
        peel_rec(g, mask, cnt).1 > 0,
    decreases cnt,
{
    if cnt > 0 {
        let u = first_min_node(g, mask, g.n() as int);
        lemma_peel_rec_wf(g, peeled_mask(mask, u), cnt - 1);
        lemma_pairs_bound(g, mask, g.n() as int);
    }
}

proof fn lemma_frac_gt_trans(a: int, b: int, c: int, d: int, e: int, f: int)
    requires
        b > 0,
        d > 0,
        f > 0,
        c * b > a * d,
        e * d > c * f,
    ensures
        e * b > a * f,
{
    assert(e * b > a * f) by (nonlinear_arith)
        requires b > 0, d > 0, f > 0, c * b > a * d, e * d > c * f;
}

proof fn lemma_frac_le_trans(a: int, b: int, c: int, d: int, e: int, f: int)
    requires
        b > 0,
        d > 0,
        f > 0,
        c * b <= a * d,
        e * d <= c * f,
    ensures
        e * b <= a * f,
{
    assert(e * b <= a * f) by (nonlinear_arith)
        requires b > 0, d > 0, f > 0, c * b <= a * d, e * d <= c * f;
}

proof fn lemma_pos_num(a: int, b: int, c: int, h: int)
    requires
        a >= 0,
        b > 0,
        c > 0,
        h * b > a * c,
    ensures
        h > 0,
{
    assert(h > 0) by (nonlinear_arith)
        requires a >= 0, b > 0, c > 0, h * b > a * c;
}

/// One peeling round commutes with best-tracking: updating the record
/// against the current density and recursing on the peeled mask reports the
/// same best as recursing on the current mask.
proof fn lemma_keep_denser_step(g: Graph, bn: int, bd: int, bm: Seq<bool>, mask: Seq<bool>, cnt: int)
    requires
        g.wf(),
        g.bounded(),
        mask.len() == g.n(),
        cnt > 0,
        bn >= 0,
        bd > 0,
    ensures
        ({
            let u = first_min_node(g, mask, g.n() as int);
            let half = pairs_to(g, mask, g.n() as int) / 2;
            let b2 = if half * bd > bn * cnt {
                (half, cnt, mask)
            } else {
                (bn, bd, bm)
            };
            keep_denser(b2, peel_rec(g, peeled_mask(mask, u), cnt - 1)) == keep_denser(
                (bn, bd, bm),
                peel_rec(g, mask, cnt),
            )
        }),
{
    let u = first_min_node(g, mask, g.n() as int);
    let half = pairs_to(g, mask, g.n() as int) / 2;
    let rest = peel_rec(g, peeled_mask(mask, u), cnt - 1);
    lemma_peel_rec_wf(g, peeled_mask(mask, u), cnt - 1);
    lemma_pairs_bound(g, mask, g.n() as int);
    let b = (bn, bd, bm);
    let cur = (half, cnt, mask);
    if half * bd > bn * cnt {
        // the current round beats the record
        lemma_pos_num(bn, bd, cnt, half);
        if half * rest.1 >= rest.0 * cnt {
            // and it beats the rest of the chain: both sides keep it
            assert(peel_rec(g, mask, cnt) == cur);
            assert(!denser(cur, rest));
            assert(denser(b, cur));
        } else {
            // the rest of the chain is denser still: both sides keep that
            assert(peel_rec(g, mask, cnt) == rest);
            assert(denser(cur, rest));
            lemma_frac_gt_trans(bn, bd, half, cnt, rest.0, rest.1);
            assert(denser(b, rest));
        }
    } else {
        // the record stands against the current round
        if half > 0 && half * rest.1 >= rest.0 * cnt {
            // the chain keeps the current round, which the record absorbs
            assert(peel_rec(g, mask, cnt) == cur);
            lemma_frac_le_trans(bn, bd, half, cnt, rest.0, rest.1);
            assert(!denser(b, rest));
            assert(!denser(b, cur));
        } else {
            assert(peel_rec(g, mask, cnt) == rest);
        }
    }
}

proof fn lemma_mask_count_le(mask: Seq<bool>, m: int)
    requires
        0 <= m,
    ensures
        0 <= mask_count(mask, m) <= m,
    decreases m,
{
    if m > 0 {
        lemma_mask_count_le(mask, m - 1);
    }
}

proof fn lemma_mask_count_full(mask: Seq<bool>, m: int)
    requires
        0 <= m,
        mask_count(mask, m) == m,
    ensures
        forall|i: int| 0 <= i < m ==> mask[i],
    decreases m,
{
    if m > 0 {
        lemma_mask_count_le(mask, m - 1);
        lemma_mask_count_full(mask, m - 1);
    }
}

proof fn lemma_mask_member(mask: Seq<bool>, m: int)
    requires
        0 <= m,
        mask_count(mask, m) > 0,
    ensures
        exists|i: int| 0 <= i < m && mask[i],
    decreases m,
{
    if m > 0 {
        if mask[m - 1] {
        } else {
            lemma_mask_member(mask, m - 1);
        }
    }
}

proof fn lemma_mask_count_update(mask: Seq<bool>, i: int, m: int)
    requires
        0 <= i < mask.len(),
        0 <= m <= mask.len(),
        mask[i],
    ensures
        mask_count(mask.update(i, false), m) == mask_count(mask, m) - if i < m {
            1int
        } else {
            0int
        },
    decreases m,
{
    if m > 0 {
        lemma_mask_count_update(mask, i, m - 1);
    }
}

/// Fraction comparison is transitive: `a/b >= c/d` and `c/d >= e/f` give
/// `a/b >= e/f`, for positive denominators.
proof fn lemma_frac_ge_trans(a: int, b: int, c: int, d: int, e: int, f: int)
    requires
        b > 0,
        d > 0,
        f > 0,
        a * d >= c * b,
        c * f >= e * d,
    ensures
        a * f >= e * b,
{
    assert(a * f >= e * b) by (nonlinear_arith)
        requires b > 0, d > 0, f > 0, a * d >= c * b, c * f >= e * d;
}

/// Products of bounded nonnegative factors are bounded by the product of
/// the bounds.
proof fn lemma_mul_le(a: int, amax: int, b: int, bmax: int)
    requires
        0 <= a <= amax,
        0 <= b <= bmax,
    ensures
        0 <= a * b <= amax * bmax,
{
    assert(0 <= a * b <= amax * bmax) by (nonlinear_arith)
        requires 0 <= a <= amax, 0 <= b <= bmax;
}

/// Row counts never exceed the row length, so internal pairs stay within
/// `m * NODE_LIMIT` on a bounded graph.
proof fn lemma_pairs_bound(g: Graph, mask: Seq<bool>, m: int)
    requires
        g.wf(),
        g.bounded(),
        0 <= m <= g.n(),
    ensures
        0 <= pairs_to(g, mask, m) <= total_adj(g, m),
    decreases m,
{
    if m > 0 {
        lemma_pairs_bound(g, mask, m - 1);
        lemma_row_in_count_le(g, mask, m - 1, g.adj@[m - 1]@.len() as int);
    }
}

proof fn lemma_row_in_count_le(g: Graph, mask: Seq<bool>, u: int, j: int)
    requires
        0 <= j,
    ensures
        0 <= row_in_count(g, mask, u, j) <= j,
    decreases j,
{
    if j > 0 {
        lemma_row_in_count_le(g, mask, u, j - 1);
    }
}

/// Greedy 2-approximation of the densest subgraph.
///
/// Starting from all nodes, the density of the working subset is measured,
/// the best subset seen is recorded, and the node of minimum degree within
/// the subset (first such node in enumeration order) is removed, until the
/// subset is empty.
///
/// The result reports a genuine subset with its exact density, and that
/// density is at least the density of the whole graph.
pub fn densest_subgraph_peel(g: &Graph) -> (r: SubgraphResult)
    requires
        g.wf(),
        g.bounded(),
    ensures
        r.density.wf(),
        exists|mask: Seq<bool>| #[trigger] reports_subset(*g, mask, r),
        g.n() > 0
            ==> r.density.num * (g.n() as int)
                >= (pairs_to(*g, full_mask(g.n()), g.n() as int) / 2) * r.density.den,
        r.density.num == peel_spec(*g).0,
        r.density.den == peel_spec(*g).1,
        r.nodes@ == masked_payloads(*g, peel_spec(*g).2, g.n() as int),
{
    let n = g.adj.len();
    let mut in_set: Vec<bool> = Vec::new();
    while in_set.len() < n
        invariant
            in_set@.len() <= n,
            forall|i: int| 0 <= i < in_set@.len() ==> (#[trigger] in_set@[i]),
        decreases n - in_set@.len(),
    {
        in_set.push(true);
    }
    let mut cnt: usize = n;
    let mut best_num: u64 = 0;
    let mut best_den: u64 = 1;
    let mut best_nodes: Vec<usize> = Vec::new();
    let ghost mut best_mask: Seq<bool> = Seq::new(n as nat, |i: int| false);
    proof {
        lemma_mask_count_all(best_mask, n as int, false);
        lemma_mask_count_all(in_set@, n as int, true);
        assert(best_nodes@ == masked_payloads(*g, best_mask, 0));
        lemma_masked_payloads_none(*g, best_mask, n as int);
        assert(in_set@ =~= full_mask(n as nat));
        assert(best_mask =~= Seq::new(g.n(), |i: int| false));
    }
    while cnt > 0
        invariant
            g.wf(),
            g.bounded(),
            n == g.n(),
            in_set@.len() == n,
            cnt == mask_count(in_set@, n as int),
            cnt <= n,
            best_den > 0,
            best_den <= n || best_den == 1,
            best_num <= (NODE_LIMIT as int) * (NODE_LIMIT as int),
            best_mask.len() == n,
            best_nodes@ == masked_payloads(*g, best_mask, n as int),
            mask_count(best_mask, n as int) > 0
                ==> best_num == pairs_to(*g, best_mask, n as int) / 2
                    && best_den == mask_count(best_mask, n as int),
            mask_count(best_mask, n as int) == 0 ==> best_num == 0 && best_den == 1,
            cnt < n
                ==> best_num * (n as int)
                    >= (pairs_to(*g, full_mask(n as nat), n as int) / 2) * best_den,
            keep_denser(
                (best_num as int, best_den as int, best_mask),
                peel_rec(*g, in_set@, cnt as int),
            ) == peel_spec(*g),
        decreases cnt,
    {
        // density of the current subset
        let mut pairs: u64 = 0;
        let mut u: usize = 0;
        while u < n
            invariant
                g.wf(),
                g.bounded(),
                n == g.n(),
                in_set@.len() == n,
                u <= n,
                pairs == pairs_to(*g, in_set@, u as int),
                pairs <= total_adj(*g, u as int),
                pairs <= (NODE_LIMIT as int) * (NODE_LIMIT as int),
            decreases n - u,
        {
            if in_set[u] {
                let deg = g.adj[u].len();
                let mut rc: u64 = 0;
                let mut j: usize = 0;
                while j < deg
                    invariant
                        g.wf(),
                        g.bounded(),
                        n == g.n(),
                        in_set@.len() == n,
                        (u as int) < n,
                        deg == g.adj@[u as int]@.len(),
                        j <= deg,
                        rc == row_in_count(*g, in_set@, u as int, j as int),
                        rc <= j,
                    decreases deg - j,
                {
                    let w = g.adj[u][j];
                    if in_set[w] {
                        rc = rc + 1;
                    }
                    j = j + 1;
                }
                proof {
                    lemma_total_adj_bound(*g, u as int + 1);
                    lemma_pairs_bound(*g, in_set@, u as int);
                    assert(total_adj(*g, u as int + 1)
                        == total_adj(*g, u as int) + g.adj@[u as int]@.len());
                }
                pairs = pairs + rc;
            } else {
                proof {
                    lemma_total_adj_bound(*g, u as int + 1);
                    assert(total_adj(*g, u as int + 1)
                        == total_adj(*g, u as int) + g.adj@[u as int]@.len());
                }
            }
            u = u + 1;
        }
        let half = pairs / 2;
        let ghost old_bn = best_num as int;
        let ghost old_bd = best_den as int;
        let ghost old_bm = best_mask;
        let ghost fullhalf = pairs_to(*g, full_mask(n as nat), n as int) / 2;
        proof {
            if cnt == n {
                lemma_mask_count_full(in_set@, n as int);
                assert(in_set@ =~= full_mask(n as nat));
                assert(half == fullhalf);
            }
            let l2 = (NODE_LIMIT as int) * (NODE_LIMIT as int);
            lemma_mul_le(half as int, l2, best_den as int, NODE_LIMIT as int);
            lemma_mul_le(best_num as int, l2, cnt as int, NODE_LIMIT as int);
        }
        // record the subset if it is strictly denser than the best so far
        if (half as u128) * (best_den as u128) > (best_num as u128) * (cnt as u128) {
            let mut sel: Vec<usize> = Vec::new();
            let mut x: usize = 0;
            while x < n
                invariant
                    g.wf(),
                    n == g.n(),
                    in_set@.len() == n,
                    x <= n,
                    sel@ == masked_payloads(*g, in_set@, x as int),
                decreases n - x,
            {
                if in_set[x] {
                    sel.push(g.payloads[x]);
                }
                x = x + 1;
            }
            best_nodes = sel;
            best_num = half;
            best_den = cnt as u64;
            proof {
                best_mask = in_set@;
                lemma_pairs_bound(*g, in_set@, n as int);
                lemma_total_adj_bound(*g, n as int);
                if cnt < n {
                    lemma_frac_ge_trans(
                        half as int,
                        cnt as int,
                        old_bn,
                        old_bd,
                        fullhalf,
                        n as int,
                    );
                }
            }
        }
        // peel the first node of minimum subset degree
        let mut min_u: usize = 0;
        let mut min_deg: u64 = 0;
        let mut found = false;
        let mut x: usize = 0;
        while x < n
            invariant
                g.wf(),
                g.bounded(),
                n == g.n(),
                in_set@.len() == n,
                x <= n,
                found ==> (min_u as int) < n && in_set@[min_u as int],
                !found ==> forall|i: int| 0 <= i < x ==> !(#[trigger] in_set@[i]),
                found <==> first_min_node(*g, in_set@, x as int) >= 0,
                found ==> min_u as int == first_min_node(*g, in_set@, x as int),
                found ==> min_deg == subset_deg(*g, in_set@, min_u as int),
            decreases n - x,
        {
            if in_set[x] {
                let deg = g.adj[x].len();
                let mut dc: u64 = 0;
                let mut j: usize = 0;
                while j < deg
                    invariant
                        g.wf(),
                        n == g.n(),
                        in_set@.len() == n,
                        (x as int) < n,
                        deg == g.adj@[x as int]@.len(),
                        j <= deg,
                        dc <= j,
                        dc == row_in_count(*g, in_set@, x as int, j as int),
                    decreases deg - j,
                {
                    let w = g.adj[x][j];
                    if in_set[w] {
                        dc = dc + 1;
                    }
                    j = j + 1;
                }
                if !found || dc < min_deg {
                    found = true;
                    min_u = x;
                    min_deg = dc;
                }
            }
            x = x + 1;
        }
        proof {
            if !found {
                lemma_mask_member(in_set@, n as int);
            }
        }
        let ghost is_old = in_set@;
        in_set[min_u] = false;
        proof {
            lemma_mask_count_update(is_old, min_u as int, n as int);
            // one chain step: the updated record plus the peeled mask still
            // carry the chain's answer
            assert(min_u as int == first_min_node(*g, is_old, n as int));
            lemma_keep_denser_step(*g, old_bn, old_bd, old_bm, is_old, cnt as int);
            assert(in_set@ =~= is_old.update(min_u as int, false));
            assert((best_num as int, best_den as int, best_mask) == (if half as int * old_bd
                > old_bn * (cnt as int) {
                (pairs_to(*g, is_old, n as int) / 2, cnt as int, is_old)
            } else {
                (old_bn, old_bd, old_bm)
            }));
        }
        cnt = cnt - 1;
    }
    proof {
        assert(reports_subset(*g, best_mask, SubgraphResult {
            nodes: best_nodes,
            density: Ratio { num: best_num as u128, den: best_den as u128 },
        }));
        // an empty chain challenges the record with density zero and loses
        assert(peel_rec(*g, in_set@, 0) == (0int, 1int, Seq::new(g.n(), |i: int| false)));
        assert(0 * (best_den as int) == 0);
        assert(!denser(
            (best_num as int, best_den as int, best_mask),
            peel_rec(*g, in_set@, 0),
        ));
        assert(peel_spec(*g) == (best_num as int, best_den as int, best_mask));
    }
    SubgraphResult { nodes: best_nodes, density: Ratio { num: best_num as u128, den: best_den as u128 } }
}

/// The graph is a clique in the strict sense: complete, with simple
/// adjacency lists (no self entry, no duplicate entry).
pub open spec fn clique(g: Graph) -> bool {
    &&& g.complete()
    &&& forall|u: int, t: int|
        0 <= u < g.n() && 0 <= t < g.deg(u) ==> (#[trigger] g.adj@[u]@[t]) != u
    &&& forall|u: int, t1: int, t2: int|
        #![trigger g.adj@[u]@[t1], g.adj@[u]@[t2]]
        0 <= u < g.n() && 0 <= t1 < t2 < g.deg(u) ==> g.adj@[u]@[t1] != g.adj@[u]@[t2]
}

/// The nodes named by the first `j` entries of `u`'s neighbor list.
spec fn seen_mask(g: Graph, u: int, j: int, n: nat) -> Seq<bool> {
    Seq::new(n, |v: int| exists|t: int| 0 <= t < j && g.adj@[u]@[t] == v)
}

/// Pointwise conjunction of two masks.
spec fn and_mask(a: Seq<bool>, b: Seq<bool>) -> Seq<bool> {
    Seq::new(a.len(), |i: int| a[i] && b[i])
}

proof fn lemma_mask_count_update_gen(mask: Seq<bool>, i: int, b: bool, m: int)
    requires
        0 <= i < mask.len(),
        0 <= m <= mask.len(),
    ensures
        mask_count(mask.update(i, b), m) == mask_count(mask, m) + if i < m {
            (if b { 1int } else { 0int }) - (if mask[i] { 1int } else { 0int })
        } else {
            0int
        },
    decreases m,
{
    if m > 0 {
        lemma_mask_count_update_gen(mask, i, b, m - 1);
    }
}

/// Over a simple neighbor list, the masked entries among the first `j` are
/// exactly the masked nodes seen so far.
proof fn lemma_row_count_seen(g: Graph, mask: Seq<bool>, u: int, j: int)
    requires
        g.wf(),
        clique(g),
        mask.len() == g.n(),
        0 <= u < g.n(),
        0 <= j <= g.deg(u),
    ensures
        row_in_count(g, mask, u, j)
            == mask_count(and_mask(mask, seen_mask(g, u, j, g.n())), g.n() as int),
    decreases j,
{
    let n = g.n();
    if j == 0 {
        assert forall|i: int|
            0 <= i < and_mask(mask, seen_mask(g, u, 0, n)).len()
                implies and_mask(mask, seen_mask(g, u, 0, n))[i] == false by {
        }
        lemma_mask_count_all(and_mask(mask, seen_mask(g, u, 0, n)), n as int, false);
    } else {
        lemma_row_count_seen(g, mask, u, j - 1);
        let x = g.adj@[u]@[j - 1] as int;
        assert(0 <= x < n);
        // x has not occurred among the first j - 1 entries
        assert(!seen_mask(g, u, j - 1, n)[x]) by {
            if exists|t: int| 0 <= t < j - 1 && g.adj@[u]@[t] == x {
                let t = choose|t: int| 0 <= t < j - 1 && g.adj@[u]@[t] == x;
                assert(g.adj@[u]@[t] != g.adj@[u]@[j - 1]);
            }
        }
        assert(seen_mask(g, u, j, n) =~= seen_mask(g, u, j - 1, n).update(x, true)) by {
            assert forall|v: int| 0 <= v < n implies seen_mask(g, u, j, n)[v] == seen_mask(
                g,
                u,
                j - 1,
                n,
            ).update(x, true)[v] by {
                if v == x {
                    assert(g.adj@[u]@[j - 1] == v);
                    assert(seen_mask(g, u, j, n)[v]);
                } else {
                    if seen_mask(g, u, j, n)[v] {
                        let t = choose|t: int| 0 <= t < j && g.adj@[u]@[t] == v;
                        assert(t < j - 1);
                        assert(seen_mask(g, u, j - 1, n)[v]);
                    }
                    if seen_mask(g, u, j - 1, n)[v] {
                        let t = choose|t: int| 0 <= t < j - 1 && g.adj@[u]@[t] == v;
                        assert(seen_mask(g, u, j, n)[v]);
                    }
                }
            }
        }
        let prev = and_mask(mask, seen_mask(g, u, j - 1, n));
        assert(and_mask(mask, seen_mask(g, u, j, n)) =~= prev.update(x, mask[x]));
        assert(prev[x] == false);
        lemma_mask_count_update_gen(prev, x, mask[x], n as int);
    }
}

/// In a clique, a node's neighbor list names every node but itself, so the
/// masked neighbors of a node number `mask_count` minus the node itself.
proof fn lemma_row_count_clique(g: Graph, mask: Seq<bool>, u: int)
    requires
        g.wf(),
        clique(g),
        mask.len() == g.n(),
        0 <= u < g.n(),
    ensures
        row_in_count(g, mask, u, g.deg(u) as int)
            == mask_count(mask, g.n() as int) - if mask[u] { 1int } else { 0int },
{
    let n = g.n();
    let j = g.deg(u) as int;
    lemma_row_count_seen(g, mask, u, j);
    assert(and_mask(mask, seen_mask(g, u, j, n)) =~= mask.update(u, false)) by {
        assert forall|v: int|
            0 <= v < n implies and_mask(mask, seen_mask(g, u, j, n))[v] == mask.update(
            u,
            false,
        )[v] by {
            if v == u {
                if seen_mask(g, u, j, n)[v] {
                    let t = choose|t: int| 0 <= t < j && g.adj@[u]@[t] == v;
                    assert(g.adj@[u]@[t] != u);
                }
            } else {
                // complete: v occurs in u's list
                assert(g.edge(u, v));
                let t = choose|t: int| 0 <= t < g.adj@[u]@.len() && g.adj@[u]@[t] == v;
                assert(seen_mask(g, u, j, n)[v]);
            }
        }
    }
    lemma_mask_count_update_gen(mask, u, false, n as int);
}

/// Internal adjacency pairs of any subset of a clique: every masked node
/// contributes `mask_count - 1`.
proof fn lemma_pairs_clique(g: Graph, mask: Seq<bool>, m: int)
    requires
        g.wf(),
        clique(g),
        mask.len() == g.n(),
        0 <= m <= g.n(),
    ensures
        pairs_to(g, mask, m) == mask_count(mask, m) * (mask_count(mask, g.n() as int) - 1),
    decreases m,
{
    let c = mask_count(mask, g.n() as int);
    if m > 0 {
        lemma_pairs_clique(g, mask, m - 1);
        if mask[m - 1] {
            lemma_row_count_clique(g, mask, m - 1);
            assert((mask_count(mask, m - 1) + 1) * (c - 1)
                == mask_count(mask, m - 1) * (c - 1) + (c - 1)) by (nonlinear_arith);
        }
    } else {
        assert(0 * (c - 1) == 0) by (nonlinear_arith);
    }
}

/// Peeling a clique keeps every node: the reported best subset is the whole
/// node set and its density is exactly `(n - 1) / 2`.
///
/// This holds for any result that satisfies the peeler's contract: the
/// reported subset's exact density must reach the whole graph's density
/// `(n - 1) / 2`, and inside a clique no proper subset does.
pub proof fn lemma_peel_clique(g: Graph, r: SubgraphResult)
    requires
        g.wf(),
        clique(g),
        g.n() >= 2,
        exists|mask: Seq<bool>| #[trigger] reports_subset(g, mask, r),
        r.density.num * (g.n() as int)
            >= (pairs_to(g, full_mask(g.n()), g.n() as int) / 2) * r.density.den,
    ensures
        r.nodes@ == g.payloads@,
        2 * r.density.num == (g.n() - 1) * r.density.den,
        r.density.den == g.n(),
{
    let n = g.n() as int;
    let mask = choose|mask: Seq<bool>| #[trigger] reports_subset(g, mask, r);
    let full = full_mask(g.n());
    assert(forall|i: int| 0 <= i < full.len() ==> full[i] == true);
    lemma_mask_count_all(full, n, true);
    lemma_pairs_clique(g, full, n);
    assert(pairs_to(g, full, n) == n * (n - 1));
    lemma_half_product(n);
    let fh = (n * (n - 1)) / 2;
    assert(n * (n - 1) >= 2) by (nonlinear_arith)
        requires n >= 2;
    let c = mask_count(mask, n);
    lemma_mask_count_le(mask, n);
    if c == 0 {
        // density 0 cannot reach the whole clique's positive density
        assert(r.density.num == 0 && r.density.den == 1);
        assert(fh >= 1);
        assert(false);
    } else {
        lemma_pairs_clique(g, mask, n);
        assert(r.density.num == (c * (c - 1)) / 2);
        assert(r.density.den == c);
        lemma_half_product(c);
        let num = r.density.num as int;
        assert(2 * num == c * (c - 1));
        assert(num * n >= fh * c);
        assert(c * (c - 1) * n >= n * (n - 1) * c) by (nonlinear_arith)
            requires
                num * n >= fh * c,
                2 * num == c * (c - 1),
                2 * fh == n * (n - 1),
        ;
        assert(c >= n) by (nonlinear_arith)
            requires
                n >= 2,
                1 <= c <= n,
                c * (c - 1) * n >= n * (n - 1) * c,
        ;
        assert(c == n);
        lemma_mask_count_full(mask, n);
        lemma_masked_payloads_all(g, mask, n);
        assert(g.payloads@.subrange(0, n) =~= g.payloads@);
        assert(2 * num == n * (n - 1));
        assert(n * (n - 1) == (n - 1) * n) by (nonlinear_arith);
    }
}

/// `k * (k - 1)` is even, and halving then doubling it is exact.
proof fn lemma_half_product(k: int)
    requires
        k >= 0,
    ensures
        k * (k - 1) >= 0,
        2 * ((k * (k - 1)) / 2) == k * (k - 1),
    decreases k,
{
    if k == 0 {
        assert(k * (k - 1) == 0) by (nonlinear_arith)
            requires k == 0;
    } else {
        lemma_half_product(k - 1);
        let x = (k - 1) * (k - 2);
        assert(k * (k - 1) == (k - 1) * (k - 2) + 2 * (k - 1)) by (nonlinear_arith);
        assert(x + 2 * (k - 1) == 2 * (x / 2 + (k - 1)));
        assert((2 * (x / 2 + (k - 1))) / 2 == x / 2 + (k - 1));
    }
}

proof fn lemma_masked_payloads_all(g: Graph, mask: Seq<bool>, m: int)
    requires
        g.wf(),
        mask.len() == g.n(),
        0 <= m <= g.n(),
        forall|i: int| 0 <= i < mask.len() ==> mask[i],
    ensures
        masked_payloads(g, mask, m) == g.payloads@.subrange(0, m),
    decreases m,
{
    if m > 0 {
        lemma_masked_payloads_all(g, mask, m - 1);
        assert(masked_payloads(g, mask, m) =~= g.payloads@.subrange(0, m));
    } else {
        assert(masked_payloads(g, mask, 0) =~= g.payloads@.subrange(0, 0));
    }
}

proof fn lemma_mask_count_all(mask: Seq<bool>, m: int, b: bool)
    requires
        0 <= m <= mask.len(),
        forall|i: int| 0 <= i < mask.len() ==> mask[i] == b,
    ensures
        mask_count(mask, m) == if b { m } else { 0 },
    decreases m,
{
    if m > 0 {
        lemma_mask_count_all(mask, m - 1, b);
    }
}

proof fn lemma_masked_payloads_none(g: Graph, mask: Seq<bool>, m: int)
    requires
        0 <= m <= mask.len(),
        forall|i: int| 0 <= i < mask.len() ==> !mask[i],
    ensures
        masked_payloads(g, mask, m) == Seq::<usize>::empty(),
    decreases m,
{
    if m > 0 {
        lemma_masked_payloads_none(g, mask, m - 1);
    }
}

} // verus!
