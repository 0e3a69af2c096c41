//! Power-law exponent estimation over the degree histogram.
//!
//! The estimator is a weighted least-squares fit of `log(count)` against
//! `log(degree)`, each point weighted by its count, with the exponent taken
//! as the negated slope; it returns zero when fewer than two distinct
//! degrees remain or the weighted variance vanishes. The logarithms enter as
//! fixed-point integer samples, so the regression itself is exact rational
//! arithmetic.

use vstd::prelude::*;

verus! {

/// Upper bound on the number of fit points.
pub const MAX_FIT_POINTS: usize = 0x10000;

/// Upper bound on the magnitude of a fixed-point logarithm sample.
pub const MAX_FIT_COORD: i64 = 0x40_0000;

/// Upper bound on a point's weight.
pub const MAX_FIT_WEIGHT: u64 = 0x100_0000;

/// One sample of the log-log fit: `x` and `y` are fixed-point logarithms of
/// a degree and of its count, `w` the weight (the count itself).
#[derive(Clone, Copy)]
pub struct LogPoint {
    /// Fixed-point logarithm of the degree.
    pub x: i64,
    /// Fixed-point logarithm of the count.
    pub y: i64,
    /// Weight of the sample.
    pub w: u64,
}

/// An exact rational that may be negative.
pub struct SignedRatio {
    /// Numerator.
    pub num: i128,
    /// Denominator; nonzero for a meaningful value.
    pub den: i128,
}

/// Sum of the weights of the first `m` points.
pub open spec fn sum_w(ps: Seq<LogPoint>, m: int) -> int
    decreases m,
{
    if m <= 0 {
        0
    } else {
        sum_w(ps, m - 1) + ps[m - 1].w
    }
}

/// Weighted sum of `x` over the first `m` points.
pub open spec fn sum_wx(ps: Seq<LogPoint>, m: int) -> int
    decreases m,
{
    if m <= 0 {
        0
    } else {
        sum_wx(ps, m - 1) + ps[m - 1].w * ps[m - 1].x
    }
}

/// Weighted sum of `y` over the first `m` points.
pub open spec fn sum_wy(ps: Seq<LogPoint>, m: int) -> int
    decreases m,
{
    if m <= 0 {
        0
    } else {
        sum_wy(ps, m - 1) + ps[m - 1].w * ps[m - 1].y
    }
}

/// Weighted sum of `x * y` over the first `m` points.
pub open spec fn sum_wxy(ps: Seq<LogPoint>, m: int) -> int
    decreases m,
{
    if m <= 0 {
        0
    } else {
        sum_wxy(ps, m - 1) + ps[m - 1].w * ps[m - 1].x * ps[m - 1].y
    }
}

/// Weighted sum of `x * x` over the first `m` points.
pub open spec fn sum_wxx(ps: Seq<LogPoint>, m: int) -> int
    decreases m,
{
    if m <= 0 {
        0
    } else {
        sum_wxx(ps, m - 1) + ps[m - 1].w * ps[m - 1].x * ps[m - 1].x
    }
}

/// Numerator of the weighted least-squares slope (scaled by `sum_w`
/// squared): the weighted covariance of `x` and `y`.
pub open spec fn fit_num(ps: Seq<LogPoint>) -> int {
    sum_w(ps, ps.len() as int) * sum_wxy(ps, ps.len() as int) - sum_wx(ps, ps.len() as int)
        * sum_wy(ps, ps.len() as int)
}

/// Denominator of the weighted least-squares slope (scaled the same way):
/// the weighted variance of `x`.
pub open spec fn fit_den(ps: Seq<LogPoint>) -> int {
    sum_w(ps, ps.len() as int) * sum_wxx(ps, ps.len() as int) - sum_wx(ps, ps.len() as int)
        * sum_wx(ps, ps.len() as int)
}

/// Every point is within the documented coordinate and weight bounds.
pub open spec fn fit_points_ok(ps: Seq<LogPoint>) -> bool {
    &&& ps.len() <= MAX_FIT_POINTS
    &&& forall|i: int|
        0 <= i < ps.len() ==> {
            &&& -MAX_FIT_COORD <= (#[trigger] ps[i]).x <= MAX_FIT_COORD
            &&& -MAX_FIT_COORD <= ps[i].y <= MAX_FIT_COORD
            &&& 1 <= ps[i].w <= MAX_FIT_WEIGHT
        }
}

proof fn lemma_mul_abs_le(a: int, amax: int, b: int, bmax: int)
    requires
        0 <= amax,
        0 <= bmax,
        -amax <= a <= amax,
        -bmax <= b <= bmax,
    ensures
        -(amax * bmax) <= a * b <= amax * bmax,
{
    assert(-(amax * bmax) <= a * b <= amax * bmax) by (nonlinear_arith)
        requires 0 <= amax, 0 <= bmax, -amax <= a <= amax, -bmax <= b <= bmax;
}

/// Power-law exponent over weighted log-log samples: the negated slope of
/// the weighted least-squares line, as the exact rational
/// `-(cov_xy) / var_x` (both scaled by the squared weight total), or `0 / 1`
/// when the scaled variance is zero (no points, a single point, or all `x`
/// equal).
pub fn power_law_exponent(points: &Vec<LogPoint>) -> (r: SignedRatio)
    requires
        fit_points_ok(points@),
    ensures
        fit_den(points@) == 0 ==> r.num == 0 && r.den == 1,
        fit_den(points@) != 0 ==> r.num == -fit_num(points@) && r.den == fit_den(points@),
{
    let m = points.len();
    let mut sw: i128 = 0;
    let mut swx: i128 = 0;
    let mut swy: i128 = 0;
    let mut swxy: i128 = 0;
    let mut swxx: i128 = 0;
    let mut i: usize = 0;
    while i < m
        invariant
            fit_points_ok(points@),
            m == points@.len(),
            i <= m,
            sw == sum_w(points@, i as int),
            swx == sum_wx(points@, i as int),
            swy == sum_wy(points@, i as int),
            swxy == sum_wxy(points@, i as int),
            swxx == sum_wxx(points@, i as int),
            0 <= sw <= (i as int) * (MAX_FIT_WEIGHT as int),
            -(i as int) * 0x4000_0000_0000 <= swx <= (i as int) * 0x4000_0000_0000,
            -(i as int) * 0x4000_0000_0000 <= swy <= (i as int) * 0x4000_0000_0000,
            -(i as int) * 0x10_0000_0000_0000_0000 <= swxy
                <= (i as int) * 0x10_0000_0000_0000_0000,
            -(i as int) * 0x10_0000_0000_0000_0000 <= swxx
                <= (i as int) * 0x10_0000_0000_0000_0000,
        decreases m - i,
    {
        let p = points[i];
        proof {
            // |w * x|, |w * y| <= 2^24 * 2^22 = 2^46; one more coordinate
            // factor keeps products within 2^68
            lemma_mul_abs_le(p.w as int, MAX_FIT_WEIGHT as int, p.x as int, MAX_FIT_COORD as int);
            lemma_mul_abs_le(p.w as int, MAX_FIT_WEIGHT as int, p.y as int, MAX_FIT_COORD as int);
            lemma_mul_abs_le(
                p.w as int * p.x as int,
                0x4000_0000_0000,
                p.y as int,
                MAX_FIT_COORD as int,
            );
            lemma_mul_abs_le(
                p.w as int * p.x as int,
                0x4000_0000_0000,
                p.x as int,
                MAX_FIT_COORD as int,
            );
            assert((i as int + 1) * (MAX_FIT_WEIGHT as int)
                == (i as int) * (MAX_FIT_WEIGHT as int) + (MAX_FIT_WEIGHT as int))
                by (nonlinear_arith);
            assert((i as int + 1) * 0x4000_0000_0000
                == (i as int) * 0x4000_0000_0000 + 0x4000_0000_0000) by (nonlinear_arith);
            assert((i as int + 1) * 0x10_0000_0000_0000_0000
                == (i as int) * 0x10_0000_0000_0000_0000 + 0x10_0000_0000_0000_0000)
                by (nonlinear_arith);
            assert((i as int + 1) * (MAX_FIT_WEIGHT as int)
                <= (MAX_FIT_POINTS as int) * (MAX_FIT_WEIGHT as int)) by (nonlinear_arith)
                requires 0 <= i as int + 1 <= MAX_FIT_POINTS as int;
            assert((i as int + 1) * 0x4000_0000_0000
                <= (MAX_FIT_POINTS as int) * 0x4000_0000_0000) by (nonlinear_arith)
                requires 0 <= i as int + 1 <= MAX_FIT_POINTS as int;
            assert((i as int + 1) * 0x10_0000_0000_0000_0000
                <= (MAX_FIT_POINTS as int) * 0x10_0000_0000_0000_0000) by (nonlinear_arith)
                requires 0 <= i as int + 1 <= MAX_FIT_POINTS as int;
        }
        let wx = (p.w as i128) * (p.x as i128);
        let wy = (p.w as i128) * (p.y as i128);
        sw = sw + p.w as i128;
        swx = swx + wx;
        swy = swy + wy;
        swxy = swxy + wx * (p.y as i128);
        swxx = swxx + wx * (p.x as i128);
        i = i + 1;
    }
    proof {
        assert((m as int) * (MAX_FIT_WEIGHT as int)
            <= (MAX_FIT_POINTS as int) * (MAX_FIT_WEIGHT as int)) by (nonlinear_arith)
            requires 0 <= m as int <= MAX_FIT_POINTS as int;
        assert((m as int) * 0x4000_0000_0000
            <= (MAX_FIT_POINTS as int) * 0x4000_0000_0000) by (nonlinear_arith)
            requires 0 <= m as int <= MAX_FIT_POINTS as int;
        assert((m as int) * 0x10_0000_0000_0000_0000
            <= (MAX_FIT_POINTS as int) * 0x10_0000_0000_0000_0000) by (nonlinear_arith)
            requires 0 <= m as int <= MAX_FIT_POINTS as int;
        // |sw| <= 2^40, |swx|, |swy| <= 2^62, |swxy|, |swxx| <= 2^84
        lemma_mul_abs_le(
            sw as int,
            0x100_0000_0000,
            swxy as int,
            0x10_0000_0000_0000_0000_0000,
        );
        lemma_mul_abs_le(
            sw as int,
            0x100_0000_0000,
            swxx as int,
            0x10_0000_0000_0000_0000_0000,
        );
        lemma_mul_abs_le(
            swx as int,
            0x4000_0000_0000_0000,
            swy as int,
            0x4000_0000_0000_0000,
        );
        lemma_mul_abs_le(
            swx as int,
            0x4000_0000_0000_0000,
            swx as int,
            0x4000_0000_0000_0000,
        );
    }
    let den = sw * swxx - swx * swx;
    if den == 0 {
        SignedRatio { num: 0, den: 1 }
    } else {
        let num = sw * swxy - swx * swy;
        SignedRatio { num: -num, den }
    }
}

/// The `(degree, count)` pairs of the histogram that enter the fit: degrees
/// at least `k_min` whose count is positive, in increasing degree order.
pub open spec fn fit_pairs(hist: Seq<usize>, k_min: int, m: int) -> Seq<(usize, usize)>
    decreases m,
{
    if m <= 0 {
        Seq::empty()
    } else {
        let p = fit_pairs(hist, k_min, m - 1);
        if m - 1 >= k_min && hist[m - 1] > 0 {
            p.push(((m - 1) as usize, hist[m - 1]))
        } else {
            p
        }
    }
}

/// Select from a degree histogram the points the power-law fit uses: every
/// degree `k >= k_min` with a positive count, paired with its count, in
/// increasing degree order.
pub fn power_law_points(hist: &Vec<usize>, k_min: usize) -> (r: Vec<(usize, usize)>)
    ensures
        r@ == fit_pairs(hist@, k_min as int, hist@.len() as int),
{
    let mut r: Vec<(usize, usize)> = Vec::new();
    let mut k: usize = 0;
    while k < hist.len()
        invariant
            k <= hist@.len(),
            r@ == fit_pairs(hist@, k_min as int, k as int),
        decreases hist@.len() - k,
    {
        let c = hist[k];
        if k >= k_min && c > 0 {
            r.push((k, c));
        }
        k = k + 1;
    }
    r
}

} // verus!
