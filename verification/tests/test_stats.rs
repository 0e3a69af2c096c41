//! Tests for the power-law exponent estimator.

use graph_metrics::stats::{power_law_exponent, power_law_points, LogPoint};

/// Fixed-point scale for logarithm samples handed to the estimator.
const LOG_SCALE: f64 = 65536.0;

fn fit_alpha(counts: &[usize], k_min: usize) -> f64 {
    let hist: Vec<usize> = counts.to_vec();
    let pts = power_law_points(&hist, k_min);
    let mut samples: Vec<LogPoint> = Vec::new();
    for (k, cnt) in pts {
        samples.push(LogPoint {
            x: ((k as f64).ln() * LOG_SCALE).round() as i64,
            y: ((cnt as f64).ln() * LOG_SCALE).round() as i64,
            w: cnt as u64,
        });
    }
    let alpha = power_law_exponent(&samples);
    alpha.num as f64 / alpha.den as f64
}

#[test]
/// Synthetic degree counts proportional to k^(-3), k=1..10 -> expect estimated
/// exponent close to 3 within 1%.
fn power_law_exponent_k_cubed() {
    let alpha_true = 3.0f64;
    let k_min = 1;
    // hist[k] = round(1000 * k^(-3)) for k = 1..10
    let mut hist = vec![0usize; 11];
    for k in 1..=10usize {
        let weight = (k as f64).powf(-alpha_true);
        hist[k] = (weight * 1000.0).round() as usize;
    }
    let alpha_hat = fit_alpha(&hist, k_min);
    let rel_err = (alpha_hat - alpha_true).abs() / alpha_true;
    assert!(
        rel_err < 0.01,
        "estimated = {:.3}, true = {:.3}, rel_err = {:.3}",
        alpha_hat,
        alpha_true,
        rel_err
    );
}

#[test]
/// Degrees below the cutoff and empty buckets are excluded from the fit.
fn power_law_points_filtering() {
    let hist = vec![5usize, 0, 3, 0, 2];
    let pts = power_law_points(&hist, 2);
    assert_eq!(pts, vec![(2usize, 3usize), (4, 2)]);
    let all = power_law_points(&hist, 0);
    assert_eq!(all, vec![(0usize, 5usize), (2, 3), (4, 2)]);
}

#[test]
/// Insufficient data yields the zero sentinel, not a fault.
fn power_law_exponent_degenerate() {
    // no points
    let empty: Vec<LogPoint> = Vec::new();
    let a = power_law_exponent(&empty);
    assert_eq!(a.num, 0);
    assert_eq!(a.den, 1);
    // a single point has zero weighted variance
    let single = vec![LogPoint { x: 100, y: 200, w: 7 }];
    let a = power_law_exponent(&single);
    assert_eq!(a.num, 0);
    assert_eq!(a.den, 1);
    // identical x-coordinates have zero weighted variance too
    let flat = vec![
        LogPoint { x: 100, y: 200, w: 7 },
        LogPoint { x: 100, y: 300, w: 2 },
    ];
    let a = power_law_exponent(&flat);
    assert_eq!(a.num, 0);
    assert_eq!(a.den, 1);
}

#[test]
/// Points exactly on a log-log line of slope -2 give alpha exactly 2.
fn power_law_exponent_exact_line() {
    // y = c - 2 x at scale 1: use small integer samples
    let pts = vec![
        LogPoint { x: 0, y: 1000, w: 4 },
        LogPoint { x: 100, y: 800, w: 2 },
        LogPoint { x: 300, y: 400, w: 1 },
    ];
    let a = power_law_exponent(&pts);
    assert!(a.den != 0);
    // alpha = -slope = 2 exactly: num/den == 2
    assert_eq!(a.num, 2 * a.den);
}
