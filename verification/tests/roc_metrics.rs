use roc_rs::roc_metrics::{AucRatio, RocError, RocMetrics};

/// Order-preserving encoding of an IEEE single-precision score as a `u64`
/// key: the ordering (and equality) of the keys matches the ordering of
/// the raw scores.
fn key(x: f32) -> u64 {
    let b = x.to_bits();
    let k = if b & 0x8000_0000 != 0 { !b } else { b | 0x8000_0000 };
    k as u64
}

fn keys(scores: &[f32]) -> Vec<u64> {
    scores.iter().map(|&s| key(s)).collect()
}

fn as_f32(r: AucRatio) -> f32 {
    (r.num as f64 / r.den as f64) as f32
}

#[test]
fn test_roc_auc() {
    let scores = keys(&[0.9, 0.8, 0.7, 0.6, 0.5]);
    let targets = vec![1, 1, 0, 1, 0];
    let mut roc_metrics = RocMetrics::new(&scores, &targets);
    let auc = as_f32(roc_metrics.compute_roc_auc().unwrap());
    assert!((auc - 0.8333333730697632).abs() < 1e-6);
}

#[test]
fn test_binary_roc() {
    let scores = keys(&[0.9, 0.8, 0.7, 0.6, 0.5]);
    let targets = vec![1, 1, 0, 1, 0];
    let roc_metrics = RocMetrics::new(&scores, &targets);
    let roc_data = roc_metrics.binary_roc().unwrap();
    assert_eq!(roc_data.tps, vec![0, 1, 2, 2, 3, 3]);
    assert_eq!(roc_data.fps, vec![0, 0, 0, 1, 1, 2]);
}

#[test]
fn test_binary_roc_edge_cases() {
    // All positive
    let scores1 = keys(&[0.9, 0.8, 0.7]);
    let targets1 = vec![1, 1, 1];
    let roc_metrics1 = RocMetrics::new(&scores1, &targets1);
    let roc_data1 = roc_metrics1.binary_roc().unwrap();
    assert_eq!(roc_data1.tps, vec![0, 1, 2, 3]);
    assert_eq!(roc_data1.fps, vec![0, 0, 0, 0]);

    // All negative
    let scores2 = keys(&[0.9, 0.8, 0.7]);
    let targets2 = vec![0, 0, 0];
    let roc_metrics2 = RocMetrics::new(&scores2, &targets2);
    let roc_data2 = roc_metrics2.binary_roc().unwrap();
    assert_eq!(roc_data2.tps, vec![0, 0, 0, 0]);
    assert_eq!(roc_data2.fps, vec![0, 1, 2, 3]);
}

#[test]
fn test_curve_shape() {
    let scores = keys(&[0.95, 0.9, 0.9, 0.4, 0.3, 0.3, 0.1]);
    let targets = vec![1, 0, 1, 1, 0, 0, 1];
    let roc_metrics = RocMetrics::new(&scores, &targets);
    let curve = roc_metrics.binary_roc().unwrap();
    assert_eq!(curve.tps.len(), curve.fps.len());
    assert_eq!(curve.tps[0], 0);
    assert_eq!(curve.fps[0], 0);
    for i in 1..curve.tps.len() {
        assert!(curve.tps[i - 1] <= curve.tps[i]);
        assert!(curve.fps[i - 1] <= curve.fps[i]);
    }
    assert_eq!(*curve.tps.last().unwrap(), 4);
    assert_eq!(*curve.fps.last().unwrap(), 3);
}

#[test]
fn test_negative_labels_are_filtered() {
    let with_sentinel = RocMetrics::new(
        &keys(&[0.9, 0.8, 0.7, 0.6]),
        &vec![1, -1, 0, 1],
    );
    let without = RocMetrics::new(&keys(&[0.9, 0.7, 0.6]), &vec![1, 0, 1]);
    let curve_a = with_sentinel.binary_roc().unwrap();
    let curve_b = without.binary_roc().unwrap();
    assert_eq!(curve_a.tps, curve_b.tps);
    assert_eq!(curve_a.fps, curve_b.fps);
    assert_eq!(*curve_a.tps.last().unwrap(), 2);
    assert_eq!(*curve_a.fps.last().unwrap(), 1);
}

#[test]
fn test_binary_roc_deterministic() {
    let scores = keys(&[0.9, 0.8, 0.7, 0.6, 0.5]);
    let targets = vec![1, 1, 0, 1, 0];
    let roc_metrics = RocMetrics::new(&scores, &targets);
    let first = roc_metrics.binary_roc().unwrap();
    let second = roc_metrics.binary_roc().unwrap();
    assert_eq!(first.tps, second.tps);
    assert_eq!(first.fps, second.fps);
}

#[test]
fn test_perfect_separator_auc_is_one() {
    let scores = keys(&[0.2, 0.9, 0.1, 0.8]);
    let targets = vec![0, 1, 0, 1];
    let mut roc_metrics = RocMetrics::new(&scores, &targets);
    let ratio = roc_metrics.compute_roc_auc().unwrap();
    assert!(ratio.den > 0);
    assert_eq!(ratio.num, ratio.den);
    assert_eq!(as_f32(ratio), 1.0);
}

#[test]
fn test_inverted_separator_auc_is_zero() {
    let scores = keys(&[0.2, 0.9, 0.1, 0.8]);
    let targets = vec![1, 0, 1, 0];
    let mut roc_metrics = RocMetrics::new(&scores, &targets);
    let ratio = roc_metrics.compute_roc_auc().unwrap();
    assert!(ratio.den > 0);
    assert_eq!(ratio.num, 0);
    assert_eq!(as_f32(ratio), 0.0);
}

#[test]
fn test_auc_on_unsorted_input() {
    // compute_roc_auc must sort before deriving the curve, and the
    // reordering persists for the next binary_roc call.
    let scores = keys(&[0.1, 0.4, 0.35, 0.8]);
    let targets = vec![0, 0, 1, 1];
    let mut roc_metrics = RocMetrics::new(&scores, &targets);
    let ratio = roc_metrics.compute_roc_auc().unwrap();
    assert_eq!(ratio.num, 6);
    assert_eq!(ratio.den, 8);
    let sorted_curve = roc_metrics.binary_roc().unwrap();
    assert_eq!(sorted_curve.tps, vec![0, 1, 1, 2, 2]);
    assert_eq!(sorted_curve.fps, vec![0, 0, 1, 1, 2]);
}

#[test]
fn test_auc_round_trip_matches_curve_integral() {
    let scores = keys(&[0.9, 0.8, 0.7, 0.6, 0.5]);
    let targets = vec![1, 1, 0, 1, 0];
    let mut roc_metrics = RocMetrics::new(&scores, &targets);
    let ratio = roc_metrics.compute_roc_auc().unwrap();
    let auc = ratio.num as f64 / ratio.den as f64;

    // Re-derive the curve on the now-sorted data and integrate it by hand.
    let curve = roc_metrics.binary_roc().unwrap();
    let p = *curve.tps.last().unwrap() as f64;
    let n = *curve.fps.last().unwrap() as f64;
    let tpr: Vec<f64> = curve.tps.iter().map(|&v| v as f64 / p).collect();
    let fpr: Vec<f64> = curve.fps.iter().map(|&v| v as f64 / n).collect();
    let mut area = 0.0f64;
    for i in 1..tpr.len() {
        if fpr[i - 1] == 1.0 {
            break;
        }
        if fpr[i] != fpr[i - 1] {
            area += 0.5 * (fpr[i] - fpr[i - 1]) * (tpr[i - 1] + tpr[i]);
        }
    }
    assert!((auc - area).abs() < 1e-12);
}

#[test]
fn test_degenerate_class_auc_is_nan() {
    // No negative samples: normalization divides by zero, read as NaN.
    let mut all_pos = RocMetrics::new(&keys(&[0.9, 0.8, 0.7]), &vec![1, 1, 1]);
    let ratio = all_pos.compute_roc_auc().unwrap();
    assert_eq!(ratio.den, 0);
    assert!((ratio.num as f64 / ratio.den as f64).is_nan());

    // No positive samples: the symmetric case.
    let mut all_neg = RocMetrics::new(&keys(&[0.9, 0.8, 0.7]), &vec![0, 0, 0]);
    let ratio2 = all_neg.compute_roc_auc().unwrap();
    assert_eq!(ratio2.den, 0);
    assert!((ratio2.num as f64 / ratio2.den as f64).is_nan());
}

#[test]
fn test_empty_collection_is_reported() {
    // Every label is the sentinel: nothing is retained, and the curve
    // queries report the empty collection instead of crashing.
    let mut roc_metrics = RocMetrics::new(&keys(&[0.9, 0.8]), &vec![-1, -1]);
    assert_eq!(roc_metrics.binary_roc().unwrap_err(), RocError::EmptyCollection);
    assert_eq!(roc_metrics.compute_roc_auc().unwrap_err(), RocError::EmptyCollection);
}

#[test]
fn test_tied_scores_group_into_one_boundary() {
    let scores = keys(&[0.9, 0.9, 0.9, 0.5, 0.5]);
    let targets = vec![1, 0, 1, 0, 1];
    let roc_metrics = RocMetrics::new(&scores, &targets);
    let curve = roc_metrics.binary_roc().unwrap();
    assert_eq!(curve.tps, vec![0, 2, 3]);
    assert_eq!(curve.fps, vec![0, 1, 2]);
}

#[test]
fn test_trapz_exact_area() {
    // The unit square's upper triangle: y == x sampled at 0, 1/2, 1.
    let y = vec![0, 1, 2];
    let x = vec![0, 1, 2];
    let ratio = roc_rs::roc_metrics::trapz(&y, &x, 2, 2);
    assert_eq!(ratio.den, 8);
    assert_eq!(ratio.num, 4);
    assert!((as_f32(ratio) - 0.5).abs() < 1e-7);
}
