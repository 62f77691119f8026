use paper_engine::calibration::{prob_to_bucket, Calibrator};

#[test]
fn test_bucket_mapping() {
    assert_eq!(prob_to_bucket(0), 0);
    assert_eq!(prob_to_bucket(50_000), 0);
    assert_eq!(prob_to_bucket(150_000), 1);
    assert_eq!(prob_to_bucket(950_000), 9);
    assert_eq!(prob_to_bucket(1_000_000), 9);
}

#[test]
fn test_calibration_passthrough_with_few_samples() {
    let cal = Calibrator::new();
    let p = cal.calibrate(700_000);
    assert!((p - 700_000).abs() < 1, "should pass through with few samples");
}

#[test]
fn test_pav_monotonicity() {
    let mut cal = Calibrator::new();
    for _ in 0..100 {
        cal.record(200_000, false);
        cal.record(800_000, true);
    }
    for i in 0..9 {
        assert!(cal.calibrated[i] <= cal.calibrated[i + 1],
            "PAV should be monotonic: bucket {i}={} > bucket {}={}",
            cal.calibrated[i], i + 1, cal.calibrated[i + 1]);
    }
}

#[test]
fn pav_pools_violating_buckets() {
    let mut cal = Calibrator::new();
    // Bucket 3 always wins, bucket 6 always loses: the fit pools them.
    for _ in 0..10 {
        cal.record(350_000, true);
        cal.record(650_000, false);
    }
    assert_eq!(cal.total, 20);
    for i in 0..9 {
        assert!(cal.calibrated[i] <= cal.calibrated[i + 1]);
    }
    // Buckets 3..=6 form one pool: (10 + 0.45 * 0.1 + 0.55 * 0.1 + 0) / 20.2 = 0.5.
    assert_eq!(cal.calibrated[3], cal.calibrated[6]);
    assert_eq!(cal.calibrated[3], 500_000);
    assert!(cal.calibrated[0] >= 1_000 && cal.calibrated[9] <= 999_000);
}

#[test]
fn calibration_applies_after_fifty() {
    let mut cal = Calibrator::new();
    for _ in 0..60 {
        cal.record(750_000, true);
    }
    // Bucket 7 realized every time; clamped to 0.999.
    assert_eq!(cal.calibrate(750_000), 999_000);
    assert_eq!(cal.calibrate(720_000), 999_000);
    // Empty buckets keep their midpoints unless pooled.
    assert_eq!(cal.calibrate(50_000), 50_000);
}

#[test]
fn calibrator_counts_buckets() {
    let mut cal = Calibrator::new();
    cal.record(150_000, true);
    cal.record(150_000, false);
    assert_eq!(cal.predicted[1], 2);
    assert_eq!(cal.realized[1], 1);
    assert_eq!(cal.total, 2);
}
