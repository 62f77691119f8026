use paper_engine::state::VolRegime;
use paper_engine::volatility::VolatilityEngine;

#[test]
fn ewma_step_from_default_sigma() {
    let mut v = VolatilityEngine::new();
    v.update(0);
    // sqrt(0.94 * 0.01^2) = 0.009695...
    assert_eq!(v.state.ewma_vol, 969_535);
    assert_eq!(v.state.sample_count, 1);
    assert!(!v.is_ready());
    assert_eq!(v.state.jump_intensity, 500_000);
}

#[test]
fn jump_statistics_after_twenty_samples() {
    let mut v = VolatilityEngine::new();
    for i in 0..19 {
        v.update(if i % 2 == 0 { 1_000 } else { -1_000 });
    }
    v.update(5_000_000);
    assert!(v.is_ready());
    assert_eq!(v.state.sample_count, 20);
    assert_eq!(v.state.ewma_vol, 1_337_946);
    // One jump in twenty samples: 15,778,800 / 20 per year.
    assert_eq!(v.state.jump_intensity, 788_940_000_000);
    assert_eq!(v.state.jump_mean, 5_000_000);
    // A single jump takes sigma squared as its variance.
    assert_eq!(v.state.jump_var, 1_790_099_498_916);
}

#[test]
fn regime_and_degrees_of_freedom() {
    let mut v = VolatilityEngine::new();
    for i in 0..300 {
        v.update(if i % 50 != 0 { [1_000, -1_000, 2_000, -2_000][i % 4] } else { 300_000 });
    }
    assert_eq!(v.window.len(), 300);
    assert_eq!(v.state.regime, VolRegime::Low);
    assert_eq!(v.state.student_t_nu, 4_133_667);
    assert_eq!(v.state.jump_intensity, 315_576_000_000);
    assert_eq!(v.state.jump_mean, 300_000);
    assert_eq!(v.state.jump_var, 10_000);
    for i in 0..30 {
        v.update(if i % 2 == 1 { 100_000 } else { -100_000 });
    }
    assert_eq!(v.window.len(), 300);
    assert_eq!(v.state.regime, VolRegime::High);
    assert_eq!(v.state.student_t_nu, 4_312_085);
    assert_eq!(v.state.ewma_vol, 92_082);
}

#[test]
fn thin_tails_give_thirty_degrees() {
    let mut v = VolatilityEngine::new();
    for i in 0..40 {
        v.update(if i % 2 == 1 { 1_000 } else { -1_000 });
    }
    assert_eq!(v.state.student_t_nu, 30_000_000);
    assert_eq!(v.state.jump_intensity, 0);
    assert_eq!(v.state.jump_var, 1_000_000_000_000);
}

#[test]
fn annualized_sigma_of_default() {
    let v = VolatilityEngine::new();
    // 0.01 * sqrt(15,778,800) = 39.7225...
    assert_eq!(v.annualized_vol(), 39_722_537);
}

#[test]
fn returns_beyond_one_are_ignored() {
    let mut v = VolatilityEngine::new();
    v.update(100_000_001);
    v.update(-200_000_000);
    assert_eq!(v.state.sample_count, 0);
    assert!(v.window.is_empty());
    v.update(100_000_000);
    assert_eq!(v.state.sample_count, 1);
}
