use paper_engine::kelly::{compute_kelly, KellyParams};

fn kp(p: i64, a: i64, b: i64, c: i64, g: i64, l: i64, m: i64) -> KellyParams {
    KellyParams {
        model_probability: p,
        alpha: a,
        beta: b,
        contract_price: c,
        fractional_gamma: g,
        lambda: l,
        max_position: m,
    }
}

#[test]
fn test_no_edge_no_bet() {
    let result = compute_kelly(&kp(500_000, 50_000_000, 50_000_000, 500_000, 200_000, 1_000_000, 50_000_000));
    assert!(result.contracts < 1_000_000, "no edge should produce ~0 contracts: {}", result.contracts);
}

#[test]
fn test_strong_edge_bets() {
    let result = compute_kelly(&kp(800_000, 80_000_000, 20_000_000, 500_000, 200_000, 1_000_000, 50_000_000));
    assert!(result.contracts > 0, "strong edge should bet: {} contracts", result.contracts);
    assert!(result.contracts <= 50_000_000, "should not exceed max");
    assert!(result.robust_fraction < result.raw_fraction, "fractional should be less than full");
}

#[test]
fn test_cap_respected() {
    let result = compute_kelly(&kp(999_000, 999_000_000, 1_000_000, 100_000, 500_000, 0, 10_000_000));
    assert!(result.contracts <= 10_000_000, "cap must be respected: {}", result.contracts);
}

#[test]
fn test_model_prob_with_no_history() {
    let result = compute_kelly(&kp(600_000, 1_000_000, 1_000_000, 300_000, 200_000, 1_000_000, 50_000_000));
    assert!(result.contracts > 0, "model edge with no history should bet: {} contracts", result.contracts);
}

#[test]
fn kelly_exact_values_without_history() {
    // alpha = beta = 1: mean 0.5, variance 1/12, std 0.288675
    let result = compute_kelly(&kp(600_000, 1_000_000, 1_000_000, 300_000, 200_000, 1_000_000, 50_000_000));
    assert_eq!(result.p_mean, 500_000);
    assert_eq!(result.p_std, 288_675);
    assert_eq!(result.p_eff, 311_325);
    // raw = (0.311325 - 0.3) / 0.7 = 0.016178...
    assert_eq!(result.raw_fraction, 16_178);
    assert_eq!(result.robust_fraction, 3_235);
    // 0.011325 / 0.7 * 0.2 * 50 contracts = 0.161785 contracts
    assert_eq!(result.contracts, 161_785);
}

#[test]
fn kelly_negative_edge_gives_nothing() {
    let result = compute_kelly(&kp(200_000, 20_000_000, 20_000_000, 600_000, 200_000, 500_000, 50_000_000));
    assert_eq!(result.contracts, 0);
    assert_eq!(result.robust_fraction, 0);
    assert!(result.raw_fraction < 0);
}

#[test]
fn kelly_clamps_counters_and_inputs() {
    // Counters below 0.5 count as 0.5; probabilities clamp to [0.01, 0.99].
    let a = compute_kelly(&kp(1_000_000, 0, 0, 0, 200_000, 0, 50_000_000));
    let b = compute_kelly(&kp(990_000, 500_000, 500_000, 10_000, 200_000, 0, 50_000_000));
    assert_eq!(a.p_mean, b.p_mean);
    assert_eq!(a.p_eff, 990_000);
    assert_eq!(a.contracts, b.contracts);
}

#[test]
fn large_shrinkage_floors_probability() {
    // A million standard deviations of shrinkage leaves p_eff at 0.01.
    let result = compute_kelly(&kp(900_000, 20_000_000, 20_000_000, 500_000, 200_000, 1_000_000_000_000, 50_000_000));
    assert_eq!(result.p_eff, 10_000);
    assert_eq!(result.contracts, 0);
}
