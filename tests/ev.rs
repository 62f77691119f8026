use paper_engine::ev::{compute_ev, EvParams};

fn params(p: i64, c: i64, f: i64, s: i64, q: i64) -> EvParams {
    EvParams { probability: p, contract_price: c, fee_rate: f, slippage: s, fill_probability: q }
}

#[test]
fn test_fair_price_zero_ev() {
    let result = compute_ev(&params(500_000, 500_000, 0, 0, 1_000_000), 10_000);
    assert!(!result.is_signal, "fair price should not signal");
    assert!(result.ev.abs() < 10_000, "fair price EV should be ~0: {}", result.ev);
}

#[test]
fn test_edge_signals() {
    let result = compute_ev(&params(700_000, 500_000, 10_000, 5_000, 950_000), 20_000);
    assert!(result.is_signal, "should signal when model has edge");
    assert!(result.buy_yes, "should buy YES when prob > price");
    assert!(result.ev > 0, "EV should be positive");
}

#[test]
fn test_no_side_edge() {
    let result = compute_ev(&params(300_000, 500_000, 10_000, 5_000, 950_000), 20_000);
    if result.is_signal {
        assert!(!result.buy_yes, "should buy NO when prob < price");
    }
}

#[test]
fn ev_yes_exact_value() {
    // EV_yes = 0.95 * (0.7 * 0.5 * 0.99 - 0.3 * 0.5 - 0.005) = 0.181...
    // 0.95 * (0.3465 - 0.15 - 0.005) = 0.95 * 0.1915 = 0.181925
    let result = compute_ev(&params(700_000, 500_000, 10_000, 5_000, 950_000), 20_000);
    assert_eq!(result.ev, 181_925);
    // EV_no = 0.95 * (0.3 * 0.5 * 0.99 - 0.7 * 0.5 - 0.005) = 0.95 * (-0.2065) = -0.196175
    assert_eq!(result.ev_opposite, -196_175);
    assert_eq!(result.effective_prob, 700_000);
}

#[test]
fn ev_no_side_exact_value() {
    let result = compute_ev(&params(300_000, 500_000, 10_000, 5_000, 950_000), 20_000);
    assert!(result.is_signal);
    assert!(!result.buy_yes);
    assert_eq!(result.ev, 181_925);
    assert_eq!(result.effective_prob, 700_000);
}

#[test]
fn ev_threshold_is_strict() {
    // EV exactly at the threshold does not signal.
    let result = compute_ev(&params(700_000, 500_000, 10_000, 5_000, 950_000), 181_925);
    assert!(!result.is_signal);
    let result = compute_ev(&params(700_000, 500_000, 10_000, 5_000, 950_000), 181_924);
    assert!(result.is_signal);
}

#[test]
fn large_slippage_is_accepted() {
    // $10 of slippage: EV_yes = 0.95 * (0.3465 - 0.15 - 10) = -9.313325
    let result = compute_ev(&params(700_000, 500_000, 10_000, 10_000_000, 950_000), 20_000);
    assert!(!result.is_signal);
    assert_eq!(result.ev, -9_313_325);
}
