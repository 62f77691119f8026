use paper_engine::limits::{check_risk_limits, BlockReason, RiskCheck};
use paper_engine::state::{ModelState, VolRegime, VolatilityState};

const DOLLAR: i128 = 1_000_000_000_000;

#[test]
fn test_normal_conditions_allowed() {
    let model = ModelState::new("test".to_string());
    let vol = VolatilityState::new();
    let check = check_risk_limits(&model, &vol, 10_000_000, 500_000, 100 * DOLLAR, 50_000_000);
    assert!(check.is_allowed());
}

#[test]
fn test_drawdown_blocks() {
    let mut model = ModelState::new("test".to_string());
    model.daily_pnl = -150 * DOLLAR;
    let vol = VolatilityState::new();
    let check = check_risk_limits(&model, &vol, 10_000_000, 500_000, 100 * DOLLAR, 50_000_000);
    assert!(!check.is_allowed());
    assert_eq!(check, RiskCheck::Blocked(BlockReason::DailyDrawdown));
}

#[test]
fn risk_blocks_exposure_over_cap() {
    let mut model = ModelState::new("m".to_string());
    model.current_exposure = 46 * DOLLAR;
    let vol = VolatilityState::new();
    // 46 + 10 * 0.5 = 51 > 50
    let check = check_risk_limits(&model, &vol, 10_000_000, 500_000, 100 * DOLLAR, 50_000_000);
    assert_eq!(check, RiskCheck::Blocked(BlockReason::MaxPosition));
    // 45 + 5 = 50 is still admitted
    model.current_exposure = 45 * DOLLAR;
    let check = check_risk_limits(&model, &vol, 10_000_000, 500_000, 100 * DOLLAR, 50_000_000);
    assert_eq!(check, RiskCheck::Allowed);
}

#[test]
fn risk_blocks_vol_spike_with_drawdown() {
    let mut model = ModelState::new("m".to_string());
    model.max_drawdown = 51 * DOLLAR;
    let mut vol = VolatilityState::new();
    vol.regime = VolRegime::High;
    let check = check_risk_limits(&model, &vol, 1_000_000, 500_000, 100 * DOLLAR, 50_000_000);
    assert_eq!(check, RiskCheck::Blocked(BlockReason::VolSpike));
    vol.regime = VolRegime::Low;
    let check = check_risk_limits(&model, &vol, 1_000_000, 500_000, 100 * DOLLAR, 50_000_000);
    assert_eq!(check, RiskCheck::Allowed);
}

#[test]
fn risk_blocks_tiny_orders_and_bad_prices() {
    let model = ModelState::new("m".to_string());
    let vol = VolatilityState::new();
    let check = check_risk_limits(&model, &vol, 9_999, 500_000, 100 * DOLLAR, 50_000_000);
    assert_eq!(check, RiskCheck::Blocked(BlockReason::TooSmall));
    let check = check_risk_limits(&model, &vol, 1_000_000, 1_000_000, 100 * DOLLAR, 50_000_000);
    assert_eq!(check, RiskCheck::Blocked(BlockReason::InvalidPrice));
    let check = check_risk_limits(&model, &vol, 1_000_000, 0, 100 * DOLLAR, 50_000_000);
    assert_eq!(check, RiskCheck::Blocked(BlockReason::InvalidPrice));
    assert_eq!(BlockReason::InvalidPrice.message(), "invalid contract price");
}
