use paper_engine::calibration::Calibrator;
use paper_engine::engine::{run_tick, ActiveMarket};
use paper_engine::simulator::{run_model_tick, EngineConfig, ExitReason, EngineAction, TickContext};
use paper_engine::state::{ModelState, OpenPosition, Side, VolatilityState};

const DOLLAR: i128 = 1_000_000_000_000;
const USD: i64 = 1_000_000;

fn config() -> EngineConfig {
    EngineConfig {
        fractional_kelly: 200_000,
        max_position: 50_000_000,
        ev_threshold: 20_000,
        max_daily_drawdown: 100 * DOLLAR,
    }
}

fn leg(id: &str, entry_price: i64, leg: u32) -> OpenPosition {
    OpenPosition {
        trade_id: id.to_string(),
        market_ticker: "KXBTC-TEST".to_string(),
        side: Side::Yes,
        entry_price,
        contracts: 1_000_000,
        model_probability: 600_000,
        entry_tick: 0,
        entry_btc_price: 100_000 * USD,
        peak_unrealized: 0,
        leg,
    }
}

#[test]
fn calibrated_values_stay_in_range() {
    let mut cal = Calibrator::new();
    for k in 0..200 {
        cal.record((k * 4_999) % 1_000_001, k % 3 == 0);
        for i in 0..10 {
            assert!(cal.calibrated[i] >= 1_000 && cal.calibrated[i] <= 999_000);
        }
        for p in [1_000, 250_000, 999_000] {
            let c = cal.calibrate(p);
            assert!((1_000..=999_000).contains(&c));
        }
    }
}

#[test]
fn calibration_error_over_buckets_with_data() {
    let mut cal = Calibrator::new();
    assert_eq!(cal.calibration_error(), 0);
    // Bucket 2 (midpoint 0.25) realized 1 of 2; bucket 8 (0.85) 1 of 1.
    cal.record(200_000, true);
    cal.record(200_000, false);
    cal.record(800_000, true);
    // (0.25 + 0.15) / 2
    assert_eq!(cal.calibration_error(), 200_000);
}

#[test]
fn legs_stay_increasing_when_a_lower_leg_exits() {
    // Leg 0 bought at 0.40 reaches take-profit at a bid of 0.75; leg 1
    // bought at 0.60 does not: leg 1 remains alone.
    let mut state = ModelState::new("Black-Scholes".to_string());
    state.push_position(leg("a", 400_000, 0));
    state.push_position(leg("b", 600_000, 1));
    let cal = Calibrator::new();
    let ctx = TickContext {
        spot: 100_000 * USD,
        strike: 99_000 * USD,
        yes_bid: 750_000,
        yes_ask: 770_000,
        ttl_seconds: 900,
        tick_counter: 50,
    };
    let mut actions = Vec::new();
    run_model_tick(&mut state, &cal, &ctx, 500_000, &VolatilityState::new(), &config(), &"KXBTC-TEST".to_string(), &mut actions);
    let reasons: Vec<ExitReason> = actions
        .iter()
        .filter_map(|a| match a {
            EngineAction::ExitTrade { reason, .. } => Some(*reason),
            _ => None,
        })
        .collect();
    assert_eq!(reasons, vec![ExitReason::TakeProfit]);
    assert_eq!(state.position_count(), 1);
    assert_eq!(state.position(0).leg, 1);
    // Unrealized P/L is the mark of the survivor: (0.75 - 0.60) * 1.
    assert_eq!(state.unrealized_pnl, 150_000_000_000);
}

#[test]
fn unrealized_is_sum_over_positions() {
    let mut state = ModelState::new("Black-Scholes".to_string());
    state.push_position(leg("a", 400_000, 0));
    state.push_position(leg("b", 450_000, 1));
    let cal = Calibrator::new();
    let ctx = TickContext {
        spot: 100_000 * USD,
        strike: 99_000 * USD,
        yes_bid: 500_000,
        yes_ask: 520_000,
        ttl_seconds: 900,
        tick_counter: 1,
    };
    let mut actions = Vec::new();
    run_model_tick(&mut state, &cal, &ctx, 500_000, &VolatilityState::new(), &config(), &"KXBTC-TEST".to_string(), &mut actions);
    assert_eq!(state.position_count(), 2);
    // (0.50 - 0.40) + (0.50 - 0.45)
    assert_eq!(state.unrealized_pnl, 150_000_000_000);
}

#[test]
fn tick_without_market_resets_unrealized() {
    let mut models = vec![
        ModelState::new("Black-Scholes".to_string()),
        ModelState::new("Jump-Diffusion".to_string()),
        ModelState::new("Student-t".to_string()),
    ];
    for m in models.iter_mut() {
        m.unrealized_pnl = 5 * DOLLAR;
    }
    let cals = vec![Calibrator::new(), Calibrator::new(), Calibrator::new()];
    let mut actions = Vec::new();
    let none: Option<ActiveMarket> = None;
    run_tick(&mut models, &cals, &VolatilityState::new(), &none, 100_000 * USD, &config(), 900, 1, &vec![500_000; 3], &mut actions)
        .unwrap();
    assert!(models.iter().all(|m| m.unrealized_pnl == 0));
    assert!(actions.is_empty());
}

#[test]
fn tick_on_untradeable_market_changes_nothing() {
    let mut models = vec![
        ModelState::new("Black-Scholes".to_string()),
        ModelState::new("Jump-Diffusion".to_string()),
        ModelState::new("Student-t".to_string()),
    ];
    let cals = vec![Calibrator::new(), Calibrator::new(), Calibrator::new()];
    let market = Some(ActiveMarket {
        ticker: "T".to_string(),
        event_ticker: String::new(),
        series_ticker: String::new(),
        strike: None,
        yes_bid: Some(400_000),
        yes_ask: Some(420_000),
        no_bid: None,
        no_ask: None,
        last_price: None,
        close_time: String::new(),
        expiration_time: String::new(),
        status: "open".to_string(),
        result: None,
    });
    let mut actions = Vec::new();
    run_tick(&mut models, &cals, &VolatilityState::new(), &market, 100_000 * USD, &config(), 900, 1, &vec![900_000; 3], &mut actions)
        .unwrap();
    assert!(actions.is_empty());
    assert!(models.iter().all(|m| m.position_count() == 0));
}

#[test]
fn brier_score_is_mean_squared_error() {
    let mut m = ModelState::new("m".to_string());
    m.compute_brier();
    assert_eq!(m.brier_score, 0);
    // (0.6 - 1)^2 and (0.2 - 0)^2: mean 0.1
    m.brier_sum = 160_000_000_000 + 40_000_000_000;
    m.brier_count = 2;
    m.compute_brier();
    assert_eq!(m.brier_score, 100_000);
}
