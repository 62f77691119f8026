use paper_engine::calibration::Calibrator;
use paper_engine::settlement::{settle_one, PendingTrade};
use paper_engine::simulator::{
    exit_decision, run_model_tick, EngineAction, EngineConfig, ExitDecision, ExitReason, TickContext,
};
use paper_engine::state::{ModelState, OpenPosition, Side, VolatilityState};

const DOLLAR: i128 = 1_000_000_000_000;
const USD: i64 = 1_000_000;

fn position(side: Side, entry_price: i64, contracts: i64, entry_tick: u64, entry_btc: i64) -> OpenPosition {
    OpenPosition {
        trade_id: "t-1".to_string(),
        market_ticker: "KXBTC-TEST".to_string(),
        side,
        entry_price,
        contracts,
        model_probability: 600_000,
        entry_tick,
        entry_btc_price: entry_btc,
        peak_unrealized: 0,
        leg: 0,
    }
}

fn ctx(spot_usd: i64, strike_usd: i64, yes_bid: i64, yes_ask: i64, ttl: i64, tick: u64) -> TickContext {
    TickContext {
        spot: spot_usd * USD,
        strike: strike_usd * USD,
        yes_bid,
        yes_ask,
        ttl_seconds: ttl,
        tick_counter: tick,
    }
}

fn config() -> EngineConfig {
    EngineConfig {
        fractional_kelly: 200_000,
        max_position: 50_000_000,
        ev_threshold: 20_000,
        max_daily_drawdown: 100 * DOLLAR,
    }
}

fn exit_reasons(actions: &[EngineAction]) -> Vec<ExitReason> {
    actions
        .iter()
        .filter_map(|a| match a {
            EngineAction::ExitTrade { reason, .. } => Some(*reason),
            _ => None,
        })
        .collect()
}

#[test]
fn strike_cross_exits_despite_hold_time() {
    let p = position(Side::Yes, 550_000, 2_000_000, 100, 100_000 * USD);
    let c = ctx(99_970, 100_000, 400_000, 420_000, 200, 101);
    assert_eq!(exit_decision(&p, &c), ExitDecision::Full(ExitReason::StrikeCross));

    let mut state = ModelState::new("Black-Scholes".to_string());
    state.push_position(p);
    let cal = Calibrator::new();
    let mut actions = Vec::new();
    run_model_tick(&mut state, &cal, &c, 500_000, &VolatilityState::new(), &config(), &"KXBTC-TEST".to_string(), &mut actions);
    assert_eq!(exit_reasons(&actions), vec![ExitReason::StrikeCross]);
    assert_eq!(state.position_count(), 0);
    // (0.40 - 0.55) * 2 - 0.40 * 2 * 0.02 = -0.316
    assert_eq!(state.cumulative_pnl, -316_000_000_000);
    assert_eq!(state.beta_beta, 21_000_000);
}

#[test]
fn young_position_holds_without_strike_cross() {
    // A deep loss would stop out, but the position is one tick old.
    let p = position(Side::Yes, 550_000, 2_000_000, 100, 100_000 * USD);
    let c = ctx(100_000, 100_000, 100_000, 120_000, 600, 101);
    assert_eq!(exit_decision(&p, &c), ExitDecision::Hold);
    let c = ctx(100_000, 100_000, 100_000, 120_000, 600, 105);
    assert_eq!(exit_decision(&p, &c), ExitDecision::Full(ExitReason::StopLoss));
}

#[test]
fn trailing_stop_fires_before_take_profit() {
    let mut state = ModelState::new("Black-Scholes".to_string());
    state.push_position(position(Side::Yes, 550_000, 2_000_000, 100, 100_100 * USD));
    let cal = Calibrator::new();
    let mut actions = Vec::new();
    // Bid 0.70: unrealized +0.30, below the 0.88 take-profit.
    let up = ctx(100_100, 100_000, 700_000, 720_000, 900, 110);
    run_model_tick(&mut state, &cal, &up, 500_000, &VolatilityState::new(), &config(), &"KXBTC-TEST".to_string(), &mut actions);
    assert_eq!(state.position(0).peak_unrealized, 300_000_000_000);
    assert!(exit_reasons(&actions).is_empty());
    // Bid 0.61: unrealized +0.12 < 0.5 * 0.30.
    let down = ctx(100_100, 100_000, 610_000, 630_000, 900, 111);
    assert_eq!(exit_decision(state.position(0), &down), ExitDecision::Full(ExitReason::TrailingStop));
    let mut actions = Vec::new();
    run_model_tick(&mut state, &cal, &down, 500_000, &VolatilityState::new(), &config(), &"KXBTC-TEST".to_string(), &mut actions);
    assert_eq!(exit_reasons(&actions), vec![ExitReason::TrailingStop]);
}

#[test]
fn hold_to_resolution_near_expiry() {
    let mut p = position(Side::Yes, 550_000, 2_000_000, 100, 100_250 * USD);
    p.peak_unrealized = 100_000_000_000;
    let c = ctx(100_250, 100_000, 600_000, 620_000, 90, 200);
    assert_eq!(exit_decision(&p, &c), ExitDecision::Hold);
    // Not strongly winning: exit in the last four minutes.
    let c = ctx(100_150, 100_000, 600_000, 620_000, 90, 200);
    assert_eq!(exit_decision(&p, &c), ExitDecision::Full(ExitReason::TimeExit));
    // Strongly winning but between two and four minutes out: no exit.
    let c = ctx(100_250, 100_000, 600_000, 620_000, 200, 200);
    assert_eq!(exit_decision(&p, &c), ExitDecision::Hold);
}

#[test]
fn take_profit_and_partial_exit() {
    // Bid 0.95 on an entry of 0.50: +90% of cost.
    let p = position(Side::Yes, 500_000, 3_000_000, 0, 100_100 * USD);
    let c = ctx(100_100, 100_000, 950_000, 960_000, 900, 50);
    assert_eq!(exit_decision(&p, &c), ExitDecision::Full(ExitReason::TakeProfit));
    // Bid 0.75: +50% of cost on three contracts of leg 0: partial.
    let c = ctx(100_100, 100_000, 750_000, 760_000, 900, 50);
    assert_eq!(exit_decision(&p, &c), ExitDecision::Partial);

    let mut state = ModelState::new("Student-t".to_string());
    state.current_exposure = 1_500_000_000_000;
    state.push_position(p);
    let cal = Calibrator::new();
    let mut actions = Vec::new();
    run_model_tick(&mut state, &cal, &c, 500_000, &VolatilityState::new(), &config(), &"KXBTC-TEST".to_string(), &mut actions);
    // One contract sold at 0.75: P/L 0.25 - 0.015 fee.
    assert_eq!(state.position(0).contracts, 2_000_000);
    assert_eq!(state.cumulative_pnl, 235_000_000_000);
    assert_eq!(state.current_exposure, 1_000_000_000_000);
    assert_eq!(state.winning_trades, 1);
    assert!(actions.iter().any(|a| matches!(a, EngineAction::PartialExit { contracts: 1_000_000, .. })));
}

#[test]
fn no_side_position_marks_against_ask() {
    let p = position(Side::No, 400_000, 1_000_000, 0, 100_000 * USD);
    // NO bid = 1 - 0.55 = 0.45: +0.05 per contract.
    let c = ctx(99_990, 100_000, 530_000, 550_000, 900, 10);
    assert_eq!(exit_decision(&p, &c), ExitDecision::Hold);
    let mut state = ModelState::new("Jump-Diffusion".to_string());
    state.push_position(p);
    let cal = Calibrator::new();
    let mut actions = Vec::new();
    run_model_tick(&mut state, &cal, &c, 500_000, &VolatilityState::new(), &config(), &"KXBTC-TEST".to_string(), &mut actions);
    assert_eq!(state.unrealized_pnl, 50_000_000_000);
    // Spot above strike + 25 crosses a NO position.
    let c = ctx(100_026, 100_000, 530_000, 550_000, 900, 10);
    assert_eq!(exit_decision(state.position(0), &c), ExitDecision::Full(ExitReason::StrikeCross));
}

#[test]
fn entry_opens_first_leg_on_signal() {
    let mut state = ModelState::new("Black-Scholes".to_string());
    let cal = Calibrator::new();
    let mut actions = Vec::new();
    let c = ctx(100_000, 100_000, 380_000, 400_000, 900, 1);
    run_model_tick(&mut state, &cal, &c, 700_000, &VolatilityState::new(), &config(), &"KXBTC-TEST".to_string(), &mut actions);
    assert_eq!(state.position_count(), 1);
    let p = state.position(0);
    assert_eq!(p.side, Side::Yes);
    assert_eq!(p.leg, 0);
    assert_eq!(p.entry_price, 400_000);
    assert!(p.contracts >= 1_000_000);
    assert_eq!(p.trade_id.len(), 36);
    assert_eq!(state.total_trades, 1);
    assert_eq!(state.current_exposure, p.contracts as i128 * 400_000);
    assert!(actions.iter().any(|a| matches!(a, EngineAction::PlaceTrade { scale_in: false, .. })));
    let placed = actions.iter().find_map(|a| match a {
        EngineAction::PlaceTrade { id, price, contracts, side, .. } => Some((id.clone(), *price, *contracts, *side)),
        _ => None,
    });
    assert_eq!(placed, Some((p.trade_id.clone(), 400_000, p.contracts, Side::Yes)));
    // Too close to expiry: no entry.
    let mut late = ModelState::new("Black-Scholes".to_string());
    let c = ctx(100_000, 100_000, 380_000, 400_000, 300, 1);
    let mut actions = Vec::new();
    run_model_tick(&mut late, &cal, &c, 700_000, &VolatilityState::new(), &config(), &"KXBTC-TEST".to_string(), &mut actions);
    assert_eq!(late.position_count(), 0);
}

#[test]
fn scale_in_follows_first_side_and_signal() {
    let mut state = ModelState::new("Black-Scholes".to_string());
    state.push_position(position(Side::Yes, 400_000, 1_000_000, 0, 100_000 * USD));
    state.current_exposure = 400_000_000_000;
    let cal = Calibrator::new();
    // Spot moved +$100 in favour, bid above entry, strong YES signal.
    let c = ctx(100_100, 100_000, 450_000, 460_000, 900, 2);
    let mut actions = Vec::new();
    run_model_tick(&mut state, &cal, &c, 700_000, &VolatilityState::new(), &config(), &"KXBTC-TEST".to_string(), &mut actions);
    assert_eq!(state.position_count(), 2);
    assert_eq!(state.position(1).leg, 1);
    assert_eq!(state.position(1).side, Side::Yes);
    assert_eq!(state.position(1).contracts, 1_000_000);
    assert_eq!(state.position(1).entry_price, 460_000);
    assert!(actions.iter().any(|a| matches!(a, EngineAction::PlaceTrade { scale_in: true, .. })));
    // Without a signal there is no scale-in.
    let mut quiet = ModelState::new("Black-Scholes".to_string());
    quiet.push_position(position(Side::Yes, 400_000, 1_000_000, 0, 100_000 * USD));
    let mut actions = Vec::new();
    run_model_tick(&mut quiet, &cal, &c, 460_000, &VolatilityState::new(), &config(), &"KXBTC-TEST".to_string(), &mut actions);
    assert_eq!(quiet.position_count(), 1);
}

#[test]
fn settlement_pnl_of_winning_yes() {
    let mut state = ModelState::new("Black-Scholes".to_string());
    state.current_exposure = 1_000_000_000_000;
    let mut cal = Calibrator::new();
    let t = PendingTrade {
        id: "t-1".to_string(),
        model_name: "Black-Scholes".to_string(),
        side: Side::Yes,
        entry_price: 400_000,
        contracts: 3_000_000,
        model_probability: 620_000,
        fees: 24_000_000_000,
    };
    let pnl = settle_one(&mut state, &mut cal, &t, Some(Side::Yes));
    assert_eq!(pnl, 1_776_000_000_000);
    assert_eq!(state.cumulative_pnl, 1_776_000_000_000);
    assert_eq!(state.winning_trades, 1);
    assert_eq!(state.beta_alpha, 21_000_000);
    assert_eq!(state.beta_beta, 20_000_000);
    // 1.00 of exposure less 1.20 floors at zero.
    assert_eq!(state.current_exposure, 0);
    assert_eq!(cal.total, 1);
    assert_eq!(cal.predicted[6], 1);
    assert_eq!(cal.realized[6], 1);
    // Brier: (0.62 - 1)^2 = 0.1444
    assert_eq!(state.brier_score, 144_400);
}

#[test]
fn settlement_of_losing_trade_removes_position() {
    let mut state = ModelState::new("Student-t".to_string());
    state.push_position(position(Side::No, 300_000, 2_000_000, 0, 100_000 * USD));
    state.current_exposure = 600_000_000_000;
    let mut cal = Calibrator::new();
    let t = PendingTrade {
        id: "t-1".to_string(),
        model_name: "Student-t".to_string(),
        side: Side::No,
        entry_price: 300_000,
        contracts: 2_000_000,
        model_probability: 400_000,
        fees: 12_000_000_000,
    };
    let pnl = settle_one(&mut state, &mut cal, &t, Some(Side::Yes));
    assert_eq!(pnl, -612_000_000_000);
    assert_eq!(state.position_count(), 0);
    assert_eq!(state.current_exposure, 0);
    assert_eq!(state.beta_beta, 21_000_000);
    assert_eq!(state.max_drawdown, 612_000_000_000);
    assert_eq!(cal.realized[4], 0);
    assert_eq!(cal.predicted[4], 1);
}

#[test]
fn sharpe_from_returns() {
    let mut state = ModelState::new("m".to_string());
    state.record_return(100_000);
    state.compute_sharpe();
    assert_eq!(state.sharpe, 0);
    state.record_return(300_000);
    state.compute_sharpe();
    // mean 0.2, sample std 0.141421, sqrt(35040) = 187.189743
    // 200000 * 187189743 / 141421 = 264,726,xxx
    assert_eq!(state.sharpe, 200_000 * 187_189_743 / 141_421);
    assert_eq!(state.win_rate(), 0);
}
