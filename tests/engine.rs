use paper_engine::engine::{ActiveMarket, Engine};
use paper_engine::errors::EngineError;
use paper_engine::models::{clamp_probability, step_probability, StudentTDigital};
use paper_engine::settlement::PendingTrade;
use paper_engine::simulator::EngineConfig;
use paper_engine::state::{EngineState, Side};

const DOLLAR: i128 = 1_000_000_000_000;

fn config() -> EngineConfig {
    EngineConfig {
        fractional_kelly: 200_000,
        max_position: 50_000_000,
        ev_threshold: 20_000,
        max_daily_drawdown: 100 * DOLLAR,
    }
}

fn active(ticker: &str) -> ActiveMarket {
    ActiveMarket {
        ticker: ticker.to_string(),
        event_ticker: "EVT".to_string(),
        series_ticker: "KXBTCD".to_string(),
        strike: Some(100_000_000_000),
        yes_bid: Some(380_000),
        yes_ask: Some(400_000),
        no_bid: None,
        no_ask: None,
        last_price: None,
        close_time: "2025-01-01T00:15:00Z".to_string(),
        expiration_time: String::new(),
        status: "open".to_string(),
        result: None,
    }
}

/// Feeds twenty small returns so that the estimator is ready.
fn warm_up(e: &mut Engine) {
    for i in 0..20 {
        e.on_price(100_000_000_000, Some(if i % 2 == 0 { 1_000 } else { -1_000 }));
    }
}

#[test]
fn lifecycle_connecting_syncing_trading() {
    let mut e = Engine::new(config());
    assert_eq!(e.state, EngineState::Connecting);
    e.on_price(100_000_000_000, None);
    assert_eq!(e.state, EngineState::Syncing);
    warm_up(&mut e);
    assert!(e.vol.is_ready());
    assert_eq!(e.state, EngineState::Syncing);
    assert!(e.on_market_update(active("A")));
    assert_eq!(e.state, EngineState::Trading);
    assert!(!e.on_market_update(active("A")));
    e.halt();
    assert_eq!(e.state, EngineState::Halted);
    assert_eq!(e.state.as_str(), "halted");
}

#[test]
fn tick_outside_trading_does_nothing() {
    let mut e = Engine::new(config());
    let actions = e.on_tick(900, &vec![700_000, 700_000, 700_000]).unwrap();
    assert!(actions.is_empty());
    assert_eq!(e.tick_counter, 1);
}

#[test]
fn trading_tick_enters_and_settlement_resolves() {
    let mut e = Engine::new(config());
    warm_up(&mut e);
    e.on_market_update(active("A"));
    assert_eq!(e.state, EngineState::Trading);
    let actions = e.on_tick(900, &vec![700_000, 700_000, 700_000]).unwrap();
    assert!(!actions.is_empty());
    for m in &e.model_states {
        assert_eq!(m.position_count(), 1);
        assert_eq!(m.total_trades, 1);
    }
    let p = e.model_states[0].position(0);
    let pending = vec![PendingTrade {
        id: p.trade_id.clone(),
        model_name: "Black-Scholes".to_string(),
        side: p.side,
        entry_price: p.entry_price,
        contracts: p.contracts,
        model_probability: p.model_probability,
        fees: p.entry_price as i128 * p.contracts as i128 / 50,
    }];
    let actions = e.on_market_settled(Some(Side::Yes), &pending).unwrap();
    assert_eq!(actions.len(), 1);
    assert!(e.active_market.is_none());
    assert_eq!(e.model_states[0].position_count(), 0);
    assert_eq!(e.model_states[0].winning_trades, 1);
    assert_eq!(e.model_states[1].position_count(), 1);
    assert_eq!(e.calibrators[0].total, 1);
}

#[test]
fn market_switch_clears_positions() {
    let mut e = Engine::new(config());
    warm_up(&mut e);
    e.on_market_update(active("A"));
    e.on_tick(900, &vec![700_000, 700_000, 700_000]).unwrap();
    assert_eq!(e.model_states[2].position_count(), 1);
    assert!(e.on_market_update(active("B")));
    for m in &e.model_states {
        assert_eq!(m.position_count(), 0);
        assert_eq!(m.unrealized_pnl, 0);
    }
}

#[test]
fn ledger_without_room_is_corruption() {
    let mut e = Engine::new(config());
    warm_up(&mut e);
    e.on_market_update(active("A"));
    e.model_states[1].cumulative_pnl = 0x10000000000000000000000000001;
    let r = e.on_tick(900, &vec![700_000, 700_000, 700_000]);
    // Nothing was traded, not even by the models with room.
    assert!(e.model_states.iter().all(|m| m.position_count() == 0 && m.total_trades == 0));
    match r {
        Err(err) => {
            assert!(err.is_fatal());
            assert!(matches!(err, EngineError::StateCorruption(_)));
        }
        Ok(_) => panic!("expected a corruption error"),
    }
}

#[test]
fn model_outputs_are_clamped() {
    assert_eq!(clamp_probability(0), 1_000);
    assert_eq!(clamp_probability(1_000_000), 999_000);
    assert_eq!(clamp_probability(420_000), 420_000);
    assert_eq!(step_probability(100, 100), 999_000);
    assert_eq!(step_probability(99, 100), 1_000);
    assert_eq!(StudentTDigital::new().name(), "Student-t");
}

#[test]
fn settlement_of_unknown_model_only_reports() {
    let mut e = Engine::new(config());
    let pending = vec![PendingTrade {
        id: "x".to_string(),
        model_name: "Unknown".to_string(),
        side: Side::No,
        entry_price: 300_000,
        contracts: 1_000_000,
        model_probability: 500_000,
        fees: 0,
    }];
    let actions = e.on_market_settled(Some(Side::No), &pending).unwrap();
    assert_eq!(actions.len(), 1);
    for m in &e.model_states {
        assert_eq!(m.cumulative_pnl, 0);
    }
    assert!(e.calibrators.iter().all(|c| c.total == 0));
}

#[test]
fn settlement_without_room_is_corruption() {
    let mut e = Engine::new(config());
    e.model_states[0].daily_pnl = -0x10000000000000000000000000001;
    let pending = vec![PendingTrade {
        id: "x".to_string(),
        model_name: "Black-Scholes".to_string(),
        side: Side::Yes,
        entry_price: 300_000,
        contracts: 1_000_000,
        model_probability: 500_000,
        fees: 0,
    }];
    let r = e.on_market_settled(Some(Side::No), &pending);
    assert!(matches!(r, Err(EngineError::StateCorruption(_))));
    assert_eq!(e.model_states[0].beta_beta, 20_000_000);
    assert_eq!(e.calibrators[0].total, 0);
}
