//! The engine's single-owner state and its response to each event.
//!
//! The event loop itself (queues, timers, storage, broadcasting) runs
//! outside; it hands each event's plain values to these methods and carries
//! out the returned actions.
use vstd::prelude::*;
use crate::fixed::{SCALE, MAX_SPOT};
use crate::state::{EngineState, ModelState, Side, VolatilityState};
use crate::calibration::Calibrator;
use crate::simulator::{EngineAction, EngineConfig, TickContext, run_model_tick, tick_post};
use crate::models::{PROB_FLOOR, PROB_CEIL};
use crate::settlement::{PendingTrade, settle_trades, batch_ok, settle_action, model_settled};
use crate::positions::positions_clear;
use crate::errors::EngineError;
use crate::volatility::{VolatilityEngine, RET_UNIT};

verus! {

broadcast use vstd::string::group_string_axioms;

/// Number of pricing models the engine runs.
pub const NUM_MODELS: usize = 3;

/// The binary market currently priced. Strike and prices are in millionths
/// (of a dollar for the strike).
#[derive(Debug)]
pub struct ActiveMarket {
    pub ticker: String,
    pub event_ticker: String,
    pub series_ticker: String,
    pub strike: Option<i64>,
    pub yes_bid: Option<i64>,
    pub yes_ask: Option<i64>,
    pub no_bid: Option<i64>,
    pub no_ask: Option<i64>,
    pub last_price: Option<i64>,
    pub close_time: String,
    pub expiration_time: String,
    pub status: String,
    pub result: Option<String>,
}

pub open spec fn models_wf(ms: Seq<ModelState>) -> bool {
    forall|i: int| 0 <= i < ms.len() ==> (#[trigger] ms[i]).wf()
}

pub open spec fn cals_wf(cs: Seq<Calibrator>) -> bool {
    forall|i: int| 0 <= i < cs.len() ==> (#[trigger] cs[i]).wf()
}

/// The context of a tick when the market can be traded: a strike and a
/// spot within range, a YES bid in [0, 1], a YES ask in (0, 1), time left.
pub open spec fn tick_context(m: ActiveMarket, spot: int, ttl: int, tick: u64) -> Option<TickContext> {
    let bid = match m.yes_bid { Some(b) => b as int, None => 0 };
    let ask = match m.yes_ask { Some(a) => a as int, None => 0 };
    match m.strike {
        Some(k) => {
            if 0 < k <= MAX_SPOT && 0 < spot <= MAX_SPOT && 0 <= bid <= SCALE && 0 < ask < SCALE && ttl > 0 {
                Some(TickContext {
                    spot: spot as i64,
                    strike: k,
                    yes_bid: bid as i64,
                    yes_ask: ask as i64,
                    ttl_seconds: ttl as i64,
                    tick_counter: tick,
                })
            } else {
                None
            }
        },
        None => None,
    }
}

/// Builds the tick context, or `None` when the market cannot be traded now.
pub fn market_context(m: &ActiveMarket, spot: i64, ttl_seconds: i64, tick_counter: u64) -> (r: Option<TickContext>)
    ensures
        r == tick_context(*m, spot as int, ttl_seconds as int, tick_counter),
        r matches Some(c) ==> c.valid(),
{
    let bid: i64 = match m.yes_bid { Some(b) => b, None => 0 };
    let ask: i64 = match m.yes_ask { Some(a) => a, None => 0 };
    match m.strike {
        Some(k) => {
            if 0 < k && k <= MAX_SPOT && 0 < spot && spot <= MAX_SPOT && 0 <= bid && bid <= SCALE && 0 < ask && ask < SCALE
                && ttl_seconds > 0 {
                Some(TickContext {
                    spot,
                    strike: k,
                    yes_bid: bid,
                    yes_ask: ask,
                    ttl_seconds,
                    tick_counter,
                })
            } else {
                None
            }
        },
        None => None,
    }
}

/// Boundaries of the models' stretches of actions, from `lo` to `hi`.
pub open spec fn action_bounds(bs: Seq<int>, lo: int, hi: int) -> bool {
    &&& bs.len() == NUM_MODELS + 1
    &&& bs[0] == lo
    &&& bs[NUM_MODELS as int] == hi
    &&& forall|k: int| 0 <= k < NUM_MODELS ==> #[trigger] bs[k] <= bs[k + 1]
}

/// Every model has room for one more tick.
pub open spec fn all_headroom(ms: Seq<ModelState>) -> bool {
    forall|i: int| 0 <= i < ms.len() ==> (#[trigger] ms[i]).has_headroom()
}

/// Runs the four phases for every model against one market. Without a
/// market every model's unrealized P/L is reset and nothing else changes;
/// a market that cannot be traded (see `tick_context`) changes nothing.
/// Otherwise it fails with `StateCorruption`, changing nothing, exactly when
/// some model's figures have no room left for a tick.
pub fn run_tick(
    model_states: &mut Vec<ModelState>,
    calibrators: &Vec<Calibrator>,
    vol: &VolatilityState,
    market: &Option<ActiveMarket>,
    spot: i64,
    config: &EngineConfig,
    ttl_seconds: i64,
    tick_counter: u64,
    raw_probabilities: &Vec<i64>,
    actions: &mut Vec<EngineAction>,
) -> (r: Result<(), EngineError>)
    requires
        old(model_states).len() == NUM_MODELS,
        calibrators.len() == NUM_MODELS,
        raw_probabilities.len() == NUM_MODELS,
        models_wf(old(model_states)@),
        cals_wf(calibrators@),
        config.valid(),
        forall|i: int| 0 <= i < NUM_MODELS ==> PROB_FLOOR <= #[trigger] raw_probabilities[i] <= PROB_CEIL,
    ensures
        final(model_states).len() == NUM_MODELS,
        models_wf(final(model_states)@),
        r is Err ==> r->Err_0 is StateCorruption && final(model_states)@ == old(model_states)@
            && final(actions)@ == old(actions)@,
        match market {
            None => r is Ok && final(actions)@ == old(actions)@
                && forall|i: int| 0 <= i < NUM_MODELS ==> #[trigger] final(model_states)[i]
                    == (ModelState { unrealized_pnl: 0, ..old(model_states)[i] }),
            Some(m) => match tick_context(*m, spot as int, ttl_seconds as int, tick_counter) {
                None => r is Ok && final(model_states)@ == old(model_states)@ && final(actions)@ == old(actions)@,
                Some(c) => {
                    &&& (r is Ok <==> all_headroom(old(model_states)@))
                    &&& (r is Ok ==> exists|bs: Seq<int>| #[trigger] action_bounds(bs, old(actions)@.len() as int, final(actions)@.len() as int)
                        && forall|i: int| 0 <= i < NUM_MODELS ==> tick_post(#[trigger] old(model_states)[i],
                        final(model_states)[i], calibrators[i], c, raw_probabilities[i], *vol, *config, m.ticker,
                        final(actions)@.take(bs[i]), final(actions)@.take(bs[i + 1])))
                },
            },
        },
{
    let m = match market {
        None => {
            let mut i: usize = 0;
            while i < NUM_MODELS
                invariant
                    model_states.len() == NUM_MODELS,
                    models_wf(model_states@),
                    i <= NUM_MODELS,
                    forall|k: int| 0 <= k < i ==> #[trigger] model_states[k] == (ModelState { unrealized_pnl: 0, ..old(model_states)[k] }),
                    forall|k: int| i <= k < NUM_MODELS ==> #[trigger] model_states[k] == old(model_states)[k],
                decreases NUM_MODELS - i,
            {
                let ghost ms0 = model_states@;
                let mut st = model_states.remove(i);
                proof {
                    assert(ms0[i as int].wf());
                }
                st.unrealized_pnl = 0;
                model_states.insert(i, st);
                proof {
                    assert(model_states@ =~= ms0.update(i as int, st));
                }
                i = i + 1;
            }
            return Ok(());
        },
        Some(m) => m,
    };
    let ctx = match market_context(m, spot, ttl_seconds, tick_counter) {
        None => {
            return Ok(());
        },
        Some(c) => c,
    };
    let mut k: usize = 0;
    while k < NUM_MODELS
        invariant
            model_states.len() == NUM_MODELS,
            model_states@ == old(model_states)@,
            models_wf(model_states@),
            *market == Some(*m),
            tick_context(*m, spot as int, ttl_seconds as int, tick_counter) == Some(ctx),
            actions@ == old(actions)@,
            k <= NUM_MODELS,
            forall|j: int| 0 <= j < k ==> (#[trigger] model_states[j]).has_headroom(),
        decreases NUM_MODELS - k,
    {
        if !model_states[k].within_limits() {
            proof {
                let ms = old(model_states)@;
                if all_headroom(ms) {
                    assert(ms[k as int].has_headroom());
                }
            }
            return Err(EngineError::StateCorruption(String::new()));
        }
        k = k + 1;
    }
    let ghost mut bs: Seq<int> = seq![old(actions)@.len() as int];
    let mut i: usize = 0;
    while i < NUM_MODELS
        invariant
            model_states.len() == NUM_MODELS,
            calibrators.len() == NUM_MODELS,
            raw_probabilities.len() == NUM_MODELS,
            models_wf(model_states@),
            cals_wf(calibrators@),
            ctx.valid(),
            config.valid(),
            *market == Some(*m),
            tick_context(*m, spot as int, ttl_seconds as int, tick_counter) == Some(ctx),
            forall|k: int| 0 <= k < NUM_MODELS ==> PROB_FLOOR <= #[trigger] raw_probabilities[k] <= PROB_CEIL,
            i <= NUM_MODELS,
            forall|j: int| i <= j < NUM_MODELS ==> #[trigger] model_states[j] == old(model_states)[j],
            forall|j: int| 0 <= j < NUM_MODELS ==> (#[trigger] old(model_states)[j]).has_headroom(),
            bs.len() == i + 1,
            bs[0] == old(actions)@.len(),
            bs[i as int] == actions@.len(),
            forall|k: int| 0 <= k < i ==> #[trigger] bs[k] <= bs[k + 1],
            forall|j: int| 0 <= j < i ==> tick_post(#[trigger] old(model_states)[j], model_states[j], calibrators[j], ctx,
                raw_probabilities[j], *vol, *config, m.ticker, actions@.take(bs[j]), actions@.take(bs[j + 1])),
        decreases NUM_MODELS - i,
    {
        let ghost ms0 = model_states@;
        let mut st = model_states.remove(i);
        proof {
            assert(ms0[i as int] == old(model_states)[i as int]);
            assert(ms0[i as int].wf());
            assert(calibrators[i as int].wf());
            assert(PROB_FLOOR <= raw_probabilities[i as int] <= PROB_CEIL);
        }
        let ghost acts_before = actions@;
        run_model_tick(&mut st, &calibrators[i], &ctx, raw_probabilities[i], vol, config, &m.ticker, actions);
        model_states.insert(i, st);
        proof {
            assert(model_states@ =~= ms0.update(i as int, st));
            let bs2 = bs.push(actions@.len() as int);
            assert forall|j: int| 0 <= j < i implies tick_post(#[trigger] old(model_states)[j], model_states[j], calibrators[j], ctx,
                raw_probabilities[j], *vol, *config, m.ticker, actions@.take(bs2[j]), actions@.take(bs2[j + 1])) by {
                assert(bs2[j] == bs[j] && bs2[j + 1] == bs[j + 1]);
                assert(bs[j] <= bs[j + 1]);
                crate::simulator::lemma_bounds_le(bs, j + 1, i as int);
                crate::simulator::lemma_extends_take(acts_before, actions@, bs[j]);
                crate::simulator::lemma_extends_take(acts_before, actions@, bs[j + 1]);
                assert(acts_before.take(bs[j + 1]) == actions@.take(bs[j + 1]));
            }
            assert(acts_before.take(acts_before.len() as int) =~= acts_before);
            crate::simulator::lemma_extends_take(acts_before, actions@, acts_before.len() as int);
            assert(actions@.take(actions@.len() as int) =~= actions@);
            assert(tick_post(old(model_states)[i as int], model_states[i as int], calibrators[i as int], ctx,
                raw_probabilities[i as int], *vol, *config, m.ticker, actions@.take(bs2[i as int]), actions@.take(bs2[i as int + 1])));
            bs = bs2;
        }
        i = i + 1;
    }
    proof {
        assert(all_headroom(old(model_states)@));
        assert(action_bounds(bs, old(actions)@.len() as int, actions@.len() as int));
    }
    Ok(())
}

/// Engine state owned by the event loop.
pub struct Engine {
    pub state: EngineState,
    /// Last spot price, in millionths of a dollar; zero before the first.
    pub btc_price: i64,
    pub active_market: Option<ActiveMarket>,
    pub vol: VolatilityEngine,
    pub model_states: Vec<ModelState>,
    pub calibrators: Vec<Calibrator>,
    pub tick_counter: u64,
    pub config: EngineConfig,
}

/// Lifecycle after a spot price: the first price moves `Connecting` to
/// `Syncing`; a ready estimator and a tracked market move `Syncing` to
/// `Trading`.
pub open spec fn state_after_price(s: EngineState, vol_ready: bool, has_market: bool) -> EngineState {
    match s {
        EngineState::Connecting => EngineState::Syncing,
        EngineState::Syncing => if vol_ready && has_market { EngineState::Trading } else { EngineState::Syncing },
        _ => s,
    }
}

/// Lifecycle after a market update: `Syncing` moves to `Trading` once the
/// estimator is ready.
pub open spec fn state_after_market(s: EngineState, vol_ready: bool) -> EngineState {
    if s == EngineState::Syncing && vol_ready { EngineState::Trading } else { s }
}

impl Engine {
    pub open spec fn wf(&self) -> bool {
        &&& self.model_states.len() == NUM_MODELS
        &&& self.calibrators.len() == NUM_MODELS
        &&& models_wf(self.model_states@)
        &&& cals_wf(self.calibrators@)
        &&& self.config.valid()
        &&& self.vol.wf()
    }

    /// A connecting engine with the three models and fresh calibrators.
    pub fn new(config: EngineConfig) -> (r: Engine)
        requires
            config.valid(),
        ensures
            r.wf(),
            r.state == EngineState::Connecting,
            r.btc_price == 0,
            r.active_market is None,
            r.tick_counter == 0,
            forall|i: int| 0 <= i < NUM_MODELS ==> (#[trigger] r.model_states[i]).positions().len() == 0,
    {
        let mut models: Vec<ModelState> = Vec::new();
        models.push(ModelState::new(model_name(0)));
        models.push(ModelState::new(model_name(1)));
        models.push(ModelState::new(model_name(2)));
        let mut cals: Vec<Calibrator> = Vec::new();
        cals.push(Calibrator::new());
        cals.push(Calibrator::new());
        cals.push(Calibrator::new());
        Engine {
            state: EngineState::Connecting,
            btc_price: 0,
            active_market: None,
            vol: VolatilityEngine::new(),
            model_states: models,
            calibrators: cals,
            tick_counter: 0,
            config,
        }
    }

    /// A new spot price, with its log return against the previous one (in
    /// units of 1e-8) when there is one.
    pub fn on_price(&mut self, price: i64, log_return: Option<i64>)
        requires
            old(self).wf(),
        ensures
            final(self).wf(),
            final(self).btc_price == price,
            log_return is None ==> final(self).vol == old(self).vol,
            log_return matches Some(r) ==> (-RET_UNIT <= r <= RET_UNIT ==> final(self).vol.window@.last() == r)
                && (!(-RET_UNIT <= r <= RET_UNIT) ==> final(self).vol == old(self).vol),
            final(self).state == state_after_price(old(self).state, final(self).vol.state.sample_count >= crate::state::MIN_SAMPLES,
                old(self).active_market is Some),
            final(self).model_states@ == old(self).model_states@,
            final(self).active_market == old(self).active_market,
    {
        self.btc_price = price;
        match log_return {
            Some(r) => self.vol.update(r),
            None => {},
        }
        match self.state {
            EngineState::Connecting => {
                self.state = EngineState::Syncing;
            },
            EngineState::Syncing => {
                if self.vol.is_ready() && self.active_market.is_some() {
                    self.state = EngineState::Trading;
                }
            },
            _ => {},
        }
    }

    /// A new best market. Switching to another ticker clears every model's
    /// positions and unrealized P/L; returns whether it switched.
    pub fn on_market_update(&mut self, market: ActiveMarket) -> (switched: bool)
        requires
            old(self).wf(),
        ensures
            final(self).wf(),
            final(self).active_market == Some(market),
            final(self).state == state_after_market(old(self).state, old(self).vol.state.sample_count >= crate::state::MIN_SAMPLES),
            switched == (match old(self).active_market {
                Some(m) => m.ticker@ != market.ticker@,
                None => true,
            }),
            switched ==> forall|i: int| 0 <= i < NUM_MODELS ==> (#[trigger] final(self).model_states[i]).positions().len() == 0
                && final(self).model_states[i].unrealized_pnl == 0,
            !switched ==> final(self).model_states@ == old(self).model_states@,
    {
        let switched: bool = match &self.active_market {
            Some(m) => !(m.ticker == market.ticker),
            None => true,
        };
        if switched {
            let mut i: usize = 0;
            while i < NUM_MODELS
                invariant
                    self.model_states.len() == NUM_MODELS,
                    self.calibrators.len() == NUM_MODELS,
                    models_wf(self.model_states@),
                    cals_wf(self.calibrators@),
                    self.config.valid(),
                    self.state == old(self).state,
                    self.vol == old(self).vol,
                    i <= NUM_MODELS,
                    forall|k: int| 0 <= k < i ==> (#[trigger] self.model_states[k]).positions().len() == 0
                        && self.model_states[k].unrealized_pnl == 0,
                decreases NUM_MODELS - i,
            {
                let ghost ms0 = self.model_states@;
                let mut st = self.model_states.remove(i);
                proof {
                    assert(ms0[i as int].wf());
                }
                positions_clear(&mut st.open_positions);
                st.unrealized_pnl = 0;
                proof {
                    assert(crate::state::legs_ordered(st.positions()));
                }
                self.model_states.insert(i, st);
                proof {
                    assert(self.model_states@ =~= ms0.update(i as int, st));
                }
                i = i + 1;
            }
        }
        self.active_market = Some(market);
        if self.state == EngineState::Syncing && self.vol.is_ready() {
            self.state = EngineState::Trading;
        }
        switched
    }

    /// The tracked market resolved to `result`: settles the pending trades
    /// and forgets the market so that a new one is picked.
    pub fn on_market_settled(&mut self, result: Option<Side>, pending: &Vec<PendingTrade>) -> (r: Result<Vec<EngineAction>, EngineError>)
        requires
            old(self).wf(),
            forall|i: int| 0 <= i < pending.len() ==> (#[trigger] pending[i]).valid(),
        ensures
            final(self).wf(),
            final(self).state == old(self).state,
            r is Ok <==> batch_ok(old(self).model_states@, old(self).calibrators@, pending.len() as int),
            r is Err ==> r->Err_0 is StateCorruption && final(self).model_states@ == old(self).model_states@
                && final(self).calibrators@ == old(self).calibrators@ && final(self).active_market == old(self).active_market,
            r is Ok ==> final(self).active_market is None
                && r->Ok_0@ == pending@.map_values(|t: PendingTrade| settle_action(t, result))
                && forall|i: int| 0 <= i < NUM_MODELS ==> model_settled(old(self).model_states@, pending@, i, result,
                    #[trigger] old(self).model_states[i], final(self).model_states[i], old(self).calibrators[i], final(self).calibrators[i]),
    {
        let mut actions: Vec<EngineAction> = Vec::new();
        proof {
            assert(actions@ + pending@.map_values(|t: PendingTrade| settle_action(t, result))
                =~= pending@.map_values(|t: PendingTrade| settle_action(t, result)));
        }
        let res = settle_trades(&mut self.model_states, &mut self.calibrators, result, pending, &mut actions);
        match res {
            Ok(()) => {
                self.active_market = None;
                Ok(actions)
            },
            Err(e) => Err(e),
        }
    }

    /// One second passed: counts the tick and, while trading with a known
    /// spot price, runs every model against the tracked market.
    /// `raw_probabilities` are the three models' clamped probabilities for
    /// this tick and `ttl_seconds` the time left on the tracked market.
    pub fn on_tick(&mut self, ttl_seconds: i64, raw_probabilities: &Vec<i64>) -> (r: Result<Vec<EngineAction>, EngineError>)
        requires
            old(self).wf(),
            raw_probabilities.len() == NUM_MODELS,
            forall|i: int| 0 <= i < NUM_MODELS ==> PROB_FLOOR <= #[trigger] raw_probabilities[i] <= PROB_CEIL,
        ensures
            final(self).wf(),
            final(self).tick_counter == (if old(self).tick_counter < u64::MAX { old(self).tick_counter + 1 } else { u64::MAX as int }),
            final(self).state == old(self).state,
            final(self).calibrators@ == old(self).calibrators@,
            r is Err ==> r->Err_0 is StateCorruption && final(self).model_states@ == old(self).model_states@,
            (old(self).state != EngineState::Trading || old(self).btc_price <= 0) ==> r is Ok
                && r->Ok_0@.len() == 0 && final(self).model_states@ == old(self).model_states@,
            (old(self).state == EngineState::Trading && old(self).btc_price > 0 && old(self).active_market is None)
                ==> r is Ok && r->Ok_0@.len() == 0 && forall|i: int| 0 <= i < NUM_MODELS ==> #[trigger] final(self).model_states[i]
                    == (ModelState { unrealized_pnl: 0, ..old(self).model_states[i] }),
            (old(self).state == EngineState::Trading && old(self).btc_price > 0) ==> match old(self).active_market {
                Some(m) => match tick_context(m, old(self).btc_price as int, ttl_seconds as int, final(self).tick_counter) {
                    None => r is Ok && r->Ok_0@.len() == 0 && final(self).model_states@ == old(self).model_states@,
                    Some(c) => (r is Ok <==> all_headroom(old(self).model_states@)),
                },
                None => true,
            },
            (old(self).state == EngineState::Trading && old(self).btc_price > 0) ==> match old(self).active_market {
                Some(m) => match tick_context(m, old(self).btc_price as int, ttl_seconds as int, final(self).tick_counter) {
                    None => true,
                    Some(c) => r is Ok ==> exists|bs: Seq<int>| #[trigger] action_bounds(bs, 0, r->Ok_0@.len() as int)
                        && forall|i: int| 0 <= i < NUM_MODELS ==> tick_post(#[trigger] old(self).model_states[i],
                        final(self).model_states[i], old(self).calibrators[i], c, raw_probabilities[i], old(self).vol.state,
                        old(self).config, m.ticker, r->Ok_0@.take(bs[i]), r->Ok_0@.take(bs[i + 1])),
                },
                None => true,
            },
    {
        if self.tick_counter < u64::MAX {
            self.tick_counter = self.tick_counter + 1;
        }
        if self.state != EngineState::Trading || self.btc_price <= 0 {
            return Ok(Vec::new());
        }
        let mut actions: Vec<EngineAction> = Vec::new();
        let ghost ms_before = self.model_states;
        let res = run_tick(&mut self.model_states, &self.calibrators, &self.vol.state, &self.active_market, self.btc_price,
            &self.config, ttl_seconds, self.tick_counter, raw_probabilities, &mut actions);
        match res {
            Ok(()) => {
                let out: Result<Vec<EngineAction>, EngineError> = Ok(actions);
                proof {
                    assert(out->Ok_0@ == actions@);
                    assert(ms_before == old(self).model_states);
                    match old(self).active_market {
                        Some(m) => match tick_context(m, old(self).btc_price as int, ttl_seconds as int, self.tick_counter) {
                            Some(c) => {
                                let bs = choose|bs: Seq<int>| #[trigger] action_bounds(bs, 0, actions@.len() as int)
                                    && forall|i: int| 0 <= i < NUM_MODELS ==> tick_post(#[trigger] ms_before[i],
                                    self.model_states[i], self.calibrators[i], c, raw_probabilities[i], self.vol.state,
                                    self.config, m.ticker, actions@.take(bs[i]), actions@.take(bs[i + 1]));
                                assert(action_bounds(bs, 0, actions@.len() as int));
                                assert forall|i: int| 0 <= i < NUM_MODELS implies tick_post(#[trigger] old(self).model_states[i],
                                    self.model_states[i], old(self).calibrators[i], c, raw_probabilities[i], old(self).vol.state,
                                    old(self).config, m.ticker, actions@.take(bs[i]), actions@.take(bs[i + 1])) by {
                                    assert(ms_before[i] == old(self).model_states[i]);
                                    assert(tick_post(ms_before[i], self.model_states[i], self.calibrators[i], c, raw_probabilities[i],
                                        self.vol.state, self.config, m.ticker, actions@.take(bs[i]), actions@.take(bs[i + 1])));
                                }
                                assert(exists|bs: Seq<int>| #[trigger] action_bounds(bs, 0, out->Ok_0@.len() as int)
                                    && forall|i: int| 0 <= i < NUM_MODELS ==> tick_post(#[trigger] old(self).model_states[i],
                                    self.model_states[i], old(self).calibrators[i], c, raw_probabilities[i], old(self).vol.state,
                                    old(self).config, m.ticker, out->Ok_0@.take(bs[i]), out->Ok_0@.take(bs[i + 1])));
                            },
                            None => {},
                        },
                        None => {},
                    }
                }
                out
            },
            Err(e) => Err(e),
        }
    }

    /// Shutdown or unrecoverable corruption: no further position actions.
    pub fn halt(&mut self)
        ensures
            final(self).state == EngineState::Halted,
            final(self).model_states@ == old(self).model_states@,
            final(self).calibrators@ == old(self).calibrators@,
            final(self).config == old(self).config,
    {
        self.state = EngineState::Halted;
    }
}

/// Name of the model at `i`: Black-Scholes, Jump-Diffusion, Student-t.
pub fn model_name(i: usize) -> (r: String)
    requires
        i < NUM_MODELS,
    ensures
        r@ == (if i == 0 { "Black-Scholes"@ } else if i == 1 { "Jump-Diffusion"@ } else { "Student-t"@ }),
{
    if i == 0 {
        "Black-Scholes".to_string()
    } else if i == 1 {
        "Jump-Diffusion".to_string()
    } else {
        "Student-t".to_string()
    }
}

} // verus!
