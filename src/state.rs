//! Engine lifecycle, volatility regime, open positions and per-model state.
use vstd::prelude::*;
use crate::fixed::{SCALE, MAX_CONTRACTS, MAX_SPOT, is_isqrt, isqrt, lemma_prod2_bound, lemma_div_bounds, div_floor};
use crate::positions::{Positions, positions_of, positions_new, positions_len, positions_get, positions_push};

verus! {

/// Lifecycle of the engine.
#[derive(Debug, Clone, Copy, PartialEq, Eq, Structural)]
pub enum EngineState {
    Connecting,
    Syncing,
    Trading,
    Halted,
}

impl EngineState {
    /// Lower-case name of the state, as the dashboard shows it.
    pub fn as_str(&self) -> (r: &'static str)
        ensures
            r@ == (match *self {
                EngineState::Connecting => "connecting"@,
                EngineState::Syncing => "syncing"@,
                EngineState::Trading => "trading"@,
                EngineState::Halted => "halted"@,
            }),
    {
        match self {
            EngineState::Connecting => "connecting",
            EngineState::Syncing => "syncing",
            EngineState::Trading => "trading",
            EngineState::Halted => "halted",
        }
    }
}

/// Volatility regime: short-window variance against long-window variance.
#[derive(Debug, Clone, Copy, PartialEq, Eq, Structural)]
pub enum VolRegime {
    Low,
    High,
}

impl VolRegime {
    pub fn as_str(&self) -> (r: &'static str)
        ensures
            r@ == (match *self {
                VolRegime::Low => "low"@,
                VolRegime::High => "high"@,
            }),
    {
        match self {
            VolRegime::Low => "low",
            VolRegime::High => "high",
        }
    }
}

/// The volatility estimate. Returns and `ewma_vol` are in units of 1e-8
/// (per two-second sample), `jump_var` in units of 1e-16, the jump
/// intensity (per year) and the Student-t degrees of freedom in millionths.
#[derive(Debug, Clone, Copy)]
pub struct VolatilityState {
    pub ewma_vol: i64,
    pub jump_intensity: i64,
    pub jump_mean: i64,
    pub jump_var: i128,
    pub student_t_nu: i64,
    pub regime: VolRegime,
    pub sample_count: u64,
}

/// Number of returns the estimator needs before it is ready.
pub const MIN_SAMPLES: u64 = 20;

impl VolatilityState {
    /// The estimate before any observation: sigma 0.01, jump intensity 0.5,
    /// jump variance 1e-4, five degrees of freedom, low regime.
    pub fn new() -> (r: VolatilityState)
        ensures
            r.ewma_vol == 1_000_000,
            r.jump_intensity == 500_000,
            r.jump_mean == 0,
            r.jump_var == 1_000_000_000_000,
            r.student_t_nu == 5_000_000,
            r.regime == VolRegime::Low,
            r.sample_count == 0,
    {
        VolatilityState {
            ewma_vol: 1_000_000,
            jump_intensity: 500_000,
            jump_mean: 0,
            jump_var: 1_000_000_000_000,
            student_t_nu: 5_000_000,
            regime: VolRegime::Low,
            sample_count: 0,
        }
    }

    pub fn is_ready(&self) -> (r: bool)
        ensures
            r == (self.sample_count >= MIN_SAMPLES),
    {
        self.sample_count >= MIN_SAMPLES
    }
}

/// Side of a binary contract.
#[derive(Debug, Clone, Copy, PartialEq, Eq, Structural)]
pub enum Side {
    Yes,
    No,
}

impl Side {
    pub fn as_str(&self) -> (r: &'static str)
        ensures
            r@ == (match *self {
                Side::Yes => "yes"@,
                Side::No => "no"@,
            }),
    {
        match self {
            Side::Yes => "yes",
            Side::No => "no",
        }
    }
}

/// Number of legs (initial entry plus scale-ins) a model may hold.
pub const MAX_LEGS: u32 = 3;

/// A live paper position.
///
/// Prices and the probability are in millionths, `contracts` in millionths of
/// a contract, `entry_btc_price` in millionths of a dollar, and
/// `peak_unrealized` in pico-dollars.
#[derive(Debug)]
pub struct OpenPosition {
    pub trade_id: String,
    pub market_ticker: String,
    pub side: Side,
    pub entry_price: i64,
    pub contracts: i64,
    pub model_probability: i64,
    pub entry_tick: u64,
    pub entry_btc_price: i64,
    pub peak_unrealized: i128,
    pub leg: u32,
}

impl OpenPosition {
    /// A copy of this position with another peak P/L and contract count.
    pub fn with_marks(&self, peak_unrealized: i128, contracts: i64) -> (r: OpenPosition)
        ensures
            r == (OpenPosition { peak_unrealized, contracts, ..*self }),
    {
        OpenPosition {
            trade_id: self.trade_id.clone(),
            market_ticker: self.market_ticker.clone(),
            side: self.side,
            entry_price: self.entry_price,
            contracts,
            model_probability: self.model_probability,
            entry_tick: self.entry_tick,
            entry_btc_price: self.entry_btc_price,
            peak_unrealized,
            leg: self.leg,
        }
    }

    pub open spec fn valid(&self) -> bool {
        &&& 0 <= self.entry_price <= SCALE
        &&& 0 < self.contracts <= MAX_CONTRACTS
        &&& 0 <= self.model_probability <= SCALE
        &&& 0 < self.entry_btc_price <= MAX_SPOT
        &&& 0 <= self.peak_unrealized <= SCALE as int * MAX_CONTRACTS as int
        &&& self.leg < MAX_LEGS
    }
}

/// Bound that every money figure of a model state stays within.
pub const LEDGER_LIMIT: i128 = 0x1000000000000000000000000000000;

/// Bound below which a money figure leaves room for one more tick or
/// settlement.
pub const LEDGER_HEADROOM: i128 = 0x10000000000000000000000000000;

/// Bound below which a trade counter leaves room for one more update.
pub const COUNT_HEADROOM: u64 = 0x1000000000000000;

/// Bound below which a Beta prior counter (in millionths) leaves room for
/// one more update.
pub const PRIOR_HEADROOM: i64 = 999_000_000_000;

/// Largest change of a money figure by one realized trade: 2^64
/// pico-dollars.
pub const PNL_STEP: i128 = 0x1_0000_0000_0000_0000;

/// Most ledger updates one tick or one settlement makes.
pub const MAX_STEPS: u64 = 64;

/// Bound on a recorded per-trade return, in millionths.
pub const RETURN_LIMIT: i64 = 2_000_000_000_000_000;

/// Most per-trade returns kept for the Sharpe ratio.
pub const MAX_RETURNS: usize = 500;

/// Cost floor of a return: $0.01 in pico-dollars.
pub const MIN_RETURN_COST: i128 = 10_000_000_000;

/// Return of a trade on its cost, in millionths, the cost floored at $0.01.
pub open spec fn return_on_cost(pnl: int, cost: int) -> int {
    pnl * SCALE / (if cost > MIN_RETURN_COST { cost } else { MIN_RETURN_COST as int })
}

/// Return of a trade on its cost, in millionths.
pub fn trade_return(pnl: i128, cost: i128) -> (r: i64)
    requires
        -PNL_STEP <= pnl <= PNL_STEP,
    ensures
        r == return_on_cost(pnl as int, cost as int),
        within(r as int, RETURN_LIMIT as int),
{
    let den: i128 = if cost > MIN_RETURN_COST { cost } else { MIN_RETURN_COST };
    proof {
        assert(-PNL_STEP * SCALE <= pnl * SCALE <= PNL_STEP * SCALE) by (nonlinear_arith)
            requires -PNL_STEP <= pnl <= PNL_STEP;
        assert(-(RETURN_LIMIT as int) * den <= pnl * SCALE <= (RETURN_LIMIT as int) * den) by (nonlinear_arith)
            requires -PNL_STEP * SCALE <= pnl * SCALE <= PNL_STEP * SCALE, den >= MIN_RETURN_COST;
        crate::fixed::lemma_div_bounds(pnl * SCALE, -(RETURN_LIMIT as int), RETURN_LIMIT as int, den as int);
    }
    crate::fixed::div_floor(pnl * SCALE as i128, den) as i64
}

/// Trades per year assumed by the Sharpe ratio: 96 a day.
pub const TRADES_PER_YEAR: u128 = 35_040;

pub open spec fn sum_returns(s: Seq<i64>) -> int
    decreases s.len(),
{
    if s.len() == 0 { 0 } else { sum_returns(s.drop_last()) + s.last() as int }
}

pub open spec fn sq_dev_sum(s: Seq<i64>, mean: int) -> int
    decreases s.len(),
{
    if s.len() == 0 {
        0
    } else {
        sq_dev_sum(s.drop_last(), mean) + (s.last() - mean) * (s.last() - mean)
    }
}

/// Sharpe ratio of returns, in millionths, for a given standard deviation:
/// `mean * sqrt(35040) / std`, zero for fewer than two returns or no spread.
/// The mean, the sample variance and both square roots are rounded down.
pub open spec fn sharpe_with(s: Seq<i64>, sd: int, ann: int) -> int {
    if s.len() < 2 || sd == 0 {
        0
    } else {
        (sum_returns(s) / s.len() as int) * ann / sd
    }
}

pub open spec fn sample_variance(s: Seq<i64>) -> int {
    sq_dev_sum(s, sum_returns(s) / s.len() as int) / (s.len() - 1)
}

proof fn lemma_sum_returns_bound(s: Seq<i64>)
    requires
        forall|i: int| 0 <= i < s.len() ==> within(#[trigger] s[i] as int, RETURN_LIMIT as int),
    ensures
        within(sum_returns(s), s.len() * RETURN_LIMIT as int),
    decreases s.len(),
{
    if s.len() > 0 {
        assert(within(s[s.len() - 1] as int, RETURN_LIMIT as int));
        lemma_sum_returns_bound(s.drop_last());
    }
}

proof fn lemma_sq_dev_bound(s: Seq<i64>, mean: int)
    requires
        forall|i: int| 0 <= i < s.len() ==> within(#[trigger] s[i] as int, RETURN_LIMIT as int),
        within(mean, RETURN_LIMIT as int),
    ensures
        0 <= sq_dev_sum(s, mean) <= s.len() * (4 * RETURN_LIMIT as int * RETURN_LIMIT as int),
    decreases s.len(),
{
    if s.len() > 0 {
        let x = s[s.len() - 1] as int;
        assert(within(x, RETURN_LIMIT as int));
        lemma_sq_dev_bound(s.drop_last(), mean);
        assert(0 <= (x - mean) * (x - mean) <= 4 * RETURN_LIMIT as int * RETURN_LIMIT as int) by (nonlinear_arith)
            requires within(x, RETURN_LIMIT as int), within(mean, RETURN_LIMIT as int);
    }
}

/// Legs that strictly increase from zero are at least their index.
pub proof fn lemma_leg_index(s: Seq<OpenPosition>, i: int)
    requires
        legs_ordered(s),
        0 <= i < s.len(),
    ensures
        s[i].leg >= i,
    decreases i,
{
    if i > 0 {
        lemma_leg_index(s, i - 1);
        assert(s[i - 1].leg < s[i].leg);
    }
}

/// The return ring after appending `ret`, dropping the oldest beyond 500.
pub open spec fn ring_push(s: Seq<i64>, ret: int) -> Seq<i64> {
    (if s.len() >= MAX_RETURNS { s.drop_first() } else { s }).push(ret as i64)
}

/// `sharpe` is the Sharpe ratio of the returns `s` (see `sharpe_with`).
pub open spec fn sharpe_holds(s: Seq<i64>, sharpe: int) -> bool {
    &&& s.len() < 2 ==> sharpe == 0
    &&& s.len() >= 2 ==> exists|sd: int, ann: int|
        is_isqrt(sd, sample_variance(s)) && is_isqrt(ann, TRADES_PER_YEAR * 1_000_000_000_000)
        && sharpe == sharpe_with(s, sd, ann)
}

/// Equity peak and maximum drawdown after the cumulative P/L reaches `cum`.
pub open spec fn peak_after(peak: int, cum: int) -> int {
    if cum > peak { cum } else { peak }
}

pub open spec fn drawdown_after(dd: int, peak: int, cum: int) -> int {
    if peak_after(peak, cum) - cum > dd { peak_after(peak, cum) - cum } else { dd }
}

/// Per-model trading state.
///
/// Money figures are in pico-dollars; `probability`, `ev`, `kelly_size`,
/// `sharpe`, `brier_score` and the Beta counters are in millionths;
/// `brier_sum` is in millionths squared.
pub struct ModelState {
    pub name: String,
    pub probability: i64,
    pub ev: i64,
    pub kelly_size: i64,
    pub cumulative_pnl: i128,
    pub total_trades: u64,
    pub winning_trades: u64,
    pub sharpe: i128,
    pub max_drawdown: i128,
    pub brier_score: i128,
    pub daily_pnl: i128,
    pub current_exposure: i128,
    pub peak_equity: i128,
    /// Most recent per-trade returns in millionths, oldest first, at most 500.
    pub trade_returns: Vec<i64>,
    pub beta_alpha: i64,
    pub beta_beta: i64,
    pub brier_sum: i128,
    pub brier_count: u64,
    pub unrealized_pnl: i128,
    pub open_positions: Positions,
}

pub open spec fn within(x: int, bound: int) -> bool {
    -bound <= x <= bound
}

/// Legs strictly increase along the list and stay below `MAX_LEGS`.
pub open spec fn legs_ordered(s: Seq<OpenPosition>) -> bool {
    &&& forall|i: int| 0 <= i < s.len() ==> #[trigger] s[i].leg < MAX_LEGS
    &&& forall|i: int, j: int| 0 <= i < j < s.len() ==> s[i].leg < s[j].leg
}

impl ModelState {
    pub open spec fn positions(&self) -> Seq<OpenPosition> {
        positions_of(self.open_positions)
    }

    /// Well-formedness of a model state.
    pub open spec fn wf(&self) -> bool {
        &&& self.positions().len() <= MAX_LEGS
        &&& legs_ordered(self.positions())
        &&& forall|i: int| 0 <= i < self.positions().len() ==> #[trigger] self.positions()[i].valid()
        &&& within(self.cumulative_pnl as int, LEDGER_LIMIT as int)
        &&& within(self.daily_pnl as int, LEDGER_LIMIT as int)
        &&& within(self.unrealized_pnl as int, LEDGER_LIMIT as int)
        &&& 0 <= self.current_exposure <= LEDGER_LIMIT
        &&& 0 <= self.peak_equity <= LEDGER_LIMIT
        &&& 0 <= self.max_drawdown <= 2 * LEDGER_LIMIT
        &&& 0 <= self.brier_sum <= LEDGER_LIMIT
        &&& SCALE <= self.beta_alpha
        &&& SCALE <= self.beta_beta
        &&& self.trade_returns.len() <= 500
        &&& forall|i: int| 0 <= i < self.trade_returns.len() ==> within(#[trigger] self.trade_returns[i] as int, RETURN_LIMIT as int)
    }

    /// Money figures within `m`, counters within `k` updates of their
    /// headroom bounds.
    pub open spec fn room(&self, m: int, k: int) -> bool {
        &&& within(self.cumulative_pnl as int, m)
        &&& within(self.daily_pnl as int, m)
        &&& self.current_exposure <= m
        &&& self.peak_equity <= m
        &&& self.brier_sum <= m
        &&& self.total_trades <= COUNT_HEADROOM + k
        &&& self.winning_trades <= COUNT_HEADROOM + k
        &&& self.brier_count <= COUNT_HEADROOM + k
        &&& self.beta_alpha <= PRIOR_HEADROOM + k * SCALE
        &&& self.beta_beta <= PRIOR_HEADROOM + k * SCALE
    }

    /// Everything but the ledger figures that a realized trade moves.
    pub open spec fn same_but_ledger(&self, o: &ModelState) -> bool {
        &&& self.name == o.name
        &&& self.open_positions == o.open_positions
        &&& self.brier_sum == o.brier_sum
        &&& self.brier_count == o.brier_count
        &&& self.brier_score == o.brier_score
        &&& self.unrealized_pnl == o.unrealized_pnl
        &&& self.probability == o.probability
        &&& self.ev == o.ev
        &&& self.kelly_size == o.kelly_size
        &&& self.total_trades == o.total_trades
    }

    /// Room for one more tick or settlement without leaving the bounds.
    pub open spec fn has_headroom(&self) -> bool {
        self.room(LEDGER_HEADROOM as int, 0)
    }

    /// A fresh state: no trades, Beta prior 20/20, no positions.
    pub fn new(name: String) -> (r: ModelState)
        ensures
            r.wf(),
            r.has_headroom(),
            r.name@ == name@,
            r.positions().len() == 0,
            r.cumulative_pnl == 0 && r.daily_pnl == 0 && r.unrealized_pnl == 0,
            r.current_exposure == 0 && r.peak_equity == 0 && r.max_drawdown == 0,
            r.total_trades == 0 && r.winning_trades == 0,
            r.beta_alpha == 20 * SCALE && r.beta_beta == 20 * SCALE,
            r.brier_sum == 0 && r.brier_count == 0 && r.brier_score == 0,
            r.sharpe == 0 && r.trade_returns@.len() == 0,
    {
        ModelState {
            name,
            probability: 0,
            ev: 0,
            kelly_size: 0,
            cumulative_pnl: 0,
            total_trades: 0,
            winning_trades: 0,
            sharpe: 0,
            max_drawdown: 0,
            brier_score: 0,
            daily_pnl: 0,
            current_exposure: 0,
            peak_equity: 0,
            trade_returns: Vec::new(),
            beta_alpha: 20 * SCALE,
            beta_beta: 20 * SCALE,
            brier_sum: 0,
            brier_count: 0,
            unrealized_pnl: 0,
            open_positions: positions_new(),
        }
    }

    /// Whether the state has room for one more tick or settlement.
    pub fn within_limits(&self) -> (r: bool)
        ensures
            r == self.has_headroom(),
    {
        -LEDGER_HEADROOM <= self.cumulative_pnl && self.cumulative_pnl <= LEDGER_HEADROOM
            && -LEDGER_HEADROOM <= self.daily_pnl && self.daily_pnl <= LEDGER_HEADROOM
            && self.current_exposure <= LEDGER_HEADROOM
            && self.peak_equity <= LEDGER_HEADROOM
            && self.brier_sum <= LEDGER_HEADROOM
            && self.total_trades <= COUNT_HEADROOM
            && self.winning_trades <= COUNT_HEADROOM
            && self.brier_count <= COUNT_HEADROOM
            && self.beta_alpha <= PRIOR_HEADROOM
            && self.beta_beta <= PRIOR_HEADROOM
    }

    /// Books a realized P/L: adds it to the cumulative and daily figures,
    /// releases `released` of exposure (never below zero), and counts a win
    /// (also in the Beta prior) or, when `count_loss`, a loss in the prior.
    pub(crate) fn book_realized(&mut self, pnl: i128, released: i128, won: bool, count_loss: bool, Ghost(m): Ghost<int>, Ghost(k): Ghost<int>)
        requires
            old(self).wf(),
            old(self).room(m, k),
            m + PNL_STEP <= LEDGER_LIMIT,
            k < MAX_STEPS,
            -PNL_STEP <= pnl <= PNL_STEP,
            0 <= released,
        ensures
            final(self).wf(),
            final(self).room(m + PNL_STEP, k + 1),
            final(self).same_but_ledger(old(self)),
            final(self).trade_returns@ == old(self).trade_returns@,
            final(self).peak_equity == old(self).peak_equity,
            final(self).max_drawdown == old(self).max_drawdown,
            final(self).sharpe == old(self).sharpe,
            final(self).cumulative_pnl == old(self).cumulative_pnl + pnl,
            final(self).daily_pnl == old(self).daily_pnl + pnl,
            final(self).current_exposure == (if old(self).current_exposure - released > 0 {
                old(self).current_exposure - released
            } else {
                0
            }),
            final(self).winning_trades == old(self).winning_trades + (if won { 1int } else { 0 }),
            final(self).beta_alpha == old(self).beta_alpha + (if won { SCALE as int } else { 0 }),
            final(self).beta_beta == old(self).beta_beta + (if !won && count_loss { SCALE as int } else { 0 }),
    {
        self.cumulative_pnl = self.cumulative_pnl + pnl;
        self.daily_pnl = self.daily_pnl + pnl;
        let left: i128 = self.current_exposure - released;
        self.current_exposure = if left > 0 { left } else { 0 };
        if won {
            self.winning_trades = self.winning_trades + 1;
            self.beta_alpha = self.beta_alpha + SCALE;
        } else if count_loss {
            self.beta_beta = self.beta_beta + SCALE;
        }
    }

    /// Appends a per-trade return, dropping the oldest beyond 500.
    pub fn record_return(&mut self, ret: i64)
        requires
            old(self).wf(),
            within(ret as int, RETURN_LIMIT as int),
        ensures
            final(self).wf(),
            final(self).trade_returns@ == (if old(self).trade_returns.len() >= MAX_RETURNS {
                old(self).trade_returns@.drop_first()
            } else {
                old(self).trade_returns@
            }).push(ret),
            final(self).same_but_ledger(old(self)),
            final(self).cumulative_pnl == old(self).cumulative_pnl,
            final(self).daily_pnl == old(self).daily_pnl,
            final(self).current_exposure == old(self).current_exposure,
            final(self).peak_equity == old(self).peak_equity,
            final(self).max_drawdown == old(self).max_drawdown,
            final(self).winning_trades == old(self).winning_trades,
            final(self).beta_alpha == old(self).beta_alpha,
            final(self).beta_beta == old(self).beta_beta,
            final(self).sharpe == old(self).sharpe,
    {
        if self.trade_returns.len() >= MAX_RETURNS {
            self.trade_returns.remove(0);
        }
        self.trade_returns.push(ret);
    }

    /// Raises the equity peak to the cumulative P/L and the maximum drawdown
    /// to the distance below that peak.
    pub fn update_drawdown(&mut self)
        requires
            old(self).wf(),
        ensures
            final(self).wf(),
            final(self).same_but_ledger(old(self)),
            final(self).trade_returns@ == old(self).trade_returns@,
            final(self).cumulative_pnl == old(self).cumulative_pnl,
            final(self).daily_pnl == old(self).daily_pnl,
            final(self).current_exposure == old(self).current_exposure,
            final(self).winning_trades == old(self).winning_trades,
            final(self).beta_alpha == old(self).beta_alpha,
            final(self).beta_beta == old(self).beta_beta,
            final(self).sharpe == old(self).sharpe,
            final(self).peak_equity == (if old(self).cumulative_pnl > old(self).peak_equity {
                old(self).cumulative_pnl
            } else {
                old(self).peak_equity
            }),
            final(self).max_drawdown == (if final(self).peak_equity - old(self).cumulative_pnl > old(self).max_drawdown {
                final(self).peak_equity - old(self).cumulative_pnl
            } else {
                old(self).max_drawdown as int
            }),
    {
        if self.cumulative_pnl > self.peak_equity {
            self.peak_equity = self.cumulative_pnl;
        }
        let dd: i128 = self.peak_equity - self.cumulative_pnl;
        if dd > self.max_drawdown {
            self.max_drawdown = dd;
        }
    }

    /// Books a closed trade: its P/L, the exposure it releases, a win or a
    /// loss, its return on cost, the drawdown and the Sharpe ratio.
    pub(crate) fn book_trade(&mut self, pnl: i128, cost: i128, won: bool, count_loss: bool, Ghost(m): Ghost<int>, Ghost(k): Ghost<int>)
        requires
            old(self).wf(),
            old(self).room(m, k),
            m + PNL_STEP <= LEDGER_LIMIT,
            k < MAX_STEPS,
            -PNL_STEP <= pnl <= PNL_STEP,
            0 <= cost,
        ensures
            final(self).wf(),
            final(self).room(m + PNL_STEP, k + 1),
            final(self).same_but_ledger(old(self)),
            final(self).cumulative_pnl == old(self).cumulative_pnl + pnl,
            final(self).daily_pnl == old(self).daily_pnl + pnl,
            final(self).current_exposure == (if old(self).current_exposure - cost > 0 {
                old(self).current_exposure - cost
            } else {
                0
            }),
            final(self).winning_trades == old(self).winning_trades + (if won { 1int } else { 0 }),
            final(self).beta_alpha == old(self).beta_alpha + (if won { SCALE as int } else { 0 }),
            final(self).beta_beta == old(self).beta_beta + (if !won && count_loss { SCALE as int } else { 0 }),
            final(self).trade_returns@.last() == return_on_cost(pnl as int, cost as int),
            final(self).trade_returns@ == ring_push(old(self).trade_returns@, return_on_cost(pnl as int, cost as int)),
            final(self).peak_equity == peak_after(old(self).peak_equity as int, final(self).cumulative_pnl as int),
            final(self).max_drawdown == drawdown_after(old(self).max_drawdown as int, old(self).peak_equity as int,
                final(self).cumulative_pnl as int),
            sharpe_holds(final(self).trade_returns@, final(self).sharpe as int),
    {
        self.book_realized(pnl, cost, won, count_loss, Ghost(m), Ghost(k));
        let ret = trade_return(pnl, cost);
        self.record_return(ret);
        self.update_drawdown();
        self.compute_sharpe();
    }

    /// Brier score as the mean of the recorded squared errors, in
    /// millionths; zero before any record.
    pub fn compute_brier(&mut self)
        requires
            old(self).wf(),
        ensures
            final(self).wf(),
            old(self).brier_count == 0 ==> final(self).brier_score == 0,
            old(self).brier_count > 0 ==> final(self).brier_score as int
                == old(self).brier_sum as int / old(self).brier_count as int / SCALE as int,
            final(self).brier_sum == old(self).brier_sum,
            final(self).brier_count == old(self).brier_count,
            final(self).trade_returns@ == old(self).trade_returns@,
            final(self).cumulative_pnl == old(self).cumulative_pnl,
            final(self).daily_pnl == old(self).daily_pnl,
            final(self).current_exposure == old(self).current_exposure,
            final(self).peak_equity == old(self).peak_equity,
            final(self).max_drawdown == old(self).max_drawdown,
            final(self).winning_trades == old(self).winning_trades,
            final(self).total_trades == old(self).total_trades,
            final(self).beta_alpha == old(self).beta_alpha,
            final(self).beta_beta == old(self).beta_beta,
            final(self).sharpe == old(self).sharpe,
            final(self).open_positions == old(self).open_positions,
            final(self).unrealized_pnl == old(self).unrealized_pnl,
            final(self).name == old(self).name,
    {
        self.brier_score = if self.brier_count == 0 {
            0
        } else {
            self.brier_sum / self.brier_count as i128 / SCALE as i128
        };
    }

    /// Recomputes the Sharpe ratio from the kept per-trade returns.
    pub fn compute_sharpe(&mut self)
        requires
            old(self).wf(),
        ensures
            final(self).wf(),
            final(self).same_but_ledger(old(self)),
            final(self).trade_returns@ == old(self).trade_returns@,
            final(self).cumulative_pnl == old(self).cumulative_pnl,
            final(self).daily_pnl == old(self).daily_pnl,
            final(self).current_exposure == old(self).current_exposure,
            final(self).peak_equity == old(self).peak_equity,
            final(self).max_drawdown == old(self).max_drawdown,
            final(self).winning_trades == old(self).winning_trades,
            final(self).beta_alpha == old(self).beta_alpha,
            final(self).beta_beta == old(self).beta_beta,
            old(self).trade_returns.len() < 2 ==> final(self).sharpe == 0,
            old(self).trade_returns.len() >= 2 ==> exists|sd: int, ann: int|
                is_isqrt(sd, sample_variance(old(self).trade_returns@))
                && is_isqrt(ann, TRADES_PER_YEAR * 1_000_000_000_000)
                && final(self).sharpe == sharpe_with(old(self).trade_returns@, sd, ann),
            sharpe_holds(final(self).trade_returns@, final(self).sharpe as int),
    {
        let n = self.trade_returns.len();
        if n < 2 {
            self.sharpe = 0;
            return;
        }
        let ghost s = self.trade_returns@;
        let mut total: i128 = 0;
        let mut i: usize = 0;
        while i < n
            invariant
                s == self.trade_returns@,
                n == s.len(),
                n <= MAX_RETURNS,
                i <= n,
                self.wf(),
                total == sum_returns(s.take(i as int)),
            decreases n - i,
        {
            proof {
                assert(s.take(i as int + 1).drop_last() =~= s.take(i as int));
                lemma_sum_returns_bound(s.take(i as int));
                assert(within(s[i as int] as int, RETURN_LIMIT as int));
            }
            total = total + self.trade_returns[i] as i128;
            i = i + 1;
        }
        proof {
            assert(s.take(n as int) =~= s);
            lemma_sum_returns_bound(s);
            lemma_div_bounds(total as int, -(RETURN_LIMIT as int), RETURN_LIMIT as int, n as int);
            assert(-(RETURN_LIMIT as int) * n <= total <= (RETURN_LIMIT as int) * n) by (nonlinear_arith)
                requires within(total as int, n * RETURN_LIMIT as int);
        }
        let mean: i128 = div_floor(total, n as i128);
        let mut dev: i128 = 0;
        let mut j: usize = 0;
        while j < n
            invariant
                s == self.trade_returns@,
                n == s.len(),
                n <= MAX_RETURNS,
                j <= n,
                self.wf(),
                within(mean as int, RETURN_LIMIT as int),
                dev == sq_dev_sum(s.take(j as int), mean as int),
            decreases n - j,
        {
            let x: i128 = self.trade_returns[j] as i128;
            proof {
                assert(s.take(j as int + 1).drop_last() =~= s.take(j as int));
                lemma_sq_dev_bound(s.take(j as int), mean as int);
                assert(within(x as int, RETURN_LIMIT as int));
                assert(0 <= (x - mean) * (x - mean) <= 4 * RETURN_LIMIT as int * RETURN_LIMIT as int) by (nonlinear_arith)
                    requires within(x as int, RETURN_LIMIT as int), within(mean as int, RETURN_LIMIT as int);
            }
            dev = dev + (x - mean) * (x - mean);
            j = j + 1;
        }
        proof {
            assert(s.take(n as int) =~= s);
            lemma_sq_dev_bound(s, mean as int);
            assert(dev <= (4 * RETURN_LIMIT as int * RETURN_LIMIT as int * 500) * (n - 1)) by (nonlinear_arith)
                requires dev <= n * (4 * RETURN_LIMIT as int * RETURN_LIMIT as int), 2 <= n <= 500;
            lemma_div_bounds(dev as int, 0, 4 * RETURN_LIMIT as int * RETURN_LIMIT as int * 500, (n - 1) as int);
        }
        let var: i128 = dev / (n as i128 - 1);
        let sd: u128 = isqrt(var as u128);
        let ann: u128 = isqrt(TRADES_PER_YEAR * 1_000_000_000_000);
        if sd == 0 {
            self.sharpe = 0;
            proof {
                assert(is_isqrt(sd as int, sample_variance(s)));
                assert(self.sharpe == sharpe_with(s, sd as int, ann as int));
            }
            return;
        }
        proof {
            assert(ann <= 200_000_000) by (nonlinear_arith)
                requires ann * ann <= TRADES_PER_YEAR * 1_000_000_000_000, ann >= 0;
            assert(-(RETURN_LIMIT as int) * 200_000_000 <= mean * ann <= (RETURN_LIMIT as int) * 200_000_000) by (nonlinear_arith)
                requires within(mean as int, RETURN_LIMIT as int), 0 <= ann <= 200_000_000;
            assert(sd <= 0x1000_0000_0000_0000) by (nonlinear_arith)
                requires sd * sd <= var, var <= 0x100_0000_0000_0000_0000_0000_0000_0000, sd >= 0;
        }
        self.sharpe = div_floor(mean * ann as i128, sd as i128);
        proof {
            assert(is_isqrt(sd as int, sample_variance(s)));
            assert(self.sharpe == sharpe_with(s, sd as int, ann as int));
        }
    }

    /// Adds a position held elsewhere (restored from storage), above the
    /// highest leg held.
    pub fn push_position(&mut self, p: OpenPosition)
        requires
            old(self).wf(),
            p.valid(),
            old(self).positions().len() == 0 || old(self).positions().last().leg < p.leg,
        ensures
            final(self).wf(),
            final(self).positions() == old(self).positions().push(p),
            final(self).current_exposure == old(self).current_exposure,
            final(self).cumulative_pnl == old(self).cumulative_pnl,
    {
        let ghost s = self.positions();
        proof {
            if s.len() > 0 {
                assert forall|a: int| 0 <= a < s.len() implies #[trigger] s[a].leg <= s[s.len() - 1].leg by {
                    if a < s.len() - 1 {
                        assert(s[a].leg < s[s.len() - 1].leg);
                    }
                }
                lemma_leg_index(s, s.len() - 1);
            }
        }
        positions_push(&mut self.open_positions, p);
        proof {
            let s1 = self.positions();
            assert forall|a: int| 0 <= a < s1.len() implies #[trigger] s1[a].valid() by {
                if a < s.len() {
                    assert(s[a].valid());
                }
            }
            assert forall|a: int, b: int| 0 <= a < b < s1.len() implies s1[a].leg < s1[b].leg by {
                if b < s.len() {
                    assert(s[a].leg < s[b].leg);
                } else {
                    assert(s[a].leg <= s[s.len() - 1].leg);
                }
            }
            assert forall|a: int| 0 <= a < s1.len() implies #[trigger] s1[a].leg < MAX_LEGS by {
                if a < s.len() {
                    assert(s[a].leg < MAX_LEGS);
                }
            }
            if s1.len() > 3 {
                lemma_leg_index(s1, s1.len() - 1);
            }
        }
    }

    /// Number of open positions.
    pub fn position_count(&self) -> (r: usize)
        ensures
            r == self.positions().len(),
    {
        positions_len(&self.open_positions)
    }

    /// The open position at `i`.
    pub fn position(&self, i: usize) -> (r: &OpenPosition)
        requires
            i < self.positions().len(),
        ensures
            *r == self.positions()[i as int],
    {
        positions_get(&self.open_positions, i)
    }

    /// Winning trades per trade, in millionths; zero before any trade.
    /// Partial exits count as wins without counting as trades, so the rate
    /// may exceed one.
    pub fn win_rate(&self) -> (r: u128)
        ensures
            self.total_trades == 0 ==> r == 0,
            self.total_trades > 0 ==> r as int == self.winning_trades as int * SCALE as int / self.total_trades as int,
    {
        if self.total_trades == 0 {
            return 0;
        }
        proof {
            crate::fixed::lemma_prod2_bound(self.winning_trades as int, SCALE as int, u64::MAX as int, SCALE as int);
        }
        let w: u128 = self.winning_trades as u128 * SCALE as u128;
        w / self.total_trades as u128
    }
}

} // verus!
