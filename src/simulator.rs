//! The per-tick position-management state machine and settlement.
//!
//! Each tick runs four phases per model: mark-to-market, priority-ordered
//! exits, scale-in, and new entry. Spot prices and distances are in
//! millionths of a dollar, prices and contract counts in millionths, money in
//! pico-dollars.
use vstd::prelude::*;
use crate::fixed::{SCALE, MAX_CONTRACTS, MAX_SPOT};
use crate::state::{OpenPosition, Side, ModelState, legs_ordered, MAX_LEGS, PNL_STEP, LEDGER_LIMIT, MAX_STEPS};
use crate::positions::{positions_len, positions_get, positions_set, positions_remove, positions_push};
use crate::state::{VolatilityState, LEDGER_HEADROOM, lemma_leg_index};
use crate::limits::{check_risk_limits, risk_decision, RiskCheck};
use crate::ev::{EvParams, EvResult, compute_ev};
use crate::kelly::{KellyParams, KellyResult, compute_kelly, kelly_holds};
use crate::calibration::Calibrator;

verus! {

/// Spot must cross the strike against a position by $25 to force an exit.
pub const STRIKE_CROSS_BUFFER: i64 = 25_000_000;
/// Spot must move $75 in favour of the first position before a scale-in.
pub const SCALE_IN_MOVE: i64 = 75_000_000;
/// Time exits apply with less than this many seconds to close.
pub const UNCERTAIN_EXIT_SECONDS: i64 = 240;
/// Spot must be this far from the strike ($200) to hold to resolution.
pub const RESOLUTION_HOLD_DISTANCE: i64 = 200_000_000;
/// Holding to resolution applies with less than this many seconds to close.
pub const RESOLUTION_HOLD_SECONDS: i64 = 120;
/// Positions younger than this many ticks only exit on a strike cross.
pub const MIN_HOLD_TICKS: u64 = 5;
/// No entry or scale-in with this many seconds to close or fewer.
pub const MIN_ENTRY_TTL: i64 = 300;
/// Exit price floor: $0.01.
pub const MIN_EXIT_PRICE: i64 = 10_000;

/// What one tick sees of the market.
#[derive(Debug, Clone, Copy)]
pub struct TickContext {
    /// Spot price, in millionths of a dollar.
    pub spot: i64,
    /// Strike, in millionths of a dollar.
    pub strike: i64,
    /// YES bid and ask, in millionths.
    pub yes_bid: i64,
    pub yes_ask: i64,
    /// Seconds until the market closes.
    pub ttl_seconds: i64,
    /// Engine tick counter.
    pub tick_counter: u64,
}

impl TickContext {
    pub open spec fn valid(&self) -> bool {
        &&& 0 < self.spot <= MAX_SPOT
        &&& 0 < self.strike <= MAX_SPOT
        &&& 0 <= self.yes_bid <= SCALE
        &&& 0 < self.yes_ask < SCALE
        &&& 0 < self.ttl_seconds
    }
}

/// Why a position was closed.
#[derive(Debug, Clone, Copy, PartialEq, Eq, Structural)]
pub enum ExitReason {
    StrikeCross,
    StopLoss,
    TrailingStop,
    TakeProfit,
    TimeExit,
}

impl ExitReason {
    /// The reason as storage records it.
    pub fn as_str(&self) -> (r: &'static str)
        ensures
            r@ == (match *self {
                ExitReason::StrikeCross => "strike_cross"@,
                ExitReason::StopLoss => "stop_loss"@,
                ExitReason::TrailingStop => "trailing_stop"@,
                ExitReason::TakeProfit => "take_profit"@,
                ExitReason::TimeExit => "time_exit"@,
            }),
    {
        match self {
            ExitReason::StrikeCross => "strike_cross",
            ExitReason::StopLoss => "stop_loss",
            ExitReason::TrailingStop => "trailing_stop",
            ExitReason::TakeProfit => "take_profit",
            ExitReason::TimeExit => "time_exit",
        }
    }
}

/// Outcome of the exit rules for one position.
#[derive(Debug, Clone, Copy, PartialEq, Eq, Structural)]
pub enum ExitDecision {
    Hold,
    Partial,
    Full(ExitReason),
}

/// Price at which a position on `side` could be sold now.
pub open spec fn bid_for(side: Side, yes_bid: int, yes_ask: int) -> int {
    match side {
        Side::Yes => yes_bid,
        Side::No => SCALE - yes_ask,
    }
}

/// Mark-to-market P/L of a position, in pico-dollars.
pub open spec fn unrealized_of(p: OpenPosition, ctx: TickContext) -> int {
    (bid_for(p.side, ctx.yes_bid as int, ctx.yes_ask as int) - p.entry_price) * p.contracts
}

/// Sum of the mark-to-market P/L of a list of positions.
pub open spec fn total_unrealized(s: Seq<OpenPosition>, ctx: TickContext) -> int
    decreases s.len(),
{
    if s.len() == 0 {
        0
    } else {
        total_unrealized(s.drop_last(), ctx) + unrealized_of(s.last(), ctx)
    }
}

pub open spec fn ticks_held(p: OpenPosition, tick: u64) -> int {
    if tick >= p.entry_tick { tick - p.entry_tick } else { 0 }
}

/// The exit rules in priority order; the first that matches decides.
pub open spec fn exit_rule(p: OpenPosition, ctx: TickContext) -> ExitDecision {
    let cost = p.entry_price * p.contracts;
    let unr = unrealized_of(p, ctx);
    let spot = ctx.spot as int;
    let strike = ctx.strike as int;
    let on_right = match p.side {
        Side::Yes => spot > strike,
        Side::No => spot < strike,
    };
    let strongly_winning = spot - strike > RESOLUTION_HOLD_DISTANCE || strike - spot > RESOLUTION_HOLD_DISTANCE;
    if (p.side == Side::Yes && spot < strike - STRIKE_CROSS_BUFFER) || (p.side == Side::No && spot > strike
        + STRIKE_CROSS_BUFFER) {
        ExitDecision::Full(ExitReason::StrikeCross)
    } else if ticks_held(p, ctx.tick_counter) < MIN_HOLD_TICKS {
        ExitDecision::Hold
    } else if cost > 0 && 10 * unr < -7 * cost {
        ExitDecision::Full(ExitReason::StopLoss)
    } else if 10 * p.peak_unrealized > cost && 2 * unr < p.peak_unrealized {
        ExitDecision::Full(ExitReason::TrailingStop)
    } else if cost > 0 && 10 * unr > 8 * cost {
        ExitDecision::Full(ExitReason::TakeProfit)
    } else if cost > 0 && 10 * unr > 4 * cost && p.contracts > 3 * SCALE / 2 && p.leg == 0 {
        ExitDecision::Partial
    } else if ctx.ttl_seconds < UNCERTAIN_EXIT_SECONDS {
        if ctx.ttl_seconds < RESOLUTION_HOLD_SECONDS && on_right && strongly_winning {
            ExitDecision::Hold
        } else if !on_right || !strongly_winning {
            ExitDecision::Full(ExitReason::TimeExit)
        } else {
            ExitDecision::Hold
        }
    } else {
        ExitDecision::Hold
    }
}

/// Current bid for a side.
pub fn current_bid(side: Side, ctx: &TickContext) -> (r: i64)
    requires
        ctx.valid(),
    ensures
        r == bid_for(side, ctx.yes_bid as int, ctx.yes_ask as int),
        0 <= r <= SCALE,
{
    match side {
        Side::Yes => ctx.yes_bid,
        Side::No => SCALE - ctx.yes_ask,
    }
}

/// Mark-to-market P/L of one position.
pub fn unrealized(p: &OpenPosition, ctx: &TickContext) -> (r: i128)
    requires
        ctx.valid(),
        p.valid(),
    ensures
        r == unrealized_of(*p, *ctx),
        -(SCALE as int) * MAX_CONTRACTS <= r <= SCALE as int * MAX_CONTRACTS,
{
    let bid = current_bid(p.side, ctx);
    proof {
        let d = bid - p.entry_price;
        assert(-(SCALE as int) * MAX_CONTRACTS <= d * p.contracts <= SCALE as int * MAX_CONTRACTS) by (nonlinear_arith)
            requires -SCALE <= d <= SCALE, 0 < p.contracts <= MAX_CONTRACTS;
    }
    (bid as i128 - p.entry_price as i128) * p.contracts as i128
}

/// Applies the exit rules to one position.
pub fn exit_decision(p: &OpenPosition, ctx: &TickContext) -> (r: ExitDecision)
    requires
        ctx.valid(),
        p.valid(),
    ensures
        r == exit_rule(*p, *ctx),
{
    let spot = ctx.spot;
    let strike = ctx.strike;
    let crossed = match p.side {
        Side::Yes => spot < strike - STRIKE_CROSS_BUFFER,
        Side::No => spot > strike + STRIKE_CROSS_BUFFER,
    };
    if crossed {
        return ExitDecision::Full(ExitReason::StrikeCross);
    }
    let held: u64 = if ctx.tick_counter >= p.entry_tick { ctx.tick_counter - p.entry_tick } else { 0 };
    if held < MIN_HOLD_TICKS {
        return ExitDecision::Hold;
    }
    proof {
        crate::fixed::lemma_prod2_bound(p.entry_price as int, p.contracts as int, SCALE as int, MAX_CONTRACTS as int);
    }
    let cost: i128 = p.entry_price as i128 * p.contracts as i128;
    let unr: i128 = unrealized(p, ctx);
    if cost > 0 && 10 * unr < -7 * cost {
        return ExitDecision::Full(ExitReason::StopLoss);
    }
    if 10 * p.peak_unrealized > cost && 2 * unr < p.peak_unrealized {
        return ExitDecision::Full(ExitReason::TrailingStop);
    }
    if cost > 0 && 10 * unr > 8 * cost {
        return ExitDecision::Full(ExitReason::TakeProfit);
    }
    if cost > 0 && 10 * unr > 4 * cost && p.contracts > 3 * SCALE / 2 && p.leg == 0 {
        return ExitDecision::Partial;
    }
    if ctx.ttl_seconds < UNCERTAIN_EXIT_SECONDS {
        let on_right = match p.side {
            Side::Yes => spot > strike,
            Side::No => spot < strike,
        };
        let strongly_winning = spot - strike > RESOLUTION_HOLD_DISTANCE || strike - spot > RESOLUTION_HOLD_DISTANCE;
        if ctx.ttl_seconds < RESOLUTION_HOLD_SECONDS && on_right && strongly_winning {
            return ExitDecision::Hold;
        }
        if !on_right || !strongly_winning {
            return ExitDecision::Full(ExitReason::TimeExit);
        }
    }
    ExitDecision::Hold
}

proof fn lemma_total_take(s: Seq<OpenPosition>, i: int, ctx: TickContext)
    requires
        0 <= i < s.len(),
    ensures
        total_unrealized(s.take(i + 1), ctx) == total_unrealized(s.take(i), ctx) + unrealized_of(s[i], ctx),
{
    assert(s.take(i + 1).drop_last() =~= s.take(i));
}

proof fn lemma_total_bound(s: Seq<OpenPosition>, ctx: TickContext)
    requires
        ctx.valid(),
        forall|i: int| 0 <= i < s.len() ==> #[trigger] s[i].valid(),
    ensures
        -(s.len() as int) * (SCALE as int * MAX_CONTRACTS) <= total_unrealized(s, ctx) <= s.len() as int * (SCALE as int * MAX_CONTRACTS),
    decreases s.len(),
{
    if s.len() > 0 {
        let n = s.len() - 1;
        assert(s[n].valid());
        lemma_total_bound(s.drop_last(), ctx);
        let p = s[n];
        let d = bid_for(p.side, ctx.yes_bid as int, ctx.yes_ask as int) - p.entry_price;
        assert(-(SCALE as int) * MAX_CONTRACTS <= d * p.contracts <= SCALE as int * MAX_CONTRACTS) by (nonlinear_arith)
            requires -SCALE <= d <= SCALE, 0 < p.contracts <= MAX_CONTRACTS;
    }
}

/// Sum of the mark-to-market P/L of the open positions.
pub fn sum_unrealized(state: &ModelState, ctx: &TickContext) -> (r: i128)
    requires
        state.wf(),
        ctx.valid(),
    ensures
        r == total_unrealized(state.positions(), *ctx),
{
    let n = state.position_count();
    let ghost s = state.positions();
    let mut total: i128 = 0;
    let mut i: usize = 0;
    while i < n
        invariant
            n == s.len(),
            s == state.positions(),
            state.wf(),
            ctx.valid(),
            i <= n,
            total == total_unrealized(s.take(i as int), *ctx),
            -(i as int) * 1_000_000_000_000_000_000 <= total <= i as int * 1_000_000_000_000_000_000,
        decreases n - i,
    {
        let p = state.position(i);
        proof {
            assert(s[i as int].valid());
        }
        let u = unrealized(p, ctx);
        proof {
            lemma_total_take(s, i as int, *ctx);
        }
        total = total + u;
        i = i + 1;
    }
    assert(s.take(n as int) =~= s);
    total
}

/// A position with its peak P/L raised to its current mark.
pub open spec fn marked(p: OpenPosition, ctx: TickContext) -> OpenPosition {
    if unrealized_of(p, ctx) > p.peak_unrealized {
        OpenPosition { peak_unrealized: unrealized_of(p, ctx) as i128, ..p }
    } else {
        p
    }
}

/// Phase 1: raises each position's peak P/L to its current mark and sets
/// the model's unrealized P/L to the sum of the marks.
pub fn mark_to_market(state: &mut ModelState, ctx: &TickContext)
    requires
        old(state).wf(),
        ctx.valid(),
    ensures
        final(state).wf(),
        final(state).positions().len() == old(state).positions().len(),
        forall|i: int| 0 <= i < old(state).positions().len() ==> #[trigger] final(state).positions()[i] == marked(old(state).positions()[i], *ctx),
        final(state).unrealized_pnl == total_unrealized(final(state).positions(), *ctx),
        final(state).cumulative_pnl == old(state).cumulative_pnl,
        final(state).daily_pnl == old(state).daily_pnl,
        final(state).current_exposure == old(state).current_exposure,
        final(state).peak_equity == old(state).peak_equity,
        final(state).max_drawdown == old(state).max_drawdown,
        final(state).total_trades == old(state).total_trades,
        final(state).winning_trades == old(state).winning_trades,
        final(state).beta_alpha == old(state).beta_alpha,
        final(state).beta_beta == old(state).beta_beta,
        final(state).brier_sum == old(state).brier_sum,
        final(state).brier_count == old(state).brier_count,
        final(state).trade_returns@ == old(state).trade_returns@,
        final(state).name == old(state).name,
        *final(state) == (ModelState {
            open_positions: final(state).open_positions,
            unrealized_pnl: final(state).unrealized_pnl,
            ..*old(state)
        }),
{
    let n = positions_len(&state.open_positions);
    let ghost s0 = state.positions();
    let mut i: usize = 0;
    while i < n
        invariant
            n == s0.len(),
            old(state).positions() == s0,
            state.positions().len() == n,
            i <= n,
            ctx.valid(),
            state.cumulative_pnl == old(state).cumulative_pnl,
            state.daily_pnl == old(state).daily_pnl,
            state.current_exposure == old(state).current_exposure,
            state.peak_equity == old(state).peak_equity,
            state.max_drawdown == old(state).max_drawdown,
            state.total_trades == old(state).total_trades,
            state.winning_trades == old(state).winning_trades,
            state.beta_alpha == old(state).beta_alpha,
            state.beta_beta == old(state).beta_beta,
            state.brier_sum == old(state).brier_sum,
            state.brier_count == old(state).brier_count,
            state.trade_returns@ == old(state).trade_returns@,
            state.name == old(state).name,
            state.unrealized_pnl == old(state).unrealized_pnl,
            *state == (ModelState { open_positions: state.open_positions, ..*old(state) }),
            old(state).wf(),
            forall|k: int| i <= k < n ==> #[trigger] state.positions()[k] == s0[k],
            forall|k: int| 0 <= k < i ==> #[trigger] state.positions()[k] == marked(s0[k], *ctx),
        decreases n - i,
    {
        let p = positions_get(&state.open_positions, i);
        proof {
            assert(s0[i as int].valid());
        }
        let u = unrealized(p, ctx);
        if u > p.peak_unrealized {
            let q = p.with_marks(u, p.contracts);
            positions_set(&mut state.open_positions, i, q);
        }
        i = i + 1;
    }
    proof {
        let s1 = state.positions();
        assert forall|k: int| 0 <= k < n implies #[trigger] s1[k].valid() by {
            assert(s0[k].valid());
            let p = s0[k];
            let d = bid_for(p.side, ctx.yes_bid as int, ctx.yes_ask as int) - p.entry_price;
            assert(d * p.contracts <= SCALE as int * MAX_CONTRACTS) by (nonlinear_arith)
                requires -SCALE <= d <= SCALE, 0 < p.contracts <= MAX_CONTRACTS;
        }
        assert forall|k: int| 0 <= k < n implies unrealized_of(#[trigger] s1[k], *ctx) == unrealized_of(s0[k], *ctx) by {}
        assert forall|k: int| 0 <= k < n implies #[trigger] s1[k].leg == s0[k].leg by {}
        assert(legs_ordered(s0));
        assert(legs_ordered(s1));
    }
    let total = sum_unrealized(state, ctx);
    proof {
        lemma_total_bound(state.positions(), *ctx);
    }
    state.unrealized_pnl = total;
}

/// What the engine asks the outside world to record or broadcast.
#[derive(Debug)]
pub enum EngineAction {
    /// A new paper position: an entry (`scale_in` false) or a scale-in.
    PlaceTrade {
        id: String,
        model_name: String,
        market_ticker: String,
        side: Side,
        scale_in: bool,
        price: i64,
        contracts: i64,
        probability: i64,
        ev: i64,
        kelly_fraction: i64,
    },
    /// Part of a position sold at a profit.
    PartialExit {
        trade_id: String,
        model_name: String,
        market_ticker: String,
        side: Side,
        exit_price: i64,
        contracts: i64,
        fee: i128,
        pnl: i128,
        probability: i64,
    },
    /// A position closed in full.
    ExitTrade {
        trade_id: String,
        model_name: String,
        side: Side,
        entry_price: i64,
        exit_price: i64,
        contracts: i64,
        pnl: i128,
        reason: ExitReason,
    },
    /// A position settled by the market's resolution.
    SettleTrade {
        trade_id: String,
        model_name: String,
        won: bool,
        pnl: i128,
    },
}

/// `b` starts with `a`.
pub open spec fn extends<A>(a: Seq<A>, b: Seq<A>) -> bool {
    a.len() <= b.len() && b.subrange(0, a.len() as int) == a
}

/// The action reporting the full exit of `p` by model `name`.
pub open spec fn exit_action(p: OpenPosition, ctx: TickContext, name: String, reason: ExitReason) -> EngineAction {
    EngineAction::ExitTrade {
        trade_id: p.trade_id,
        model_name: name,
        side: p.side,
        entry_price: p.entry_price,
        exit_price: exit_price_for(p.side, ctx) as i64,
        contracts: p.contracts,
        pnl: exit_pnl(p.entry_price as int, exit_price_for(p.side, ctx), p.contracts as int) as i128,
        reason,
    }
}

/// Return ring, cumulative P/L, equity peak and maximum drawdown of a state.
pub open spec fn ledger_of(st: ModelState) -> (Seq<i64>, int, int, int) {
    (st.trade_returns@, st.cumulative_pnl as int, st.peak_equity as int, st.max_drawdown as int)
}

/// The ledger after booking a trade of P/L `pnl` on cost `cost`.
pub open spec fn book_step(l: (Seq<i64>, int, int, int), pnl: int, cost: int) -> (Seq<i64>, int, int, int) {
    let c2 = l.1 + pnl;
    (crate::state::ring_push(l.0, crate::state::return_on_cost(pnl, cost)), c2,
        crate::state::peak_after(l.2, c2), crate::state::drawdown_after(l.3, l.2, c2))
}

/// The ledger after the partial exits (`partial`) or the full exits of `s`,
/// the last position first.
pub open spec fn exits_ledger(l: (Seq<i64>, int, int, int), s: Seq<OpenPosition>, ctx: TickContext, partial: bool)
    -> (Seq<i64>, int, int, int)
    decreases s.len(),
{
    if s.len() == 0 {
        l
    } else {
        let m = exits_ledger(l, s.drop_first(), ctx, partial);
        let q = s[0];
        let price = exit_price_for(q.side, ctx);
        if partial && partial_due(q, ctx) {
            let sold = partial_size(q.contracts as int);
            book_step(m, exit_pnl(q.entry_price as int, price, sold), q.entry_price * sold)
        } else if !partial && exit_rule(q, ctx) is Full {
            book_step(m, exit_pnl(q.entry_price as int, price, q.contracts as int), q.entry_price * q.contracts)
        } else {
            m
        }
    }
}

/// Number of partial exits, and of full exits, the rules call for on `s`.
pub open spec fn count_partial(s: Seq<OpenPosition>, ctx: TickContext) -> int
    decreases s.len(),
{
    if s.len() == 0 { 0 } else { count_partial(s.drop_first(), ctx) + if partial_due(s[0], ctx) { 1int } else { 0 } }
}

pub open spec fn count_full(s: Seq<OpenPosition>, ctx: TickContext) -> int
    decreases s.len(),
{
    if s.len() == 0 { 0 } else { count_full(s.drop_first(), ctx) + if exit_rule(s[0], ctx) is Full { 1int } else { 0 } }
}

proof fn lemma_ledger_step(s: Seq<OpenPosition>, j: int, ctx: TickContext, l: (Seq<i64>, int, int, int), partial: bool)
    requires
        0 <= j < s.len(),
    ensures
        exits_ledger(l, s.skip(j), ctx, partial) == ({
            let m = exits_ledger(l, s.skip(j + 1), ctx, partial);
            let q = s[j];
            let price = exit_price_for(q.side, ctx);
            if partial && partial_due(q, ctx) {
                let sold = partial_size(q.contracts as int);
                book_step(m, exit_pnl(q.entry_price as int, price, sold), q.entry_price * sold)
            } else if !partial && exit_rule(q, ctx) is Full {
                book_step(m, exit_pnl(q.entry_price as int, price, q.contracts as int), q.entry_price * q.contracts)
            } else {
                m
            }
        }),
        count_partial(s.skip(j), ctx) == count_partial(s.skip(j + 1), ctx) + if partial_due(s[j], ctx) { 1int } else { 0 },
        count_full(s.skip(j), ctx) == count_full(s.skip(j + 1), ctx) + if exit_rule(s[j], ctx) is Full { 1int } else { 0 },
        count_partial(s.skip(j), ctx) >= 0,
        count_full(s.skip(j), ctx) >= 0,
        count_partial(s.skip(j + 1), ctx) >= 0,
        count_full(s.skip(j + 1), ctx) >= 0,
{
    assert(s.skip(j).drop_first() =~= s.skip(j + 1));
    assert(s.skip(j)[0] == s[j]);
    lemma_counts_nonneg(s.skip(j + 1), ctx);
}

proof fn lemma_counts_nonneg(s: Seq<OpenPosition>, ctx: TickContext)
    ensures
        count_partial(s, ctx) >= 0,
        count_full(s, ctx) >= 0,
    decreases s.len(),
{
    if s.len() > 0 {
        lemma_counts_nonneg(s.drop_first(), ctx);
    }
}

/// Partial exit of `p` is due and leaves some contracts.
pub open spec fn partial_due(p: OpenPosition, ctx: TickContext) -> bool {
    exit_rule(p, ctx) == ExitDecision::Partial && partial_size(p.contracts as int) < p.contracts
}

/// The action reporting the partial exit of `p`.
pub open spec fn partial_action(p: OpenPosition, ctx: TickContext, name: String, ticker: String, prob: i64) -> EngineAction {
    let sold = partial_size(p.contracts as int);
    let price = exit_price_for(p.side, ctx);
    EngineAction::PartialExit {
        trade_id: p.trade_id,
        model_name: name,
        market_ticker: ticker,
        side: p.side,
        exit_price: price as i64,
        contracts: sold as i64,
        fee: exit_fee(price, sold) as i128,
        pnl: exit_pnl(p.entry_price as int, price, sold) as i128,
        probability: prob,
    }
}

/// The action reporting a new position `q`.
pub open spec fn place_action(q: OpenPosition, name: String, scale_in: bool, prob: i64, ev: i64, kelly_fraction: i64) -> EngineAction {
    EngineAction::PlaceTrade {
        id: q.trade_id,
        model_name: name,
        market_ticker: q.market_ticker,
        side: q.side,
        scale_in,
        price: q.entry_price,
        contracts: q.contracts,
        probability: prob,
        ev,
        kelly_fraction,
    }
}

pub(crate) proof fn lemma_extends_trans<A>(a: Seq<A>, b: Seq<A>, c: Seq<A>)
    requires
        extends(a, b),
        extends(b, c),
    ensures
        extends(a, c),
{
    assert(c.subrange(0, a.len() as int) =~= b.subrange(0, a.len() as int));
}

/// Every exit reported after `acts_o` is the full exit of one of `s`.
pub open spec fn exits_only(acts_o: Seq<EngineAction>, acts_n: Seq<EngineAction>, s: Seq<OpenPosition>, ctx: TickContext, name: String) -> bool {
    forall|q: int| acts_o.len() <= q < acts_n.len() && (#[trigger] acts_n[q]) is ExitTrade ==> exists|k: int|
        0 <= k < s.len() && (#[trigger] exit_rule(s[k], ctx)) is Full
        && acts_n[q] == exit_action(s[k], ctx, name, exit_rule(s[k], ctx)->Full_0)
}

/// The actions after `acts_o` report no exit.
pub open spec fn no_exits_after(acts_o: Seq<EngineAction>, acts_n: Seq<EngineAction>) -> bool {
    forall|q: int| acts_o.len() <= q < acts_n.len() ==> !((#[trigger] acts_n[q]) is ExitTrade)
}

/// Non-decreasing boundaries stay below a later one.
pub(crate) proof fn lemma_bounds_le(bs: Seq<int>, j: int, i: int)
    requires
        0 <= j <= i < bs.len(),
        forall|k: int| 0 <= k < i ==> #[trigger] bs[k] <= bs[k + 1],
    ensures
        bs[j] <= bs[i],
    decreases i - j,
{
    if j < i {
        lemma_bounds_le(bs, j + 1, i);
    }
}

/// `a` and `b` agree up to `x` when `b` extends `a`.
pub(crate) proof fn lemma_extends_take<A>(a: Seq<A>, b: Seq<A>, x: int)
    requires
        extends(a, b),
        0 <= x <= a.len(),
    ensures
        b.take(x) == a.take(x),
{
    assert(b.take(x) =~= a.take(x)) by {
        assert forall|q: int| 0 <= q < x implies b.take(x)[q] == a.take(x)[q] by {
            assert(b.subrange(0, a.len() as int)[q] == b[q]);
        }
    }
}

proof fn lemma_extends_contains<A>(a: Seq<A>, b: Seq<A>, x: A)
    requires
        extends(a, b),
        a.contains(x),
    ensures
        b.contains(x),
{
    let k = choose|k: int| 0 <= k < a.len() && a[k] == x;
    assert(b.subrange(0, a.len() as int)[k] == b[k]);
}

/// Fee on a sale: 2% of its proceeds, in pico-dollars, rounded down.
pub open spec fn exit_fee(price: int, contracts: int) -> int {
    price * contracts * 2 / 100
}

/// Realized P/L of selling `contracts` bought at `entry` for `exit`.
pub open spec fn exit_pnl(entry: int, exit: int, contracts: int) -> int {
    (exit - entry) * contracts - exit_fee(exit, contracts)
}

/// Exit price of a side: its bid, at least $0.01.
pub open spec fn exit_price_for(side: Side, ctx: TickContext) -> int {
    let b = bid_for(side, ctx.yes_bid as int, ctx.yes_ask as int);
    if b > MIN_EXIT_PRICE { b } else { MIN_EXIT_PRICE as int }
}

/// Contracts sold by a partial exit: half, rounded down to whole contracts,
/// at least one.
pub open spec fn partial_size(contracts: int) -> int {
    let whole = (contracts / 2) / SCALE as int * SCALE as int;
    if whole > SCALE { whole } else { SCALE as int }
}

pub(crate) proof fn lemma_legs_remove(s: Seq<OpenPosition>, i: int)
    requires
        legs_ordered(s),
        0 <= i < s.len(),
    ensures
        legs_ordered(s.remove(i)),
{
    let t = s.remove(i);
    assert forall|a: int, b: int| 0 <= a < b < t.len() implies t[a].leg < t[b].leg by {
        let a1 = if a < i { a } else { a + 1 };
        let b1 = if b < i { b } else { b + 1 };
        assert(t[a] == s[a1]);
        assert(t[b] == s[b1]);
    }
    assert forall|a: int| 0 <= a < t.len() implies #[trigger] t[a].leg < MAX_LEGS by {
        let a1 = if a < i { a } else { a + 1 };
        assert(t[a] == s[a1]);
    }
}

proof fn lemma_trade_bounds(entry: int, exit: int, contracts: int)
    requires
        0 <= entry <= SCALE,
        0 <= exit <= SCALE,
        0 < contracts <= MAX_CONTRACTS,
    ensures
        0 <= exit_fee(exit, contracts) <= SCALE * MAX_CONTRACTS,
        -PNL_STEP <= exit_pnl(entry, exit, contracts) <= PNL_STEP,
        0 <= entry * contracts <= SCALE * MAX_CONTRACTS,
        0 <= exit * contracts <= SCALE * MAX_CONTRACTS,
{
    crate::fixed::lemma_prod2_bound(exit, contracts, SCALE as int, MAX_CONTRACTS as int);
    crate::fixed::lemma_prod2_bound(entry, contracts, SCALE as int, MAX_CONTRACTS as int);
    crate::fixed::lemma_div_bounds(exit * contracts * 2, 0, SCALE * MAX_CONTRACTS, 100);
    assert(-(SCALE as int) * MAX_CONTRACTS <= (exit - entry) * contracts <= SCALE as int * MAX_CONTRACTS) by (nonlinear_arith)
        requires 0 <= entry <= SCALE, 0 <= exit <= SCALE, 0 < contracts <= MAX_CONTRACTS;
}

/// Sells part of the position at `i` (see `partial_size`) when that leaves
/// some contracts, booking the P/L as a closed trade.
pub(crate) fn apply_partial_exit(
    state: &mut ModelState,
    i: usize,
    ctx: &TickContext,
    probability: i64,
    market_ticker: &String,
    actions: &mut Vec<EngineAction>,
    Ghost(m): Ghost<int>,
    Ghost(k): Ghost<int>,
)
    requires
        old(state).wf(),
        ctx.valid(),
        i < old(state).positions().len(),
        old(state).room(m, k),
        m + PNL_STEP <= LEDGER_LIMIT,
        0 <= k < MAX_STEPS,
    ensures
        final(state).wf(),
        final(state).room(m + PNL_STEP, k + 1),
        ({
            let p = old(state).positions()[i as int];
            let sold = partial_size(p.contracts as int);
            let price = exit_price_for(p.side, *ctx);
            if sold < p.contracts {
                &&& final(state).positions() == old(state).positions().update(
                    i as int,
                    OpenPosition { contracts: (p.contracts - sold) as i64, ..p },
                )
                &&& final(state).cumulative_pnl == old(state).cumulative_pnl + exit_pnl(p.entry_price as int, price, sold)
                &&& final(state).daily_pnl == old(state).daily_pnl + exit_pnl(p.entry_price as int, price, sold)
                &&& final(state).current_exposure == (if old(state).current_exposure - p.entry_price * sold > 0 {
                        old(state).current_exposure - p.entry_price * sold
                    } else {
                        0
                    })
            } else {
                &&& final(state).positions() == old(state).positions()
                &&& final(state).cumulative_pnl == old(state).cumulative_pnl
                &&& final(state).daily_pnl == old(state).daily_pnl
                &&& final(state).current_exposure == old(state).current_exposure
            }
        }),
        final(state).total_trades == old(state).total_trades,
        final(state).unrealized_pnl == old(state).unrealized_pnl,
        final(state).name == old(state).name,
        extends(old(actions)@, final(actions)@),
        ({
            let p = old(state).positions()[i as int];
            let sold = partial_size(p.contracts as int);
            let won = sold < p.contracts && exit_pnl(p.entry_price as int, exit_price_for(p.side, *ctx), sold) > 0;
            &&& final(state).winning_trades == old(state).winning_trades + if won { 1int } else { 0 }
            &&& final(state).beta_alpha == old(state).beta_alpha + if won { SCALE as int } else { 0 }
            &&& final(state).beta_beta == old(state).beta_beta
        }),
        no_exits_after(old(actions)@, final(actions)@),
        partial_due(old(state).positions()[i as int], *ctx) ==> final(actions)@ == old(actions)@.push(
            partial_action(old(state).positions()[i as int], *ctx, old(state).name, *market_ticker, probability)),
        old(state).positions()[i as int].contracts <= partial_size(old(state).positions()[i as int].contracts as int)
            ==> final(actions)@ == old(actions)@,
        ({
            let p = old(state).positions()[i as int];
            let sold = partial_size(p.contracts as int);
            if sold < p.contracts {
                &&& ledger_of(*final(state)) == book_step(ledger_of(*old(state)),
                    exit_pnl(p.entry_price as int, exit_price_for(p.side, *ctx), sold), p.entry_price * sold)
                &&& crate::state::sharpe_holds(final(state).trade_returns@, final(state).sharpe as int)
            } else {
                &&& ledger_of(*final(state)) == ledger_of(*old(state))
                &&& final(state).sharpe == old(state).sharpe
            }
        }),
{
    let ghost acts0 = actions@;
    proof {
        assert(acts0.subrange(0, acts0.len() as int) =~= acts0);
    }
    let p = positions_get(&state.open_positions, i);
    proof {
        assert(old(state).positions()[i as int].valid());
    }
    let whole: i64 = (p.contracts / 2) / SCALE * SCALE;
    let sold: i64 = if whole > SCALE { whole } else { SCALE };
    if sold >= p.contracts {
        return;
    }
    let bid = current_bid(p.side, ctx);
    let price: i64 = if bid > MIN_EXIT_PRICE { bid } else { MIN_EXIT_PRICE };
    proof {
        lemma_trade_bounds(p.entry_price as int, price as int, sold as int);
    }
    let fee: i128 = price as i128 * sold as i128 * 2 / 100;
    let pnl: i128 = (price as i128 - p.entry_price as i128) * sold as i128 - fee;
    let cost: i128 = p.entry_price as i128 * sold as i128;
    let trade_id = p.trade_id.clone();
    let side = p.side;
    let left: i64 = p.contracts - sold;
    let ghost s0 = state.positions();
    let q = p.with_marks(p.peak_unrealized, left);
    positions_set(&mut state.open_positions, i, q);
    proof {
        let s1 = state.positions();
        assert forall|a: int| 0 <= a < s1.len() implies #[trigger] s1[a].valid() by {
            assert(s0[a].valid());
        }
        assert forall|a: int| 0 <= a < s1.len() implies #[trigger] s1[a].leg == s0[a].leg by {}
        assert(legs_ordered(s0));
        assert(legs_ordered(s1));
    }
    state.book_trade(pnl, cost, pnl > 0, false, Ghost(m), Ghost(k));
    actions.push(EngineAction::PartialExit {
        trade_id,
        model_name: state.name.clone(),
        market_ticker: market_ticker.clone(),
        side,
        exit_price: price,
        contracts: sold,
        fee,
        pnl,
        probability,
    });
    proof {
        assert(actions@.subrange(0, acts0.len() as int) =~= acts0);
    }
}

/// Closes the position at `i` at the current exit price, booking the P/L
/// as a closed trade.
pub(crate) fn apply_full_exit(
    state: &mut ModelState,
    i: usize,
    reason: ExitReason,
    ctx: &TickContext,
    actions: &mut Vec<EngineAction>,
    Ghost(m): Ghost<int>,
    Ghost(k): Ghost<int>,
)
    requires
        old(state).wf(),
        ctx.valid(),
        i < old(state).positions().len(),
        old(state).room(m, k),
        m + PNL_STEP <= LEDGER_LIMIT,
        0 <= k < MAX_STEPS,
    ensures
        final(state).wf(),
        final(state).room(m + PNL_STEP, k + 1),
        final(state).positions() == old(state).positions().remove(i as int),
        ({
            let p = old(state).positions()[i as int];
            let price = exit_price_for(p.side, *ctx);
            &&& final(state).cumulative_pnl == old(state).cumulative_pnl + exit_pnl(p.entry_price as int, price, p.contracts as int)
            &&& final(state).daily_pnl == old(state).daily_pnl + exit_pnl(p.entry_price as int, price, p.contracts as int)
            &&& final(state).current_exposure == (if old(state).current_exposure - p.entry_price * p.contracts > 0 {
                    old(state).current_exposure - p.entry_price * p.contracts
                } else {
                    0
                })
        }),
        final(state).total_trades == old(state).total_trades,
        final(state).unrealized_pnl == old(state).unrealized_pnl,
        final(state).name == old(state).name,
        final(actions)@ == old(actions)@.push(exit_action(old(state).positions()[i as int], *ctx, old(state).name, reason)),
        ({
            let p = old(state).positions()[i as int];
            let won = exit_pnl(p.entry_price as int, exit_price_for(p.side, *ctx), p.contracts as int) > 0;
            &&& final(state).winning_trades == old(state).winning_trades + if won { 1int } else { 0 }
            &&& final(state).beta_alpha == old(state).beta_alpha + if won { SCALE as int } else { 0 }
            &&& final(state).beta_beta == old(state).beta_beta + if won { 0 } else { SCALE as int }
        }),
        ({
            let p = old(state).positions()[i as int];
            &&& ledger_of(*final(state)) == book_step(ledger_of(*old(state)),
                exit_pnl(p.entry_price as int, exit_price_for(p.side, *ctx), p.contracts as int), p.entry_price * p.contracts)
            &&& crate::state::sharpe_holds(final(state).trade_returns@, final(state).sharpe as int)
        }),
{
    let ghost s0 = state.positions();
    proof {
        assert(s0[i as int].valid());
        lemma_legs_remove(s0, i as int);
    }
    let p = positions_remove(&mut state.open_positions, i);
    proof {
        let s1 = state.positions();
        assert forall|a: int| 0 <= a < s1.len() implies #[trigger] s1[a].valid() by {
            let a1 = if a < i { a } else { a + 1 };
            assert(s0[a1].valid());
        }
    }
    let bid = current_bid(p.side, ctx);
    let price: i64 = if bid > MIN_EXIT_PRICE { bid } else { MIN_EXIT_PRICE };
    proof {
        lemma_trade_bounds(p.entry_price as int, price as int, p.contracts as int);
    }
    let fee: i128 = price as i128 * p.contracts as i128 * 2 / 100;
    let pnl: i128 = (price as i128 - p.entry_price as i128) * p.contracts as i128 - fee;
    let cost: i128 = p.entry_price as i128 * p.contracts as i128;
    state.book_trade(pnl, cost, pnl > 0, true, Ghost(m), Ghost(k));
    actions.push(EngineAction::ExitTrade {
        trade_id: p.trade_id,
        model_name: state.name.clone(),
        side: p.side,
        entry_price: p.entry_price,
        exit_price: price,
        contracts: p.contracts,
        pnl,
        reason,
    });
}

/// Relies on `uuid::Uuid::new_v4` and its `Display`: a random version-4
/// UUID in hyphenated form, 36 characters. `new_v4` panics only when the
/// operating system's random source fails.
#[verifier::external_body]
fn new_trade_id() -> (r: String)
    ensures
        r@.len() == 36,
{
    uuid::Uuid::new_v4().to_string()
}

pub(crate) proof fn lemma_room_mono(st: &ModelState, m: int, k: int, m2: int, k2: int)
    requires
        st.room(m, k),
        m <= m2,
        k <= k2,
    ensures
        st.room(m2, k2),
{
    assert(k * SCALE <= k2 * SCALE) by (nonlinear_arith)
        requires k <= k2;
}

/// A position after its partial exit, if the rules call for one that
/// leaves some contracts.
pub open spec fn after_partial(p: OpenPosition, ctx: TickContext) -> OpenPosition {
    let sold = partial_size(p.contracts as int);
    if exit_rule(p, ctx) == ExitDecision::Partial && sold < p.contracts {
        OpenPosition { contracts: (p.contracts - sold) as i64, ..p }
    } else {
        p
    }
}

/// The positions that survive the exit rules, in order, partial exits
/// applied.
pub open spec fn survivors(s: Seq<OpenPosition>, ctx: TickContext) -> Seq<OpenPosition>
    decreases s.len(),
{
    if s.len() == 0 {
        Seq::empty()
    } else {
        let rest = survivors(s.drop_first(), ctx);
        if exit_rule(s[0], ctx) is Full {
            rest
        } else {
            seq![after_partial(s[0], ctx)].add(rest)
        }
    }
}

/// P/L realized by a partial exit of `p`, if the rules call for one that
/// leaves some contracts.
pub open spec fn partial_value(p: OpenPosition, ctx: TickContext) -> int {
    let sold = partial_size(p.contracts as int);
    if exit_rule(p, ctx) == ExitDecision::Partial && sold < p.contracts {
        exit_pnl(p.entry_price as int, exit_price_for(p.side, ctx), sold)
    } else {
        0
    }
}

/// P/L realized by a full exit of `p`, if the rules call for one.
pub open spec fn full_value(p: OpenPosition, ctx: TickContext) -> int {
    if exit_rule(p, ctx) is Full {
        exit_pnl(p.entry_price as int, exit_price_for(p.side, ctx), p.contracts as int)
    } else {
        0
    }
}

pub open spec fn partial_total(s: Seq<OpenPosition>, ctx: TickContext) -> int
    decreases s.len(),
{
    if s.len() == 0 { 0 } else { partial_value(s[0], ctx) + partial_total(s.drop_first(), ctx) }
}

pub open spec fn full_total(s: Seq<OpenPosition>, ctx: TickContext) -> int
    decreases s.len(),
{
    if s.len() == 0 { 0 } else { full_value(s[0], ctx) + full_total(s.drop_first(), ctx) }
}

/// Wins (partial or full exits at a profit) and full exits at a loss.
pub open spec fn exit_wins(p: OpenPosition, ctx: TickContext) -> int {
    let sold = partial_size(p.contracts as int);
    let price = exit_price_for(p.side, ctx);
    if exit_rule(p, ctx) == ExitDecision::Partial && sold < p.contracts && exit_pnl(p.entry_price as int, price, sold) > 0 {
        1
    } else if exit_rule(p, ctx) is Full && exit_pnl(p.entry_price as int, price, p.contracts as int) > 0 {
        1
    } else {
        0
    }
}

pub open spec fn exit_losses(p: OpenPosition, ctx: TickContext) -> int {
    if exit_rule(p, ctx) is Full && exit_pnl(p.entry_price as int, exit_price_for(p.side, ctx), p.contracts as int) <= 0 {
        1
    } else {
        0
    }
}

pub open spec fn partial_wins(s: Seq<OpenPosition>, ctx: TickContext) -> int
    decreases s.len(),
{
    if s.len() == 0 { 0 } else {
        (if exit_rule(s[0], ctx) == ExitDecision::Partial { exit_wins(s[0], ctx) } else { 0 }) + partial_wins(s.drop_first(), ctx)
    }
}

pub open spec fn full_wins(s: Seq<OpenPosition>, ctx: TickContext) -> int
    decreases s.len(),
{
    if s.len() == 0 { 0 } else {
        (if exit_rule(s[0], ctx) is Full { exit_wins(s[0], ctx) } else { 0 }) + full_wins(s.drop_first(), ctx)
    }
}

pub open spec fn full_losses(s: Seq<OpenPosition>, ctx: TickContext) -> int
    decreases s.len(),
{
    if s.len() == 0 { 0 } else { exit_losses(s[0], ctx) + full_losses(s.drop_first(), ctx) }
}

/// Exposure after releasing a cost, floored at zero.
pub open spec fn release(x: int, cost: int) -> int {
    if x - cost > 0 { x - cost } else { 0 }
}

/// Exposure after the partial exits of `s`, the last position first.
pub open spec fn partial_release(x: int, s: Seq<OpenPosition>, ctx: TickContext) -> int
    decreases s.len(),
{
    if s.len() == 0 {
        x
    } else {
        let y = partial_release(x, s.drop_first(), ctx);
        let p = s[0];
        let sold = partial_size(p.contracts as int);
        if exit_rule(p, ctx) == ExitDecision::Partial && sold < p.contracts { release(y, p.entry_price * sold) } else { y }
    }
}

/// Exposure after the full exits of `s`, the last position first.
pub open spec fn full_release(x: int, s: Seq<OpenPosition>, ctx: TickContext) -> int
    decreases s.len(),
{
    if s.len() == 0 {
        x
    } else {
        let y = full_release(x, s.drop_first(), ctx);
        let p = s[0];
        if exit_rule(p, ctx) is Full { release(y, p.entry_price * p.contracts) } else { y }
    }
}

/// P/L that the exit rules realize on a list of positions.
pub open spec fn realized_total(s: Seq<OpenPosition>, ctx: TickContext) -> int {
    partial_total(s, ctx) + full_total(s, ctx)
}

proof fn lemma_totals_step(s: Seq<OpenPosition>, j: int, ctx: TickContext)
    requires
        0 <= j < s.len(),
    ensures
        partial_total(s.skip(j), ctx) == partial_value(s[j], ctx) + partial_total(s.skip(j + 1), ctx),
        full_total(s.skip(j), ctx) == full_value(s[j], ctx) + full_total(s.skip(j + 1), ctx),
        partial_wins(s.skip(j), ctx) == (if exit_rule(s[j], ctx) == ExitDecision::Partial { exit_wins(s[j], ctx) } else { 0 })
            + partial_wins(s.skip(j + 1), ctx),
        full_wins(s.skip(j), ctx) == (if exit_rule(s[j], ctx) is Full { exit_wins(s[j], ctx) } else { 0 })
            + full_wins(s.skip(j + 1), ctx),
        full_losses(s.skip(j), ctx) == exit_losses(s[j], ctx) + full_losses(s.skip(j + 1), ctx),
        forall|x: int| #[trigger] partial_release(x, s.skip(j), ctx) == ({
            let y = partial_release(x, s.skip(j + 1), ctx);
            let sold = partial_size(s[j].contracts as int);
            if exit_rule(s[j], ctx) == ExitDecision::Partial && sold < s[j].contracts { release(y, s[j].entry_price * sold) } else { y }
        }),
        forall|x: int| #[trigger] full_release(x, s.skip(j), ctx) == (if exit_rule(s[j], ctx) is Full {
            release(full_release(x, s.skip(j + 1), ctx), s[j].entry_price * s[j].contracts)
        } else {
            full_release(x, s.skip(j + 1), ctx)
        }),
{
    assert(s.skip(j).drop_first() =~= s.skip(j + 1));
    assert(s.skip(j)[0] == s[j]);
}

proof fn lemma_survivors_step(s: Seq<OpenPosition>, j: int, ctx: TickContext)
    requires
        0 <= j < s.len(),
    ensures
        survivors(s.skip(j), ctx) == (if exit_rule(s[j], ctx) is Full {
            survivors(s.skip(j + 1), ctx)
        } else {
            seq![after_partial(s[j], ctx)].add(survivors(s.skip(j + 1), ctx))
        }),
{
    assert(s.skip(j).drop_first() =~= s.skip(j + 1));
    assert(s.skip(j)[0] == s[j]);
}

/// Phase 2: evaluates the exit rules on every position, executes partial
/// exits, then full exits from the last position backwards.
#[verifier::rlimit(50)]
pub(crate) fn run_exits(
    state: &mut ModelState,
    ctx: &TickContext,
    probability: i64,
    market_ticker: &String,
    actions: &mut Vec<EngineAction>,
)
    requires
        old(state).wf(),
        old(state).has_headroom(),
        ctx.valid(),
    ensures
        final(state).wf(),
        final(state).room(LEDGER_HEADROOM + 6 * PNL_STEP, 6),
        final(state).positions() == survivors(old(state).positions(), *ctx),
        final(state).cumulative_pnl == old(state).cumulative_pnl + realized_total(old(state).positions(), *ctx),
        final(state).daily_pnl == old(state).daily_pnl + realized_total(old(state).positions(), *ctx),
        final(state).total_trades == old(state).total_trades,
        final(state).name == old(state).name,
        old(state).positions().len() == 0 ==> *final(state) == *old(state),
        extends(old(actions)@, final(actions)@),
        forall|k: int| 0 <= k < old(state).positions().len() && (#[trigger] exit_rule(old(state).positions()[k], *ctx)) is Full
            ==> final(actions)@.contains(exit_action(old(state).positions()[k], *ctx, old(state).name,
                exit_rule(old(state).positions()[k], *ctx)->Full_0)),
        final(state).winning_trades == old(state).winning_trades + partial_wins(old(state).positions(), *ctx)
            + full_wins(old(state).positions(), *ctx),
        final(state).beta_alpha == old(state).beta_alpha + (partial_wins(old(state).positions(), *ctx)
            + full_wins(old(state).positions(), *ctx)) * SCALE,
        final(state).beta_beta == old(state).beta_beta + full_losses(old(state).positions(), *ctx) * SCALE,
        final(state).current_exposure == full_release(partial_release(old(state).current_exposure as int,
            old(state).positions(), *ctx), old(state).positions(), *ctx),
        exits_only(old(actions)@, final(actions)@, old(state).positions(), *ctx, old(state).name),
        forall|k: int| 0 <= k < old(state).positions().len() && #[trigger] partial_due(old(state).positions()[k], *ctx)
            ==> final(actions)@.contains(partial_action(old(state).positions()[k], *ctx, old(state).name, *market_ticker, probability)),
        ledger_of(*final(state)) == exits_ledger(exits_ledger(ledger_of(*old(state)), old(state).positions(), *ctx, true),
            old(state).positions(), *ctx, false),
        count_partial(old(state).positions(), *ctx) + count_full(old(state).positions(), *ctx) > 0
            ==> crate::state::sharpe_holds(final(state).trade_returns@, final(state).sharpe as int),
        count_partial(old(state).positions(), *ctx) + count_full(old(state).positions(), *ctx) == 0
            ==> final(state).sharpe == old(state).sharpe,
{
    let n = state.position_count();
    let ghost s0 = state.positions();
    let mut decisions: Vec<ExitDecision> = Vec::new();
    let mut i: usize = 0;
    while i < n
        invariant
            n == s0.len(),
            s0 == state.positions(),
            state.wf(),
            ctx.valid(),
            i <= n,
            decisions.len() == i,
            forall|a: int| 0 <= a < i ==> #[trigger] decisions@[a] == exit_rule(s0[a], *ctx),
        decreases n - i,
    {
        proof {
            assert(s0[i as int].valid());
        }
        let d = exit_decision(state.position(i), ctx);
        decisions.push(d);
        i = i + 1;
    }
    proof {
        lemma_room_mono(state, LEDGER_HEADROOM as int, 0, LEDGER_HEADROOM as int, 0);
        assert(n <= 3);
    }
    proof {
        assert(old(actions)@.subrange(0, old(actions)@.len() as int) =~= old(actions)@);
    }
    let mut j: usize = n;
    while j > 0
        invariant
            n <= 3,
            j <= n,
            decisions.len() == n,
            state.wf(),
            ctx.valid(),
            state.positions().len() == n,
            state.room(LEDGER_HEADROOM + (n - j) * PNL_STEP, n - j),
            state.total_trades == old(state).total_trades,
            state.name == old(state).name,
            n == s0.len(),
            forall|a: int| 0 <= a < n ==> #[trigger] decisions@[a] == exit_rule(s0[a], *ctx),
            forall|k: int| 0 <= k < j ==> #[trigger] state.positions()[k] == s0[k],
            forall|k: int| j <= k < n ==> #[trigger] state.positions()[k] == after_partial(s0[k], *ctx),
            state.cumulative_pnl == old(state).cumulative_pnl + partial_total(s0.skip(j as int), *ctx),
            n == 0 ==> *state == *old(state),
            extends(old(actions)@, actions@),
            state.daily_pnl == old(state).daily_pnl + partial_total(s0.skip(j as int), *ctx),
            state.winning_trades == old(state).winning_trades + partial_wins(s0.skip(j as int), *ctx),
            state.beta_alpha == old(state).beta_alpha + partial_wins(s0.skip(j as int), *ctx) * SCALE,
            state.beta_beta == old(state).beta_beta,
            state.current_exposure == partial_release(old(state).current_exposure as int, s0.skip(j as int), *ctx),
            no_exits_after(old(actions)@, actions@),
            forall|k: int| j <= k < n && #[trigger] partial_due(s0[k], *ctx)
                ==> actions@.contains(partial_action(s0[k], *ctx, old(state).name, *market_ticker, probability)),
            ledger_of(*state) == exits_ledger(ledger_of(*old(state)), s0.skip(j as int), *ctx, true),
            count_partial(s0.skip(j as int), *ctx) > 0 ==> crate::state::sharpe_holds(state.trade_returns@, state.sharpe as int),
            count_partial(s0.skip(j as int), *ctx) == 0 ==> state.sharpe == old(state).sharpe,
        decreases j,
    {
        j = j - 1;
        proof {
            lemma_totals_step(s0, j as int, *ctx);
            lemma_ledger_step(s0, j as int, *ctx, ledger_of(*old(state)), true);
        }
        if decisions[j] == ExitDecision::Partial {
            let ghost acts_before = actions@;
            apply_partial_exit(state, j, ctx, probability, market_ticker, actions,
                Ghost(LEDGER_HEADROOM + (n - j - 1) * PNL_STEP), Ghost((n - j - 1) as int));
            proof {
                lemma_extends_trans(old(actions)@, acts_before, actions@);
                let jj = j as int;
                assert(state.positions().len() == n);
                assert(partial_due(s0[jj], *ctx) == (partial_size(s0[jj].contracts as int) < s0[jj].contracts));
                assert forall|k: int| j <= k < n && #[trigger] partial_due(s0[k], *ctx)
                    implies actions@.contains(partial_action(s0[k], *ctx, old(state).name, *market_ticker, probability)) by {
                    if k > jj {
                        lemma_extends_contains(acts_before, actions@, partial_action(s0[k], *ctx, old(state).name, *market_ticker, probability));
                    } else {
                        assert(actions@[actions@.len() - 1] == partial_action(s0[k], *ctx, old(state).name, *market_ticker, probability));
                    }
                }
                assert forall|q: int| old(actions)@.len() <= q < actions@.len() implies !((#[trigger] actions@[q]) is ExitTrade) by {
                    if q < acts_before.len() {
                        assert(actions@.subrange(0, acts_before.len() as int)[q] == actions@[q]);
                    }
                }
            }
        } else {
            proof {
                lemma_room_mono(state, LEDGER_HEADROOM + (n - j - 1) * PNL_STEP, (n - j - 1) as int,
                    LEDGER_HEADROOM + (n - j) * PNL_STEP, (n - j) as int);
            }
        }
    }
    let ghost s1 = state.positions();
    proof {
        assert(s0.skip(0) =~= s0);
        assert(s0.skip(n as int) =~= Seq::<OpenPosition>::empty());
        assert(partial_wins(s0.skip(0), *ctx) == partial_wins(s0, *ctx));
        assert(full_wins(s0.skip(n as int), *ctx) == 0);
        assert(full_losses(s0.skip(n as int), *ctx) == 0);
        assert(partial_release(old(state).current_exposure as int, s0.skip(0), *ctx)
            == partial_release(old(state).current_exposure as int, s0, *ctx));
        assert(exits_only(old(actions)@, actions@, s0, *ctx, old(state).name));
        lemma_counts_nonneg(s0, *ctx);
        assert(count_full(s0.skip(n as int), *ctx) == 0);
        assert(count_partial(s0.skip(0), *ctx) == count_partial(s0, *ctx));
        assert(exits_ledger(ledger_of(*old(state)), s0.skip(0), *ctx, true) == exits_ledger(ledger_of(*old(state)), s0, *ctx, true));
        assert(ledger_of(*state) == exits_ledger(ledger_of(*old(state)), s0, *ctx, true));
        assert(exits_ledger(exits_ledger(ledger_of(*old(state)), s0, *ctx, true), s0.skip(n as int), *ctx, false)
            == exits_ledger(ledger_of(*old(state)), s0, *ctx, true));
        assert(s1 =~= s1.take(n as int).add(survivors(s0.skip(n as int), *ctx)));
    }
    let mut j: usize = n;
    while j > 0
        invariant
            n <= 3,
            j <= n,
            decisions.len() == n,
            state.wf(),
            ctx.valid(),
            j <= state.positions().len() <= n,
            n == s0.len(),
            n == s1.len(),
            forall|a: int| 0 <= a < n ==> #[trigger] decisions@[a] == exit_rule(s0[a], *ctx),
            forall|k: int| 0 <= k < n ==> #[trigger] s1[k] == after_partial(s0[k], *ctx),
            state.positions() == s1.take(j as int).add(survivors(s0.skip(j as int), *ctx)),
            state.cumulative_pnl == old(state).cumulative_pnl + partial_total(s0, *ctx) + full_total(s0.skip(j as int), *ctx),
            n == 0 ==> *state == *old(state),
            extends(old(actions)@, actions@),
            state.winning_trades == old(state).winning_trades + partial_wins(s0, *ctx) + full_wins(s0.skip(j as int), *ctx),
            state.beta_alpha == old(state).beta_alpha + (partial_wins(s0, *ctx) + full_wins(s0.skip(j as int), *ctx)) * SCALE,
            state.beta_beta == old(state).beta_beta + full_losses(s0.skip(j as int), *ctx) * SCALE,
            state.current_exposure == full_release(partial_release(old(state).current_exposure as int, s0, *ctx),
                s0.skip(j as int), *ctx),
            exits_only(old(actions)@, actions@, s0, *ctx, old(state).name),
            forall|k: int| 0 <= k < n && #[trigger] partial_due(s0[k], *ctx)
                ==> actions@.contains(partial_action(s0[k], *ctx, old(state).name, *market_ticker, probability)),
            forall|k: int| j <= k < n && (#[trigger] exit_rule(s0[k], *ctx)) is Full
                ==> actions@.contains(exit_action(s0[k], *ctx, old(state).name, exit_rule(s0[k], *ctx)->Full_0)),
            state.daily_pnl == old(state).daily_pnl + partial_total(s0, *ctx) + full_total(s0.skip(j as int), *ctx),
            state.room(LEDGER_HEADROOM + (2 * n - j) * PNL_STEP, 2 * n - j),
            state.total_trades == old(state).total_trades,
            state.name == old(state).name,
            ledger_of(*state) == exits_ledger(exits_ledger(ledger_of(*old(state)), s0, *ctx, true), s0.skip(j as int), *ctx, false),
            count_partial(s0, *ctx) + count_full(s0.skip(j as int), *ctx) > 0
                ==> crate::state::sharpe_holds(state.trade_returns@, state.sharpe as int),
            count_partial(s0, *ctx) + count_full(s0.skip(j as int), *ctx) == 0 ==> state.sharpe == old(state).sharpe,
            count_partial(s0, *ctx) >= 0,
        decreases j,
    {
        j = j - 1;
        proof {
            lemma_survivors_step(s0, j as int, *ctx);
            lemma_totals_step(s0, j as int, *ctx);
            lemma_ledger_step(s0, j as int, *ctx, exits_ledger(ledger_of(*old(state)), s0, *ctx, true), false);
            let t = survivors(s0.skip(j as int + 1), *ctx);
            if exit_rule(s0[j as int], *ctx) is Full {
                assert(s1.take(j as int + 1).add(t).remove(j as int) =~= s1.take(j as int).add(t));
            } else {
                assert(s1.take(j as int + 1).add(t) =~= s1.take(j as int).add(seq![after_partial(s0[j as int], *ctx)].add(t)));
            }
        }
        match decisions[j] {
            ExitDecision::Full(reason) => {
                let ghost acts_before = actions@;
                let ghost pos_before = state.positions();
                apply_full_exit(state, j, reason, ctx, actions,
                    Ghost(LEDGER_HEADROOM + (2 * n - j - 1) * PNL_STEP), Ghost((2 * n - j - 1) as int));
                proof {
                    let jj = j as int;
                    assert(pos_before[jj] == s1[jj]);
                    assert(s1[jj] == s0[jj]);
                    assert(actions@ == acts_before.push(exit_action(s0[jj], *ctx, old(state).name, reason)));
                    assert(extends(acts_before, actions@)) by {
                        assert(actions@.subrange(0, acts_before.len() as int) =~= acts_before);
                    }
                    lemma_extends_trans(old(actions)@, acts_before, actions@);
                    assert(actions@[actions@.len() - 1] == exit_action(s0[jj], *ctx, old(state).name, reason));
                    assert forall|q: int| old(actions)@.len() <= q < actions@.len() && (#[trigger] actions@[q]) is ExitTrade
                        implies exists|k: int| 0 <= k < s0.len() && (#[trigger] exit_rule(s0[k], *ctx)) is Full
                            && actions@[q] == exit_action(s0[k], *ctx, old(state).name, exit_rule(s0[k], *ctx)->Full_0) by {
                        if q < acts_before.len() {
                            assert(actions@[q] == acts_before[q]);
                        } else {
                            assert(actions@[q] == exit_action(s0[jj], *ctx, old(state).name, reason));
                            assert(exit_rule(s0[jj], *ctx) is Full);
                        }
                    }
                    assert forall|k: int| 0 <= k < n && #[trigger] partial_due(s0[k], *ctx)
                        implies actions@.contains(partial_action(s0[k], *ctx, old(state).name, *market_ticker, probability)) by {
                        lemma_extends_contains(acts_before, actions@, partial_action(s0[k], *ctx, old(state).name, *market_ticker, probability));
                    }
                    assert forall|k: int| j <= k < n && (#[trigger] exit_rule(s0[k], *ctx)) is Full
                        implies actions@.contains(exit_action(s0[k], *ctx, old(state).name, exit_rule(s0[k], *ctx)->Full_0)) by {
                        if k > jj {
                            lemma_extends_contains(acts_before, actions@, exit_action(s0[k], *ctx, old(state).name, exit_rule(s0[k], *ctx)->Full_0));
                        }
                    }
                }
            },
            _ => {
                proof {
                    lemma_room_mono(state, LEDGER_HEADROOM + (2 * n - j - 1) * PNL_STEP, (2 * n - j - 1) as int,
                        LEDGER_HEADROOM + (2 * n - j) * PNL_STEP, (2 * n - j) as int);
                }
            },
        }
    }
    proof {
        lemma_room_mono(state, LEDGER_HEADROOM + (2 * n) * PNL_STEP, (2 * n) as int, LEDGER_HEADROOM + 6 * PNL_STEP, 6);
        assert(s1.take(0) =~= Seq::<OpenPosition>::empty());
        assert(s0.skip(0) =~= s0);
        assert(state.positions() =~= survivors(s0, *ctx));
        assert(count_full(s0.skip(0), *ctx) == count_full(s0, *ctx));
        assert(exits_ledger(exits_ledger(ledger_of(*old(state)), s0, *ctx, true), s0.skip(0), *ctx, false)
            == exits_ledger(exits_ledger(ledger_of(*old(state)), s0, *ctx, true), s0, *ctx, false));
        assert(ledger_of(*state) == exits_ledger(exits_ledger(ledger_of(*old(state)), s0, *ctx, true), s0, *ctx, false));
        assert(s0 == old(state).positions());
    }
}

/// Sizing and risk settings of the engine.
#[derive(Debug, Clone, Copy)]
pub struct EngineConfig {
    /// Fractional Kelly multiplier, in millionths.
    pub fractional_kelly: i64,
    /// Position cap, in millionths of a contract (read as dollars of
    /// exposure by the risk check).
    pub max_position: i64,
    /// EV threshold of a signal, in millionths of a dollar.
    pub ev_threshold: i64,
    /// Daily loss limit, in pico-dollars.
    pub max_daily_drawdown: i128,
}

impl EngineConfig {
    pub open spec fn valid(&self) -> bool {
        &&& 0 <= self.fractional_kelly <= SCALE
        &&& 0 <= self.max_position <= MAX_CONTRACTS
        &&& self.max_daily_drawdown > i128::MIN
    }
}

/// Fee rate, fill probability and slippage assumed by the EV computation.
pub const FEE_RATE: i64 = 20_000;
pub const FILL_PROB: i64 = 900_000;
pub const SLIPPAGE: i64 = 5_000;
/// Shrinkage of the Kelly probability, in posterior standard deviations.
pub const KELLY_LAMBDA: i64 = 500_000;

/// Price of buying a side: the YES ask, or one minus it for NO.
pub open spec fn entry_price_for(side: Side, yes_ask: int) -> int {
    match side {
        Side::Yes => yes_ask,
        Side::No => SCALE - yes_ask,
    }
}

/// Whether spot moved more than $75 in favour of a position since entry.
pub open spec fn moved_in_favor(p: OpenPosition, spot: int) -> bool {
    match p.side {
        Side::Yes => spot - p.entry_btc_price > SCALE_IN_MOVE,
        Side::No => p.entry_btc_price - spot > SCALE_IN_MOVE,
    }
}

/// Conditions of a scale-in, apart from the risk check: positions are open,
/// more than 300 s remain, the highest leg is below `MAX_LEGS - 1`, spot
/// moved in favour of the first position, the book shows a profit, and the
/// EV signal fires.
pub open spec fn scale_in_due(s: Seq<OpenPosition>, unrealized: int, ctx: TickContext, signal: bool) -> bool {
    &&& s.len() > 0
    &&& ctx.ttl_seconds > MIN_ENTRY_TTL
    &&& s.last().leg < MAX_LEGS - 1
    &&& moved_in_favor(s[0], ctx.spot as int)
    &&& unrealized > 0
    &&& signal
}

/// What phase 3 does: see `try_scale_in`.
pub open spec fn scale_step(o: ModelState, n: ModelState, ctx: TickContext, vol: VolatilityState, config: EngineConfig, signal: bool) -> bool {
    &&& n.wf()
    &&& n.name == o.name
    &&& n.cumulative_pnl == o.cumulative_pnl
    &&& n.daily_pnl == o.daily_pnl
    &&& n.winning_trades == o.winning_trades
    &&& n.beta_alpha == o.beta_alpha
    &&& n.beta_beta == o.beta_beta
    &&& n.max_drawdown == o.max_drawdown
    &&& n.peak_equity == o.peak_equity
    &&& n.trade_returns@ == o.trade_returns@
    &&& n.sharpe == o.sharpe
    &&& ({
        let s = o.positions();
        let opened = scale_in_due(s, o.unrealized_pnl as int, ctx, signal)
            && risk_decision(
                o.daily_pnl as int,
                o.current_exposure as int,
                o.max_drawdown as int,
                vol.regime,
                SCALE as int,
                entry_price_for(s[0].side, ctx.yes_ask as int),
                config.max_daily_drawdown as int,
                config.max_position as int,
            ) == RiskCheck::Allowed;
        if opened {
            let q = n.positions().last();
            &&& n.positions().len() == s.len() + 1
            &&& n.positions().drop_last() == s
            &&& q.side == s[0].side
            &&& q.leg == s.last().leg + 1
            &&& q.contracts == SCALE
            &&& q.entry_price == entry_price_for(s[0].side, ctx.yes_ask as int)
            &&& q.entry_btc_price == ctx.spot
            &&& q.entry_tick == ctx.tick_counter
            &&& q.peak_unrealized == 0
            &&& n.current_exposure == o.current_exposure + SCALE * q.entry_price
            &&& n.total_trades == o.total_trades + 1
        } else {
            &&& n.positions() == s
            &&& n.current_exposure == o.current_exposure
            &&& n.total_trades == o.total_trades
        }
    })
    &&& (n.positions().len() > o.positions().len() ==> signal && n.positions().last().side == o.positions()[0].side)
}

/// What phase 4 does: see `try_entry`.
pub open spec fn entry_step(
    o: ModelState,
    n: ModelState,
    ctx: TickContext,
    vol: VolatilityState,
    config: EngineConfig,
    signal: bool,
    buy_yes: bool,
    contracts: i64,
    probability: i64,
) -> bool {
    &&& n.wf()
    &&& n.name == o.name
    &&& n.cumulative_pnl == o.cumulative_pnl
    &&& n.daily_pnl == o.daily_pnl
    &&& n.winning_trades == o.winning_trades
    &&& n.beta_alpha == o.beta_alpha
    &&& n.beta_beta == o.beta_beta
    &&& n.max_drawdown == o.max_drawdown
    &&& n.peak_equity == o.peak_equity
    &&& n.trade_returns@ == o.trade_returns@
    &&& n.sharpe == o.sharpe
    &&& ({
        let side = if buy_yes { Side::Yes } else { Side::No };
        let price = entry_price_for(side, ctx.yes_ask as int);
        let opened = signal && contracts > 0 && o.positions().len() == 0
            && ctx.ttl_seconds > MIN_ENTRY_TTL
            && risk_decision(
                o.daily_pnl as int,
                o.current_exposure as int,
                o.max_drawdown as int,
                vol.regime,
                contracts as int,
                price,
                config.max_daily_drawdown as int,
                config.max_position as int,
            ) == RiskCheck::Allowed;
        if opened {
            let q = n.positions()[0];
            &&& n.positions().len() == 1
            &&& q.side == side
            &&& q.leg == 0
            &&& q.contracts == contracts
            &&& q.entry_price == price
            &&& q.entry_btc_price == ctx.spot
            &&& q.entry_tick == ctx.tick_counter
            &&& q.peak_unrealized == 0
            &&& q.model_probability == probability
            &&& n.current_exposure == o.current_exposure + contracts * price
            &&& n.total_trades == o.total_trades + 1
        } else {
            &&& n.positions() == o.positions()
            &&& n.current_exposure == o.current_exposure
            &&& n.total_trades == o.total_trades
        }
    })
}

/// Phase 3: adds one contract on the first position's side when
/// `scale_in_due` holds and the risk check accepts it.
pub fn try_scale_in(
    state: &mut ModelState,
    ctx: &TickContext,
    vol: &VolatilityState,
    config: &EngineConfig,
    ev: &EvResult,
    probability: i64,
    kelly_fraction: i64,
    market_ticker: &String,
    actions: &mut Vec<EngineAction>,
)
    requires
        old(state).wf(),
        old(state).room(LEDGER_HEADROOM + 6 * PNL_STEP, 6),
        ctx.valid(),
        config.valid(),
        0 <= probability <= SCALE,
    ensures
        final(state).wf(),
        final(state).room(LEDGER_HEADROOM + 7 * PNL_STEP, 7),
        final(state).name == old(state).name,
        ({
            let s = old(state).positions();
            let opened = scale_in_due(s, old(state).unrealized_pnl as int, *ctx, ev.is_signal)
                && risk_decision(
                    old(state).daily_pnl as int,
                    old(state).current_exposure as int,
                    old(state).max_drawdown as int,
                    vol.regime,
                    SCALE as int,
                    entry_price_for(s[0].side, ctx.yes_ask as int),
                    config.max_daily_drawdown as int,
                    config.max_position as int,
                ) == RiskCheck::Allowed;
            if opened {
                let q = final(state).positions().last();
                &&& final(state).positions().len() == s.len() + 1
                &&& final(state).positions().drop_last() == s
                &&& q.side == s[0].side
                &&& q.leg == s.last().leg + 1
                &&& q.contracts == SCALE
                &&& q.entry_price == entry_price_for(s[0].side, ctx.yes_ask as int)
                &&& q.entry_btc_price == ctx.spot
                &&& q.entry_tick == ctx.tick_counter
                &&& q.peak_unrealized == 0
                &&& final(state).current_exposure == old(state).current_exposure + SCALE * q.entry_price
                &&& final(state).total_trades == old(state).total_trades + 1
            } else {
                &&& final(state).positions() == s
                &&& final(state).current_exposure == old(state).current_exposure
                &&& final(state).total_trades == old(state).total_trades
            }
        }),
        scale_step(*old(state), *final(state), *ctx, *vol, *config, ev.is_signal),
        final(state).positions().len() > old(state).positions().len() ==> ev.is_signal
            && final(state).positions().last().side == old(state).positions()[0].side,
        final(state).cumulative_pnl == old(state).cumulative_pnl,
        extends(old(actions)@, final(actions)@),
        no_exits_after(old(actions)@, final(actions)@),
        final(state).positions().len() > old(state).positions().len() ==> final(actions)@ == old(actions)@.push(
            place_action(final(state).positions().last(), old(state).name, true, probability, ev.ev, kelly_fraction)),
        final(state).positions().len() == old(state).positions().len() ==> final(actions)@ == old(actions)@,
        final(state).positions().len() > old(state).positions().len() ==> final(state).positions().last().market_ticker == *market_ticker,
{
    proof {
        assert(actions@.subrange(0, actions@.len() as int) =~= actions@);
    }
    proof {
        lemma_room_mono(state, LEDGER_HEADROOM + 6 * PNL_STEP, 6, LEDGER_HEADROOM + 7 * PNL_STEP, 7);
    }
    let n = state.position_count();
    if n == 0 || ctx.ttl_seconds <= MIN_ENTRY_TTL {
        return;
    }
    let ghost s = state.positions();
    let last_leg: u32 = state.position(n - 1).leg;
    if last_leg >= MAX_LEGS - 1 {
        return;
    }
    let first = state.position(0);
    proof {
        assert(s[0].valid());
    }
    let moved = match first.side {
        Side::Yes => ctx.spot - first.entry_btc_price > SCALE_IN_MOVE,
        Side::No => first.entry_btc_price - ctx.spot > SCALE_IN_MOVE,
    };
    if !(moved && state.unrealized_pnl > 0 && ev.is_signal) {
        return;
    }
    let side = first.side;
    let price: i64 = match side {
        Side::Yes => ctx.yes_ask,
        Side::No => SCALE - ctx.yes_ask,
    };
    let contracts: i64 = SCALE;
    let risk = check_risk_limits(state, vol, contracts, price, config.max_daily_drawdown, config.max_position);
    if !risk.is_allowed() {
        return;
    }
    let trade_id = new_trade_id();
    let pos = OpenPosition {
        trade_id: trade_id.clone(),
        market_ticker: market_ticker.clone(),
        side,
        entry_price: price,
        contracts,
        model_probability: probability,
        entry_tick: ctx.tick_counter,
        entry_btc_price: ctx.spot,
        peak_unrealized: 0,
        leg: last_leg + 1,
    };
    proof {
        lemma_leg_index(s, n - 1);
        assert forall|a: int| 0 <= a < n implies #[trigger] s[a].leg <= s[n - 1].leg by {
            if a < n - 1 {
                assert(s[a].leg < s[n - 1].leg);
            }
        }
    }
    positions_push(&mut state.open_positions, pos);
    proof {
        let s1 = state.positions();
        assert(s1.drop_last() =~= s);
        assert forall|a: int| 0 <= a < s1.len() implies #[trigger] s1[a].valid() by {
            if a < n {
                assert(s[a].valid());
            }
        }
        assert forall|a: int, b: int| 0 <= a < b < s1.len() implies s1[a].leg < s1[b].leg by {
            if b < n {
                assert(legs_ordered(s));
                assert(s[a].leg < s[b].leg);
            } else {
                assert(s[a].leg <= s[n - 1].leg);
            }
        }
        assert forall|a: int| 0 <= a < s1.len() implies #[trigger] s1[a].leg < MAX_LEGS by {
            if a < n {
                assert(s[a].leg < MAX_LEGS);
            }
        }
        crate::fixed::lemma_prod2_bound(SCALE as int, price as int, SCALE as int, SCALE as int);
    }
    state.current_exposure = state.current_exposure + contracts as i128 * price as i128;
    state.total_trades = state.total_trades + 1;
    actions.push(EngineAction::PlaceTrade {
        id: trade_id,
        model_name: state.name.clone(),
        market_ticker: market_ticker.clone(),
        side,
        scale_in: true,
        price,
        contracts,
        probability,
        ev: ev.ev,
        kelly_fraction,
    });
    proof {
        assert(actions@.subrange(0, old(actions)@.len() as int) =~= old(actions)@);
    }
}

/// Phase 4: opens a position of `contracts` on the EV's side when the
/// signal fires, sizing is positive, no position is open, more than 300 s
/// remain, and the risk check accepts it.
pub fn try_entry(
    state: &mut ModelState,
    ctx: &TickContext,
    vol: &VolatilityState,
    config: &EngineConfig,
    ev: &EvResult,
    contracts: i64,
    probability: i64,
    kelly_fraction: i64,
    market_ticker: &String,
    actions: &mut Vec<EngineAction>,
)
    requires
        old(state).wf(),
        old(state).room(LEDGER_HEADROOM + 7 * PNL_STEP, 7),
        ctx.valid(),
        config.valid(),
        0 <= probability <= SCALE,
        contracts <= MAX_CONTRACTS,
    ensures
        final(state).wf(),
        final(state).room(LEDGER_HEADROOM + 8 * PNL_STEP, 8),
        final(state).name == old(state).name,
        final(state).cumulative_pnl == old(state).cumulative_pnl,
        ({
            let side = if ev.buy_yes { Side::Yes } else { Side::No };
            let price = entry_price_for(side, ctx.yes_ask as int);
            let opened = ev.is_signal && contracts > 0 && old(state).positions().len() == 0
                && ctx.ttl_seconds > MIN_ENTRY_TTL
                && risk_decision(
                    old(state).daily_pnl as int,
                    old(state).current_exposure as int,
                    old(state).max_drawdown as int,
                    vol.regime,
                    contracts as int,
                    price,
                    config.max_daily_drawdown as int,
                    config.max_position as int,
                ) == RiskCheck::Allowed;
            if opened {
                let q = final(state).positions()[0];
                &&& final(state).positions().len() == 1
                &&& q.side == side
                &&& q.leg == 0
                &&& q.contracts == contracts
                &&& q.entry_price == price
                &&& q.entry_btc_price == ctx.spot
                &&& q.entry_tick == ctx.tick_counter
                &&& q.peak_unrealized == 0
                &&& q.model_probability == probability
                &&& final(state).current_exposure == old(state).current_exposure + contracts * price
                &&& final(state).total_trades == old(state).total_trades + 1
            } else {
                &&& final(state).positions() == old(state).positions()
                &&& final(state).current_exposure == old(state).current_exposure
                &&& final(state).total_trades == old(state).total_trades
            }
        }),
        entry_step(*old(state), *final(state), *ctx, *vol, *config, ev.is_signal, ev.buy_yes, contracts, probability),
        extends(old(actions)@, final(actions)@),
        no_exits_after(old(actions)@, final(actions)@),
        final(state).positions().len() > old(state).positions().len() ==> final(actions)@ == old(actions)@.push(
            place_action(final(state).positions().last(), old(state).name, false, probability, ev.ev, kelly_fraction)),
        final(state).positions().len() == old(state).positions().len() ==> final(actions)@ == old(actions)@,
        final(state).positions().len() > old(state).positions().len() ==> final(state).positions().last().market_ticker == *market_ticker,
{
    proof {
        assert(actions@.subrange(0, actions@.len() as int) =~= actions@);
    }
    proof {
        lemma_room_mono(state, LEDGER_HEADROOM + 7 * PNL_STEP, 7, LEDGER_HEADROOM + 8 * PNL_STEP, 8);
    }
    let n = state.position_count();
    if !(ev.is_signal && contracts > 0 && n == 0 && ctx.ttl_seconds > MIN_ENTRY_TTL) {
        return;
    }
    let side = if ev.buy_yes { Side::Yes } else { Side::No };
    let price: i64 = if ev.buy_yes { ctx.yes_ask } else { SCALE - ctx.yes_ask };
    let risk = check_risk_limits(state, vol, contracts, price, config.max_daily_drawdown, config.max_position);
    if !risk.is_allowed() {
        return;
    }
    let trade_id = new_trade_id();
    let pos = OpenPosition {
        trade_id: trade_id.clone(),
        market_ticker: market_ticker.clone(),
        side,
        entry_price: price,
        contracts,
        model_probability: probability,
        entry_tick: ctx.tick_counter,
        entry_btc_price: ctx.spot,
        peak_unrealized: 0,
        leg: 0,
    };
    positions_push(&mut state.open_positions, pos);
    proof {
        let s1 = state.positions();
        assert(s1.len() == 1);
        assert(s1[0].valid());
        assert(legs_ordered(s1));
        crate::fixed::lemma_prod2_bound(contracts as int, price as int, MAX_CONTRACTS as int, SCALE as int);
    }
    state.current_exposure = state.current_exposure + contracts as i128 * price as i128;
    state.total_trades = state.total_trades + 1;
    actions.push(EngineAction::PlaceTrade {
        id: trade_id,
        model_name: state.name.clone(),
        market_ticker: market_ticker.clone(),
        side,
        scale_in: false,
        price,
        contracts,
        probability,
        ev: ev.ev,
        kelly_fraction,
    });
    proof {
        assert(actions@.subrange(0, old(actions)@.len() as int) =~= old(actions)@);
    }
}

/// What phase 2 does (with the unrealized P/L then recomputed): see
/// `run_exits`.
pub open spec fn exit_step(a: ModelState, b: ModelState, ctx: TickContext) -> bool {
    &&& b.wf()
    &&& b.positions() == survivors(a.positions(), ctx)
    &&& b.cumulative_pnl == a.cumulative_pnl + realized_total(a.positions(), ctx)
    &&& b.daily_pnl == a.daily_pnl + realized_total(a.positions(), ctx)
    &&& b.total_trades == a.total_trades
    &&& b.name == a.name
    &&& b.unrealized_pnl == total_unrealized(b.positions(), ctx)
    &&& b.winning_trades == a.winning_trades + partial_wins(a.positions(), ctx) + full_wins(a.positions(), ctx)
    &&& b.beta_alpha == a.beta_alpha + (partial_wins(a.positions(), ctx) + full_wins(a.positions(), ctx)) * SCALE
    &&& b.beta_beta == a.beta_beta + full_losses(a.positions(), ctx) * SCALE
    &&& b.current_exposure == full_release(partial_release(a.current_exposure as int, a.positions(), ctx), a.positions(), ctx)
    &&& ledger_of(b) == exits_ledger(exits_ledger(ledger_of(a), a.positions(), ctx, true), a.positions(), ctx, false)
    &&& (count_partial(a.positions(), ctx) + count_full(a.positions(), ctx) > 0
        ==> crate::state::sharpe_holds(b.trade_returns@, b.sharpe as int))
    &&& (count_partial(a.positions(), ctx) + count_full(a.positions(), ctx) == 0 ==> b.sharpe == a.sharpe)
    &&& (a.positions().len() == 0 ==> b == (ModelState { unrealized_pnl: b.unrealized_pnl, ..a }))
}

pub open spec fn tick_ev_params(prob: i64, ctx: TickContext) -> EvParams {
    EvParams {
        probability: prob,
        contract_price: ctx.yes_ask,
        fee_rate: FEE_RATE,
        slippage: SLIPPAGE,
        fill_probability: FILL_PROB,
    }
}

/// Whether the tick's EV computation prefers YES.
pub open spec fn tick_buy_yes(prob: i64, ctx: TickContext) -> bool {
    crate::ev::spec_ev_yes(tick_ev_params(prob, ctx)) >= crate::ev::spec_ev_no(tick_ev_params(prob, ctx))
}

/// Whether the tick's EV signal fires.
pub open spec fn tick_signal(prob: i64, ctx: TickContext, config: EngineConfig) -> bool {
    (if tick_buy_yes(prob, ctx) {
        crate::ev::spec_ev_yes(tick_ev_params(prob, ctx))
    } else {
        crate::ev::spec_ev_no(tick_ev_params(prob, ctx))
    }) > config.ev_threshold as int * crate::ev::cube_scale()
}

/// The four phases of a tick from `o` to `n` through `a` (marked), `b`
/// (after exits), `c` (after a scale-in) and `d` (after an entry).
pub open spec fn tick_phases(
    o: ModelState,
    a: ModelState,
    b: ModelState,
    c: ModelState,
    d: ModelState,
    n: ModelState,
    ctx: TickContext,
    vol: VolatilityState,
    config: EngineConfig,
) -> bool {
    &&& a.positions() == o.positions().map_values(|p: OpenPosition| marked(p, ctx))
    &&& a == (ModelState { open_positions: a.open_positions, unrealized_pnl: a.unrealized_pnl, ..o })
    &&& exit_step(a, b, ctx)
    &&& scale_step(b, c, ctx, vol, config, tick_signal(n.probability, ctx, config))
    &&& entry_step(c, d, ctx, vol, config, tick_signal(n.probability, ctx, config), tick_buy_yes(n.probability, ctx),
        n.kelly_size, n.probability)
    &&& n == (ModelState {
        unrealized_pnl: total_unrealized(d.positions(), ctx) as i128,
        probability: n.probability,
        ev: n.ev,
        kelly_size: n.kelly_size,
        ..d
    })
}

/// Kelly inputs of a tick: the probability and price of the preferred side
/// and the model's Beta counters before the tick.
pub open spec fn tick_kelly_params(o: ModelState, prob: i64, ctx: TickContext, config: EngineConfig) -> KellyParams {
    let buy = tick_buy_yes(prob, ctx);
    KellyParams {
        model_probability: if buy { prob } else { (SCALE - prob) as i64 },
        alpha: o.beta_alpha,
        beta: o.beta_beta,
        contract_price: if buy { ctx.yes_ask } else { (SCALE - ctx.yes_ask) as i64 },
        fractional_gamma: config.fractional_kelly,
        lambda: KELLY_LAMBDA,
        max_position: config.max_position,
    }
}

/// Paper size: positive Kelly sizes are raised to one contract.
pub open spec fn paper_size(contracts: int) -> int {
    if contracts > 0 { if contracts > SCALE { contracts } else { SCALE as int } } else { contracts }
}

/// What one model's tick does (see `run_model_tick`).
pub open spec fn tick_post(
    o: ModelState,
    n: ModelState,
    cal: Calibrator,
    ctx: TickContext,
    raw: i64,
    vol: VolatilityState,
    config: EngineConfig,
    ticker: String,
    acts_o: Seq<EngineAction>,
    acts_n: Seq<EngineAction>,
) -> bool {
    let mk = o.positions().map_values(|p: OpenPosition| marked(p, ctx));
    let kept = survivors(mk, ctx);
    &&& extends(acts_o, acts_n)
    &&& forall|k: int| 0 <= k < mk.len() && (#[trigger] exit_rule(mk[k], ctx)) is Full
        ==> acts_n.contains(exit_action(mk[k], ctx, o.name, exit_rule(mk[k], ctx)->Full_0))
    &&& exits_only(acts_o, acts_n, mk, ctx, o.name)
    &&& n.wf()
    &&& n.name == o.name
    &&& n.unrealized_pnl == total_unrealized(n.positions(), ctx)
    &&& n.probability == crate::calibration::spec_calibrate(cal, raw as int)
    &&& (crate::calibration::CAL_LO <= raw <= crate::calibration::CAL_HI ==> crate::calibration::CAL_LO <= n.probability
        <= crate::calibration::CAL_HI)
    &&& n.positions().take(kept.len() as int) == kept
    &&& kept.len() <= n.positions().len() <= kept.len() + 1
    &&& n.cumulative_pnl == o.cumulative_pnl + realized_total(o.positions().map_values(|p: OpenPosition| marked(p, ctx)), ctx)
    &&& forall|k: int| 0 <= k < mk.len() && #[trigger] partial_due(mk[k], ctx)
        ==> acts_n.contains(partial_action(mk[k], ctx, o.name, ticker, n.probability))
    &&& exists|a: ModelState, b: ModelState, c: ModelState, d: ModelState, k: KellyResult|
        #![trigger tick_phases(o, a, b, c, d, n, ctx, vol, config), kelly_holds(tick_kelly_params(o, n.probability, ctx, config), k)]
        {
            &&& tick_phases(o, a, b, c, d, n, ctx, vol, config)
            &&& kelly_holds(tick_kelly_params(o, n.probability, ctx, config), k)
            &&& n.kelly_size == paper_size(k.contracts as int)
            &&& (c.positions().len() > b.positions().len() ==> acts_n.contains(
                place_action(c.positions().last(), o.name, true, n.probability, n.ev, k.robust_fraction)))
            &&& (d.positions().len() > c.positions().len() ==> acts_n.contains(
                place_action(d.positions().last(), o.name, false, n.probability, n.ev, k.robust_fraction)))
        }
}

/// Runs one tick for one model: calibrates `raw_probability`, computes EV
/// and Kelly size, then marks to market, exits, scales in and enters, in
/// that order. The model's unrealized P/L ends as the mark of the
/// positions that remain.
#[verifier::rlimit(40)]
pub fn run_model_tick(
    state: &mut ModelState,
    cal: &Calibrator,
    ctx: &TickContext,
    raw_probability: i64,
    vol: &VolatilityState,
    config: &EngineConfig,
    market_ticker: &String,
    actions: &mut Vec<EngineAction>,
)
    requires
        old(state).wf(),
        old(state).has_headroom(),
        cal.wf(),
        ctx.valid(),
        config.valid(),
        0 <= raw_probability <= SCALE,
    ensures
        final(state).wf(),
        final(state).room(LEDGER_HEADROOM + 8 * PNL_STEP, 8),
        final(state).unrealized_pnl == total_unrealized(final(state).positions(), *ctx),
        final(state).probability == crate::calibration::spec_calibrate(*cal, raw_probability as int),
        final(state).name == old(state).name,
        ({
            let kept = survivors(old(state).positions().map_values(|p: OpenPosition| marked(p, *ctx)), *ctx);
            &&& final(state).positions().take(kept.len() as int) == kept
            &&& kept.len() <= final(state).positions().len() <= kept.len() + 1
        }),
        final(state).cumulative_pnl == old(state).cumulative_pnl
            + realized_total(old(state).positions().map_values(|p: OpenPosition| marked(p, *ctx)), *ctx),
        tick_post(*old(state), *final(state), *cal, *ctx, raw_probability, *vol, *config, *market_ticker, old(actions)@,
            final(actions)@),
{
    let prob = cal.calibrate(raw_probability);
    proof {
        assert(crate::calibration::in_cal_range(cal.calibrated@));
        if cal.total >= crate::calibration::MIN_CALIBRATION_OBS {
            let b = crate::calibration::bucket_of(raw_probability as int);
            assert(0 <= b < 10);
            assert(crate::calibration::CAL_LO <= cal.calibrated@[b] <= crate::calibration::CAL_HI);
        }
        assert(0 <= prob <= SCALE);
    }
    let ev = compute_ev(&EvParams {
        probability: prob,
        contract_price: ctx.yes_ask,
        fee_rate: FEE_RATE,
        slippage: SLIPPAGE,
        fill_probability: FILL_PROB,
    }, config.ev_threshold);
    let win_prob: i64 = if ev.buy_yes { prob } else { SCALE - prob };
    let price: i64 = if ev.buy_yes { ctx.yes_ask } else { SCALE - ctx.yes_ask };
    let kelly = compute_kelly(&KellyParams {
        model_probability: win_prob,
        alpha: state.beta_alpha,
        beta: state.beta_beta,
        contract_price: price,
        fractional_gamma: config.fractional_kelly,
        lambda: KELLY_LAMBDA,
        max_position: config.max_position,
    });
    let paper: i64 = if kelly.contracts > 0 {
        if kelly.contracts > SCALE { kelly.contracts } else { SCALE }
    } else {
        kelly.contracts
    };
    let ghost s_old = state.positions();
    let ghost o_state = *state;
    mark_to_market(state, ctx);
    let ghost a_state = *state;
    proof {
        lemma_room_mono(state, LEDGER_HEADROOM as int, 0, LEDGER_HEADROOM as int, 0);
        assert(state.positions() =~= s_old.map_values(|p: OpenPosition| marked(p, *ctx)));
    }
    let ghost acts0 = actions@;
    proof {
        assert(acts0.subrange(0, acts0.len() as int) =~= acts0);
    }
    run_exits(state, ctx, prob, market_ticker, actions);
    let ghost acts1 = actions@;
    let ghost kept = state.positions();
    let after_exits = sum_unrealized(state, ctx);
    proof {
        lemma_total_bound(state.positions(), *ctx);
        let len = state.positions().len() as int;
        assert(len <= 3);
        assert(len * (SCALE as int * MAX_CONTRACTS) <= 3 * (SCALE as int * MAX_CONTRACTS)) by (nonlinear_arith)
            requires len <= 3;
        assert(-len * (SCALE as int * MAX_CONTRACTS) >= -3 * (SCALE as int * MAX_CONTRACTS)) by (nonlinear_arith)
            requires len <= 3;
        assert(-(len) * (SCALE as int * MAX_CONTRACTS) == -len * (SCALE as int * MAX_CONTRACTS)) by (nonlinear_arith);
    }
    state.unrealized_pnl = after_exits;
    let ghost b_state = *state;
    try_scale_in(state, ctx, vol, config, &ev, prob, kelly.robust_fraction, market_ticker, actions);
    let ghost acts2 = actions@;
    proof {
        if state.positions().len() > kept.len() {
            assert(state.positions().take(kept.len() as int) =~= state.positions().drop_last());
        } else {
            assert(state.positions().take(kept.len() as int) =~= kept);
        }
    }
    let ghost mid = state.positions();
    let ghost c_state = *state;
    try_entry(state, ctx, vol, config, &ev, paper, prob, kelly.robust_fraction, market_ticker, actions);
    proof {
        if state.positions().len() != mid.len() {
            assert(mid.len() == 0);
            assert(kept.len() == 0);
            assert(state.positions().take(0) =~= kept);
        }
    }
    let last = sum_unrealized(state, ctx);
    proof {
        lemma_total_bound(state.positions(), *ctx);
        let len = state.positions().len() as int;
        assert(len <= 3);
        assert(len * (SCALE as int * MAX_CONTRACTS) <= 3 * (SCALE as int * MAX_CONTRACTS)) by (nonlinear_arith)
            requires len <= 3;
        assert(-len * (SCALE as int * MAX_CONTRACTS) >= -3 * (SCALE as int * MAX_CONTRACTS)) by (nonlinear_arith)
            requires len <= 3;
        assert(-(len) * (SCALE as int * MAX_CONTRACTS) == -len * (SCALE as int * MAX_CONTRACTS)) by (nonlinear_arith);
    }
    let ghost d_state = *state;
    state.unrealized_pnl = last;
    state.probability = prob;
    state.ev = ev.ev;
    state.kelly_size = paper;
    proof {
        if crate::calibration::CAL_LO <= raw_probability <= crate::calibration::CAL_HI {
            crate::calibration::lemma_calibrated_in_range(*cal, raw_probability as int);
        }
        assert(tick_buy_yes(prob, *ctx) == ev.buy_yes);
        assert(kelly_holds(tick_kelly_params(o_state, prob, *ctx, *config), kelly));
        lemma_extends_trans(acts1, acts2, actions@);
        assert(extends(acts1, acts2)) by {
            assert(acts2.subrange(0, acts1.len() as int) =~= acts1);
        }
        assert(extends(acts2, actions@)) by {
            assert(actions@.subrange(0, acts2.len() as int) =~= acts2);
        }
        if c_state.positions().len() > b_state.positions().len() {
            let pa = place_action(c_state.positions().last(), o_state.name, true, prob, ev.ev, kelly.robust_fraction);
            assert(acts2[acts2.len() - 1] == pa);
            lemma_extends_contains(acts2, actions@, pa);
        }
        if d_state.positions().len() > c_state.positions().len() {
            let pe = place_action(d_state.positions().last(), o_state.name, false, prob, ev.ev, kelly.robust_fraction);
            assert(actions@[actions@.len() - 1] == pe);
        }
        let mkp = o_state.positions().map_values(|p: OpenPosition| marked(p, *ctx));
        assert(a_state.positions() == mkp);
        assert forall|k: int| 0 <= k < mkp.len() && #[trigger] partial_due(mkp[k], *ctx)
            implies actions@.contains(partial_action(mkp[k], *ctx, o_state.name, *market_ticker, prob)) by {
            lemma_extends_contains(acts1, actions@, partial_action(mkp[k], *ctx, o_state.name, *market_ticker, prob));
        }
        assert(tick_signal(prob, *ctx, *config) == ev.is_signal);
        assert(tick_phases(o_state, a_state, b_state, c_state, d_state, *state, *ctx, *vol, *config));
        lemma_extends_trans(acts1, acts2, actions@);
        lemma_extends_trans(acts0, acts1, actions@);
        let mk0 = o_state.positions().map_values(|p: OpenPosition| marked(p, *ctx));
        assert(a_state.positions() == mk0);
        assert forall|q: int| acts0.len() <= q < actions@.len() && (#[trigger] actions@[q]) is ExitTrade
            implies exists|k: int| 0 <= k < mk0.len() && (#[trigger] exit_rule(mk0[k], *ctx)) is Full
                && actions@[q] == exit_action(mk0[k], *ctx, o_state.name, exit_rule(mk0[k], *ctx)->Full_0) by {
            if q < acts1.len() {
                assert(actions@.subrange(0, acts1.len() as int)[q] == actions@[q]);
                assert(acts1[q] == actions@[q]);
            } else if q < acts2.len() {
                assert(actions@.subrange(0, acts2.len() as int)[q] == actions@[q]);
                assert(acts2[q] == actions@[q]);
            }
        }
        let mk = o_state.positions().map_values(|p: OpenPosition| marked(p, *ctx));
        assert(a_state.positions() == mk);
        assert forall|k: int| 0 <= k < mk.len() && (#[trigger] exit_rule(mk[k], *ctx)) is Full
            implies actions@.contains(exit_action(mk[k], *ctx, o_state.name, exit_rule(mk[k], *ctx)->Full_0)) by {
            lemma_extends_contains(acts1, actions@, exit_action(mk[k], *ctx, o_state.name, exit_rule(mk[k], *ctx)->Full_0));
        }
    }
}

/// A model holds at most `MAX_LEGS` positions, whose legs strictly
/// increase along the list and stay below `MAX_LEGS`.
pub proof fn lemma_legs_bounded(state: &ModelState)
    requires
        state.wf(),
    ensures
        state.positions().len() <= MAX_LEGS,
        forall|i: int, j: int| 0 <= i < j < state.positions().len() ==> state.positions()[i].leg < state.positions()[j].leg,
        forall|i: int| 0 <= i < state.positions().len() ==> #[trigger] state.positions()[i].leg < MAX_LEGS,
        forall|i: int| 0 <= i < state.positions().len() ==> #[trigger] state.positions()[i].leg >= i,
{
    assert forall|i: int| 0 <= i < state.positions().len() implies #[trigger] state.positions()[i].leg >= i by {
        lemma_leg_index(state.positions(), i);
    }
}

/// Exposure is never negative, and an exit or settlement releases its cost
/// with a floor at zero.
pub proof fn lemma_exposure_nonnegative(state: &ModelState)
    requires
        state.wf(),
    ensures
        state.current_exposure >= 0,
{
}
} // verus!
