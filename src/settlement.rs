//! Settlement of pending trades when the tracked market resolves.
use vstd::prelude::*;
use crate::fixed::{SCALE, MAX_CONTRACTS, lemma_prod2_bound};
use crate::state::{ring_push, return_on_cost, peak_after, drawdown_after, sharpe_holds, ModelState, OpenPosition, Side, LEDGER_HEADROOM, LEDGER_LIMIT, PNL_STEP, MAX_STEPS, COUNT_HEADROOM, PRIOR_HEADROOM};
use crate::positions::{positions_len, positions_get, positions_remove};
use crate::calibration::{Calibrator, MAX_OBSERVATIONS, REFIT_EVERY, is_fit};
use crate::simulator::{EngineAction, lemma_legs_remove};
use crate::errors::EngineError;

verus! {

/// A trade awaiting the market's resolution, as storage keeps it.
/// `entry_price` and `model_probability` are in millionths, `contracts` in
/// millionths of a contract, `fees` in pico-dollars.
#[derive(Debug)]
pub struct PendingTrade {
    pub id: String,
    pub model_name: String,
    pub side: Side,
    pub entry_price: i64,
    pub contracts: i64,
    pub model_probability: i64,
    pub fees: i128,
}

impl PendingTrade {
    pub open spec fn valid(&self) -> bool {
        &&& 0 <= self.entry_price <= SCALE
        &&& 0 <= self.contracts <= MAX_CONTRACTS
        &&& 0 <= self.model_probability <= SCALE
        &&& 0 <= self.fees <= SCALE as int * MAX_CONTRACTS
    }
}

/// Whether a trade on `side` wins when the market resolves to `result`
/// (`None` for a resolution that is neither YES nor NO).
pub open spec fn wins(side: Side, result: Option<Side>) -> bool {
    result == Some(side)
}

/// Settlement P/L: `(1 - entry) * contracts - fees` on a win,
/// `-entry * contracts - fees` on a loss.
pub open spec fn settlement_pnl(t: PendingTrade, result: Option<Side>) -> int {
    if wins(t.side, result) {
        (SCALE - t.entry_price) * t.contracts - t.fees
    } else {
        -(t.entry_price * t.contracts) - t.fees
    }
}

/// Squared error of the trade's probability against the YES outcome, in
/// millionths squared.
pub open spec fn brier_term(prob: int, result: Option<Side>) -> int {
    let outcome = if result == Some(Side::Yes) { SCALE as int } else { 0 };
    (prob - outcome) * (prob - outcome)
}

/// What settling `t` against a model and its calibrator does: P/L, wins,
/// Beta counters, exposure released (floored at zero), Brier sums, return
/// ring, equity peak, drawdown and Sharpe ratio, the position removed by
/// trade id, and the calibrator's record (refitted on every 20th).
pub open spec fn settled(os: ModelState, ns: ModelState, oc: Calibrator, nc: Calibrator, t: PendingTrade, result: Option<Side>) -> bool {
    let cost = t.entry_price * t.contracts;
    let b = crate::calibration::bucket_of(t.model_probability as int);
    let won = wins(t.side, result);
    &&& ns.wf()
    &&& nc.wf()
    &&& ns.cumulative_pnl == os.cumulative_pnl + settlement_pnl(t, result)
    &&& ns.daily_pnl == os.daily_pnl + settlement_pnl(t, result)
    &&& ns.current_exposure == (if os.current_exposure - cost > 0 { os.current_exposure - cost } else { 0 })
    &&& ns.winning_trades == os.winning_trades + (if won { 1int } else { 0 })
    &&& ns.beta_alpha == os.beta_alpha + (if won { SCALE as int } else { 0 })
    &&& ns.beta_beta == os.beta_beta + (if won { 0 } else { SCALE as int })
    &&& ns.brier_sum == os.brier_sum + brier_term(t.model_probability as int, result)
    &&& ns.brier_count == os.brier_count + 1
    &&& ns.brier_score as int == ns.brier_sum as int / ns.brier_count as int / SCALE as int
    &&& ns.total_trades == os.total_trades
    &&& ns.trade_returns@ == ring_push(os.trade_returns@, return_on_cost(settlement_pnl(t, result), cost))
    &&& ns.peak_equity == peak_after(os.peak_equity as int, ns.cumulative_pnl as int)
    &&& ns.max_drawdown == drawdown_after(os.max_drawdown as int, os.peak_equity as int, ns.cumulative_pnl as int)
    &&& sharpe_holds(ns.trade_returns@, ns.sharpe as int)
    &&& ns.unrealized_pnl == 0
    &&& ns.name == os.name
    &&& forall|i: int| 0 <= i < ns.positions().len() ==> (#[trigger] ns.positions()[i]).trade_id@ != t.id@
    &&& forall|i: int| 0 <= i < ns.positions().len() ==> os.positions().contains(#[trigger] ns.positions()[i])
    &&& forall|i: int| 0 <= i < os.positions().len() && (#[trigger] os.positions()[i]).trade_id@ != t.id@
        ==> ns.positions().contains(os.positions()[i])
    &&& nc.total == oc.total + 1
    &&& nc.predicted@ == oc.predicted@.update(b, (oc.predicted[b] + 1) as u64)
    &&& nc.realized@ == (if won { oc.realized@.update(b, (oc.realized[b] + 1) as u64) } else { oc.realized@ })
    &&& (nc.total % REFIT_EVERY != 0 ==> nc.calibrated@ == oc.calibrated@)
    &&& (nc.total % REFIT_EVERY == 0 ==> is_fit(nc.calibrated@, nc.predicted@, nc.realized@))
}

/// No refit happens between `a` (excluded) and `b` observations.
pub open spec fn no_refit(a: int, b: int) -> bool {
    forall|t: int| a < t <= b ==> #[trigger] (t % REFIT_EVERY as int) != 0
}

/// Settles one trade against one model and its calibrator.
pub fn settle_one(
    state: &mut ModelState,
    cal: &mut Calibrator,
    t: &PendingTrade,
    result: Option<Side>,
) -> (pnl: i128)
    requires
        old(state).wf(),
        old(state).has_headroom(),
        old(cal).wf(),
        old(cal).total < MAX_OBSERVATIONS,
        t.valid(),
    ensures
        pnl == settlement_pnl(*t, result),
        settled(*old(state), *final(state), *old(cal), *final(cal), *t, result),
{
    settle_in_room(state, cal, t, result, Ghost(LEDGER_HEADROOM as int), Ghost(0))
}

/// `settle_one` for a state within `m` and `k` updates of its bounds.
pub(crate) fn settle_in_room(
    state: &mut ModelState,
    cal: &mut Calibrator,
    t: &PendingTrade,
    result: Option<Side>,
    Ghost(m): Ghost<int>,
    Ghost(k): Ghost<int>,
) -> (pnl: i128)
    requires
        old(state).wf(),
        old(state).room(m, k),
        m + 2 * PNL_STEP <= LEDGER_LIMIT,
        k < MAX_STEPS,
        old(cal).wf(),
        old(cal).total < MAX_OBSERVATIONS,
        t.valid(),
    ensures
        pnl == settlement_pnl(*t, result),
        settled(*old(state), *final(state), *old(cal), *final(cal), *t, result),
        final(state).room(m + 2 * PNL_STEP, k + 1),
{
    let won: bool = match result {
        Some(s) => s == t.side,
        None => false,
    };
    proof {
        lemma_prod2_bound(t.entry_price as int, t.contracts as int, SCALE as int, MAX_CONTRACTS as int);
        lemma_prod2_bound((SCALE - t.entry_price) as int, t.contracts as int, SCALE as int, MAX_CONTRACTS as int);
    }
    let cost: i128 = t.entry_price as i128 * t.contracts as i128;
    let pnl: i128 = if won {
        (SCALE as i128 - t.entry_price as i128) * t.contracts as i128 - t.fees
    } else {
        -cost - t.fees
    };
    state.book_trade(pnl, cost, won, true, Ghost(m), Ghost(k));
    let outcome: i128 = match result {
        Some(Side::Yes) => SCALE as i128,
        _ => 0,
    };
    let diff: i128 = t.model_probability as i128 - outcome;
    proof {
        assert(0 <= diff * diff <= 1_000_000_000_000) by (nonlinear_arith)
            requires -1_000_000 <= diff <= 1_000_000;
    }
    state.brier_sum = state.brier_sum + diff * diff;
    state.brier_count = state.brier_count + 1;
    state.compute_brier();
    remove_trade(state, &t.id);
    state.unrealized_pnl = 0;
    cal.record(t.model_probability, won);
    proof {
        crate::simulator::lemma_room_mono(state, m + PNL_STEP + 1_000_000_000_000, k + 1, m + 2 * PNL_STEP, k + 1);
    }
    pnl
}

/// Removes every open position whose trade id is `id`.
fn remove_trade(state: &mut ModelState, id: &String)
    requires
        old(state).wf(),
    ensures
        final(state).wf(),
        forall|i: int| 0 <= i < final(state).positions().len() ==> (#[trigger] final(state).positions()[i]).trade_id@ != id@,
        forall|i: int| 0 <= i < old(state).positions().len() && (#[trigger] old(state).positions()[i]).trade_id@ != id@
            ==> final(state).positions().contains(old(state).positions()[i]),
        final(state).positions().len() <= old(state).positions().len(),
        forall|i: int| 0 <= i < final(state).positions().len() ==> old(state).positions().contains(#[trigger] final(state).positions()[i]),
        final(state).cumulative_pnl == old(state).cumulative_pnl,
        final(state).daily_pnl == old(state).daily_pnl,
        final(state).current_exposure == old(state).current_exposure,
        final(state).peak_equity == old(state).peak_equity,
        final(state).max_drawdown == old(state).max_drawdown,
        final(state).total_trades == old(state).total_trades,
        final(state).winning_trades == old(state).winning_trades,
        final(state).beta_alpha == old(state).beta_alpha,
        final(state).beta_beta == old(state).beta_beta,
        final(state).brier_sum == old(state).brier_sum,
        final(state).brier_count == old(state).brier_count,
        final(state).brier_score == old(state).brier_score,
        final(state).unrealized_pnl == old(state).unrealized_pnl,
        final(state).trade_returns@ == old(state).trade_returns@,
        final(state).name == old(state).name,
        final(state).sharpe == old(state).sharpe,
{
    let ghost s0 = state.positions();
    let mut i: usize = 0;
    while i < positions_len(&state.open_positions)
        invariant
            state.wf(),
            i <= state.positions().len() <= s0.len(),
            forall|k: int| 0 <= k < i ==> (#[trigger] state.positions()[k]).trade_id@ != id@,
            forall|k: int| 0 <= k < state.positions().len() ==> s0.contains(#[trigger] state.positions()[k]),
            forall|k: int| 0 <= k < s0.len() && (#[trigger] s0[k]).trade_id@ != id@ ==> state.positions().contains(s0[k]),
            state.cumulative_pnl == old(state).cumulative_pnl,
            state.daily_pnl == old(state).daily_pnl,
            state.current_exposure == old(state).current_exposure,
            state.peak_equity == old(state).peak_equity,
            state.max_drawdown == old(state).max_drawdown,
            state.total_trades == old(state).total_trades,
            state.winning_trades == old(state).winning_trades,
            state.beta_alpha == old(state).beta_alpha,
            state.beta_beta == old(state).beta_beta,
            state.brier_sum == old(state).brier_sum,
            state.brier_count == old(state).brier_count,
            state.brier_score == old(state).brier_score,
            state.unrealized_pnl == old(state).unrealized_pnl,
            state.trade_returns@ == old(state).trade_returns@,
            state.name == old(state).name,
            state.sharpe == old(state).sharpe,
            s0 == old(state).positions(),
        decreases state.positions().len() - i,
    {
        let same: bool = positions_get(&state.open_positions, i).trade_id == *id;
        if same {
            let ghost before = state.positions();
            proof {
                lemma_legs_remove(before, i as int);
            }
            let _gone: OpenPosition = positions_remove(&mut state.open_positions, i);
            proof {
                let after = state.positions();
                assert forall|a: int| 0 <= a < after.len() implies #[trigger] after[a].valid() by {
                    let a1 = if a < i { a } else { a + 1 };
                    assert(before[a1].valid());
                }
                assert forall|k: int| 0 <= k < after.len() implies s0.contains(#[trigger] after[k]) by {
                    let k1 = if k < i { k } else { k + 1 };
                    assert(after[k] == before[k1]);
                    assert(s0.contains(before[k1]));
                }
                assert forall|k: int| 0 <= k < s0.len() && (#[trigger] s0[k]).trade_id@ != id@ implies after.contains(s0[k]) by {
                    let j = choose|j: int| 0 <= j < before.len() && before[j] == s0[k];
                    assert(j != i);
                    if j < i {
                        assert(after[j] == s0[k]);
                    } else {
                        assert(after[j - 1] == s0[k]);
                    }
                }
            }
        } else {
            i = i + 1;
        }
    }
}

/// Index of the first model named `name`.
pub fn find_model(model_states: &Vec<ModelState>, name: &String) -> (r: Option<usize>)
    ensures
        r matches Some(k) ==> k < model_states.len() && model_states[k as int].name@ == name@
            && forall|j: int| 0 <= j < k ==> (#[trigger] model_states[j]).name@ != name@,
        r is None ==> forall|j: int| 0 <= j < model_states.len() ==> (#[trigger] model_states[j]).name@ != name@,
{
    let mut k: usize = 0;
    while k < model_states.len()
        invariant
            k <= model_states.len(),
            forall|j: int| 0 <= j < k ==> (#[trigger] model_states[j]).name@ != name@,
        decreases model_states.len() - k,
    {
        if model_states[k].name == *name {
            return Some(k);
        }
        k = k + 1;
    }
    None
}

/// Room for settling `n` trades: money within `2n` steps and counters
/// within `n` updates of their headroom bounds.
pub open spec fn batch_room(st: ModelState, n: int) -> bool {
    st.room(LEDGER_HEADROOM - 2 * n * PNL_STEP, -n)
}

/// Whether a model has room for settling `n` trades.
pub fn has_room_for(st: &ModelState, n: usize) -> (r: bool)
    ensures
        r == batch_room(*st, n as int),
{
    if n as u64 > 0x4_0000_0000_0000 {
        proof {
            assert(LEDGER_HEADROOM - 2 * (n as int) * PNL_STEP < 0);
        }
        return false;
    }
    let m: i128 = LEDGER_HEADROOM - 2 * (n as i128) * PNL_STEP;
    let k: i128 = n as i128;
    -m <= st.cumulative_pnl && st.cumulative_pnl <= m
        && -m <= st.daily_pnl && st.daily_pnl <= m
        && st.current_exposure <= m
        && st.peak_equity <= m
        && st.brier_sum <= m
        && (st.total_trades as i128) <= COUNT_HEADROOM as i128 - k
        && (st.winning_trades as i128) <= COUNT_HEADROOM as i128 - k
        && (st.brier_count as i128) <= COUNT_HEADROOM as i128 - k
        && (st.beta_alpha as i128) <= PRIOR_HEADROOM as i128 - k * SCALE as i128
        && (st.beta_beta as i128) <= PRIOR_HEADROOM as i128 - k * SCALE as i128
}

/// Every model has room for `n` settlements and its calibrator for `n`
/// records.
pub open spec fn batch_ok(ms: Seq<ModelState>, cs: Seq<Calibrator>, n: int) -> bool {
    forall|i: int| 0 <= i < ms.len() ==> batch_room(#[trigger] ms[i], n) && cs[i].total + n <= MAX_OBSERVATIONS
}

/// Model `i` is the first one named like the trade's model.
pub open spec fn is_for(ms: Seq<ModelState>, t: PendingTrade, i: int) -> bool {
    &&& 0 <= i < ms.len()
    &&& ms[i].name@ == t.model_name@
    &&& forall|j: int| 0 <= j < i ==> (#[trigger] ms[j]).name@ != t.model_name@
}

/// Over the trades settled against model `i`: total P/L, number, wins,
/// and sum of Brier terms.
pub open spec fn settle_sums(ms: Seq<ModelState>, ts: Seq<PendingTrade>, i: int, result: Option<Side>) -> (int, int, int, int)
    decreases ts.len(),
{
    if ts.len() == 0 {
        (0, 0, 0, 0)
    } else {
        let (p, c, w, b) = settle_sums(ms, ts.drop_last(), i, result);
        let t = ts.last();
        if is_for(ms, t, i) {
            (p + settlement_pnl(t, result), c + 1, w + if wins(t.side, result) { 1int } else { 0 },
                b + brier_term(t.model_probability as int, result))
        } else {
            (p, c, w, b)
        }
    }
}

/// Exposure of model `i` after releasing the cost of each of its trades in
/// turn, floored at zero.
pub open spec fn exposure_after(x: int, ms: Seq<ModelState>, ts: Seq<PendingTrade>, i: int) -> int
    decreases ts.len(),
{
    if ts.len() == 0 {
        x
    } else {
        let y = exposure_after(x, ms, ts.drop_last(), i);
        let t = ts.last();
        if is_for(ms, t, i) {
            if y - t.entry_price * t.contracts > 0 { y - t.entry_price * t.contracts } else { 0 }
        } else {
            y
        }
    }
}

/// Trades of model `i` in calibration bucket `b`, and how many of them won.
pub open spec fn bucket_sums(ms: Seq<ModelState>, ts: Seq<PendingTrade>, i: int, b: int, result: Option<Side>) -> (int, int)
    decreases ts.len(),
{
    if ts.len() == 0 {
        (0, 0)
    } else {
        let (c, w) = bucket_sums(ms, ts.drop_last(), i, b, result);
        let t = ts.last();
        if is_for(ms, t, i) && crate::calibration::bucket_of(t.model_probability as int) == b {
            (c + 1, w + if wins(t.side, result) { 1int } else { 0 })
        } else {
            (c, w)
        }
    }
}

/// Return ring, cumulative P/L, equity peak and maximum drawdown of model
/// `i` (starting from `o`) after settling its trades among `ts` in order.
pub open spec fn ledger_after(ms: Seq<ModelState>, ts: Seq<PendingTrade>, i: int, result: Option<Side>, o: ModelState)
    -> (Seq<i64>, int, int, int)
    decreases ts.len(),
{
    if ts.len() == 0 {
        (o.trade_returns@, o.cumulative_pnl as int, o.peak_equity as int, o.max_drawdown as int)
    } else {
        let (r, c, p, d) = ledger_after(ms, ts.drop_last(), i, result, o);
        let t = ts.last();
        if is_for(ms, t, i) {
            let pnl = settlement_pnl(t, result);
            let c2 = c + pnl;
            (ring_push(r, return_on_cost(pnl, t.entry_price * t.contracts)), c2, peak_after(p, c2), drawdown_after(d, p, c2))
        } else {
            (r, c, p, d)
        }
    }
}

/// A trade id settled against model `i`.
pub open spec fn settled_id(ms: Seq<ModelState>, ts: Seq<PendingTrade>, i: int, id: Seq<char>) -> bool {
    exists|q: int| 0 <= q < ts.len() && is_for(ms, #[trigger] ts[q], i) && ts[q].id@ == id
}

/// The action reporting a settled trade.
pub open spec fn settle_action(t: PendingTrade, result: Option<Side>) -> EngineAction {
    EngineAction::SettleTrade {
        trade_id: t.id,
        model_name: t.model_name,
        won: wins(t.side, result),
        pnl: settlement_pnl(t, result) as i128,
    }
}

/// What settling the trades `ts` does to model `i` (`o` before, `n` after)
/// and its calibrator.
pub open spec fn model_settled(
    ms: Seq<ModelState>,
    ts: Seq<PendingTrade>,
    i: int,
    result: Option<Side>,
    o: ModelState,
    n: ModelState,
    oc: Calibrator,
    nc: Calibrator,
) -> bool {
    let (p, c, w, b) = settle_sums(ms, ts, i, result);
    &&& n.wf()
    &&& nc.wf()
    &&& n.name == o.name
    &&& n.cumulative_pnl == o.cumulative_pnl + p
    &&& n.daily_pnl == o.daily_pnl + p
    &&& n.winning_trades == o.winning_trades + w
    &&& n.beta_alpha == o.beta_alpha + w * SCALE
    &&& n.beta_beta == o.beta_beta + (c - w) * SCALE
    &&& n.brier_sum == o.brier_sum + b
    &&& n.brier_count == o.brier_count + c
    &&& (c > 0 ==> n.brier_score as int == n.brier_sum as int / n.brier_count as int / SCALE as int)
    &&& (c == 0 ==> n.brier_score == o.brier_score)
    &&& n.total_trades == o.total_trades
    &&& n.trade_returns@ == ledger_after(ms, ts, i, result, o).0
    &&& n.cumulative_pnl == ledger_after(ms, ts, i, result, o).1
    &&& n.peak_equity == ledger_after(ms, ts, i, result, o).2
    &&& n.max_drawdown == ledger_after(ms, ts, i, result, o).3
    &&& (c > 0 ==> sharpe_holds(n.trade_returns@, n.sharpe as int))
    &&& (c == 0 ==> n.sharpe == o.sharpe)
    &&& n.current_exposure == exposure_after(o.current_exposure as int, ms, ts, i)
    &&& (c > 0 ==> n.unrealized_pnl == 0)
    &&& (c == 0 ==> n.unrealized_pnl == o.unrealized_pnl)
    &&& forall|k: int| 0 <= k < n.positions().len() ==> !settled_id(ms, ts, i, (#[trigger] n.positions()[k]).trade_id@)
        && o.positions().contains(n.positions()[k])
    &&& forall|k: int| 0 <= k < o.positions().len() && !settled_id(ms, ts, i, (#[trigger] o.positions()[k]).trade_id@)
        ==> n.positions().contains(o.positions()[k])
    &&& nc.total == oc.total + c
    &&& (c == 0 ==> nc == oc)
    &&& (no_refit(oc.total as int, nc.total as int) ==> nc.calibrated@ == oc.calibrated@)
    &&& (c > 0 && nc.total % REFIT_EVERY == 0 ==> is_fit(nc.calibrated@, nc.predicted@, nc.realized@))
    &&& forall|bk: int| 0 <= bk < crate::calibration::NUM_BUCKETS ==> #[trigger] nc.predicted[bk]
        == oc.predicted[bk] + bucket_sums(ms, ts, i, bk, result).0
    &&& forall|bk: int| 0 <= bk < crate::calibration::NUM_BUCKETS ==> #[trigger] nc.realized[bk]
        == oc.realized[bk] + bucket_sums(ms, ts, i, bk, result).1
}

proof fn lemma_settle_sums_bounds(ms: Seq<ModelState>, ts: Seq<PendingTrade>, i: int, result: Option<Side>)
    ensures
        0 <= settle_sums(ms, ts, i, result).2 <= settle_sums(ms, ts, i, result).1 <= ts.len(),
        forall|bk: int| 0 <= (#[trigger] bucket_sums(ms, ts, i, bk, result)).1 <= bucket_sums(ms, ts, i, bk, result).0,
    decreases ts.len(),
{
    if ts.len() > 0 {
        lemma_settle_sums_bounds(ms, ts.drop_last(), i, result);
        assert forall|bk: int| 0 <= (#[trigger] bucket_sums(ms, ts, i, bk, result)).1 <= bucket_sums(ms, ts, i, bk, result).0 by {
            assert(0 <= bucket_sums(ms, ts.drop_last(), i, bk, result).1 <= bucket_sums(ms, ts.drop_last(), i, bk, result).0);
        }
    }
}

/// Settles every pending trade of a resolved market against the first
/// model of the same name and its calibrator, reporting each trade.
/// Fails with `StateCorruption`, changing nothing, unless every model has
/// room for the whole batch and every calibrator room for as many records.
pub fn settle_trades(
    model_states: &mut Vec<ModelState>,
    calibrators: &mut Vec<Calibrator>,
    result: Option<Side>,
    pending: &Vec<PendingTrade>,
    actions: &mut Vec<EngineAction>,
) -> (r: Result<(), EngineError>)
    requires
        old(model_states).len() == old(calibrators).len(),
        forall|i: int| 0 <= i < old(model_states).len() ==> (#[trigger] old(model_states)[i]).wf(),
        forall|i: int| 0 <= i < old(calibrators).len() ==> (#[trigger] old(calibrators)[i]).wf(),
        forall|i: int| 0 <= i < pending.len() ==> (#[trigger] pending[i]).valid(),
    ensures
        final(model_states).len() == old(model_states).len(),
        final(calibrators).len() == old(calibrators).len(),
        forall|i: int| 0 <= i < final(model_states).len() ==> (#[trigger] final(model_states)[i]).wf(),
        forall|i: int| 0 <= i < final(calibrators).len() ==> (#[trigger] final(calibrators)[i]).wf(),
        r is Ok <==> batch_ok(old(model_states)@, old(calibrators)@, pending.len() as int),
        r is Err ==> r->Err_0 is StateCorruption && final(model_states)@ == old(model_states)@
            && final(calibrators)@ == old(calibrators)@ && final(actions)@ == old(actions)@,
        r is Ok ==> final(actions)@ == old(actions)@ + pending@.map_values(|t: PendingTrade| settle_action(t, result)),
        r is Ok ==> forall|i: int| 0 <= i < old(model_states).len() ==> model_settled(old(model_states)@, pending@, i, result,
            #[trigger] old(model_states)[i], final(model_states)[i], old(calibrators)[i], final(calibrators)[i]),
{
    let n = model_states.len();
    let np = pending.len();
    let mut i: usize = 0;
    while i < n
        invariant
            n == model_states.len(),
            n == calibrators.len(),
            model_states@ == old(model_states)@,
            calibrators@ == old(calibrators)@,
            np == pending.len(),
            i <= n,
            forall|k: int| 0 <= k < n ==> (#[trigger] model_states[k]).wf(),
            forall|k: int| 0 <= k < n ==> (#[trigger] calibrators[k]).wf(),
            forall|k: int| 0 <= k < i ==> batch_room(#[trigger] model_states[k], np as int),
            forall|k: int| 0 <= k < i ==> #[trigger] calibrators[k].total + np <= MAX_OBSERVATIONS,
        decreases n - i,
    {
        if np as u64 > MAX_OBSERVATIONS || calibrators[i].total > MAX_OBSERVATIONS - np as u64 || !has_room_for(&model_states[i], np) {
            proof {
                let ii = i as int;
                assert(model_states@[ii] == old(model_states)@[ii]);
                assert(calibrators@[ii] == old(calibrators)@[ii]);
                assert(!(batch_room(old(model_states)[ii], pending.len() as int)
                    && old(calibrators)[ii].total + pending.len() <= MAX_OBSERVATIONS));
                let ms = old(model_states)@;
                let cs = old(calibrators)@;
                assert(!(batch_room(ms[ii], np as int) && cs[ii].total + np <= MAX_OBSERVATIONS));
                assert(0 <= ii < ms.len());
                assert(ms.len() == n);
                if batch_ok(ms, cs, np as int) {
                    assert(batch_room(ms[ii], np as int));
                    assert(cs[ii].total + np <= MAX_OBSERVATIONS);
                }
            }
            return Err(EngineError::StateCorruption(String::new()));
        }
        i = i + 1;
    }
    let ghost ms_old = model_states@;
    let ghost cs_old = calibrators@;
    proof {
        assert(batch_ok(ms_old, cs_old, np as int)) by {
            assert forall|i: int| 0 <= i < ms_old.len() implies batch_room(#[trigger] ms_old[i], np as int)
                && cs_old[i].total + np <= MAX_OBSERVATIONS by {
                assert(batch_room(model_states[i], np as int));
                assert(calibrators[i].total + np <= MAX_OBSERVATIONS);
            }
        }
    }
    let mut j: usize = 0;
    while j < np
        invariant
            model_states.len() == n,
            calibrators.len() == n,
            n == old(model_states).len(),
            n == old(calibrators).len(),
            ms_old == old(model_states)@,
            cs_old == old(calibrators)@,
            np == pending.len(),
            forall|i: int| 0 <= i < pending.len() ==> (#[trigger] pending[i]).valid(),
            j <= np,
            actions@ == old(actions)@ + pending@.take(j as int).map_values(|t: PendingTrade| settle_action(t, result)),
            forall|i: int| 0 <= i < n ==> (#[trigger] model_states[i]).name == ms_old[i].name,
            forall|i: int| 0 <= i < n ==> (#[trigger] model_states[i]).room(LEDGER_HEADROOM - 2 * (np - j) * PNL_STEP, j - np),
            forall|i: int| 0 <= i < n ==> #[trigger] cs_old[i].total + np <= MAX_OBSERVATIONS,
            forall|i: int| 0 <= i < n ==> batch_room(#[trigger] ms_old[i], np as int),
            forall|i: int| 0 <= i < n ==> model_settled(ms_old, pending@.take(j as int), i, result,
                #[trigger] ms_old[i], model_states[i], cs_old[i], calibrators[i]),
        decreases np - j,
    {
        let t = &pending[j];
        let ghost tj = pending@.take(j as int);
        let ghost tj1 = pending@.take(j as int + 1);
        proof {
            assert(pending[j as int].valid());
            assert(tj1.drop_last() =~= tj);
            assert(tj1.last() == pending@[j as int]);
        }
        let found = find_model(model_states, &t.model_name);
        let won: bool = match result {
            Some(s) => s == t.side,
            None => false,
        };
        let mut pnl: i128 = 0;
        match found {
            Some(k) => {
                let ghost ms0 = model_states@;
                let ghost cs0 = calibrators@;
                proof {
                    assert(is_for(ms_old, *t, k as int)) by {
                        assert forall|q: int| 0 <= q < k implies (#[trigger] ms_old[q]).name@ != t.model_name@ by {
                            assert(model_states[q].name == ms_old[q].name);
                        }
                        assert(model_states[k as int].name == ms_old[k as int].name);
                    }
                    assert(model_states[k as int].wf());
                    assert(calibrators[k as int].wf());
                    lemma_settle_sums_bounds(ms_old, tj, k as int, result);
                    assert(calibrators[k as int].total < MAX_OBSERVATIONS);
                }
                let mut st = model_states.remove(k);
                let mut cal = calibrators.remove(k);
                pnl = settle_in_room(&mut st, &mut cal, t, result,
                    Ghost(LEDGER_HEADROOM - 2 * (np - j) * PNL_STEP), Ghost(j - np));
                model_states.insert(k, st);
                calibrators.insert(k, cal);
                proof {
                    assert(model_states@ =~= ms0.update(k as int, st));
                    assert(calibrators@ =~= cs0.update(k as int, cal));
                    assert forall|i: int| 0 <= i < n implies model_settled(ms_old, tj1, i, result,
                        #[trigger] ms_old[i], model_states[i], cs_old[i], calibrators[i]) by {
                        if i != k {
                            if i < k {
                                assert(ms_old[i].name@ != t.model_name@);
                            } else {
                                assert(ms_old[k as int].name@ == t.model_name@);
                            }
                        }
                        lemma_settle_step(ms_old, tj1, i, k as int, result, ms_old[i], ms0[i], model_states[i], cs_old[i], cs0[i], calibrators[i]);
                    }
                    assert forall|i: int| 0 <= i < n implies (#[trigger] model_states[i]).room(LEDGER_HEADROOM - 2 * (np - j - 1) * PNL_STEP, j + 1 - np) by {
                        if i != k {
                            crate::simulator::lemma_room_mono(&ms0[i], LEDGER_HEADROOM - 2 * (np - j) * PNL_STEP, j - np,
                                LEDGER_HEADROOM - 2 * (np - j - 1) * PNL_STEP, j + 1 - np);
                        }
                    }
                }
            },
            None => {
                proof {
                    assert forall|i: int| 0 <= i < n implies !is_for(ms_old, *t, i) by {
                        assert(model_states[i].name == ms_old[i].name);
                    }
                    assert forall|i: int| 0 <= i < n implies model_settled(ms_old, tj1, i, result,
                        #[trigger] ms_old[i], model_states[i], cs_old[i], calibrators[i]) by {
                        lemma_settle_skip(ms_old, tj1, i, result, ms_old[i], model_states[i], cs_old[i], calibrators[i]);
                    }
                    assert forall|i: int| 0 <= i < n implies (#[trigger] model_states[i]).room(LEDGER_HEADROOM - 2 * (np - j - 1) * PNL_STEP, j + 1 - np) by {
                        crate::simulator::lemma_room_mono(&model_states[i], LEDGER_HEADROOM - 2 * (np - j) * PNL_STEP, j - np,
                            LEDGER_HEADROOM - 2 * (np - j - 1) * PNL_STEP, j + 1 - np);
                    }
                    lemma_prod2_bound(t.entry_price as int, t.contracts as int, SCALE as int, MAX_CONTRACTS as int);
                    lemma_prod2_bound((SCALE - t.entry_price) as int, t.contracts as int, SCALE as int, MAX_CONTRACTS as int);
                }
                pnl = if won {
                    (SCALE as i128 - t.entry_price as i128) * t.contracts as i128 - t.fees
                } else {
                    -(t.entry_price as i128 * t.contracts as i128) - t.fees
                };
            },
        }
        actions.push(EngineAction::SettleTrade {
            trade_id: t.id.clone(),
            model_name: t.model_name.clone(),
            won,
            pnl,
        });
        proof {
            assert(actions@ =~= old(actions)@ + tj1.map_values(|t: PendingTrade| settle_action(t, result)));
        }
        j = j + 1;
    }
    proof {
        assert(pending@.take(np as int) =~= pending@);
        assert forall|i: int| 0 <= i < n implies (#[trigger] calibrators[i]).wf() && model_states[i].wf() by {
            assert(model_settled(ms_old, pending@.take(np as int), i, result, ms_old[i], model_states[i], cs_old[i], calibrators[i]));
        }
    }
    Ok(())
}

/// One more trade settled against model `k`, seen from model `i`.
proof fn lemma_settle_step(
    ms: Seq<ModelState>,
    ts: Seq<PendingTrade>,
    i: int,
    k: int,
    result: Option<Side>,
    o: ModelState,
    mid: ModelState,
    n: ModelState,
    oc: Calibrator,
    midc: Calibrator,
    nc: Calibrator,
)
    requires
        ts.len() > 0,
        ts.last().valid(),
        i == k ==> is_for(ms, ts.last(), k),
        i != k ==> !is_for(ms, ts.last(), i),
        model_settled(ms, ts.drop_last(), i, result, o, mid, oc, midc),
        i == k ==> settled(mid, n, midc, nc, ts.last(), result),
        i != k ==> n == mid && nc == midc,
    ensures
        model_settled(ms, ts, i, result, o, n, oc, nc),
{
    let t = ts.last();
    let pre = ts.drop_last();
    lemma_settle_sums_bounds(ms, pre, i, result);
    if i == k {
        assert(is_for(ms, t, i));
        assert forall|kk: int| 0 <= kk < n.positions().len() implies !settled_id(ms, ts, i, (#[trigger] n.positions()[kk]).trade_id@)
            && o.positions().contains(n.positions()[kk]) by {
            let p = n.positions()[kk];
            assert(mid.positions().contains(p));
            let a = choose|a: int| 0 <= a < mid.positions().len() && mid.positions()[a] == p;
            assert(!settled_id(ms, pre, i, mid.positions()[a].trade_id@));
            if settled_id(ms, ts, i, p.trade_id@) {
                let q = choose|q: int| 0 <= q < ts.len() && is_for(ms, #[trigger] ts[q], i) && ts[q].id@ == p.trade_id@;
                if q < ts.len() - 1 {
                    assert(pre[q] == ts[q]);
                }
            }
        }
        assert forall|kk: int| 0 <= kk < o.positions().len() && !settled_id(ms, ts, i, (#[trigger] o.positions()[kk]).trade_id@)
            implies n.positions().contains(o.positions()[kk]) by {
            let p = o.positions()[kk];
            if settled_id(ms, pre, i, p.trade_id@) {
                let q = choose|q: int| 0 <= q < pre.len() && is_for(ms, #[trigger] pre[q], i) && pre[q].id@ == p.trade_id@;
                assert(ts[q] == pre[q]);
            }
            assert(mid.positions().contains(p));
            let a = choose|a: int| 0 <= a < mid.positions().len() && mid.positions()[a] == p;
            assert(p.trade_id@ != t.id@) by {
                assert(ts[ts.len() - 1] == t);
            }
        }
        let bt = crate::calibration::bucket_of(t.model_probability as int);
        assert(0 <= bt < 10);
        crate::calibration::lemma_sum_bound(midc.predicted@, bt);
        assert(midc.realized[bt] <= midc.predicted[bt]);
        assert forall|bk: int| 0 <= bk < crate::calibration::NUM_BUCKETS implies #[trigger] nc.predicted[bk]
            == oc.predicted[bk] + bucket_sums(ms, ts, i, bk, result).0 by {
            assert(nc.predicted@[bk] == midc.predicted@.update(bt, (midc.predicted[bt] + 1) as u64)[bk]);
            assert(midc.predicted[bk] == oc.predicted[bk] + bucket_sums(ms, pre, i, bk, result).0);
            crate::calibration::lemma_sum_bound(midc.predicted@, bt);
        }
        assert forall|bk: int| 0 <= bk < crate::calibration::NUM_BUCKETS implies #[trigger] nc.realized[bk]
            == oc.realized[bk] + bucket_sums(ms, ts, i, bk, result).1 by {
            assert(midc.realized[bk] == oc.realized[bk] + bucket_sums(ms, pre, i, bk, result).1);
            if wins(t.side, result) {
                assert(nc.realized@[bk] == midc.realized@.update(bt, (midc.realized[bt] + 1) as u64)[bk]);
            }
        }
        if no_refit(oc.total as int, nc.total as int) {
            assert forall|tt: int| oc.total < tt <= midc.total implies #[trigger] (tt % REFIT_EVERY as int) != 0 by {
                assert(oc.total < tt <= nc.total);
            }
            assert(nc.total % REFIT_EVERY != 0) by {
                assert(((nc.total as int) % REFIT_EVERY as int) != 0);
            }
        }
        let (p0, c0, w0, b0) = settle_sums(ms, pre, i, result);
        assert(n.beta_alpha == o.beta_alpha + settle_sums(ms, ts, i, result).2 * SCALE) by (nonlinear_arith)
            requires mid.beta_alpha == o.beta_alpha + w0 * SCALE,
                n.beta_alpha == mid.beta_alpha + (if wins(t.side, result) { SCALE as int } else { 0 }),
                settle_sums(ms, ts, i, result).2 == w0 + if wins(t.side, result) { 1int } else { 0 };
        assert(n.beta_beta == o.beta_beta + (settle_sums(ms, ts, i, result).1 - settle_sums(ms, ts, i, result).2) * SCALE) by (nonlinear_arith)
            requires mid.beta_beta == o.beta_beta + (c0 - w0) * SCALE,
                n.beta_beta == mid.beta_beta + (if wins(t.side, result) { 0 } else { SCALE as int }),
                settle_sums(ms, ts, i, result).2 == w0 + if wins(t.side, result) { 1int } else { 0 },
                settle_sums(ms, ts, i, result).1 == c0 + 1;
    } else {
        assert(!is_for(ms, t, i));
        assert forall|kk: int| 0 <= kk < n.positions().len() implies !settled_id(ms, ts, i, (#[trigger] n.positions()[kk]).trade_id@)
            && o.positions().contains(n.positions()[kk]) by {
            let p = n.positions()[kk];
            assert(!settled_id(ms, pre, i, p.trade_id@));
            if settled_id(ms, ts, i, p.trade_id@) {
                let q = choose|q: int| 0 <= q < ts.len() && is_for(ms, #[trigger] ts[q], i) && ts[q].id@ == p.trade_id@;
                if q < ts.len() - 1 {
                    assert(pre[q] == ts[q]);
                }
            }
        }
        assert forall|kk: int| 0 <= kk < o.positions().len() && !settled_id(ms, ts, i, (#[trigger] o.positions()[kk]).trade_id@)
            implies n.positions().contains(o.positions()[kk]) by {
            let p = o.positions()[kk];
            if settled_id(ms, pre, i, p.trade_id@) {
                let q = choose|q: int| 0 <= q < pre.len() && is_for(ms, #[trigger] pre[q], i) && pre[q].id@ == p.trade_id@;
                assert(ts[q] == pre[q]);
            }
        }
    }
}

/// A trade for no model leaves every model as it was.
proof fn lemma_settle_skip(
    ms: Seq<ModelState>,
    ts: Seq<PendingTrade>,
    i: int,
    result: Option<Side>,
    o: ModelState,
    n: ModelState,
    oc: Calibrator,
    nc: Calibrator,
)
    requires
        ts.len() > 0,
        ts.last().valid(),
        !is_for(ms, ts.last(), i),
        model_settled(ms, ts.drop_last(), i, result, o, n, oc, nc),
    ensures
        model_settled(ms, ts, i, result, o, n, oc, nc),
{
    lemma_settle_step(ms, ts, i, i + 1, result, o, n, n, oc, nc, nc);
}

} // verus!
