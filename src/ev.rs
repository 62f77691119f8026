//! Execution-adjusted expected value of buying YES or NO.
use vstd::prelude::*;
use crate::fixed::{SCALE, lemma_prod3_bound, lemma_div_bounds};

verus! {

/// Inputs of the expected-value computation, all in millionths.
#[derive(Debug, Clone, Copy)]
pub struct EvParams {
    /// Calibrated probability that the market resolves YES.
    pub probability: i64,
    /// Cost of one YES contract.
    pub contract_price: i64,
    /// Fee as a fraction of the payout.
    pub fee_rate: i64,
    /// Expected slippage per contract, in millionths of a dollar.
    pub slippage: i64,
    /// Probability of being filled.
    pub fill_probability: i64,
}

/// Outcome of the expected-value computation; `ev`, `effective_prob` and
/// `ev_opposite` are in millionths, the EVs rounded down.
#[derive(Debug, Clone, Copy)]
pub struct EvResult {
    pub ev: i64,
    pub is_signal: bool,
    pub buy_yes: bool,
    pub effective_prob: i64,
    pub ev_opposite: i64,
}

/// Largest slippage magnitude, in millionths of a dollar ($4 * 10^12): the
/// EV per contract stays within an `i64`.
pub const MAX_SLIPPAGE: i64 = 4_000_000_000_000_000_000;

/// Bound on an EV in millionths: `MAX_SLIPPAGE + 2`, in dollars.
pub open spec fn ev_bound() -> int {
    MAX_SLIPPAGE as int + 2 * SCALE as int
}

impl EvParams {
    pub open spec fn valid(&self) -> bool {
        &&& 0 <= self.probability <= SCALE
        &&& 0 < self.contract_price < SCALE
        &&& 0 <= self.fee_rate <= SCALE
        &&& -MAX_SLIPPAGE <= self.slippage <= MAX_SLIPPAGE
        &&& 0 <= self.fill_probability <= SCALE
    }
}

/// Expected value of buying YES, times `SCALE^4`:
/// `q * (p (1-c) (1-f) - (1-p) c - s)`.
pub open spec fn ev_yes_scaled(p: int, c: int, f: int, s: int, q: int) -> int {
    let u = SCALE as int;
    q * (p * (u - c) * (u - f) - (u - p) * c * u - s * u * u)
}

/// Expected value of buying NO at `1 - c`, times `SCALE^4`:
/// `q * ((1-p) c (1-f) - p (1-c) - s)`.
pub open spec fn ev_no_scaled(p: int, c: int, f: int, s: int, q: int) -> int {
    let u = SCALE as int;
    q * ((u - p) * c * (u - f) - p * (u - c) * u - s * u * u)
}

pub open spec fn cube_scale() -> int {
    (SCALE as int) * (SCALE as int) * (SCALE as int)
}

pub open spec fn spec_ev_yes(e: EvParams) -> int {
    ev_yes_scaled(
        e.probability as int,
        e.contract_price as int,
        e.fee_rate as int,
        e.slippage as int,
        e.fill_probability as int,
    )
}

pub open spec fn spec_ev_no(e: EvParams) -> int {
    ev_no_scaled(
        e.probability as int,
        e.contract_price as int,
        e.fee_rate as int,
        e.slippage as int,
        e.fill_probability as int,
    )
}

proof fn lemma_ev_bounds(p: int, c: int, f: int, s: int, q: int)
    requires
        0 <= p <= SCALE,
        0 <= c <= SCALE,
        0 <= f <= SCALE,
        -MAX_SLIPPAGE <= s <= MAX_SLIPPAGE,
        0 <= q <= SCALE,
    ensures
        -ev_bound() * (unit() * unit()) <= p * (unit() - c) * (unit() - f) - (unit() - p) * c * unit() - s * unit() * unit()
            <= ev_bound() * (unit() * unit()),
        -ev_bound() * (unit() * unit()) <= (unit() - p) * c * (unit() - f) - p * (unit() - c) * unit() - s * unit() * unit()
            <= ev_bound() * (unit() * unit()),
        -ev_bound() * cube_scale() <= ev_yes_scaled(p, c, f, s, q) <= ev_bound() * cube_scale(),
        -ev_bound() * cube_scale() <= ev_no_scaled(p, c, f, s, q) <= ev_bound() * cube_scale(),
{
    let m = unit();
    let e = ev_bound();
    lemma_prod3_bound(p, m - c, m - f, m);
    lemma_prod3_bound(m - p, c, m, m);
    lemma_prod3_bound(m - p, c, m - f, m);
    lemma_prod3_bound(p, m - c, m, m);
    assert(-(MAX_SLIPPAGE as int) * (m * m) <= s * m * m <= MAX_SLIPPAGE as int * (m * m)) by (nonlinear_arith)
        requires -MAX_SLIPPAGE <= s <= MAX_SLIPPAGE, m > 0;
    assert(m * m * m == m * (m * m)) by (nonlinear_arith);
    assert(e * (m * m) == MAX_SLIPPAGE as int * (m * m) + 2 * m * (m * m)) by (nonlinear_arith)
        requires e == MAX_SLIPPAGE as int + 2 * m;
    let x = p * (m - c) * (m - f) - (m - p) * c * m - s * m * m;
    let y = (m - p) * c * (m - f) - p * (m - c) * m - s * m * m;
    assert(-e * (m * m) * m <= q * x <= e * (m * m) * m) by (nonlinear_arith)
        requires 0 <= q <= m, -e * (m * m) <= x <= e * (m * m), 0 < m;
    assert(-e * (m * m) * m <= q * y <= e * (m * m) * m) by (nonlinear_arith)
        requires 0 <= q <= m, -e * (m * m) <= y <= e * (m * m), 0 < m;
    assert(e * (m * m) * m == e * cube_scale()) by (nonlinear_arith) requires m == unit();
}

pub open spec fn unit() -> int {
    SCALE as int
}

/// Computes the execution-adjusted EV of buying YES and of buying NO.
///
/// The signal fires when the larger of the two exceeds `threshold` (compared
/// exactly); YES is preferred when its EV is at least that of NO. `ev` is the
/// preferred side's EV, `ev_opposite` the other one's.
pub fn compute_ev(params: &EvParams, threshold: i64) -> (r: EvResult)
    requires
        params.valid(),
    ensures
        r.buy_yes == (spec_ev_yes(*params) >= spec_ev_no(*params)),
        r.is_signal == (if r.buy_yes { spec_ev_yes(*params) } else { spec_ev_no(*params) }
            > threshold as int * cube_scale()),
        r.ev as int == (if r.buy_yes { spec_ev_yes(*params) } else { spec_ev_no(*params) }) / cube_scale(),
        r.ev_opposite as int == (if r.buy_yes { spec_ev_no(*params) } else { spec_ev_yes(*params) }) / cube_scale(),
        r.effective_prob == (if r.buy_yes { params.probability as int } else { SCALE - params.probability }),
{
    let u: i128 = SCALE as i128;
    let p: i128 = params.probability as i128;
    let c: i128 = params.contract_price as i128;
    let f: i128 = params.fee_rate as i128;
    let s: i128 = params.slippage as i128;
    let q: i128 = params.fill_probability as i128;
    proof {
        lemma_ev_bounds(p as int, c as int, f as int, s as int, q as int);
        lemma_prod3_bound(p as int, (u - c) as int, (u - f) as int, u as int);
        lemma_prod3_bound((u - p) as int, c as int, (u - f) as int, u as int);
        lemma_prod3_bound((u - p) as int, c as int, u as int, u as int);
        lemma_prod3_bound(p as int, (u - c) as int, u as int, u as int);
        assert(-(MAX_SLIPPAGE as int) * (unit() * unit()) <= s * u * u <= MAX_SLIPPAGE as int * (unit() * unit())) by (nonlinear_arith)
            requires -MAX_SLIPPAGE <= s <= MAX_SLIPPAGE, u == unit(), unit() > 0;
        assert(ev_bound() * cube_scale() == 4_000_000_000_002_000_000 * 1_000_000_000_000_000_000);
    }
    let yes_inner: i128 = p * (u - c) * (u - f) - (u - p) * c * u - s * u * u;
    let no_inner: i128 = (u - p) * c * (u - f) - p * (u - c) * u - s * u * u;
    proof {
        let e = ev_bound();
        assert(-e * (unit() * unit()) <= yes_inner <= e * (unit() * unit()));
        assert(-e * (unit() * unit()) <= no_inner <= e * (unit() * unit()));
        assert(-e * (unit() * unit()) * unit() <= q * yes_inner <= e * (unit() * unit()) * unit()) by (nonlinear_arith)
            requires -e * (unit() * unit()) <= yes_inner <= e * (unit() * unit()), 0 <= q <= unit(), unit() > 0;
        assert(-e * (unit() * unit()) * unit() <= q * no_inner <= e * (unit() * unit()) * unit()) by (nonlinear_arith)
            requires -e * (unit() * unit()) <= no_inner <= e * (unit() * unit()), 0 <= q <= unit(), unit() > 0;
        assert(e * (unit() * unit()) * unit() == 4_000_000_000_002_000_000 * 1_000_000_000_000_000_000);
    }
    let ev_yes: i128 = q * yes_inner;
    let ev_no: i128 = q * no_inner;
    let cube: i128 = u * u * u;
    let bar: i128 = threshold as i128 * cube;
    let yes_ev: i128 = crate::fixed::div_floor(ev_yes, cube);
    let no_ev: i128 = crate::fixed::div_floor(ev_no, cube);
    proof {
        lemma_div_bounds(ev_yes as int, -ev_bound(), ev_bound(), cube as int);
        lemma_div_bounds(ev_no as int, -ev_bound(), ev_bound(), cube as int);
    }
    let yes_ev64: i64 = clamp_ev(yes_ev);
    let no_ev64: i64 = clamp_ev(no_ev);
    if ev_yes >= ev_no {
        EvResult {
            ev: yes_ev64,
            is_signal: ev_yes > bar,
            buy_yes: true,
            effective_prob: params.probability,
            ev_opposite: no_ev64,
        }
    } else {
        EvResult {
            ev: no_ev64,
            is_signal: ev_no > bar,
            buy_yes: false,
            effective_prob: SCALE - params.probability,
            ev_opposite: yes_ev64,
        }
    }
}

fn clamp_ev(x: i128) -> (r: i64)
    requires
        -ev_bound() <= x <= ev_bound(),
    ensures
        r as int == x as int,
{
    x as i64
}

} // verus!
