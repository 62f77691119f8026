//! Robust Bayesian Kelly sizing.
//!
//! The win probability of the model is shrunk by `lambda` standard deviations
//! of a Beta(alpha, beta) posterior over past outcomes, turned into a Kelly
//! fraction at the contract's payout ratio, scaled by `gamma` and capped.
use vstd::prelude::*;
use crate::fixed::{SCALE, MAX_CONTRACTS, clamp, clamp_i64, div_floor, is_isqrt, isqrt, lemma_prod2_bound, lemma_div_bounds};

verus! {

/// Kelly inputs, all in millionths (`max_position` in millionths of a
/// contract).
#[derive(Debug, Clone, Copy)]
pub struct KellyParams {
    pub model_probability: i64,
    pub alpha: i64,
    pub beta: i64,
    pub contract_price: i64,
    pub fractional_gamma: i64,
    pub lambda: i64,
    pub max_position: i64,
}

/// Kelly outputs, all in millionths.
#[derive(Debug, Clone, Copy)]
pub struct KellyResult {
    pub raw_fraction: i64,
    pub robust_fraction: i64,
    pub contracts: i64,
    pub p_eff: i64,
    pub p_mean: i64,
    pub p_std: i64,
}

/// Largest Beta counter (in millionths) the sizer accepts.
pub const MAX_PRIOR: i64 = 1_000_000_000_000;

/// Floor for the Beta counters: 0.5.
pub const MIN_PRIOR: i64 = 500_000;

/// Bounds for the probability and the contract price: 0.01 and 0.99.
pub const P_LO: i64 = 10_000;
pub const P_HI: i64 = 990_000;

impl KellyParams {
    pub open spec fn valid(&self) -> bool {
        &&& 0 <= self.alpha <= MAX_PRIOR
        &&& 0 <= self.beta <= MAX_PRIOR
        &&& 0 <= self.fractional_gamma <= SCALE
        &&& 0 <= self.lambda
        &&& 0 <= self.max_position <= MAX_CONTRACTS
    }
}

pub open spec fn max_int(a: int, b: int) -> int {
    if a >= b { a } else { b }
}

/// Posterior variance of Beta(a, b), times 10^12, rounded down in two steps:
/// `floor(floor(a b 10^12 / (a+b)^2) * 10^6 / (a + b + 10^6))` for counters
/// in millionths.
pub open spec fn posterior_var_e12(a: int, b: int) -> int {
    let u = SCALE as int;
    ((a * b * u * u) / ((a + b) * (a + b))) * u / (a + b + u)
}

/// Numerator of the raw Kelly fraction in millionths: the fraction is
/// `SCALE (p - c) / (SCALE - c)`.
pub open spec fn kelly_numerator(p_eff: int, c: int) -> int {
    SCALE as int * (p_eff - c)
}

/// What `compute_kelly` returns for `params`.
pub open spec fn kelly_holds(params: KellyParams, r: KellyResult) -> bool {
    let u = SCALE as int;
    let a = max_int(params.alpha as int, MIN_PRIOR as int);
    let b = max_int(params.beta as int, MIN_PRIOR as int);
    let c = clamp(params.contract_price as int, P_LO as int, P_HI as int);
    let p = clamp(params.model_probability as int, P_LO as int, P_HI as int);
    let num = kelly_numerator(r.p_eff as int, c);
    &&& r.p_mean == a * u / (a + b)
    &&& is_isqrt(r.p_std as int, posterior_var_e12(a, b))
    &&& r.p_eff == clamp(p - params.lambda as int * r.p_std as int / u, P_LO as int, P_HI as int)
    &&& r.raw_fraction == num / (u - c)
    &&& (num <= 0 ==> r.robust_fraction == 0 && r.contracts == 0)
    &&& (num > 0 ==> r.robust_fraction == num * params.fractional_gamma as int / ((u - c) * u))
    &&& (num > 0 ==> r.contracts == if num * params.fractional_gamma as int * params.max_position as int / ((u - c) * u * u) >= params.max_position as int {
            params.max_position as int
        } else {
            num * params.fractional_gamma as int * params.max_position as int / ((u - c) * u * u)
        })
}

/// Computes the robust Kelly position.
///
/// With `a = max(alpha, 0.5)`, `b = max(beta, 0.5)`, the price and the model
/// probability clamped to [0.01, 0.99]: `p_mean = a / (a + b)`, `p_std` the
/// square root of the posterior variance, `p_eff = clamp(p - lambda p_std,
/// 0.01, 0.99)`, the raw fraction `(p_eff - c) / (1 - c)`; no contracts when
/// it is not positive, else the fraction times `gamma` times `max_position`,
/// capped at `max_position`.
pub fn compute_kelly(params: &KellyParams) -> (r: KellyResult)
    requires
        params.valid(),
    ensures
        kelly_holds(*params, r),
{
    let a: i64 = if params.alpha >= MIN_PRIOR { params.alpha } else { MIN_PRIOR };
    let b: i64 = if params.beta >= MIN_PRIOR { params.beta } else { MIN_PRIOR };
    let c: i64 = clamp_i64(params.contract_price, P_LO, P_HI);
    let p: i64 = clamp_i64(params.model_probability, P_LO, P_HI);
    let u: u128 = SCALE as u128;
    let n: u128 = a as u128 + b as u128;
    proof {
        lemma_prod2_bound(a as int, u as int, MAX_PRIOR as int, u as int);
        lemma_div_bounds((a * u) as int, 0, u as int, n as int);
        assert(u * n >= a * u) by (nonlinear_arith) requires n >= a, u > 0;
        lemma_prod2_bound(a as int, b as int, MAX_PRIOR as int, MAX_PRIOR as int);
        lemma_prod2_bound((a * b) as int, (u * u) as int, (MAX_PRIOR * MAX_PRIOR) as int, (u * u) as int);
        assert((a * b) * (u * u) == a * b * u * u) by (nonlinear_arith);
        lemma_prod2_bound(n as int, n as int, 2 * MAX_PRIOR as int, 2 * MAX_PRIOR as int);
        assert(n * n > 0) by (nonlinear_arith) requires n > 0;
        // a b <= (a + b)^2 / 4, so the first quotient is at most 10^12 / 4
        assert(4 * (a * b * u * u) <= (u * u) * (n * n)) by (nonlinear_arith)
            requires n == a + b, a >= 0, b >= 0;
    }
    let p_mean: u128 = a as u128 * u / n;
    let q1: u128 = a as u128 * b as u128 * u * u / (n * n);
    proof {
        assert(a * b * u * u <= 250_000_000_000 * (n * n)) by (nonlinear_arith)
            requires 4 * (a * b * u * u) <= (u * u) * (n * n), u == 1_000_000;
        lemma_div_bounds((a * b * u * u) as int, 0, 250_000_000_000, (n * n) as int);
        lemma_prod2_bound(q1 as int, u as int, 250_000_000_000, u as int);
        lemma_div_bounds((q1 * u) as int, 0, 250_000_000_000, (n + u) as int);
        assert(250_000_000_000 * (n + u) >= q1 * u) by (nonlinear_arith) requires q1 <= 250_000_000_000, n >= 0, u > 0;
    }
    let var_e12: u128 = q1 * u / (n + u);
    let sd: u128 = isqrt(var_e12);
    proof {
        assert(sd <= 500_000) by (nonlinear_arith)
            requires sd * sd <= var_e12, var_e12 <= 250_000_000_000, sd >= 0;
        lemma_prod2_bound(params.lambda as int, sd as int, i64::MAX as int, 500_000);
        lemma_div_bounds((params.lambda * sd) as int, 0, i64::MAX as int / 2 + 1, u as int);
        assert((i64::MAX as int / 2 + 1) * u >= i64::MAX as int * 500_000);
    }
    let shrink: i64 = ((params.lambda as u128 * sd as u128) / u) as i64;
    let p_eff: i64 = clamp_i64(p - shrink, P_LO, P_HI);
    let num: i128 = SCALE as i128 * (p_eff as i128 - c as i128);
    let den: i128 = SCALE as i128 - c as i128;
    let raw: i128 = div_floor(num, den);
    proof {
        assert(-(100 * SCALE as int) * den <= num <= (SCALE as int) * den) by (nonlinear_arith)
            requires num == SCALE as int * (p_eff - c), P_LO <= p_eff <= P_HI, P_LO <= c <= P_HI,
                den == SCALE as int - c;
        lemma_div_bounds(num as int, -(100 * SCALE as int), SCALE as int, den as int);
    }
    if num <= 0 {
        return KellyResult {
            raw_fraction: raw as i64,
            robust_fraction: 0,
            contracts: 0,
            p_eff,
            p_mean: p_mean as i64,
            p_std: sd as i64,
        };
    }
    proof {
        lemma_prod2_bound(num as int, params.fractional_gamma as int, (SCALE * SCALE) as int, SCALE as int);
        lemma_prod2_bound((num * params.fractional_gamma) as int, params.max_position as int,
            (SCALE * SCALE * SCALE) as int, MAX_CONTRACTS as int);
        assert(num * params.fractional_gamma <= (SCALE as int) * den * (SCALE as int)) by (nonlinear_arith)
            requires num <= (SCALE as int) * den, 0 <= params.fractional_gamma <= SCALE, num > 0, den > 0;
        lemma_div_bounds((num * params.fractional_gamma) as int, 0, SCALE as int, (den * SCALE) as int);
        assert((den * SCALE) * SCALE == SCALE * den * SCALE) by (nonlinear_arith);
        assert(den * SCALE * SCALE > 0) by (nonlinear_arith) requires den > 0;
    }
    let robust: i128 = num * params.fractional_gamma as i128 / (den * SCALE as i128);
    let sized: i128 = num * params.fractional_gamma as i128 * params.max_position as i128
        / (den * SCALE as i128 * SCALE as i128);
    let contracts: i64 = if sized >= params.max_position as i128 {
        params.max_position
    } else {
        sized as i64
    };
    proof {
        assert(sized >= 0) by {
            lemma_div_bounds((num * params.fractional_gamma * params.max_position) as int, 0,
                (SCALE * SCALE * SCALE * MAX_CONTRACTS) as int, (den * SCALE * SCALE) as int);
            assert((SCALE * SCALE * SCALE * MAX_CONTRACTS) * (den * SCALE * SCALE) >= num * params.fractional_gamma * params.max_position) by (nonlinear_arith)
                requires num * params.fractional_gamma * params.max_position <= (SCALE * SCALE * SCALE) * MAX_CONTRACTS,
                    den * SCALE * SCALE >= 1;
        }
    }
    KellyResult {
        raw_fraction: raw as i64,
        robust_fraction: robust as i64,
        contracts,
        p_eff,
        p_mean: p_mean as i64,
        p_std: sd as i64,
    }
}

} // verus!
