//! Rolling volatility estimate of the spot price from its log returns:
//! EWMA sigma, jump statistics, variance regime and Student-t degrees of
//! freedom. Returns are in units of 1e-8 and arrive already computed as
//! `ln(p_t / p_{t-1})`.
use vstd::prelude::*;
use crate::fixed::{is_isqrt, isqrt, div_floor, lemma_prod2_bound, lemma_div_bounds};
use crate::state::{VolatilityState, VolRegime, MIN_SAMPLES};

verus! {

/// One, in units of returns.
pub const RET_UNIT: i64 = 100_000_000;
/// Returns kept: the long window and the jump window.
pub const LONG_WINDOW: usize = 300;
/// Returns of the short window.
pub const SHORT_WINDOW: usize = 30;
/// Two-second samples per year.
pub const SAMPLES_PER_YEAR: i128 = 15_778_800;
/// Sigma is kept within [1e-8, 1].
pub const SIGMA_MIN: i64 = 1;
pub const SIGMA_MAX: i64 = 100_000_000;
/// Floor of the jump variance: 1e-12.
pub const JUMP_VAR_FLOOR: i128 = 10_000;
/// Degrees of freedom are kept within [2.5, 30].
pub const NU_MIN: i64 = 2_500_000;
pub const NU_MAX: i64 = 30_000_000;

pub open spec fn bounded_returns(s: Seq<i64>) -> bool {
    forall|i: int| 0 <= i < s.len() ==> -RET_UNIT <= #[trigger] s[i] <= RET_UNIT
}

pub open spec fn ret_sum(s: Seq<i64>) -> int
    decreases s.len(),
{
    if s.len() == 0 { 0 } else { ret_sum(s.drop_last()) + s.last() as int }
}

pub open spec fn ret_sq_sum(s: Seq<i64>) -> int
    decreases s.len(),
{
    if s.len() == 0 { 0 } else { ret_sq_sum(s.drop_last()) + s.last() as int * s.last() as int }
}

pub open spec fn is_jump(r: int, sigma: int) -> bool {
    r > 3 * sigma || -r > 3 * sigma
}

/// Count, sum and sum of squares of the returns beyond three sigma.
pub open spec fn jump_stats(s: Seq<i64>, sigma: int) -> (int, int, int)
    decreases s.len(),
{
    if s.len() == 0 {
        (0, 0, 0)
    } else {
        let (c, t, q) = jump_stats(s.drop_last(), sigma);
        let r = s.last() as int;
        if is_jump(r, sigma) { (c + 1, t + r, q + r * r) } else { (c, t, q) }
    }
}

/// EWMA step: `sqrt(0.94 sigma^2 + 0.06 r^2)`, the square root rounded down.
pub open spec fn ewma_var(sigma: int, r: int) -> int {
    (94 * (sigma * sigma) + 6 * (r * r)) / 100
}

pub open spec fn clamp_sigma(x: int) -> int {
    if x < SIGMA_MIN { SIGMA_MIN as int } else if x > SIGMA_MAX { SIGMA_MAX as int } else { x }
}

/// Estimator of the volatility of the spot price.
pub struct VolatilityEngine {
    /// The last returns, oldest first, at most `LONG_WINDOW`.
    pub window: Vec<i64>,
    pub state: VolatilityState,
}

impl VolatilityEngine {
    pub open spec fn wf(&self) -> bool {
        &&& self.window.len() <= LONG_WINDOW
        &&& bounded_returns(self.window@)
        &&& SIGMA_MIN <= self.state.ewma_vol <= SIGMA_MAX
        &&& self.state.jump_intensity >= 0
        &&& -RET_UNIT <= self.state.jump_mean <= RET_UNIT
        &&& self.state.jump_var >= JUMP_VAR_FLOOR
        &&& NU_MIN <= self.state.student_t_nu <= NU_MAX
    }

    pub fn new() -> (r: VolatilityEngine)
        ensures
            r.wf(),
            r.window@.len() == 0,
            r.state.ewma_vol == 1_000_000,
            r.state.jump_intensity == 500_000,
            r.state.jump_mean == 0,
            r.state.jump_var == 1_000_000_000_000,
            r.state.student_t_nu == 5_000_000,
            r.state.regime == VolRegime::Low,
            r.state.sample_count == 0,
    {
        VolatilityEngine { window: Vec::new(), state: VolatilityState::new() }
    }

    /// Sigma per sample scaled to a year of two-second samples, in
    /// millionths: `ewma_vol * sqrt(15,778,800)`, the root rounded down in
    /// millionths.
    pub fn annualized_vol(&self) -> (r: i64)
        requires
            self.wf(),
        ensures
            exists|k: int| #[trigger] is_isqrt(k, SAMPLES_PER_YEAR * 1_000_000_000_000)
                && r == self.state.ewma_vol as int * k / RET_UNIT as int,
    {
        let k: u128 = isqrt(SAMPLES_PER_YEAR as u128 * 1_000_000_000_000);
        proof {
            assert(k <= 4_000_000_000) by (nonlinear_arith)
                requires k * k <= 15_778_800_000_000_000_000, k >= 0;
            lemma_prod2_bound(self.state.ewma_vol as int, k as int, SIGMA_MAX as int, 4_000_000_000);
            lemma_div_bounds(self.state.ewma_vol as int * k as int, 0, 4_000_000_000, RET_UNIT as int);
            assert(4_000_000_000 * RET_UNIT as int >= SIGMA_MAX as int * 4_000_000_000) by (nonlinear_arith);
        }
        (self.state.ewma_vol as u128 * k / RET_UNIT as u128) as i64
    }

    /// Whether enough returns were seen: at least 20.
    pub fn is_ready(&self) -> (r: bool)
        ensures
            r == (self.state.sample_count >= MIN_SAMPLES),
    {
        self.state.sample_count >= MIN_SAMPLES
    }
}

proof fn lemma_ret_bounds(s: Seq<i64>)
    requires
        bounded_returns(s),
    ensures
        -(s.len() as int) * RET_UNIT <= ret_sum(s) <= s.len() as int * RET_UNIT,
        0 <= ret_sq_sum(s) <= s.len() as int * (RET_UNIT as int * RET_UNIT as int),
    decreases s.len(),
{
    if s.len() > 0 {
        let x = s[s.len() - 1] as int;
        assert(-RET_UNIT <= x <= RET_UNIT);
        lemma_ret_bounds(s.drop_last());
        assert(0 <= x * x <= RET_UNIT as int * RET_UNIT as int) by (nonlinear_arith)
            requires -RET_UNIT <= x <= RET_UNIT;
        assert((s.len() - 1) * RET_UNIT + RET_UNIT == s.len() as int * RET_UNIT) by (nonlinear_arith);
        assert((s.len() - 1) * (RET_UNIT as int * RET_UNIT as int) + RET_UNIT as int * RET_UNIT as int
            == s.len() as int * (RET_UNIT as int * RET_UNIT as int)) by (nonlinear_arith);
    }
}

proof fn lemma_jump_bounds(s: Seq<i64>, sigma: int)
    requires
        bounded_returns(s),
    ensures
        0 <= jump_stats(s, sigma).0 <= s.len(),
        -(jump_stats(s, sigma).0) * RET_UNIT <= jump_stats(s, sigma).1 <= jump_stats(s, sigma).0 * RET_UNIT,
        0 <= jump_stats(s, sigma).2 <= jump_stats(s, sigma).0 * (RET_UNIT as int * RET_UNIT as int),
    decreases s.len(),
{
    if s.len() > 0 {
        let x = s[s.len() - 1] as int;
        assert(-RET_UNIT <= x <= RET_UNIT);
        lemma_jump_bounds(s.drop_last(), sigma);
        assert(0 <= x * x <= RET_UNIT as int * RET_UNIT as int) by (nonlinear_arith)
            requires -RET_UNIT <= x <= RET_UNIT;
        let c = jump_stats(s.drop_last(), sigma).0;
        assert(-(c + 1) * RET_UNIT == -c * RET_UNIT - RET_UNIT) by (nonlinear_arith);
        assert((c + 1) * RET_UNIT == c * RET_UNIT + RET_UNIT) by (nonlinear_arith);
        assert((c + 1) * (RET_UNIT as int * RET_UNIT as int) == c * (RET_UNIT as int * RET_UNIT as int)
            + RET_UNIT as int * RET_UNIT as int) by (nonlinear_arith);
    }
}

/// Jump intensity per year, in millionths, from `c` jumps in `n` samples.
pub open spec fn intensity_of(c: int, n: int) -> int {
    c * SAMPLES_PER_YEAR * 1_000_000 / n
}

/// Jump variance: the second moment less the squared mean over the jumps
/// (sigma squared for a single jump), at least 1e-12.
pub open spec fn jump_variance(c: int, t: int, q: int, sigma: int) -> int {
    let raw = if c > 1 { q / c - (t / c) * (t / c) } else { sigma * sigma };
    if raw > JUMP_VAR_FLOOR { raw } else { JUMP_VAR_FLOOR as int }
}

impl VolatilityEngine {
    /// Recounts the jumps (returns beyond three sigma) in the window and
    /// sets the intensity, mean and variance of the jumps.
    fn update_jump_stats(&mut self)
        requires
            old(self).wf(),
        ensures
            final(self).wf(),
            final(self).window@ == old(self).window@,
            final(self).state.ewma_vol == old(self).state.ewma_vol,
            final(self).state.regime == old(self).state.regime,
            final(self).state.student_t_nu == old(self).state.student_t_nu,
            final(self).state.sample_count == old(self).state.sample_count,
            ({
                let s = old(self).window@;
                let sigma = old(self).state.ewma_vol as int;
                let (c, t, q) = jump_stats(s, sigma);
                &&& s.len() > 0 ==> final(self).state.jump_intensity == intensity_of(c, s.len() as int)
                &&& s.len() == 0 ==> final(self).state.jump_intensity == old(self).state.jump_intensity
                &&& c > 0 ==> final(self).state.jump_mean == t / c
                    && final(self).state.jump_var == jump_variance(c, t, q, sigma)
                &&& c == 0 ==> final(self).state.jump_mean == old(self).state.jump_mean
                    && final(self).state.jump_var == old(self).state.jump_var
            }),
    {
        let ghost s = self.window@;
        let sigma: i64 = self.state.ewma_vol;
        let threshold: i64 = 3 * sigma;
        let n = self.window.len();
        let mut count: i128 = 0;
        let mut sum: i128 = 0;
        let mut sq: i128 = 0;
        let mut i: usize = 0;
        while i < n
            invariant
                s == self.window@,
                n == s.len(),
                n <= LONG_WINDOW,
                i <= n,
                bounded_returns(s),
                threshold == 3 * sigma,
                (count as int, sum as int, sq as int) == jump_stats(s.take(i as int), sigma as int),
            decreases n - i,
        {
            let r: i64 = self.window[i];
            proof {
                assert(s.take(i as int + 1).drop_last() =~= s.take(i as int));
                assert(bounded_returns(s.take(i as int)));
                lemma_jump_bounds(s.take(i as int), sigma as int);
                assert(-RET_UNIT <= s[i as int] <= RET_UNIT);
                assert(0 <= r * r <= RET_UNIT as int * RET_UNIT as int) by (nonlinear_arith)
                    requires -RET_UNIT <= r <= RET_UNIT;
                assert(count * (RET_UNIT as int * RET_UNIT as int) <= 300 * (RET_UNIT as int * RET_UNIT as int)) by (nonlinear_arith)
                    requires count <= 300;
            }
            if r > threshold || -r > threshold {
                count = count + 1;
                sum = sum + r as i128;
                sq = sq + r as i128 * r as i128;
            }
            i = i + 1;
        }
        proof {
            assert(s.take(n as int) =~= s);
            lemma_jump_bounds(s, sigma as int);
        }
        if n > 0 {
            proof {
                assert(count * SAMPLES_PER_YEAR * 1_000_000 <= n as int * (SAMPLES_PER_YEAR * 1_000_000)) by (nonlinear_arith)
                    requires count <= n;
                lemma_div_bounds(count * SAMPLES_PER_YEAR * 1_000_000, 0, SAMPLES_PER_YEAR * 1_000_000, n as int);
            }
            self.state.jump_intensity = (count * SAMPLES_PER_YEAR * 1_000_000 / n as i128) as i64;
        }
        if count > 0 {
            proof {
                assert(-count * RET_UNIT <= sum <= count * RET_UNIT);
                lemma_div_bounds(sum as int, -(RET_UNIT as int), RET_UNIT as int, count as int);
                assert(-(RET_UNIT as int) * count == -count * RET_UNIT) by (nonlinear_arith);
                assert(RET_UNIT as int * count == count * RET_UNIT) by (nonlinear_arith);
            }
            let mean: i128 = div_floor(sum, count);
            let raw: i128 = if count > 1 {
                proof {
                    lemma_div_bounds(sq as int, 0, RET_UNIT as int * RET_UNIT as int, count as int);
                    assert((RET_UNIT as int * RET_UNIT as int) * count == count * (RET_UNIT as int * RET_UNIT as int)) by (nonlinear_arith);
                    lemma_prod2_bound(if mean >= 0 { mean as int } else { -mean }, if mean >= 0 { mean as int } else { -mean },
                        RET_UNIT as int, RET_UNIT as int);
                    assert(mean * mean == (if mean >= 0 { mean as int } else { -mean }) * (if mean >= 0 { mean as int } else { -mean })) by (nonlinear_arith);
                }
                sq / count - mean * mean
            } else {
                proof {
                    lemma_prod2_bound(sigma as int, sigma as int, SIGMA_MAX as int, SIGMA_MAX as int);
                }
                sigma as i128 * sigma as i128
            };
            self.state.jump_mean = mean as i64;
            self.state.jump_var = if raw > JUMP_VAR_FLOOR { raw } else { JUMP_VAR_FLOOR };
        }
    }
}

/// Sample variance of returns as a fraction `var_num / var_den`, in units
/// of 1e-16: `(n sum x^2 - (sum x)^2) / (n (n - 1))`.
pub open spec fn var_num(s: Seq<i64>) -> int {
    s.len() * ret_sq_sum(s) - ret_sum(s) * ret_sum(s)
}

pub open spec fn var_den(s: Seq<i64>) -> int {
    s.len() * (s.len() - 1)
}

/// Regime once the long window is full: high when the short window's
/// variance exceeds 1.5 times the long window's, provided the latter
/// exceeds 1e-16; otherwise the regime stays.
pub open spec fn regime_after(s: Seq<i64>, old_regime: VolRegime) -> VolRegime {
    if s.len() < LONG_WINDOW {
        old_regime
    } else {
        let short = s.skip(s.len() - SHORT_WINDOW);
        if var_num(s) > var_den(s) {
            if 2 * var_num(short) * var_den(s) > 3 * var_num(s) * var_den(short) {
                VolRegime::High
            } else {
                VolRegime::Low
            }
        } else {
            old_regime
        }
    }
}

/// Sum and sum of squares of the returns from `start` on.
fn window_sums(rets: &Vec<i64>, start: usize) -> (r: (i128, i128))
    requires
        start <= rets.len() <= LONG_WINDOW,
        bounded_returns(rets@),
    ensures
        r.0 == ret_sum(rets@.skip(start as int)),
        r.1 == ret_sq_sum(rets@.skip(start as int)),
{
    let ghost s = rets@;
    let mut sum: i128 = 0;
    let mut sq: i128 = 0;
    let mut i: usize = start;
    while i < rets.len()
        invariant
            s == rets@,
            start <= i <= s.len() <= LONG_WINDOW,
            bounded_returns(s),
            sum == ret_sum(s.subrange(start as int, i as int)),
            sq == ret_sq_sum(s.subrange(start as int, i as int)),
        decreases s.len() - i,
    {
        let x: i64 = rets[i];
        proof {
            let w = s.subrange(start as int, i as int);
            assert(s.subrange(start as int, i as int + 1).drop_last() =~= w);
            assert(bounded_returns(w));
            lemma_ret_bounds(w);
            assert(w.len() <= 300);
            assert(-RET_UNIT <= s[i as int] <= RET_UNIT);
            assert(0 <= x * x <= RET_UNIT as int * RET_UNIT as int) by (nonlinear_arith)
                requires -RET_UNIT <= x <= RET_UNIT;
            assert(w.len() as int * RET_UNIT <= 300 * RET_UNIT) by (nonlinear_arith) requires w.len() <= 300;
            assert(w.len() as int * (RET_UNIT as int * RET_UNIT as int) <= 300 * (RET_UNIT as int * RET_UNIT as int))
                by (nonlinear_arith) requires w.len() <= 300;
        }
        sum = sum + x as i128;
        sq = sq + x as i128 * x as i128;
        i = i + 1;
    }
    assert(s.subrange(start as int, s.len() as int) =~= s.skip(start as int));
    (sum, sq)
}

proof fn lemma_var_bounds(s: Seq<i64>)
    requires
        bounded_returns(s),
        s.len() <= LONG_WINDOW,
    ensures
        -1_000_000_000_000_000_000_000 <= var_num(s) <= 1_000_000_000_000_000_000_000,
        0 <= var_den(s) <= 90_000,
{
    lemma_ret_bounds(s);
    let n = s.len() as int;
    let a = ret_sum(s);
    let b = ret_sq_sum(s);
    assert(-30_000_000_000 <= a <= 30_000_000_000) by (nonlinear_arith)
        requires -n * RET_UNIT <= a <= n * RET_UNIT, 0 <= n <= 300;
    assert(0 <= b <= 3_000_000_000_000_000_000) by (nonlinear_arith)
        requires 0 <= b <= n * (RET_UNIT as int * RET_UNIT as int), 0 <= n <= 300;
    assert(0 <= n * b <= 900_000_000_000_000_000_000) by (nonlinear_arith)
        requires 0 <= b <= 3_000_000_000_000_000_000, 0 <= n <= 300;
    assert(0 <= a * a <= 900_000_000_000_000_000_000) by (nonlinear_arith)
        requires -30_000_000_000 <= a <= 30_000_000_000;
    assert(0 <= n * (n - 1) <= 90_000 || n == 0) by (nonlinear_arith)
        requires 0 <= n <= 300;
}

impl VolatilityEngine {
    /// Compares the short window's variance with the long window's once the
    /// long window is full.
    fn update_regime(&mut self)
        requires
            old(self).wf(),
        ensures
            final(self).wf(),
            final(self).window@ == old(self).window@,
            final(self).state.regime == regime_after(old(self).window@, old(self).state.regime),
            final(self).state.ewma_vol == old(self).state.ewma_vol,
            final(self).state.jump_intensity == old(self).state.jump_intensity,
            final(self).state.jump_mean == old(self).state.jump_mean,
            final(self).state.jump_var == old(self).state.jump_var,
            final(self).state.student_t_nu == old(self).state.student_t_nu,
            final(self).state.sample_count == old(self).state.sample_count,
    {
        let n = self.window.len();
        if n < LONG_WINDOW {
            return;
        }
        let ghost s = self.window@;
        let (ls, lq) = window_sums(&self.window, 0);
        let (ss, sq) = window_sums(&self.window, n - SHORT_WINDOW);
        proof {
            assert(s.skip(0) =~= s);
            let sh = s.skip(n - SHORT_WINDOW);
            assert(bounded_returns(sh));
            lemma_var_bounds(s);
            lemma_var_bounds(sh);
            lemma_ret_bounds(s);
            lemma_ret_bounds(sh);
            assert(-30_000_000_000 <= ls <= 30_000_000_000) by (nonlinear_arith)
                requires -(n as int) * RET_UNIT <= ls <= n as int * RET_UNIT, n == 300;
            assert(-3_000_000_000 <= ss <= 3_000_000_000) by (nonlinear_arith)
                requires -30 * RET_UNIT <= ss <= 30 * RET_UNIT;
            assert(0 <= lq <= 3_000_000_000_000_000_000) by (nonlinear_arith)
                requires 0 <= lq <= n as int * (RET_UNIT as int * RET_UNIT as int), n == 300;
            assert(0 <= sq <= 300_000_000_000_000_000) by (nonlinear_arith)
                requires 0 <= sq <= 30 * (RET_UNIT as int * RET_UNIT as int);
        }
        let long_num: i128 = n as i128 * lq - ls * ls;
        let long_den: i128 = n as i128 * (n as i128 - 1);
        let short_num: i128 = SHORT_WINDOW as i128 * sq - ss * ss;
        let short_den: i128 = SHORT_WINDOW as i128 * (SHORT_WINDOW as i128 - 1);
        if long_num > long_den {
            proof {
                assert(-2_000_000_000_000_000_000_000 * 90_000 <= 2 * short_num * long_den <= 2_000_000_000_000_000_000_000 * 90_000)
                    by (nonlinear_arith)
                    requires -1_000_000_000_000_000_000_000 <= short_num <= 1_000_000_000_000_000_000_000, 0 <= long_den <= 90_000;
                assert(-3_000_000_000_000_000_000_000 * 90_000 <= 3 * long_num * short_den <= 3_000_000_000_000_000_000_000 * 90_000)
                    by (nonlinear_arith)
                    requires -1_000_000_000_000_000_000_000 <= long_num <= 1_000_000_000_000_000_000_000, 0 <= short_den <= 90_000;
            }
            self.state.regime = if 2 * short_num * long_den > 3 * long_num * short_den {
                VolRegime::High
            } else {
                VolRegime::Low
            };
        }
    }
}

pub open spec fn dev_pow_sum(s: Seq<i64>, mean: int, k: nat) -> int
    decreases s.len(),
{
    if s.len() == 0 {
        0
    } else {
        let d = s.last() as int - mean;
        dev_pow_sum(s.drop_last(), mean, k) + if k == 2 { d * d } else { d * d * d * d }
    }
}

/// Degrees of freedom by the method of moments once 30 returns are kept:
/// with `m2`, `m4` the central moments (rounded down), kurtosis
/// `m4 / m2^2`; an excess over 0.1 gives `4 + 6 / excess` clamped to
/// [2.5, 30] (the ratio rounded down in millionths), a smaller one 30; a
/// second moment of 1e-16 or less leaves the value.
pub open spec fn nu_after(s: Seq<i64>, old_nu: int) -> int {
    if s.len() < SHORT_WINDOW {
        old_nu
    } else {
        let n = s.len() as int;
        let mean = ret_sum(s) / n;
        let m2 = dev_pow_sum(s, mean, 2) / n;
        let m4 = dev_pow_sum(s, mean, 4) / n;
        let a = m2 * m2;
        if m2 > 1 {
            if 10 * m4 > 31 * a {
                let nu = 4_000_000 + (6 * a * 1_000_000) / (m4 - 3 * a);
                if nu < NU_MIN { NU_MIN as int } else if nu > NU_MAX { NU_MAX as int } else { nu }
            } else {
                NU_MAX as int
            }
        } else {
            old_nu
        }
    }
}

/// `floor(a * 10^6 / b)` by long division, for a quotient below 100.
fn millionths_quotient(a: u128, b: u128) -> (r: u128)
    requires
        b > 0,
        a < 100 * b,
        b <= 10_000_000_000_000_000_000_000_000_000_000_000,
    ensures
        r == (a as int * 1_000_000) / b as int,
        r <= 100_000_000,
{
    let mut q: u128 = a / b;
    let mut rem: u128 = a % b;
    let ghost mut p: int = 1;
    let mut k: u32 = 0;
    proof {
        vstd::arithmetic::div_mod::lemma_fundamental_div_mod(a as int, b as int);
        let (qi, ri, ai, bi) = ((a / b) as int, (a % b) as int, a as int, b as int);
        assert(qi < 100) by (nonlinear_arith)
            requires qi * bi + ri == ai, ai < 100 * bi, bi > 0, ri >= 0, qi >= 0;
    }
    while k < 6
        invariant
            b > 0,
            a < 100 * b,
            b <= 10_000_000_000_000_000_000_000_000_000_000_000,
            k <= 6,
            p == (if k == 0 { 1int } else if k == 1 { 10 } else if k == 2 { 100 } else if k == 3 { 1000 } else if k == 4 { 10000 }
                else if k == 5 { 100000 } else { 1000000 }),
            q as int * b as int + rem as int == a as int * p,
            rem < b,
            (q as int) < 100 * p,
        decreases 6 - k,
    {
        proof {
            vstd::arithmetic::div_mod::lemma_fundamental_div_mod((10 * rem) as int, b as int);
            lemma_div_bounds((10 * rem) as int, 0, 10, b as int);
            assert(10 * b == b * 10) by (nonlinear_arith);
            let (qi, ri, ai, bi) = (q as int, rem as int, a as int, b as int);
            let (dq, dr) = ((10 * ri) / bi, (10 * ri) % bi);
            assert((10 * qi + dq) * bi + dr == ai * (10 * p)) by (nonlinear_arith)
                requires qi * bi + ri == ai * p, 10 * ri == bi * dq + dr;
            assert(10 * qi + dq < 100 * (10 * p)) by (nonlinear_arith)
                requires (10 * qi + dq) * bi + dr == ai * (10 * p), ai < 100 * bi, bi > 0, dr >= 0, p >= 1;
        }
        q = 10 * q + (10 * rem) / b;
        rem = (10 * rem) % b;
        proof {
            p = 10 * p;
        }
        k = k + 1;
    }
    proof {
        vstd::arithmetic::div_mod::lemma_fundamental_div_mod_converse(a as int * 1_000_000, b as int, q as int, rem as int);
        let (qi, ri, ai, bi) = (q as int, rem as int, a as int, b as int);
        assert(ai * 1_000_000 == bi * qi + ri) by (nonlinear_arith)
            requires qi * bi + ri == ai * 1_000_000;
    }
    q
}

proof fn lemma_dev_bounds(s: Seq<i64>, mean: int)
    requires
        bounded_returns(s),
        -RET_UNIT <= mean <= RET_UNIT,
    ensures
        0 <= dev_pow_sum(s, mean, 2) <= s.len() * 40_000_000_000_000_000,
        0 <= dev_pow_sum(s, mean, 4) <= s.len() * 1_600_000_000_000_000_000_000_000_000_000_000,
    decreases s.len(),
{
    if s.len() > 0 {
        let x = s[s.len() - 1] as int;
        assert(-RET_UNIT <= x <= RET_UNIT);
        lemma_dev_bounds(s.drop_last(), mean);
        let d = x - mean;
        assert(0 <= d * d <= 40_000_000_000_000_000) by (nonlinear_arith)
            requires -200_000_000 <= d <= 200_000_000;
        assert(0 <= d * d * d * d <= 1_600_000_000_000_000_000_000_000_000_000_000) by (nonlinear_arith)
            requires 0 <= d * d <= 40_000_000_000_000_000;
    }
}

impl VolatilityEngine {
    /// Re-estimates the Student-t degrees of freedom (see `nu_after`).
    fn update_student_t_nu(&mut self)
        requires
            old(self).wf(),
        ensures
            final(self).wf(),
            final(self).window@ == old(self).window@,
            final(self).state.student_t_nu == nu_after(old(self).window@, old(self).state.student_t_nu as int),
            final(self).state.ewma_vol == old(self).state.ewma_vol,
            final(self).state.jump_intensity == old(self).state.jump_intensity,
            final(self).state.jump_mean == old(self).state.jump_mean,
            final(self).state.jump_var == old(self).state.jump_var,
            final(self).state.regime == old(self).state.regime,
            final(self).state.sample_count == old(self).state.sample_count,
    {
        let n = self.window.len();
        if n < SHORT_WINDOW {
            return;
        }
        let ghost s = self.window@;
        let (total, _sq) = window_sums(&self.window, 0);
        proof {
            assert(s.skip(0) =~= s);
            lemma_ret_bounds(s);
            lemma_div_bounds(total as int, -(RET_UNIT as int), RET_UNIT as int, n as int);
            assert(-(RET_UNIT as int) * n <= total <= (RET_UNIT as int) * n) by (nonlinear_arith)
                requires -(n as int) * RET_UNIT <= total <= n as int * RET_UNIT;
        }
        let mean: i128 = div_floor(total, n as i128);
        let mut d2: i128 = 0;
        let mut d4: i128 = 0;
        let mut i: usize = 0;
        while i < n
            invariant
                s == self.window@,
                n == s.len(),
                SHORT_WINDOW <= n <= LONG_WINDOW,
                i <= n,
                bounded_returns(s),
                -RET_UNIT <= mean <= RET_UNIT,
                d2 == dev_pow_sum(s.take(i as int), mean as int, 2),
                d4 == dev_pow_sum(s.take(i as int), mean as int, 4),
            decreases n - i,
        {
            let x: i64 = self.window[i];
            proof {
                let w = s.take(i as int);
                assert(s.take(i as int + 1).drop_last() =~= w);
                assert(bounded_returns(w));
                lemma_dev_bounds(w, mean as int);
                assert(-RET_UNIT <= s[i as int] <= RET_UNIT);
                let d = x - mean;
                assert(0 <= d * d <= 40_000_000_000_000_000) by (nonlinear_arith)
                    requires -200_000_000 <= d <= 200_000_000;
                assert(0 <= d * d * d * d <= 1_600_000_000_000_000_000_000_000_000_000_000) by (nonlinear_arith)
                    requires 0 <= d * d <= 40_000_000_000_000_000;
                assert(-8_000_000_000_000_000_000_000_000 <= d * d * d <= 8_000_000_000_000_000_000_000_000) by (nonlinear_arith)
                    requires -200_000_000 <= d <= 200_000_000;
                assert(w.len() * 40_000_000_000_000_000 <= 300 * 40_000_000_000_000_000) by (nonlinear_arith)
                    requires w.len() <= 300;
                assert(w.len() * 1_600_000_000_000_000_000_000_000_000_000_000 <= 300 * 1_600_000_000_000_000_000_000_000_000_000_000)
                    by (nonlinear_arith) requires w.len() <= 300;
            }
            let d: i128 = x as i128 - mean;
            d2 = d2 + d * d;
            d4 = d4 + d * d * d * d;
            i = i + 1;
        }
        proof {
            assert(s.take(n as int) =~= s);
            lemma_dev_bounds(s, mean as int);
            assert(d2 <= 300 * 40_000_000_000_000_000) by (nonlinear_arith)
                requires d2 <= n as int * 40_000_000_000_000_000, n <= 300;
            assert(d4 <= 300 * 1_600_000_000_000_000_000_000_000_000_000_000) by (nonlinear_arith)
                requires d4 <= n as int * 1_600_000_000_000_000_000_000_000_000_000_000, n <= 300;
            lemma_div_bounds(d2 as int, 0, 40_000_000_000_000_000, n as int);
            assert(40_000_000_000_000_000 * (n as int) >= d2) by (nonlinear_arith)
                requires d2 <= n as int * 40_000_000_000_000_000;
            lemma_div_bounds(d4 as int, 0, 1_600_000_000_000_000_000_000_000_000_000_000, n as int);
            assert(1_600_000_000_000_000_000_000_000_000_000_000 * (n as int) >= d4) by (nonlinear_arith)
                requires d4 <= n as int * 1_600_000_000_000_000_000_000_000_000_000_000;
        }
        let m2: i128 = d2 / n as i128;
        let m4: i128 = d4 / n as i128;
        if m2 > 1 {
            proof {
                lemma_prod2_bound(m2 as int, m2 as int, 40_000_000_000_000_000, 40_000_000_000_000_000);
            }
            let a: i128 = m2 * m2;
            if 10 * m4 > 31 * a {
                let b: i128 = m4 - 3 * a;
                proof {
                    assert(6 * a < 100 * b) by (nonlinear_arith)
                        requires 10 * m4 > 31 * a, b == m4 - 3 * a, a >= 0;
                }
                let extra: u128 = millionths_quotient((6 * a) as u128, b as u128);
                let nu: i128 = 4_000_000 + extra as i128;
                self.state.student_t_nu = if nu < NU_MIN as i128 {
                    NU_MIN
                } else if nu > NU_MAX as i128 {
                    NU_MAX
                } else {
                    nu as i64
                };
            } else {
                self.state.student_t_nu = NU_MAX;
            }
        }
    }

    /// Takes in one log return (in units of 1e-8); a return beyond +/-1 (a
    /// price ratio past e in one sample) lies outside the estimator's
    /// fixed-point range and is ignored, as the non-finite ones are.
    /// Otherwise: keeps the last 300,
    /// counts the sample, steps the EWMA sigma (clamped to [1e-8, 1]), and
    /// from the twentieth sample on re-estimates jumps, regime and degrees
    /// of freedom.
    pub fn update(&mut self, log_return: i64)
        requires
            old(self).wf(),
        ensures
            final(self).wf(),
            !(-RET_UNIT <= log_return <= RET_UNIT) ==> *final(self) == *old(self),
            -RET_UNIT <= log_return <= RET_UNIT ==> final(self).window@ == (if old(self).window.len() >= LONG_WINDOW {
                old(self).window@.drop_first()
            } else {
                old(self).window@
            }).push(log_return),
            -RET_UNIT <= log_return <= RET_UNIT ==> final(self).state.sample_count == (if old(self).state.sample_count < u64::MAX {
                old(self).state.sample_count + 1
            } else {
                u64::MAX as int
            }),
            -RET_UNIT <= log_return <= RET_UNIT ==> exists|raw: int| is_isqrt(raw, ewma_var(old(self).state.ewma_vol as int, log_return as int))
                && final(self).state.ewma_vol == clamp_sigma(raw),
            final(self).state.sample_count < MIN_SAMPLES ==> final(self).state.regime == old(self).state.regime
                && final(self).state.student_t_nu == old(self).state.student_t_nu
                && final(self).state.jump_intensity == old(self).state.jump_intensity
                && final(self).state.jump_mean == old(self).state.jump_mean
                && final(self).state.jump_var == old(self).state.jump_var,
            -RET_UNIT <= log_return <= RET_UNIT && final(self).state.sample_count >= MIN_SAMPLES ==> final(self).state.regime
                == regime_after(final(self).window@, old(self).state.regime)
                && final(self).state.student_t_nu == nu_after(final(self).window@, old(self).state.student_t_nu as int),
            -RET_UNIT <= log_return <= RET_UNIT && final(self).state.sample_count >= MIN_SAMPLES ==> ({
                let (c, t, q) = jump_stats(final(self).window@, final(self).state.ewma_vol as int);
                &&& final(self).state.jump_intensity == intensity_of(c, final(self).window@.len() as int)
                &&& c > 0 ==> final(self).state.jump_mean == t / c
                    && final(self).state.jump_var == jump_variance(c, t, q, final(self).state.ewma_vol as int)
                &&& c == 0 ==> final(self).state.jump_mean == old(self).state.jump_mean
                    && final(self).state.jump_var == old(self).state.jump_var
            }),
    {
        if log_return < -RET_UNIT || log_return > RET_UNIT {
            return;
        }
        if self.window.len() >= LONG_WINDOW {
            self.window.remove(0);
        }
        self.window.push(log_return);
        if self.state.sample_count < u64::MAX {
            self.state.sample_count = self.state.sample_count + 1;
        }
        let sigma: i128 = self.state.ewma_vol as i128;
        let r: i128 = log_return as i128;
        proof {
            lemma_prod2_bound(sigma as int, sigma as int, SIGMA_MAX as int, SIGMA_MAX as int);
            assert(0 <= r * r <= RET_UNIT as int * RET_UNIT as int) by (nonlinear_arith)
                requires -RET_UNIT <= r <= RET_UNIT;
        }
        let v: i128 = (94 * (sigma * sigma) + 6 * (r * r)) / 100;
        let raw: u128 = isqrt(v as u128);
        proof {
            assert(raw <= 100_000_000) by (nonlinear_arith)
                requires raw * raw <= v, v <= 10_000_000_000_000_000, raw >= 0;
        }
        let root: i64 = raw as i64;
        self.state.ewma_vol = if root < SIGMA_MIN { SIGMA_MIN } else if root > SIGMA_MAX { SIGMA_MAX } else { root };
        proof {
            assert(is_isqrt(raw as int, ewma_var(sigma as int, r as int)));
            assert(self.state.ewma_vol == clamp_sigma(raw as int));
        }
        if self.state.sample_count < MIN_SAMPLES {
            return;
        }
        self.update_jump_stats();
        self.update_regime();
        self.update_student_t_nu();
        proof {
            assert(self.state.ewma_vol == clamp_sigma(raw as int));
        }
    }
}

} // verus!
