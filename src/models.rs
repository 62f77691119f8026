//! The three digital-option pricing models and the bounds on what they may
//! report. The distributions themselves are evaluated in floating point by
//! the caller; the library receives each probability in millionths.
use vstd::prelude::*;
use crate::fixed::SCALE;

verus! {

/// Lowest and highest probability a model reports: 0.001 and 0.999.
pub const PROB_FLOOR: i64 = 1_000;
pub const PROB_CEIL: i64 = 999_000;

/// Black-Scholes digital: `P = N(d2)` with zero rates.
#[derive(Debug, Clone, Copy)]
pub struct BlackScholesDigital;

/// Merton jump-diffusion digital, Poisson sum truncated at ten jumps.
#[derive(Debug, Clone, Copy)]
pub struct JumpDiffusionDigital;

/// Student-t digital with location zero and unit scale.
#[derive(Debug, Clone, Copy)]
pub struct StudentTDigital;

impl BlackScholesDigital {
    pub fn new() -> (r: BlackScholesDigital) {
        BlackScholesDigital
    }

    pub fn name(&self) -> (r: &'static str)
        ensures
            r@ == "Black-Scholes"@,
    {
        "Black-Scholes"
    }
}

impl JumpDiffusionDigital {
    pub fn new() -> (r: JumpDiffusionDigital) {
        JumpDiffusionDigital
    }

    pub fn name(&self) -> (r: &'static str)
        ensures
            r@ == "Jump-Diffusion"@,
    {
        "Jump-Diffusion"
    }
}

impl StudentTDigital {
    pub fn new() -> (r: StudentTDigital) {
        StudentTDigital
    }

    pub fn name(&self) -> (r: &'static str)
        ensures
            r@ == "Student-t"@,
    {
        "Student-t"
    }
}

pub open spec fn clamp_prob(p: int) -> int {
    if p < PROB_FLOOR {
        PROB_FLOOR as int
    } else if p > PROB_CEIL {
        PROB_CEIL as int
    } else {
        p
    }
}

/// A model's probability in millionths, clamped to [0.001, 0.999].
pub fn clamp_probability(p: i64) -> (r: i64)
    ensures
        r == clamp_prob(p as int),
        PROB_FLOOR <= r <= PROB_CEIL,
{
    if p < PROB_FLOOR {
        PROB_FLOOR
    } else if p > PROB_CEIL {
        PROB_CEIL
    } else {
        p
    }
}

/// Probability when the distribution has collapsed (no time or no
/// volatility left): one if spot is at or above the strike, else zero,
/// clamped like every model output.
pub fn step_probability(spot: i64, strike: i64) -> (r: i64)
    ensures
        r == (if spot >= strike { PROB_CEIL } else { PROB_FLOOR }),
{
    clamp_probability(if spot >= strike { SCALE } else { 0 })
}

} // verus!
