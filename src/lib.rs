//! Decision core of a paper-trading engine for short-horizon binary options
//! on the BTC/USD price.
//!
//! Every quantity is a fixed-point integer (see `fixed`): prices,
//! probabilities and contract counts in millionths, money in pico-dollars,
//! log returns in units of 1e-8.
//!
//! - `volatility`: EWMA sigma, jump statistics, regime, Student-t degrees
//!   of freedom.
//! - `models`: the pricing models' names and the bounds on their outputs.
//! - `calibration`: bucketed isotonic (pool-adjacent-violators) calibration.
//! - `ev`, `kelly`, `limits`: expected value, robust Kelly sizing, risk check.
//! - `state`, `positions`: per-model state and its open positions.
//! - `simulator`: the per-tick exit / scale-in / entry state machine.
//! - `settlement`: resolution of pending trades.
//! - `scanner`: choice of the market to trade and settlement tracking.
//! - `engine`: lifecycle and event handling of the single-owner engine.
use vstd::prelude::*;

pub mod errors;
pub mod fixed;
pub mod ev;
pub mod positions;
pub mod state;
pub mod limits;
pub mod kelly;
pub mod calibration;
pub mod simulator;
pub mod settlement;
pub mod engine;
pub mod scanner;
pub mod models;
pub mod volatility;

verus! {
} // verus!
