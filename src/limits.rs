//! Admission check before any paper order.
use vstd::prelude::*;
use crate::fixed::SCALE;
use crate::state::{ModelState, VolRegime, VolatilityState, LEDGER_LIMIT};

verus! {

/// Why an order was refused.
#[derive(Debug, Clone, Copy, PartialEq, Eq, Structural)]
pub enum BlockReason {
    DailyDrawdown,
    MaxPosition,
    VolSpike,
    TooSmall,
    InvalidPrice,
}

impl BlockReason {
    pub fn message(&self) -> (r: &'static str)
        ensures
            r@ == (match *self {
                BlockReason::DailyDrawdown => "daily drawdown limit breached"@,
                BlockReason::MaxPosition => "max position size exceeded"@,
                BlockReason::VolSpike => "vol spike + elevated drawdown"@,
                BlockReason::TooSmall => "trade size too small"@,
                BlockReason::InvalidPrice => "invalid contract price"@,
            }),
    {
        match self {
            BlockReason::DailyDrawdown => "daily drawdown limit breached",
            BlockReason::MaxPosition => "max position size exceeded",
            BlockReason::VolSpike => "vol spike + elevated drawdown",
            BlockReason::TooSmall => "trade size too small",
            BlockReason::InvalidPrice => "invalid contract price",
        }
    }
}

/// Result of the risk check.
#[derive(Debug, Clone, Copy, PartialEq, Eq, Structural)]
pub enum RiskCheck {
    Allowed,
    Blocked(BlockReason),
}

impl RiskCheck {
    pub fn is_allowed(&self) -> (r: bool)
        ensures
            r == (*self == RiskCheck::Allowed),
    {
        match self {
            RiskCheck::Allowed => true,
            RiskCheck::Blocked(_) => false,
        }
    }
}

/// Smallest order the risk check accepts: 0.01 contract.
pub const MIN_CONTRACTS: i64 = 10_000;

/// The risk rules in order; the first that matches decides.
///
/// Money (`daily_pnl`, `exposure`, `max_drawdown`, `max_daily_drawdown`) is in
/// pico-dollars; `contracts`, `price` and `max_position` are in millionths,
/// the cap read as dollars of exposure.
pub open spec fn risk_decision(
    daily_pnl: int,
    exposure: int,
    max_drawdown: int,
    regime: VolRegime,
    contracts: int,
    price: int,
    max_daily_drawdown: int,
    max_position: int,
) -> RiskCheck {
    if daily_pnl < -max_daily_drawdown {
        RiskCheck::Blocked(BlockReason::DailyDrawdown)
    } else if exposure + contracts * price > max_position * SCALE {
        RiskCheck::Blocked(BlockReason::MaxPosition)
    } else if regime == VolRegime::High && 2 * max_drawdown > max_daily_drawdown {
        RiskCheck::Blocked(BlockReason::VolSpike)
    } else if contracts < MIN_CONTRACTS {
        RiskCheck::Blocked(BlockReason::TooSmall)
    } else if price <= 0 || price >= SCALE {
        RiskCheck::Blocked(BlockReason::InvalidPrice)
    } else {
        RiskCheck::Allowed
    }
}

/// Checks every risk limit before an order of `proposed_contracts` at
/// `proposed_price`.
pub fn check_risk_limits(
    model: &ModelState,
    vol_state: &VolatilityState,
    proposed_contracts: i64,
    proposed_price: i64,
    max_daily_drawdown: i128,
    max_position: i64,
) -> (r: RiskCheck)
    requires
        -LEDGER_LIMIT <= model.daily_pnl <= LEDGER_LIMIT,
        0 <= model.current_exposure <= LEDGER_LIMIT,
        0 <= model.max_drawdown <= 2 * LEDGER_LIMIT,
        max_daily_drawdown > i128::MIN,
    ensures
        r == risk_decision(
            model.daily_pnl as int,
            model.current_exposure as int,
            model.max_drawdown as int,
            vol_state.regime,
            proposed_contracts as int,
            proposed_price as int,
            max_daily_drawdown as int,
            max_position as int,
        ),
{
    if model.daily_pnl < -max_daily_drawdown {
        return RiskCheck::Blocked(BlockReason::DailyDrawdown);
    }
    proof {
        let c = proposed_contracts as int;
        let p = proposed_price as int;
        assert(-0x40000000000000000000000000000000 <= c * p <= 0x40000000000000000000000000000000) by (nonlinear_arith)
            requires -0x8000000000000000 <= c <= 0x8000000000000000, -0x8000000000000000 <= p <= 0x8000000000000000;
        let m = max_position as int;
        assert(-0x40000000000000000000000000000000 <= m * 1_000_000 <= 0x40000000000000000000000000000000) by (nonlinear_arith)
            requires -0x8000000000000000 <= m <= 0x8000000000000000;
    }
    let new_exposure: i128 = model.current_exposure + proposed_contracts as i128 * proposed_price as i128;
    if new_exposure > max_position as i128 * SCALE as i128 {
        return RiskCheck::Blocked(BlockReason::MaxPosition);
    }
    if vol_state.regime == VolRegime::High && 2 * model.max_drawdown > max_daily_drawdown {
        return RiskCheck::Blocked(BlockReason::VolSpike);
    }
    if proposed_contracts < MIN_CONTRACTS {
        return RiskCheck::Blocked(BlockReason::TooSmall);
    }
    if proposed_price <= 0 || proposed_price >= SCALE {
        return RiskCheck::Blocked(BlockReason::InvalidPrice);
    }
    RiskCheck::Allowed
}

} // verus!
