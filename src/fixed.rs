//! Fixed-point units shared by the whole library.
//!
//! Prices, probabilities, fee rates, contract counts and spot prices are held
//! in millionths (`SCALE` stands for 1.0). Money is held in pico-dollars: the
//! exact product of a price in millionths and a contract count in millionths.
use vstd::prelude::*;

verus! {

/// 1.0 in millionths.
pub const SCALE: i64 = 1_000_000;

/// One dollar in pico-dollars.
pub const MONEY_SCALE: i128 = 1_000_000_000_000;

/// Largest contract count (in millionths) that any position or order holds.
pub const MAX_CONTRACTS: i64 = 1_000_000_000_000;

/// Largest spot or strike price (in millionths of a dollar).
pub const MAX_SPOT: i64 = 1_000_000_000_000_000;

pub open spec fn clamp(x: int, lo: int, hi: int) -> int {
    if x < lo {
        lo
    } else if x > hi {
        hi
    } else {
        x
    }
}

/// Floor of `a / b` for a positive `b`.
pub fn div_floor(a: i128, b: i128) -> (r: i128)
    requires
        b > 0,
        a > i128::MIN,
    ensures
        r == a / b,
{
    if a >= 0 {
        a / b
    } else {
        let na: i128 = -a;
        let q: i128 = na / b;
        let rem: i128 = na % b;
        proof {
            vstd::arithmetic::div_mod::lemma_fundamental_div_mod(na as int, b as int);
        }
        if rem == 0 {
            proof {
                assert(a == b * (-q) + 0) by (nonlinear_arith)
                    requires na == b * q + rem, rem == 0, a == -na;
                vstd::arithmetic::div_mod::lemma_fundamental_div_mod_converse(a as int, b as int, -q as int, 0);
            }
            -q
        } else {
            proof {
                assert(a == b * (-q - 1) + (b - rem)) by (nonlinear_arith)
                    requires na == b * q + rem, a == -na;
                vstd::arithmetic::div_mod::lemma_fundamental_div_mod_converse(a as int, b as int, -q - 1, b - rem);
            }
            -q - 1
        }
    }
}

pub proof fn lemma_prod3_bound(a: int, b: int, c: int, m: int)
    requires
        0 <= a <= m,
        0 <= b <= m,
        0 <= c <= m,
    ensures
        0 <= a * b * c <= m * m * m,
{
    assert(0 <= a * b * c <= m * m * m) by (nonlinear_arith)
        requires
            0 <= a <= m,
            0 <= b <= m,
            0 <= c <= m,
    ;
}

pub proof fn lemma_prod2_bound(a: int, b: int, ma: int, mb: int)
    requires
        0 <= a <= ma,
        0 <= b <= mb,
    ensures
        0 <= a * b <= ma * mb,
{
    assert(0 <= a * b <= ma * mb) by (nonlinear_arith)
        requires
            0 <= a <= ma,
            0 <= b <= mb,
    ;
}

/// Bounds on a quotient from bounds on the dividend.
pub proof fn lemma_div_bounds(x: int, lo: int, hi: int, d: int)
    requires
        0 < d,
        lo * d <= x <= hi * d,
    ensures
        lo <= x / d <= hi,
{
    vstd::arithmetic::div_mod::lemma_div_is_ordered(lo * d, x, d);
    vstd::arithmetic::div_mod::lemma_div_is_ordered(x, hi * d, d);
    vstd::arithmetic::div_mod::lemma_div_multiples_vanish(lo, d);
    vstd::arithmetic::div_mod::lemma_div_multiples_vanish(hi, d);
    assert(lo * d == d * lo) by (nonlinear_arith);
    assert(hi * d == d * hi) by (nonlinear_arith);
}

pub open spec fn is_isqrt(r: int, v: int) -> bool {
    0 <= r && r * r <= v < (r + 1) * (r + 1)
}

/// Integer square root, rounded down.
pub fn isqrt(v: u128) -> (r: u128)
    requires
        v <= 0x100_0000_0000_0000_0000_0000_0000_0000,
    ensures
        is_isqrt(r as int, v as int),
{
    let mut lo: u128 = 0;
    let mut hi: u128 = 0x1000_0000_0000_0001;
    proof {
        assert(0x1000_0000_0000_0001 * 0x1000_0000_0000_0001 > 0x100_0000_0000_0000_0000_0000_0000_0000) by (nonlinear_arith);
    }
    while hi - lo > 1
        invariant
            lo < hi <= 0x1000_0000_0000_0001,
            lo * lo <= v,
            v < hi * hi,
        decreases hi - lo,
    {
        let mid: u128 = lo + (hi - lo) / 2;
        proof {
            lemma_prod2_bound(mid as int, mid as int, 0x1000_0000_0000_0001, 0x1000_0000_0000_0001);
        }
        if mid * mid <= v {
            lo = mid;
        } else {
            hi = mid;
        }
    }
    assert(hi == lo + 1);
    lo
}

pub fn clamp_i64(x: i64, lo: i64, hi: i64) -> (r: i64)
    requires
        lo <= hi,
    ensures
        r == clamp(x as int, lo as int, hi as int),
{
    if x < lo {
        lo
    } else if x > hi {
        hi
    } else {
        x
    }
}

} // verus!
