//! Fixed-point quantities: every measurement, score and weight counts
//! millionths of a whole value.
use vstd::prelude::*;

verus! {

/// Number of fixed-point units in one whole value.
pub const UNIT: i128 = 1_000_000;

/// A raw measurement of one factor for one ticker, in millionths
/// (`0.05` is stored as `50_000`).
#[derive(Debug, Clone, Copy, PartialEq, Eq, Structural)]
pub struct Notional {
    pub micros: i64,
}

/// A dimensionless ranking value, in millionths.
#[derive(Debug, Clone, Copy, PartialEq, Eq, Structural)]
pub struct Score {
    pub micros: i128,
}

/// A multiplier applied to a factor's scores, in millionths (so at most
/// about 2147 in magnitude); it may be negative.
#[derive(Debug, Clone, Copy, PartialEq, Eq, Structural)]
pub struct Weight {
    pub micros: i32,
}

pub open spec fn abs(x: int) -> int {
    if x < 0 {
        -x
    } else {
        x
    }
}

/// `value / total` in millionths, rounded toward zero; a zero total gives zero.
pub open spec fn share(value: int, total: int) -> int {
    if total == 0 {
        0
    } else if (value < 0) == (total < 0) {
        abs(value) * (UNIT as int) / abs(total)
    } else {
        -(abs(value) * (UNIT as int) / abs(total))
    }
}

/// `score * weight`, both in millionths, rounded toward zero.
pub open spec fn weighted(score: int, weight: int) -> int {
    if (score < 0) != (weight < 0) {
        -(abs(score) * abs(weight) / (UNIT as int))
    } else {
        abs(score) * abs(weight) / (UNIT as int)
    }
}

/// The magnitude of `x`.
pub fn magnitude(x: i128) -> (r: u128)
    ensures
        r == abs(x as int),
{
    if x < 0 {
        (-(x + 1)) as u128 + 1
    } else {
        x as u128
    }
}

/// Computes `share(value, total)`.
pub fn share_of(value: i128, total: i128) -> (r: i128)
    requires
        abs(value as int) * (UNIT as int) <= i128::MAX,
    ensures
        r == share(value as int, total as int),
        abs(r as int) <= abs(value as int) * (UNIT as int),
{
    if total == 0 {
        return 0;
    }
    let mag_v: u128 = magnitude(value);
    let mag_t: u128 = magnitude(total);
    proof {
        assert(mag_v as int == abs(value as int));
    }
    let q: u128 = mag_v * (UNIT as u128) / mag_t;
    proof {
        assert(mag_t >= 1);
        let a = mag_v as int * 1_000_000int;
        assert(a / (mag_t as int) <= a) by (nonlinear_arith)
            requires a >= 0, mag_t >= 1;
    }
    let r: i128 = if (value < 0) == (total < 0) { q as i128 } else { 0 - (q as i128) };
    r
}

/// Computes `weighted(score, weight)`.
pub fn weigh(score: Score, weight: Weight) -> (r: i128)
    requires
        abs(score.micros as int) <= i64::MAX,
    ensures
        r == weighted(score.micros as int, weight.micros as int),
        abs(r as int) <= abs(score.micros as int) * abs(weight.micros as int) / (UNIT as int),
{
    let s = score.micros;
    let w = weight.micros as i128;
    let mag: u128 = if s < 0 { (0 - s) as u128 } else { s as u128 };
    let mag_w: u128 = if w < 0 { (0 - w) as u128 } else { w as u128 };
    proof {
        assert(mag * mag_w <= (i64::MAX as u128) * 0x8000_0000u128) by (nonlinear_arith)
            requires mag <= i64::MAX, mag_w <= 0x8000_0000u128;
    }
    let q: u128 = mag * mag_w / (UNIT as u128);
    proof {
        let a = mag as int * mag_w as int;
        assert(a / 1_000_000int <= a) by (nonlinear_arith)
            requires a >= 0;
    }
    if (s < 0) != (w < 0) {
        0 - (q as i128)
    } else {
        q as i128
    }
}

} // verus!
