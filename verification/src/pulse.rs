//! Pulse durations and the arithmetic that measures them in units.

use vstd::prelude::*;

verus! {

/// Any interval strictly longer than this many microseconds separates two
/// packets.
pub const BREAK_PULSE_LENGTH: u16 = 3000;

/// Whether an interval of `duration` microseconds is a break.
pub open spec fn is_break(duration: u16) -> bool {
    duration > BREAK_PULSE_LENGTH
}

/// The quotient of `dividend` by `divisor`, rounded to the nearest integer,
/// halves upwards.
pub open spec fn round_div_spec(dividend: int, divisor: int) -> int {
    (dividend + divisor / 2) / divisor
}

/// A number that lies between `q` times `d` and the next multiple of `d` has
/// the quotient `q`.
proof fn lemma_quotient_between(n: int, d: int, q: int)
    by (nonlinear_arith)
    requires
        d > 0,
        q * d <= n < (q + 1) * d,
    ensures
        n / d == q,
{
}

/// The quotient times the divisor reaches the dividend within less than one
/// divisor.
proof fn lemma_quotient_bounds(n: int, d: int)
    by (nonlinear_arith)
    requires
        d > 0,
    ensures
        (n / d) * d <= n < (n / d + 1) * d,
{
}

/// Rounded division gives `n` for exactly the dividends that lie within
/// half a divisor of `n` divisors, the lower end included.
pub proof fn lemma_round_div_band(dividend: int, divisor: int, n: int)
    requires
        dividend >= 0,
        divisor >= 1,
    ensures
        round_div_spec(dividend, divisor) == n <==> (2 * n - 1) * divisor <= 2 * dividend < (2 * n
            + 1) * divisor,
{
    let half = divisor / 2;
    let multiple = n * divisor;
    assert((2 * n - 1) * divisor == 2 * multiple - divisor) by (nonlinear_arith)
        requires
            multiple == n * divisor,
    ;
    assert((2 * n + 1) * divisor == 2 * multiple + divisor) by (nonlinear_arith)
        requires
            multiple == n * divisor,
    ;
    assert((n + 1) * divisor == multiple + divisor) by (nonlinear_arith)
        requires
            multiple == n * divisor,
    ;
    lemma_quotient_bounds(dividend + half, divisor);
    if multiple <= dividend + half < multiple + divisor {
        lemma_quotient_between(dividend + half, divisor, n);
    }
    if round_div_spec(dividend, divisor) == n {
        assert(multiple <= dividend + half < multiple + divisor);
    }
}

/// Divides one duration by another, rounding towards the closest integer.
pub fn round_div(dividend: u16, divisor: u16) -> (quotient: u16)
    requires
        divisor > 0,
    ensures
        quotient == round_div_spec(dividend as int, divisor as int),
{
    let wide: u32 = dividend as u32 + (divisor / 2) as u32;
    let q: u32 = wide / (divisor as u32);
    assert(q <= 0xffff) by (nonlinear_arith)
        requires
            q == wide / (divisor as u32),
            divisor >= 1,
            wide <= 0xffff + divisor / 2,
    ;
    q as u16
}

/// The bit that a mark of `high` microseconds followed by a space of `low`
/// microseconds stands for, when the short unit lasts `unit` microseconds:
/// three units then one are a one, one unit then three are a zero, and
/// anything else is no symbol. With a unit of zero nothing is a symbol.
pub open spec fn symbol_spec(high: u16, low: u16, unit: u16) -> Option<bool> {
    if unit == 0 {
        None
    } else {
        let high_period = round_div_spec(high as int, unit as int);
        let low_period = round_div_spec(low as int, unit as int);
        if high_period == 3 && low_period == 1 {
            Some(true)
        } else if high_period == 1 && low_period == 3 {
            Some(false)
        } else {
            None
        }
    }
}

/// The classifier in terms of bands: an interval counts as one unit from
/// half a unit up to one and a half, and as three units from two and a half
/// up to three and a half, the upper ends left out.
pub proof fn lemma_symbol_bands(high: u16, low: u16, unit: u16)
    ensures
        symbol_spec(high, low, unit) == Some(true) <==> unit > 0 && 5 * unit <= 2 * high < 7
            * unit && unit <= 2 * low < 3 * unit,
        symbol_spec(high, low, unit) == Some(false) <==> unit > 0 && unit <= 2 * high < 3 * unit
            && 5 * unit <= 2 * low < 7 * unit,
{
    if unit > 0 {
        let u = unit as int;
        lemma_round_div_band(high as int, u, 1);
        lemma_round_div_band(high as int, u, 3);
        lemma_round_div_band(low as int, u, 1);
        lemma_round_div_band(low as int, u, 3);
        assert((2 * 1 - 1) * u == u && (2 * 1 + 1) * u == 3 * u && (2 * 3 - 1) * u == 5 * u && (2
            * 3 + 1) * u == 7 * u) by (nonlinear_arith);
    }
}

/// Classifies one mark and the space after it.
pub fn symbol(high: u16, low: u16, unit: u16) -> (bit: Option<bool>)
    ensures
        bit == symbol_spec(high, low, unit),
{
    if unit == 0 {
        return None;
    }
    let high_period: u16 = round_div(high, unit);
    let low_period: u16 = round_div(low, unit);
    if high_period == 3 && low_period == 1 {
        Some(true)
    } else if high_period == 1 && low_period == 3 {
        Some(false)
    } else {
        None
    }
}

/// The short unit estimated from the four intervals of `pulses` that begin
/// at `start`: two symbols last eight units between them.
pub open spec fn unit_spec(pulses: Seq<u16>, start: int) -> u16 {
    ((pulses[start] + pulses[start + 1] + pulses[start + 2] + pulses[start + 3]) / 8) as u16
}

/// Estimates the short unit from the four intervals that begin at `start`.
pub fn estimate_unit(pulses: &[u16], start: usize) -> (unit: u16)
    requires
        start + 4 <= pulses.len(),
    ensures
        unit == unit_spec(pulses@, start as int),
{
    let sum: u32 = pulses[start] as u32 + pulses[start + 1] as u32 + pulses[start + 2] as u32
        + pulses[start + 3] as u32;
    (sum / 8) as u16
}

} // verus!
