//! Decoding does not depend on the time scale of the input.
//!
//! The decoder measures every interval in units that it estimates from the
//! input itself, so a recording of the same packet made with a clock that
//! runs `k` times as fast carries the same code.

use crate::code::Code;
use crate::decoder::{
    decode_spec, first_break, lemma_first_break_from, lemma_first_break_from_is, lemma_symbols,
    lemma_symbols_are, symbols, Error,
};
use crate::pulse::{
    is_break, lemma_round_div_band, round_div_spec, symbol_spec, unit_spec, BREAK_PULSE_LENGTH,
};
use vstd::prelude::*;

verus! {

/// The pulse stream whose intervals are `k` times those of `pulses`.
pub open spec fn scaled(pulses: Seq<u16>, k: nat) -> Seq<u16> {
    Seq::new(pulses.len(), |i: int| (k * pulses[i]) as u16)
}

/// Whether the unit estimated from the scaled stream is exactly `k` times
/// the unit estimated from `pulses`. The estimate is an integer quotient by
/// eight, so this holds when `k` times the remainder of that division is
/// still less than eight.
pub open spec fn unit_scales(pulses: Seq<u16>, k: nat) -> bool {
    let start = first_break(pulses) + 1;
    unit_spec(scaled(pulses, k), start) == k * unit_spec(pulses, start)
}

/// Rounded division gives the same quotient when dividend and divisor are
/// both multiplied by `k`.
pub proof fn lemma_round_div_scaled(x: int, t: int, k: int)
    requires
        x >= 0,
        t >= 1,
        k >= 1,
    ensures
        round_div_spec(k * x, k * t) == round_div_spec(x, t),
{
    let q = round_div_spec(x, t);
    let lower = (2 * q - 1) * t;
    let upper = (2 * q + 1) * t;
    // The band of dividends that give `q` scales with the divisor.
    lemma_round_div_band(x, t, q);
    assert(k * lower <= k * (2 * x) < k * upper) by (nonlinear_arith)
        requires
            k >= 1,
            lower <= 2 * x < upper,
    ;
    assert(k * lower == (2 * q - 1) * (k * t)) by (nonlinear_arith)
        requires
            lower == (2 * q - 1) * t,
    ;
    assert(k * upper == (2 * q + 1) * (k * t)) by (nonlinear_arith)
        requires
            upper == (2 * q + 1) * t,
    ;
    assert(k * (2 * x) == 2 * (k * x)) by (nonlinear_arith);
    assert(k * t >= 1 && k * x >= 0) by (nonlinear_arith)
        requires
            k >= 1,
            t >= 1,
            x >= 0,
    ;
    lemma_round_div_band(k * x, k * t, q);
}

/// A pair of intervals stands for the same bit when both intervals and the
/// unit are multiplied by `k`.
pub proof fn lemma_symbol_scaled(high: u16, low: u16, unit: u16, k: nat)
    requires
        k >= 1,
        k * high <= u16::MAX,
        k * low <= u16::MAX,
        k * unit <= u16::MAX,
    ensures
        symbol_spec((k * high) as u16, (k * low) as u16, (k * unit) as u16) == symbol_spec(
            high,
            low,
            unit,
        ),
{
    if unit == 0 {
        assert(k * unit == 0) by (nonlinear_arith)
            requires
                unit == 0,
        ;
    } else {
        assert(k * unit >= 1) by (nonlinear_arith)
            requires
                k >= 1,
                unit >= 1,
        ;
        lemma_round_div_scaled(high as int, unit as int, k as int);
        lemma_round_div_scaled(low as int, unit as int, k as int);
    }
}

/// Scaling keeps each interval on its side of the break threshold.
proof fn lemma_scaled_breaks(pulses: Seq<u16>, k: nat)
    requires
        k >= 1,
        forall|i: int| 0 <= i < pulses.len() ==> k * #[trigger] pulses[i] <= u16::MAX,
        forall|i: int|
            0 <= i < pulses.len() && #[trigger] pulses[i] <= BREAK_PULSE_LENGTH ==> k * pulses[i]
                <= BREAK_PULSE_LENGTH,
    ensures
        scaled(pulses, k).len() == pulses.len(),
        forall|i: int|
            0 <= i < pulses.len() ==> #[trigger] scaled(pulses, k)[i] == k * pulses[i],
        forall|i: int|
            0 <= i < pulses.len() ==> is_break(#[trigger] scaled(pulses, k)[i]) == is_break(
                pulses[i],
            ),
        first_break(scaled(pulses, k)) == first_break(pulses),
{
    let q = scaled(pulses, k);
    assert forall|i: int| 0 <= i < pulses.len() implies #[trigger] q[i] == k * pulses[i]
        && is_break(q[i]) == is_break(pulses[i]) by {
        let x = pulses[i];
        assert(k * x <= u16::MAX);
        assert(k * x >= x) by (nonlinear_arith)
            requires
                k >= 1,
                x >= 0,
        ;
    }
    lemma_first_break_from(pulses, 0);
    let b = first_break(pulses);
    assert forall|j: int| 0 <= j < b implies !is_break(#[trigger] q[j]) by {
        assert(!is_break(pulses[j]));
    }
    lemma_first_break_from_is(q, 0, b);
}

/// Scaling a pulse stream by `k` scales what decoding reports: the same
/// code, the same framing error, or the offending pair multiplied by `k`.
pub proof fn lemma_decode_scaled(pulses: Seq<u16>, k: nat)
    requires
        k >= 1,
        forall|i: int| 0 <= i < pulses.len() ==> k * #[trigger] pulses[i] <= u16::MAX,
        forall|i: int|
            0 <= i < pulses.len() && #[trigger] pulses[i] <= BREAK_PULSE_LENGTH ==> k * pulses[i]
                <= BREAK_PULSE_LENGTH,
        pulses.len() - first_break(pulses) >= 5 ==> unit_scales(pulses, k),
    ensures
        match decode_spec(pulses) {
            Ok(code) => decode_spec(scaled(pulses, k)) == Ok::<Code, Error>(code),
            Err(Error::NoStart) => decode_spec(scaled(pulses, k)) == Err::<Code, Error>(
                Error::NoStart,
            ),
            Err(Error::TooShort) => decode_spec(scaled(pulses, k)) == Err::<Code, Error>(
                Error::TooShort,
            ),
            Err(Error::InvalidPulseLength(high, low)) => decode_spec(scaled(pulses, k)) == Err::<
                Code,
                Error,
            >(Error::InvalidPulseLength((k * high) as u16, (k * low) as u16)),
        },
{
    let q = scaled(pulses, k);
    lemma_scaled_breaks(pulses, k);
    let start = first_break(pulses) + 1;
    lemma_first_break_from(pulses, 0);
    if start <= pulses.len() && pulses.len() - start >= 4 {
        let unit = unit_spec(pulses, start);
        let scaled_unit = unit_spec(q, start);
        assert(scaled_unit == k * unit);
        let bits = symbols(pulses, start, unit);
        lemma_symbols(pulses, start, unit);
        assert forall|j: int| 0 <= j < bits.len() implies symbol_spec(
            q[start + 2 * j],
            q[start + 2 * j + 1],
            scaled_unit,
        ) == Some(#[trigger] bits[j]) by {
            lemma_symbol_scaled(pulses[start + 2 * j], pulses[start + 2 * j + 1], unit, k);
        }
        let end = start + 2 * bits.len();
        if end + 1 < pulses.len() {
            lemma_symbol_scaled(pulses[end], pulses[end + 1], unit, k);
        }
        lemma_symbols_are(q, start, scaled_unit, bits);
    }
}

/// Scale invariance: if a pulse stream decodes to a code, then the stream
/// with every interval multiplied by `k` decodes to the same code, provided
/// that no scaled interval exceeds sixteen bits, that no interval which was
/// not a break becomes one, and that the unit estimated from the scaled
/// stream is `k` times the unit estimated from `pulses`.
pub proof fn law_scale_invariance(pulses: Seq<u16>, k: nat)
    requires
        k >= 1,
        forall|i: int| 0 <= i < pulses.len() ==> k * #[trigger] pulses[i] <= u16::MAX,
        forall|i: int|
            0 <= i < pulses.len() && #[trigger] pulses[i] <= BREAK_PULSE_LENGTH ==> k * pulses[i]
                <= BREAK_PULSE_LENGTH,
        decode_spec(pulses) is Ok,
        unit_scales(pulses, k),
    ensures
        decode_spec(scaled(pulses, k)) == decode_spec(pulses),
{
    lemma_decode_scaled(pulses, k);
}

/// The unit scales exactly when `k` times the remainder that the estimate
/// drops is less than eight; in particular whenever the four intervals that
/// the estimate reads add up to a multiple of eight.
pub proof fn lemma_unit_scales(pulses: Seq<u16>, k: nat)
    requires
        k >= 1,
        forall|i: int| 0 <= i < pulses.len() ==> k * #[trigger] pulses[i] <= u16::MAX,
        pulses.len() - first_break(pulses) >= 5,
    ensures
        unit_scales(pulses, k) <==> k * ((pulses[first_break(pulses) + 1] + pulses[first_break(
            pulses,
        ) + 2] + pulses[first_break(pulses) + 3] + pulses[first_break(pulses) + 4]) % 8) < 8,
{
    lemma_first_break_from(pulses, 0);
    let start = first_break(pulses) + 1;
    let q = scaled(pulses, k);
    let a = pulses[start];
    let b = pulses[start + 1];
    let c = pulses[start + 2];
    let d = pulses[start + 3];
    assert(q[start] == k * a);
    assert(q[start + 1] == k * b);
    assert(q[start + 2] == k * c);
    assert(q[start + 3] == k * d);
    let sum = a + b + c + d;
    assert(k * a + k * b + k * c + k * d == k * sum) by (nonlinear_arith)
        requires
            sum == a + b + c + d,
    ;
    let unit = sum / 8;
    let rest = sum % 8;
    assert(k * sum == 8 * (k * unit) + k * rest) by (nonlinear_arith)
        requires
            sum == 8 * unit + rest,
    ;
    assert(k * rest >= 0) by (nonlinear_arith)
        requires
            k >= 1,
            rest >= 0,
    ;
    assert(k * unit >= 0) by (nonlinear_arith)
        requires
            k >= 1,
            unit >= 0,
    ;
    assert(unit_spec(pulses, start) == unit);
    assert(k * sum <= 4 * 0xffff);
    assert(unit_spec(q, start) == (k * sum) / 8);
}

} // verus!
