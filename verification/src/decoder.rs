//! The pulse-stream decoder and its mathematical model.
//!
//! A pulse stream is a sequence of durations in microseconds, marks at the
//! even indices and spaces at the odd ones. The model below says what such a
//! stream decodes to; [`decode`] computes it.

use crate::code::{lemma_wf_upper_bits_zero, Code};
use crate::pulse::{estimate_unit, is_break, symbol, symbol_spec, unit_spec, BREAK_PULSE_LENGTH};
use vstd::arithmetic::power2::{
    lemma2_to64, lemma_pow2_strictly_increases, lemma_pow2_unfold, pow2,
};
use vstd::prelude::*;

verus! {

/// An error decoding an RF button code.
#[derive(Debug, Eq, PartialEq, Structural)]
pub enum Error {
    /// The start pulse of the code sequence couldn't be found.
    NoStart,
    /// There were not enough pulses to decode the code.
    TooShort,
    /// A pair of pulses in the code were of an unexpected length.
    InvalidPulseLength(u16, u16),
}

impl Clone for Error {
    fn clone(&self) -> (copy: Self)
        ensures
            copy == *self,
    {
        match self {
            Error::NoStart => Error::NoStart,
            Error::TooShort => Error::TooShort,
            Error::InvalidPulseLength(high, low) => Error::InvalidPulseLength(*high, *low),
        }
    }
}

/// The index of the first break of `pulses` at or after `from`, or the length
/// of `pulses` if there is none.
pub open spec fn first_break_from(pulses: Seq<u16>, from: int) -> int
    decreases pulses.len() - from,
{
    if from < 0 || from >= pulses.len() {
        pulses.len() as int
    } else if is_break(pulses[from]) {
        from
    } else {
        first_break_from(pulses, from + 1)
    }
}

/// The index of the first break of `pulses`, or the length of `pulses` if it
/// holds none.
pub open spec fn first_break(pulses: Seq<u16>) -> int {
    first_break_from(pulses, 0)
}

/// The bits of the unbroken run of symbols that begins at index `from`, in
/// the order in which they were received. The run ends before the first pair
/// of intervals that is no symbol, or where fewer than two intervals are left.
pub open spec fn symbols(pulses: Seq<u16>, from: int, unit: u16) -> Seq<bool>
    decreases pulses.len() - from,
{
    if 0 <= from && from + 1 < pulses.len() {
        match symbol_spec(pulses[from], pulses[from + 1], unit) {
            Some(bit) => seq![bit] + symbols(pulses, from + 2, unit),
            None => Seq::empty(),
        }
    } else {
        Seq::empty()
    }
}

/// The number that a string of bits denotes, the first bit being the most
/// significant.
pub open spec fn bits_value(bits: Seq<bool>) -> nat
    decreases bits.len(),
{
    if bits.len() == 0 {
        0
    } else {
        2 * bits_value(bits.drop_last()) + if bits.last() {
            1nat
        } else {
            0nat
        }
    }
}

/// The bits that a code holds of a string of bits: all of them, or the last
/// 32 of a longer string.
pub open spec fn held_bits(bits: Seq<bool>) -> Seq<bool> {
    if bits.len() <= 32 {
        bits
    } else {
        bits.subrange(bits.len() - 32, bits.len() as int)
    }
}

/// The code of a string of bits: its length is the number of bits that it
/// holds, and its value the number that they denote.
pub open spec fn code_of(bits: Seq<bool>) -> Code {
    Code { value: bits_value(held_bits(bits)) as u32, length: held_bits(bits).len() as u8 }
}

/// The bits of the packet that `pulses` holds: the run of symbols that begins
/// right after the first break, read in the unit that the four intervals
/// there give.
pub open spec fn decoded_bits(pulses: Seq<u16>) -> Seq<bool> {
    let start = first_break(pulses) + 1;
    symbols(pulses, start, unit_spec(pulses, start))
}

/// What a pulse stream decodes to.
///
/// The symbols begin right after the first break. The four intervals there
/// give the unit. Symbols are read pair by pair; the first pair that is no
/// symbol ends the packet if one of its halves is a break, and is an error
/// otherwise. A last interval without a partner is ignored.
pub open spec fn decode_spec(pulses: Seq<u16>) -> Result<Code, Error> {
    let start = first_break(pulses) + 1;
    if start > pulses.len() {
        Err(Error::NoStart)
    } else if pulses.len() - start < 4 {
        Err(Error::TooShort)
    } else {
        let bits = decoded_bits(pulses);
        let end = start + 2 * bits.len();
        if end + 1 < pulses.len() && !is_break(pulses[end]) && !is_break(pulses[end + 1]) {
            Err(Error::InvalidPulseLength(pulses[end], pulses[end + 1]))
        } else {
            Ok(code_of(bits))
        }
    }
}

/// `first_break_from` finds the least index at or after `from` that holds a
/// break.
pub proof fn lemma_first_break_from(pulses: Seq<u16>, from: int)
    requires
        0 <= from <= pulses.len(),
    ensures
        from <= first_break_from(pulses, from) <= pulses.len(),
        forall|j: int|
            from <= j < first_break_from(pulses, from) ==> !is_break(#[trigger] pulses[j]),
        first_break_from(pulses, from) < pulses.len() ==> is_break(
            pulses[first_break_from(pulses, from)],
        ),
    decreases pulses.len() - from,
{
    if from < pulses.len() && !is_break(pulses[from]) {
        lemma_first_break_from(pulses, from + 1);
    }
}

/// An index with no break between `from` and itself, which holds a break or
/// is the length of `pulses`, is the one that `first_break_from` finds.
pub proof fn lemma_first_break_from_is(pulses: Seq<u16>, from: int, index: int)
    requires
        0 <= from <= index <= pulses.len(),
        forall|j: int| from <= j < index ==> !is_break(#[trigger] pulses[j]),
        index < pulses.len() ==> is_break(pulses[index]),
    ensures
        first_break_from(pulses, from) == index,
    decreases index - from,
{
    if from < index {
        lemma_first_break_from_is(pulses, from + 1, index);
    }
}

/// The run of symbols that begins at `from` is `bits` if the pairs of
/// intervals there are the symbols of `bits`, one after the other, and what
/// follows them is no symbol.
pub proof fn lemma_symbols_are(pulses: Seq<u16>, from: int, unit: u16, bits: Seq<bool>)
    requires
        0 <= from,
        from + 2 * bits.len() <= pulses.len(),
        forall|j: int|
            0 <= j < bits.len() ==> symbol_spec(
                pulses[from + 2 * j],
                pulses[from + 2 * j + 1],
                unit,
            ) == Some(#[trigger] bits[j]),
        from + 2 * bits.len() + 1 < pulses.len() ==> symbol_spec(
            pulses[from + 2 * bits.len()],
            pulses[from + 2 * bits.len() + 1],
            unit,
        ) is None,
    ensures
        symbols(pulses, from, unit) == bits,
    decreases bits.len(),
{
    if bits.len() == 0 {
        assert(symbols(pulses, from, unit) =~= bits);
    } else {
        let rest = bits.drop_first();
        assert forall|j: int| 0 <= j < rest.len() implies symbol_spec(
            pulses[from + 2 + 2 * j],
            pulses[from + 2 + 2 * j + 1],
            unit,
        ) == Some(#[trigger] rest[j]) by {
            assert(rest[j] == bits[j + 1]);
        }
        lemma_symbols_are(pulses, from + 2, unit, rest);
        assert(symbol_spec(pulses[from], pulses[from + 1], unit) == Some(bits[0]));
        assert(symbols(pulses, from, unit) =~= bits);
    }
}

/// The run of symbols that begins at `from` lies within `pulses`, each of
/// its bits is the symbol of its pair, and what follows it is no symbol.
pub proof fn lemma_symbols(pulses: Seq<u16>, from: int, unit: u16)
    requires
        0 <= from <= pulses.len(),
    ensures
        from + 2 * symbols(pulses, from, unit).len() <= pulses.len(),
        forall|j: int|
            0 <= j < symbols(pulses, from, unit).len() ==> symbol_spec(
                pulses[from + 2 * j],
                pulses[from + 2 * j + 1],
                unit,
            ) == Some(#[trigger] symbols(pulses, from, unit)[j]),
        from + 2 * symbols(pulses, from, unit).len() + 1 < pulses.len() ==> symbol_spec(
            pulses[from + 2 * symbols(pulses, from, unit).len()],
            pulses[from + 2 * symbols(pulses, from, unit).len() + 1],
            unit,
        ) is None,
    decreases pulses.len() - from,
{
    if from + 1 < pulses.len() {
        match symbol_spec(pulses[from], pulses[from + 1], unit) {
            Some(bit) => {
                lemma_symbols(pulses, from + 2, unit);
                let rest = symbols(pulses, from + 2, unit);
                let all = symbols(pulses, from, unit);
                assert(all == seq![bit] + rest);
                assert forall|j: int| 0 <= j < all.len() implies symbol_spec(
                    pulses[from + 2 * j],
                    pulses[from + 2 * j + 1],
                    unit,
                ) == Some(#[trigger] all[j]) by {
                    if j > 0 {
                        assert(all[j] == rest[j - 1]);
                        assert(from + 2 * j == from + 2 + 2 * (j - 1));
                    }
                }
            },
            None => {},
        }
    }
}

/// Appending a bit doubles the value and adds the bit.
pub proof fn lemma_bits_value_push(bits: Seq<bool>, bit: bool)
    ensures
        bits_value(bits.push(bit)) == 2 * bits_value(bits) + if bit {
            1nat
        } else {
            0nat
        },
{
    assert(bits.push(bit).drop_last() =~= bits);
}

/// A string of `n` bits denotes a number below two to the power `n`.
pub proof fn lemma_bits_value_bound(bits: Seq<bool>)
    ensures
        bits_value(bits) < pow2(bits.len()),
    decreases bits.len(),
{
    if bits.len() == 0 {
        lemma2_to64();
    } else {
        lemma_bits_value_bound(bits.drop_last());
        lemma_pow2_unfold(bits.len());
    }
}

/// Without its first bit a string denotes what it denoted before, less the
/// weight of that bit where it was set.
pub proof fn lemma_bits_value_drop_first(bits: Seq<bool>)
    requires
        bits.len() >= 1,
    ensures
        bits_value(bits) == bits_value(bits.drop_first()) + if bits[0] {
            pow2((bits.len() - 1) as nat)
        } else {
            0nat
        },
    decreases bits.len(),
{
    if bits.len() == 1 {
        lemma2_to64();
        assert(bits.drop_last() =~= Seq::<bool>::empty());
        assert(bits.drop_first() =~= Seq::<bool>::empty());
    } else {
        let front = bits.drop_last();
        lemma_bits_value_drop_first(front);
        assert(bits.drop_first().drop_last() =~= front.drop_first());
        lemma_pow2_unfold((bits.len() - 1) as nat);
    }
}

/// Every code of a string of bits is well formed. A string of at most 32
/// bits is held as it is: the length of its code is the number of bits, and
/// the value is the number that they denote.
pub proof fn lemma_code_of(bits: Seq<bool>)
    ensures
        code_of(bits).wf(),
        code_of(bits).length == held_bits(bits).len(),
        code_of(bits).value == bits_value(held_bits(bits)),
        bits.len() <= 32 ==> code_of(bits).length == bits.len() && code_of(bits).value
            == bits_value(bits),
        bits.len() >= 32 ==> code_of(bits).length == 32,
{
    let held = held_bits(bits);
    lemma_bits_value_bound(held);
    lemma2_to64();
    if held.len() < 32 {
        lemma_pow2_strictly_increases(held.len(), 32);
    }
}

/// A pulse stream has no start exactly if none of its intervals is a break.
pub proof fn law_no_start(pulses: Seq<u16>)
    ensures
        decode_spec(pulses) == Err::<Code, Error>(Error::NoStart) <==> forall|i: int|
            0 <= i < pulses.len() ==> #[trigger] pulses[i] <= BREAK_PULSE_LENGTH,
{
    lemma_first_break_from(pulses, 0);
    let b = first_break(pulses);
    if b < pulses.len() {
        assert(is_break(pulses[b]));
    }
}

/// A pulse stream is too short exactly if fewer than four intervals follow
/// its first break.
pub proof fn law_too_short(pulses: Seq<u16>)
    ensures
        decode_spec(pulses) == Err::<Code, Error>(Error::TooShort) <==> exists|i: int|
            0 <= i < pulses.len() && pulses.len() - i - 1 < 4 && is_break(#[trigger] pulses[i])
                && forall|j: int| 0 <= j < i ==> !is_break(#[trigger] pulses[j]),
{
    lemma_first_break_from(pulses, 0);
    let b = first_break(pulses);
    if decode_spec(pulses) == Err::<Code, Error>(Error::TooShort) {
        assert(0 <= b < pulses.len() && pulses.len() - b - 1 < 4 && is_break(pulses[b]));
    }
    if exists|i: int|
        0 <= i < pulses.len() && pulses.len() - i - 1 < 4 && is_break(#[trigger] pulses[i])
            && forall|j: int| 0 <= j < i ==> !is_break(#[trigger] pulses[j]) {
        let i = choose|i: int|
            0 <= i < pulses.len() && pulses.len() - i - 1 < 4 && is_break(#[trigger] pulses[i])
                && forall|j: int| 0 <= j < i ==> !is_break(#[trigger] pulses[j]);
        lemma_first_break_from_is(pulses, 0, i);
    }
}

/// A code takes one more bit by shifting its value up by one place and
/// putting the bit in the lowest place. Its length grows by one until it is
/// 32; from then on the shift drops the oldest bit.
pub proof fn lemma_code_of_push(bits: Seq<bool>, bit: bool, value: u32, length: u8)
    requires
        (Code { value, length }) == code_of(bits),
    ensures
        (Code {
            value: value << 1 | if bit {
                1u32
            } else {
                0u32
            },
            length: if length < 32 {
                (length + 1) as u8
            } else {
                length
            },
        }) == code_of(bits.push(bit)),
{
    let low_bit: u32 = if bit {
        1
    } else {
        0
    };
    let held = held_bits(bits);
    let longer = held_bits(bits.push(bit));
    lemma_code_of(bits);
    lemma_code_of(bits.push(bit));
    let shifted: u32 = value << 1 | low_bit;
    assert(shifted == (2 * value + low_bit) % 0x1_0000_0000) by (bit_vector)
        requires
            shifted == value << 1 | low_bit,
            low_bit <= 1,
    ;
    lemma2_to64();
    if bits.len() < 32 {
        assert(longer =~= held.push(bit));
        lemma_bits_value_push(held, bit);
        lemma_bits_value_bound(held);
        lemma_pow2_strictly_increases(held.len(), 32);
        lemma_bits_value_bound(longer);
        if longer.len() < 32 {
            lemma_pow2_strictly_increases(longer.len(), 32);
        }
    } else {
        let kept = held.drop_first();
        assert(longer =~= kept.push(bit));
        lemma_bits_value_push(kept, bit);
        lemma_bits_value_drop_first(held);
        lemma_bits_value_bound(kept);
    }
}

/// What the model says of the ways in which decoding ends: a stream has no
/// start exactly if none of its intervals is a break; it is too short
/// exactly if fewer than four intervals follow its first break; a pair is
/// reported as invalid only if it is no symbol and neither half of it is a
/// break; and every code is well formed, and holds the bits of a packet of
/// at most 32 symbols as they are.
pub proof fn lemma_decode_spec(pulses: Seq<u16>)
    ensures
        decode_spec(pulses) == Err::<Code, Error>(Error::NoStart) <==> forall|i: int|
            0 <= i < pulses.len() ==> #[trigger] pulses[i] <= BREAK_PULSE_LENGTH,
        decode_spec(pulses) == Err::<Code, Error>(Error::TooShort) <==> exists|i: int|
            0 <= i < pulses.len() && pulses.len() - i - 1 < 4 && is_break(#[trigger] pulses[i])
                && forall|j: int| 0 <= j < i ==> !is_break(#[trigger] pulses[j]),
        decode_spec(pulses) matches Err(Error::InvalidPulseLength(high, low)) ==> high
            <= BREAK_PULSE_LENGTH && low <= BREAK_PULSE_LENGTH && symbol_spec(
            high,
            low,
            unit_spec(pulses, first_break(pulses) + 1),
        ) is None,
        decode_spec(pulses) matches Ok(code) ==> code.wf() && code.length <= 32 && (code.length
            == 32 || code.value >> (code.length as u32) == 0),
        decode_spec(pulses) matches Ok(code) ==> decoded_bits(pulses).len() <= 32 ==> code.length
            == decoded_bits(pulses).len() && code.value == bits_value(decoded_bits(pulses)),
{
    law_no_start(pulses);
    law_too_short(pulses);
    lemma_first_break_from(pulses, 0);
    let start = first_break(pulses) + 1;
    if start <= pulses.len() {
        lemma_symbols(pulses, start, unit_spec(pulses, start));
    }
    lemma_code_of(decoded_bits(pulses));
    lemma_wf_upper_bits_zero(code_of(decoded_bits(pulses)));
}

/// The empty pulse stream has no start.
pub proof fn lemma_empty_has_no_start()
    ensures
        decode_spec(Seq::<u16>::empty()) == Err::<Code, Error>(Error::NoStart),
{
}

/// Given a sequence of pulse durations in microseconds (starting with a high
/// pulse), try to decode a button code.
///
/// The result is what the model gives for the stream. In particular the
/// stream has no start exactly if it holds no break, and is too short
/// exactly if fewer than four intervals follow its first break; a pair is
/// reported as invalid only if it is no symbol and holds no break; and
/// every code returned is well formed. A packet of at most 32 symbols is
/// returned as the code that holds its bits. A longer packet is still read
/// to its end, and the code returned holds its last 32 bits.
pub fn decode(pulses: &[u16]) -> (result: Result<Code, Error>)
    ensures
        result == decode_spec(pulses@),
        result == Err::<Code, Error>(Error::NoStart) <==> forall|i: int|
            0 <= i < pulses@.len() ==> #[trigger] pulses@[i] <= BREAK_PULSE_LENGTH,
        result == Err::<Code, Error>(Error::TooShort) <==> exists|i: int|
            0 <= i < pulses@.len() && pulses@.len() - i - 1 < 4 && is_break(#[trigger] pulses@[i])
                && forall|j: int| 0 <= j < i ==> !is_break(#[trigger] pulses@[j]),
        result matches Err(Error::InvalidPulseLength(high, low)) ==> high <= BREAK_PULSE_LENGTH
            && low <= BREAK_PULSE_LENGTH && symbol_spec(
            high,
            low,
            unit_spec(pulses@, first_break(pulses@) + 1),
        ) is None,
        result matches Ok(code) ==> code.wf() && code.length <= 32 && (code.length == 32
            || code.value >> (code.length as u32) == 0),
        result matches Ok(code) ==> decoded_bits(pulses@).len() <= 32 ==> code.length
            == decoded_bits(pulses@).len() && code.value == bits_value(decoded_bits(pulses@)),
{
    let n: usize = pulses.len();
    // Look for a long pulse to find the start.
    let mut i: usize = 0;
    while i < n && pulses[i] <= BREAK_PULSE_LENGTH
        invariant
            i <= n,
            n == pulses@.len(),
            forall|j: int| 0 <= j < i ==> !is_break(#[trigger] pulses@[j]),
        decreases n - i,
    {
        i += 1;
    }
    proof {
        lemma_first_break_from_is(pulses@, 0, i as int);
        lemma_decode_spec(pulses@);
    }
    if i >= n {
        return Err(Error::NoStart);
    }
    let start: usize = i + 1;
    if n - start < 4 {
        return Err(Error::TooShort);
    }
    // Use the first 4 pulses to calculate the short pulse duration.
    let unit: u16 = estimate_unit(pulses, start);

    let mut value: u32 = 0;
    let mut length: u8 = 0;
    let mut k: usize = start;
    let ghost mut bits: Seq<bool> = Seq::empty();
    while n - k >= 2
        invariant
            n == pulses@.len(),
            start <= k <= n,
            start == first_break(pulses@) + 1,
            n - start >= 4,
            unit == unit_spec(pulses@, start as int),
            k == start + 2 * bits.len(),
            forall|j: int|
                0 <= j < bits.len() ==> symbol_spec(
                    pulses@[start + 2 * j],
                    pulses@[start + 2 * j + 1],
                    unit,
                ) == Some(#[trigger] bits[j]),
            (Code { value, length }) == code_of(bits),
        decreases n - k,
    {
        let high: u16 = pulses[k];
        let low: u16 = pulses[k + 1];
        match symbol(high, low, unit) {
            Some(bit) => {
                proof {
                    lemma_code_of_push(bits, bit, value, length);
                    bits = bits.push(bit);
                }
                value = value << 1 | if bit {
                    1
                } else {
                    0
                };
                if length < 32 {
                    length += 1;
                }
            },
            None => {
                proof {
                    lemma_symbols_are(pulses@, start as int, unit, bits);
                    lemma_decode_spec(pulses@);
                }
                if high > BREAK_PULSE_LENGTH || low > BREAK_PULSE_LENGTH {
                    return Ok(Code { value, length });
                } else {
                    return Err(Error::InvalidPulseLength(high, low));
                }
            },
        }
        k += 2;
    }
    proof {
        lemma_symbols_are(pulses@, start as int, unit, bits);
        lemma_decode_spec(pulses@);
    }
    Ok(Code { value, length })
}

} // verus!
