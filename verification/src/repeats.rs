//! Decoding a transmission that is sent more than once.
//!
//! A remote repeats its packet for as long as the button is held, with a
//! break between two copies. The decoder reads the first copy and stops at
//! the break that follows it, so the copies after it change nothing.

use crate::decoder::{
    decode_spec, first_break, lemma_first_break_from, lemma_first_break_from_is, lemma_symbols,
    lemma_symbols_are, symbols,
};
use crate::pulse::{is_break, round_div_spec, symbol_spec, unit_spec};
use vstd::prelude::*;

verus! {

/// Whether a gap that follows `pulses`, and the interval `next` after it,
/// would be read as part of a symbol that continues the packet of `pulses`.
///
/// That can happen only where the symbols of `pulses` run up to its end. The
/// gap is then either the space of a last mark that has no partner yet, or a
/// mark whose space is `next`.
pub open spec fn gap_read_as_symbol(pulses: Seq<u16>, gap: u16, next: u16) -> bool {
    let start = first_break(pulses) + 1;
    let unit = unit_spec(pulses, start);
    let end = start + 2 * symbols(pulses, start, unit).len();
    ||| end + 1 == pulses.len() && symbol_spec(pulses[end], gap, unit) is Some
    ||| end == pulses.len() && symbol_spec(gap, next, unit) is Some
}

/// If a pulse stream decodes to a code, then so does the stream followed by
/// a break and anything else, and to the same code, unless the break is read
/// as part of a symbol.
pub proof fn lemma_decode_before_gap(pulses: Seq<u16>, gap: u16, next: u16, rest: Seq<u16>)
    requires
        decode_spec(pulses) is Ok,
        is_break(gap),
        !gap_read_as_symbol(pulses, gap, next),
    ensures
        decode_spec(pulses + seq![gap, next] + rest) == decode_spec(pulses),
{
    let whole = pulses + seq![gap, next] + rest;
    let before = first_break(pulses);
    let start = before + 1;
    lemma_first_break_from(pulses, 0);
    assert forall|j: int| 0 <= j < pulses.len() implies #[trigger] whole[j] == pulses[j] by {}
    let n = pulses.len() as int;
    assert(whole[n] == gap);
    assert(whole[n + 1] == next);
    assert forall|j: int| 0 <= j < before implies !is_break(#[trigger] whole[j]) by {
        assert(!is_break(pulses[j]));
    }
    lemma_first_break_from_is(whole, 0, before);
    let unit = unit_spec(pulses, start);
    assert(unit_spec(whole, start) == unit);
    let bits = symbols(pulses, start, unit);
    lemma_symbols(pulses, start, unit);
    lemma_symbols_are(whole, start, unit, bits);
}

/// Repeat idempotence: if a pulse stream decodes to a code, then the stream
/// followed by a break and a second copy of itself decodes to the same code,
/// unless the break is read as part of a symbol.
pub proof fn law_repeat_idempotence(pulses: Seq<u16>, gap: u16)
    requires
        decode_spec(pulses) is Ok,
        is_break(gap),
        !gap_read_as_symbol(pulses, gap, pulses[0]),
    ensures
        decode_spec(pulses + seq![gap] + pulses) == decode_spec(pulses),
{
    lemma_first_break_from(pulses, 0);
    assert(pulses + seq![gap] + pulses =~= pulses + seq![gap, pulses[0]] + pulses.drop_first());
    lemma_decode_before_gap(pulses, gap, pulses[0], pulses.drop_first());
}

/// A break is not read as part of a symbol where it lasts neither about one
/// unit nor about three. A break of at least three and a half units, as
/// remotes send it, is such a one.
pub proof fn lemma_long_gap_is_no_symbol(pulses: Seq<u16>, gap: u16, next: u16)
    requires
        ({
            let unit = unit_spec(pulses, first_break(pulses) + 1);
            unit > 0 ==> round_div_spec(gap as int, unit as int) != 1 && round_div_spec(
                gap as int,
                unit as int,
            ) != 3
        }),
    ensures
        !gap_read_as_symbol(pulses, gap, next),
{
}

} // verus!
