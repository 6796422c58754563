//! The pulses of a packet as a remote sends it, and the proof that the
//! decoder reads from them the bits that were sent.

use crate::code::Code;
use crate::decoder::{
    bits_value, code_of, decode_spec, lemma_code_of, lemma_first_break_from_is, lemma_symbols_are,
    Error,
};
use crate::pulse::{is_break, lemma_symbol_bands, symbol_spec, unit_spec};
use vstd::prelude::*;

verus! {

/// The pulses that carry `bits` at a short unit of `unit` microseconds: for
/// a one a mark of three units and a space of one, for a zero a mark of one
/// unit and a space of three.
pub open spec fn packet(bits: Seq<bool>, unit: u16) -> Seq<u16> {
    Seq::new(
        2 * bits.len(),
        |i: int|
            if bits[i / 2] == (i % 2 == 0) {
                (3 * unit) as u16
            } else {
                unit
            },
    )
}

/// A packet of two to 32 bits, sent after a break and followed by a break of
/// at least four units, decodes to the code that holds its bits, whatever
/// came before the first break, as long as that held no break, and whatever
/// comes after the second.
pub proof fn law_packet_decodes(
    lead: Seq<u16>,
    gap: u16,
    bits: Seq<bool>,
    unit: u16,
    end: u16,
    rest: Seq<u16>,
)
    requires
        forall|i: int| 0 <= i < lead.len() ==> !is_break(#[trigger] lead[i]),
        is_break(gap),
        unit >= 1,
        3 * unit <= u16::MAX,
        2 <= bits.len() <= 32,
        is_break(end),
        end >= 4 * unit,
    ensures
        decode_spec(lead + seq![gap] + packet(bits, unit) + seq![end] + rest) == Ok::<Code, Error>(
            code_of(bits),
        ),
        code_of(bits).wf(),
        code_of(bits).length == bits.len(),
        code_of(bits).value == bits_value(bits),
{
    lemma_code_of(bits);
    let sent = packet(bits, unit);
    let whole = lead + seq![gap] + sent + seq![end] + rest;
    let start: int = lead.len() as int + 1;
    assert forall|j: int| 0 <= j < lead.len() implies !is_break(#[trigger] whole[j]) by {
        assert(whole[j] == lead[j]);
    }
    assert(whole[lead.len() as int] == gap);
    lemma_first_break_from_is(whole, 0, lead.len() as int);
    assert forall|i: int| 0 <= i < sent.len() implies #[trigger] whole[start + i] == sent[i] by {}
    assert forall|j: int| 0 <= j < bits.len() implies symbol_spec(
        whole[start + 2 * j],
        whole[start + 2 * j + 1],
        unit,
    ) == Some(#[trigger] bits[j]) by {
        assert(whole[start + 2 * j] == sent[2 * j]);
        assert(whole[start + 2 * j + 1] == sent[2 * j + 1]);
        lemma_symbol_bands(sent[2 * j], sent[2 * j + 1], unit);
    }
    // The first two symbols last eight units between them.
    assert(whole[start + 0] == sent[0]);
    assert(whole[start + 1] == sent[1]);
    assert(whole[start + 2] == sent[2]);
    assert(whole[start + 3] == sent[3]);
    assert(unit_spec(whole, start) == unit);
    // The second break is too long for either half of a symbol.
    let last: int = start + 2 * bits.len();
    assert(whole[last] == end);
    if last + 1 < whole.len() {
        lemma_symbol_bands(whole[last], whole[last + 1], unit);
    }
    lemma_symbols_are(whole, start, unit, bits);
}

} // verus!
