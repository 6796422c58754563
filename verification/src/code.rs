//! The value recovered from one packet.

use crate::radix::{digits, push_digits};
use vstd::arithmetic::div_mod::{lemma_basic_div, lemma_div_non_zero};
use vstd::arithmetic::power2::{lemma2_to64, lemma_pow2_pos, pow2};
use vstd::bits::lemma_u32_shr_is_div;
use vstd::prelude::*;
use vstd::string::StringExecFns;

verus! {

/// A decoded button code: a string of `length` bits, the first bit received
/// being the most significant bit of `value`.
#[derive(Copy, Clone, Debug, Eq, Hash, PartialEq, Structural)]
pub struct Code {
    /// The decoded value.
    pub value: u32,
    /// The length in bits.
    pub length: u8,
}

/// A code is well formed exactly if it holds at most 32 bits and every bit
/// of `value` above its lowest `length` bits is zero.
pub proof fn lemma_wf_upper_bits_zero(code: Code)
    ensures
        code.wf() <==> code.length <= 32 && (code.length == 32 || code.value >> (
        code.length as u32) == 0),
{
    lemma2_to64();
    if code.length < 32 {
        let weight = pow2(code.length as nat);
        lemma_pow2_pos(code.length as nat);
        lemma_u32_shr_is_div(code.value, code.length as u32);
        if code.value < weight {
            lemma_basic_div(code.value as int, weight as int);
        } else {
            lemma_div_non_zero(code.value as int, weight as int);
        }
    }
}

impl Code {
    /// A code is well formed when it holds at most 32 bits and `value` has no
    /// bit set above its lowest `length` bits.
    pub open spec fn wf(&self) -> bool {
        &&& self.length <= 32
        &&& (self.value as nat) < pow2(self.length as nat)
    }

    /// The rendering of a code for inspection: its value in hexadecimal, its
    /// value in binary with at least 24 digits, and its length in decimal.
    pub open spec fn debug_spec(&self) -> Seq<char> {
        "0x"@ + digits(self.value as nat, 1, 16) + " 0b"@ + digits(self.value as nat, 24, 2)
            + " ("@ + digits(self.length as nat, 1, 10) + " bits)"@
    }

    /// Renders the code for inspection: thirteen in four bits reads
    /// `0xd 0b000000000000000000001101 (4 bits)`.
    pub fn debug_string(&self) -> (text: String)
        ensures
            text@ == self.debug_spec(),
    {
        let mut text = String::new();
        text.append("0x");
        push_digits(&mut text, self.value, 1, 16);
        text.append(" 0b");
        push_digits(&mut text, self.value, 24, 2);
        text.append(" (");
        push_digits(&mut text, self.length as u32, 1, 10);
        text.append(" bits)");
        assert(Seq::<char>::empty() + "0x"@ =~= "0x"@);
        text
    }
}

} // verus!
