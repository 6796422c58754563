//! A code written as lowercase hexadecimal text, and read back from it.
//!
//! A code of `length` bits is written with one digit for every four bits, so
//! only a length that is a multiple of four can be written. Text of one to
//! eight hexadecimal digits is read as a code of four bits for each digit.

use crate::code::Code;
use crate::radix::{digit_char, digits, push_digits};
use vstd::arithmetic::power2::{
    lemma2_to64, lemma_pow2_adds, lemma_pow2_strictly_increases, pow2,
};
use vstd::prelude::*;
use vstd::string::StrSliceExecFns;

verus! {

/// An error writing a code as hexadecimal text or reading one from it.
#[derive(Copy, Clone, Debug, Eq, PartialEq, Structural)]
pub enum HexError {
    /// The length of the code to write is not a multiple of 4.
    InvalidLength,
    /// The text to read holds more than 8 characters.
    TooLong,
    /// The text to read is empty.
    Empty,
    /// The text to read holds a character that is no hexadecimal digit.
    InvalidDigit,
}

impl HexError {
    /// The message that goes with the error.
    pub open spec fn message_spec(self) -> Seq<char> {
        match self {
            HexError::InvalidLength => "length must be a multiple of 4"@,
            HexError::TooLong => "no more than 8 characters"@,
            HexError::Empty => "cannot parse integer from empty string"@,
            HexError::InvalidDigit => "invalid digit found in string"@,
        }
    }

    /// The message that goes with the error.
    pub fn message(&self) -> (text: &'static str)
        ensures
            text@ == self.message_spec(),
    {
        match self {
            HexError::InvalidLength => "length must be a multiple of 4",
            HexError::TooLong => "no more than 8 characters",
            HexError::Empty => "cannot parse integer from empty string",
            HexError::InvalidDigit => "invalid digit found in string",
        }
    }
}

/// The number that a hexadecimal digit stands for, in either case, or `None`
/// for any other character.
pub open spec fn hex_digit_value(c: char) -> Option<nat> {
    if '0' <= c <= '9' {
        Some((c as u32 - '0' as u32) as nat)
    } else if 'a' <= c <= 'f' {
        Some((c as u32 - 'a' as u32 + 10) as nat)
    } else if 'A' <= c <= 'F' {
        Some((c as u32 - 'A' as u32 + 10) as nat)
    } else {
        None
    }
}

/// Whether `c` is a decimal digit or a lowercase letter from `a` to `f`.
pub open spec fn is_lower_hex_digit(c: char) -> bool {
    '0' <= c <= '9' || 'a' <= c <= 'f'
}

/// Whether every character of `text` is a hexadecimal digit.
pub open spec fn is_hex(text: Seq<char>) -> bool {
    forall|i: int| 0 <= i < text.len() ==> hex_digit_value(#[trigger] text[i]) is Some
}

/// Whether every character of `text` is a decimal digit or a lowercase
/// letter from `a` to `f`: the form in which a code is written.
pub open spec fn is_lower_hex(text: Seq<char>) -> bool {
    forall|i: int| 0 <= i < text.len() ==> is_lower_hex_digit(#[trigger] text[i])
}

/// The number that a string of hexadecimal digits denotes, the first digit
/// being the most significant. A character that is no digit counts as zero.
pub open spec fn hex_value(text: Seq<char>) -> nat
    decreases text.len(),
{
    if text.len() == 0 {
        0
    } else {
        16 * hex_value(text.drop_last()) + match hex_digit_value(text.last()) {
            Some(d) => d,
            None => 0,
        }
    }
}

/// The text with each hexadecimal digit in lower case.
pub open spec fn lower_hex(text: Seq<char>) -> Seq<char> {
    Seq::new(
        text.len(),
        |i: int|
            match hex_digit_value(text[i]) {
                Some(d) => digit_char(d),
                None => text[i],
            },
    )
}

/// What a code is written as: one lowercase hexadecimal digit for every
/// four bits of its length, with zeros in front. A code whose value needs
/// more digits than its length allows is written with all the digits of its
/// value.
pub open spec fn to_hex_spec(code: Code) -> Result<Seq<char>, HexError> {
    if code.length % 4 != 0 {
        Err(HexError::InvalidLength)
    } else {
        Ok(digits(code.value as nat, (code.length / 4) as nat, 16))
    }
}

/// What a text is read as: one to eight hexadecimal digits give the code
/// whose value they denote, four bits long for each digit.
pub open spec fn from_hex_spec(text: Seq<char>) -> Result<Code, HexError> {
    if text.len() > 8 {
        Err(HexError::TooLong)
    } else if text.len() == 0 {
        Err(HexError::Empty)
    } else if !is_hex(text) {
        Err(HexError::InvalidDigit)
    } else {
        Ok(Code { value: hex_value(text) as u32, length: (4 * text.len()) as u8 })
    }
}

/// Four more bits make sixteen times as many numbers.
proof fn lemma_pow2_nibble(n: nat)
    ensures
        pow2(n + 4) == 16 * pow2(n),
{
    lemma_pow2_adds(n, 4);
    lemma2_to64();
}

/// A string of `n` hexadecimal digits denotes a number below two to the
/// power `4 * n`.
pub proof fn lemma_hex_value_bound(text: Seq<char>)
    ensures
        hex_value(text) < pow2(4 * text.len()),
    decreases text.len(),
{
    if text.len() == 0 {
        lemma2_to64();
    } else {
        lemma_hex_value_bound(text.drop_last());
        lemma_pow2_nibble(4 * text.drop_last().len());
        assert(4 * text.drop_last().len() + 4 == 4 * text.len());
    }
}

/// The number that one hexadecimal digit stands for.
fn hex_digit(c: char) -> (d: Option<u32>)
    ensures
        d is Some == hex_digit_value(c) is Some,
        d matches Some(v) ==> hex_digit_value(c) == Some(v as nat) && v < 16,
{
    let n: u32 = c as u32;
    if '0' as u32 <= n && n <= '9' as u32 {
        Some(n - '0' as u32)
    } else if 'a' as u32 <= n && n <= 'f' as u32 {
        Some(n - 'a' as u32 + 10)
    } else if 'A' as u32 <= n && n <= 'F' as u32 {
        Some(n - 'A' as u32 + 10)
    } else {
        None
    }
}

impl Code {
    /// Writes the code as lowercase hexadecimal text.
    ///
    /// This fails exactly if the length of the code is not a multiple of
    /// four. A well-formed code gives one digit for every four bits.
    pub fn to_hex(&self) -> (result: Result<String, HexError>)
        ensures
            match result {
                Ok(text) => to_hex_spec(*self) == Ok::<Seq<char>, HexError>(text@),
                Err(error) => to_hex_spec(*self) == Err::<Seq<char>, HexError>(error),
            },
            result is Err <==> self.length % 4 != 0,
            result matches Ok(text) ==> self.wf() ==> text@.len() == self.length / 4,
    {
        if self.length % 4 != 0 {
            return Err(HexError::InvalidLength);
        }
        let mut text = String::new();
        let width: usize = (self.length / 4) as usize;
        push_digits(&mut text, self.value, width, 16);
        proof {
            assert(Seq::<char>::empty() + digits(self.value as nat, width as nat, 16) =~= digits(
                self.value as nat,
                width as nat,
                16,
            ));
            if self.wf() {
                lemma_hex_digits_len(self.value as nat, width as nat);
            }
        }
        Ok(text)
    }

    /// Reads a code from hexadecimal text, in either case.
    ///
    /// This succeeds exactly on texts of one to eight hexadecimal digits,
    /// and then gives a well-formed code.
    pub fn from_hex(text: &str) -> (result: Result<Code, HexError>)
        ensures
            result == from_hex_spec(text@),
            result is Ok <==> 1 <= text@.len() <= 8 && is_hex(text@),
            result matches Ok(code) ==> code.wf(),
    {
        let n: usize = text.unicode_len();
        if n > 8 {
            return Err(HexError::TooLong);
        }
        if n == 0 {
            return Err(HexError::Empty);
        }
        let mut value: u32 = 0;
        let mut i: usize = 0;
        proof {
            assert(text@.subrange(0, 0) =~= Seq::<char>::empty());
        }
        while i < n
            invariant
                1 <= n <= 8,
                n == text@.len(),
                i <= n,
                forall|j: int| 0 <= j < i ==> hex_digit_value(#[trigger] text@[j]) is Some,
                value == hex_value(text@.subrange(0, i as int)),
            decreases n - i,
        {
            let c: char = text.get_char(i);
            proof {
                let head = text@.subrange(0, i as int);
                let longer = text@.subrange(0, i + 1);
                assert(longer.drop_last() =~= head);
                assert(longer.last() == c);
                lemma_hex_value_bound(head);
                lemma2_to64();
                if head.len() < 7 {
                    lemma_pow2_strictly_increases(4 * head.len(), 28);
                }
            }
            match hex_digit(c) {
                Some(d) => {
                    value = value * 16 + d;
                },
                None => {
                    return Err(HexError::InvalidDigit);
                },
            }
            i += 1;
        }
        proof {
            assert(text@.subrange(0, n as int) =~= text@);
            lemma_hex_value_bound(text@);
            lemma2_to64();
            if text@.len() < 8 {
                lemma_pow2_strictly_increases(4 * text@.len(), 32);
            }
        }
        Ok(Code { value, length: (n * 4) as u8 })
    }
}

/// A number below sixteen to the power `width` has exactly `width`
/// hexadecimal digits at that width.
pub proof fn lemma_hex_digits_len(value: nat, width: nat)
    requires
        value < pow2(4 * width),
    ensures
        digits(value, width, 16).len() == width,
    decreases width,
{
    if width == 0 {
        lemma2_to64();
    } else {
        lemma_pow2_nibble((4 * (width - 1)) as nat);
        assert(4 * (width - 1) + 4 == 4 * width);
        lemma_hex_digits_len(value / 16, (width - 1) as nat);
    }
}

/// Each digit below sixteen is read back from its character.
pub proof fn lemma_digit_char_value(d: nat)
    requires
        d < 16,
    ensures
        hex_digit_value(digit_char(d)) == Some(d),
{
}

/// The hexadecimal digits of a number are lowercase hexadecimal text that
/// denotes the number.
pub proof fn lemma_hex_digits_value(value: nat, width: nat)
    ensures
        is_lower_hex(digits(value, width, 16)),
        is_hex(digits(value, width, 16)),
        hex_value(digits(value, width, 16)) == value,
    decreases value, width,
{
    if value != 0 || width != 0 {
        let rest_width = if width > 0 {
            (width - 1) as nat
        } else {
            0
        };
        let front = digits(value / 16, rest_width, 16);
        let last = digit_char(value % 16);
        lemma_hex_digits_value(value / 16, rest_width);
        lemma_digit_char_value(value % 16);
        let all = digits(value, width, 16);
        assert(all == front.push(last));
        assert(all.drop_last() =~= front);
        assert forall|i: int| 0 <= i < all.len() implies hex_digit_value(#[trigger] all[i])
            is Some && is_lower_hex_digit(all[i]) by {
            if i < front.len() {
                assert(all[i] == front[i]);
            }
        }
    }
}

/// Writing the number that hexadecimal text denotes, as wide as the text,
/// gives the text back in lower case.
pub proof fn lemma_hex_value_digits(text: Seq<char>)
    requires
        is_hex(text),
    ensures
        digits(hex_value(text), text.len(), 16) == lower_hex(text),
    decreases text.len(),
{
    if text.len() == 0 {
        assert(lower_hex(text) =~= Seq::<char>::empty());
    } else {
        let front = text.drop_last();
        let d = hex_digit_value(text.last())->0;
        assert(hex_digit_value(text[text.len() - 1]) is Some);
        assert forall|i: int| 0 <= i < front.len() implies hex_digit_value(#[trigger] front[i])
            is Some by {
            assert(front[i] == text[i]);
        }
        lemma_hex_value_digits(front);
        assert(hex_value(text) == 16 * hex_value(front) + d);
        assert(d < 16);
        assert(lower_hex(front).push(digit_char(d)) =~= lower_hex(text));
    }
}

/// Text in the form in which codes are written is its own lower case.
pub proof fn lemma_lower_hex_fixed(text: Seq<char>)
    requires
        is_lower_hex(text),
    ensures
        is_hex(text),
        lower_hex(text) == text,
{
    assert forall|i: int| 0 <= i < text.len() implies hex_digit_value(#[trigger] text[i]) is Some
        && digit_char(hex_digit_value(text[i])->0) == text[i] by {
        assert(is_lower_hex_digit(text[i]));
    }
    assert(lower_hex(text) =~= text);
}

/// Round trip of a code: a well-formed code of 4, 8, 12, 16, 20, 24, 28 or
/// 32 bits is written as text from which the same code is read.
pub proof fn law_code_round_trip(code: Code)
    requires
        code.wf(),
        code.length % 4 == 0,
        code.length >= 4,
    ensures
        to_hex_spec(code) matches Ok(text) && from_hex_spec(text) == Ok::<Code, HexError>(code),
{
    let width = (code.length / 4) as nat;
    lemma_hex_digits_len(code.value as nat, width);
    lemma_hex_digits_value(code.value as nat, width);
}

/// What is read from text is written as that text in lower case.
pub proof fn lemma_text_round_trip(text: Seq<char>)
    requires
        from_hex_spec(text) is Ok,
    ensures
        from_hex_spec(text) matches Ok(code) && to_hex_spec(code) == Ok::<Seq<char>, HexError>(
            lower_hex(text),
        ),
{
    lemma_hex_value_bound(text);
    lemma2_to64();
    if text.len() < 8 {
        lemma_pow2_strictly_increases(4 * text.len(), 32);
    }
    lemma_hex_value_digits(text);
}

/// Round trip of a text: from one to eight lowercase hexadecimal digits a
/// code is read that is written as the same text.
pub proof fn law_text_round_trip(text: Seq<char>)
    requires
        1 <= text.len() <= 8,
        is_lower_hex(text),
    ensures
        from_hex_spec(text) matches Ok(code) && to_hex_spec(code) == Ok::<Seq<char>, HexError>(
            text,
        ),
{
    lemma_lower_hex_fixed(text);
    lemma_text_round_trip(text);
}

} // verus!
