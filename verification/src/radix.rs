//! Numbers written as strings of digits, in any radix from two to sixteen.

use vstd::prelude::*;
use vstd::string::StringExecFns;

verus! {

/// The character that stands for the digit `d`, in lower case: `0` to `9`
/// for the digits below ten, and `a` to `f` for ten to fifteen.
pub open spec fn digit_char(d: nat) -> char
    recommends
        d < 16,
{
    if d < 10 {
        ('0' as u32 + d) as char
    } else {
        ('a' as u32 + d - 10) as char
    }
}

/// The digits of `value` in the given radix, the most significant first,
/// with zeros in front where there would be fewer than `width` digits.
/// Zero at width zero has no digits at all.
pub open spec fn digits(value: nat, width: nat, radix: nat) -> Seq<char>
    decreases value, width,
    via digits_decreases
{
    if radix < 2 || (value == 0 && width == 0) {
        Seq::empty()
    } else {
        digits(
            value / radix,
            if width > 0 {
                (width - 1) as nat
            } else {
                0
            },
            radix,
        ).push(digit_char(value % radix))
    }
}

#[via_fn]
proof fn digits_decreases(value: nat, width: nat, radix: nat) {
    if radix >= 2 && value > 0 {
        assert(value / radix < value) by (nonlinear_arith)
            requires
                radix >= 2,
                value > 0,
        ;
    }
    if radix >= 2 && value == 0 {
        assert(value / radix == 0) by (nonlinear_arith)
            requires
                radix >= 2,
                value == 0,
        ;
    }
}

/// The digit `d` as a string of one character.
fn digit_str(d: u32) -> (s: &'static str)
    requires
        d < 16,
    ensures
        s@ == seq![digit_char(d as nat)],
{
    proof {
        reveal_strlit("0");
        reveal_strlit("1");
        reveal_strlit("2");
        reveal_strlit("3");
        reveal_strlit("4");
        reveal_strlit("5");
        reveal_strlit("6");
        reveal_strlit("7");
        reveal_strlit("8");
        reveal_strlit("9");
        reveal_strlit("a");
        reveal_strlit("b");
        reveal_strlit("c");
        reveal_strlit("d");
        reveal_strlit("e");
        reveal_strlit("f");
    }
    let s: &'static str = if d == 0 {
        "0"
    } else if d == 1 {
        "1"
    } else if d == 2 {
        "2"
    } else if d == 3 {
        "3"
    } else if d == 4 {
        "4"
    } else if d == 5 {
        "5"
    } else if d == 6 {
        "6"
    } else if d == 7 {
        "7"
    } else if d == 8 {
        "8"
    } else if d == 9 {
        "9"
    } else if d == 10 {
        "a"
    } else if d == 11 {
        "b"
    } else if d == 12 {
        "c"
    } else if d == 13 {
        "d"
    } else if d == 14 {
        "e"
    } else {
        "f"
    };
    assert(s@ =~= seq![digit_char(d as nat)]);
    s
}

/// Appends the digits of `value` to `out`, at least `width` of them, the
/// most significant first.
pub(crate) fn push_digits(out: &mut String, value: u32, width: usize, radix: u32)
    requires
        2 <= radix <= 16,
    ensures
        final(out)@ == old(out)@ + digits(value as nat, width as nat, radix as nat),
    decreases value, width,
{
    if value == 0 && width == 0 {
        assert(old(out)@ + digits(value as nat, width as nat, radix as nat) =~= old(out)@);
        return;
    }
    let rest_width: usize = if width > 0 {
        width - 1
    } else {
        0
    };
    let rest: u32 = value / radix;
    let last: u32 = value % radix;
    proof {
        if value > 0 {
            assert(value / radix < value) by (nonlinear_arith)
                requires
                    radix >= 2,
                    value > 0,
            ;
        }
    }
    push_digits(out, rest, rest_width, radix);
    out.append(digit_str(last));
    proof {
        let front = digits(rest as nat, rest_width as nat, radix as nat);
        assert((old(out)@ + front) + seq![digit_char(last as nat)] =~= old(out)@ + front.push(
            digit_char(last as nat),
        ));
    }
}

} // verus!
