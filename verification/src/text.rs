//! Numbers and amounts as text.

use crate::amount::{pow10, Funds};
use vstd::prelude::*;
use vstd::string::*;

verus! {

/// The character of one decimal digit.
pub open spec fn digit_char(d: int) -> char {
    if d == 0 {
        '0'
    } else if d == 1 {
        '1'
    } else if d == 2 {
        '2'
    } else if d == 3 {
        '3'
    } else if d == 4 {
        '4'
    } else if d == 5 {
        '5'
    } else if d == 6 {
        '6'
    } else if d == 7 {
        '7'
    } else if d == 8 {
        '8'
    } else {
        '9'
    }
}

/// A natural number in decimal digits, without leading zeros.
pub open spec fn decimal_text(n: nat) -> Seq<char>
    decreases n,
{
    if n < 10 {
        seq![digit_char(n as int)]
    } else {
        decimal_text(n / 10).push(digit_char((n % 10) as int))
    }
}

/// The first `width` fractional digits of `part / 10^width`, up to the
/// last one that is not zero.
pub open spec fn fraction_text(part: nat, width: nat) -> Seq<char>
    decreases width,
{
    if part == 0 || width == 0 {
        Seq::empty()
    } else {
        seq![digit_char((part / pow10((width - 1) as nat)) as int)] + fraction_text(
            part % pow10((width - 1) as nat),
            (width - 1) as nat,
        )
    }
}

/// A number of ten-thousandths as a decimal number: the whole part, and
/// after a point the fractional digits that are needed, if any is.
pub open spec fn magnitude_text(units: nat) -> Seq<char> {
    if units % 10000 == 0 {
        decimal_text(units / 10000)
    } else {
        decimal_text(units / 10000) + seq!['.'] + fraction_text(units % 10000, 4)
    }
}

/// An amount as a decimal number, with a minus sign if it is below zero.
pub open spec fn funds_text(units: int) -> Seq<char> {
    if units < 0 {
        seq!['-'] + magnitude_text((-units) as nat)
    } else {
        magnitude_text(units as nat)
    }
}

/// One digit as text.
fn digit_str(d: u8) -> (s: &'static str)
    requires
        d < 10,
    ensures
        s@ == seq![digit_char(d as int)],
{
    let s = match d {
        0 => "0",
        1 => "1",
        2 => "2",
        3 => "3",
        4 => "4",
        5 => "5",
        6 => "6",
        7 => "7",
        8 => "8",
        _ => "9",
    };
    proof {
        reveal_strlit("0");
        reveal_strlit("1");
        reveal_strlit("2");
        reveal_strlit("3");
        reveal_strlit("4");
        reveal_strlit("5");
        reveal_strlit("6");
        reveal_strlit("7");
        reveal_strlit("8");
        reveal_strlit("9");
        assert(s@ =~= seq![digit_char(d as int)]);
    }
    s
}

/// Writes a natural number in decimal digits at the end of `out`.
pub fn push_decimal(out: &mut String, n: u128)
    ensures
        final(out)@ == old(out)@ + decimal_text(n as nat),
    decreases n,
{
    if n >= 10 {
        push_decimal(out, n / 10);
    }
    out.append(digit_str((n % 10) as u8));
    proof {
        assert(out@ =~= old(out)@ + decimal_text(n as nat));
    }
}

/// Writes the fractional digits of `part / 10000` at the end of `out`, up
/// to the last one that is not zero.
fn push_fraction(out: &mut String, part: u16)
    requires
        part < 10000,
    ensures
        final(out)@ == old(out)@ + fraction_text(part as nat, 4),
{
    let mut rest: u16 = part;
    let mut unit: u16 = 1000;
    let mut width: u8 = 4;
    proof {
        lemma_pow10_small();
    }
    while rest != 0 && width != 0
        invariant
            width <= 4,
            unit == pow10((width - 1) as nat) || width == 0,
            rest < pow10(width as nat),
            old(out)@ + fraction_text(part as nat, 4) == out@ + fraction_text(
                rest as nat,
                width as nat,
            ),
        decreases width,
    {
        proof {
            lemma_pow10_small();
            assert(rest / unit < 10) by (nonlinear_arith)
                requires
                    rest < 10 * unit,
                    unit > 0,
            ;
            assert(rest % unit < unit) by (nonlinear_arith)
                requires
                    unit > 0,
            ;
        }
        let ghost before = out@;
        out.append(digit_str((rest / unit) as u8));
        proof {
            assert(before + fraction_text(rest as nat, width as nat) =~= out@ + fraction_text(
                (rest % unit) as nat,
                (width - 1) as nat,
            ));
        }
        rest = rest % unit;
        unit = unit / 10;
        width = width - 1;
    }
    proof {
        assert(out@ + fraction_text(rest as nat, width as nat) =~= out@);
    }
}

/// Writes an amount as a decimal number at the end of `out`.
pub fn push_funds(out: &mut String, amount: Funds)
    ensures
        final(out)@ == old(out)@ + funds_text(amount@),
{
    let units: u128 = if amount.0 < 0 {
        out.append("-");
        if amount.0 == i128::MIN {
            0x8000_0000_0000_0000_0000_0000_0000_0000u128
        } else {
            (-amount.0) as u128
        }
    } else {
        amount.0 as u128
    };
    let ghost signed = out@;
    push_decimal(out, units / 10000);
    let part: u16 = (units % 10000) as u16;
    if part != 0 {
        out.append(".");
        push_fraction(out, part);
    }
    proof {
        reveal_strlit("-");
        reveal_strlit(".");
        assert("-"@ =~= seq!['-']);
        assert("."@ =~= seq!['.']);
        assert(out@ =~= signed + magnitude_text(units as nat));
        assert(out@ =~= old(out)@ + funds_text(amount@));
    }
}

/// The powers of ten below ten thousand.
proof fn lemma_pow10_small()
    ensures
        pow10(0) == 1,
        pow10(1) == 10,
        pow10(2) == 100,
        pow10(3) == 1000,
        pow10(4) == 10000,
{
    assert(pow10(1) == 10 * pow10(0));
    assert(pow10(2) == 10 * pow10(1));
    assert(pow10(3) == 10 * pow10(2));
    assert(pow10(4) == 10 * pow10(3));
}

} // verus!
