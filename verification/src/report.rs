//! The report of a pixel that missed the buffer, and its text.

use vstd::prelude::*;

verus! {

/// A pixel that fell outside the buffer. The coordinate is kept as it was
/// computed, so it may be negative or larger than any buffer.
#[derive(Debug, Clone, Copy, PartialEq, Eq, Structural)]
pub struct PixelOutOfBounds {
    pub x: i128,
    pub y: i128,
}

/// The character of the digit `d`.
pub open spec fn digit_char(d: int) -> char {
    if d == 0 {
        '0'
    } else if d == 1 {
        '1'
    } else if d == 2 {
        '2'
    } else if d == 3 {
        '3'
    } else if d == 4 {
        '4'
    } else if d == 5 {
        '5'
    } else if d == 6 {
        '6'
    } else if d == 7 {
        '7'
    } else if d == 8 {
        '8'
    } else {
        '9'
    }
}

/// The decimal digits of `n`, the highest first, without leading zeros.
pub open spec fn decimal(n: nat) -> Seq<char>
    decreases n,
{
    if n < 10 {
        seq![digit_char(n as int)]
    } else {
        decimal(n / 10).push(digit_char((n % 10) as int))
    }
}

/// The decimal digits of `v`, after a minus sign when it is negative.
pub open spec fn signed_decimal(v: int) -> Seq<char> {
    if v < 0 {
        seq!['-'] + decimal((-v) as nat)
    } else {
        decimal(v as nat)
    }
}

/// The digit `d` as text.
fn digit_text(d: u128) -> (text: &'static str)
    requires
        d < 10,
    ensures
        text@ == seq![digit_char(d as int)],
{
    proof {
        reveal_strlit("0");
        reveal_strlit("1");
        reveal_strlit("2");
        reveal_strlit("3");
        reveal_strlit("4");
        reveal_strlit("5");
        reveal_strlit("6");
        reveal_strlit("7");
        reveal_strlit("8");
        reveal_strlit("9");
    }
    let text = if d == 0 {
        "0"
    } else if d == 1 {
        "1"
    } else if d == 2 {
        "2"
    } else if d == 3 {
        "3"
    } else if d == 4 {
        "4"
    } else if d == 5 {
        "5"
    } else if d == 6 {
        "6"
    } else if d == 7 {
        "7"
    } else if d == 8 {
        "8"
    } else {
        "9"
    };
    assert(text@ =~= seq![digit_char(d as int)]);
    text
}

/// Appends the decimal digits of `n` to `text`.
fn push_decimal(text: &mut String, n: u128)
    ensures
        final(text)@ == old(text)@ + decimal(n as nat),
    decreases n,
{
    if n >= 10 {
        push_decimal(text, n / 10);
    }
    text.append(digit_text(n % 10));
    assert(text@ =~= old(text)@ + decimal(n as nat));
}

/// Appends the decimal digits of `v` to `text`, after a minus sign when it
/// is negative.
fn push_signed(text: &mut String, v: i128)
    ensures
        final(text)@ == old(text)@ + signed_decimal(v as int),
{
    if v < 0 {
        proof {
            reveal_strlit("-");
        }
        text.append("-");
        let magnitude: u128 = (-(v + 1)) as u128 + 1;
        push_decimal(text, magnitude);
        assert(text@ =~= old(text)@ + signed_decimal(v as int));
    } else {
        push_decimal(text, v as u128);
    }
}

impl PixelOutOfBounds {
    /// The text of the report: the two coordinates in decimal.
    pub open spec fn message_text(&self) -> Seq<char> {
        "x: "@ + signed_decimal(self.x as int) + " y: "@ + signed_decimal(self.y as int)
    }

    /// The report as text.
    pub fn message(&self) -> (text: String)
        ensures
            text@ == self.message_text(),
    {
        let mut text = String::from_str("x: ");
        push_signed(&mut text, self.x);
        text.append(" y: ");
        push_signed(&mut text, self.y);
        text
    }
}

} // verus!
