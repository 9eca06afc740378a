//! Numbers and colours as text.

use vstd::prelude::*;
use vstd::string::StringExecFns;

verus! {

/// The character of a decimal digit.
pub open spec fn digit(d: int) -> char {
    if d == 0 {
        '0'
    } else if d == 1 {
        '1'
    } else if d == 2 {
        '2'
    } else if d == 3 {
        '3'
    } else if d == 4 {
        '4'
    } else if d == 5 {
        '5'
    } else if d == 6 {
        '6'
    } else if d == 7 {
        '7'
    } else if d == 8 {
        '8'
    } else {
        '9'
    }
}

/// A number in decimal notation, without leading zeros.
pub open spec fn digits(n: nat) -> Seq<char>
    decreases n,
{
    if n < 10 {
        seq![digit(n as int)]
    } else {
        digits(n / 10).push(digit((n % 10) as int))
    }
}

/// The text of one decimal digit.
pub fn digit_str(d: usize) -> (s: &'static str)
    requires
        d < 10,
    ensures
        s@ == seq![digit(d as int)],
{
    proof {
        reveal_strlit("0");
        reveal_strlit("1");
        reveal_strlit("2");
        reveal_strlit("3");
        reveal_strlit("4");
        reveal_strlit("5");
        reveal_strlit("6");
        reveal_strlit("7");
        reveal_strlit("8");
        reveal_strlit("9");
    }
    let s = if d == 0 {
        "0"
    } else if d == 1 {
        "1"
    } else if d == 2 {
        "2"
    } else if d == 3 {
        "3"
    } else if d == 4 {
        "4"
    } else if d == 5 {
        "5"
    } else if d == 6 {
        "6"
    } else if d == 7 {
        "7"
    } else if d == 8 {
        "8"
    } else {
        "9"
    };
    assert(s@ =~= seq![digit(d as int)]);
    s
}

/// A number in decimal notation.
pub fn decimal(n: usize) -> (s: String)
    ensures
        s@ == digits(n as nat),
    decreases n,
{
    if n < 10 {
        String::from_str(digit_str(n))
    } else {
        let mut s = decimal(n / 10);
        s.append(digit_str(n % 10));
        assert(s@ =~= digits(n as nat));
        s
    }
}

/// `span` scaled by how near `distance` is to 0 on the way from `max`,
/// rounded to the nearest whole number: `span` at distance 0, 0 at distance
/// `max`. Where `max` is 0 the answer is `span`.
pub open spec fn shade(distance: nat, max: nat, span: nat) -> nat {
    if max == 0 {
        span
    } else {
        ((2 * span * (max - distance) + max) / (2 * max as int)) as nat
    }
}

/// `span` scaled by how near `distance` is to 0 on the way from `max`.
pub fn shade_of(distance: usize, max: usize, span: usize) -> (s: usize)
    requires
        distance <= max,
        span <= 255,
    ensures
        s == shade(distance as nat, max as nat, span as nat),
        s <= span,
{
    if max == 0 {
        return span;
    }
    let left: u128 = (max - distance) as u128;
    let whole: u128 = max as u128;
    let wide: u128 = span as u128;
    assert(2 * wide * left + whole <= 511 * whole) by (nonlinear_arith)
        requires
            left <= whole,
            wide <= 255,
    ;
    assert(2 * wide * left + whole < (2 * whole) * (wide + 1)) by (nonlinear_arith)
        requires
            left <= whole,
            0 < whole,
            0 <= wide,
            0 <= left,
    ;
    let top: u128 = 2 * wide * left + whole;
    let below: u128 = 2 * whole;
    let scaled: u128 = top / below;
    assert(top / below <= wide) by (nonlinear_arith)
        requires
            top < below * (wide + 1),
            below > 0,
            top >= 0,
            wide >= 0,
    ;
    scaled as usize
}

/// The colour with the given parts, as a style sheet writes it.
pub open spec fn color_text(red: nat, green: nat, blue: nat) -> Seq<char> {
    "rgb("@ + digits(red) + ","@ + digits(green) + ","@ + digits(blue) + ")"@
}

/// The colour with the given parts, as a style sheet writes it.
pub fn color(red: usize, green: usize, blue: usize) -> (s: String)
    ensures
        s@ == color_text(red as nat, green as nat, blue as nat),
{
    let mut s = String::from_str("rgb(");
    s.append(decimal(red).as_str());
    s.append(",");
    s.append(decimal(green).as_str());
    s.append(",");
    s.append(decimal(blue).as_str());
    s.append(")");
    s
}

} // verus!
