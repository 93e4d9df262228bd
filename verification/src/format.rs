//! Display of decimals with a chosen number of decimal places, and of
//! amounts and rates with two.

use crate::decimal::{magnitude, num_int, num_mul, pow10, ten_to, Decimal};
use vstd::prelude::*;
use vstd::string::*;

verus! {

/// Decimal places that a decimal holds.
pub const MAX_PLACES: u32 = 18;

/// The character of a decimal digit.
pub open spec fn digit_char(d: int) -> char {
    if d == 0 {
        '0'
    } else if d == 1 {
        '1'
    } else if d == 2 {
        '2'
    } else if d == 3 {
        '3'
    } else if d == 4 {
        '4'
    } else if d == 5 {
        '5'
    } else if d == 6 {
        '6'
    } else if d == 7 {
        '7'
    } else if d == 8 {
        '8'
    } else {
        '9'
    }
}

/// The decimal digits of `n`, most significant first, with no leading zero
/// but for zero itself.
pub open spec fn decimal_digits(n: nat) -> Seq<char>
    decreases n,
{
    if n < 10 {
        seq![digit_char(n as int)]
    } else {
        decimal_digits(n / 10).push(digit_char((n % 10) as int))
    }
}

/// The last `width` decimal digits of `n`, most significant first, leading
/// zeros included.
pub open spec fn padded_digits(n: nat, width: nat) -> Seq<char>
    decreases width,
{
    if width == 0 {
        Seq::<char>::empty()
    } else {
        padded_digits(n / 10, (width - 1) as nat).push(digit_char((n % 10) as int))
    }
}

/// How many times `unit` goes into `size`, rounded to the nearest count, a
/// tie to the even one.
pub open spec fn rounded_count(size: int, unit: int) -> int {
    let whole = size / unit;
    let rest = size % unit;
    if 2 * rest > unit || (2 * rest == unit && whole % 2 == 1) {
        whole + 1
    } else {
        whole
    }
}

/// A decimal with `places <= 18` decimal places: an optional minus sign, the
/// whole part and, if `places` is not zero, a point and `places` digits. The
/// value is rounded to the nearest, a tie to the even neighbour; a negative
/// value keeps its sign when it rounds to zero. Not-a-number reads `NaN`.
pub open spec fn decimal_text(a: Option<int>, places: nat) -> Seq<char> {
    match a {
        Some(raw) => {
            let count = rounded_count(magnitude(raw), pow10((18 - places) as nat));
            let sign = if raw < 0 {
                seq!['-']
            } else {
                Seq::<char>::empty()
            };
            let whole = decimal_digits((count / pow10(places)) as nat);
            let fraction = if places == 0 {
                Seq::<char>::empty()
            } else {
                seq!['.'] + padded_digits((count % pow10(places)) as nat, places)
            };
            sign + whole + fraction
        },
        None => seq!['N', 'a', 'N'],
    }
}

/// An amount as currency: a dollar sign, then the amount with two places.
pub open spec fn currency_text(amount: Option<int>) -> Seq<char> {
    seq!['$'] + decimal_text(amount, 2)
}

/// A rate as a percentage: a hundred times the rate with two places, then a
/// per cent sign.
pub open spec fn percentage_text(rate: Option<int>) -> Seq<char> {
    decimal_text(num_mul(rate, num_int(100)), 2) + seq!['%']
}

/// The one-character text of a digit.
fn digit_text(d: u8) -> (r: &'static str)
    requires
        d < 10,
    ensures
        r@ == seq![digit_char(d as int)],
{
    proof {
        reveal_strlit("0");
        reveal_strlit("1");
        reveal_strlit("2");
        reveal_strlit("3");
        reveal_strlit("4");
        reveal_strlit("5");
        reveal_strlit("6");
        reveal_strlit("7");
        reveal_strlit("8");
        reveal_strlit("9");
    }
    let r = match d {
        0 => "0",
        1 => "1",
        2 => "2",
        3 => "3",
        4 => "4",
        5 => "5",
        6 => "6",
        7 => "7",
        8 => "8",
        _ => "9",
    };
    assert(r@ =~= seq![digit_char(d as int)]);
    r
}

/// Appends the decimal digits of `n`.
fn push_digits(text: &mut String, n: i128)
    requires
        n >= 0,
    ensures
        final(text)@ == old(text)@ + decimal_digits(n as nat),
    decreases n,
{
    if n >= 10 {
        push_digits(text, n / 10);
    }
    text.append(digit_text((n % 10) as u8));
    assert(text@ =~= old(text)@ + decimal_digits(n as nat));
}

/// Appends the last `width` decimal digits of `n`.
fn push_padded_digits(text: &mut String, n: i128, width: u32)
    requires
        n >= 0,
    ensures
        final(text)@ == old(text)@ + padded_digits(n as nat, width as nat),
    decreases width,
{
    if width > 0 {
        push_padded_digits(text, n / 10, width - 1);
        text.append(digit_text((n % 10) as u8));
    }
    assert(text@ =~= old(text)@ + padded_digits(n as nat, width as nat));
}

/// Appends `value` with `places` decimal places.
fn push_decimal(text: &mut String, value: Decimal, places: u32)
    requires
        places <= MAX_PLACES,
    ensures
        final(text)@ == old(text)@ + decimal_text(value@, places as nat),
{
    match value.raw() {
        Some(raw) => {
            let size: i128 = if raw < 0 {
                -raw
            } else {
                raw
            };
            let unit: i128 = ten_to(MAX_PLACES - places);
            let base: i128 = ten_to(places);
            let whole: i128 = size / unit;
            let rest: i128 = size % unit;
            let count: i128 = if 2 * rest > unit || (2 * rest == unit && whole % 2 == 1) {
                whole + 1
            } else {
                whole
            };
            if raw < 0 {
                proof {
                    reveal_strlit("-");
                }
                text.append("-");
            }
            push_digits(text, count / base);
            if places > 0 {
                proof {
                    reveal_strlit(".");
                }
                text.append(".");
                push_padded_digits(text, count % base, places);
            }
            assert(text@ =~= old(text)@ + decimal_text(value@, places as nat));
        },
        None => {
            proof {
                reveal_strlit("NaN");
            }
            text.append("NaN");
            assert(text@ =~= old(text)@ + decimal_text(value@, places as nat));
        },
    }
}

/// Formats a decimal with `places` decimal places, rounded to the nearest;
/// more than eighteen places are not held and read as eighteen.
pub fn format_decimal(value: Decimal, places: u32) -> (text: String)
    ensures
        text@ == decimal_text(
            value@,
            if places <= MAX_PLACES {
                places as nat
            } else {
                MAX_PLACES as nat
            },
        ),
{
    let mut text = String::new();
    let shown: u32 = if places <= MAX_PLACES {
        places
    } else {
        MAX_PLACES
    };
    push_decimal(&mut text, value, shown);
    assert(text@ =~= decimal_text(value@, shown as nat));
    text
}

/// Formats an amount for display: `$` and the amount rounded to two places.
pub fn format_currency(amount: Decimal) -> (text: String)
    ensures
        text@ == currency_text(amount@),
{
    proof {
        reveal_strlit("$");
    }
    let mut text = String::from_str("$");
    push_decimal(&mut text, amount, 2);
    assert(text@ =~= currency_text(amount@));
    text
}

/// Formats a rate for display: the rate times a hundred, rounded to two
/// places, and `%`.
pub fn format_percentage(rate: Decimal) -> (text: String)
    ensures
        text@ == percentage_text(rate@),
{
    let mut text = String::new();
    push_decimal(&mut text, rate.mul(Decimal::from_u32(100)), 2);
    proof {
        reveal_strlit("%");
    }
    text.append("%");
    assert(text@ =~= percentage_text(rate@));
    text
}

} // verus!
