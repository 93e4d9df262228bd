//! Reading a decimal from text.
//!
//! A number is an optional sign `+` or `-`, digits, and optionally a point
//! and more digits, with at least one digit in all. Digits after the
//! eighteenth decimal place are read and dropped.

use crate::decimal::{
    checked, lemma_pow10_at_most_scale, pow10, ten_to, Decimal, LIMIT, SCALE,
};
use vstd::prelude::*;
use vstd::string::*;

verus! {

/// Whether `c` is a decimal digit.
pub open spec fn is_digit(c: char) -> bool {
    c == '0' || c == '1' || c == '2' || c == '3' || c == '4' || c == '5' || c == '6' || c == '7'
        || c == '8' || c == '9'
}

/// The value of a decimal digit.
pub open spec fn digit_value(c: char) -> int {
    if c == '1' {
        1
    } else if c == '2' {
        2
    } else if c == '3' {
        3
    } else if c == '4' {
        4
    } else if c == '5' {
        5
    } else if c == '6' {
        6
    } else if c == '7' {
        7
    } else if c == '8' {
        8
    } else if c == '9' {
        9
    } else {
        0
    }
}

/// The whole number that the digits `s[from..to]` spell.
pub open spec fn digits_value(s: Seq<char>, from: int, to: int) -> int
    decreases to - from,
{
    if to <= from {
        0
    } else {
        digits_value(s, from, to - 1) * 10 + digit_value(s[to - 1])
    }
}

/// Where the run of digits that starts at `from` ends: the index of the
/// first character from there on that is no digit, or the length of `s`.
pub open spec fn digits_end(s: Seq<char>, from: int) -> int
    decreases s.len() - from,
{
    if 0 <= from < s.len() && is_digit(s[from]) {
        digits_end(s, from + 1)
    } else {
        from
    }
}

/// The raw value of the decimal places `s[from..to]`: the first eighteen
/// digits, filled up with zeros.
pub open spec fn fraction_value(s: Seq<char>, from: int, to: int) -> int {
    if to - from >= 18 {
        digits_value(s, from, from + 18)
    } else {
        digits_value(s, from, to) * pow10((18 - (to - from)) as nat)
    }
}

/// The raw value of the unsigned number that `s` spells from `from` to its
/// end, or `None` if that is no number.
pub open spec fn unsigned_value(s: Seq<char>, from: int) -> Option<int> {
    let point = digits_end(s, from);
    if point == s.len() {
        if point > from {
            Some(digits_value(s, from, point) * SCALE)
        } else {
            None
        }
    } else if s[point] == '.' {
        let end = digits_end(s, point + 1);
        if end == s.len() && (point > from || end > point + 1) {
            Some(digits_value(s, from, point) * SCALE + fraction_value(s, point + 1, end))
        } else {
            None
        }
    } else {
        None
    }
}

/// The raw value of the number that `s` spells, or `None` if it spells none.
pub open spec fn number_value(s: Seq<char>) -> Option<int> {
    if s.len() > 0 && s[0] == '-' {
        match unsigned_value(s, 1) {
            Some(v) => Some(-v),
            None => None,
        }
    } else if s.len() > 0 && s[0] == '+' {
        unsigned_value(s, 1)
    } else {
        unsigned_value(s, 0)
    }
}

/// The value of a digit, or `None` for any other character.
fn digit_of(c: char) -> (r: Option<u8>)
    ensures
        match r {
            Some(d) => is_digit(c) && d == digit_value(c) && d < 10,
            None => !is_digit(c),
        },
{
    match c {
        '0' => Some(0),
        '1' => Some(1),
        '2' => Some(2),
        '3' => Some(3),
        '4' => Some(4),
        '5' => Some(5),
        '6' => Some(6),
        '7' => Some(7),
        '8' => Some(8),
        '9' => Some(9),
        _ => None,
    }
}

/// A run of digits ends where it ends, wherever in it one starts.
proof fn lemma_digits_end_from_inside(s: Seq<char>, from: int, at: int)
    requires
        0 <= from <= at <= s.len(),
        forall|i: int| from <= i < at ==> is_digit(#[trigger] s[i]),
    ensures
        digits_end(s, from) == digits_end(s, at),
    decreases at - from,
{
    if from < at {
        lemma_digits_end_from_inside(s, from + 1, at);
    }
}

/// What `count` digits spell is below ten to the power `count`.
proof fn lemma_digits_value_bound(s: Seq<char>, from: int, to: int)
    requires
        from <= to,
    ensures
        0 <= digits_value(s, from, to) < pow10((to - from) as nat),
    decreases to - from,
{
    if from < to {
        lemma_digits_value_bound(s, from, to - 1);
    }
}

/// Reads the unsigned number that `text` spells from `start` to its end.
fn parse_unsigned(text: &str, start: usize, len: usize) -> (r: Option<Decimal>)
    requires
        start <= len == text@.len(),
    ensures
        match r {
            Some(d) => unsigned_value(text@, start as int) matches Some(v) && d@ == checked(v),
            None => unsigned_value(text@, start as int) is None,
        },
{
    let ghost s = text@;
    let mut i: usize = start;
    let mut whole: i128 = 0;
    let mut too_large = false;
    // The whole part.
    loop
        invariant
            s == text@,
            start <= i <= len == s.len(),
            forall|k: int| start <= k < i ==> is_digit(#[trigger] s[k]),
            !too_large ==> whole == digits_value(s, start as int, i as int),
            too_large ==> digits_value(s, start as int, i as int) > SCALE,
            0 <= whole <= SCALE,
        ensures
            digits_end(s, start as int) == i,
        decreases len - i,
    {
        if i >= len {
            proof {
                lemma_digits_end_from_inside(s, start as int, i as int);
            }
            break ;
        }
        let c = text.get_char(i);
        match digit_of(c) {
            Some(d) => {
                if !too_large && whole * 10 + (d as i128) <= SCALE {
                    whole = whole * 10 + d as i128;
                } else {
                    too_large = true;
                }
                i = i + 1;
            },
            None => {
                proof {
                    lemma_digits_end_from_inside(s, start as int, i as int);
                }
                break ;
            },
        }
    }
    let point: usize = i;
    if point == len {
        if point == start {
            return None;
        }
        if too_large {
            proof {
                assert(digits_value(s, start as int, point as int) * SCALE > LIMIT)
                    by (nonlinear_arith)
                    requires
                        digits_value(s, start as int, point as int) > SCALE,
                        SCALE == 1_000_000_000_000_000_000,
                        LIMIT == 1_000_000_000_000_000_000_000_000_000_000_000_000,
                ;
            }
            return Some(Decimal::nan());
        }
        assert(0 <= whole * SCALE <= LIMIT) by (nonlinear_arith)
            requires
                0 <= whole <= SCALE,
                SCALE == 1_000_000_000_000_000_000,
                LIMIT == 1_000_000_000_000_000_000_000_000_000_000_000_000,
        ;
        return Some(Decimal::from_raw(whole * SCALE));
    }
    if text.get_char(point) != '.' {
        return None;
    }
    // The decimal places.
    i = point + 1;
    let first: usize = i;
    let mut fraction: i128 = 0;
    let mut kept: u32 = 0;
    proof {
        reveal_with_fuel(pow10, 2);
    }
    loop
        invariant
            s == text@,
            first <= i <= len == s.len(),
            first == point + 1,
            forall|k: int| first <= k < i ==> is_digit(#[trigger] s[k]),
            kept <= 18,
            kept == if i - first >= 18 {
                18int
            } else {
                i - first
            },
            fraction == digits_value(s, first as int, first + kept),
            0 <= fraction < pow10(kept as nat),
        ensures
            digits_end(s, first as int) == i,
        decreases len - i,
    {
        if i >= len {
            proof {
                lemma_digits_end_from_inside(s, first as int, i as int);
            }
            break ;
        }
        let c = text.get_char(i);
        match digit_of(c) {
            Some(d) => {
                if kept < 18 {
                    proof {
                        lemma_digits_value_bound(s, first as int, first + kept + 1);
                        lemma_pow10_at_most_scale((kept + 1) as nat);
                    }
                    fraction = fraction * 10 + d as i128;
                    kept = kept + 1;
                }
                i = i + 1;
            },
            None => {
                proof {
                    lemma_digits_end_from_inside(s, first as int, i as int);
                }
                break ;
            },
        }
    }
    if i != len || (point == start && i == first) {
        return None;
    }
    let scaled_by: i128 = ten_to(18 - kept);
    proof {
        lemma_pow10_at_most_scale(kept as nat);
        assert(0 <= fraction * scaled_by < SCALE) by (nonlinear_arith)
            requires
                0 <= fraction < pow10(kept as nat),
                scaled_by == pow10((18 - kept) as nat),
                pow10(kept as nat) * pow10((18 - kept) as nat) == SCALE,
                scaled_by >= 1,
        ;
    }
    let places: i128 = fraction * scaled_by;
    if too_large {
        proof {
            assert(digits_value(s, start as int, point as int) * SCALE + places > LIMIT)
                by (nonlinear_arith)
                requires
                    digits_value(s, start as int, point as int) > SCALE,
                    places >= 0,
                    SCALE == 1_000_000_000_000_000_000,
                    LIMIT == 1_000_000_000_000_000_000_000_000_000_000_000_000,
            ;
        }
        return Some(Decimal::nan());
    }
    assert(0 <= whole * SCALE <= LIMIT) by (nonlinear_arith)
        requires
            0 <= whole <= SCALE,
            SCALE == 1_000_000_000_000_000_000,
            LIMIT == 1_000_000_000_000_000_000_000_000_000_000_000_000,
    ;
    Some(Decimal::from_raw(whole * SCALE + places))
}

/// Reads a decimal from `text`. Returns `None` if `text` spells no number.
/// A number beyond the range of a decimal is read as not-a-number.
pub fn parse_decimal(text: &str) -> (r: Option<Decimal>)
    ensures
        match r {
            Some(d) => number_value(text@) matches Some(v) && d@ == checked(v),
            None => number_value(text@) is None,
        },
{
    let len = text.unicode_len();
    if len > 0 && text.get_char(0) == '-' {
        match parse_unsigned(text, 1, len) {
            Some(d) => Some(d.neg()),
            None => None,
        }
    } else if len > 0 && text.get_char(0) == '+' {
        parse_unsigned(text, 1, len)
    } else {
        parse_unsigned(text, 0, len)
    }
}

} // verus!
