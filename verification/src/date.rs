//! The shape of a date key, `YYYY-MM-DD`, and its day-of-month component.

use vstd::prelude::*;
use crate::text::{is_digit, digit_value, digit_char, digit_of, digit_to_char, string_of};

verus! {

/// The structural test for a date line: exactly ten characters with `-` at
/// positions 4 and 7. Nothing else is asked of the other positions.
pub open spec fn is_date_marker(s: Seq<char>) -> bool {
    s.len() == 10 && s[4] == '-' && s[7] == '-'
}

/// `s` is a date marker whose day-of-month component is two decimal digits.
pub open spec fn has_day(s: Seq<char>) -> bool {
    is_date_marker(s) && is_digit(s[8]) && is_digit(s[9])
}

/// The day-of-month component of a key that has one.
pub open spec fn day_of(s: Seq<char>) -> nat
    recommends
        has_day(s),
{
    digit_value(s[8]) * 10 + digit_value(s[9])
}

/// The key `s` with its day-of-month component replaced by `day`; the year
/// and month are kept as they are.
pub open spec fn with_day(s: Seq<char>, day: nat) -> Seq<char>
    recommends
        has_day(s),
        day < 100,
{
    s.subrange(0, 8).push(digit_char(day / 10)).push(digit_char(day % 10))
}

/// Whether the characters form a date marker.
pub fn is_date_marker_chars(chars: &[char]) -> (b: bool)
    ensures
        b == is_date_marker(chars@),
{
    chars.len() == 10 && chars[4] == '-' && chars[7] == '-'
}

/// The day-of-month component of the key, if it has one.
pub fn day_of_chars(chars: &[char]) -> (r: Option<u8>)
    ensures
        r is Some == has_day(chars@),
        r is Some ==> r->0 == day_of(chars@) && r->0 < 100,
{
    if !is_date_marker_chars(chars) {
        return None;
    }
    match (digit_of(chars[8]), digit_of(chars[9])) {
        (Some(tens), Some(units)) => Some(tens * 10 + units),
        _ => None,
    }
}

/// The key with its day-of-month component replaced by `day`.
pub fn with_day_chars(chars: &[char], day: u8) -> (s: String)
    requires
        has_day(chars@),
        day < 100,
    ensures
        s@ == with_day(chars@, day as nat),
{
    let mut s = string_of(chars, 0, 8);
    s.push(digit_to_char(day / 10));
    s.push(digit_to_char(day % 10));
    s
}

} // verus!
