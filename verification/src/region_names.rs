//! Automatic names for new regions in calibration mode: `region_1`, `region_2`, ...

use vstd::prelude::*;
use crate::control::{decimal_value, is_ascii_digit};

verus! {

/// Index of the last occurrence of `c` in `s`, or `-1` when there is none.
pub open spec fn last_index_of(s: Seq<char>, c: char) -> int
    decreases s.len(),
{
    if s.len() == 0 {
        -1
    } else if s.last() == c {
        s.len() - 1
    } else {
        last_index_of(s.drop_last(), c)
    }
}

/// What `u32::from_str` gives: an optional `+` followed by at least one decimal digit and
/// nothing else, with a value that fits in `u32`.
pub open spec fn parse_u32_spec(s: Seq<char>) -> Option<u32> {
    let digits = if s.len() > 0 && s[0] == '+' { s.skip(1) } else { s };
    if digits.len() > 0 && (forall|i: int| 0 <= i < digits.len() ==> is_ascii_digit(#[trigger] digits[i]))
        && decimal_value(digits) <= u32::MAX {
        Some(decimal_value(digits) as u32)
    } else {
        None
    }
}

/// The decimal digit character for `d < 10`.
pub open spec fn digit_char(d: nat) -> char {
    (('0' as int) + d) as char
}

/// The decimal representation of `n` without leading zeros (`"0"` for zero).
pub open spec fn decimal_chars(n: nat) -> Seq<char>
    decreases n,
{
    if n < 10 {
        seq![digit_char(n)]
    } else {
        decimal_chars(n / 10).push(digit_char(n % 10))
    }
}

/// The number after the last `_` of `name`, when that part is a `u32`.
pub open spec fn name_number(name: Seq<char>) -> Option<u32> {
    let i = last_index_of(name, '_');
    if i < 0 {
        None
    } else {
        parse_u32_spec(name.subrange(i + 1, name.len() as int))
    }
}

/// The name after `name`: when the part after its last `_` is a number, that number plus
/// one replaces it; otherwise the name stays.
pub open spec fn next_name_spec(name: Seq<char>) -> Seq<char> {
    let i = last_index_of(name, '_');
    match name_number(name) {
        Some(n) => name.subrange(0, i) + seq!['_'] + decimal_chars((n + 1) as nat),
        None => name,
    }
}

/// Calls `str::rsplit_once` with a character: the parts before and after the last
/// occurrence of `c`, or `None` when `c` does not occur.
#[verifier::external_body]
fn rsplit_once_char(s: &str, c: char) -> (r: Option<(&str, &str)>)
    ensures
        (last_index_of(s@, c) >= 0) <==> r is Some,
        r matches Some(parts) ==> parts.0@ == s@.subrange(0, last_index_of(s@, c)) && parts.1@ == s@.subrange(
            last_index_of(s@, c) + 1,
            s@.len() as int,
        ),
{
    s.rsplit_once(c)
}

/// Calls `u32::from_str` (through `str::parse`).
#[verifier::external_body]
fn parse_u32_str(s: &str) -> (r: Option<u32>)
    ensures
        r == parse_u32_spec(s@),
{
    s.parse::<u32>().ok()
}

/// Calls `<u32 as ToString>::to_string`: `n` in decimal, without leading zeros.
#[verifier::external_body]
fn u32_to_string(n: u32) -> (r: String)
    ensures
        r@ == decimal_chars(n as nat),
{
    n.to_string()
}

/// The name to give the next region: `region_7` after `region_6`; a name without a
/// numeric suffix stays as it is. A suffix of `u32::MAX` has no successor.
pub fn next_region_name(name: &str) -> (r: String)
    requires
        name_number(name@) != Some(u32::MAX),
    ensures
        r@ == next_name_spec(name@),
{
    match rsplit_once_char(name, '_') {
        Some((before, after)) => match parse_u32_str(after) {
            Some(num) => {
                let digits = u32_to_string(num + 1);
                let mut r = before.to_owned();
                r.append("_");
                r.append(digits.as_str());
                proof {
                    reveal_strlit("_");
                }
                r
            },
            None => name.to_owned(),
        },
        None => name.to_owned(),
    }
}

} // verus!
