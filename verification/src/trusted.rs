//! Calls into std and into outside crates whose behaviour Verus takes from the contracts below.
use vstd::prelude::*;

verus! {

/// Calls `Vec::shrink_to_fit`, which per its documentation only lowers the capacity: the
/// contents stay as they are.
#[verifier::external_body]
pub(crate) fn vec_shrink_to_fit<T>(v: &mut Vec<T>)
    ensures
        final(v)@ == old(v)@,
{
    v.shrink_to_fit();
}

} // verus!

verus! {

/// `std::ops::RangeFrom`, whose public field `start` verified code reads.
#[verifier::external_type_specification]
#[verifier::reject_recursive_types(Idx)]
pub struct ExRangeFrom<Idx>(std::ops::RangeFrom<Idx>);

/// `std::ops::RangeTo`, whose public field `end` verified code reads.
#[verifier::external_type_specification]
#[verifier::reject_recursive_types(Idx)]
pub struct ExRangeTo<Idx>(std::ops::RangeTo<Idx>);

} // verus!

verus! {

/// The character of the decimal digit `d`.
pub open spec fn digit_char(d: int) -> char {
    (48 + d) as char
}

/// The decimal digits of `n`, most significant first, without leading zeros (`0` for zero).
pub open spec fn decimal_digits(n: nat) -> Seq<char>
    decreases n,
{
    if n < 10 {
        seq![digit_char(n as int)]
    } else {
        decimal_digits(n / 10).push(digit_char((n % 10) as int))
    }
}

/// The decimal text of `v`: its digits, after `-` where it is negative.
pub open spec fn decimal_text(v: int) -> Seq<char> {
    if v < 0 {
        seq!['-'] + decimal_digits((-v) as nat)
    } else {
        decimal_digits(v as nat)
    }
}

/// `c` is one of the ASCII digits `0` to `9`.
pub open spec fn is_digit(c: char) -> bool {
    '0' <= c && c <= '9'
}

/// The number that the ASCII digits `s` stand for.
pub open spec fn digits_value(s: Seq<char>) -> int
    decreases s.len(),
{
    if s.len() == 0 {
        0
    } else {
        digits_value(s.drop_last()) * 10 + (s.last() as int - 48)
    }
}

/// `s` is at least one ASCII digit and nothing else.
pub open spec fn all_digits(s: Seq<char>) -> bool {
    s.len() > 0 && forall|i: int| 0 <= i < s.len() ==> is_digit(#[trigger] s[i])
}

/// The integer that a decimal text stands for: an optional `+` or `-`, then at least one
/// ASCII digit, and nothing else.
pub open spec fn decimal_value(s: Seq<char>) -> Option<int> {
    if s.len() > 0 && (s[0] == '+' || s[0] == '-') {
        if all_digits(s.skip(1)) {
            Some(if s[0] == '-' { -digits_value(s.skip(1)) } else { digits_value(s.skip(1)) })
        } else {
            None
        }
    } else if all_digits(s) {
        Some(digits_value(s))
    } else {
        None
    }
}

/// The result of `str::parse::<i64>` on a text: the value of a decimal text that lies in the
/// range of `i64`, else `None`.
pub open spec fn i64_parsed(text: Seq<char>) -> Option<i64> {
    match decimal_value(text) {
        Some(v) => if i64::MIN <= v <= i64::MAX { Some(v as i64) } else { None },
        None => None,
    }
}

/// The text that `i64`'s `Display` writes for a value.
pub open spec fn i64_text(value: i64) -> Seq<char> {
    decimal_text(value as int)
}

/// The result of `str::parse::<i32>` on a text: the value of a decimal text that lies in the
/// range of `i32`, else `None`.
pub open spec fn i32_parsed(text: Seq<char>) -> Option<i32> {
    match decimal_value(text) {
        Some(v) => if i32::MIN <= v <= i32::MAX { Some(v as i32) } else { None },
        None => None,
    }
}

/// The text that `i32`'s `Display` writes for a value.
pub open spec fn i32_text(value: i32) -> Seq<char> {
    decimal_text(value as int)
}

/// `c` has the Unicode property `White_Space`, which `char::is_whitespace` tests.
pub open spec fn is_white_space(c: char) -> bool {
    let u = c as int;
    (0x9 <= u <= 0xd) || u == 0x20 || u == 0x85 || u == 0xa0 || u == 0x1680 || (0x2000 <= u <= 0x200a)
        || u == 0x2028 || u == 0x2029 || u == 0x202f || u == 0x205f || u == 0x3000
}

/// `s` without its leading whitespace.
pub open spec fn trim_start(s: Seq<char>) -> Seq<char>
    decreases s.len(),
{
    if s.len() > 0 && is_white_space(s[0]) {
        trim_start(s.skip(1))
    } else {
        s
    }
}

/// `s` without its trailing whitespace.
pub open spec fn trim_end(s: Seq<char>) -> Seq<char>
    decreases s.len(),
{
    if s.len() > 0 && is_white_space(s.last()) {
        trim_end(s.drop_last())
    } else {
        s
    }
}

/// What `str::trim` leaves of a text: the text without its leading and trailing whitespace.
pub open spec fn trimmed(text: Seq<char>) -> Seq<char> {
    trim_end(trim_start(text))
}

/// What compiling `pattern` with `regex::Regex::new` and calling `captures` on `text` gives:
/// `None` where the pattern does not compile, else `Some` of the captures of the first match,
/// if there is one, as the text of each group in the order of the groups, `None` for a group
/// that took no part in the match.
pub uninterp spec fn regex_captures_of(pattern: Seq<char>, text: Seq<char>) -> Option<Option<Seq<Option<Seq<char>>>>>;

/// Calls `str::parse::<i64>`, which per its documentation accepts an optional sign and then
/// decimal digits only, and fails where the value does not fit.
#[verifier::external_body]
pub(crate) fn parse_i64(text: &str) -> (r: Option<i64>)
    ensures
        r == i64_parsed(text@),
{
    text.parse::<i64>().ok()
}

/// Calls `ToString::to_string` on an `i64`, which writes it with `Display`: its decimal
/// digits, after `-` where it is negative.
#[verifier::external_body]
pub(crate) fn format_i64(value: i64) -> (r: String)
    ensures
        r@ == i64_text(value),
{
    value.to_string()
}

/// Calls `str::parse::<i32>`, which per its documentation accepts an optional sign and then
/// decimal digits only, and fails where the value does not fit.
#[verifier::external_body]
pub(crate) fn parse_i32(text: &str) -> (r: Option<i32>)
    ensures
        r == i32_parsed(text@),
{
    text.parse::<i32>().ok()
}

/// Calls `ToString::to_string` on an `i32`, which writes it with `Display`: its decimal
/// digits, after `-` where it is negative.
#[verifier::external_body]
pub(crate) fn format_i32(value: i32) -> (r: String)
    ensures
        r@ == i32_text(value),
{
    value.to_string()
}

/// Calls `str::trim`, which removes the leading and trailing characters with the Unicode
/// property `White_Space`.
#[verifier::external_body]
pub(crate) fn trim_text(text: &str) -> (r: &str)
    ensures
        r@ == trimmed(text@),
{
    text.trim()
}

/// Compiles `pattern` with `regex::Regex::new` and calls `Regex::captures` on `text`. The
/// contract names the result: `None` where the pattern does not compile, else the captured
/// groups of the first match, if any, each as its text.
#[verifier::external_body]
pub(crate) fn regex_captures(pattern: &str, text: &str) -> (r: Option<Option<Vec<Option<String>>>>)
    ensures
        r.deep_view() == regex_captures_of(pattern@, text@),
{
    match regex::Regex::new(pattern) {
        Ok(re) => match re.captures(text) {
            Some(caps) => Some(Some(caps.iter().map(|m| m.map(|m| m.as_str().to_string())).collect())),
            None => Some(None),
        },
        Err(_) => None,
    }
}

} // verus!
