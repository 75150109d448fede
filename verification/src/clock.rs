//! Today's date on the server's clock.

use vstd::prelude::*;

verus! {

pub open spec fn is_digit(c: char) -> bool {
    '0' <= c && c <= '9'
}

pub open spec fn all_digits(s: Seq<char>) -> bool {
    forall|i: int| 0 <= i < s.len() ==> is_digit(#[trigger] s[i])
}

/// The number two decimal digits stand for.
pub open spec fn two_digit_value(a: char, b: char) -> int {
    ((a as u32) - ('0' as u32)) * 10 + ((b as u32) - ('0' as u32))
}

/// A year as chrono's `%Y` writes it: four digits for the years 0 to 9999
/// (zero-padded), and for any other year a sign followed by at least four
/// digits.
pub open spec fn is_year_text(s: Seq<char>) -> bool {
    ||| s.len() == 4 && all_digits(s)
    ||| s.len() >= 5 && (s[0] == '+' || s[0] == '-') && all_digits(s.drop_first())
}

/// Two digits naming a month, `01` to `12`.
pub open spec fn is_month_text(a: char, b: char) -> bool {
    is_digit(a) && is_digit(b) && 1 <= two_digit_value(a, b) <= 12
}

/// Two digits naming a day of the month, `01` to `31`.
pub open spec fn is_day_text(a: char, b: char) -> bool {
    is_digit(a) && is_digit(b) && 1 <= two_digit_value(a, b) <= 31
}

/// A date written `YYYY-MM-DD` (chrono's `%Y-%m-%d`).
pub open spec fn is_dashed_date(s: Seq<char>) -> bool {
    let n = s.len() as int;
    &&& n >= 10
    &&& is_year_text(s.subrange(0, n - 6))
    &&& s[n - 6] == '-'
    &&& is_month_text(s[n - 5], s[n - 4])
    &&& s[n - 3] == '-'
    &&& is_day_text(s[n - 2], s[n - 1])
}

/// A date written `YYYYMMDD` (chrono's `%Y%m%d`).
pub open spec fn is_compact_date(s: Seq<char>) -> bool {
    let n = s.len() as int;
    &&& n >= 8
    &&& is_year_text(s.subrange(0, n - 4))
    &&& is_month_text(s[n - 4], s[n - 3])
    &&& is_day_text(s[n - 2], s[n - 1])
}

/// The current local time written with a chrono format string; wraps
/// chrono's `Local::now()` and `format(..)`. Which date comes back depends on
/// the clock and the time zone and is left open; what is stated is the shape
/// chrono writes for the two date formats this library uses (`%Y`, `%m` and
/// `%d` zero-padded, a sign before years outside 0 to 9999). Only those two
/// formats are admitted: chrono turns an unknown specifier into an error,
/// and `to_string` panics on it.
#[verifier::external_body]
fn local_now_formatted(format: &str) -> (r: String)
    requires
        format@ == "%Y-%m-%d"@ || format@ == "%Y%m%d"@,
    ensures
        format@ == "%Y-%m-%d"@ ==> is_dashed_date(r@),
        format@ == "%Y%m%d"@ ==> is_compact_date(r@),
{
    chrono::Local::now().format(format).to_string()
}

/// Today's local date as `YYYY-MM-DD`.
pub(crate) fn local_date_dashed() -> (r: String)
    ensures
        is_dashed_date(r@),
{
    local_now_formatted("%Y-%m-%d")
}

/// Today's local date as `YYYYMMDD`.
pub(crate) fn local_date_compact() -> (r: String)
    ensures
        is_compact_date(r@),
{
    local_now_formatted("%Y%m%d")
}

} // verus!
