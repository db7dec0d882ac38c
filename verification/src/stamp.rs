//! Calendar timestamps. Records carry a minute-precision timestamp
//! rendered as `YYYY-MM-DD HH:MM`; backup file names carry a
//! second-precision compact form `YYYYMMDDHHMMSS`. Parsing a record
//! timestamp that does not match the format falls back to a caller
//! supplied stamp (normally "now"): a deliberate lenient-read policy
//! so old files stay loadable.

use vstd::prelude::*;
use crate::text::{char_of_digit, digit_of, is_digit_char, digit_char, is_digit, digit_value,
    lemma_char_of_digit_inverse};
use chrono::Datelike;
use chrono::Timelike;

verus! {

/// A wall-clock timestamp. Record dates keep `second == 0`, since
/// the record file format has minute precision.
#[derive(Clone, Copy, PartialEq, Eq, Structural, Debug)]
pub struct Stamp {
    pub year: u32,
    pub month: u32,
    pub day: u32,
    pub hour: u32,
    pub minute: u32,
    pub second: u32,
}

pub open spec fn is_leap_year(y: int) -> bool {
    (y % 4 == 0 && y % 100 != 0) || y % 400 == 0
}

pub open spec fn days_in_month(y: int, m: int) -> int {
    if m == 2 {
        if is_leap_year(y) {
            29
        } else {
            28
        }
    } else if m == 4 || m == 6 || m == 9 || m == 11 {
        30
    } else {
        31
    }
}

/// The stamp names a real calendar date and time of day, in a year
/// the four-digit rendering can hold.
pub open spec fn stamp_valid(s: Stamp) -> bool {
    &&& 1 <= s.year <= 9999
    &&& 1 <= s.month <= 12
    &&& 1 <= s.day <= days_in_month(s.year as int, s.month as int)
    &&& s.hour < 24
    &&& s.minute < 60
    &&& s.second < 60
}

/// Executable counterpart of `stamp_valid`, for callers that must
/// test a stamp before relying on it.
pub fn stamp_valid_exec(s: &Stamp) -> (r: bool)
    ensures
        r == stamp_valid(*s),
{
    1 <= s.year && s.year <= 9999 && 1 <= s.month && s.month <= 12 && 1 <= s.day && s.day
        <= days_in_month_exec(s.year, s.month) && s.hour < 24 && s.minute < 60 && s.second < 60
}

/// Executable counterpart of `days_in_month`.
pub fn days_in_month_exec(y: u32, m: u32) -> (r: u32)
    requires
        1 <= m <= 12,
    ensures
        r as int == days_in_month(y as int, m as int),
{
    if m == 2 {
        if (y % 4 == 0 && y % 100 != 0) || y % 400 == 0 {
            29
        } else {
            28
        }
    } else if m == 4 || m == 6 || m == 9 || m == 11 {
        30
    } else {
        31
    }
}

/// Two-digit zero-padded rendering of a value below 100.
pub open spec fn two_digits(v: int) -> Seq<char> {
    seq![char_of_digit(v / 10), char_of_digit(v % 10)]
}

/// Four-digit zero-padded rendering of a value below 10000.
pub open spec fn four_digits(v: int) -> Seq<char> {
    two_digits(v / 100) + two_digits(v % 100)
}

/// The record-file timestamp format `YYYY-MM-DD HH:MM`.
pub open spec fn stamp_text(s: Stamp) -> Seq<char> {
    four_digits(s.year as int) + seq!['-'] + two_digits(s.month as int) + seq!['-'] + two_digits(
        s.day as int,
    ) + seq![' '] + two_digits(s.hour as int) + seq![':'] + two_digits(s.minute as int)
}

/// The backup-name timestamp format `YYYYMMDDHHMMSS`.
pub open spec fn compact_stamp_text(s: Stamp) -> Seq<char> {
    four_digits(s.year as int) + two_digits(s.month as int) + two_digits(s.day as int) + two_digits(
        s.hour as int,
    ) + two_digits(s.minute as int) + two_digits(s.second as int)
}

/// Appends the two-digit rendering of `v`.
pub fn push_two_digits(out: &mut Vec<char>, v: u32)
    requires
        v < 100,
    ensures
        final(out)@ == old(out)@ + two_digits(v as int),
{
    out.push(digit_char((v / 10) as u8));
    out.push(digit_char((v % 10) as u8));
    proof {
        assert(out@ =~= old(out)@ + two_digits(v as int));
    }
}

/// Appends the four-digit rendering of `v`.
pub fn push_four_digits(out: &mut Vec<char>, v: u32)
    requires
        v < 10000,
    ensures
        final(out)@ == old(out)@ + four_digits(v as int),
{
    push_two_digits(out, v / 100);
    push_two_digits(out, v % 100);
    proof {
        assert(out@ =~= old(out)@ + four_digits(v as int));
    }
}

/// Renders a stamp in the record-file format.
pub fn format_stamp(s: &Stamp) -> (r: Vec<char>)
    requires
        stamp_valid(*s),
    ensures
        r@ == stamp_text(*s),
{
    let mut out: Vec<char> = Vec::new();
    push_four_digits(&mut out, s.year);
    out.push('-');
    push_two_digits(&mut out, s.month);
    out.push('-');
    push_two_digits(&mut out, s.day);
    out.push(' ');
    push_two_digits(&mut out, s.hour);
    out.push(':');
    push_two_digits(&mut out, s.minute);
    proof {
        assert(out@ =~= stamp_text(*s));
    }
    out
}

/// Renders a stamp in the backup-name format.
pub fn format_compact_stamp(s: &Stamp) -> (r: Vec<char>)
    requires
        stamp_valid(*s),
    ensures
        r@ == compact_stamp_text(*s),
{
    let mut out: Vec<char> = Vec::new();
    push_four_digits(&mut out, s.year);
    push_two_digits(&mut out, s.month);
    push_two_digits(&mut out, s.day);
    push_two_digits(&mut out, s.hour);
    push_two_digits(&mut out, s.minute);
    push_two_digits(&mut out, s.second);
    proof {
        assert(out@ =~= compact_stamp_text(*s));
    }
    out
}

/// Value of the two digit characters at positions `i`, `i + 1`.
pub open spec fn two_digit_val(s: Seq<char>, i: int) -> int {
    digit_of(s[i]) * 10 + digit_of(s[i + 1])
}

/// Whether the characters at positions `i..i + k` are all digits.
pub open spec fn digits_at(s: Seq<char>, i: int, k: int) -> bool {
    forall|j: int| i <= j < i + k ==> is_digit_char(#[trigger] s[j])
}

/// What a record-file timestamp text parses to: `None` when the
/// shape or the calendar fields are wrong. The parsed stamp has
/// `second == 0`.
pub open spec fn parse_stamp_spec(s: Seq<char>) -> Option<Stamp> {
    if s.len() == 16 && s[4] == '-' && s[7] == '-' && s[10] == ' ' && s[13] == ':' && digits_at(
        s,
        0,
        4,
    ) && digits_at(s, 5, 2) && digits_at(s, 8, 2) && digits_at(s, 11, 2) && digits_at(s, 14, 2) {
        let st = Stamp {
            year: (two_digit_val(s, 0) * 100 + two_digit_val(s, 2)) as u32,
            month: two_digit_val(s, 5) as u32,
            day: two_digit_val(s, 8) as u32,
            hour: two_digit_val(s, 11) as u32,
            minute: two_digit_val(s, 14) as u32,
            second: 0,
        };
        if stamp_valid(st) {
            Some(st)
        } else {
            None
        }
    } else {
        None
    }
}

/// Parses a record-file timestamp text.
pub fn parse_stamp(v: &Vec<char>) -> (r: Option<Stamp>)
    ensures
        r == parse_stamp_spec(v@),
{
    if v.len() != 16 {
        return None;
    }
    if !(v[4] == '-' && v[7] == '-' && v[10] == ' ' && v[13] == ':') {
        return None;
    }
    let mut i: usize = 0;
    while i < 16
        invariant
            i <= 16,
            v@.len() == 16,
            forall|j: int|
                0 <= j < i && j != 4 && j != 7 && j != 10 && j != 13 ==> is_digit_char(
                    #[trigger] v@[j],
                ),
        decreases 16 - i,
    {
        if i != 4 && i != 7 && i != 10 && i != 13 {
            if !is_digit(v[i]) {
                proof {
                    assert(!(digits_at(v@, 0, 4) && digits_at(v@, 5, 2) && digits_at(v@, 8, 2)
                        && digits_at(v@, 11, 2) && digits_at(v@, 14, 2)));
                }
                return None;
            }
        }
        i = i + 1;
    }
    let year: u32 = (digit_value(v[0]) as u32) * 1000 + (digit_value(v[1]) as u32) * 100 + (
    digit_value(v[2]) as u32) * 10 + (digit_value(v[3]) as u32);
    let month: u32 = (digit_value(v[5]) as u32) * 10 + (digit_value(v[6]) as u32);
    let day: u32 = (digit_value(v[8]) as u32) * 10 + (digit_value(v[9]) as u32);
    let hour: u32 = (digit_value(v[11]) as u32) * 10 + (digit_value(v[12]) as u32);
    let minute: u32 = (digit_value(v[14]) as u32) * 10 + (digit_value(v[15]) as u32);
    let st = Stamp { year, month, day, hour, minute, second: 0 };
    let valid = 1 <= year && year <= 9999 && 1 <= month && month <= 12 && 1 <= day && day
        <= days_in_month_exec(year, month) && hour < 24 && minute < 60;
    if valid {
        Some(st)
    } else {
        None
    }
}

/// The lenient-read policy in one place: a timestamp text that does
/// not parse is read as `fallback`.
pub fn parse_stamp_or(v: &Vec<char>, fallback: Stamp) -> (r: Stamp)
    ensures
        r == match parse_stamp_spec(v@) {
            Some(st) => st,
            None => fallback,
        },
{
    match parse_stamp(v) {
        Some(st) => st,
        None => fallback,
    }
}

/// Rendering a valid minute-precision stamp parses back to the same
/// stamp: the codec's timestamp column is lossless.
pub proof fn lemma_stamp_round_trip(st: Stamp)
    requires
        stamp_valid(st),
        st.second == 0,
    ensures
        parse_stamp_spec(stamp_text(st)) == Some(st),
{
    let s = stamp_text(st);
    lemma_two_digits_val(st.month as int);
    lemma_two_digits_val(st.day as int);
    lemma_two_digits_val(st.hour as int);
    lemma_two_digits_val(st.minute as int);
    lemma_two_digits_val((st.year as int) / 100);
    lemma_two_digits_val((st.year as int) % 100);
    assert(s =~= four_digits(st.year as int) + seq!['-'] + two_digits(st.month as int) + seq!['-']
        + two_digits(st.day as int) + seq![' '] + two_digits(st.hour as int) + seq![':']
        + two_digits(st.minute as int));
    assert(s.len() == 16);
    assert(s[4] == '-' && s[7] == '-' && s[10] == ' ' && s[13] == ':');
    assert(two_digit_val(s, 0) == (st.year as int) / 100);
    assert(two_digit_val(s, 2) == (st.year as int) % 100);
    assert((st.year as int) / 100 * 100 + (st.year as int) % 100 == st.year as int);
    assert(two_digit_val(s, 5) == st.month as int);
    assert(two_digit_val(s, 8) == st.day as int);
    assert(two_digit_val(s, 11) == st.hour as int);
    assert(two_digit_val(s, 14) == st.minute as int);
    assert(digits_at(s, 0, 4) && digits_at(s, 5, 2) && digits_at(s, 8, 2) && digits_at(s, 11, 2)
        && digits_at(s, 14, 2));
}

/// The two-digit rendering of `v < 100` is two digit characters
/// whose value is `v`.
pub proof fn lemma_two_digits_val(v: int)
    requires
        0 <= v < 100,
    ensures
        is_digit_char(two_digits(v)[0]),
        is_digit_char(two_digits(v)[1]),
        digit_of(two_digits(v)[0]) * 10 + digit_of(two_digits(v)[1]) == v,
{
    lemma_char_of_digit_inverse(v / 10);
    lemma_char_of_digit_inverse(v % 10);
}

/// Relies on chrono's `Local::now` with the `Datelike` and
/// `Timelike` accessors: month is 1..=12, day 1..=31, hour 0..=23,
/// minute 0..=59, second 0..=59; the year carries no bound here.
#[verifier::external_body]
fn clock_now() -> (r: (i32, u32, u32, u32, u32, u32))
    ensures
        1 <= r.1 <= 12,
        1 <= r.2 <= 31,
        r.3 < 24,
        r.4 < 60,
        r.5 < 60,
{
    let now = chrono::Local::now();
    (now.year(), now.month(), now.day(), now.hour(), now.minute(), now.second())
}

/// The current wall-clock time as a valid stamp. A clock outside
/// the supported calendar (year 1..=9999, or a day the month does
/// not have) falls back to the epoch of the supported range.
pub fn now_stamp() -> (r: Stamp)
    ensures
        stamp_valid(r),
{
    let (y, mo, d, h, mi, s) = clock_now();
    if y < 1 || y > 9999 {
        return Stamp { year: 2000, month: 1, day: 1, hour: 0, minute: 0, second: 0 };
    }
    let year = y as u32;
    if d > days_in_month_exec(year, mo) {
        return Stamp { year: 2000, month: 1, day: 1, hour: 0, minute: 0, second: 0 };
    }
    Stamp { year, month: mo, day: d, hour: h, minute: mi, second: s }
}

/// Drops the seconds, as the record file format does.
pub fn to_minute_precision(s: &Stamp) -> (r: Stamp)
    ensures
        r == (Stamp { second: 0, ..*s }),
{
    Stamp {
        year: s.year,
        month: s.month,
        day: s.day,
        hour: s.hour,
        minute: s.minute,
        second: 0,
    }
}

} // verus!
