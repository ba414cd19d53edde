use vstd::prelude::*;

use crate::errors::PlannerError;

verus! {

/// Timestamps are entered as `yyyy-mm-dd HH:MM:SS` in local time. This module
/// parses and validates that fixed form itself; only the resolution of the
/// wall-clock fields into an instant (seconds since the Unix epoch) is left
/// to the time-zone library.
/// The wall-clock fields of one timestamp string.
#[derive(Clone, Copy, Debug, PartialEq, Eq, Structural)]
pub struct DateParts {
    pub year: u32,
    pub month: u32,
    pub day: u32,
    pub hour: u32,
    pub minute: u32,
    pub second: u32,
}

/// `c` is a decimal digit.
pub open spec fn is_digit(c: char) -> bool {
    0x30 <= c as u32 <= 0x39
}

/// The numeric value of the digit `c`.
pub open spec fn digit_val(c: char) -> int {
    c as u32 - 0x30
}

/// The value of the two digits of `s` at positions `i`, `i + 1`.
pub open spec fn two_digit_val(s: Seq<char>, i: int) -> int {
    10 * digit_val(s[i]) + digit_val(s[i + 1])
}

/// The value of the four digits of `s` at positions 0 to 3.
pub open spec fn year_val(s: Seq<char>) -> int {
    1000 * digit_val(s[0]) + 100 * digit_val(s[1]) + 10 * digit_val(s[2]) + digit_val(s[3])
}

pub open spec fn month_val(s: Seq<char>) -> int {
    two_digit_val(s, 5)
}

pub open spec fn day_val(s: Seq<char>) -> int {
    two_digit_val(s, 8)
}

pub open spec fn hour_val(s: Seq<char>) -> int {
    two_digit_val(s, 11)
}

pub open spec fn minute_val(s: Seq<char>) -> int {
    two_digit_val(s, 14)
}

pub open spec fn second_val(s: Seq<char>) -> int {
    two_digit_val(s, 17)
}

/// The string has the exact shape `yyyy-mm-dd HH:MM:SS`: 19 characters,
/// digits and separators in the fixed places.
pub open spec fn stamp_shape_ok(s: Seq<char>) -> bool {
    &&& s.len() == 19
    &&& is_digit(s[0]) && is_digit(s[1]) && is_digit(s[2]) && is_digit(s[3])
    &&& s[4] == '-'
    &&& is_digit(s[5]) && is_digit(s[6])
    &&& s[7] == '-'
    &&& is_digit(s[8]) && is_digit(s[9])
    &&& s[10] == ' '
    &&& is_digit(s[11]) && is_digit(s[12])
    &&& s[13] == ':'
    &&& is_digit(s[14]) && is_digit(s[15])
    &&& s[16] == ':'
    &&& is_digit(s[17]) && is_digit(s[18])
}

/// A leap year of the proleptic Gregorian calendar.
pub open spec fn is_leap_year(y: int) -> bool {
    y % 4 == 0 && (y % 100 != 0 || y % 400 == 0)
}

/// The number of days of month `m` in year `y`.
pub open spec fn days_in_month(y: int, m: int) -> int {
    if m == 2 {
        if is_leap_year(y) {
            29
        } else {
            28
        }
    } else if m == 4 || m == 6 || m == 9 || m == 11 {
        30
    } else {
        31
    }
}

/// The fields name a real wall-clock time: a calendar date and a time of day.
pub open spec fn fields_valid(s: Seq<char>) -> bool {
    &&& 1 <= month_val(s) <= 12
    &&& 1 <= day_val(s) <= days_in_month(year_val(s), month_val(s))
    &&& hour_val(s) < 24
    &&& minute_val(s) < 60
    &&& second_val(s) < 60
}

/// A well-formed timestamp string: right shape, valid fields.
pub open spec fn stamp_ok(s: Seq<char>) -> bool {
    stamp_shape_ok(s) && fields_valid(s)
}

/// The two-digit number of `s` at positions `i`, `i + 1`, if both are digits.
fn two_digits(s: &str, i: usize) -> (r: Option<u32>)
    requires
        i <= 17,
        i + 1 < s@.len(),
    ensures
        r is Some <==> is_digit(s@[i as int]) && is_digit(s@[i as int + 1]),
        r is Some ==> r->0 == two_digit_val(s@, i as int),
{
    let c0 = s.get_char(i) as u32;
    let c1 = s.get_char(i + 1) as u32;
    if 0x30 <= c0 && c0 <= 0x39 && 0x30 <= c1 && c1 <= 0x39 {
        Some(10 * (c0 - 0x30) + (c1 - 0x30))
    } else {
        None
    }
}

/// Parses and validates a `yyyy-mm-dd HH:MM:SS` string into its fields.
/// Succeeds exactly on well-formed timestamps; anything else is a
/// `ParseFailure`.
pub fn parse_date_parts(s: &str) -> (r: Result<DateParts, PlannerError>)
    ensures
        r is Ok <==> stamp_ok(s@),
        r is Err ==> r->Err_0 == PlannerError::ParseFailure,
        r is Ok ==> {
            let p = r->Ok_0;
            &&& p.year == year_val(s@)
            &&& p.month == month_val(s@)
            &&& p.day == day_val(s@)
            &&& p.hour == hour_val(s@)
            &&& p.minute == minute_val(s@)
            &&& p.second == second_val(s@)
        },
{
    if s.unicode_len() != 19 {
        return Err(PlannerError::ParseFailure);
    }
    if s.get_char(4) != '-' || s.get_char(7) != '-' || s.get_char(10) != ' ' || s.get_char(13)
        != ':' || s.get_char(16) != ':' {
        return Err(PlannerError::ParseFailure);
    }
    let y_hi = match two_digits(s, 0) {
        Some(v) => v,
        None => {
            return Err(PlannerError::ParseFailure);
        },
    };
    let y_lo = match two_digits(s, 2) {
        Some(v) => v,
        None => {
            return Err(PlannerError::ParseFailure);
        },
    };
    let year = 100 * y_hi + y_lo;
    let month = match two_digits(s, 5) {
        Some(v) => v,
        None => {
            return Err(PlannerError::ParseFailure);
        },
    };
    let day = match two_digits(s, 8) {
        Some(v) => v,
        None => {
            return Err(PlannerError::ParseFailure);
        },
    };
    let hour = match two_digits(s, 11) {
        Some(v) => v,
        None => {
            return Err(PlannerError::ParseFailure);
        },
    };
    let minute = match two_digits(s, 14) {
        Some(v) => v,
        None => {
            return Err(PlannerError::ParseFailure);
        },
    };
    let second = match two_digits(s, 17) {
        Some(v) => v,
        None => {
            return Err(PlannerError::ParseFailure);
        },
    };
    if month < 1 || month > 12 {
        return Err(PlannerError::ParseFailure);
    }
    let leap = (year % 4 == 0) && (year % 100 != 0 || year % 400 == 0);
    let dim: u32 = if month == 2 {
        if leap {
            29
        } else {
            28
        }
    } else if month == 4 || month == 6 || month == 9 || month == 11 {
        30
    } else {
        31
    };
    if day < 1 || day > dim {
        return Err(PlannerError::ParseFailure);
    }
    if hour > 23 || minute > 59 || second > 59 {
        return Err(PlannerError::ParseFailure);
    }
    Ok(DateParts { year, month, day, hour, minute, second })
}

/// Relies on chrono: `NaiveDate::from_ymd_opt` and `NaiveDate::and_hms_opt`
/// build the wall-clock time, `TimeZone::from_local_datetime` resolves it in
/// the machine's local time zone, and `DateTime::timestamp` yields seconds
/// since the Unix epoch. The result depends on the machine's time zone (a
/// nonexistent or ambiguous local time gives `None`), so nothing is promised
/// of it.
#[verifier::external_body]
fn local_epoch_seconds(p: &DateParts) -> (r: Option<i64>) {
    let date = chrono::NaiveDate::from_ymd_opt(p.year as i32, p.month, p.day)?;
    let dt = date.and_hms_opt(p.hour, p.minute, p.second)?;
    match chrono::TimeZone::from_local_datetime(&chrono::Local, &dt) {
        chrono::LocalResult::Single(t) => Some(t.timestamp()),
        _ => None,
    }
}

/// Turns a `yyyy-mm-dd HH:MM:SS` string into seconds since the Unix epoch,
/// reading the fields as local time. A string that is not a well-formed
/// timestamp always fails with `ParseFailure`; a well-formed one fails only
/// when the machine's time zone gives that wall-clock time no unique instant.
pub fn parse_local_time(s: &str) -> (r: Result<i64, PlannerError>)
    ensures
        !stamp_ok(s@) ==> r is Err,
        r is Err ==> r->Err_0 == PlannerError::ParseFailure,
{
    let parts = match parse_date_parts(s) {
        Ok(p) => p,
        Err(e) => {
            return Err(e);
        },
    };
    match local_epoch_seconds(&parts) {
        Some(t) => Ok(t),
        None => Err(PlannerError::ParseFailure),
    }
}

} // verus!
