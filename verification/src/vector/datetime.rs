//! ISO-8601 timestamps to minutes since the epoch, hour of day and day of week.

use vstd::prelude::*;
use super::ParseError;

verus! {

#[derive(Clone, Copy, Debug, PartialEq, Eq)]
pub struct ParsedDateTime {
    pub epoch_minute: i64,
    pub hour: i32,
    pub day_of_week: i32,
}

pub open spec fn is_digit(b: u8) -> bool {
    48 <= b <= 57
}

pub open spec fn digit(b: u8) -> int {
    b - 48
}

/// Two decimal digits at `offset`.
pub open spec fn two_digits(s: Seq<u8>, offset: int) -> Option<i32> {
    if offset + 2 > s.len() {
        None
    } else if is_digit(s[offset]) && is_digit(s[offset + 1]) {
        Some((10 * digit(s[offset]) + digit(s[offset + 1])) as i32)
    } else {
        None
    }
}

/// Four decimal digits at `offset`.
pub open spec fn four_digits(s: Seq<u8>, offset: int) -> Option<i32> {
    if offset + 4 > s.len() {
        None
    } else if is_digit(s[offset]) && is_digit(s[offset + 1]) && is_digit(s[offset + 2])
        && is_digit(s[offset + 3]) {
        Some(
            (1000 * digit(s[offset]) + 100 * digit(s[offset + 1]) + 10 * digit(s[offset + 2])
                + digit(s[offset + 3])) as i32,
        )
    } else {
        None
    }
}

/// Days from 1970-01-01 to year `y`, month `m`, day `d` of the proleptic Gregorian
/// calendar (Hinnant's `days_from_civil`), with the day-of-era arithmetic done in
/// wrapping 32-bit unsigned integers.
pub open spec fn civil_days(y: int, m: int, d: int) -> int {
    let y1 = if m <= 2 {
        y - 1
    } else {
        y
    };
    let era = if y1 >= 0 {
        y1 / 400
    } else {
        -1
    };
    let yoe = y1 - era * 400;
    let shifted = if m > 2 {
        m - 3
    } else {
        m + 9
    };
    let doy = ((153 * shifted + 2) / 5 + d - 1) % 0x1_0000_0000;
    let doe = (yoe * 365 + yoe / 4 - yoe / 100 + doy) % 0x1_0000_0000;
    era * 146097 + doe - 719468
}

/// Remainder of `x / 7` rounded toward zero, as Rust's `%` on signed integers.
pub open spec fn rem7(x: int) -> int {
    if x >= 0 {
        x % 7
    } else {
        -((-x) % 7)
    }
}

/// `YYYY?MM?DD?HH?MM...`: digits at fixed offsets, separators unchecked.
pub open spec fn datetime_of(iso: Seq<u8>) -> Option<ParsedDateTime> {
    if iso.len() < 16 {
        None
    } else {
        match (
            four_digits(iso, 0),
            two_digits(iso, 5),
            two_digits(iso, 8),
            two_digits(iso, 11),
            two_digits(iso, 14),
        ) {
            (Some(y), Some(m), Some(d), Some(hh), Some(mm)) => {
                let days = civil_days(y as int, m as int, d as int);
                Some(
                    ParsedDateTime {
                        epoch_minute: (days * 1440 + hh * 60 + mm) as i64,
                        hour: hh,
                        day_of_week: rem7(days + 3) as i32,
                    },
                )
            },
            _ => None,
        }
    }
}

/// Bounds of `civil_days` over four-digit years and two-digit months and days.
pub proof fn lemma_civil_days_bounds(y: int, m: int, d: int)
    requires
        0 <= y <= 9999,
        0 <= m <= 99,
        0 <= d <= 99,
    ensures
        -1_000_000 <= civil_days(y, m, d) <= 5_000_000_000,
{
}

/// Leap years of the Gregorian calendar.
pub open spec fn is_leap(y: int) -> bool {
    y % 4 == 0 && (y % 100 != 0 || y % 400 == 0)
}

/// Days in month `m` of year `y`.
pub open spec fn month_days(y: int, m: int) -> int {
    if m == 2 {
        if is_leap(y) {
            29
        } else {
            28
        }
    } else if m == 4 || m == 6 || m == 9 || m == 11 {
        30
    } else {
        31
    }
}

spec fn year_days(k: int) -> int {
    365 * k + k / 4 - k / 100
}

spec fn month_start(m: int) -> int {
    (153 * (if m > 2 { m - 3 } else { m + 9 }) + 2) / 5
}

proof fn lemma_civil_days_plain(y: int, m: int, d: int)
    requires
        1 <= y <= 9999,
        1 <= m <= 12,
        1 <= d <= 31,
    ensures
        civil_days(y, m, d) == 146097 * ((if m <= 2 { y - 1 } else { y }) / 400) + year_days(
            (if m <= 2 { y - 1 } else { y }) % 400,
        ) + month_start(m) + d - 1 - 719468,
{
    let y1 = if m <= 2 { y - 1 } else { y };
    let era = y1 / 400;
    let yoe = y1 - era * 400;
    vstd::arithmetic::div_mod::lemma_fundamental_div_mod(y1, 400);
    assert(yoe == y1 % 400);
    assert(0 <= yoe < 400);
    let doy0 = month_start(m) + d - 1;
    assert(0 <= month_start(m) <= 337);
    vstd::arithmetic::div_mod::lemma_small_mod(doy0 as nat, 0x1_0000_0000);
    assert(0 <= year_days(yoe) <= 146096) by (nonlinear_arith)
        requires
            0 <= yoe < 400,
    ;
    vstd::arithmetic::div_mod::lemma_small_mod((year_days(yoe) + doy0) as nat, 0x1_0000_0000);
}

/// The calendar counts days one by one: 1970-01-01 is day 0, and the day after any date
/// (the last of a month, of February in a leap year, of December included) is the next
/// day number.
pub proof fn lemma_calendar_days(y: int, m: int, d: int)
    requires
        1 <= y <= 9998,
        1 <= m <= 12,
        1 <= d <= month_days(y, m),
    ensures
        civil_days(1970, 1, 1) == 0,
        d < month_days(y, m) ==> civil_days(y, m, d + 1) == civil_days(y, m, d) + 1,
        d == month_days(y, m) && m < 12 ==> civil_days(y, m + 1, 1) == civil_days(y, m, d) + 1,
        d == month_days(y, m) && m == 12 ==> civil_days(y + 1, 1, 1) == civil_days(y, m, d) + 1,
{
    lemma_civil_days_plain(1970, 1, 1);
    lemma_civil_days_plain(y, m, d);
    if d < month_days(y, m) {
        lemma_civil_days_plain(y, m, d + 1);
    }
    if d == month_days(y, m) && m < 12 {
        lemma_civil_days_plain(y, m + 1, 1);
        if m == 2 {
            vstd::arithmetic::div_mod::lemma_fundamental_div_mod(y, 400);
            vstd::arithmetic::div_mod::lemma_fundamental_div_mod(y - 1, 400);
            if y % 400 == 0 {
                assert((y - 1) % 400 == 399);
                assert((y - 1) / 400 == y / 400 - 1);
            } else {
                let k = (y - 1) % 400;
                assert(y % 400 == k + 1);
                assert((y - 1) / 400 == y / 400);
                assert(y % 4 == (k + 1) % 4);
                assert(y % 100 == (k + 1) % 100);
            }
        }
    }
    if d == month_days(y, m) && m == 12 {
        lemma_civil_days_plain(y + 1, 1, 1);
    }
}

/// Largest magnitude of a parsed epoch minute.
pub open spec fn epoch_minute_bound() -> int {
    10_000_000_000_000
}

pub fn parse_datetime(iso: &[u8]) -> (r: Result<ParsedDateTime, ParseError>)
    ensures
        match datetime_of(iso@) {
            Some(p) => r == Ok::<ParsedDateTime, ParseError>(p) && -epoch_minute_bound()
                <= p.epoch_minute <= epoch_minute_bound(),
            None => r == Err::<ParsedDateTime, ParseError>(ParseError::InvalidValue),
        },
{
    if iso.len() < 16 {
        return Err(ParseError::InvalidValue);
    }
    let y = parse4(iso, 0)?;
    let m = parse2(iso, 5)?;
    let d = parse2(iso, 8)?;
    let hh = parse2(iso, 11)?;
    let mm = parse2(iso, 14)?;
    let days = days_from_civil(y, m, d);
    proof {
        lemma_civil_days_bounds(y as int, m as int, d as int);
    }
    let epoch_minute = days * 1440 + (hh as i64) * 60 + (mm as i64);
    let x = days + 3;
    let day_of_week = if x >= 0 {
        (x % 7) as i32
    } else {
        -((-x) % 7) as i32
    };
    Ok(ParsedDateTime { epoch_minute, hour: hh, day_of_week })
}

pub fn parse2(s: &[u8], offset: usize) -> (r: Result<i32, ParseError>)
    ensures
        match two_digits(s@, offset as int) {
            Some(v) => r == Ok::<i32, ParseError>(v) && 0 <= v <= 99,
            None => r == Err::<i32, ParseError>(ParseError::InvalidValue),
        },
{
    if offset > s.len() || s.len() - offset < 2 {
        return Err(ParseError::InvalidValue);
    }
    let a = s[offset].wrapping_sub(48);
    let b = s[offset + 1].wrapping_sub(48);
    if a > 9 || b > 9 {
        return Err(ParseError::InvalidValue);
    }
    Ok((a as i32) * 10 + (b as i32))
}

pub fn parse4(s: &[u8], offset: usize) -> (r: Result<i32, ParseError>)
    ensures
        match four_digits(s@, offset as int) {
            Some(v) => r == Ok::<i32, ParseError>(v) && 0 <= v <= 9999,
            None => r == Err::<i32, ParseError>(ParseError::InvalidValue),
        },
{
    if offset > s.len() || s.len() - offset < 4 {
        return Err(ParseError::InvalidValue);
    }
    let a = s[offset].wrapping_sub(48);
    let b = s[offset + 1].wrapping_sub(48);
    let c = s[offset + 2].wrapping_sub(48);
    let d = s[offset + 3].wrapping_sub(48);
    if a > 9 || b > 9 || c > 9 || d > 9 {
        return Err(ParseError::InvalidValue);
    }
    Ok((a as i32) * 1000 + (b as i32) * 100 + (c as i32) * 10 + (d as i32))
}

pub fn days_from_civil(y: i32, m: i32, d: i32) -> (r: i64)
    requires
        0 <= y <= 9999,
        0 <= m <= 99,
        0 <= d <= 99,
    ensures
        r == civil_days(y as int, m as int, d as int),
{
    let y1 = if m <= 2 {
        y - 1
    } else {
        y
    };
    let era: i32 = if y1 >= 0 {
        y1 / 400
    } else {
        -1
    };
    let yoe = (y1 - era * 400) as u32;
    let shifted_month = m + if m > 2 {
        -3
    } else {
        9
    };
    let doy = ((153u32 * (shifted_month as u32) + 2) / 5 + (d as u32)).wrapping_sub(1);
    let doe = (yoe * 365 + yoe / 4 - yoe / 100).wrapping_add(doy);
    (era as i64) * 146_097 + (doe as i64) - 719_468
}

} // verus!
