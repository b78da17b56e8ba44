//! Calendar timestamps.
//!
//! Check-in events carry timestamps in the fixed `YYYY-MM-DD HH:MM:SS` form,
//! interpreted as UTC. This module parses that grammar into seconds since the
//! Unix epoch and renders an instant as a 12-hour clock string with a
//! lowercase am/pm suffix.

use crate::pipeline::PipelineError;
use vstd::prelude::*;

verus! {

use vstd::string::StrSliceExecFns;
use vstd::string::StringExecFns;

/// Days from 0000-01-01 to 1970-01-01 in the proleptic Gregorian calendar.
pub const DAYS_TO_UNIX_EPOCH: u64 = 719528;

pub open spec fn is_digit(c: char) -> bool {
    c == '0' || c == '1' || c == '2' || c == '3' || c == '4' || c == '5' || c == '6' || c == '7'
        || c == '8' || c == '9'
}

pub open spec fn digit(c: char) -> int {
    if c == '0' {
        0
    } else if c == '1' {
        1
    } else if c == '2' {
        2
    } else if c == '3' {
        3
    } else if c == '4' {
        4
    } else if c == '5' {
        5
    } else if c == '6' {
        6
    } else if c == '7' {
        7
    } else if c == '8' {
        8
    } else {
        9
    }
}

pub open spec fn dchar(d: int) -> char {
    if d == 0 {
        '0'
    } else if d == 1 {
        '1'
    } else if d == 2 {
        '2'
    } else if d == 3 {
        '3'
    } else if d == 4 {
        '4'
    } else if d == 5 {
        '5'
    } else if d == 6 {
        '6'
    } else if d == 7 {
        '7'
    } else if d == 8 {
        '8'
    } else {
        '9'
    }
}

/// The `n` characters of `s` starting at `pos` are all decimal digits.
pub open spec fn digits_at(s: Seq<char>, pos: int, n: int) -> bool
    decreases n,
{
    if n <= 0 {
        true
    } else {
        digits_at(s, pos, n - 1) && is_digit(s[pos + n - 1])
    }
}

/// The number written by the `n` digits of `s` starting at `pos`.
pub open spec fn num_at(s: Seq<char>, pos: int, n: int) -> int
    decreases n,
{
    if n <= 0 {
        0
    } else {
        num_at(s, pos, n - 1) * 10 + digit(s[pos + n - 1])
    }
}

pub open spec fn is_leap_year(y: int) -> bool {
    (y % 4 == 0 && y % 100 != 0) || y % 400 == 0
}

pub open spec fn days_in_year(y: int) -> int {
    if is_leap_year(y) {
        366
    } else {
        365
    }
}

pub open spec fn days_in_month(y: int, m: int) -> int {
    if m == 2 {
        if is_leap_year(y) {
            29
        } else {
            28
        }
    } else if m == 4 || m == 6 || m == 9 || m == 11 {
        30
    } else {
        31
    }
}

/// Days from 0000-01-01 to the first day of year `y` (for `y >= 0`).
pub open spec fn days_from_year_zero(y: int) -> int
    decreases y,
{
    if y <= 0 {
        0
    } else {
        days_from_year_zero(y - 1) + days_in_year(y - 1)
    }
}

/// Days from the first day of year `y` to the first day of its month `m`.
pub open spec fn days_before_month(y: int, m: int) -> int
    decreases m,
{
    if m <= 1 {
        0
    } else {
        days_before_month(y, m - 1) + days_in_month(y, m - 1)
    }
}

/// Day index of the civil date `y-m-d`, counted from 0000-01-01.
pub open spec fn day_number(y: int, m: int, d: int) -> int {
    days_from_year_zero(y) + days_before_month(y, m) + (d - 1)
}

pub open spec fn ts_year(s: Seq<char>) -> int {
    num_at(s, 0, 4)
}

pub open spec fn ts_month(s: Seq<char>) -> int {
    num_at(s, 5, 2)
}

pub open spec fn ts_day(s: Seq<char>) -> int {
    num_at(s, 8, 2)
}

pub open spec fn ts_hour(s: Seq<char>) -> int {
    num_at(s, 11, 2)
}

pub open spec fn ts_minute(s: Seq<char>) -> int {
    num_at(s, 14, 2)
}

pub open spec fn ts_second(s: Seq<char>) -> int {
    num_at(s, 17, 2)
}

/// `s` is a well-formed `YYYY-MM-DD HH:MM:SS` timestamp naming a real
/// calendar date and time of day.
pub open spec fn valid_timestamp(s: Seq<char>) -> bool {
    &&& s.len() == 19
    &&& digits_at(s, 0, 4)
    &&& s[4] == '-'
    &&& digits_at(s, 5, 2)
    &&& s[7] == '-'
    &&& digits_at(s, 8, 2)
    &&& s[10] == ' '
    &&& digits_at(s, 11, 2)
    &&& s[13] == ':'
    &&& digits_at(s, 14, 2)
    &&& s[16] == ':'
    &&& digits_at(s, 17, 2)
    &&& 1 <= ts_month(s) <= 12
    &&& 1 <= ts_day(s) <= days_in_month(ts_year(s), ts_month(s))
    &&& ts_hour(s) <= 23
    &&& ts_minute(s) <= 59
    &&& ts_second(s) <= 59
}

/// Seconds since the Unix epoch named by a valid timestamp read as UTC.
pub open spec fn timestamp_seconds(s: Seq<char>) -> int {
    (day_number(ts_year(s), ts_month(s), ts_day(s)) - DAYS_TO_UNIX_EPOCH) * 86400 + ts_hour(s)
        * 3600 + ts_minute(s) * 60 + ts_second(s)
}

/// Seconds past the last midnight before instant `t` (always in `[0, 86400)`).
pub open spec fn time_of_day(t: int) -> int {
    t % 86400
}

/// The 12-hour clock rendering of a time of day: zero-padded hour (01-12),
/// a colon, zero-padded minute, a space, and a lowercase am/pm suffix.
pub open spec fn clock_12h(sod: int) -> Seq<char> {
    let h24 = sod / 3600;
    let mi = (sod % 3600) / 60;
    let h12 = if h24 % 12 == 0 {
        12int
    } else {
        h24 % 12
    };
    seq![
        dchar(h12 / 10),
        dchar(h12 % 10),
        ':',
        dchar(mi / 10),
        dchar(mi % 10),
        ' ',
        if h24 < 12 {
            'a'
        } else {
            'p'
        },
        'm',
    ]
}

fn char_is_digit(c: char) -> (b: bool)
    ensures
        b == is_digit(c),
{
    match c {
        '0' | '1' | '2' | '3' | '4' | '5' | '6' | '7' | '8' | '9' => true,
        _ => false,
    }
}

fn digit_of(c: char) -> (d: u32)
    requires
        is_digit(c),
    ensures
        d == digit(c),
{
    match c {
        '0' => 0,
        '1' => 1,
        '2' => 2,
        '3' => 3,
        '4' => 4,
        '5' => 5,
        '6' => 6,
        '7' => 7,
        '8' => 8,
        _ => 9,
    }
}

proof fn lemma_digits_at_bad(s: Seq<char>, pos: int, n: int, i: int)
    requires
        0 <= i < n,
        !is_digit(s[pos + i]),
    ensures
        !digits_at(s, pos, n),
    decreases n,
{
    if i < n - 1 {
        lemma_digits_at_bad(s, pos, n - 1, i);
    }
}

pub open spec fn pow10(n: int) -> int
    decreases n,
{
    if n <= 0 {
        1
    } else {
        10 * pow10(n - 1)
    }
}

proof fn lemma_pow10_le(a: int, b: int)
    requires
        0 <= a <= b,
    ensures
        1 <= pow10(a) <= pow10(b),
    decreases b,
{
    if a < b {
        lemma_pow10_le(a, b - 1);
    } else if a > 0 {
        lemma_pow10_le(a - 1, a - 1);
    }
}

proof fn lemma_num_at_bounds(s: Seq<char>, pos: int, n: int)
    requires
        0 <= n,
    ensures
        0 <= num_at(s, pos, n) < pow10(n),
    decreases n,
{
    if n > 0 {
        lemma_num_at_bounds(s, pos, n - 1);
    }
}

/// Read `n` digits of `s` starting at `pos` as a number; `None` when one of
/// those characters is not a digit.
fn read_digits(s: &str, pos: usize, n: usize) -> (r: Option<u32>)
    requires
        pos + n <= s@.len() <= usize::MAX,
        n <= 4,
    ensures
        match r {
            Some(v) => digits_at(s@, pos as int, n as int) && v == num_at(
                s@,
                pos as int,
                n as int,
            ),
            None => !digits_at(s@, pos as int, n as int),
        },
{
    let mut acc: u32 = 0;
    let mut i: usize = 0;
    while i < n
        invariant
            i <= n,
            n <= 4,
            pos + n <= s@.len() <= usize::MAX,
            digits_at(s@, pos as int, i as int),
            acc == num_at(s@, pos as int, i as int),
            acc < pow10(i as int),
        decreases n - i,
    {
        let c = s.get_char(pos + i);
        if !char_is_digit(c) {
            proof {
                lemma_digits_at_bad(s@, pos as int, n as int, i as int);
            }
            return None;
        }
        proof {
            lemma_pow10_le(i as int, 3);
            reveal_with_fuel(pow10, 5);
            assert(pow10(3) == 1000);
        }
        acc = acc * 10 + digit_of(c);
        i = i + 1;
    }
    Some(acc)
}

fn leap_year(y: u32) -> (b: bool)
    ensures
        b == is_leap_year(y as int),
{
    (y % 4 == 0 && y % 100 != 0) || y % 400 == 0
}

fn month_days(y: u32, m: u32) -> (d: u32)
    requires
        1 <= m <= 12,
    ensures
        d == days_in_month(y as int, m as int),
{
    if m == 2 {
        if leap_year(y) {
            29
        } else {
            28
        }
    } else if m == 4 || m == 6 || m == 9 || m == 11 {
        30
    } else {
        31
    }
}

pub proof fn lemma_days_from_year_zero_bounds(y: int)
    requires
        y >= 0,
    ensures
        365 * y <= days_from_year_zero(y) <= 366 * y,
    decreases y,
{
    if y > 0 {
        lemma_days_from_year_zero_bounds(y - 1);
    }
}

fn days_to_year(y: u32) -> (d: u64)
    requires
        y <= 9999,
    ensures
        d == days_from_year_zero(y as int),
{
    let mut acc: u64 = 0;
    let mut i: u32 = 0;
    while i < y
        invariant
            i <= y,
            y <= 9999,
            acc == days_from_year_zero(i as int),
        decreases y - i,
    {
        proof {
            lemma_days_from_year_zero_bounds(i as int);
        }
        if leap_year(i) {
            acc = acc + 366;
        } else {
            acc = acc + 365;
        }
        i = i + 1;
    }
    acc
}

proof fn lemma_days_before_month_bounds(y: int, m: int)
    requires
        1 <= m <= 12,
    ensures
        0 <= days_before_month(y, m) <= 31 * (m - 1),
    decreases m,
{
    if m > 1 {
        lemma_days_before_month_bounds(y, m - 1);
    }
}

fn days_to_month(y: u32, m: u32) -> (d: u32)
    requires
        1 <= m <= 12,
    ensures
        d == days_before_month(y as int, m as int),
{
    let mut acc: u32 = 0;
    let mut i: u32 = 1;
    while i < m
        invariant
            1 <= i <= m,
            m <= 12,
            acc == days_before_month(y as int, i as int),
        decreases m - i,
    {
        proof {
            lemma_days_before_month_bounds(y as int, i as int);
        }
        acc = acc + month_days(y, i);
        i = i + 1;
    }
    acc
}

/// Bounds on the instant a valid timestamp can name: years 0000 through 9999.
pub proof fn lemma_timestamp_seconds_bounds(s: Seq<char>)
    requires
        valid_timestamp(s),
    ensures
        -62167219200 <= timestamp_seconds(s) <= 320000000000,
{
    lemma_num_at_bounds(s, 0, 4);
    lemma_num_at_bounds(s, 11, 2);
    lemma_num_at_bounds(s, 14, 2);
    lemma_num_at_bounds(s, 17, 2);
    reveal_with_fuel(pow10, 5);
    lemma_days_from_year_zero_bounds(ts_year(s));
    lemma_days_before_month_bounds(ts_year(s), ts_month(s));
}

/// Parse a `YYYY-MM-DD HH:MM:SS` string as a UTC instant in seconds since
/// the Unix epoch. Returns `TimeParseFailure` exactly when the string is not
/// a valid timestamp.
pub fn parse_timestamp(s: &str) -> (r: Result<i64, PipelineError>)
    ensures
        match r {
            Ok(t) => valid_timestamp(s@) && t == timestamp_seconds(s@),
            Err(e) => e == PipelineError::TimeParseFailure && !valid_timestamp(s@),
        },
{
    if s.unicode_len() != 19 {
        return Err(PipelineError::TimeParseFailure);
    }
    if s.get_char(4) != '-' || s.get_char(7) != '-' || s.get_char(10) != ' ' || s.get_char(13)
        != ':' || s.get_char(16) != ':' {
        return Err(PipelineError::TimeParseFailure);
    }
    let year = match read_digits(s, 0, 4) {
        Some(v) => v,
        None => {
            return Err(PipelineError::TimeParseFailure);
        },
    };
    let month = match read_digits(s, 5, 2) {
        Some(v) => v,
        None => {
            return Err(PipelineError::TimeParseFailure);
        },
    };
    let day = match read_digits(s, 8, 2) {
        Some(v) => v,
        None => {
            return Err(PipelineError::TimeParseFailure);
        },
    };
    let hour = match read_digits(s, 11, 2) {
        Some(v) => v,
        None => {
            return Err(PipelineError::TimeParseFailure);
        },
    };
    let minute = match read_digits(s, 14, 2) {
        Some(v) => v,
        None => {
            return Err(PipelineError::TimeParseFailure);
        },
    };
    let second = match read_digits(s, 17, 2) {
        Some(v) => v,
        None => {
            return Err(PipelineError::TimeParseFailure);
        },
    };
    proof {
        lemma_num_at_bounds(s@, 0, 4);
        lemma_num_at_bounds(s@, 5, 2);
        lemma_num_at_bounds(s@, 8, 2);
        lemma_num_at_bounds(s@, 11, 2);
        lemma_num_at_bounds(s@, 14, 2);
        lemma_num_at_bounds(s@, 17, 2);
        reveal_with_fuel(pow10, 5);
    }
    if month < 1 || month > 12 {
        return Err(PipelineError::TimeParseFailure);
    }
    if day < 1 || day > month_days(year, month) {
        return Err(PipelineError::TimeParseFailure);
    }
    if hour > 23 || minute > 59 || second > 59 {
        return Err(PipelineError::TimeParseFailure);
    }
    proof {
        lemma_days_from_year_zero_bounds(year as int);
        lemma_days_before_month_bounds(year as int, month as int);
    }
    let days: u64 = days_to_year(year) + days_to_month(year, month) as u64 + (day as u64 - 1);
    let epoch_days: i64 = days as i64 - DAYS_TO_UNIX_EPOCH as i64;
    let secs: i64 = epoch_days * 86400 + (hour as i64) * 3600 + (minute as i64) * 60 + (
    second as i64);
    Ok(secs)
}

fn digit_str(d: u32) -> (r: &'static str)
    requires
        d < 10,
    ensures
        r@ == seq![dchar(d as int)],
{
    let res: &'static str = match d {
        0 => "0",
        1 => "1",
        2 => "2",
        3 => "3",
        4 => "4",
        5 => "5",
        6 => "6",
        7 => "7",
        8 => "8",
        _ => "9",
    };
    proof {
        reveal_strlit("0");
        reveal_strlit("1");
        reveal_strlit("2");
        reveal_strlit("3");
        reveal_strlit("4");
        reveal_strlit("5");
        reveal_strlit("6");
        reveal_strlit("7");
        reveal_strlit("8");
        reveal_strlit("9");
        assert(res@ =~= seq![dchar(d as int)]);
    }
    res
}

proof fn lemma_clock_parts(sod: int)
    requires
        0 <= sod < 86400,
    ensures
        0 <= sod / 3600 <= 23,
        0 <= (sod % 3600) / 60 <= 59,
        0 <= sod % 3600 < 3600,
{
    vstd::arithmetic::div_mod::lemma_fundamental_div_mod(sod, 3600);
    vstd::arithmetic::div_mod::lemma_mod_division_less_than_divisor(sod, 3600);
    let rem = sod % 3600;
    vstd::arithmetic::div_mod::lemma_fundamental_div_mod(rem, 60);
    vstd::arithmetic::div_mod::lemma_mod_division_less_than_divisor(rem, 60);
}

/// Render the studio-local wall-clock time of the instant `utc_secs` on the
/// 12-hour clock, given the zone's offset from UTC in seconds.
pub fn format_time_12h(utc_secs: i64, offset_secs: i32) -> (r: String)
    requires
        -62167219200 <= utc_secs <= 8000000000000,
        -86400 < offset_secs < 86400,
    ensures
        r@ == clock_12h(time_of_day(utc_secs + offset_secs)),
{
    // Shift by a whole number of days so the value is non-negative; the time
    // of day is unchanged. 62167305600 = 719529 * 86400.
    let shifted: i64 = utc_secs + 62167305600 + (offset_secs as i64);
    let su: u64 = shifted as u64;
    proof {
        assert(86400 * 719529int == 62167305600) by (nonlinear_arith);
        vstd::arithmetic::div_mod::lemma_mod_multiples_vanish(
            719529,
            utc_secs + offset_secs,
            86400,
        );
        vstd::arithmetic::div_mod::lemma_mod_division_less_than_divisor(
            utc_secs + offset_secs,
            86400,
        );
    }
    let sod: u64 = su % 86400;
    proof {
        assert(sod == time_of_day(utc_secs + offset_secs));
        lemma_clock_parts(sod as int);
    }
    let h24: u64 = sod / 3600;
    let mi: u64 = (sod % 3600) / 60;
    let h12: u64 = if h24 % 12 == 0 {
        12
    } else {
        h24 % 12
    };
    proof {
        vstd::arithmetic::div_mod::lemma_mod_division_less_than_divisor(h24 as int, 12);
        vstd::arithmetic::div_mod::lemma_fundamental_div_mod(h12 as int, 10);
        vstd::arithmetic::div_mod::lemma_mod_division_less_than_divisor(h12 as int, 10);
        vstd::arithmetic::div_mod::lemma_fundamental_div_mod(mi as int, 10);
        vstd::arithmetic::div_mod::lemma_mod_division_less_than_divisor(mi as int, 10);
    }
    let mut out = String::new();
    out.append(digit_str((h12 / 10) as u32));
    out.append(digit_str((h12 % 10) as u32));
    out.append(":");
    out.append(digit_str((mi / 10) as u32));
    out.append(digit_str((mi % 10) as u32));
    out.append(" ");
    if h24 < 12 {
        out.append("am");
    } else {
        out.append("pm");
    }
    proof {
        reveal_strlit(":");
        reveal_strlit(" ");
        reveal_strlit("am");
        reveal_strlit("pm");
        assert(out@ =~= clock_12h(time_of_day(utc_secs + offset_secs)));
    }
    out
}

} // verus!
