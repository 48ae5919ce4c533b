//! Civil date and time for the relay: the wall-clock stamps carried in chat
//! frames, and the minute-window helpers kept alongside them.
//!
//! A moment is held as plain values (year, month, day, hour, minute, second,
//! millisecond) with an explicit validity predicate; conversion from an epoch
//! second count is verified against a recursive specification, and the only
//! trusted piece is the reading of the system clock.

use vstd::prelude::*;

verus! {

#[derive(Clone, Copy, PartialEq, Eq, Structural, Debug)]
pub struct CivilDateTime {
    pub year: u64,
    pub month: u8,
    pub day: u8,
    pub hour: u8,
    pub minute: u8,
    pub second: u8,
    pub milli: u16,
}

pub open spec fn is_leap_year(y: int) -> bool {
    (y % 4 == 0 && y % 100 != 0) || y % 400 == 0
}

pub open spec fn days_in_year(y: int) -> int {
    if is_leap_year(y) {
        366
    } else {
        365
    }
}

pub open spec fn days_in_month(y: int, m: int) -> int {
    if m == 2 {
        if is_leap_year(y) {
            29
        } else {
            28
        }
    } else if m == 4 || m == 6 || m == 9 || m == 11 {
        30
    } else {
        31
    }
}

pub open spec fn valid_civil(c: CivilDateTime) -> bool {
    &&& 1 <= c.month <= 12
    &&& 1 <= c.day <= days_in_month(c.year as int, c.month as int)
    &&& c.hour < 24
    &&& c.minute < 60
    &&& c.second < 60
    &&& c.milli < 1000
}

/// The year reached, and the day left over, after walking whole years
/// forward from `y` over `d` days.
pub open spec fn year_walk(d: int, y: int) -> (int, int)
    decreases d,
{
    if d < days_in_year(y) || d < 0 {
        (y, d)
    } else {
        year_walk(d - days_in_year(y), y + 1)
    }
}

/// The month reached, and the day left over, after walking whole months of
/// year `y` forward from month `m`.
pub open spec fn month_walk(d: int, y: int, m: int) -> (int, int)
    decreases 13 - m,
{
    if d < days_in_month(y, m) || m >= 12 || d < 0 {
        (m, d)
    } else {
        month_walk(d - days_in_month(y, m), y, m + 1)
    }
}

/// Days in the months of year `y` strictly before month `m`.
pub open spec fn months_before(y: int, m: int) -> int
    decreases m,
{
    if m <= 1 {
        0
    } else {
        months_before(y, m - 1) + days_in_month(y, m - 1)
    }
}

/// The civil moment `secs` seconds after the epoch, shifted east by
/// `offset_seconds` of time zone.
pub open spec fn civil_of_epoch(secs: int, offset_seconds: int) -> CivilDateTime {
    let shifted = secs + offset_seconds;
    let days = shifted / 86400;
    let rem = shifted % 86400;
    let (y, dy) = year_walk(days, 1970);
    let (m, dm) = month_walk(dy, y, 1);
    CivilDateTime {
        year: y as u64,
        month: m as u8,
        day: (dm + 1) as u8,
        hour: (rem / 3600) as u8,
        minute: ((rem / 60) % 60) as u8,
        second: (rem % 60) as u8,
        milli: 0,
    }
}

/// The day count of month `m` of year `y`.
pub fn month_len(y: u64, m: u8) -> (r: u8)
    ensures
        r as int == days_in_month(y as int, m as int),
{
    if m == 2 {
        if (y % 4 == 0 && y % 100 != 0) || y % 400 == 0 {
            29
        } else {
            28
        }
    } else if m == 4 || m == 6 || m == 9 || m == 11 {
        30
    } else {
        31
    }
}

/// Convert an epoch second count to civil time at the given eastward offset.
pub fn civil_from_epoch(secs: u64, offset_seconds: u32) -> (c: CivilDateTime)
    requires
        secs + offset_seconds <= 0xefff_ffff_ffff_ffff,
    ensures
        c == civil_of_epoch(secs as int, offset_seconds as int),
{
    let shifted: u64 = secs + offset_seconds as u64;
    let mut days: u64 = shifted / 86400;
    let rem: u64 = shifted % 86400;
    let ghost days0 = days as int;
    proof {
        assert(shifted / 86400 <= shifted) by (nonlinear_arith);
    }
    let mut y: u64 = 1970;
    loop
        invariant
            1970 <= y,
            y as int + days as int <= 1970 + days0,
            days0 <= 0xefff_ffff_ffff_ffff,
            days as int <= days0,
            year_walk(days0, 1970) == year_walk(days as int, y as int),
        ensures
            year_walk(days0, 1970) == (y as int, days as int),
            (days as int) < days_in_year(y as int),
        decreases days,
    {
        let len: u64 = if (y % 4 == 0 && y % 100 != 0) || y % 400 == 0 {
            366
        } else {
            365
        };
        if days < len {
            break ;
        }
        days = days - len;
        y = y + 1;
    }
    let ghost dy0 = days as int;
    let mut m: u8 = 1;
    loop
        invariant
            1 <= m <= 12,
            dy0 < days_in_year(y as int),
            days as int + months_before(y as int, m as int) == dy0,
            month_walk(dy0, y as int, 1) == month_walk(days as int, y as int, m as int),
        ensures
            month_walk(dy0, y as int, 1) == (m as int, days as int),
            days < 31,
        decreases 12 - m,
    {
        let len: u8 = month_len(y, m);
        if days < len as u64 {
            proof {
                assert(month_walk(days as int, y as int, m as int) == (m as int, days as int));
            }
            break ;
        }
        if m >= 12 {
            proof {
                reveal_with_fuel(months_before, 13);
                if is_leap_year(y as int) {
                    assert(months_before(y as int, 12) == 335);
                } else {
                    assert(months_before(y as int, 12) == 334);
                }
                assert(month_walk(days as int, y as int, m as int) == (m as int, days as int));
            }
            break ;
        }
        days = days - len as u64;
        m = m + 1;
    }
    CivilDateTime {
        year: y,
        month: m,
        day: (days + 1) as u8,
        hour: (rem / 3600) as u8,
        minute: ((rem / 60) % 60) as u8,
        second: (rem % 60) as u8,
        milli: 0,
    }
}

pub open spec fn digit_char(d: int) -> char {
    if d == 0 {
        '0'
    } else if d == 1 {
        '1'
    } else if d == 2 {
        '2'
    } else if d == 3 {
        '3'
    } else if d == 4 {
        '4'
    } else if d == 5 {
        '5'
    } else if d == 6 {
        '6'
    } else if d == 7 {
        '7'
    } else if d == 8 {
        '8'
    } else {
        '9'
    }
}

pub open spec fn two_digits(n: int) -> Seq<char> {
    seq![digit_char(n / 10 % 10), digit_char(n % 10)]
}

pub open spec fn three_digits(n: int) -> Seq<char> {
    seq![digit_char(n / 100 % 10), digit_char(n / 10 % 10), digit_char(n % 10)]
}

pub open spec fn four_digits(n: int) -> Seq<char> {
    seq![
        digit_char(n / 1000 % 10),
        digit_char(n / 100 % 10),
        digit_char(n / 10 % 10),
        digit_char(n % 10),
    ]
}

/// `YYYY-MM-DD HH:MM:SS` for a civil moment.
pub open spec fn ymdhms_seq(c: CivilDateTime) -> Seq<char> {
    four_digits(c.year as int) + seq!['-'] + two_digits(c.month as int) + seq!['-'] + two_digits(
        c.day as int,
    ) + seq![' '] + two_digits(c.hour as int) + seq![':'] + two_digits(c.minute as int) + seq![':']
        + two_digits(c.second as int)
}

/// `YYYY-MM-DD` for a civil moment.
pub open spec fn ymd_seq(c: CivilDateTime) -> Seq<char> {
    four_digits(c.year as int) + seq!['-'] + two_digits(c.month as int) + seq!['-'] + two_digits(
        c.day as int,
    )
}

/// `YYYY-MM-DD HH:MM:SS.mmm` for a civil moment.
pub open spec fn ymdhms_milli_seq(c: CivilDateTime) -> Seq<char> {
    ymdhms_seq(c) + seq!['.'] + three_digits(c.milli as int)
}

/// One decimal digit as a string slice.
pub(crate) fn digit_str(d: u64) -> (r: &'static str)
    requires
        d < 10,
    ensures
        r@ == seq![digit_char(d as int)],
{
    proof {
        reveal_strlit("0");
        reveal_strlit("1");
        reveal_strlit("2");
        reveal_strlit("3");
        reveal_strlit("4");
        reveal_strlit("5");
        reveal_strlit("6");
        reveal_strlit("7");
        reveal_strlit("8");
        reveal_strlit("9");
    }
    if d == 0 {
        "0"
    } else if d == 1 {
        "1"
    } else if d == 2 {
        "2"
    } else if d == 3 {
        "3"
    } else if d == 4 {
        "4"
    } else if d == 5 {
        "5"
    } else if d == 6 {
        "6"
    } else if d == 7 {
        "7"
    } else if d == 8 {
        "8"
    } else {
        "9"
    }
}

/// `n` as two decimal digits (modulo 100).
fn two_digit_string(n: u64) -> (r: String)
    ensures
        r@ == two_digits(n as int),
{
    let mut r = digit_str(n / 10 % 10).to_owned();
    r.append(digit_str(n % 10));
    proof {
        assert(r@ =~= two_digits(n as int));
    }
    r
}

/// `n` as three decimal digits (modulo 1000).
fn three_digit_string(n: u64) -> (r: String)
    ensures
        r@ == three_digits(n as int),
{
    let mut r = digit_str(n / 100 % 10).to_owned();
    r.append(digit_str(n / 10 % 10));
    r.append(digit_str(n % 10));
    proof {
        assert(r@ =~= three_digits(n as int));
    }
    r
}

/// `n` as four decimal digits (modulo 10000).
fn four_digit_string(n: u64) -> (r: String)
    ensures
        r@ == four_digits(n as int),
{
    let mut r = digit_str(n / 1000 % 10).to_owned();
    r.append(digit_str(n / 100 % 10));
    r.append(digit_str(n / 10 % 10));
    r.append(digit_str(n % 10));
    proof {
        assert(r@ =~= four_digits(n as int));
    }
    r
}

/// Format a civil moment as `YYYY-MM-DD HH:MM:SS`.
pub fn date_ymdhms(date: CivilDateTime) -> (r: String)
    ensures
        r@ == ymdhms_seq(date),
{
    proof {
        reveal_strlit("-");
        reveal_strlit(" ");
        reveal_strlit(":");
    }
    let mut r = four_digit_string(date.year);
    r.append("-");
    r.append(two_digit_string(date.month as u64).as_str());
    r.append("-");
    r.append(two_digit_string(date.day as u64).as_str());
    r.append(" ");
    r.append(two_digit_string(date.hour as u64).as_str());
    r.append(":");
    r.append(two_digit_string(date.minute as u64).as_str());
    r.append(":");
    r.append(two_digit_string(date.second as u64).as_str());
    proof {
        assert(r@ =~= ymdhms_seq(date));
    }
    r
}

/// Format a civil moment as `YYYY-MM-DD HH:MM:SS.mmm`.
pub fn format_date_ymdhms(date: CivilDateTime) -> (r: String)
    ensures
        r@ == ymdhms_milli_seq(date),
{
    proof {
        reveal_strlit(".");
    }
    let mut r = date_ymdhms(date);
    r.append(".");
    r.append(three_digit_string(date.milli as u64).as_str());
    proof {
        assert(r@ =~= ymdhms_milli_seq(date));
    }
    r
}

/// Format a civil moment as `YYYY-MM-DD`.
pub fn format_date_ymd(date: CivilDateTime) -> (r: String)
    ensures
        r@ == ymd_seq(date),
{
    proof {
        reveal_strlit("-");
    }
    let mut r = four_digit_string(date.year);
    r.append("-");
    r.append(two_digit_string(date.month as u64).as_str());
    r.append("-");
    r.append(two_digit_string(date.day as u64).as_str());
    proof {
        assert(r@ =~= ymd_seq(date));
    }
    r
}

/// A civil moment from its parts, milliseconds zero.
pub fn time_with_ymdhms(y: u64, m: u8, d: u8, hh: u8, mm: u8, ss: u8) -> (c: CivilDateTime)
    requires
        1 <= m <= 12,
        1 <= d <= days_in_month(y as int, m as int),
        hh < 24,
        mm < 60,
        ss < 60,
    ensures
        c == (CivilDateTime { year: y, month: m, day: d, hour: hh, minute: mm, second: ss, milli: 0 }),
        valid_civil(c),
{
    CivilDateTime { year: y, month: m, day: d, hour: hh, minute: mm, second: ss, milli: 0 }
}

pub open spec fn is_digit(c: char) -> bool {
    '0' <= c && c <= '9'
}

pub open spec fn digit_val(c: char) -> int {
    c as u32 - 48
}

/// `s` looks like `YYYY-MM-DD`.
pub open spec fn ymd_shape(s: Seq<char>) -> bool {
    &&& s.len() == 10
    &&& is_digit(s[0]) && is_digit(s[1]) && is_digit(s[2]) && is_digit(s[3])
    &&& s[4] == '-'
    &&& is_digit(s[5]) && is_digit(s[6])
    &&& s[7] == '-'
    &&& is_digit(s[8]) && is_digit(s[9])
}

pub open spec fn ymd_year(s: Seq<char>) -> int {
    digit_val(s[0]) * 1000 + digit_val(s[1]) * 100 + digit_val(s[2]) * 10 + digit_val(s[3])
}

pub open spec fn ymd_month(s: Seq<char>) -> int {
    digit_val(s[5]) * 10 + digit_val(s[6])
}

pub open spec fn ymd_day(s: Seq<char>) -> int {
    digit_val(s[8]) * 10 + digit_val(s[9])
}

/// `s` looks like `YYYY-MM-DD HH:MM:SS`.
pub open spec fn ymdhms_shape(s: Seq<char>) -> bool {
    &&& s.len() == 19
    &&& ymd_shape(s.subrange(0, 10))
    &&& s[10] == ' '
    &&& is_digit(s[11]) && is_digit(s[12])
    &&& s[13] == ':'
    &&& is_digit(s[14]) && is_digit(s[15])
    &&& s[16] == ':'
    &&& is_digit(s[17]) && is_digit(s[18])
}

pub open spec fn hms_hour(s: Seq<char>) -> int {
    digit_val(s[11]) * 10 + digit_val(s[12])
}

pub open spec fn hms_minute(s: Seq<char>) -> int {
    digit_val(s[14]) * 10 + digit_val(s[15])
}

pub open spec fn hms_second(s: Seq<char>) -> int {
    digit_val(s[17]) * 10 + digit_val(s[18])
}

/// Read one decimal digit of `s` at position `at`.
fn read_digit(s: &str, at: usize) -> (r: Option<u8>)
    requires
        at < s@.len(),
    ensures
        match r {
            Some(d) => is_digit(s@[at as int]) && d as int == digit_val(s@[at as int]),
            None => !is_digit(s@[at as int]),
        },
{
    let c = s.get_char(at);
    if c < '0' || c > '9' {
        return None;
    }
    Some(((c as u32) - 48) as u8)
}

/// True when position `at` of `s` holds exactly `c`.
fn char_at_is(s: &str, at: usize, c: char) -> (r: bool)
    requires
        at < s@.len(),
    ensures
        r == (s@[at as int] == c),
{
    s.get_char(at) == c
}

/// Parse `YYYY-MM-DD` as the start of that civil day. Exactly the strings of
/// that shape naming a real calendar date are accepted.
pub fn to_date_with_ymd(date_time: &str) -> (r: Option<CivilDateTime>)
    ensures
        match r {
            Some(c) => {
                &&& ymd_shape(date_time@)
                &&& 1 <= ymd_month(date_time@) <= 12
                &&& 1 <= ymd_day(date_time@) <= days_in_month(
                    ymd_year(date_time@),
                    ymd_month(date_time@),
                )
                &&& c.year as int == ymd_year(date_time@)
                &&& c.month as int == ymd_month(date_time@)
                &&& c.day as int == ymd_day(date_time@)
                &&& c.hour == 0 && c.minute == 0 && c.second == 0 && c.milli == 0
                &&& valid_civil(c)
            },
            None => !(ymd_shape(date_time@) && 1 <= ymd_month(date_time@) <= 12 && 1 <= ymd_day(
                date_time@,
            ) <= days_in_month(ymd_year(date_time@), ymd_month(date_time@))),
        },
{
    if date_time.unicode_len() != 10 {
        return None;
    }
    let d0 = read_digit(date_time, 0);
    let d1 = read_digit(date_time, 1);
    let d2 = read_digit(date_time, 2);
    let d3 = read_digit(date_time, 3);
    let d5 = read_digit(date_time, 5);
    let d6 = read_digit(date_time, 6);
    let d8 = read_digit(date_time, 8);
    let d9 = read_digit(date_time, 9);
    if !(char_at_is(date_time, 4, '-') && char_at_is(date_time, 7, '-')) {
        return None;
    }
    match (d0, d1, d2, d3, d5, d6, d8, d9) {
        (
            Some(y0),
            Some(y1),
            Some(y2),
            Some(y3),
            Some(m0),
            Some(m1),
            Some(dd0),
            Some(dd1),
        ) => {
            let year: u64 = y0 as u64 * 1000 + y1 as u64 * 100 + y2 as u64 * 10 + y3 as u64;
            let month: u8 = m0 * 10 + m1;
            let day: u8 = dd0 * 10 + dd1;
            if month < 1 || month > 12 {
                return None;
            }
            if day < 1 || day > month_len(year, month) {
                return None;
            }
            Some(
                CivilDateTime {
                    year,
                    month,
                    day,
                    hour: 0,
                    minute: 0,
                    second: 0,
                    milli: 0,
                },
            )
        },
        _ => None,
    }
}

/// Parse `s` against the one supported pattern, `%Y-%m-%d %H:%M:%S`.
/// Exactly the strings of that shape naming a real moment are accepted;
/// any other pattern accepts nothing.
pub fn parse_string_to_datetime(s: &str, format: &str) -> (r: Option<CivilDateTime>)
    ensures
        match r {
            Some(c) => {
                &&& format@ == "%Y-%m-%d %H:%M:%S"@
                &&& ymdhms_shape(s@)
                &&& valid_civil(c)
                &&& c.year as int == ymd_year(s@)
                &&& c.month as int == ymd_month(s@)
                &&& c.day as int == ymd_day(s@)
                &&& c.hour as int == hms_hour(s@)
                &&& c.minute as int == hms_minute(s@)
                &&& c.second as int == hms_second(s@)
                &&& c.milli == 0
            },
            None => format@ != "%Y-%m-%d %H:%M:%S"@ || !ymdhms_shape(s@) || !(1 <= ymd_month(s@)
                <= 12 && 1 <= ymd_day(s@) <= days_in_month(ymd_year(s@), ymd_month(s@)) && hms_hour(
                s@,
            ) < 24 && hms_minute(s@) < 60 && hms_second(s@) < 60),
        },
{
    if !crate::util::str_eq(format, "%Y-%m-%d %H:%M:%S") {
        return None;
    }
    if s.unicode_len() != 19 {
        return None;
    }
    let date = to_date_with_ymd(s.substring_char(0, 10));
    proof {
        assert(s@.subrange(0, 10) == s@.subrange(0, 10));
    }
    let date = match date {
        Some(d) => d,
        None => {
            return None;
        },
    };
    proof {
        let sub = s@.subrange(0, 10);
        assert(ymd_year(sub) == ymd_year(s@) && ymd_month(sub) == ymd_month(s@) && ymd_day(sub)
            == ymd_day(s@));
    }
    if !(char_at_is(s, 10, ' ') && char_at_is(s, 13, ':') && char_at_is(s, 16, ':')) {
        return None;
    }
    let h0 = read_digit(s, 11);
    let h1 = read_digit(s, 12);
    let n0 = read_digit(s, 14);
    let n1 = read_digit(s, 15);
    let c0 = read_digit(s, 17);
    let c1 = read_digit(s, 18);
    match (h0, h1, n0, n1, c0, c1) {
        (Some(h0), Some(h1), Some(n0), Some(n1), Some(c0), Some(c1)) => {
            let hour: u8 = h0 * 10 + h1;
            let minute: u8 = n0 * 10 + n1;
            let second: u8 = c0 * 10 + c1;
            if hour >= 24 || minute >= 60 || second >= 60 {
                return None;
            }
            Some(
                CivilDateTime {
                    year: date.year,
                    month: date.month,
                    day: date.day,
                    hour,
                    minute,
                    second,
                    milli: 0,
                },
            )
        },
        _ => None,
    }
}

/// The two-minute window around a moment: start at the even minute at or
/// before it, end two minutes later, rolling into the next hour from
/// minute 58.
pub open spec fn two_minute_window(c: CivilDateTime) -> (CivilDateTime, CivilDateTime) {
    let base = (c.minute / 2 * 2) as u8;
    if c.minute >= 58 {
        (
            CivilDateTime { hour: c.hour, minute: base, second: 0, milli: 0, ..c },
            CivilDateTime { hour: (c.hour + 1) as u8, minute: 0, second: 0, milli: 0, ..c },
        )
    } else {
        (
            CivilDateTime { hour: c.hour, minute: base, second: 0, milli: 0, ..c },
            CivilDateTime { hour: c.hour, minute: (base + 2) as u8, second: 0, milli: 0, ..c },
        )
    }
}

/// The five-minute window around a moment, in the same way from minute 55.
pub open spec fn five_minute_window(c: CivilDateTime) -> (CivilDateTime, CivilDateTime) {
    let base = (c.minute / 5 * 5) as u8;
    if c.minute >= 55 {
        (
            CivilDateTime { hour: c.hour, minute: base, second: 0, milli: 0, ..c },
            CivilDateTime { hour: (c.hour + 1) as u8, minute: 0, second: 0, milli: 0, ..c },
        )
    } else {
        (
            CivilDateTime { hour: c.hour, minute: base, second: 0, milli: 0, ..c },
            CivilDateTime { hour: c.hour, minute: (base + 5) as u8, second: 0, milli: 0, ..c },
        )
    }
}

/// The two-minute window of `time`, both ends formatted with milliseconds.
pub fn timespace_2m(time: CivilDateTime) -> (r: (String, String))
    requires
        valid_civil(time),
        !(time.hour == 23 && time.minute >= 58),
    ensures
        r.0@ == ymdhms_milli_seq(two_minute_window(time).0),
        r.1@ == ymdhms_milli_seq(two_minute_window(time).1),
{
    let base: u8 = time.minute / 2 * 2;
    let (end_hour, end_minute): (u8, u8) = if time.minute >= 58 {
        (time.hour + 1, 0)
    } else {
        (time.hour, base + 2)
    };
    let start = CivilDateTime { hour: time.hour, minute: base, second: 0, milli: 0, ..time };
    let end = CivilDateTime { hour: end_hour, minute: end_minute, second: 0, milli: 0, ..time };
    (format_date_ymdhms(start), format_date_ymdhms(end))
}

/// The five-minute window of `time`, both ends formatted with milliseconds.
pub fn timespace_5m(time: CivilDateTime) -> (r: (String, String))
    requires
        valid_civil(time),
        !(time.hour == 23 && time.minute >= 55),
    ensures
        r.0@ == ymdhms_milli_seq(five_minute_window(time).0),
        r.1@ == ymdhms_milli_seq(five_minute_window(time).1),
{
    let base: u8 = time.minute / 5 * 5;
    let (end_hour, end_minute): (u8, u8) = if time.minute >= 55 {
        (time.hour + 1, 0)
    } else {
        (time.hour, base + 5)
    };
    let start = CivilDateTime { hour: time.hour, minute: base, second: 0, milli: 0, ..time };
    let end = CivilDateTime { hour: end_hour, minute: end_minute, second: 0, milli: 0, ..time };
    (format_date_ymdhms(start), format_date_ymdhms(end))
}

/// Minutes of a trading morning already run at a moment: the session runs
/// 9:30 to 11:30 and 13:00 to 15:00, counted up to 240.
pub open spec fn runed_minutes(c: CivilDateTime) -> int {
    if c.hour == 9 && c.minute >= 30 {
        c.minute - 30
    } else if c.hour == 10 {
        30 + c.minute
    } else if c.hour == 11 && c.minute <= 30 {
        90 + c.minute
    } else if (c.hour == 11 && c.minute >= 30) || c.hour == 12 {
        120
    } else if c.hour == 13 {
        120 + c.minute
    } else if c.hour == 14 {
        180 + c.minute
    } else if c.hour >= 15 {
        240
    } else {
        0
    }
}

/// See `runed_minutes`.
pub fn runed(time: CivilDateTime) -> (r: u32)
    requires
        valid_civil(time),
    ensures
        r as int == runed_minutes(time),
{
    let hour = time.hour;
    let minute = time.minute;
    if hour == 9 && minute >= 30 {
        (minute - 30) as u32
    } else if hour == 10 {
        30 + minute as u32
    } else if hour == 11 && minute <= 30 {
        90 + minute as u32
    } else if (hour == 11 && minute >= 30) || hour == 12 {
        120
    } else if hour == 13 {
        120 + minute as u32
    } else if hour == 14 {
        180 + minute as u32
    } else if hour >= 15 {
        240
    } else {
        0
    }
}

/// Relies on `std::time::SystemTime::now` and its `duration_since` from the
/// epoch: the current time as whole seconds since the epoch.
#[verifier::external_body]
pub fn current_s() -> u64 {
    std::time::SystemTime::now().duration_since(std::time::UNIX_EPOCH).map(|d| d.as_secs())
        .unwrap_or(0)
}

/// The current day at the given eastward offset as `YYYY-MM-DD`.
pub fn current_date_ymd(offset_seconds: u32) -> (r: String)
    ensures
        exists|s: int|
            0 <= s && r@ == ymd_seq(civil_of_epoch(s, offset_seconds as int)),
{
    let c = current_date(offset_seconds);
    format_date_ymd(c)
}

/// The current civil moment at the given eastward offset, read from the
/// system clock; readings past the representable range are clamped.
pub fn current_date(offset_seconds: u32) -> (c: CivilDateTime)
    ensures
        exists|s: int| 0 <= s && c == civil_of_epoch(s, offset_seconds as int),
{
    let s = current_s();
    let clamped: u64 = if s > 0xeff_ffff_ffff {
        0xeff_ffff_ffff
    } else {
        s
    };
    civil_from_epoch(clamped, offset_seconds)
}

} // verus!
