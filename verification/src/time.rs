//! Reading publication dates: the timestamp form of RFC 3339, which Atom
//! uses, and the date form of RFC 822 with a four-digit year, which RSS
//! uses. A date becomes milliseconds since the Unix epoch.

use vstd::prelude::*;
use crate::bytes::{lower, lower_byte};

verus! {

/// An optional exec number as an optional mathematical one.
pub open spec fn widen(r: Option<i64>) -> Option<int> {
    match r {
        Some(v) => Some(v as int),
        None => None,
    }
}

pub open spec fn is_digit(c: u8) -> bool {
    48 <= c <= 57
}

/// The value of the digit at position `i`.
pub open spec fn digit_at(s: Seq<u8>, i: int) -> Option<int> {
    if 0 <= i < s.len() && is_digit(s[i]) {
        Some(s[i] - 48)
    } else {
        None
    }
}

/// The number that the two digits from position `i` write.
pub open spec fn two_digits(s: Seq<u8>, i: int) -> Option<int> {
    match (digit_at(s, i), digit_at(s, i + 1)) {
        (Some(a), Some(b)) => Some(a * 10 + b),
        _ => None,
    }
}

/// The number that the four digits from position `i` write.
pub open spec fn four_digits(s: Seq<u8>, i: int) -> Option<int> {
    match (two_digits(s, i), two_digits(s, i + 2)) {
        (Some(a), Some(b)) => Some(a * 100 + b),
        _ => None,
    }
}

/// `s` holds the byte `c` at position `i`.
pub open spec fn byte_is(s: Seq<u8>, i: int, c: u8) -> bool {
    0 <= i < s.len() && s[i] == c
}

pub open spec fn is_leap(y: int) -> bool {
    y % 4 == 0 && (y % 100 != 0 || y % 400 == 0)
}

pub open spec fn days_in_month(y: int, m: int) -> int {
    if m == 2 {
        if is_leap(y) {
            29
        } else {
            28
        }
    } else if m == 4 || m == 6 || m == 9 || m == 11 {
        30
    } else {
        31
    }
}

/// The days of the year `y` that lie before its month `m`.
pub open spec fn days_before_month(y: int, m: int) -> int
    decreases m,
{
    if m <= 1 {
        0
    } else {
        days_before_month(y, m - 1) + days_in_month(y, m - 1)
    }
}

/// The leap years among the years 1 to `y - 1`.
pub open spec fn leap_years_before(y: int) -> int {
    (y - 1) / 4 - (y - 1) / 100 + (y - 1) / 400
}

/// The days from the first of January 1970 to the first of January of `y`.
pub open spec fn days_before_year(y: int) -> int {
    365 * (y - 1970) + leap_years_before(y) - leap_years_before(1970)
}

/// A day of the Gregorian calendar in the years 1 to 9999.
pub open spec fn valid_date(y: int, m: int, d: int) -> bool {
    1 <= y <= 9999 && 1 <= m <= 12 && 1 <= d <= days_in_month(y, m)
}

/// A time of day; the second 60 is a leap second.
pub open spec fn valid_time(h: int, mi: int, sec: int) -> bool {
    0 <= h <= 23 && 0 <= mi <= 59 && 0 <= sec <= 60
}

/// Milliseconds from the epoch to the given instant of UTC.
pub open spec fn epoch_millis(y: int, m: int, d: int, h: int, mi: int, sec: int, ms: int) -> int {
    let days = days_before_year(y) + days_before_month(y, m) + (d - 1);
    (((days * 24 + h) * 60 + mi) * 60 + sec) * 1000 + ms
}

/// The first position at or behind `i` that holds no digit.
pub open spec fn digits_end(s: Seq<u8>, i: int) -> int
    decreases s.len() - i,
{
    if 0 <= i < s.len() && is_digit(s[i]) {
        digits_end(s, i + 1)
    } else {
        i
    }
}

/// The digit at position `i` if that lies before `e`, else zero.
pub open spec fn digit_before(s: Seq<u8>, i: int, e: int) -> int {
    if i < e {
        match digit_at(s, i) {
            Some(v) => v,
            None => 0,
        }
    } else {
        0
    }
}

/// An offset from UTC in minutes, written as sign, hours and minutes, with
/// the minutes `gap` bytes behind the hours.
pub open spec fn signed_offset(s: Seq<u8>, i: int, gap: int) -> Option<int> {
    match (two_digits(s, i + 1), two_digits(s, i + 3 + gap)) {
        (Some(hh), Some(mm)) => if hh <= 23 && mm <= 59 {
            if byte_is(s, i, 43) {
                Some(hh * 60 + mm)
            } else if byte_is(s, i, 45) {
                Some(-(hh * 60 + mm))
            } else {
                None
            }
        } else {
            None
        },
        _ => None,
    }
}

/// The zone of an RFC 3339 timestamp, which fills `s` from position `e`:
/// `Z`, or an offset as `+hh:mm` or `-hh:mm`.
pub open spec fn zone_3339(s: Seq<u8>, e: int) -> Option<int> {
    if e + 1 == s.len() && (byte_is(s, e, 90) || byte_is(s, e, 122)) {
        Some(0)
    } else if e + 6 == s.len() && byte_is(s, e + 3, 58) {
        signed_offset(s, e, 1)
    } else {
        None
    }
}

/// The instant that an RFC 3339 timestamp names, if `s` is one: date,
/// `T`, time, an optional fraction of a second, and a zone.
pub open spec fn rfc3339(s: Seq<u8>) -> Option<int> {
    match (
        four_digits(s, 0),
        two_digits(s, 5),
        two_digits(s, 8),
        two_digits(s, 11),
        two_digits(s, 14),
        two_digits(s, 17),
    ) {
        (Some(y), Some(m), Some(d), Some(h), Some(mi), Some(sec)) => {
            if byte_is(s, 4, 45) && byte_is(s, 7, 45) && (byte_is(s, 10, 84) || byte_is(s, 10, 116)
                || byte_is(s, 10, 32)) && byte_is(s, 13, 58) && byte_is(s, 16, 58) && valid_date(
                y,
                m,
                d,
            ) && valid_time(h, mi, sec) {
                let with_fraction = byte_is(s, 19, 46);
                let e = if with_fraction {
                    digits_end(s, 20)
                } else {
                    19
                };
                let ms = digit_before(s, 20, e) * 100 + digit_before(s, 21, e) * 10 + digit_before(
                    s,
                    22,
                    e,
                );
                if with_fraction && e == 20 {
                    None
                } else {
                    match zone_3339(s, e) {
                        Some(offset) => Some(epoch_millis(y, m, d, h, mi, sec, ms) - offset * 60000),
                        None => None,
                    }
                }
            } else {
                None
            }
        },
        _ => None,
    }
}

/// The three bytes from position `i` are the letters `a`, `b`, `c`, in
/// either case.
pub open spec fn letters_at(s: Seq<u8>, i: int, a: u8, b: u8, c: u8) -> bool {
    0 <= i && i + 3 <= s.len() && lower(s[i]) == a && lower(s[i + 1]) == b && lower(s[i + 2]) == c
}

/// The month that the three letters from position `i` name.
pub open spec fn month_at(s: Seq<u8>, i: int) -> Option<int> {
    if letters_at(s, i, 106, 97, 110) {
        Some(1)
    } else if letters_at(s, i, 102, 101, 98) {
        Some(2)
    } else if letters_at(s, i, 109, 97, 114) {
        Some(3)
    } else if letters_at(s, i, 97, 112, 114) {
        Some(4)
    } else if letters_at(s, i, 109, 97, 121) {
        Some(5)
    } else if letters_at(s, i, 106, 117, 110) {
        Some(6)
    } else if letters_at(s, i, 106, 117, 108) {
        Some(7)
    } else if letters_at(s, i, 97, 117, 103) {
        Some(8)
    } else if letters_at(s, i, 115, 101, 112) {
        Some(9)
    } else if letters_at(s, i, 111, 99, 116) {
        Some(10)
    } else if letters_at(s, i, 110, 111, 118) {
        Some(11)
    } else if letters_at(s, i, 100, 101, 99) {
        Some(12)
    } else {
        None
    }
}

/// The zone of an RFC 822 date, which fills `s` from position `r`, as
/// minutes east of UTC: `GMT`, `UT`, `UTC`, `Z`, a North American zone
/// name, or an offset as `+hhmm` or `-hhmm`.
pub open spec fn zone_822(s: Seq<u8>, r: int) -> Option<int> {
    let n = s.len() - r;
    if n == 1 && lower(s[r]) == 122 {
        Some(0)
    } else if n == 2 && lower(s[r]) == 117 && lower(s[r + 1]) == 116 {
        Some(0)
    } else if n == 3 {
        if letters_at(s, r, 103, 109, 116) || letters_at(s, r, 117, 116, 99) {
            Some(0)
        } else if letters_at(s, r, 101, 115, 116) {
            Some(-300)
        } else if letters_at(s, r, 101, 100, 116) {
            Some(-240)
        } else if letters_at(s, r, 99, 115, 116) {
            Some(-360)
        } else if letters_at(s, r, 99, 100, 116) {
            Some(-300)
        } else if letters_at(s, r, 109, 115, 116) {
            Some(-420)
        } else if letters_at(s, r, 109, 100, 116) {
            Some(-360)
        } else if letters_at(s, r, 112, 115, 116) {
            Some(-480)
        } else if letters_at(s, r, 112, 100, 116) {
            Some(-420)
        } else {
            None
        }
    } else if n == 5 {
        signed_offset(s, r, 0)
    } else {
        None
    }
}

/// Where the day of the month begins in an RFC 822 date: behind the name
/// of the weekday, a comma and a space, where the date starts with them.
pub open spec fn day_start_822(s: Seq<u8>) -> int {
    if byte_is(s, 3, 44) && byte_is(s, 4, 32) {
        5
    } else {
        0
    }
}

/// The instant that an RFC 822 date names, if `s` is one: an optional
/// weekday, day, month name, four-digit year, time with optional seconds,
/// and a zone, with one space between them.
pub open spec fn rfc822(s: Seq<u8>) -> Option<int> {
    let p = day_start_822(s);
    let long_day = two_digits(s, p) is Some;
    let day = if long_day {
        two_digits(s, p)
    } else {
        digit_at(s, p)
    };
    let q = if long_day {
        p + 2
    } else {
        p + 1
    };
    let with_seconds = byte_is(s, q + 15, 58);
    let second = if with_seconds {
        two_digits(s, q + 16)
    } else {
        Some(0)
    };
    let r = if with_seconds {
        q + 18
    } else {
        q + 15
    };
    match (day, month_at(s, q + 1), four_digits(s, q + 5), two_digits(s, q + 10), two_digits(s, q + 13), second) {
        (Some(d), Some(m), Some(y), Some(h), Some(mi), Some(sec)) => {
            if byte_is(s, q, 32) && byte_is(s, q + 4, 32) && byte_is(s, q + 9, 32) && byte_is(
                s,
                q + 12,
                58,
            ) && byte_is(s, r, 32) && r + 1 < s.len() && valid_date(y, m, d) && valid_time(h, mi, sec) {
                match zone_822(s, r + 1) {
                    Some(offset) => Some(epoch_millis(y, m, d, h, mi, sec, 0) - offset * 60000),
                    None => None,
                }
            } else {
                None
            }
        },
        _ => None,
    }
}

/// The instant that a date in either form names.
pub open spec fn timestamp_of(s: Seq<u8>) -> Option<int> {
    match rfc3339(s) {
        Some(t) => Some(t),
        None => rfc822(s),
    }
}

/// The count of days agrees with the calendar: a year has the days of its
/// twelve months, 365 or, in a leap year, 366, and the count starts with
/// the first of January 1970.
pub proof fn lemma_year_has_its_days(y: int)
    requires
        1 <= y,
    ensures
        days_before_year(y + 1) - days_before_year(y) == days_before_month(y, 13),
        days_before_month(y, 13) == if is_leap(y) {
            366int
        } else {
            365int
        },
        days_before_year(1970) == 0,
{
    reveal_with_fuel(days_before_month, 14);
}

/// Of two instants of one day, or of two days of one month, the later one
/// has the greater count of milliseconds; and a month begins when the
/// month before it has ended.
pub proof fn lemma_epoch_millis_grows(y: int, m: int, d: int, h: int, mi: int, sec: int, ms: int)
    requires
        valid_date(y, m, d),
        valid_time(h, mi, sec),
        0 <= ms <= 999,
    ensures
        epoch_millis(y, m, d, 0, 0, 0, 0) <= epoch_millis(y, m, d, h, mi, sec, ms) < epoch_millis(
            y,
            m,
            d,
            0,
            0,
            0,
            0,
        ) + 86401000,
        epoch_millis(y, m, d + 1, 0, 0, 0, 0) == epoch_millis(y, m, d, 0, 0, 0, 0) + 86400000,
        m < 12 ==> epoch_millis(y, m + 1, 1, 0, 0, 0, 0) == epoch_millis(
            y,
            m,
            days_in_month(y, m) + 1,
            0,
            0,
            0,
            0,
        ),
        epoch_millis(y + 1, 1, 1, 0, 0, 0, 0) == epoch_millis(y, 12, 32, 0, 0, 0, 0),
{
    reveal_with_fuel(days_before_month, 14);
    lemma_year_has_its_days(y);
}

fn read_digit(s: &[u8], i: usize) -> (r: Option<i64>)
    ensures
        widen(r) == digit_at(s@, i as int),
        r matches Some(v) ==> 0 <= v <= 9,
{
    if i < s.len() && 48 <= s[i] && s[i] <= 57 {
        Some((s[i] - 48) as i64)
    } else {
        None
    }
}

fn read_two(s: &[u8], i: usize) -> (r: Option<i64>)
    requires
        i < usize::MAX,
    ensures
        widen(r) == two_digits(s@, i as int),
        r matches Some(v) ==> 0 <= v <= 99,
{
    match (read_digit(s, i), read_digit(s, i + 1)) {
        (Some(a), Some(b)) => Some(a * 10 + b),
        _ => None,
    }
}

fn read_four(s: &[u8], i: usize) -> (r: Option<i64>)
    requires
        i < usize::MAX - 3,
    ensures
        widen(r) == four_digits(s@, i as int),
        r matches Some(v) ==> 0 <= v <= 9999,
{
    match (read_two(s, i), read_two(s, i + 2)) {
        (Some(a), Some(b)) => Some(a * 100 + b),
        _ => None,
    }
}

fn has_byte(s: &[u8], i: usize, c: u8) -> (r: bool)
    ensures
        r == byte_is(s@, i as int, c),
{
    i < s.len() && s[i] == c
}

fn leap(y: i64) -> (r: bool)
    requires
        1 <= y <= 9999,
    ensures
        r == is_leap(y as int),
{
    y % 4 == 0 && (y % 100 != 0 || y % 400 == 0)
}

fn month_length(y: i64, m: i64) -> (r: i64)
    requires
        1 <= y <= 9999,
    ensures
        r == days_in_month(y as int, m as int),
        28 <= r <= 31,
{
    if m == 2 {
        if leap(y) {
            29
        } else {
            28
        }
    } else if m == 4 || m == 6 || m == 9 || m == 11 {
        30
    } else {
        31
    }
}

fn date_is_valid(y: i64, m: i64, d: i64) -> (r: bool)
    ensures
        r == valid_date(y as int, m as int, d as int),
{
    1 <= y && y <= 9999 && 1 <= m && m <= 12 && 1 <= d && d <= month_length(y, m)
}

fn time_is_valid(h: i64, mi: i64, sec: i64) -> (r: bool)
    ensures
        r == valid_time(h as int, mi as int, sec as int),
{
    0 <= h && h <= 23 && 0 <= mi && mi <= 59 && 0 <= sec && sec <= 60
}

/// Milliseconds from the epoch to an instant of UTC.
pub fn millis_from_civil(y: i64, m: i64, d: i64, h: i64, mi: i64, sec: i64, ms: i64) -> (r: i64)
    requires
        valid_date(y as int, m as int, d as int),
        valid_time(h as int, mi as int, sec as int),
        0 <= ms <= 999,
    ensures
        r == epoch_millis(y as int, m as int, d as int, h as int, mi as int, sec as int, ms as int),
        -62200000000000 <= r <= 253500000000000,
{
    let mut before: i64 = 0;
    let mut k: i64 = 1;
    while k < m
        invariant
            1 <= k <= m <= 12,
            1 <= y <= 9999,
            before == days_before_month(y as int, k as int),
            0 <= before <= 31 * (k - 1),
        decreases m - k,
    {
        before = before + month_length(y, k);
        k += 1;
    }
    let leaps = (y - 1) / 4 - (y - 1) / 100 + (y - 1) / 400;
    let days = 365 * (y - 1970) + leaps - 477 + before + (d - 1);
    (((days * 24 + h) * 60 + mi) * 60 + sec) * 1000 + ms
}

fn read_signed_offset(s: &[u8], i: usize, gap: usize) -> (r: Option<i64>)
    requires
        i <= usize::MAX - 5,
        gap <= 1,
    ensures
        widen(r) == signed_offset(s@, i as int, gap as int),
        r matches Some(v) ==> -1439 <= v <= 1439,
{
    match (read_two(s, i + 1), read_two(s, i + 3 + gap)) {
        (Some(hh), Some(mm)) => {
            if hh <= 23 && mm <= 59 {
                if has_byte(s, i, 43) {
                    Some(hh * 60 + mm)
                } else if has_byte(s, i, 45) {
                    Some(-(hh * 60 + mm))
                } else {
                    None
                }
            } else {
                None
            }
        },
        _ => None,
    }
}

fn read_zone_3339(s: &[u8], e: usize) -> (r: Option<i64>)
    requires
        e <= s@.len(),
    ensures
        widen(r) == zone_3339(s@, e as int),
        r matches Some(v) ==> -1439 <= v <= 1439,
{
    let n = s.len() - e;
    if n == 1 && (has_byte(s, e, 90) || has_byte(s, e, 122)) {
        Some(0)
    } else if n == 6 && has_byte(s, e + 3, 58) {
        read_signed_offset(s, e, 1)
    } else {
        None
    }
}

fn digit_or_zero(s: &[u8], i: usize, e: usize) -> (r: i64)
    ensures
        r == digit_before(s@, i as int, e as int),
        0 <= r <= 9,
{
    if i < e {
        match read_digit(s, i) {
            Some(v) => v,
            None => 0,
        }
    } else {
        0
    }
}

/// Reads an RFC 3339 timestamp.
pub fn parse_rfc3339(s: &[u8]) -> (r: Option<i64>)
    ensures
        widen(r) == rfc3339(s@),
{
    if s.len() < 20 {
        return None;
    }
    match (
        read_four(s, 0),
        read_two(s, 5),
        read_two(s, 8),
        read_two(s, 11),
        read_two(s, 14),
        read_two(s, 17),
    ) {
        (Some(y), Some(m), Some(d), Some(h), Some(mi), Some(sec)) => {
            if has_byte(s, 4, 45) && has_byte(s, 7, 45) && (has_byte(s, 10, 84) || has_byte(s, 10, 116)
                || has_byte(s, 10, 32)) && has_byte(s, 13, 58) && has_byte(s, 16, 58)
                && date_is_valid(y, m, d) && time_is_valid(h, mi, sec) {
                let with_fraction = has_byte(s, 19, 46);
                let mut e: usize = 19;
                if with_fraction {
                    e = 20;
                    while e < s.len() && 48 <= s[e] && s[e] <= 57
                        invariant
                            20 <= e <= s@.len(),
                            digits_end(s@, 20) == digits_end(s@, e as int),
                        decreases s@.len() - e,
                    {
                        e += 1;
                    }
                }
                let ms = digit_or_zero(s, 20, e) * 100 + digit_or_zero(s, 21, e) * 10 + digit_or_zero(
                    s,
                    22,
                    e,
                );
                if with_fraction && e == 20 {
                    None
                } else {
                    match read_zone_3339(s, e) {
                        Some(offset) => Some(millis_from_civil(y, m, d, h, mi, sec, ms) - offset * 60000),
                        None => None,
                    }
                }
            } else {
                None
            }
        },
        _ => None,
    }
}


fn has_letters(s: &[u8], i: usize, a: u8, b: u8, c: u8) -> (r: bool)
    ensures
        r == letters_at(s@, i as int, a, b, c),
{
    i < s.len() && s.len() - i >= 3 && lower_byte(s[i]) == a && lower_byte(s[i + 1]) == b && lower_byte(
        s[i + 2],
    ) == c
}

fn read_month(s: &[u8], i: usize) -> (r: Option<i64>)
    ensures
        widen(r) == month_at(s@, i as int),
        r matches Some(m) ==> 1 <= m <= 12,
{
    if has_letters(s, i, 106, 97, 110) {
        Some(1)
    } else if has_letters(s, i, 102, 101, 98) {
        Some(2)
    } else if has_letters(s, i, 109, 97, 114) {
        Some(3)
    } else if has_letters(s, i, 97, 112, 114) {
        Some(4)
    } else if has_letters(s, i, 109, 97, 121) {
        Some(5)
    } else if has_letters(s, i, 106, 117, 110) {
        Some(6)
    } else if has_letters(s, i, 106, 117, 108) {
        Some(7)
    } else if has_letters(s, i, 97, 117, 103) {
        Some(8)
    } else if has_letters(s, i, 115, 101, 112) {
        Some(9)
    } else if has_letters(s, i, 111, 99, 116) {
        Some(10)
    } else if has_letters(s, i, 110, 111, 118) {
        Some(11)
    } else if has_letters(s, i, 100, 101, 99) {
        Some(12)
    } else {
        None
    }
}

fn read_zone_822(s: &[u8], r: usize) -> (z: Option<i64>)
    requires
        r < s@.len(),
    ensures
        widen(z) == zone_822(s@, r as int),
        z matches Some(v) ==> -1439 <= v <= 1439,
{
    let n = s.len() - r;
    if n == 1 && lower_byte(s[r]) == 122 {
        Some(0)
    } else if n == 2 && lower_byte(s[r]) == 117 && lower_byte(s[r + 1]) == 116 {
        Some(0)
    } else if n == 3 {
        if has_letters(s, r, 103, 109, 116) || has_letters(s, r, 117, 116, 99) {
            Some(0)
        } else if has_letters(s, r, 101, 115, 116) {
            Some(-300)
        } else if has_letters(s, r, 101, 100, 116) {
            Some(-240)
        } else if has_letters(s, r, 99, 115, 116) {
            Some(-360)
        } else if has_letters(s, r, 99, 100, 116) {
            Some(-300)
        } else if has_letters(s, r, 109, 115, 116) {
            Some(-420)
        } else if has_letters(s, r, 109, 100, 116) {
            Some(-360)
        } else if has_letters(s, r, 112, 115, 116) {
            Some(-480)
        } else if has_letters(s, r, 112, 100, 116) {
            Some(-420)
        } else {
            None
        }
    } else if n == 5 {
        read_signed_offset(s, r, 0)
    } else {
        None
    }
}

/// Reads an RFC 822 date with a four-digit year.
pub fn parse_rfc822(s: &[u8]) -> (r: Option<i64>)
    ensures
        widen(r) == rfc822(s@),
{
    let p: usize = if has_byte(s, 3, 44) && has_byte(s, 4, 32) {
        5
    } else {
        0
    };
    let two = read_two(s, p);
    let long_day = two.is_some();
    let day = if long_day {
        two
    } else {
        read_digit(s, p)
    };
    let q: usize = if long_day {
        p + 2
    } else {
        p + 1
    };
    let with_seconds = has_byte(s, q + 15, 58);
    let second = if with_seconds {
        read_two(s, q + 16)
    } else {
        Some(0)
    };
    let r: usize = if with_seconds {
        q + 18
    } else {
        q + 15
    };
    match (day, read_month(s, q + 1), read_four(s, q + 5), read_two(s, q + 10), read_two(s, q + 13), second) {
        (Some(d), Some(m), Some(y), Some(h), Some(mi), Some(sec)) => {
            if has_byte(s, q, 32) && has_byte(s, q + 4, 32) && has_byte(s, q + 9, 32) && has_byte(
                s,
                q + 12,
                58,
            ) && has_byte(s, r, 32) && r + 1 < s.len() && date_is_valid(y, m, d) && time_is_valid(
                h,
                mi,
                sec,
            ) {
                match read_zone_822(s, r + 1) {
                    Some(offset) => Some(millis_from_civil(y, m, d, h, mi, sec, 0) - offset * 60000),
                    None => None,
                }
            } else {
                None
            }
        },
        _ => None,
    }
}

/// Reads a publication date in either form.
pub fn parse_timestamp(s: &[u8]) -> (r: Option<i64>)
    ensures
        widen(r) == timestamp_of(s@),
{
    match parse_rfc3339(s) {
        Some(t) => Some(t),
        None => parse_rfc822(s),
    }
}

} // verus!
