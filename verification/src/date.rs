//! Calendar dates held as plain year/month/day numbers, with the fixed
//! `YYYY-MM-DD` text form used both in the user interface and in the
//! persisted file.
//!
//! Validity follows the proleptic Gregorian calendar (with its leap-year
//! rule); the fixed four-digit text form restricts years to 0 through 9999.

use vstd::prelude::*;
use crate::text::str_to_chars;

verus! {

/// A calendar date, no time component.
#[derive(Clone, Copy, PartialEq, Eq, Structural, Debug)]
pub struct Date {
    pub year: u32,
    pub month: u32,
    pub day: u32,
}

pub open spec fn is_leap_year(y: int) -> bool {
    y % 4 == 0 && (y % 100 != 0 || y % 400 == 0)
}

pub open spec fn days_in_month(y: int, m: int) -> int {
    if m == 2 {
        if is_leap_year(y) {
            29
        } else {
            28
        }
    } else if m == 4 || m == 6 || m == 9 || m == 11 {
        30
    } else if 1 <= m <= 12 {
        31
    } else {
        0
    }
}

impl Date {
    /// A date is valid when it names an existing day of the proleptic
    /// Gregorian calendar and its year fits the four-digit text form.
    pub open spec fn valid(self) -> bool {
        &&& self.year <= 9999
        &&& 1 <= self.month <= 12
        &&& 1 <= self.day <= days_in_month(self.year as int, self.month as int)
    }

    pub fn is_valid(&self) -> (r: bool)
        ensures
            r == self.valid(),
    {
        self.year <= 9999 && 1 <= self.month && self.month <= 12 && 1 <= self.day
            && self.day <= month_days(self.year, self.month)
    }

    /// Strict chronological comparison.
    pub fn before(&self, other: &Date) -> (r: bool)
        ensures
            r == date_lt(*self, *other),
    {
        self.year < other.year || (self.year == other.year && self.month < other.month) || (
        self.year == other.year && self.month == other.month && self.day < other.day)
    }
}

pub fn month_days(y: u32, m: u32) -> (r: u32)
    ensures
        r as int == days_in_month(y as int, m as int),
{
    if m == 2 {
        if y % 4 == 0 && (y % 100 != 0 || y % 400 == 0) {
            29
        } else {
            28
        }
    } else if m == 4 || m == 6 || m == 9 || m == 11 {
        30
    } else if 1 <= m && m <= 12 {
        31
    } else {
        0
    }
}

/// Chronological order on dates: lexicographic on (year, month, day).
pub open spec fn date_lt(a: Date, b: Date) -> bool {
    ||| a.year < b.year
    ||| (a.year == b.year && a.month < b.month)
    ||| (a.year == b.year && a.month == b.month && a.day < b.day)
}

pub open spec fn digit_char(n: int) -> char {
    if n == 0 {
        '0'
    } else if n == 1 {
        '1'
    } else if n == 2 {
        '2'
    } else if n == 3 {
        '3'
    } else if n == 4 {
        '4'
    } else if n == 5 {
        '5'
    } else if n == 6 {
        '6'
    } else if n == 7 {
        '7'
    } else if n == 8 {
        '8'
    } else if n == 9 {
        '9'
    } else {
        '?'
    }
}

pub open spec fn digit_val(c: char) -> int {
    if c == '0' {
        0
    } else if c == '1' {
        1
    } else if c == '2' {
        2
    } else if c == '3' {
        3
    } else if c == '4' {
        4
    } else if c == '5' {
        5
    } else if c == '6' {
        6
    } else if c == '7' {
        7
    } else if c == '8' {
        8
    } else if c == '9' {
        9
    } else {
        -1
    }
}

fn to_digit_char(n: u32) -> (c: char)
    requires
        n <= 9,
    ensures
        c == digit_char(n as int),
{
    match n {
        0 => '0',
        1 => '1',
        2 => '2',
        3 => '3',
        4 => '4',
        5 => '5',
        6 => '6',
        7 => '7',
        8 => '8',
        _ => '9',
    }
}

fn digit_value(c: char) -> (r: Option<u32>)
    ensures
        match r {
            Some(v) => digit_val(c) == v as int,
            None => digit_val(c) == -1,
        },
{
    match c {
        '0' => Some(0),
        '1' => Some(1),
        '2' => Some(2),
        '3' => Some(3),
        '4' => Some(4),
        '5' => Some(5),
        '6' => Some(6),
        '7' => Some(7),
        '8' => Some(8),
        '9' => Some(9),
        _ => None,
    }
}

/// The ten characters of a date's `YYYY-MM-DD` text form.
pub open spec fn date_chars(d: Date) -> Seq<char> {
    let y = d.year as int;
    let m = d.month as int;
    let dd = d.day as int;
    seq![
        digit_char(y / 1000),
        digit_char(y / 100 % 10),
        digit_char(y / 10 % 10),
        digit_char(y % 10),
        '-',
        digit_char(m / 10),
        digit_char(m % 10),
        '-',
        digit_char(dd / 10),
        digit_char(dd % 10),
    ]
}

/// What parsing date text means: exactly ten characters shaped
/// `YYYY-MM-DD`, all digits in the digit places, naming a valid date.
/// Anything else is rejected.
pub open spec fn spec_parse_date(s: Seq<char>) -> Option<Date> {
    if s.len() == 10 && s[4] == '-' && s[7] == '-' && digit_val(s[0]) >= 0 && digit_val(s[1]) >= 0
        && digit_val(s[2]) >= 0 && digit_val(s[3]) >= 0 && digit_val(s[5]) >= 0 && digit_val(s[6])
        >= 0 && digit_val(s[8]) >= 0 && digit_val(s[9]) >= 0 {
        let d = Date {
            year: (digit_val(s[0]) * 1000 + digit_val(s[1]) * 100 + digit_val(s[2]) * 10
                + digit_val(s[3])) as u32,
            month: (digit_val(s[5]) * 10 + digit_val(s[6])) as u32,
            day: (digit_val(s[8]) * 10 + digit_val(s[9])) as u32,
        };
        if d.valid() {
            Some(d)
        } else {
            None
        }
    } else {
        None
    }
}

/// Appends the `YYYY-MM-DD` text of a valid date to `out`.
pub fn push_date_chars(out: &mut Vec<char>, d: Date)
    requires
        d.valid(),
    ensures
        final(out)@ == old(out)@ + date_chars(d),
{
    let y = d.year;
    let m = d.month;
    let dd = d.day;
    out.push(to_digit_char(y / 1000));
    out.push(to_digit_char(y / 100 % 10));
    out.push(to_digit_char(y / 10 % 10));
    out.push(to_digit_char(y % 10));
    out.push('-');
    out.push(to_digit_char(m / 10));
    out.push(to_digit_char(m % 10));
    out.push('-');
    out.push(to_digit_char(dd / 10));
    out.push(to_digit_char(dd % 10));
    proof {
        assert(out@ =~= old(out)@ + date_chars(d));
    }
}

/// Parses a vector of characters as `YYYY-MM-DD` date text.
pub fn parse_date_chars(s: &Vec<char>) -> (r: Option<Date>)
    ensures
        r == spec_parse_date(s@),
{
    if s.len() != 10 {
        return None;
    }
    if s[4] != '-' || s[7] != '-' {
        return None;
    }
    let d0 = digit_value(s[0]);
    let d1 = digit_value(s[1]);
    let d2 = digit_value(s[2]);
    let d3 = digit_value(s[3]);
    let d5 = digit_value(s[5]);
    let d6 = digit_value(s[6]);
    let d8 = digit_value(s[8]);
    let d9 = digit_value(s[9]);
    match (d0, d1, d2, d3, d5, d6, d8, d9) {
        (
            Some(a),
            Some(b),
            Some(c),
            Some(e),
            Some(m1),
            Some(m2),
            Some(g1),
            Some(g2),
        ) => {
            proof {
                lemma_digit_val_small(s@[0]);
                lemma_digit_val_small(s@[1]);
                lemma_digit_val_small(s@[2]);
                lemma_digit_val_small(s@[3]);
                lemma_digit_val_small(s@[5]);
                lemma_digit_val_small(s@[6]);
                lemma_digit_val_small(s@[8]);
                lemma_digit_val_small(s@[9]);
            }
            let d = Date {
                year: a * 1000 + b * 100 + c * 10 + e,
                month: m1 * 10 + m2,
                day: g1 * 10 + g2,
            };
            if d.is_valid() {
                Some(d)
            } else {
                None
            }
        },
        _ => None,
    }
}

/// Every digit value lies between -1 and 9.
proof fn lemma_digit_val_small(c: char)
    ensures
        -1 <= digit_val(c) <= 9,
{
}

/// Parses date text given as a string slice.
pub fn parse_date(s: &str) -> (r: Option<Date>)
    ensures
        r == spec_parse_date(s@),
{
    let v = str_to_chars(s);
    parse_date_chars(&v)
}

/// The digit characters decode back to the digits they encode.
proof fn lemma_digit_round_trip(n: int)
    requires
        0 <= n <= 9,
    ensures
        digit_val(digit_char(n)) == n,
{
}

/// Formatting a valid date and parsing the text back yields the same date.
pub proof fn lemma_date_text_round_trip(d: Date)
    requires
        d.valid(),
    ensures
        spec_parse_date(date_chars(d)) == Some(d),
{
    let s = date_chars(d);
    let y = d.year as int;
    let m = d.month as int;
    let dd = d.day as int;
    lemma_digit_round_trip(y / 1000);
    lemma_digit_round_trip(y / 100 % 10);
    lemma_digit_round_trip(y / 10 % 10);
    lemma_digit_round_trip(y % 10);
    lemma_digit_round_trip(m / 10);
    lemma_digit_round_trip(m % 10);
    lemma_digit_round_trip(dd / 10);
    lemma_digit_round_trip(dd % 10);
    assert(y / 1000 * 1000 + y / 100 % 10 * 100 + y / 10 % 10 * 10 + y % 10 == y);
    assert(m / 10 * 10 + m % 10 == m);
    assert(dd / 10 * 10 + dd % 10 == dd);
    assert(spec_parse_date(s) == Some(d));
}

} // verus!
