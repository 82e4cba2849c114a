//! Calendar dates as the table format stores them: a four-digit year,
//! a month and a day, rendered and parsed in `YYYY-MM-DD` form.

use vstd::prelude::*;

verus! {

/// A calendar date in the proleptic Gregorian calendar. The table format
/// renders the year with four digits, so a representable year is at most
/// 9999; `valid` also demands a real calendar day (leap years included).
#[derive(Clone, Copy, PartialEq, Eq, Structural, Debug)]
pub struct Date {
    pub year: u32,
    pub month: u32,
    pub day: u32,
}

pub open spec fn is_leap_year(y: int) -> bool {
    y % 4 == 0 && (y % 100 != 0 || y % 400 == 0)
}

pub open spec fn days_in_month(y: int, m: int) -> int {
    if m == 2 {
        if is_leap_year(y) {
            29
        } else {
            28
        }
    } else if m == 4 || m == 6 || m == 9 || m == 11 {
        30
    } else {
        31
    }
}

impl Date {
    pub open spec fn valid(self) -> bool {
        &&& self.year <= 9999
        &&& 1 <= self.month <= 12
        &&& 1 <= self.day <= days_in_month(self.year as int, self.month as int)
    }

    /// Chronological order: lexicographic on (year, month, day).
    pub open spec fn spec_le(self, other: Date) -> bool {
        ||| self.year < other.year
        ||| (self.year == other.year && self.month < other.month)
        ||| (self.year == other.year && self.month == other.month && self.day <= other.day)
    }

    pub fn le(&self, other: &Date) -> (r: bool)
        ensures
            r == self.spec_le(*other),
    {
        if self.year != other.year {
            self.year < other.year
        } else if self.month != other.month {
            self.month < other.month
        } else {
            self.day <= other.day
        }
    }

    /// Builds a date after checking that it denotes a real calendar day
    /// with a four-digit year.
    pub fn new(year: u32, month: u32, day: u32) -> (r: Option<Date>)
        ensures
            r is Some <==> (Date { year, month, day }).valid(),
            r is Some ==> r->0 == (Date { year, month, day }),
    {
        let d = Date { year, month, day };
        if year <= 9999 && 1 <= month && month <= 12 && 1 <= day && day
            <= days_in_month_of(year, month) {
            Some(d)
        } else {
            None
        }
    }
}

pub fn days_in_month_of(year: u32, month: u32) -> (r: u32)
    requires
        1 <= month <= 12,
    ensures
        r == days_in_month(year as int, month as int),
{
    if month == 2 {
        if year % 4 == 0 && (year % 100 != 0 || year % 400 == 0) {
            29
        } else {
            28
        }
    } else if month == 4 || month == 6 || month == 9 || month == 11 {
        30
    } else {
        31
    }
}

pub open spec fn digit_char(n: int) -> char {
    if n == 0 {
        '0'
    } else if n == 1 {
        '1'
    } else if n == 2 {
        '2'
    } else if n == 3 {
        '3'
    } else if n == 4 {
        '4'
    } else if n == 5 {
        '5'
    } else if n == 6 {
        '6'
    } else if n == 7 {
        '7'
    } else if n == 8 {
        '8'
    } else {
        '9'
    }
}

pub open spec fn is_digit(c: char) -> bool {
    c == '0' || c == '1' || c == '2' || c == '3' || c == '4' || c == '5' || c == '6' || c == '7'
        || c == '8' || c == '9'
}

pub open spec fn digit_val(c: char) -> int {
    if c == '0' {
        0
    } else if c == '1' {
        1
    } else if c == '2' {
        2
    } else if c == '3' {
        3
    } else if c == '4' {
        4
    } else if c == '5' {
        5
    } else if c == '6' {
        6
    } else if c == '7' {
        7
    } else if c == '8' {
        8
    } else {
        9
    }
}

/// The ten characters `YYYY-MM-DD` that render a date in the table.
pub open spec fn fmt_date(d: Date) -> Seq<char> {
    seq![
        digit_char(d.year as int / 1000 % 10),
        digit_char(d.year as int / 100 % 10),
        digit_char(d.year as int / 10 % 10),
        digit_char(d.year as int % 10),
        '-',
        digit_char(d.month as int / 10 % 10),
        digit_char(d.month as int % 10),
        '-',
        digit_char(d.day as int / 10 % 10),
        digit_char(d.day as int % 10),
    ]
}

/// What a date field of a stored row must look like to be accepted:
/// exactly `YYYY-MM-DD` with decimal digits, denoting a real calendar day.
pub open spec fn parse_date(s: Seq<char>) -> Option<Date> {
    if s.len() == 10 && is_digit(s[0]) && is_digit(s[1]) && is_digit(s[2]) && is_digit(s[3]) && s[4]
        == '-' && is_digit(s[5]) && is_digit(s[6]) && s[7] == '-' && is_digit(s[8]) && is_digit(
        s[9],
    ) {
        let d = Date {
            year: (digit_val(s[0]) * 1000 + digit_val(s[1]) * 100 + digit_val(s[2]) * 10
                + digit_val(s[3])) as u32,
            month: (digit_val(s[5]) * 10 + digit_val(s[6])) as u32,
            day: (digit_val(s[8]) * 10 + digit_val(s[9])) as u32,
        };
        if d.valid() {
            Some(d)
        } else {
            None
        }
    } else {
        None
    }
}

fn digit_value(c: char) -> (r: Option<u32>)
    ensures
        r is Some <==> is_digit(c),
        r is Some ==> r->0 == digit_val(c),
{
    match c {
        '0' => Some(0),
        '1' => Some(1),
        '2' => Some(2),
        '3' => Some(3),
        '4' => Some(4),
        '5' => Some(5),
        '6' => Some(6),
        '7' => Some(7),
        '8' => Some(8),
        '9' => Some(9),
        _ => None,
    }
}

fn digit_str(n: u32) -> (r: &'static str)
    requires
        n <= 9,
    ensures
        r@ =~= seq![digit_char(n as int)],
{
    proof {
        reveal_strlit("0");
        reveal_strlit("1");
        reveal_strlit("2");
        reveal_strlit("3");
        reveal_strlit("4");
        reveal_strlit("5");
        reveal_strlit("6");
        reveal_strlit("7");
        reveal_strlit("8");
        reveal_strlit("9");
    }
    if n == 0 {
        "0"
    } else if n == 1 {
        "1"
    } else if n == 2 {
        "2"
    } else if n == 3 {
        "3"
    } else if n == 4 {
        "4"
    } else if n == 5 {
        "5"
    } else if n == 6 {
        "6"
    } else if n == 7 {
        "7"
    } else if n == 8 {
        "8"
    } else {
        "9"
    }
}

/// Renders a date as the ten characters `YYYY-MM-DD`.
pub fn format_date(d: &Date) -> (r: String)
    requires
        d.valid(),
    ensures
        r@ == fmt_date(*d),
{
    proof {
        reveal_strlit("-");
    }
    let mut r = String::new();
    r.append(digit_str(d.year / 1000 % 10));
    r.append(digit_str(d.year / 100 % 10));
    r.append(digit_str(d.year / 10 % 10));
    r.append(digit_str(d.year % 10));
    r.append("-");
    r.append(digit_str(d.month / 10 % 10));
    r.append(digit_str(d.month % 10));
    r.append("-");
    r.append(digit_str(d.day / 10 % 10));
    r.append(digit_str(d.day % 10));
    proof {
        assert(r@ =~= fmt_date(*d));
    }
    r
}

/// Parses a date field of a stored row; returns `None` exactly on text
/// that is not a well-formed `YYYY-MM-DD` calendar day.
pub fn parse_date_str(s: &str) -> (r: Option<Date>)
    ensures
        r == parse_date(s@),
{
    let n = s.unicode_len();
    if n != 10 {
        return None;
    }
    let d0 = digit_value(s.get_char(0));
    let d1 = digit_value(s.get_char(1));
    let d2 = digit_value(s.get_char(2));
    let d3 = digit_value(s.get_char(3));
    let d5 = digit_value(s.get_char(5));
    let d6 = digit_value(s.get_char(6));
    let d8 = digit_value(s.get_char(8));
    let d9 = digit_value(s.get_char(9));
    if s.get_char(4) != '-' || s.get_char(7) != '-' {
        return None;
    }
    match (d0, d1, d2, d3, d5, d6, d8, d9) {
        (
            Some(y0),
            Some(y1),
            Some(y2),
            Some(y3),
            Some(m0),
            Some(m1),
            Some(a0),
            Some(a1),
        ) => {
            let year = y0 * 1000 + y1 * 100 + y2 * 10 + y3;
            let month = m0 * 10 + m1;
            let day = a0 * 10 + a1;
            Date::new(year, month, day)
        },
        _ => None,
    }
}

proof fn lemma_two_digits(m: int)
    requires
        0 <= m <= 99,
    ensures
        m == m / 10 % 10 * 10 + m % 10,
{
    vstd::arithmetic::div_mod::lemma_fundamental_div_mod(m, 10);
    assert(m / 10 <= 9) by {
        vstd::arithmetic::div_mod::lemma_div_is_ordered(m, 99, 10);
    }
    assert(m / 10 >= 0) by {
        vstd::arithmetic::div_mod::lemma_div_pos_is_pos(m, 10);
    }
    vstd::arithmetic::div_mod::lemma_small_mod((m / 10) as nat, 10);
}

proof fn lemma_four_digits(y: int)
    requires
        0 <= y <= 9999,
    ensures
        y == y / 1000 % 10 * 1000 + y / 100 % 10 * 100 + y / 10 % 10 * 10 + y % 10,
{
    vstd::arithmetic::div_mod::lemma_fundamental_div_mod(y, 10);
    vstd::arithmetic::div_mod::lemma_div_denominator(y, 10, 10);
    vstd::arithmetic::div_mod::lemma_fundamental_div_mod(y / 10, 10);
    vstd::arithmetic::div_mod::lemma_div_denominator(y, 100, 10);
    vstd::arithmetic::div_mod::lemma_fundamental_div_mod(y / 100, 10);
    assert(y / 1000 <= 9) by {
        vstd::arithmetic::div_mod::lemma_div_is_ordered(y, 9999, 1000);
    }
    assert(y / 1000 >= 0) by {
        vstd::arithmetic::div_mod::lemma_div_pos_is_pos(y, 1000);
    }
    vstd::arithmetic::div_mod::lemma_small_mod((y / 1000) as nat, 10);
}

proof fn lemma_digit_char_val(n: int)
    requires
        0 <= n <= 9,
    ensures
        is_digit(digit_char(n)),
        digit_val(digit_char(n)) == n,
{
}

/// A rendered valid date parses back to the same date.
#[verifier::rlimit(50)]
pub proof fn lemma_date_round_trip(d: Date)
    requires
        d.valid(),
    ensures
        parse_date(fmt_date(d)) == Some(d),
{
    let s = fmt_date(d);
    let y = d.year as int;
    let mo = d.month as int;
    let da = d.day as int;
    lemma_digit_char_val(y / 1000 % 10);
    lemma_digit_char_val(y / 100 % 10);
    lemma_digit_char_val(y / 10 % 10);
    lemma_digit_char_val(y % 10);
    lemma_digit_char_val(mo / 10 % 10);
    lemma_digit_char_val(mo % 10);
    lemma_digit_char_val(da / 10 % 10);
    lemma_digit_char_val(da % 10);
    assert(digit_val(s[0]) == y / 1000 % 10 && digit_val(s[1]) == y / 100 % 10 && digit_val(s[2])
        == y / 10 % 10 && digit_val(s[3]) == y % 10);
    assert(digit_val(s[5]) == mo / 10 % 10 && digit_val(s[6]) == mo % 10);
    assert(digit_val(s[8]) == da / 10 % 10 && digit_val(s[9]) == da % 10);
    lemma_four_digits(y);
    lemma_two_digits(mo);
    lemma_two_digits(da);
    assert(digit_val(s[0]) * 1000 + digit_val(s[1]) * 100 + digit_val(s[2]) * 10 + digit_val(s[3])
        == y);
    assert(digit_val(s[5]) * 10 + digit_val(s[6]) == mo);
    assert(digit_val(s[8]) * 10 + digit_val(s[9]) == da);
    assert(parse_date(s) == Some(d));
}

} // verus!
