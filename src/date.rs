//! Calendar dates in the proleptic Gregorian calendar, their `YYYY-MM-DD`
//! text form, and the `DD/MM/YYYY` form read from the command line.
use vstd::prelude::*;
use chrono::Datelike;

verus! {

pub open spec fn is_leap(y: int) -> bool {
    (y % 4 == 0 && y % 100 != 0) || y % 400 == 0
}

pub open spec fn days_in_month(y: int, m: int) -> int {
    if m == 2 {
        if is_leap(y) { 29 } else { 28 }
    } else if m == 4 || m == 6 || m == 9 || m == 11 {
        30
    } else {
        31
    }
}

pub open spec fn digit_char(d: int) -> char {
    if d == 0 { '0' } else if d == 1 { '1' } else if d == 2 { '2' } else if d == 3 { '3' }
    else if d == 4 { '4' } else if d == 5 { '5' } else if d == 6 { '6' } else if d == 7 { '7' }
    else if d == 8 { '8' } else { '9' }
}

pub open spec fn is_digit(c: char) -> bool {
    '0' <= c && c <= '9'
}

pub open spec fn digit_value(c: char) -> int {
    c as int - '0' as int
}

pub open spec fn two_digits(n: int) -> Seq<char> {
    seq![digit_char(n / 10), digit_char(n % 10)]
}

pub open spec fn four_digits(n: int) -> Seq<char> {
    seq![digit_char(n / 1000), digit_char(n / 100 % 10), digit_char(n / 10 % 10), digit_char(n % 10)]
}

/// The date that a `YYYY-MM-DD` text names, if it is one.
pub open spec fn iso_date(s: Seq<char>) -> Option<Date> {
    if s.len() == 10 && s[4] == '-' && s[7] == '-' && is_digit(s[0]) && is_digit(s[1])
        && is_digit(s[2]) && is_digit(s[3]) && is_digit(s[5]) && is_digit(s[6])
        && is_digit(s[8]) && is_digit(s[9]) {
        date_of(
            digit_value(s[0]) * 1000 + digit_value(s[1]) * 100 + digit_value(s[2]) * 10
                + digit_value(s[3]),
            digit_value(s[5]) * 10 + digit_value(s[6]),
            digit_value(s[8]) * 10 + digit_value(s[9]),
        )
    } else {
        None
    }
}

/// A decimal digit as a one-character text.
fn digit_text(d: u32) -> (r: &'static str)
    requires
        d < 10,
    ensures
        r@ == seq![digit_char(d as int)],
{
    if d == 0 {
        proof { reveal_strlit("0"); }
        "0"
    } else if d == 1 {
        proof { reveal_strlit("1"); }
        "1"
    } else if d == 2 {
        proof { reveal_strlit("2"); }
        "2"
    } else if d == 3 {
        proof { reveal_strlit("3"); }
        "3"
    } else if d == 4 {
        proof { reveal_strlit("4"); }
        "4"
    } else if d == 5 {
        proof { reveal_strlit("5"); }
        "5"
    } else if d == 6 {
        proof { reveal_strlit("6"); }
        "6"
    } else if d == 7 {
        proof { reveal_strlit("7"); }
        "7"
    } else if d == 8 {
        proof { reveal_strlit("8"); }
        "8"
    } else {
        proof { reveal_strlit("9"); }
        "9"
    }
}

/// The value of the digit at position `i` of `s`, if it is a digit.
fn digit_at(s: &str, i: usize) -> (r: Option<u32>)
    requires
        i < s@.len(),
    ensures
        r == (if is_digit(s@[i as int]) { Some(digit_value(s@[i as int]) as u32) } else { None }),
{
    let c: char = s.get_char(i);
    if '0' <= c && c <= '9' {
        Some((c as u32) - ('0' as u32))
    } else {
        None
    }
}

/// A calendar day with a four-digit year.
#[derive(Clone, Copy, Debug, PartialEq, Eq, Structural, Hash)]
pub struct Date {
    pub year: u32,
    pub month: u32,
    pub day: u32,
}

/// Whether the three numbers name a real day with a four-digit year.
pub open spec fn valid_ymd(y: int, m: int, d: int) -> bool {
    0 <= y <= 9999 && 1 <= m <= 12 && 1 <= d <= days_in_month(y, m)
}

pub open spec fn date_of(y: int, m: int, d: int) -> Option<Date> {
    if valid_ymd(y, m, d) {
        Some(Date { year: y as u32, month: m as u32, day: d as u32 })
    } else {
        None
    }
}

impl Date {
    pub open spec fn wf(self) -> bool {
        valid_ymd(self.year as int, self.month as int, self.day as int)
    }

    /// A number that orders dates chronologically.
    pub open spec fn key(self) -> int {
        self.year * 10000 + self.month * 100 + self.day
    }

    pub open spec fn in_month(self, y: int, m: int) -> bool {
        self.year == y && self.month == m
    }

    /// The day named by year, month and day, if there is one.
    pub fn new(year: i32, month: u32, day: u32) -> (r: Option<Date>)
        ensures
            r == date_of(year as int, month as int, day as int),
    {
        if year < 0 || year > 9999 || month < 1 || month > 12 || day < 1 {
            return None;
        }
        let y: u32 = year as u32;
        let leap: bool = (y % 4 == 0 && y % 100 != 0) || y % 400 == 0;
        let last: u32 = if month == 2 {
            if leap { 29 } else { 28 }
        } else if month == 4 || month == 6 || month == 9 || month == 11 {
            30
        } else {
            31
        };
        if day > last {
            None
        } else {
            Some(Date { year: y, month, day })
        }
    }

    /// The `YYYY-MM-DD` text of the date.
    pub open spec fn iso(self) -> Seq<char> {
        four_digits(self.year as int) + seq!['-'] + two_digits(self.month as int) + seq!['-']
            + two_digits(self.day as int)
    }

    /// Renders the date as `YYYY-MM-DD`, the key of its row in the table.
    pub fn to_iso(&self) -> (r: String)
        requires
            self.wf(),
        ensures
            r@ == self.iso(),
    {
        proof { reveal_strlit("-"); }
        let mut r = String::new();
        r.append(digit_text(self.year / 1000));
        r.append(digit_text(self.year / 100 % 10));
        r.append(digit_text(self.year / 10 % 10));
        r.append(digit_text(self.year % 10));
        r.append("-");
        r.append(digit_text(self.month / 10));
        r.append(digit_text(self.month % 10));
        r.append("-");
        r.append(digit_text(self.day / 10));
        r.append(digit_text(self.day % 10));
        assert(r@ =~= self.iso());
        r
    }

    /// Reads a `YYYY-MM-DD` text; `None` where it names no date.
    pub fn parse_iso(s: &str) -> (r: Option<Date>)
        ensures
            r == iso_date(s@),
    {
        if s.unicode_len() != 10 || s.get_char(4) != '-' || s.get_char(7) != '-' {
            return None;
        }
        let d0 = digit_at(s, 0);
        let d1 = digit_at(s, 1);
        let d2 = digit_at(s, 2);
        let d3 = digit_at(s, 3);
        let d5 = digit_at(s, 5);
        let d6 = digit_at(s, 6);
        let d8 = digit_at(s, 8);
        let d9 = digit_at(s, 9);
        match (d0, d1, d2, d3, d5, d6, d8, d9) {
            (Some(a), Some(b), Some(c), Some(d), Some(e), Some(f), Some(g), Some(h)) => {
                let y: u32 = a * 1000 + b * 100 + c * 10 + d;
                Date::new(y as i32, e * 10 + f, g * 10 + h)
            },
            _ => None,
        }
    }

    /// Whether `self` comes strictly before `other`.
    pub fn is_before(&self, other: &Date) -> (r: bool)
        requires
            self.wf(),
            other.wf(),
        ensures
            r == (self.key() < other.key()),
    {
        self.year < other.year || (self.year == other.year && (self.month < other.month || (
        self.month == other.month && self.day < other.day)))
    }

    /// Whether `self` lies in month `month` of year `year`.
    pub fn is_in_month(&self, year: u32, month: u32) -> (r: bool)
        ensures
            r == self.in_month(year as int, month as int),
    {
        self.year == year && self.month == month
    }
}

/// The part of `s` from position `i` on that follows the first `=`, or the
/// whole of `s` where no `=` stands there.
pub open spec fn value_from(s: Seq<char>, i: int) -> Seq<char>
    decreases s.len() - i,
{
    if i < 0 || i >= s.len() {
        s
    } else if s[i] == '=' {
        s.subrange(i + 1, s.len() as int)
    } else {
        value_from(s, i + 1)
    }
}

/// The value of an `option=value` argument: what follows its first `=`, or
/// the whole argument where it holds none.
pub open spec fn arg_value(s: Seq<char>) -> Seq<char> {
    value_from(s, 0)
}

/// Returns what follows the first `=` of `arg`, or `arg` itself where it has
/// no `=`.
pub fn extract_date(arg: &str) -> (r: &str)
    ensures
        r@ == arg_value(arg@),
{
    let n: usize = arg.unicode_len();
    let mut i: usize = 0;
    while i < n
        invariant
            n == arg@.len(),
            i <= n,
            value_from(arg@, 0) == value_from(arg@, i as int),
        decreases n - i,
    {
        if arg.get_char(i) == '=' {
            return arg.substring_char(i + 1, n);
        }
        i = i + 1;
    }
    arg
}

/// What chrono's `NaiveDate::parse_from_str(s, "%d/%m/%Y")` reads from `s`, as
/// (year, month, day), or `None` where it fails.
pub uninterp spec fn dmy_of(s: Seq<char>) -> Option<(int, int, int)>;

/// Relies on chrono's `NaiveDate::parse_from_str` with the pattern
/// `%d/%m/%Y`, and on `NaiveDate` holding only real days of the proleptic
/// Gregorian calendar (its month is 1 to 12, its day within the month).
#[verifier::external_body]
fn parse_dmy(s: &str) -> (r: Option<(i32, u32, u32)>)
    ensures
        match r {
            Some((y, m, d)) => dmy_of(s@) == Some((y as int, m as int, d as int)) && 1 <= m <= 12
                && 1 <= d <= days_in_month(y as int, m as int),
            None => dmy_of(s@) is None,
        },
{
    match chrono::NaiveDate::parse_from_str(s, "%d/%m/%Y") {
        Ok(d) => Some((d.year(), d.month(), d.day())),
        Err(_) => None,
    }
}

/// The day that an argument such as `--day=24/04/2023` names.
pub open spec fn day_arg(arg: Seq<char>) -> Option<Date> {
    match dmy_of(arg_value(arg)) {
        Some((y, m, d)) => date_of(y, m, d),
        None => None,
    }
}

/// Reads the `DD/MM/YYYY` value of an argument such as `--day=24/04/2023`;
/// `None` where it names no day with a four-digit year.
pub fn parse_day_arg(arg: &str) -> (r: Option<Date>)
    ensures
        r == day_arg(arg@),
{
    let v = extract_date(arg);
    match parse_dmy(v) {
        Some((y, m, d)) => Date::new(y, m, d),
        None => None,
    }
}

proof fn lemma_digit(k: int)
    requires
        0 <= k < 10,
    ensures
        is_digit(digit_char(k)),
        digit_value(digit_char(k)) == k,
{
}

proof fn lemma_four(y: int)
    requires
        0 <= y <= 9999,
    ensures
        0 <= y / 1000 < 10,
        0 <= y / 100 % 10 < 10,
        0 <= y / 10 % 10 < 10,
        0 <= y % 10 < 10,
        y == (y / 1000) * 1000 + (y / 100 % 10) * 100 + (y / 10 % 10) * 10 + y % 10,
{
    assert(y == (y / 1000) * 1000 + (y / 100 % 10) * 100 + (y / 10 % 10) * 10 + y % 10)
        by (nonlinear_arith)
        requires
            0 <= y <= 9999,
    ;
}

proof fn lemma_two(n: int)
    requires
        0 <= n <= 99,
    ensures
        0 <= n / 10 < 10,
        0 <= n % 10 < 10,
        n == (n / 10) * 10 + n % 10,
{
}

/// Every real date reads back from its `YYYY-MM-DD` text unchanged.
pub proof fn law_iso_round_trip(d: Date)
    requires
        d.wf(),
    ensures
        iso_date(d.iso()) == Some(d),
{
    let s = d.iso();
    let (y, m, dd) = (d.year as int, d.month as int, d.day as int);
    let (a, b, c, e) = (y / 1000, y / 100 % 10, y / 10 % 10, y % 10);
    lemma_four(y);
    lemma_two(m);
    lemma_two(dd);
    lemma_digit(a);
    lemma_digit(b);
    lemma_digit(c);
    lemma_digit(e);
    lemma_digit(m / 10);
    lemma_digit(m % 10);
    lemma_digit(dd / 10);
    lemma_digit(dd % 10);
    assert(s[0] == digit_char(a) && s[1] == digit_char(b) && s[2] == digit_char(c) && s[3]
        == digit_char(e));
    assert(s[4] == '-' && s[7] == '-' && s.len() == 10);
    assert(s[5] == digit_char(m / 10) && s[6] == digit_char(m % 10));
    assert(s[8] == digit_char(dd / 10) && s[9] == digit_char(dd % 10));
}

} // verus!
