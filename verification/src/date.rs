//! Days of the proleptic Gregorian calendar, by their number: day 1 is
//! 0001-01-01. The range is `chrono::NaiveDate`'s.

use vstd::prelude::*;

use crate::amount;
use crate::text;

use chrono::Datelike;

verus! {

pub const MIN_YEAR: i32 = -262143;

pub const MAX_YEAR: i32 = 262142;

/// The number of `MIN_YEAR`-01-01.
pub const MIN_DAY: i32 = -95746129;

/// The number of `MAX_YEAR`-12-31.
pub const MAX_DAY: i32 = 95745399;

pub open spec fn leap(y: int) -> bool {
    y % 4 == 0 && (y % 100 != 0 || y % 400 == 0)
}

pub open spec fn month_days(y: int, m: int) -> int {
    if m == 2 {
        if leap(y) {
            29
        } else {
            28
        }
    } else if m == 4 || m == 6 || m == 9 || m == 11 {
        30
    } else {
        31
    }
}

/// How many days there are before the year `y`, counted from year 1.
pub open spec fn days_before_year(y: int) -> int {
    365 * (y - 1) + (y - 1) / 4 - (y - 1) / 100 + (y - 1) / 400
}

/// How many days of the year `y` there are before its month `m`.
pub open spec fn days_before_month(y: int, m: int) -> int
    decreases m,
{
    if m <= 1 {
        0
    } else {
        days_before_month(y, m - 1) + month_days(y, m - 1)
    }
}

/// Is there such a day?
pub open spec fn is_date(y: int, m: int, d: int) -> bool {
    MIN_YEAR <= y <= MAX_YEAR && 1 <= m <= 12 && 1 <= d <= month_days(y, m)
}

pub open spec fn day_number(y: int, m: int, d: int) -> int {
    days_before_year(y) + days_before_month(y, m) + d
}

pub open spec fn is_civil(day: int, c: (int, int, int)) -> bool {
    is_date(c.0, c.1, c.2) && day_number(c.0, c.1, c.2) == day
}

/// The year, the month and the day of the month of a day.
pub open spec fn civil(day: int) -> (int, int, int) {
    choose|c: (int, int, int)| is_civil(day, c)
}

/// `2026-03-05`. A year outside 0..=9999 has its sign in front.
pub open spec fn iso(y: int, m: int, d: int) -> Seq<char> {
    let year = if 0 <= y <= 9999 {
        amount::padded(y as nat, 4)
    } else if 0 <= y {
        seq!['+'] + text::digits(y as nat)
    } else if -9999 <= y {
        seq!['-'] + amount::padded((-y) as nat, 4)
    } else {
        seq!['-'] + text::digits((-y) as nat)
    };
    year + seq!['-'] + amount::padded(m as nat, 2) + seq!['-'] + amount::padded(d as nat, 2)
}

/// How a day prints.
pub open spec fn printed(day: int) -> Seq<char> {
    iso(civil(day).0, civil(day).1, civil(day).2)
}

/// Is the format one of a year, a month and a day of the month?
pub open spec fn is_day_format(format: Seq<char>) -> bool {
    format == "%Y-%m-%d"@ || format == "%Y/%m/%d"@ || format == "%Y.%m.%d"@ || format == "%Y%m%d"@
}

/// The day `NaiveDate::parse_from_str` reads out of a text in a format of a
/// year, a month and a day of the month.
pub uninterp spec fn parsed_date(s: Seq<char>, format: Seq<char>) -> Option<i32>;

/// The day `<NaiveDate as FromStr>::from_str` reads out of a text.
pub uninterp spec fn iso_date(s: Seq<char>) -> Option<i32>;

/// `NaiveDate::from_ymd_opt`, as the day's number (`num_days_from_ce`).
#[verifier::external_body]
fn chrono_from_ymd(year: i32, month: u32, day: u32) -> (r: Option<i32>)
    ensures
        r is Some <==> is_date(year as int, month as int, day as int),
        r matches Some(n) ==> n == day_number(year as int, month as int, day as int) && MIN_DAY <= n
            <= MAX_DAY,
{
    chrono::NaiveDate::from_ymd_opt(year, month, day).map(|d| d.num_days_from_ce())
}

/// `NaiveDate::from_num_days_from_ce_opt`, as the year, the month and the day
/// of the month of the date with that number.
#[verifier::external_body]
fn chrono_from_days(number: i32) -> (r: (i32, u32, u32))
    requires
        MIN_DAY <= number <= MAX_DAY,
    ensures
        is_civil(number as int, (r.0 as int, r.1 as int, r.2 as int)),
{
    let d = chrono::NaiveDate::from_num_days_from_ce_opt(number).expect("a day in range");
    (d.year(), d.month(), d.day())
}

/// `NaiveDate::parse_from_str`, as the day's number, in a format of a year, a
/// month and a day of the month. Which texts a format takes is left to
/// `parsed_date`.
#[verifier::external_body]
fn chrono_parse(s: &str, format: &str) -> (r: Option<i32>)
    requires
        is_day_format(format@),
    ensures
        r == parsed_date(s@, format@),
        r matches Some(n) ==> MIN_DAY <= n <= MAX_DAY,
{
    chrono::NaiveDate::parse_from_str(s, format).ok().map(|d| d.num_days_from_ce())
}

/// `<NaiveDate as FromStr>::from_str`, as the day's number: it reads what a
/// date prints as. Which other texts it takes is left to `iso_date`.
#[verifier::external_body]
fn chrono_from_str(s: &str) -> (r: Option<i32>)
    ensures
        r == iso_date(s@),
        r matches Some(n) ==> MIN_DAY <= n <= MAX_DAY,
        forall|y: int, m: int, d: int|
            is_date(y, m, d) && s@ == #[trigger] iso(y, m, d) ==> r is Some && r->0 == day_number(
                y,
                m,
                d,
            ),
{
    s.parse::<chrono::NaiveDate>().ok().map(|d| d.num_days_from_ce())
}

/// The moment `<DateTime<FixedOffset> as FromStr>::from_str` reads out of a
/// text: its seconds since 1970 began, and the nanoseconds past them.
pub uninterp spec fn parsed_moment(s: Seq<char>) -> Option<(i64, u32)>;

/// `<DateTime<FixedOffset> as FromStr>::from_str`, as the moment's seconds and
/// nanoseconds. Which texts it takes is left to `parsed_moment`.
#[verifier::external_body]
fn chrono_moment(s: &str) -> (r: Option<(i64, u32)>)
    ensures
        r == parsed_moment(s@),
{
    let read = s.parse::<chrono::DateTime<chrono::FixedOffset>>();
    read.ok().map(|t| (t.timestamp(), t.timestamp_subsec_nanos()))
}

/// Does the text name a moment?
pub fn is_moment(s: &str) -> (r: bool)
    ensures
        r == (parsed_moment(s@) is Some),
{
    chrono_moment(s).is_some()
}

/// `<NaiveDate as Display>::fmt`, through `to_string`: the ISO 8601 form.
#[verifier::external_body]
fn chrono_to_string(year: i32, month: u32, day: u32) -> (r: String)
    requires
        is_date(year as int, month as int, day as int),
    ensures
        r@ == iso(year as int, month as int, day as int),
{
    chrono::NaiveDate::from_ymd_opt(year, month, day).expect("a date").to_string()
}

/// A day.
#[derive(Clone, Copy, PartialEq, Eq, PartialOrd, Ord, Hash, Debug)]
pub struct Date {
    number: i32,
}

impl View for Date {
    type V = int;

    closed spec fn view(&self) -> int {
        self.number as int
    }
}

/// The day of an option, by its number.
pub open spec fn opt(d: Option<Date>) -> Option<int> {
    match d {
        Some(d) => Some(d@),
        None => None,
    }
}

/// The day a text in ISO 8601 names.
pub open spec fn read(s: Seq<char>) -> Option<int> {
    match iso_date(s) {
        Some(n) => Some(n as int),
        None => None,
    }
}

impl Date {
    #[verifier::type_invariant]
    spec fn in_calendar(self) -> bool {
        MIN_DAY <= self.number <= MAX_DAY
    }

    /// The day of that year, month and day of the month, if there is one.
    pub fn from_ymd_opt(year: i32, month: u32, day: u32) -> (r: Option<Date>)
        ensures
            opt(r) == (if is_date(year as int, month as int, day as int) {
                Some(day_number(year as int, month as int, day as int))
            } else {
                None
            }),
    {
        match chrono_from_ymd(year, month, day) {
            Some(number) => Some(Date { number }),
            None => None,
        }
    }

    /// The day with that number, if there is one.
    pub fn from_number(number: i32) -> (r: Option<Date>)
        ensures
            opt(r) == (if MIN_DAY <= number <= MAX_DAY {
                Some(number as int)
            } else {
                None
            }),
    {
        if MIN_DAY <= number && number <= MAX_DAY {
            Some(Date { number })
        } else {
            None
        }
    }

    /// The day's number.
    pub fn number(&self) -> (r: i32)
        ensures
            r == self@,
            MIN_DAY <= r <= MAX_DAY,
    {
        proof {
            use_type_invariant(self);
        }
        self.number
    }

    /// The year, the month and the day of the month.
    pub fn ymd(&self) -> (r: (i32, u32, u32))
        ensures
            (r.0 as int, r.1 as int, r.2 as int) == civil(self@),
            is_civil(self@, (r.0 as int, r.1 as int, r.2 as int)),
    {
        proof {
            use_type_invariant(self);
        }
        let c = chrono_from_days(self.number);
        proof {
            one_civil(self@, (c.0 as int, c.1 as int, c.2 as int), civil(self@));
        }
        c
    }

    /// Reads a day in a format of a year, a month and a day of the month.
    pub fn parse(s: &str, format: &str) -> (r: Option<Date>)
        requires
            is_day_format(format@),
        ensures
            opt(r) == (match parsed_date(s@, format@) {
                Some(n) => Some(n as int),
                None => None,
            }),
    {
        match chrono_parse(s, format) {
            Some(number) => Some(Date { number }),
            None => None,
        }
    }

    /// Reads a day as ISO 8601 has it.
    pub fn from_iso(s: &str) -> (r: Option<Date>)
        ensures
            opt(r) == read(s@),
            forall|y: int, m: int, d: int|
                is_date(y, m, d) && s@ == #[trigger] iso(y, m, d) ==> r is Some && r->0@
                    == day_number(y, m, d),
    {
        match chrono_from_str(s) {
            Some(number) => Some(Date { number }),
            None => None,
        }
    }

    /// Prints the day as ISO 8601 has it.
    pub fn text(&self) -> (r: String)
        ensures
            r@ == printed(self@),
    {
        let (year, month, day) = self.ymd();
        chrono_to_string(year, month, day)
    }

    /// The day after, if there is one.
    pub fn succ_opt(&self) -> (r: Option<Date>)
        ensures
            opt(r) == after(self@),
    {
        proof {
            use_type_invariant(self);
        }
        if self.number < MAX_DAY {
            Some(Date { number: self.number + 1 })
        } else {
            None
        }
    }

    /// The day before, if there is one.
    pub fn pred_opt(&self) -> (r: Option<Date>)
        ensures
            opt(r) == before(self@),
    {
        proof {
            use_type_invariant(self);
        }
        if self.number > MIN_DAY {
            Some(Date { number: self.number - 1 })
        } else {
            None
        }
    }
}

/// The day after, if there is one.
pub open spec fn after(day: int) -> Option<int> {
    if day < MAX_DAY {
        Some(day + 1)
    } else {
        None
    }
}

/// The day before, if there is one.
pub open spec fn before(day: int) -> Option<int> {
    if day > MIN_DAY {
        Some(day - 1)
    } else {
        None
    }
}

pub proof fn year_length(y: int)
    ensures
        days_before_year(y + 1) - days_before_year(y) == 365 + (if leap(y) {
            1int
        } else {
            0int
        }),
{
}

pub proof fn years_in_order(a: int, b: int)
    requires
        a <= b,
    ensures
        days_before_year(a) <= days_before_year(b),
    decreases b - a,
{
    if a < b {
        years_in_order(a, b - 1);
        year_length(b - 1);
    }
}

pub proof fn within_year(y: int, m: int, d: int)
    requires
        is_date(y, m, d),
    ensures
        1 <= days_before_month(y, m) + d <= 365 + (if leap(y) {
            1int
        } else {
            0int
        }),
{
    reveal_with_fuel(days_before_month, 13);
}

proof fn months_in_order(y: int, a: int, b: int)
    requires
        1 <= a < b <= 12,
    ensures
        days_before_month(y, a) + month_days(y, a) <= days_before_month(y, b),
    decreases b - a,
{
    if a + 1 < b {
        months_in_order(y, a, b - 1);
    }
}

/// A day has one year, month and day of the month.
pub proof fn one_civil(day: int, a: (int, int, int), b: (int, int, int))
    requires
        is_civil(day, a),
        is_civil(day, b),
    ensures
        a == b,
{
    within_year(a.0, a.1, a.2);
    within_year(b.0, b.1, b.2);
    if a.0 < b.0 {
        years_in_order(a.0 + 1, b.0);
        year_length(a.0);
    } else if b.0 < a.0 {
        years_in_order(b.0 + 1, a.0);
        year_length(b.0);
    } else if a.1 < b.1 {
        months_in_order(a.0, a.1, b.1);
    } else if b.1 < a.1 {
        months_in_order(a.0, b.1, a.1);
    }
}

/// Every day in range has a year, a month and a day of the month.
pub proof fn has_civil(day: int)
    requires
        MIN_DAY <= day <= MAX_DAY,
    ensures
        is_civil(day, civil(day)),
    decreases day - MIN_DAY,
{
    reveal_with_fuel(days_before_month, 13);
    if day == MIN_DAY {
        assert(is_civil(day, (MIN_YEAR as int, 1int, 1int)));
    } else {
        has_civil(day - 1);
        let (y, m, d) = civil(day - 1);
        if d < month_days(y, m) {
            assert(is_civil(day, (y, m, d + 1)));
        } else if m < 12 {
            assert(is_civil(day, (y, m + 1, 1int)));
        } else {
            year_length(y);
            assert(day_number(MAX_YEAR as int, 12, 31) == MAX_DAY);
            assert(is_civil(day, (y + 1, 1int, 1int)));
        }
    }
}

} // verus!
