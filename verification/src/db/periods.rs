//! The periods of the calendar a report is grouped by.

use vstd::prelude::*;

use crate::date;
use crate::date::Date;

verus! {

/// The calendar granularity a report is grouped by.
#[derive(Clone, Copy, PartialEq, Eq, Structural, Debug)]
pub enum Grain {
    Day,
    Week,
    Month,
    Quarter,
    Year,
}

/// The first day of the period a day falls in. A week starts on Monday.
pub open spec fn period_start(day: int, grain: Grain) -> int {
    let c = date::civil(day);
    match grain {
        Grain::Day => day,
        Grain::Week => day - (day - 1) % 7,
        Grain::Month => date::day_number(c.0, c.1, 1),
        Grain::Quarter => date::day_number(c.0, (c.1 - 1) / 3 * 3 + 1, 1),
        Grain::Year => date::day_number(c.0, 1, 1),
    }
}

/// How many days the period that starts on `start` has.
pub open spec fn period_days(start: int, grain: Grain) -> int {
    let c = date::civil(start);
    match grain {
        Grain::Day => 1,
        Grain::Week => 7,
        Grain::Month => date::month_days(c.0, c.1),
        Grain::Quarter => date::month_days(c.0, c.1) + date::month_days(c.0, c.1 + 1)
            + date::month_days(c.0, c.1 + 2),
        Grain::Year => if date::leap(c.0) {
            366
        } else {
            365
        },
    }
}

/// The first day after the period that starts on `start`.
pub open spec fn next_start(start: int, grain: Grain) -> int {
    start + period_days(start, grain)
}

/// The periods from the one that starts on `start` through the one `end`
/// falls in, by their first and last days.
pub open spec fn periods(start: int, end: int, grain: Grain) -> Seq<(int, int)>
    decreases
            if end >= start {
                end - start + 1
            } else {
                0
            },
{
    if start > end {
        Seq::empty()
    } else {
        seq![(start, next_start(start, grain) - 1)] + periods(next_start(start, grain), end, grain)
    }
}

/// Do the periods that overlap the range lie in the calendar?
pub open spec fn in_calendar(range_start: int, range_end: int, grain: Grain) -> bool {
    &&& date::MIN_DAY <= period_start(range_start, grain)
    &&& period_start(range_start, grain) <= range_end ==> next_start(
        period_start(range_end, grain),
        grain,
    ) <= date::MAX_DAY
}

pub open spec fn span_views(v: Seq<(Date, Date)>) -> Seq<(int, int)> {
    v.map_values(|p: (Date, Date)| (p.0@, p.1@))
}

fn is_leap(y: i32) -> (r: bool)
    requires
        date::MIN_YEAR <= y <= date::MAX_YEAR,
    ensures
        r == date::leap(y as int),
{
    // The shift is a whole number of cycles of 400 years.
    let n: u32 = (y + 262400) as u32;
    n % 4 == 0 && (n % 100 != 0 || n % 400 == 0)
}

fn days_in_month(y: i32, m: u32) -> (r: i32)
    requires
        date::MIN_YEAR <= y <= date::MAX_YEAR,
    ensures
        r == date::month_days(y as int, m as int),
{
    if m == 2 {
        if is_leap(y) {
            29
        } else {
            28
        }
    } else if m == 4 || m == 6 || m == 9 || m == 11 {
        30
    } else {
        31
    }
}

proof fn month_starts(y: int, m: int, d: int)
    requires
        date::is_date(y, m, d),
    ensures
        date::is_civil(date::day_number(y, m, 1), (y, m, 1)),
        date::civil(date::day_number(y, m, 1)) == (y, m, 1int),
{
    assert(date::is_civil(date::day_number(y, m, 1), (y, m, 1int)));
    date::one_civil(date::day_number(y, m, 1), (y, m, 1int), date::civil(date::day_number(y, m, 1)));
}

/// A day lies in the period it falls in.
pub proof fn period_holds_its_days(day: int, grain: Grain)
    requires
        date::MIN_DAY <= day <= date::MAX_DAY,
    ensures
        period_start(day, grain) <= day < next_start(period_start(day, grain), grain),
        grain !is Week ==> date::MIN_DAY <= period_start(day, grain),
        date::MIN_DAY <= period_start(day, grain) ==> period_start(period_start(day, grain), grain)
            == period_start(day, grain),
{
    date::has_civil(day);
    let (y, m, d) = date::civil(day);
    let q = (m - 1) / 3 * 3 + 1;
    reveal_with_fuel(date::days_before_month, 13);
    date::years_in_order(date::MIN_YEAR as int, y);
    date::within_year(y, m, d);
    date::year_length(y);
    assert(date::day_number(date::MIN_YEAR as int, 1, 1) == date::MIN_DAY);
    match grain {
        Grain::Month => month_starts(y, m, d),
        Grain::Quarter => month_starts(y, q, 1),
        Grain::Year => month_starts(y, 1, 1),
        _ => {},
    }
}

proof fn year_ends(y: int)
    requires
        date::MIN_YEAR <= y <= date::MAX_YEAR,
        date::days_before_year(y + 1) < date::MAX_DAY,
    ensures
        date::is_civil(date::days_before_year(y + 1) + 1, (y + 1, 1, 1)),
{
    assert(date::days_before_year(date::MAX_YEAR + 1) == date::MAX_DAY);
}

proof fn year_total(y: int)
    ensures
        date::days_before_month(y, 12) + 31 == (if date::leap(y) {
            366int
        } else {
            365int
        }),
        date::days_before_month(y, 10) + 92 == (if date::leap(y) {
            366int
        } else {
            365int
        }),
{
    reveal_with_fuel(date::days_before_month, 13);
}

proof fn month_meets(y: int, m: int) -> (c: (int, int, int))
    requires
        date::is_date(y, m, 1),
        date::day_number(y, m, 1) + date::month_days(y, m) <= date::MAX_DAY,
    ensures
        date::is_civil(date::day_number(y, m, 1) + date::month_days(y, m), c),
        c.2 == 1,
{
    date::year_length(y);
    year_total(y);
    if m < 12 {
        (y, m + 1, 1int)
    } else {
        year_ends(y);
        (y + 1, 1int, 1int)
    }
}

proof fn quarter_meets(y: int, m: int) -> (c: (int, int, int))
    requires
        date::is_date(y, m, 1),
        m == (m - 1) / 3 * 3 + 1,
        date::day_number(y, m, 1) + date::month_days(y, m) + date::month_days(y, m + 1)
            + date::month_days(y, m + 2) <= date::MAX_DAY,
    ensures
        date::is_civil(
            date::day_number(y, m, 1) + date::month_days(y, m) + date::month_days(y, m + 1)
                + date::month_days(y, m + 2),
            c,
        ),
        c.2 == 1,
        c.1 == (c.1 - 1) / 3 * 3 + 1,
{
    date::year_length(y);
    year_total(y);
    reveal_with_fuel(date::days_before_month, 4);
    if m < 10 {
        (y, m + 3, 1int)
    } else {
        year_ends(y);
        (y + 1, 1int, 1int)
    }
}

/// The day after a period starts the next one.
pub proof fn periods_meet(start: int, grain: Grain)
    requires
        date::MIN_DAY <= start,
        period_start(start, grain) == start,
        next_start(start, grain) <= date::MAX_DAY,
    ensures
        start < next_start(start, grain),
        period_start(next_start(start, grain), grain) == next_start(start, grain),
{
    date::has_civil(start);
    let (y, m, d) = date::civil(start);
    let next = next_start(start, grain);
    match grain {
        Grain::Month => {
            month_starts(y, m, d);
            let c = month_meets(y, m);
            date::one_civil(next, c, date::civil(next));
        },
        Grain::Quarter => {
            month_starts(y, (m - 1) / 3 * 3 + 1, 1);
            let c = quarter_meets(y, m);
            date::one_civil(next, c, date::civil(next));
        },
        Grain::Year => {
            month_starts(y, 1, 1);
            date::year_length(y);
            year_ends(y);
            date::one_civil(next, (y + 1, 1int, 1int), date::civil(next));
        },
        _ => {},
    }
}

proof fn days_of_a_quarter(y: int, m: int, k: int, day: int)
    requires
        date::is_date(y, m, 1),
        m == (m - 1) / 3 * 3 + 1,
        day == date::day_number(y, m, 1) + k,
        0 <= k < date::month_days(y, m) + date::month_days(y, m + 1) + date::month_days(y, m + 2),
    ensures
        period_start(day, Grain::Quarter) == date::day_number(y, m, 1),
{
    reveal_with_fuel(date::days_before_month, 3);
    let (a, b) = (date::month_days(y, m), date::month_days(y, m + 1));
    let c = if k < a {
        (y, m, 1 + k)
    } else if k < a + b {
        (y, m + 1, 1 + k - a)
    } else {
        (y, m + 2, 1 + k - a - b)
    };
    assert(date::is_civil(day, c));
    date::one_civil(day, c, date::civil(day));
}

proof fn days_of_a_year(y: int, k: int, day: int)
    requires
        date::is_date(y, 1, 1),
        day == date::day_number(y, 1, 1) + k,
        0 <= k < (if date::leap(y) {
            366int
        } else {
            365int
        }),
        date::MIN_DAY <= day <= date::MAX_DAY,
    ensures
        period_start(day, Grain::Year) == date::day_number(y, 1, 1),
{
    date::has_civil(day);
    let (y2, m2, d2) = date::civil(day);
    date::within_year(y2, m2, d2);
    date::year_length(y);
    date::year_length(y2);
    if y2 < y {
        date::years_in_order(y2 + 1, y);
    } else if y < y2 {
        date::years_in_order(y + 1, y2);
    }
}

/// The days of a period all fall in it.
pub proof fn days_of_a_period(start: int, day: int, grain: Grain)
    requires
        date::MIN_DAY <= start,
        period_start(start, grain) == start,
        start <= day < next_start(start, grain),
        day <= date::MAX_DAY,
    ensures
        period_start(day, grain) == start,
{
    date::has_civil(start);
    let (y, m, d) = date::civil(start);
    let k = day - start;
    match grain {
        Grain::Month => {
            month_starts(y, m, d);
            assert(date::is_civil(day, (y, m, 1 + k)));
            date::one_civil(day, (y, m, 1 + k), date::civil(day));
        },
        Grain::Quarter => {
            month_starts(y, (m - 1) / 3 * 3 + 1, 1);
            days_of_a_quarter(y, m, k, day);
        },
        Grain::Year => {
            month_starts(y, 1, 1);
            days_of_a_year(y, k, day);
        },
        _ => {},
    }
}

/// The first day of the period a date falls in.
pub fn period_start_of(date: Date, grain: Grain) -> (r: Date)
    requires
        date::MIN_DAY <= period_start(date@, grain),
    ensures
        r@ == period_start(date@, grain),
{
    let n = date.number();
    proof {
        period_holds_its_days(date@, grain);
    }
    match grain {
        Grain::Day => date,
        Grain::Week => {
            // Day 1 is a Monday; the shift is a whole number of weeks.
            let since: i32 = ((n + 97999999) as u32 % 7) as i32;
            Date::from_number(n - since).unwrap()
        },
        Grain::Month => {
            let (y, m, _) = date.ymd();
            Date::from_ymd_opt(y, m, 1).unwrap()
        },
        Grain::Quarter => {
            let (y, m, _) = date.ymd();
            Date::from_ymd_opt(y, (m - 1) / 3 * 3 + 1, 1).unwrap()
        },
        Grain::Year => {
            let (y, _, _) = date.ymd();
            Date::from_ymd_opt(y, 1, 1).unwrap()
        },
    }
}

fn days_of(start: Date, grain: Grain) -> (r: i32)
    requires
        period_start(start@, grain) == start@,
    ensures
        r == period_days(start@, grain),
        1 <= r <= 366,
{
    let (y, m, _) = start.ymd();
    let n = start.number();
    proof {
        period_holds_its_days(start@, grain);
    }
    match grain {
        Grain::Day => 1,
        Grain::Week => 7,
        Grain::Month => days_in_month(y, m),
        Grain::Quarter => days_in_month(y, m) + days_in_month(y, m + 1) + days_in_month(y, m + 2),
        Grain::Year => if is_leap(y) {
            366
        } else {
            365
        },
    }
}

/// Do the periods that overlap the range lie in the calendar?
pub fn is_in_calendar(range_start: Date, range_end: Date, grain: Grain) -> (r: bool)
    ensures
        r == in_calendar(range_start@, range_end@, grain),
{
    let from: i32 = range_start.number();
    let to: i32 = range_end.number();
    proof {
        period_holds_its_days(from as int, grain);
        period_holds_its_days(to as int, grain);
    }
    if grain == Grain::Week {
        let since: i32 = ((from + 97999999) as u32 % 7) as i32;
        if from - since < date::MIN_DAY {
            return false;
        }
    }
    let first = period_start_of(range_start, grain);
    let at: i32 = first.number();
    if at > to {
        return true;
    }
    proof {
        start_in_calendar(at as int, to as int, grain);
    }
    let last = period_start_of(range_end, grain);
    last.number() + days_of(last, grain) <= date::MAX_DAY
}

/// The last day of the period that starts on `start`.
pub fn period_end_of(start: Date, grain: Grain) -> (r: Date)
    requires
        period_start(start@, grain) == start@,
        next_start(start@, grain) <= date::MAX_DAY,
    ensures
        r@ == next_start(start@, grain) - 1,
{
    let n = start.number();
    proof {
        period_holds_its_days(start@, grain);
    }
    let days: i32 = days_of(start, grain);
    Date::from_number(n + (days - 1)).unwrap()
}

pub proof fn start_in_calendar(a: int, b: int, grain: Grain)
    requires
        date::MIN_DAY <= a <= b <= date::MAX_DAY,
        period_start(a, grain) == a,
    ensures
        date::MIN_DAY <= period_start(b, grain),
{
    period_holds_its_days(b, grain);
}

proof fn starts_in_order(a: int, b: int, grain: Grain)
    requires
        date::MIN_DAY <= a <= b <= date::MAX_DAY,
        period_start(a, grain) == a,
        date::MIN_DAY <= period_start(b, grain),
    ensures
        a <= period_start(b, grain),
        next_start(a, grain) <= next_start(period_start(b, grain), grain),
{
    period_holds_its_days(b, grain);
    let s = period_start(b, grain);
    if b < next_start(a, grain) {
        days_of_a_period(a, b, grain);
    } else if s < a {
        days_of_a_period(s, a, grain);
    } else if s < next_start(a, grain) {
        days_of_a_period(a, s, grain);
    }
}

/// Every `(start, end)` period that overlaps `[range_start, range_end]`, in
/// order. The first period may begin before `range_start` and the last may end
/// after `range_end`; callers clamp the reporting date where that matters.
pub fn generate_periods(range_start: Date, range_end: Date, grain: Grain) -> (r: Vec<(Date, Date)>)
    requires
        in_calendar(range_start@, range_end@, grain),
    ensures
        span_views(r@) == periods(period_start(range_start@, grain), range_end@, grain),
{
    let first = period_start_of(range_start, grain);
    let ghost all = periods(first@, range_end@, grain);
    let mut out: Vec<(Date, Date)> = Vec::new();
    let mut start = first;
    let from: i32 = range_start.number();
    let to: i32 = range_end.number();
    let at: i32 = first.number();
    proof {
        period_holds_its_days(from as int, grain);
    }
    assert(span_views(out@) + periods(start@, range_end@, grain) =~= all);
    while start.number() <= range_end.number()
        invariant
            date::MIN_DAY <= start@ <= date::MAX_DAY,
            date::MIN_DAY <= range_end@ <= date::MAX_DAY,
            period_start(start@, grain) == start@,
            start@ <= range_end@ ==> next_start(period_start(range_end@, grain), grain)
                <= date::MAX_DAY,
            all == periods(period_start(range_start@, grain), range_end@, grain),
            span_views(out@) + periods(start@, range_end@, grain) == all,
        decreases date::MAX_DAY - start@,
    {
        let ghost before = out@;
        let ghost from = start@;
        proof {
            period_holds_its_days(range_end@, grain);
            start_in_calendar(start@, range_end@, grain);
            starts_in_order(start@, range_end@, grain);
            periods_meet(start@, grain);
        }
        let end = period_end_of(start, grain);
        out.push((start, end));
        assert(span_views(out@) =~= span_views(before).push((start@, end@)));
        start = end.succ_opt().unwrap();
        assert(span_views(out@) + periods(start@, range_end@, grain) =~= span_views(before)
            + periods(from, range_end@, grain));
    }
    assert(span_views(out@) =~= all);
    out
}

/// The periods follow one another without a gap, and each day from the first
/// one's start through `end` falls in exactly one of them, the one that starts
/// where its own period does.
pub proof fn periods_cover_the_range(start: int, end: int, grain: Grain, day: int)
    requires
        date::MIN_DAY <= start <= day <= end <= date::MAX_DAY,
        period_start(start, grain) == start,
        next_start(period_start(end, grain), grain) <= date::MAX_DAY,
    ensures
        ({
            let all = periods(start, end, grain);
            &&& all.len() > 0
            &&& all[0].0 == start
            &&& all.last().0 <= end <= all.last().1
            &&& forall|i: int| 0 < i < all.len() ==> (#[trigger] all[i]).0 == all[i - 1].1 + 1
            &&& exists|i: int|
                0 <= i < all.len() && (#[trigger] all[i]).0 == period_start(day, grain) && all[i].0
                    <= day <= all[i].1
            &&& forall|i: int|
                0 <= i < all.len() ==> ((#[trigger] all[i]).0 <= day <= all[i].1 <==> all[i].0
                    == period_start(day, grain))
        }),
    decreases end - start,
{
    let all = periods(start, end, grain);
    let next = next_start(start, grain);
    start_in_calendar(start, end, grain);
    starts_in_order(start, end, grain);
    periods_meet(start, grain);
    period_holds_its_days(end, grain);
    let rest = periods(next, end, grain);
    assert(all =~= seq![(start, next - 1)] + rest);
    assert(forall|i: int| 0 < i < all.len() ==> #[trigger] all[i] == rest[i - 1]);
    if next <= end {
        let later = if day < next {
            next
        } else {
            day
        };
        periods_cover_the_range(next, end, grain, later);
        assert(all.last() == rest.last());
        if day < next {
            days_of_a_period(start, day, grain);
            assert(all[0].0 == period_start(day, grain));
            assert forall|i: int| 0 < i < all.len() implies (#[trigger] all[i]).0 > day by {
                rest_starts_later(next, end, grain, i - 1);
            }
        } else {
            let j = choose|i: int|
                0 <= i < rest.len() && (#[trigger] rest[i]).0 == period_start(day, grain)
                    && rest[i].0 <= day <= rest[i].1;
            assert(all[j + 1] == rest[j]);
            rest_starts_later(next, end, grain, j);
        }
    } else {
        days_of_a_period(start, day, grain);
        assert(all[0].0 == period_start(day, grain));
        days_of_a_period(start, end, grain);
    }
}

pub proof fn rest_starts_later(start: int, end: int, grain: Grain, i: int)
    requires
        0 <= i < periods(start, end, grain).len(),
    ensures
        periods(start, end, grain)[i].0 >= start,
    decreases i,
{
    let next = next_start(start, grain);
    if i > 0 {
        assert(periods(start, end, grain)[i] == periods(next, end, grain)[i - 1]);
        rest_starts_later(next, end, grain, i - 1);
    }
}

/// A week starts on a Monday, which the first day of all was; a month on its
/// first day; a quarter on the first day of its first month; and a year on the
/// first of January.
pub proof fn a_period_starts_on_its_first_day(day: int, grain: Grain)
    requires
        date::MIN_DAY <= day <= date::MAX_DAY,
    ensures
        ({
            let (y, m, d) = date::civil(day);
            let start = period_start(day, grain);
            match grain {
                Grain::Day => start == day,
                Grain::Week => (start - 1) % 7 == 0 && start <= day < start + 7,
                Grain::Month => date::civil(start) == (y, m, 1int),
                Grain::Quarter => date::civil(start) == (y, if m <= 3 {
                    1int
                } else if m <= 6 {
                    4int
                } else if m <= 9 {
                    7int
                } else {
                    10int
                }, 1int),
                Grain::Year => date::civil(start) == (y, 1int, 1int),
            }
        }),
{
    date::has_civil(day);
    let (y, m, d) = date::civil(day);
    match grain {
        Grain::Month => month_starts(y, m, d),
        Grain::Quarter => month_starts(y, (m - 1) / 3 * 3 + 1, 1),
        Grain::Year => month_starts(y, 1, 1),
        _ => {},
    }
}

} // verus!
