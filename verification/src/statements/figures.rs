//! What a statement promises: its lines carry one balance to the next, and its
//! figures are those of its days.

use vstd::prelude::*;

use crate::amount;
use crate::amount::Dec;
use crate::assertion::{AssertionSource, AssertionV};
use crate::date;
use crate::statements::bank;
use crate::statements::bank::{Bank, LineV, PeriodV, StatementV};

verus! {

/// Are the lines by ascending day?
pub open spec fn ascending(lines: Seq<LineV>) -> bool {
    forall|i: int, j: int|
        0 <= i < j < lines.len() ==> (#[trigger] lines[i]).book_date <= (
        #[trigger] lines[j]).book_date
}

/// Is nothing rounded in a line's effect and the balance before it?
pub open spec fn is_exact(l: LineV) -> bool {
    &&& amount::takes_exactly(l.deposit, l.withdrawal)
    &&& bank::delta(l) matches Some(d) ==> amount::takes_exactly(l.balance, d)
}

/// Where nothing is rounded, a line moves its deposit less its withdrawal, and
/// takes the balance before it to its own by that.
pub proof fn a_line_moves_what_it_says(l: LineV)
    requires
        is_exact(l),
        bank::balance_before(l) is Some,
    ensures
        bank::delta(l) matches Some(d) && amount::worth(d) == amount::worth(l.deposit)
            - amount::worth(l.withdrawal),
        amount::worth(bank::balance_before(l)->0) + amount::worth(l.deposit) - amount::worth(
            l.withdrawal,
        ) == amount::worth(l.balance),
{
}

/// Does every line start from the balance of the line before it?
pub open spec fn carries_over(lines: Seq<LineV>) -> bool {
    forall|i: int|
        #![trigger lines[i]]
        0 < i < lines.len() ==> (bank::balance_before(lines[i]) matches Some(b) && amount::worth(b)
            == amount::worth(lines[i - 1].balance))
}

/// What the lines move together.
pub open spec fn moved(lines: Seq<LineV>) -> int
    decreases lines.len(),
{
    if lines.len() == 0 {
        0
    } else {
        moved(lines.drop_last()) + amount::worth(lines.last().deposit) - amount::worth(
            lines.last().withdrawal,
        )
    }
}

/// Where nothing is rounded and every line starts from the balance before it, a
/// statement opens on what its lines take to its last balance.
pub proof fn a_statement_opens_on_what_its_lines_carry(s: StatementV)
    requires
        s.lines.len() > 0,
        carries_over(s.lines),
        bank::opening_balance(s) is Some,
        forall|i: int| 0 <= i < s.lines.len() ==> is_exact(#[trigger] s.lines[i]),
    ensures
        amount::worth(bank::opening_balance(s)->0) + moved(s.lines) == amount::worth(
            s.lines.last().balance,
        ),
    decreases s.lines.len(),
{
    a_line_moves_what_it_says(s.lines[0]);
    carried_through(s.lines, s.lines.len() as int);
    assert(s.lines.take(s.lines.len() as int) =~= s.lines);
}

proof fn carried_through(lines: Seq<LineV>, n: int)
    requires
        0 < n <= lines.len(),
        carries_over(lines),
        bank::balance_before(lines[0]) is Some,
        forall|i: int| 0 <= i < lines.len() ==> is_exact(#[trigger] lines[i]),
    ensures
        amount::worth(bank::balance_before(lines[0])->0) + moved(lines.take(n)) == amount::worth(
            lines[n - 1].balance,
        ),
    decreases n,
{
    assert(lines.take(n).drop_last() =~= lines.take(n - 1));
    assert(lines.take(n).last() == lines[n - 1]);
    assert(is_exact(lines[n - 1]));
    a_line_moves_what_it_says(lines[n - 1]);
    if n > 1 {
        carried_through(lines, n - 1);
        assert(amount::worth(bank::balance_before(lines[n - 1])->0) == amount::worth(
            lines[n - 2].balance,
        ));
    } else {
        assert(moved(lines.take(0)) == 0);
    }
}

/// A statement closes on what its last period closes on, or without periods on
/// its last line's balance.
pub proof fn a_statement_closes_on_its_last_balance(s: StatementV)
    ensures
        s.periods.len() > 0 ==> bank::closing_balance(s) == s.periods[s.periods.len() - 1].closing,
        s.periods.len() == 0 && s.lines.len() > 0 ==> bank::closing_balance(s)
            == s.lines[s.lines.len() - 1].balance,
        s.periods.len() == 0 && s.lines.len() == 0 ==> amount::worth(bank::closing_balance(s)) == 0,
{
    amount::zero_worth(amount::zero());
}

proof fn first_after_splits(lines: Seq<LineV>, day: int)
    requires
        ascending(lines),
    ensures
        0 <= bank::first_after(lines, day) <= lines.len(),
        forall|i: int|
            0 <= i < bank::first_after(lines, day) ==> (#[trigger] lines[i]).book_date <= day,
        forall|i: int|
            bank::first_after(lines, day) <= i < lines.len() ==> (#[trigger] lines[i]).book_date
                > day,
    decreases lines.len(),
{
    if lines.len() > 0 && lines[0].book_date <= day {
        let rest = lines.skip(1);
        assert forall|i: int, j: int| 0 <= i < j < rest.len() implies (
        #[trigger] rest[i]).book_date <= (#[trigger] rest[j]).book_date by {
            assert(lines[i + 1].book_date <= lines[j + 1].book_date);
        }
        first_after_splits(rest, day);
        let n = bank::first_after(rest, day);
        assert forall|i: int| 0 <= i < n + 1 implies (#[trigger] lines[i]).book_date <= day by {
            if i > 0 {
                assert(rest[i - 1] == lines[i]);
            }
        }
        assert forall|i: int| n + 1 <= i < lines.len() implies (#[trigger] lines[i]).book_date
            > day by {
            assert(rest[i - 1] == lines[i]);
        }
    } else if lines.len() > 0 {
        assert forall|i: int| 0 <= i < lines.len() implies (#[trigger] lines[i]).book_date > day by {
            if i > 0 {
                assert(lines[0].book_date <= lines[i].book_date);
            }
        }
    }
}

/// The lines after a day.
pub open spec fn lines_after(lines: Seq<LineV>, day: int) -> Seq<LineV> {
    lines.filter(|l: LineV| l.book_date > day)
}

proof fn what_is_after(lines: Seq<LineV>, day: int)
    requires
        ascending(lines),
    ensures
        lines.skip(bank::first_after(lines, day)) == lines_after(lines, day),
{
    first_after_splits(lines, day);
    let n = bank::first_after(lines, day);
    let f = |l: LineV| l.book_date > day;
    let (head, tail) = (lines.take(n), lines.skip(n));
    assert(lines =~= head + tail);
    Seq::filter_distributes_over_add(head, tail, f);
    head.lemma_all_neg_filter_empty(f);
    all_are_kept(tail, f);
    assert(lines.filter(f) =~= tail);
}

proof fn all_are_kept(lines: Seq<LineV>, f: spec_fn(LineV) -> bool)
    requires
        forall|i: int| 0 <= i < lines.len() ==> f(#[trigger] lines[i]),
    ensures
        lines.filter(f) == lines,
    decreases lines.len(),
{
    reveal(Seq::filter);
    if lines.len() > 0 {
        assert forall|i: int| 0 <= i < lines.drop_last().len() implies f(
            #[trigger] lines.drop_last()[i],
        ) by {
            assert(lines.drop_last()[i] == lines[i]);
        }
        all_are_kept(lines.drop_last(), f);
        assert(f(lines[lines.len() - 1]));
        assert(lines.filter(f) =~= lines);
    } else {
        assert(lines.filter(f) =~= lines);
    }
}

/// A statement cut at a day keeps the lines from that day on, and all else but
/// its periods.
pub proof fn a_cut_keeps_the_lines_from_its_day(s: StatementV, day: int)
    requires
        ascending(s.lines),
    ensures
        ({
            let after = bank::cut(s, day);
            &&& after.lines == s.lines.filter(|l: LineV| l.book_date >= day)
            &&& after.bank == s.bank
            &&& after.account_no == s.account_no
            &&& after.account_kind == s.account_kind
            &&& after.currency == s.currency
            &&& after.period_end == s.period_end
        }),
{
    what_is_after(s.lines, day - 1);
    let f = |l: LineV| l.book_date > day - 1;
    let g = |l: LineV| l.book_date >= day;
    same_filter(s.lines, f, g);
}

proof fn same_filter(lines: Seq<LineV>, f: spec_fn(LineV) -> bool, g: spec_fn(LineV) -> bool)
    requires
        forall|l: LineV| #[trigger] f(l) == g(l),
    ensures
        lines.filter(f) == lines.filter(g),
    decreases lines.len(),
{
    reveal(Seq::filter);
    if lines.len() > 0 {
        same_filter(lines.drop_last(), f, g);
        assert(f(lines.last()) == g(lines.last()));
    }
}

/// The periods that reach a day.
pub open spec fn reaching(periods: Seq<PeriodV>, day: int) -> Seq<PeriodV> {
    periods.filter(|p: PeriodV| p.end >= day)
}

/// Is `q` what a cut at `day`, which keeps the lines `kept`, leaves of `p`?
pub open spec fn is_left_of(q: PeriodV, p: PeriodV, kept: Seq<LineV>, day: int) -> bool {
    &&& q.end == p.end
    &&& q.closing == p.closing
    &&& p.start >= day ==> q.start == p.start && q.opening == p.opening
    &&& p.start < day ==> {
        &&& q.start == day
        &&& kept.len() > 0 && kept[0].book_date <= p.end ==> q.opening == bank::balance_before(
            kept[0],
        )->0
        &&& kept.len() == 0 || kept[0].book_date > p.end ==> q.opening == p.closing
    }
}

/// A statement cut at a day keeps the periods that reach it; the one it falls
/// in starts there, on the balance before the first line kept.
pub proof fn a_cut_keeps_the_periods_that_reach_its_day(s: StatementV, day: int)
    ensures
        ({
            let after = bank::cut(s, day);
            let all = reaching(s.periods, day);
            &&& after.periods.len() == all.len()
            &&& forall|i: int|
                0 <= i < all.len() ==> is_left_of(
                    #[trigger] after.periods[i],
                    all[i],
                    after.lines,
                    day,
                )
        }),
{
    periods_are_left(s.periods, bank::cut(s, day).lines, day);
}

proof fn periods_are_left(periods: Seq<PeriodV>, kept: Seq<LineV>, day: int)
    ensures
        ({
            let after = bank::periods_from(periods, kept, day);
            let all = reaching(periods, day);
            &&& after.len() == all.len()
            &&& forall|i: int|
                0 <= i < all.len() ==> is_left_of(#[trigger] after[i], all[i], kept, day)
        }),
    decreases periods.len(),
{
    reveal(Seq::filter);
    if periods.len() > 0 {
        periods_are_left(periods.drop_last(), kept, day);
    }
}

/// The periods that reach past a day.
pub open spec fn past(periods: Seq<PeriodV>, after: int) -> Seq<PeriodV> {
    periods.filter(|p: PeriodV| p.end > after)
}

/// Does a figure vouch for a period: its closing, and its opening where it
/// begins after a day?
pub open spec fn vouches_for(a: AssertionV, p: PeriodV, after: int) -> bool {
    &&& a.period_end == p.end
    &&& a.closing == p.closing
    &&& p.start > after ==> a.period_start == Some(p.start) && a.opening == Some(p.opening)
    &&& p.start <= after ==> a.period_start is None && a.opening is None
}

/// Is a figure the statement's own, on the account?
pub open spec fn is_of(a: AssertionV, s: StatementV, account: Seq<char>) -> bool {
    &&& a.source == AssertionSource::Statement
    &&& a.account == account
    &&& a.currency == s.currency
}

/// A statement with periods vouches for each that reaches past a day.
pub proof fn a_statement_vouches_for_its_periods(s: StatementV, account: Seq<char>, after: int)
    requires
        s.periods.len() > 0,
    ensures
        ({
            let figures = bank::figures(s, account, after);
            let all = past(s.periods, after);
            &&& figures.len() == all.len()
            &&& forall|i: int|
                0 <= i < all.len() ==> is_of(#[trigger] figures[i], s, account) && vouches_for(
                    figures[i],
                    all[i],
                    after,
                )
        }),
{
    periods_are_vouched_for(s, account, s.periods, after);
}

proof fn periods_are_vouched_for(
    s: StatementV,
    account: Seq<char>,
    periods: Seq<PeriodV>,
    after: int,
)
    ensures
        ({
            let figures = bank::period_figures(account, s.currency, periods, after);
            let all = past(periods, after);
            &&& figures.len() == all.len()
            &&& forall|i: int|
                0 <= i < all.len() ==> is_of(#[trigger] figures[i], s, account) && vouches_for(
                    figures[i],
                    all[i],
                    after,
                )
        }),
    decreases periods.len(),
{
    reveal(Seq::filter);
    if periods.len() > 0 {
        periods_are_vouched_for(s, account, periods.drop_last(), after);
    }
}

/// Is `b` the balance at the end of a day: that of the last line dated through
/// it?
pub open spec fn ends_on(lines: Seq<LineV>, day: int, b: Dec) -> bool {
    exists|i: int|
        0 <= i < lines.len() && (#[trigger] lines[i]).book_date <= day && (i + 1 < lines.len()
            ==> lines[i + 1].book_date > day) && amount::worth(lines[i].balance) == amount::worth(b)
}

/// A download vouches for what it holds after a day, where each line starts
/// from the balance before it: from the day of its first line there, on the
/// balance before that line, through the last day it holds in full, on the
/// balance of the last line through that day. Where it holds no day there in
/// full, it vouches for the balance before the first line alone. With no line
/// there it vouches for nothing.
pub proof fn a_download_vouches_for_its_days(s: StatementV, account: Seq<char>, after: int)
    requires
        s.periods.len() == 0,
        ascending(s.lines),
        carries_over(s.lines),
    ensures
        ({
            let figures = bank::figures(s, account, after);
            let all = lines_after(s.lines, after);
            let end = bank::settled_through(s);
            if all.len() == 0 {
                figures.len() == 0
            } else {
                let a = figures[0];
                let before = bank::balance_before(all[0])->0;
                &&& figures.len() == 1
                &&& is_of(a, s, account)
                &&& if all[0].book_date <= end {
                    &&& a.period_start == Some(all[0].book_date)
                    &&& a.opening == Some(before)
                    &&& a.period_end == end
                    &&& ends_on(s.lines, end, a.closing)
                } else {
                    &&& a.period_start is None
                    &&& a.opening is None
                    &&& a.period_end == all[0].book_date - 1
                    &&& a.closing == before
                }
            }
        }),
{
    let lines = s.lines;
    let end = bank::settled_through(s);
    what_is_after(lines, after);
    first_after_splits(lines, after);
    first_after_splits(lines, end);
    let all = lines_after(lines, after);
    let from = bank::first_after(lines, after);
    if all.len() > 0 {
        assert(all[0] == lines[from]);
        if lines[from].book_date <= end {
            let n = bank::first_after(lines, end);
            assert(n > from);
            assert(lines[n - 1].book_date <= end);
            if n < lines.len() {
                assert(bank::balance_before(lines[n]) is Some);
            }
            assert(ends_on(lines, end, bank::figures(s, account, after)[0].closing));
        }
    }
}

/// A download holds every day in full before the last of its range, or through
/// it where the bank makes no more of it; without a range, through its last
/// line.
pub proof fn a_download_is_settled_through(s: StatementV)
    ensures
        s.period_end matches Some(end) ==> match s.bank {
            Bank::Cathay => bank::settled_through(s) == end - 1,
            Bank::LineBank => end < date::MAX_DAY ==> bank::settled_through(s) == end,
        },
        s.period_end is None && s.lines.len() > 0 ==> bank::settled_through(s)
            == s.lines[s.lines.len() - 1].book_date,
{
}

/// The closing balance is asserted after every line and after every day the
/// statement holds in full, and no later than needed.
pub proof fn a_closing_is_asserted_after_its_lines(s: StatementV)
    requires
        s.lines.len() > 0,
        s.lines.last().book_date < date::MAX_DAY,
        s.period_end matches Some(end) ==> end < date::MAX_DAY,
    ensures
        bank::assert_date(s) > s.lines[s.lines.len() - 1].book_date,
        bank::assert_date(s) > bank::settled_through(s),
        bank::assert_date(s) == s.lines[s.lines.len() - 1].book_date + 1 || bank::assert_date(s)
            == bank::settled_through(s) + 1,
{
}

/// A line that undoes another one is of its day and gives back what it took.
pub proof fn a_reversal_gives_back_what_was_taken(bank: Bank, debit: LineV, line: LineV)
    requires
        bank::cancels(bank, debit, line),
    ensures
        debit.book_date == line.book_date,
        bank == Bank::Cathay ==> line.withdrawal.negative && amount::worth(debit.withdrawal)
            == -amount::worth(line.withdrawal),
        bank == Bank::LineBank ==> (bank::delta(debit) matches Some(out) && (bank::delta(
            line,
        ) matches Some(back) && out.negative && amount::worth(out) == -amount::worth(back))),
{
    amount::negated_worth(line.withdrawal);
    if let Some(back) = bank::delta(line) {
        amount::negated_worth(back);
    }
}

/// A statement with periods covers the days from the start of its first through
/// the end of its last, and one without covers every day.
pub proof fn a_statement_covers_its_periods(s: StatementV, day: int)
    ensures
        s.periods.len() == 0 ==> bank::covers(s, day),
        s.periods.len() > 0 ==> (bank::covers(s, day) <==> s.periods[0].start <= day && day
            <= s.periods[s.periods.len() - 1].end),
        s.periods.len() > 0 ==> bank::start(s) == s.periods[0].start,
        s.periods.len() == 0 && s.lines.len() > 0 ==> bank::start(s) == s.lines[0].book_date,
{
}

} // verus!
