//! Whether a plan chains onto the ledger's balances day by day.

use vstd::prelude::*;

use crate::amount;
use crate::amount::{Amount, Dec};
use crate::currency;
use crate::currency::Currency;
use crate::date;
use crate::date::Date;
use crate::model;
use crate::model::{HeldV, LedgerPosting, PostingV, Transaction, TransactionV};
use crate::plan::held;
use crate::plan::held::{LandingV, Statement};
use crate::plan::pairs;
use crate::refusal;
use crate::refusal::Refusal;
use crate::sort;
use crate::sort::{Key, KeyV};
use crate::statements::bank;
use crate::statements::bank::{LineV, StatementLine};
use crate::text;

verus! {

/// A day and an amount.
pub open spec fn move_views(v: Seq<(Date, Amount)>) -> Seq<(int, Dec)> {
    v.map_values(|m: (Date, Amount)| (m.0@, m.1@))
}

pub open spec fn date_keys(v: Seq<(int, Dec)>) -> Seq<KeyV> {
    v.map_values(|m: (int, Dec)| KeyV { text: Seq::empty(), numbers: (m.0, 0, 0, 0) })
}

/// In the order of their days; those of one day as they stood.
pub open spec fn by_date(v: Seq<(int, Dec)>) -> Seq<(int, Dec)> {
    sort::arranged(v, sort::order(date_keys(v)))
}

/// No day stands before an earlier one.
pub open spec fn in_order(v: Seq<(int, Dec)>) -> bool {
    forall|i: int, j: int| 0 <= i < j < v.len() ==> (#[trigger] v[i]).0 <= (#[trigger] v[j]).0
}

/// What is sorted by day is in order.
pub proof fn by_date_in_order(v: Seq<(int, Dec)>)
    ensures
        in_order(by_date(v)),
        by_date(v).len() == v.len(),
{
    let keys = date_keys(v);
    sort::order_is_a_permutation(keys);
    assert forall|i: int, j: int| 0 <= i < j < v.len() implies (#[trigger] by_date(v)[i]).0 <= (
    #[trigger] by_date(v)[j]).0 by {
        sort::order_sorts(keys, i, j);
        assert(by_date(v)[i] == v[sort::order(keys)[i]]);
        assert(by_date(v)[j] == v[sort::order(keys)[j]]);
    }
}

fn sort_by_date(v: Vec<(Date, Amount)>) -> (r: Vec<(Date, Amount)>)
    ensures
        move_views(r@) == by_date(move_views(v@)),
{
    let ghost all = move_views(v@);
    let mut keyed: Vec<(Key, (Date, Amount))> = Vec::new();
    let mut i: usize = 0;
    while i < v.len()
        invariant
            i <= v@.len(),
            all == move_views(v@),
            keyed@.len() == i,
            forall|j: int|
                0 <= j < i ==> (#[trigger] keyed@[j]).1 == v@[j] && keyed@[j].0@
                    == date_keys(all)[j],
        decreases v@.len() - i,
    {
        let m = v[i];
        let key = Key { text: String::new(), numbers: (m.0.number() as i64, 0, 0, 0) };
        assert(all[i as int] == (m.0@, m.1@));
        assert(key@.text =~= Seq::empty());
        keyed.push((key, m));
        i = i + 1;
    }
    assert(sort::keys_of(keyed@) =~= date_keys(all));
    let ghost ord = sort::order(date_keys(all));
    let sorted = sort::sort(keyed);
    proof {
        sort::order_is_a_permutation(date_keys(all));
    }
    let mut out: Vec<(Date, Amount)> = Vec::new();
    let mut j: usize = 0;
    assert(move_views(out@) =~= by_date(all).take(0));
    while j < sorted.len()
        invariant
            j <= sorted@.len(),
            sorted@.len() == v@.len() == keyed@.len() == ord.len() == all.len(),
            all == move_views(v@),
            ord == sort::order(date_keys(all)),
            sorted@ == sort::arranged(keyed@, ord),
            forall|x: int| 0 <= x < ord.len() ==> 0 <= #[trigger] ord[x] < ord.len(),
            forall|x: int| 0 <= x < keyed@.len() ==> (#[trigger] keyed@[x]).1 == v@[x],
            move_views(out@) == by_date(all).take(j as int),
        decreases sorted@.len() - j,
    {
        let ghost before = out@;
        let m = sorted[j].1;
        assert(sorted@[j as int] == keyed@[ord[j as int]]);
        assert(by_date(all)[j as int] == all[ord[j as int]]);
        out.push(m);
        assert(move_views(out@) =~= move_views(before).push((m.0@, m.1@)));
        assert(by_date(all).take(j as int + 1) =~= by_date(all).take(j as int).push(
            by_date(all)[j as int],
        ));
        j = j + 1;
    }
    assert(by_date(all).take(j as int) =~= by_date(all));
    out
}

/// The amounts added up in order.
pub open spec fn total(moves: Seq<(int, Dec)>) -> Option<Dec>
    decreases moves.len(),
{
    if moves.len() == 0 {
        Some(amount::zero())
    } else {
        match total(moves.drop_last()) {
            Some(b) => amount::sum(b, moves.last().1),
            None => None,
        }
    }
}

/// The amounts through the end of `day` added up in order.
pub open spec fn through(moves: Seq<(int, Dec)>, day: int) -> Option<Dec>
    decreases moves.len(),
{
    if moves.len() == 0 {
        Some(amount::zero())
    } else {
        let before = through(moves.drop_last(), day);
        if moves.last().0 <= day {
            match before {
                Some(b) => amount::sum(b, moves.last().1),
                None => None,
            }
        } else {
            before
        }
    }
}

proof fn through_is_a_prefix(moves: Seq<(int, Dec)>, day: int, n: int)
    requires
        0 <= n <= moves.len(),
        forall|i: int| 0 <= i < n ==> (#[trigger] moves[i]).0 <= day,
        forall|i: int| n <= i < moves.len() ==> (#[trigger] moves[i]).0 > day,
    ensures
        through(moves, day) == total(moves.take(n)),
    decreases moves.len(),
{
    if moves.len() > 0 {
        let shorter = moves.drop_last();
        assert forall|i: int| 0 <= i < shorter.len() implies #[trigger] shorter[i] == moves[i] by {}
        if n < moves.len() {
            through_is_a_prefix(shorter, day, n);
            assert(shorter.take(n) =~= moves.take(n));
        } else {
            through_is_a_prefix(shorter, day, n - 1);
            assert(shorter.take(n - 1) =~= moves.take(n).drop_last());
            assert(moves.take(n) =~= moves);
        }
    } else {
        assert(moves.take(n) =~= moves);
    }
}

proof fn no_total_stays(moves: Seq<(int, Dec)>, n: int)
    requires
        0 <= n <= moves.len(),
        total(moves.take(n)) is None,
    ensures
        total(moves) is None,
    decreases moves.len(),
{
    if n == moves.len() {
        assert(moves.take(n) =~= moves);
    } else {
        assert(moves.drop_last().take(n) =~= moves.take(n));
        no_total_stays(moves.drop_last(), n);
    }
}

/// The day a transaction moves to.
pub open spec fn redate_of(redated: Seq<(int, int)>, id: int) -> Option<int>
    decreases redated.len(),
{
    if redated.len() == 0 {
        None
    } else if redated.last().0 == id {
        Some(redated.last().1)
    } else {
        redate_of(redated.drop_last(), id)
    }
}

pub open spec fn redate_views(v: Seq<(i64, Date)>) -> Seq<(int, int)> {
    v.map_values(|e: (i64, Date)| (e.0 as int, e.1@))
}

/// The day a transaction moves to.
pub(crate) fn find_redate(redated: &Vec<(i64, Date)>, id: i64) -> (r: Option<Date>)
    ensures
        date::opt(r) == redate_of(redate_views(redated@), id as int),
{
    let ghost all = redate_views(redated@);
    let mut n: usize = redated.len();
    assert(all.take(n as int) =~= all);
    while n > 0
        invariant
            n <= redated@.len(),
            all == redate_views(redated@),
            redate_of(all, id as int) == redate_of(all.take(n as int), id as int),
        decreases n,
    {
        assert(all.take(n as int).last() == (redated@[n - 1].0 as int, redated@[n - 1].1@));
        assert(all.take(n as int).drop_last() =~= all.take(n - 1));
        if redated[n - 1].0 == id {
            return Some(redated[n - 1].1);
        }
        n = n - 1;
    }
    None
}

/// What the ledger holds moves, on the day it is moved to where it is.
pub open spec fn held_moves(existing: Seq<HeldV>, redated: Seq<(int, int)>) -> Seq<(int, Dec)> {
    existing.map_values(
        |p: HeldV|
            (
                match redate_of(redated, p.transaction_id) {
                    Some(day) => day,
                    None => p.date,
                },
                p.amount,
            ),
    )
}

/// What the legs of a transaction of `day` on the account move.
pub open spec fn leg_moves(
    postings: Seq<PostingV>,
    day: int,
    account: Seq<char>,
    c: Currency,
) -> Seq<(int, Dec)>
    decreases postings.len(),
{
    if postings.len() == 0 {
        Seq::empty()
    } else {
        let before = leg_moves(postings.drop_last(), day, account, c);
        let p = postings.last();
        if p.account == account && p.currency == c {
            before.push((day, p.amount))
        } else {
            before
        }
    }
}

/// What the planned transactions move on the account.
pub open spec fn planned_moves(
    planned: Seq<TransactionV>,
    account: Seq<char>,
    c: Currency,
) -> Seq<(int, Dec)>
    decreases planned.len(),
{
    if planned.len() == 0 {
        Seq::empty()
    } else {
        let t = planned.last();
        planned_moves(planned.drop_last(), account, c) + leg_moves(t.postings, t.date, account, c)
    }
}

/// Is one of `moves` on `day`?
pub open spec fn moves_on(moves: Seq<(int, Dec)>, day: int) -> bool {
    exists|i: int| 0 <= i < moves.len() && (#[trigger] moves[i]).0 == day
}

/// The balance of each line dated after `opening`, with its day.
pub open spec fn stated(lines: Seq<LineV>, opening: int) -> Seq<(int, Dec)>
    decreases lines.len(),
{
    if lines.len() == 0 {
        Seq::empty()
    } else {
        let before = stated(lines.drop_last(), opening);
        let l = lines.last();
        if l.book_date > opening {
            before.push((l.book_date, l.balance))
        } else {
            before
        }
    }
}

/// Is the balance at `i` the last of its day?
pub open spec fn ends_day(days: Seq<(int, Dec)>, i: int) -> bool {
    i + 1 >= days.len() || days[i + 1].0 != days[i].0
}

/// What an import is refused with whose day does not end on the statement's
/// balance.
pub open spec fn broken(s: LandingV, day: int, balance: Dec, want: Dec) -> Seq<char> {
    s.account + " "@ + currency::code(s.statement.currency) + ": the ledger would end "@
        + date::printed(day) + " at "@ + amount::printed(balance) + " but the statement says "@
        + amount::printed(want)
        + ". A download starts mid-day, overlaps one already imported unevenly, or one is missing; nothing was imported"@
}

/// Does every one of the first `n` days, but for `skip`, end on the
/// statement's balance?
pub open spec fn days_hold(
    s: LandingV,
    days: Seq<(int, Dec)>,
    moves: Seq<(int, Dec)>,
    skip: Option<int>,
    n: int,
) -> Result<(), Seq<char>>
    decreases n,
{
    if n <= 0 {
        Ok(())
    } else {
        match days_hold(s, days, moves, skip, n - 1) {
            Err(e) => Err(e),
            Ok(_) => {
                let (day, want) = days[n - 1];
                if !ends_day(days, n - 1) {
                    Ok(())
                } else {
                    match through(moves, day) {
                        None => Err(refusal::out_of_range()),
                        Some(balance) => if Some(day) != skip && !amount::equal(balance, want) {
                            Err(broken(s, day, balance, want))
                        } else {
                            Ok(())
                        },
                    }
                }
            },
        }
    }
}

/// The last day, where it adds nothing and is not settled: a stale partial
/// download re-imported proves nothing, as the ledger may hold the rest of it.
pub open spec fn skipped(s: LandingV, planned: Seq<TransactionV>) -> Option<int> {
    let last = s.statement.lines.last().book_date;
    if last > bank::settled_through(s.statement) && !moves_on(
        planned_moves(planned, s.account, s.statement.currency),
        last,
    ) {
        Some(last)
    } else {
        None
    }
}

/// Does every statement day after `opening`, with the plan on top of the
/// ledger, end on the statement's own running balance?
pub open spec fn chained(
    s: LandingV,
    opening: int,
    planned: Seq<TransactionV>,
    redated: Seq<(int, int)>,
) -> Result<(), Seq<char>> {
    let days = by_date(stated(s.statement.lines, opening));
    let moves = by_date(
        held_moves(s.existing, redated) + planned_moves(planned, s.account, s.statement.currency),
    );
    days_hold(s, days, moves, skipped(s, planned), days.len() as int)
}

/// Do the first `n` statements chain?
pub open spec fn all_chained(
    ls: Seq<LandingV>,
    openings: Seq<int>,
    planned: Seq<TransactionV>,
    redated: Seq<(int, int)>,
    n: int,
) -> Result<(), Seq<char>>
    decreases n,
{
    if n <= 0 {
        Ok(())
    } else {
        match all_chained(ls, openings, planned, redated, n - 1) {
            Err(e) => Err(e),
            Ok(_) => chained(ls[n - 1], openings[n - 1], planned, redated),
        }
    }
}

pub open spec fn planned_views(v: Seq<(usize, Transaction)>) -> Seq<TransactionV> {
    v.map_values(|e: (usize, Transaction)| e.1@)
}

pub(crate) fn planned_moves_of(
    planned: &Vec<(usize, Transaction)>,
    account: &str,
    currency: Currency,
) -> (r: Vec<(Date, Amount)>)
    ensures
        move_views(r@) == planned_moves(planned_views(planned@), account@, currency),
{
    let ghost all = planned_views(planned@);
    let mut out: Vec<(Date, Amount)> = Vec::new();
    assert(move_views(out@) =~= Seq::empty());
    let mut i: usize = 0;
    while i < planned.len()
        invariant
            i <= planned@.len(),
            all == planned_views(planned@),
            move_views(out@) == planned_moves(all.take(i as int), account@, currency),
        decreases planned@.len() - i,
    {
        let t = &planned[i].1;
        let ghost before = move_views(out@);
        let ghost legs = t@.postings;
        assert(all.take(i as int + 1).drop_last() =~= all.take(i as int));
        assert(all.take(i as int + 1).last() == t@);
        assert(before + leg_moves(legs.take(0), t@.date, account@, currency) =~= before);
        let mut j: usize = 0;
        while j < t.postings.len()
            invariant
                j <= t.postings@.len(),
                legs == model::posting_views(t.postings@),
                move_views(out@) == before + leg_moves(
                    legs.take(j as int),
                    t@.date,
                    account@,
                    currency,
                ),
            decreases t.postings@.len() - j,
        {
            let ghost done = out@;
            let p = &t.postings[j];
            assert(legs[j as int] == p@);
            assert(legs.take(j as int + 1).drop_last() =~= legs.take(j as int));
            if text::same_text(p.account.as_str(), account) && p.currency == currency {
                out.push((t.date, p.amount));
                assert(move_views(out@) =~= move_views(done).push((t@.date, p@.amount)));
                assert(move_views(out@) =~= before + leg_moves(
                    legs.take(j as int + 1),
                    t@.date,
                    account@,
                    currency,
                ));
            }
            j = j + 1;
        }
        assert(legs.take(j as int) =~= legs);
        i = i + 1;
    }
    assert(all.take(i as int) =~= all);
    out
}

fn stated_of(lines: &Vec<StatementLine>, opening: Date) -> (r: Vec<(Date, Amount)>)
    ensures
        move_views(r@) == stated(bank::line_views(lines@), opening@),
{
    let ghost all = bank::line_views(lines@);
    let mut out: Vec<(Date, Amount)> = Vec::new();
    assert(move_views(out@) =~= Seq::empty());
    let mut i: usize = 0;
    while i < lines.len()
        invariant
            i <= lines@.len(),
            all == bank::line_views(lines@),
            move_views(out@) == stated(all.take(i as int), opening@),
        decreases lines@.len() - i,
    {
        let ghost before = out@;
        let l = &lines[i];
        assert(all[i as int] == l@);
        assert(all.take(i as int + 1).drop_last() =~= all.take(i as int));
        if l.book_date.number() > opening.number() {
            out.push((l.book_date, l.balance));
            assert(move_views(out@) =~= move_views(before).push((l@.book_date, l@.balance)));
        }
        i = i + 1;
    }
    assert(all.take(i as int) =~= all);
    out
}

fn held_moves_of(existing: &Vec<LedgerPosting>, redated: &Vec<(i64, Date)>) -> (r: Vec<
    (Date, Amount),
>)
    ensures
        move_views(r@) == held_moves(model::held_views(existing@), redate_views(redated@)),
{
    let ghost all = held_moves(model::held_views(existing@), redate_views(redated@));
    let mut out: Vec<(Date, Amount)> = Vec::new();
    assert(move_views(out@) =~= all.take(0));
    let mut i: usize = 0;
    while i < existing.len()
        invariant
            i <= existing@.len(),
            all == held_moves(model::held_views(existing@), redate_views(redated@)),
            move_views(out@) == all.take(i as int),
        decreases existing@.len() - i,
    {
        let ghost before = out@;
        let p = &existing[i];
        assert(model::held_views(existing@)[i as int] == p@);
        let day = match find_redate(redated, p.transaction_id) {
            Some(day) => day,
            None => p.date,
        };
        out.push((day, p.amount));
        assert(move_views(out@) =~= move_views(before).push((day@, p@.amount)));
        assert(all.take(i as int + 1) =~= all.take(i as int).push(all[i as int]));
        i = i + 1;
    }
    assert(all.take(i as int) =~= all);
    out
}

fn is_moved_on(moves: &Vec<(Date, Amount)>, day: Date) -> (r: bool)
    ensures
        r == moves_on(move_views(moves@), day@),
{
    let ghost all = move_views(moves@);
    let mut i: usize = 0;
    while i < moves.len()
        invariant
            i <= moves@.len(),
            all == move_views(moves@),
            forall|j: int| 0 <= j < i ==> (#[trigger] all[j]).0 != day@,
        decreases moves@.len() - i,
    {
        assert(all[i as int].0 == moves@[i as int].0@);
        if moves[i].0.number() == day.number() {
            return true;
        }
        i = i + 1;
    }
    false
}

fn broken_of(s: &Statement, day: Date, balance: &Amount, want: &Amount) -> (r: Refusal)
    ensures
        r@ == broken(s@, day@, balance@, want@),
{
    let mut out = text::copy(s.account.as_str());
    out.append(" ");
    out.append(s.statement.currency.text().as_str());
    out.append(": the ledger would end ");
    out.append(day.text().as_str());
    out.append(" at ");
    out.append(balance.text().as_str());
    out.append(" but the statement says ");
    out.append(want.text().as_str());
    out.append(
        ". A download starts mid-day, overlaps one already imported unevenly, or one is missing; nothing was imported",
    );
    Refusal { message: out }
}

proof fn days_refused_stays(
    s: LandingV,
    days: Seq<(int, Dec)>,
    moves: Seq<(int, Dec)>,
    skip: Option<int>,
    n: int,
    m: int,
)
    requires
        0 <= n <= m,
        days_hold(s, days, moves, skip, n) is Err,
    ensures
        days_hold(s, days, moves, skip, m) == days_hold(s, days, moves, skip, n),
    decreases m,
{
    if n < m {
        days_refused_stays(s, days, moves, skip, n, m - 1);
    }
}

fn check_days(
    s: &Statement,
    days: &Vec<(Date, Amount)>,
    moves: &Vec<(Date, Amount)>,
    skip: Option<Date>,
) -> (r: Result<(), Refusal>)
    requires
        in_order(move_views(days@)),
        in_order(move_views(moves@)),
    ensures
        match r {
            Ok(_) => days_hold(
                s@,
                move_views(days@),
                move_views(moves@),
                date::opt(skip),
                days@.len() as int,
            ) == Ok::<(), Seq<char>>(()),
            Err(e) => days_hold(
                s@,
                move_views(days@),
                move_views(moves@),
                date::opt(skip),
                days@.len() as int,
            ) == Err::<(), Seq<char>>(e@),
        },
{
    let ghost ds = move_views(days@);
    let ghost ms = move_views(moves@);
    let ghost sk = date::opt(skip);
    let mut balance = Amount::zero();
    let mut n: usize = 0;
    let mut i: usize = 0;
    assert(ms.take(0) =~= Seq::empty());
    while i < days.len()
        invariant
            i <= days@.len(),
            n <= moves@.len(),
            ds == move_views(days@),
            ms == move_views(moves@),
            sk == date::opt(skip),
            in_order(ds),
            in_order(ms),
            total(ms.take(n as int)) == Some(balance@),
            i < days@.len() ==> forall|j: int| 0 <= j < n ==> (#[trigger] ms[j]).0 <= ds[i as int].0,
            days_hold(s@, ds, ms, sk, i as int) == Ok::<(), Seq<char>>(()),
        decreases days@.len() - i,
    {
        let (day, want) = days[i];
        assert(ds[i as int] == (day@, want@));
        let last = i + 1 >= days.len() || days[i + 1].0.number() != day.number();
        assert(i + 1 < days@.len() ==> ds[i as int + 1].0 == days@[i as int + 1].0@);
        assert(last == ends_day(ds, i as int));
        if last {
            while n < moves.len() && moves[n].0.number() <= day.number()
                invariant
                    n <= moves@.len(),
                    ms == move_views(moves@),
                    in_order(ms),
                    i < days@.len(),
                    ds == move_views(days@),
                    sk == date::opt(skip),
                    ds[i as int] == (day@, want@),
                    ends_day(ds, i as int),
                    total(ms.take(n as int)) == Some(balance@),
                    forall|j: int| 0 <= j < n ==> (#[trigger] ms[j]).0 <= day@,
                    days_hold(s@, ds, ms, sk, i as int) == Ok::<(), Seq<char>>(()),
                decreases moves@.len() - n,
            {
                assert(ms[n as int] == (moves@[n as int].0@, moves@[n as int].1@));
                assert(ms.take(n as int + 1).drop_last() =~= ms.take(n as int));
                match balance.plus(&moves[n].1) {
                    Some(next) => {
                        balance = next;
                    },
                    None => {
                        proof {
                            refused_by_overflow(s@, ds, ms, sk, i as int, n as int);
                            days_refused_stays(s@, ds, ms, sk, i as int + 1, days@.len() as int);
                        }
                        return Err(Refusal::out_of_range());
                    },
                }
                n = n + 1;
            }
            proof {
                assert forall|j: int| n <= j < ms.len() implies (#[trigger] ms[j]).0 > day@ by {
                    assert(ms[n as int].0 == moves@[n as int].0@);
                    if j > n {
                        assert(ms[n as int].0 <= ms[j].0);
                    }
                }
                through_is_a_prefix(ms, day@, n as int);
            }
            let is_skipped = match skip {
                Some(skip) => skip.number() == day.number(),
                None => false,
            };
            if !is_skipped && !balance.equals(&want) {
                proof {
                    days_refused_stays(s@, ds, ms, sk, i as int + 1, days@.len() as int);
                }
                return Err(broken_of(s, day, &balance, &want));
            }
        }
        proof {
            if i + 1 < days@.len() {
                assert(ds[i as int].0 <= ds[i as int + 1].0);
            }
        }
        i = i + 1;
    }
    Ok(())
}

proof fn refused_by_overflow(
    s: LandingV,
    ds: Seq<(int, Dec)>,
    ms: Seq<(int, Dec)>,
    skip: Option<int>,
    i: int,
    n: int,
)
    requires
        0 <= i < ds.len(),
        0 <= n < ms.len(),
        in_order(ms),
        ends_day(ds, i),
        ms[n].0 <= ds[i].0,
        total(ms.take(n + 1)) is None,
        days_hold(s, ds, ms, skip, i) is Ok,
    ensures
        days_hold(s, ds, ms, skip, i + 1) == Err::<(), Seq<char>>(refusal::out_of_range()),
{
    let day = ds[i].0;
    let m = first_beyond(ms, day, 0);
    first_beyond_splits(ms, day, 0);
    through_is_a_prefix(ms, day, m);
    assert(n < m);
    assert(ms.take(m).take(n + 1) =~= ms.take(n + 1));
    no_total_stays(ms.take(m), n + 1);
}

/// The first of `moves` at or after `from` that is after `day`.
spec fn first_beyond(moves: Seq<(int, Dec)>, day: int, from: int) -> int
    decreases moves.len() - from,
{
    if from < 0 || from >= moves.len() || moves[from].0 > day {
        from
    } else {
        first_beyond(moves, day, from + 1)
    }
}

proof fn first_beyond_splits(moves: Seq<(int, Dec)>, day: int, from: int)
    requires
        in_order(moves),
        0 <= from <= moves.len(),
        forall|i: int| 0 <= i < from ==> (#[trigger] moves[i]).0 <= day,
    ensures
        from <= first_beyond(moves, day, from) <= moves.len(),
        forall|i: int| 0 <= i < first_beyond(moves, day, from) ==> (#[trigger] moves[i]).0 <= day,
        forall|i: int|
            first_beyond(moves, day, from) <= i < moves.len() ==> (#[trigger] moves[i]).0 > day,
    decreases moves.len() - from,
{
    if from < moves.len() {
        if moves[from].0 <= day {
            first_beyond_splits(moves, day, from + 1);
        } else {
            assert forall|i: int| from <= i < moves.len() implies (#[trigger] moves[i]).0 > day by {
                if i > from {
                    assert(moves[from].0 <= moves[i].0);
                }
            }
        }
    }
}

/// Fails unless, on every statement day after the opening, the ledger plus
/// this plan ends the day on the statement's own running balance.
///
/// This is what makes the `:n` repeat suffix safe: a download that starts
/// mid-day numbers its repeats from the wrong line, so a line is taken for one
/// already held (or the reverse) and the day ends off by that amount. A missing
/// or unevenly overlapping download shows up the same way.
pub fn chain(
    statements: &Vec<Statement>,
    openings: &Vec<Date>,
    planned: &Vec<(usize, Transaction)>,
    redated: &Vec<(i64, Date)>,
) -> (r: Result<(), Refusal>)
    requires
        openings@.len() == statements@.len(),
        forall|i: int| 0 <= i < statements@.len() ==> held::plannable((#[trigger] statements@[i])@),
    ensures
        match r {
            Ok(_) => all_chained(
                pairs::landings(statements@),
                openings@.map_values(|d: Date| d@),
                planned_views(planned@),
                redate_views(redated@),
                statements@.len() as int,
            ) == Ok::<(), Seq<char>>(()),
            Err(e) => all_chained(
                pairs::landings(statements@),
                openings@.map_values(|d: Date| d@),
                planned_views(planned@),
                redate_views(redated@),
                statements@.len() as int,
            ) == Err::<(), Seq<char>>(e@),
        },
{
    let ghost ls = pairs::landings(statements@);
    let ghost os = openings@.map_values(|d: Date| d@);
    let ghost ps = planned_views(planned@);
    let ghost rs = redate_views(redated@);
    let mut i: usize = 0;
    while i < statements.len()
        invariant
            i <= statements@.len(),
            openings@.len() == statements@.len(),
            ls == pairs::landings(statements@),
            os == openings@.map_values(|d: Date| d@),
            ps == planned_views(planned@),
            rs == redate_views(redated@),
            forall|j: int|
                0 <= j < statements@.len() ==> held::plannable((#[trigger] statements@[j])@),
            all_chained(ls, os, ps, rs, i as int) == Ok::<(), Seq<char>>(()),
        decreases statements@.len() - i,
    {
        let s = &statements[i];
        assert(ls[i as int] == s@);
        assert(held::plannable(statements@[i as int]@));
        assert(os[i as int] == openings@[i as int]@);
        let days = sort_by_date(stated_of(&s.statement.lines, openings[i]));
        let mut moves = held_moves_of(&s.existing, redated);
        let mut added = planned_moves_of(planned, s.account.as_str(), s.statement.currency);
        let end: usize = s.statement.lines.len() - 1;
        let last = s.statement.lines[end].book_date;
        assert(s@.statement.lines.last() == s.statement.lines@[end as int]@);
        let unsettled = last.number() > s.statement.settled_through().number();
        let skip = if unsettled && !is_moved_on(&added, last) {
            Some(last)
        } else {
            None
        };
        assert(date::opt(skip) == skipped(s@, ps));
        let ghost both = move_views(moves@) + move_views(added@);
        moves.append(&mut added);
        assert(move_views(moves@) =~= both);
        let moves = sort_by_date(moves);
        proof {
            by_date_in_order(stated(s@.statement.lines, os[i as int]));
            by_date_in_order(both);
            assert(move_views(days@).len() == days@.len());
        }
        if let Err(e) = check_days(s, &days, &moves, skip) {
            proof {
                all_refused_stays(ls, os, ps, rs, i as int + 1, statements@.len() as int);
            }
            return Err(e);
        }
        i = i + 1;
    }
    Ok(())
}

proof fn all_refused_stays(
    ls: Seq<LandingV>,
    os: Seq<int>,
    ps: Seq<TransactionV>,
    rs: Seq<(int, int)>,
    n: int,
    m: int,
)
    requires
        0 <= n <= m,
        all_chained(ls, os, ps, rs, n) is Err,
    ensures
        all_chained(ls, os, ps, rs, m) == all_chained(ls, os, ps, rs, n),
    decreases m,
{
    if n < m {
        all_refused_stays(ls, os, ps, rs, n, m - 1);
    }
}

} // verus!
