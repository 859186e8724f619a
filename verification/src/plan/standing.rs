//! Where the lines of a statement stand against what the ledger holds, and
//! what the days of the plan are held to.

use vstd::prelude::*;

use crate::accounts;
use crate::amount;
use crate::amount::Dec;
use crate::currency::Currency;
use crate::model::{HeldV, PostingV, TransactionV, VerificationV};
use crate::plan;
use crate::plan::chain;
use crate::plan::held;
use crate::plan::held::{LandingV, SortedV, Status};
use crate::plan::Ground;
use crate::statements::bank;
use crate::statements::bank::LineV;

verus! {

/// Is a posting of a line's own day and effect, booked from a statement?
pub open spec fn books(p: HeldV, l: LineV) -> bool {
    &&& p.date == l.book_date
    &&& amount::worth(p.amount) == amount::worth(bank::delta(l)->0)
    &&& held::from_a_statement(p)
    &&& !p.opening
    &&& !p.unverified
}

/// Is a record, which no statement has checked, of a line's effect and dated
/// within a week of it?
pub open spec fn may_be(p: HeldV, l: LineV) -> bool {
    &&& p.unverified
    &&& !p.opening
    &&& amount::worth(p.amount) == amount::worth(bank::delta(l)->0)
    &&& p.date <= l.book_date + 7
    &&& l.book_date <= p.date + 7
}

proof fn spares_are_held(existing: Seq<HeldV>, i: int) -> (k: int)
    requires
        0 <= i < held::spares(existing).len(),
    ensures
        0 <= k < existing.len(),
        held::spares(existing)[i] == (existing[k].date, existing[k].amount),
        held::from_a_statement(existing[k]),
        !existing[k].opening,
        !existing[k].unverified,
    decreases existing.len(),
{
    if i < held::spares(existing.drop_last()).len() {
        spares_are_held(existing.drop_last(), i)
    } else {
        existing.len() - 1
    }
}

spec fn all_spare(left: Seq<(int, Dec)>, all: Seq<(int, Dec)>) -> bool {
    forall|i: int| 0 <= i < left.len() ==> all.contains(#[trigger] left[i])
}

proof fn spare_is_there(left: Seq<(int, Dec)>, day: int, a: Dec, from: int)
    requires
        0 <= from,
    ensures
        held::spare_from(left, day, a, from) matches Some(i) ==> from <= i < left.len()
            && left[i].0 == day && amount::equal(left[i].1, a),
    decreases left.len() - from,
{
    if from < left.len() && !(left[from].0 == day && amount::equal(left[from].1, a)) {
        spare_is_there(left, day, a, from + 1);
    }
}

proof fn unclaimed_are_spare(
    lines: Seq<LineV>,
    statuses: Seq<Status>,
    all: Seq<(int, Dec)>,
    n: int,
)
    ensures
        all_spare(held::unclaimed(lines, statuses, all, n), all),
    decreases n,
{
    if n > 0 {
        unclaimed_are_spare(lines, statuses, all, n - 1);
        let left = held::unclaimed(lines, statuses, all, n - 1);
        spare_is_there(left, lines[n - 1].book_date, bank::delta(lines[n - 1])->0, 0);
        if let Some(i) = held::spare_for(left, lines[n - 1]) {
            let rest = left.remove(i);
            assert forall|k: int| 0 <= k < rest.len() implies all.contains(#[trigger] rest[k]) by {
                let was = if k < i {
                    k
                } else {
                    k + 1
                };
                assert(rest[k] == left[was]);
                assert(all.contains(left[was]));
            }
        }
    }
}

proof fn covered_are_spare(
    lines: Seq<LineV>,
    statuses: Seq<Status>,
    all: Seq<(int, Dec)>,
    n: int,
)
    requires
        0 <= n <= statuses.len(),
    ensures
        ({
            let (done, left) = held::covered(lines, statuses, all, n);
            &&& done.len() == n
            &&& all_spare(left, all)
            &&& forall|i: int|
                0 <= i < n ==> (#[trigger] done[i] == statuses[i] || (statuses[i] == Status::New
                    && done[i] == Status::Covered && exists|k: int|
                    0 <= k < all.len() && (#[trigger] all[k]).0 == lines[i].book_date
                        && amount::equal(all[k].1, bank::delta(lines[i])->0)))
        }),
    decreases n,
{
    if n > 0 {
        covered_are_spare(lines, statuses, all, n - 1);
        let (before, left) = held::covered(lines, statuses, all, n - 1);
        let (done, now) = held::covered(lines, statuses, all, n);
        let l = lines[n - 1];
        spare_is_there(left, l.book_date, bank::delta(l)->0, 0);
        if statuses[n - 1] == Status::New {
            if let Some(i) = held::spare_for(left, l) {
                assert(all.contains(left[i]));
                let k = choose|k: int| 0 <= k < all.len() && all[k] == left[i];
                assert(all[k].0 == l.book_date);
                assert forall|j: int| 0 <= j < now.len() implies all.contains(
                    #[trigger] now[j],
                ) by {
                    let was = if j < i {
                        j
                    } else {
                        j + 1
                    };
                    assert(now[j] == left[was]);
                    assert(all.contains(left[was]));
                }
            }
        }
        assert(forall|i: int| 0 <= i < n - 1 ==> done[i] == #[trigger] before[i]);
        assert forall|i: int| 0 <= i < n implies (#[trigger] done[i] == statuses[i] || (
        statuses[i] == Status::New && done[i] == Status::Covered && exists|k: int|
            0 <= k < all.len() && (#[trigger] all[k]).0 == lines[i].book_date && amount::equal(
                all[k].1,
                bank::delta(lines[i])->0,
            ))) by {
            if i < n - 1 {
                assert(done[i] == before[i]);
            }
        }
    }
}

proof fn records_are_held(existing: Seq<HeldV>, i: int) -> (k: int)
    requires
        0 <= i < held::unverified(existing).len(),
    ensures
        0 <= k < existing.len(),
        held::unverified(existing)[i] == existing[k],
        existing[k].unverified,
        !existing[k].opening,
    decreases existing.len(),
{
    if i < held::unverified(existing.drop_last()).len() {
        records_are_held(existing.drop_last(), i)
    } else {
        existing.len() - 1
    }
}

proof fn record_is_listed(existing: Seq<HeldV>, k: int) -> (i: int)
    requires
        0 <= k < existing.len(),
        existing[k].unverified,
        !existing[k].opening,
    ensures
        0 <= i < held::unverified(existing).len(),
        held::unverified(existing)[i] == existing[k],
    decreases existing.len(),
{
    if k < existing.len() - 1 {
        record_is_listed(existing.drop_last(), k)
    } else {
        held::unverified(existing).len() - 1
    }
}

proof fn fitting_is_there(l: LineV, records: Seq<HeldV>, i: int) -> (k: int)
    requires
        0 <= i < held::fitting(l, records).len(),
    ensures
        0 <= k < records.len(),
        held::fitting(l, records)[i] == records[k],
        held::fits(l, records[k]),
    decreases records.len(),
{
    if i < held::fitting(l, records.drop_last()).len() {
        fitting_is_there(l, records.drop_last(), i)
    } else {
        records.len() - 1
    }
}

proof fn what_fits_is_fitting(l: LineV, records: Seq<HeldV>, k: int)
    requires
        0 <= k < records.len(),
        held::fits(l, records[k]),
    ensures
        held::fitting(l, records).len() > 0,
    decreases records.len(),
{
    if k < records.len() - 1 {
        what_fits_is_fitting(l, records.drop_last(), k);
    }
}

proof fn no_report_no_ambiguity(
    lines: Seq<LineV>,
    statuses: Seq<Status>,
    records: Seq<HeldV>,
    n: int,
    i: int,
)
    requires
        0 <= i < n,
        held::ambiguities(lines, statuses, records, n).len() == 0,
        statuses[i] == Status::New,
        held::fitting(lines[i], records).len() > 0,
    ensures
        held::verifies(lines, statuses, records, i),
    decreases n,
{
    if i < n - 1 {
        no_report_no_ambiguity(lines, statuses, records, n - 1, i);
    }
}

/// Where a line stands: it predates the opening; the ledger knows its ref; a
/// posting of its own day and effect, booked from a statement, covers it; it
/// verifies a record of its effect dated within a week; or it is new, and no
/// record could be it.
pub proof fn a_line_stands_by_what_is_held(
    s: LandingV,
    known: Seq<Seq<char>>,
    accounts: Seq<(Seq<char>, Seq<char>)>,
    i: int,
)
    requires
        held::sorted(s, known, accounts) is Ok,
        0 <= i < s.statement.lines.len(),
    ensures
        ({
            let r = held::sorted(s, known, accounts)->Ok_0;
            let l = s.statement.lines[i];
            let is_later = l.book_date > r.opening && !known.contains(r.refs[i]);
            &&& r.statuses.len() == s.statement.lines.len()
            &&& match r.statuses[i] {
                Status::PredatesOpening => l.book_date <= r.opening,
                Status::Known => l.book_date > r.opening && known.contains(r.refs[i]),
                Status::Covered => is_later && exists|k: int|
                    0 <= k < s.existing.len() && books(#[trigger] s.existing[k], l),
                Status::Verifies(id) => is_later && exists|k: int|
                    0 <= k < s.existing.len() && may_be(#[trigger] s.existing[k], l)
                        && s.existing[k].transaction_id as i64 == id,
                Status::New => is_later && forall|k: int|
                    0 <= k < s.existing.len() ==> !may_be(#[trigger] s.existing[k], l),
            }
        }),
{
    let r = held::sorted(s, known, accounts)->Ok_0;
    let lines = s.statement.lines;
    let l = lines[i];
    let records = held::unverified(s.existing);
    let by = held::by_refs(lines, r.refs, r.opening, known);
    let all = held::spares(s.existing);
    let n = lines.len() as int;
    let left = held::unclaimed(lines, by, all, n);
    let first = held::booked(lines, r.refs, r.opening, known, s.existing);
    unclaimed_are_spare(lines, by, all, n);
    covered_are_spare(lines, by, left, n);
    assert(first[i] == by[i] || first[i] == Status::Covered);
    assert(by[i] == held::by_ref(l, r.refs[i], r.opening, known));
    assert(r.statuses[i] == held::checked(lines, first, records, i));
    match r.statuses[i] {
        Status::Covered => {
            let k = choose|k: int|
                0 <= k < left.len() && (#[trigger] left[k]).0 == l.book_date && amount::equal(
                    left[k].1,
                    bank::delta(l)->0,
                );
            assert(all.contains(left[k]));
            let j = choose|j: int| 0 <= j < all.len() && all[j] == left[k];
            let at = spares_are_held(s.existing, j);
            assert(books(s.existing[at], l));
        },
        Status::Verifies(_) => {
            let k = fitting_is_there(l, records, 0);
            let at = records_are_held(s.existing, k);
            assert(may_be(s.existing[at], l));
        },
        Status::New => {
            assert forall|k: int| 0 <= k < s.existing.len() implies !may_be(
                #[trigger] s.existing[k],
                l,
            ) by {
                if may_be(s.existing[k], l) {
                    let at = record_is_listed(s.existing, k);
                    what_fits_is_fitting(l, records, at);
                    no_report_no_ambiguity(lines, first, records, n, i);
                }
            }
        },
        _ => {},
    }
}

proof fn opening_days_are_held(existing: Seq<HeldV>)
    ensures
        held::opening_days(existing).len() == 0 ==> forall|k: int|
            0 <= k < existing.len() ==> !(#[trigger] existing[k]).opening,
        held::opening_days(existing).len() == 1 ==> (exists|k: int|
            0 <= k < existing.len() && (#[trigger] existing[k]).opening) && forall|k: int|
            0 <= k < existing.len() && (#[trigger] existing[k]).opening ==> existing[k].date
                == held::opening_days(existing)[0],
    decreases existing.len(),
{
    if existing.len() > 0 {
        let shorter = existing.drop_last();
        opening_days_are_held(shorter);
        assert forall|k: int| 0 <= k < existing.len() implies #[trigger] existing[k] == (if k
            < shorter.len() {
            shorter[k]
        } else {
            existing.last()
        }) by {}
        if held::opening_days(shorter).len() == 1 {
            let k = choose|k: int| 0 <= k < shorter.len() && (#[trigger] shorter[k]).opening;
            assert(existing[k].opening);
        }
        assert(existing[existing.len() - 1] == existing.last());
    }
}

/// The ledger's record of an account begins after its opening's day; without
/// an opening after the day before its first posting; and where nothing is held
/// after the day before the statement, which then opens the account on its own
/// opening balance.
pub proof fn an_account_opens_where_it_begins(
    s: LandingV,
    known: Seq<Seq<char>>,
    accounts: Seq<(Seq<char>, Seq<char>)>,
)
    requires
        held::sorted(s, known, accounts) is Ok,
    ensures
        ({
            let r = held::sorted(s, known, accounts)->Ok_0;
            &&& forall|k: int|
                0 <= k < s.existing.len() && (#[trigger] s.existing[k]).opening
                    ==> s.existing[k].date == r.opening
            &&& s.existing.len() > 0 && (forall|k: int|
                0 <= k < s.existing.len() ==> !(#[trigger] s.existing[k]).opening) ==> r.opening
                == s.existing[0].date - 1
            &&& s.existing.len() == 0 ==> r.opening == bank::start(s.statement) - 1
            &&& s.existing.len() == 0 ==> (r.fresh is Some && bank::opening_balance(s.statement)
                == r.fresh)
            &&& s.existing.len() > 0 ==> r.fresh is None
        }),
{
    opening_days_are_held(s.existing);
}

/// Is a record that no line checks dated in the last week a statement holds in
/// full?
pub open spec fn waits(s: LandingV, r: SortedV, p: HeldV) -> bool {
    let last = bank::settled_through(s.statement);
    &&& p.unverified
    &&& !p.opening
    &&& r.opening < p.date <= last
    &&& last < p.date + 7
    &&& forall|i: int|
        0 <= i < r.statuses.len() ==> !(#[trigger] r.statuses[i] matches Status::Verifies(id) && id
            == p.transaction_id)
}

proof fn deferrals_are_of(
    s: LandingV,
    r: SortedV,
    accounts: Seq<(Seq<char>, Seq<char>)>,
    records: Seq<HeldV>,
    i: int,
) -> (k: int)
    requires
        held::deferrals(s, r.statuses, accounts, r.opening, records) is Ok,
        0 <= i < (held::deferrals(s, r.statuses, accounts, r.opening, records)->Ok_0).len(),
        forall|k: int|
            0 <= k < records.len() ==> (#[trigger] records[k]).unverified && !records[k].opening,
    ensures
        0 <= k < records.len(),
        waits(s, r, records[k]),
        (held::deferrals(s, r.statuses, accounts, r.opening, records)->Ok_0)[i].transaction_id
            == records[k].transaction_id,
        (held::deferrals(s, r.statuses, accounts, r.opening, records)->Ok_0)[i].date
            == bank::settled_through(s.statement) + 1,
    decreases records.len(),
{
    let shorter = records.drop_last();
    assert forall|k: int| 0 <= k < shorter.len() implies (#[trigger] shorter[k]).unverified
        && !shorter[k].opening by {
        assert(shorter[k] == records[k]);
    }
    if records.len() == 0 {
        0
    } else if i < (held::deferrals(s, r.statuses, accounts, r.opening, shorter)->Ok_0).len() {
        deferrals_are_of(s, r, accounts, shorter, i)
    } else {
        let p = records[records.len() - 1];
        assert(p == records.last());
        assert(waits(s, r, p));
        records.len() - 1
    }
}

proof fn waiting_is_deferred(
    s: LandingV,
    r: SortedV,
    accounts: Seq<(Seq<char>, Seq<char>)>,
    records: Seq<HeldV>,
    k: int,
) -> (i: int)
    requires
        held::deferrals(s, r.statuses, accounts, r.opening, records) is Ok,
        0 <= k < records.len(),
        waits(s, r, records[k]),
    ensures
        0 <= i < (held::deferrals(s, r.statuses, accounts, r.opening, records)->Ok_0).len(),
        (held::deferrals(s, r.statuses, accounts, r.opening, records)->Ok_0)[i].transaction_id
            == records[k].transaction_id,
    decreases records.len(),
{
    if k < records.len() - 1 {
        waiting_is_deferred(s, r, accounts, records.drop_last(), k)
    } else {
        (held::deferrals(s, r.statuses, accounts, r.opening, records)->Ok_0).len() - 1
    }
}

/// What is deferred is a record of the last week a statement holds in full that
/// no line of it checks. It moves to the day after.
pub proof fn what_is_deferred_waits(
    s: LandingV,
    known: Seq<Seq<char>>,
    accounts: Seq<(Seq<char>, Seq<char>)>,
    i: int,
) -> (k: int)
    requires
        held::sorted(s, known, accounts) is Ok,
        0 <= i < (held::sorted(s, known, accounts)->Ok_0).deferred.len(),
    ensures
        ({
            let r = held::sorted(s, known, accounts)->Ok_0;
            &&& 0 <= k < s.existing.len()
            &&& waits(s, r, s.existing[k])
            &&& r.deferred[i].transaction_id == s.existing[k].transaction_id
            &&& r.deferred[i].date == bank::settled_through(s.statement) + 1
        }),
{
    let r = held::sorted(s, known, accounts)->Ok_0;
    let records = held::unverified(s.existing);
    assert forall|k: int| 0 <= k < records.len() implies (#[trigger] records[k]).unverified
        && !records[k].opening by {
        let at = records_are_held(s.existing, k);
    }
    let k = deferrals_are_of(s, r, accounts, records, i);
    records_are_held(s.existing, k)
}

/// Every record of the last week a statement holds in full that no line of it
/// checks is deferred.
pub proof fn what_waits_is_deferred(
    s: LandingV,
    known: Seq<Seq<char>>,
    accounts: Seq<(Seq<char>, Seq<char>)>,
    k: int,
) -> (i: int)
    requires
        held::sorted(s, known, accounts) is Ok,
        0 <= k < s.existing.len(),
        waits(s, held::sorted(s, known, accounts)->Ok_0, s.existing[k]),
    ensures
        ({
            let r = held::sorted(s, known, accounts)->Ok_0;
            &&& 0 <= i < r.deferred.len()
            &&& r.deferred[i].transaction_id == s.existing[k].transaction_id
        }),
{
    let r = held::sorted(s, known, accounts)->Ok_0;
    let at = record_is_listed(s.existing, k);
    waiting_is_deferred(s, r, accounts, held::unverified(s.existing), at)
}

/// What moves are worth through a day.
pub open spec fn worth_through(moves: Seq<(int, Dec)>, day: int) -> Seq<Dec> {
    moves.filter(|m: (int, Dec)| m.0 <= day).map_values(|m: (int, Dec)| m.1)
}

/// What an account ends a day on is the total of what moves on it through that
/// day.
pub proof fn a_day_ends_on_what_moved_through_it(moves: Seq<(int, Dec)>, day: int)
    ensures
        chain::through(moves, day) == amount::total(worth_through(moves, day)),
    decreases moves.len(),
{
    reveal(Seq::filter);
    let now = worth_through(moves, day);
    if moves.len() == 0 {
        assert(now =~= Seq::empty());
    } else {
        a_day_ends_on_what_moved_through_it(moves.drop_last(), day);
        let before = worth_through(moves.drop_last(), day);
        if moves.last().0 <= day {
            assert(now =~= before.push(moves.last().1));
            assert(now.drop_last() =~= before);
        } else {
            assert(now =~= before);
        }
    }
}

/// The balances a statement states are those of its lines after the opening.
pub proof fn each_line_after_the_opening_states_its_balance(lines: Seq<LineV>, opening: int)
    ensures
        chain::stated(lines, opening) == lines.filter(
            |l: LineV| l.book_date > opening,
        ).map_values(|l: LineV| (l.book_date, l.balance)),
    decreases lines.len(),
{
    reveal(Seq::filter);
    let f = |l: LineV| l.book_date > opening;
    let g = |l: LineV| (l.book_date, l.balance);
    let now = lines.filter(f).map_values(g);
    if lines.len() == 0 {
        assert(now =~= Seq::empty());
    } else {
        each_line_after_the_opening_states_its_balance(lines.drop_last(), opening);
        let before = lines.drop_last().filter(f).map_values(g);
        if f(lines.last()) {
            assert(now =~= before.push(g(lines.last())));
        } else {
            assert(now =~= before);
        }
    }
}

/// What a transaction moves on an account is what its legs there do, each on
/// the transaction's day.
pub proof fn each_leg_on_an_account_moves_it(
    postings: Seq<PostingV>,
    day: int,
    account: Seq<char>,
    c: Currency,
)
    ensures
        chain::leg_moves(postings, day, account, c) == postings.filter(
            |p: PostingV| p.account == account && p.currency == c,
        ).map_values(|p: PostingV| (day, p.amount)),
    decreases postings.len(),
{
    reveal(Seq::filter);
    let f = |p: PostingV| p.account == account && p.currency == c;
    let g = |p: PostingV| (day, p.amount);
    let now = postings.filter(f).map_values(g);
    if postings.len() == 0 {
        assert(now =~= Seq::empty());
    } else {
        each_leg_on_an_account_moves_it(postings.drop_last(), day, account, c);
        let before = postings.drop_last().filter(f).map_values(g);
        if f(postings.last()) {
            assert(now =~= before.push(g(postings.last())));
        } else {
            assert(now =~= before);
        }
    }
}

/// One planned transaction more moves what its own legs on the account do, on
/// its own day.
pub proof fn one_more_transaction_moves_its_legs(
    planned: Seq<TransactionV>,
    t: TransactionV,
    account: Seq<char>,
    c: Currency,
)
    ensures
        chain::planned_moves(planned.push(t), account, c) == chain::planned_moves(
            planned,
            account,
            c,
        ) + t.postings.filter(
            |p: PostingV| p.account == account && p.currency == c,
        ).map_values(|p: PostingV| (t.date, p.amount)),
{
    each_leg_on_an_account_moves_it(t.postings, t.date, account, c);
    assert(planned.push(t).drop_last() =~= planned);
}

/// What is held moves on its own day, or on the last one it is moved to.
pub proof fn what_is_held_moves_on_its_day(
    existing: Seq<HeldV>,
    redated: Seq<(int, int)>,
    k: int,
)
    requires
        0 <= k < existing.len(),
    ensures
        ({
            let id = existing[k].transaction_id;
            let (day, a) = chain::held_moves(existing, redated)[k];
            &&& chain::held_moves(existing, redated).len() == existing.len()
            &&& a == existing[k].amount
            &&& (forall|i: int| 0 <= i < redated.len() ==> (#[trigger] redated[i]).0 != id)
                ==> day == existing[k].date
            &&& forall|i: int|
                0 <= i < redated.len() && (#[trigger] redated[i]).0 == id && (forall|j: int|
                    i < j < redated.len() ==> (#[trigger] redated[j]).0 != id) ==> day
                    == redated[i].1
        }),
{
    redated_last(redated, existing[k].transaction_id);
}

proof fn redated_last(redated: Seq<(int, int)>, id: int)
    ensures
        match chain::redate_of(redated, id) {
            None => forall|i: int| 0 <= i < redated.len() ==> (#[trigger] redated[i]).0 != id,
            Some(day) => exists|i: int|
                0 <= i < redated.len() && (#[trigger] redated[i]).0 == id && redated[i].1 == day
                    && forall|j: int| i < j < redated.len() ==> (#[trigger] redated[j]).0 != id,
        },
    decreases redated.len(),
{
    if redated.len() > 0 {
        let shorter = redated.drop_last();
        if redated.last().0 == id {
            assert(redated[redated.len() - 1].0 == id);
        } else {
            redated_last(shorter, id);
            match chain::redate_of(shorter, id) {
                None => {
                    assert forall|i: int| 0 <= i < redated.len() implies (
                    #[trigger] redated[i]).0 != id by {
                        if i < shorter.len() {
                            assert(shorter[i] == redated[i]);
                        }
                    }
                },
                Some(day) => {
                    let i = choose|i: int|
                        0 <= i < shorter.len() && (#[trigger] shorter[i]).0 == id && shorter[i].1
                            == day && forall|j: int|
                            i < j < shorter.len() ==> (#[trigger] shorter[j]).0 != id;
                    assert(redated[i] == shorter[i]);
                    assert forall|j: int| i < j < redated.len() implies (#[trigger] redated[j]).0
                        != id by {
                        if j < shorter.len() {
                            assert(shorter[j] == redated[j]);
                        }
                    }
                },
            }
        }
    }
}

proof fn days_are_held(
    s: LandingV,
    days: Seq<(int, Dec)>,
    moves: Seq<(int, Dec)>,
    skip: Option<int>,
    n: int,
)
    requires
        forall|i: int|
            0 <= i < n && #[trigger] chain::ends_day(days, i) ==> (chain::through(
                moves,
                days[i].0,
            ) matches Some(b) && (Some(days[i].0) == skip || amount::worth(b) == amount::worth(
                days[i].1,
            ))),
    ensures
        chain::days_hold(s, days, moves, skip, n) is Ok,
    decreases n,
{
    if n > 0 {
        days_are_held(s, days, moves, skip, n - 1);
        if chain::ends_day(days, n - 1) {
            assert(chain::through(moves, days[n - 1].0) is Some);
        }
    }
}

/// A statement whose every day ends on its balance is not refused.
pub proof fn a_statement_that_holds_is_accepted(
    s: LandingV,
    opening: int,
    planned: Seq<TransactionV>,
    redated: Seq<(int, int)>,
)
    requires
        ({
            let days = chain::by_date(chain::stated(s.statement.lines, opening));
            let moves = chain::by_date(
                chain::held_moves(s.existing, redated) + chain::planned_moves(
                    planned,
                    s.account,
                    s.statement.currency,
                ),
            );
            forall|i: int|
                0 <= i < days.len() && #[trigger] chain::ends_day(days, i) ==> (chain::through(
                    moves,
                    days[i].0,
                ) matches Some(b) && amount::worth(b) == amount::worth(days[i].1))
        }),
    ensures
        chain::chained(s, opening, planned, redated) is Ok,
{
    let days = chain::by_date(chain::stated(s.statement.lines, opening));
    let moves = chain::by_date(
        chain::held_moves(s.existing, redated) + chain::planned_moves(
            planned,
            s.account,
            s.statement.currency,
        ),
    );
    days_are_held(s, days, moves, chain::skipped(s, planned), days.len() as int);
}

/// The one day a statement is not held to is its last, where it does not hold
/// that day in full and the plan moves nothing on it.
pub proof fn only_an_unsettled_last_day_is_skipped(s: LandingV, planned: Seq<TransactionV>)
    ensures
        chain::skipped(s, planned) matches Some(day) ==> {
            &&& day == s.statement.lines.last().book_date
            &&& day > bank::settled_through(s.statement)
            &&& forall|i: int|
                0 <= i < chain::planned_moves(planned, s.account, s.statement.currency).len()
                    ==> (#[trigger] chain::planned_moves(
                    planned,
                    s.account,
                    s.statement.currency,
                )[i]).0 != day
        },
{
}

/// Is `v` what the line `li` of the statement `si` says of the record `p`?
pub open spec fn checks(
    g: Ground,
    table: Seq<(Seq<char>, Seq<char>)>,
    si: int,
    li: int,
    p: HeldV,
    v: VerificationV,
) -> bool {
    &&& v.transaction_id == p.transaction_id
    &&& v.statement_ref == g.sorted[si].refs[li]
    &&& held::from_a_statement(p) ==> v.date is None
    &&& !held::from_a_statement(p) ==> v.date == Some(g.ls[si].statement.lines[li].book_date)
    &&& forall|a: Seq<char>| #[trigger]
        v.unchecked.contains(a) <==> p.other_accounts.contains(a) && has_statements(table, a)
            && !is_vouched_for(g, p.transaction_id, a)
}

/// Does an account have statements?
pub open spec fn has_statements(table: Seq<(Seq<char>, Seq<char>)>, a: Seq<char>) -> bool {
    exists|i: int| 0 <= i < table.len() && (#[trigger] table[i]).1 == a
}

/// Does a line of a statement on an account check a record?
pub open spec fn is_vouched_for(g: Ground, id: int, a: Seq<char>) -> bool {
    exists|si: int, li: int|
        0 <= si < g.ls.len() && g.ls[si].account == a && 0 <= li < g.sorted[si].statuses.len() && (
        #[trigger] g.sorted[si].statuses[li] matches Status::Verifies(v) && v == id)
}

proof fn vouching_is_by_a_line(g: Ground, id: i64, a: Seq<char>)
    ensures
        plan::vouches(g.ls, g.sorted, id, a) == is_vouched_for(g, id as int, a),
{
    if plan::vouches(g.ls, g.sorted, id, a) {
        let si = choose|si: int|
            0 <= si < g.ls.len() && (#[trigger] g.ls[si]).account == a
                && g.sorted[si].statuses.contains(Status::Verifies(id));
        let st = g.sorted[si].statuses;
        let li = choose|li: int| 0 <= li < st.len() && st[li] == Status::Verifies(id);
        assert(g.sorted[si].statuses[li] == Status::Verifies(id));
    }
    if is_vouched_for(g, id as int, a) {
        let (si, li) = choose|si: int, li: int|
            0 <= si < g.ls.len() && g.ls[si].account == a && 0 <= li
                < g.sorted[si].statuses.len() && (
            #[trigger] g.sorted[si].statuses[li] matches Status::Verifies(v) && v == id);
        assert(g.sorted[si].statuses.contains(Status::Verifies(id)));
        assert(g.ls[si].account == a);
    }
}

proof fn unchecked_are(
    g: Ground,
    table: Seq<(Seq<char>, Seq<char>)>,
    id: i64,
    others: Seq<Seq<char>>,
    a: Seq<char>,
)
    ensures
        plan::unchecked(g, table, id, others).contains(a) <==> others.contains(a)
            && accounts::is_value(table, a) && !plan::vouches(g.ls, g.sorted, id, a),
    decreases others.len(),
{
    if others.len() > 0 {
        let shorter = others.drop_last();
        let before = plan::unchecked(g, table, id, shorter);
        let now = plan::unchecked(g, table, id, others);
        let b = others.last();
        unchecked_are(g, table, id, shorter, a);
        assert(others.contains(a) <==> shorter.contains(a) || a == b) by {
            if others.contains(a) {
                let i = choose|i: int| 0 <= i < others.len() && others[i] == a;
                if i < shorter.len() {
                    assert(shorter[i] == a);
                }
            }
            if shorter.contains(a) {
                let i = choose|i: int| 0 <= i < shorter.len() && shorter[i] == a;
                assert(others[i] == a);
            }
            assert(others[others.len() - 1] == b);
        }
        if accounts::is_value(table, b) && !plan::vouches(g.ls, g.sorted, id, b) {
            assert(now == before.push(b));
            assert(now.contains(a) <==> before.contains(a) || a == b) by {
                if now.contains(a) {
                    let i = choose|i: int| 0 <= i < now.len() && now[i] == a;
                    if i < before.len() {
                        assert(before[i] == a);
                    }
                }
                if before.contains(a) {
                    let i = choose|i: int| 0 <= i < before.len() && before[i] == a;
                    assert(now[i] == a);
                }
                assert(now[before.len() as int] == b);
            }
        }
    }
}

proof fn record_is_the_first(existing: Seq<HeldV>, id: int, from: int)
    requires
        0 <= from,
    ensures
        match plan::record_of(existing, id, from) {
            Some(i) => from <= i < existing.len() && existing[i].transaction_id == id,
            None => forall|i: int|
                from <= i < existing.len() ==> (#[trigger] existing[i]).transaction_id != id,
        },
    decreases existing.len() - from,
{
    if from < existing.len() && existing[from].transaction_id != id {
        record_is_the_first(existing, id, from + 1);
    }
}

proof fn verified_by_line(
    g: Ground,
    table: Seq<(Seq<char>, Seq<char>)>,
    si: int,
    n: int,
    li: int,
    r: int,
) -> (i: int)
    requires
        0 <= li < n,
        g.sorted[si].statuses[li] is Verifies,
        plan::record_of(
            g.ls[si].existing,
            g.sorted[si].statuses[li]->Verifies_0 as int,
            0,
        ) == Some(r),
    ensures
        0 <= i < plan::verified_in(g, table, si, n).len(),
        plan::verified_in(g, table, si, n)[i] == plan::verification(
            g,
            table,
            si,
            li,
            g.sorted[si].statuses[li]->Verifies_0,
            g.ls[si].existing[r],
        ),
    decreases n,
{
    if li < n - 1 {
        verified_by_line(g, table, si, n - 1, li, r)
    } else {
        plan::verified_in(g, table, si, n).len() - 1
    }
}

proof fn verified_of_statement(
    g: Ground,
    table: Seq<(Seq<char>, Seq<char>)>,
    n: int,
    si: int,
    j: int,
) -> (i: int)
    requires
        0 <= si < n,
        0 <= j < plan::verified_in(g, table, si, g.ls[si].statement.lines.len() as int).len(),
    ensures
        0 <= i < plan::verified(g, table, n).len(),
        plan::verified(g, table, n)[i] == plan::verified_in(
            g,
            table,
            si,
            g.ls[si].statement.lines.len() as int,
        )[j],
    decreases n,
{
    if si < n - 1 {
        verified_of_statement(g, table, n - 1, si, j)
    } else {
        plan::verified(g, table, n - 1).len() + j
    }
}

/// Every line that checks a record is in the plan: under its ref, on its day
/// unless the record stands for another bank's line, and leaving unchecked the
/// record's other accounts with statements that no line here vouches for.
pub proof fn every_check_is_planned(g: Ground, si: int, li: int) -> (at: (int, int))
    requires
        plan::planned(g) is Ok,
        0 <= si < g.ls.len(),
        0 <= li < g.ls[si].statement.lines.len(),
        g.sorted[si].statuses[li] is Verifies,
        exists|k: int|
            0 <= k < g.ls[si].existing.len() && (#[trigger] g.ls[si].existing[k]).transaction_id
                == g.sorted[si].statuses[li]->Verifies_0,
    ensures
        ({
            let p = plan::planned(g)->Ok_0;
            let table = accounts::table(g.chart.institution.accounts@);
            &&& 0 <= at.0 < p.verified.len()
            &&& 0 <= at.1 < g.ls[si].existing.len()
            &&& g.ls[si].existing[at.1].transaction_id == g.sorted[si].statuses[li]->Verifies_0
            &&& checks(g, table, si, li, g.ls[si].existing[at.1], p.verified[at.0])
        }),
{
    let p = plan::planned(g)->Ok_0;
    let table = accounts::table(g.chart.institution.accounts@);
    let id = g.sorted[si].statuses[li]->Verifies_0;
    record_is_the_first(g.ls[si].existing, id as int, 0);
    let r = plan::record_of(g.ls[si].existing, id as int, 0)->0;
    let record = g.ls[si].existing[r];
    let n = g.ls[si].statement.lines.len() as int;
    let j = verified_by_line(g, table, si, n, li, r);
    let i = verified_of_statement(g, table, g.ls.len() as int, si, j);
    let v = p.verified[i];
    assert forall|a: Seq<char>| #[trigger]
        v.unchecked.contains(a) <==> record.other_accounts.contains(a) && has_statements(table, a)
            && !is_vouched_for(g, record.transaction_id, a) by {
        unchecked_are(g, table, id, record.other_accounts, a);
        vouching_is_by_a_line(g, id, a);
    }
    (i, r)
}

proof fn moves_are_listed(verified: Seq<VerificationV>, i: int)
    requires
        0 <= i < verified.len(),
        verified[i].date is Some,
    ensures
        exists|k: int|
            0 <= k < plan::moved(verified).len() && #[trigger] plan::moved(verified)[k] == (
                verified[i].transaction_id,
                verified[i].date->0,
            ),
    decreases verified.len(),
{
    let shorter = verified.drop_last();
    let (before, now) = (plan::moved(shorter), plan::moved(verified));
    let wanted = (verified[i].transaction_id, verified[i].date->0);
    if i < verified.len() - 1 {
        assert(shorter[i] == verified[i]);
        moves_are_listed(shorter, i);
        let k = choose|k: int| 0 <= k < before.len() && #[trigger] before[k] == wanted;
        assert(now[k] == wanted);
    } else {
        assert(now[before.len() as int] == wanted);
    }
}

proof fn moves_of_one_day(verified: Seq<VerificationV>, k: int)
    requires
        plan::one_day_each(verified) is Ok,
        0 <= k < plan::moved(verified).len(),
    ensures
        chain::redate_of(plan::moved(verified), plan::moved(verified)[k].0) == Some(
            plan::moved(verified)[k].1,
        ),
    decreases verified.len(),
{
    let shorter = verified.drop_last();
    let (before, now) = (plan::moved(shorter), plan::moved(verified));
    if verified.last().date is Some {
        assert(now.drop_last() =~= before);
        if k < before.len() {
            moves_of_one_day(shorter, k);
            assert(now[k] == before[k]);
        }
    } else {
        moves_of_one_day(shorter, k);
    }
}

/// No record moves to two days.
pub proof fn a_record_moves_to_one_day(verified: Seq<VerificationV>, i: int, j: int)
    requires
        plan::one_day_each(verified) is Ok,
        0 <= i < verified.len(),
        0 <= j < verified.len(),
        verified[i].transaction_id == verified[j].transaction_id,
        verified[i].date is Some,
        verified[j].date is Some,
    ensures
        verified[i].date == verified[j].date,
{
    let all = plan::moved(verified);
    moves_are_listed(verified, i);
    moves_are_listed(verified, j);
    let a = choose|k: int|
        0 <= k < all.len() && #[trigger] all[k] == (
            verified[i].transaction_id,
            verified[i].date->0,
        );
    let b = choose|k: int|
        0 <= k < all.len() && #[trigger] all[k] == (
            verified[j].transaction_id,
            verified[j].date->0,
        );
    moves_of_one_day(verified, a);
    moves_of_one_day(verified, b);
}

} // verus!
