//! What a check promises: it lists every figure the ledger disagrees with and
//! no other, and every balance nothing vouches for.

use vstd::prelude::*;

use crate::accounts;
use crate::amount;
use crate::amount::Dec;
use crate::assertion;
use crate::assertion::{AssertionSource, AssertionV};
use crate::currency::Currency;
use crate::date;
use crate::db::broker;
use crate::db::broker::RecordV;
use crate::db::check;
use crate::db::check::{AccountRecordV, FigureV, MismatchV, ReportV, SummaryV, UncheckedV};
use crate::db::hledger;
use crate::db::holdings::{CommodityV, HoldingV};
use crate::db::query;
use crate::db::query::{AccountType, BalanceV, DataV, EntryV};
use crate::keyed;
use crate::sort;
use crate::sort::KeyV;
use crate::text;

verus! {

/// Does an assertion state this balance at the end of this day: its closing at
/// the end of its period, or its opening before the period starts?
pub open spec fn states(a: AssertionV, day: int, figure: Dec) -> bool {
    ||| day == a.period_end && figure == a.closing
    ||| (a.period_start is Some && a.opening is Some && day == a.period_start->0 - 1 && figure
        == a.opening->0)
}

/// The balances in a currency on an account or below it.
pub open spec fn under_account(bs: Seq<BalanceV>, root: Seq<char>, c: Currency) -> Seq<BalanceV> {
    bs.filter(|b: BalanceV| b.currency == c && accounts::within(b.path, root))
}

proof fn subtrees_are_filtered(bs: Seq<BalanceV>, root: Seq<char>, c: Currency)
    ensures
        check::in_subtree(bs, root, c) == under_account(bs, root, c).map_values(
            |b: BalanceV| b.amount,
        ),
    decreases bs.len(),
{
    reveal(Seq::filter);
    let all = under_account(bs, root, c).map_values(|b: BalanceV| b.amount);
    if bs.len() == 0 {
        assert(all =~= Seq::empty());
    } else {
        subtrees_are_filtered(bs.drop_last(), root, c);
        let rest = under_account(bs.drop_last(), root, c).map_values(|b: BalanceV| b.amount);
        let b = bs.last();
        if b.currency == c && accounts::within(b.path, root) {
            assert(all =~= rest.push(b.amount));
        } else {
            assert(all =~= rest);
        }
    }
}

/// What an assertion is held against is the total, at the end of the day, of
/// the balances in its currency on its account and on those below.
pub proof fn an_assertion_covers_its_subtree(d: DataV, a: AssertionV, day: int)
    ensures
        check::computed(d, a, day) == amount::total(
            under_account(query::balances(d, day), a.account, a.currency).map_values(
                |b: BalanceV| b.amount,
            ),
        ),
{
    subtrees_are_filtered(query::balances(d, day), a.account, a.currency);
}

/// Every figure an assertion states is among those it is held to, and nothing
/// else is.
pub proof fn an_assertion_is_held_to_what_it_states(a: AssertionV, day: int, figure: Dec)
    ensures
        states(a, day, figure) <==> assertion::points(a).contains((day, figure)),
{
    let all = assertion::points(a);
    if states(a, day, figure) {
        if day == a.period_end && figure == a.closing {
            assert(all.last() == (day, figure));
        } else {
            assert(all[0] == (day, figure));
        }
    }
    if all.contains((day, figure)) {
        let i = choose|i: int| 0 <= i < all.len() && all[i] == (day, figure);
        assert(all[i] == all[0] || all[i] == all.last());
    }
}

/// Does the ledger disagree with a figure of an assertion?
pub open spec fn disagrees(d: DataV, a: AssertionV, m: MismatchV) -> bool {
    &&& m.figure == FigureV::Balance(a)
    &&& states(a, m.as_of, m.expected)
    &&& m.computed == check::computed(d, a, m.as_of)->0
    &&& amount::worth(m.computed) != amount::worth(m.expected)
}

proof fn failures_disagree(d: DataV, a: AssertionV, n: int, i: int)
    requires
        0 <= n <= assertion::points(a).len(),
        0 <= i < check::failures(d, a, n).len(),
    ensures
        disagrees(d, a, check::failures(d, a, n)[i]),
    decreases n,
{
    if n > 0 {
        let rest = check::failures(d, a, n - 1);
        if i < rest.len() {
            failures_disagree(d, a, n - 1, i);
        } else {
            let p = assertion::points(a)[n - 1];
            assert(assertion::points(a).contains(p));
            an_assertion_is_held_to_what_it_states(a, p.0, p.1);
        }
    }
}

proof fn each_failure_is_listed(d: DataV, a: AssertionV, n: int, j: int) -> (i: int)
    requires
        0 <= j < n <= assertion::points(a).len(),
        !amount::equal(check::computed(d, a, assertion::points(a)[j].0)->0, assertion::points(a)[j].1),
    ensures
        0 <= i < check::failures(d, a, n).len(),
        check::failures(d, a, n)[i].figure == FigureV::Balance(a),
        check::failures(d, a, n)[i].as_of == assertion::points(a)[j].0,
        check::failures(d, a, n)[i].expected == assertion::points(a)[j].1,
    decreases n,
{
    if j < n - 1 {
        each_failure_is_listed(d, a, n - 1, j)
    } else {
        check::failures(d, a, n).len() - 1
    }
}

proof fn mismatch_of(d: DataV, all: Seq<AssertionV>, i: int) -> (k: int)
    requires
        0 <= i < check::held_to(d, all).1.len(),
    ensures
        0 <= k < all.len(),
        disagrees(d, all[k], check::held_to(d, all).1[i]),
    decreases all.len(),
{
    let rest = check::held_to(d, all.drop_last()).1;
    if i < rest.len() {
        mismatch_of(d, all.drop_last(), i)
    } else {
        failures_disagree(d, all.last(), assertion::points(all.last()).len() as int, i - rest.len());
        all.len() - 1
    }
}

proof fn failures_are_in(d: DataV, all: Seq<AssertionV>, k: int, j: int) -> (i: int)
    requires
        0 <= k < all.len(),
        0 <= j < check::failed(d, all[k]).len(),
    ensures
        0 <= i < check::held_to(d, all).1.len(),
        check::held_to(d, all).1[i] == check::failed(d, all[k])[j],
    decreases all.len(),
{
    let rest = check::held_to(d, all.drop_last()).1;
    if k < all.len() - 1 {
        assert(all.drop_last()[k] == all[k]);
        let i = failures_are_in(d, all.drop_last(), k, j);
        i
    } else {
        rest.len() + j
    }
}

/// Do the records disagree with a holding figure?
pub open spec fn misses(rs: Seq<AccountRecordV>, h: HoldingV, m: MismatchV) -> bool {
    &&& m.figure == FigureV::Holding(h)
    &&& m.as_of == h.as_of
    &&& m.expected == h.quantity
    &&& m.computed == check::replayed(rs, h)->0
    &&& amount::worth(m.computed) != amount::worth(m.expected)
}

proof fn compared_mismatches(r: ReportV, rs: Seq<AccountRecordV>, hs: Seq<HoldingV>)
    ensures
        ({
            let now = check::compared(r, rs, hs).mismatches;
            &&& now.len() >= r.mismatches.len()
            &&& now.take(r.mismatches.len() as int) == r.mismatches
            &&& check::compared(r, rs, hs).unchecked == r.unchecked
        }),
    decreases hs.len(),
{
    let now = check::compared(r, rs, hs).mismatches;
    if hs.len() == 0 {
        assert(now.take(r.mismatches.len() as int) =~= r.mismatches);
    } else {
        compared_mismatches(r, rs, hs.drop_last());
        let before = check::compared(r, rs, hs.drop_last()).mismatches;
        assert(now.take(r.mismatches.len() as int) =~= before.take(r.mismatches.len() as int));
    }
}

proof fn holding_missed(r: ReportV, rs: Seq<AccountRecordV>, hs: Seq<HoldingV>, i: int) -> (k: int)
    requires
        r.mismatches.len() <= i < check::compared(r, rs, hs).mismatches.len(),
    ensures
        0 <= k < hs.len(),
        misses(rs, hs[k], check::compared(r, rs, hs).mismatches[i]),
    decreases hs.len(),
{
    if hs.len() == 0 {
        0
    } else if i < check::compared(r, rs, hs.drop_last()).mismatches.len() {
        holding_missed(r, rs, hs.drop_last(), i)
    } else {
        hs.len() - 1
    }
}

proof fn missed_holding_is_listed(
    r: ReportV,
    rs: Seq<AccountRecordV>,
    hs: Seq<HoldingV>,
    k: int,
) -> (i: int)
    requires
        0 <= k < hs.len(),
        !amount::equal(check::replayed(rs, hs[k])->0, hs[k].quantity),
    ensures
        0 <= i < check::compared(r, rs, hs).mismatches.len(),
        check::compared(r, rs, hs).mismatches[i].figure == FigureV::Holding(hs[k]),
    decreases hs.len(),
{
    if k < hs.len() - 1 {
        missed_holding_is_listed(r, rs, hs.drop_last(), k)
    } else {
        check::compared(r, rs, hs).mismatches.len() - 1
    }
}

/// Every mismatch of a check is one: a figure that an assertion states and the
/// balances do not come to, or a holding figure the records do not replay to.
pub proof fn every_mismatch_is_one(
    d: DataV,
    all: Seq<AssertionV>,
    rs: Seq<AccountRecordV>,
    hs: Seq<HoldingV>,
    roots: Option<Seq<Seq<char>>>,
    i: int,
)
    requires
        0 <= i < check::full_check(d, all, rs, hs, roots).mismatches.len(),
    ensures
        ({
            let m = check::full_check(d, all, rs, hs, roots).mismatches[i];
            match m.figure {
                FigureV::Balance(a) => all.contains(a) && disagrees(d, a, m),
                FigureV::Holding(h) => hs.contains(h) && misses(rs, h, m),
            }
        }),
{
    let r = check::checked(d, all);
    let turns = check::in_turn(hs);
    let now = check::compared(r, rs, turns).mismatches;
    compared_mismatches(r, rs, turns);
    if i < r.mismatches.len() {
        assert(now[i] == now.take(r.mismatches.len() as int)[i]);
        let k = mismatch_of(d, all, i);
        assert(all.contains(all[k]));
    } else {
        let k = holding_missed(r, rs, turns, i);
        let keys = hs.map_values(|h: HoldingV| check::turn_key(h));
        sort::order_is_a_permutation(keys);
        assert(turns[k] == hs[sort::order(keys)[k]]);
        assert(hs.contains(turns[k]));
    }
}

/// Every figure an assertion states that the balances do not come to is listed
/// as a mismatch.
pub proof fn every_disagreement_is_listed(
    d: DataV,
    all: Seq<AssertionV>,
    rs: Seq<AccountRecordV>,
    hs: Seq<HoldingV>,
    roots: Option<Seq<Seq<char>>>,
    k: int,
    day: int,
    figure: Dec,
) -> (i: int)
    requires
        0 <= k < all.len(),
        states(all[k], day, figure),
        amount::worth(check::computed(d, all[k], day)->0) != amount::worth(figure),
    ensures
        ({
            let ms = check::full_check(d, all, rs, hs, roots).mismatches;
            &&& 0 <= i < ms.len()
            &&& ms[i].figure == FigureV::Balance(all[k])
            &&& ms[i].as_of == day
            &&& ms[i].expected == figure
        }),
{
    let a = all[k];
    an_assertion_is_held_to_what_it_states(a, day, figure);
    let ps = assertion::points(a);
    let j = choose|j: int| 0 <= j < ps.len() && ps[j] == (day, figure);
    let n = each_failure_is_listed(d, a, ps.len() as int, j);
    let i = failures_are_in(d, all, k, n);
    let r = check::checked(d, all);
    let turns = check::in_turn(hs);
    compared_mismatches(r, rs, turns);
    let now = check::compared(r, rs, turns).mismatches;
    assert(now.take(r.mismatches.len() as int)[i] == now[i]);
    i
}

/// Every holding figure the records do not replay to is listed as a mismatch.
pub proof fn every_missed_holding_is_listed(
    d: DataV,
    all: Seq<AssertionV>,
    rs: Seq<AccountRecordV>,
    hs: Seq<HoldingV>,
    roots: Option<Seq<Seq<char>>>,
    k: int,
) -> (i: int)
    requires
        0 <= k < hs.len(),
        amount::worth(check::replayed(rs, hs[k])->0) != amount::worth(hs[k].quantity),
    ensures
        0 <= i < check::full_check(d, all, rs, hs, roots).mismatches.len(),
        check::full_check(d, all, rs, hs, roots).mismatches[i].figure == FigureV::Holding(hs[k]),
{
    let keys = hs.map_values(|h: HoldingV| check::turn_key(h));
    let turns = check::in_turn(hs);
    let j = sort::every_item_is_placed(keys, k);
    assert(turns[j] == hs[k]);
    missed_holding_is_listed(check::checked(d, all), rs, turns, j)
}

/// Is `day` the newest that an assertion on the account or above it, in the
/// currency, vouches for?
pub open spec fn vouches_through(
    all: Seq<AssertionV>,
    path: Seq<char>,
    c: Currency,
    day: Option<int>,
) -> bool {
    match day {
        None => forall|i: int|
            0 <= i < all.len() ==> (#[trigger] all[i]).currency != c || !accounts::within(
                path,
                all[i].account,
            ),
        Some(day) => {
            &&& exists|i: int|
                0 <= i < all.len() && (#[trigger] all[i]).currency == c && accounts::within(
                    path,
                    all[i].account,
                ) && all[i].period_end == day
            &&& forall|i: int|
                0 <= i < all.len() && (#[trigger] all[i]).currency == c && accounts::within(
                    path,
                    all[i].account,
                ) ==> all[i].period_end <= day
        },
    }
}

/// A balance is vouched for through the newest day an assertion on its account
/// or above it, in its currency, ends on.
pub proof fn the_newest_assertion_vouches(all: Seq<AssertionV>, path: Seq<char>, c: Currency)
    ensures
        vouches_through(all, path, c, check::vouched(all, path, c)),
    decreases all.len(),
{
    if all.len() > 0 {
        let shorter = all.drop_last();
        the_newest_assertion_vouches(shorter, path, c);
        assert(forall|i: int| 0 <= i < shorter.len() ==> all[i] == #[trigger] shorter[i]);
        assert forall|i: int| 0 <= i < all.len() implies #[trigger] all[i] == (if i
            < shorter.len() {
            shorter[i]
        } else {
            all.last()
        }) by {}
        match check::vouched(shorter, path, c) {
            Some(day) => {
                let i = choose|i: int|
                    0 <= i < shorter.len() && (#[trigger] shorter[i]).currency == c
                        && accounts::within(path, shorter[i].account) && shorter[i].period_end
                        == day;
                assert(all[i] == shorter[i]);
            },
            None => {},
        }
        assert(all[all.len() - 1] == all.last());
    }
}

/// Is `day` that of the newest posting to an account in a currency?
pub open spec fn posted_through(
    postings: Seq<EntryV>,
    id: int,
    c: Currency,
    day: Option<int>,
) -> bool {
    match day {
        None => forall|i: int|
            0 <= i < postings.len() ==> (#[trigger] postings[i]).account_id != id
                || postings[i].currency != c,
        Some(day) => {
            &&& exists|i: int|
                0 <= i < postings.len() && (#[trigger] postings[i]).account_id == id
                    && postings[i].currency == c && postings[i].date == day
            &&& forall|i: int|
                0 <= i < postings.len() && (#[trigger] postings[i]).account_id == id
                    && postings[i].currency == c ==> postings[i].date <= day
        },
    }
}

/// The newest posting to an account in a currency is the one dated last.
pub proof fn the_newest_posting_is_dated_last(postings: Seq<EntryV>, id: int, c: Currency)
    ensures
        posted_through(postings, id, c, query::last_posting(postings, id, c)),
    decreases postings.len(),
{
    if postings.len() > 0 {
        let shorter = postings.drop_last();
        the_newest_posting_is_dated_last(shorter, id, c);
        assert forall|i: int| 0 <= i < postings.len() implies #[trigger] postings[i] == (if i
            < shorter.len() {
            shorter[i]
        } else {
            postings.last()
        }) by {}
        match query::last_posting(shorter, id, c) {
            Some(day) => {
                let i = choose|i: int|
                    0 <= i < shorter.len() && (#[trigger] shorter[i]).account_id == id
                        && shorter[i].currency == c && shorter[i].date == day;
                assert(postings[i] == shorter[i]);
            },
            None => {},
        }
        assert(postings[postings.len() - 1] == postings.last());
    }
}

/// Is a balance of an asset or liability posted to after all that vouches for
/// it?
pub open spec fn is_open_ended(d: DataV, all: Seq<AssertionV>, b: BalanceV) -> bool {
    &&& b.account_type == AccountType::Asset || b.account_type == AccountType::Liability
    &&& match check::vouched(all, b.path, b.currency) {
        None => true,
        Some(day) => day < query::last_posting(d.postings, b.account_id, b.currency)->0,
    }
}

proof fn unvouched_is(d: DataV, all: Seq<AssertionV>, bs: Seq<BalanceV>)
    ensures
        check::unvouched(d, all, bs) == bs.filter(
            |b: BalanceV| is_open_ended(d, all, b),
        ).map_values(
            |b: BalanceV|
                UncheckedV {
                    account: b.path,
                    currency: b.currency,
                    vouched_through: check::vouched(all, b.path, b.currency),
                    posted_through: query::last_posting(d.postings, b.account_id, b.currency)->0,
                },
        ),
    decreases bs.len(),
{
    reveal(Seq::filter);
    let f = |b: BalanceV| is_open_ended(d, all, b);
    let g = |b: BalanceV|
        UncheckedV {
            account: b.path,
            currency: b.currency,
            vouched_through: check::vouched(all, b.path, b.currency),
            posted_through: query::last_posting(d.postings, b.account_id, b.currency)->0,
        };
    let now = bs.filter(f).map_values(g);
    if bs.len() == 0 {
        assert(now =~= Seq::empty());
    } else {
        unvouched_is(d, all, bs.drop_last());
        let before = bs.drop_last().filter(f).map_values(g);
        if f(bs.last()) {
            assert(now =~= before.push(g(bs.last())));
        } else {
            assert(now =~= before);
        }
    }
}

/// A check lists the balances of assets and liabilities that were posted to
/// after all that vouches for them, in their order, and no other.
pub proof fn what_nothing_vouches_for_is_listed(
    d: DataV,
    all: Seq<AssertionV>,
    rs: Seq<AccountRecordV>,
    hs: Seq<HoldingV>,
    roots: Option<Seq<Seq<char>>>,
)
    ensures
        check::full_check(d, all, rs, hs, roots).unchecked == query::balances(
            d,
            date::MAX_DAY as int,
        ).filter(|b: BalanceV| is_open_ended(d, all, b)).map_values(
            |b: BalanceV|
                UncheckedV {
                    account: b.path,
                    currency: b.currency,
                    vouched_through: check::vouched(all, b.path, b.currency),
                    posted_through: query::last_posting(d.postings, b.account_id, b.currency)->0,
                },
        ),
{
    compared_mismatches(check::checked(d, all), rs, check::in_turn(hs));
    unvouched_is(d, all, query::balances(d, date::MAX_DAY as int));
}

/// Is a balance under a counted root without a count in its currency on its
/// account or above?
pub open spec fn lacks_a_count(
    all: Seq<AssertionV>,
    roots: Seq<Seq<char>>,
    b: BalanceV,
) -> bool {
    &&& exists|i: int| 0 <= i < roots.len() && accounts::within(b.path, #[trigger] roots[i])
    &&& forall|i: int|
        0 <= i < all.len() && (#[trigger] all[i]).source == AssertionSource::Counted
            && all[i].currency == b.currency ==> !accounts::within(b.path, all[i].account)
}

proof fn never_counted_is(all: Seq<AssertionV>, roots: Seq<Seq<char>>, bs: Seq<BalanceV>)
    ensures
        check::never_counted(all, roots, bs) == bs.filter(
            |b: BalanceV| lacks_a_count(all, roots, b),
        ).map_values(|b: BalanceV| (b.path, b.currency)),
    decreases bs.len(),
{
    reveal(Seq::filter);
    let f = |b: BalanceV| lacks_a_count(all, roots, b);
    let g = |b: BalanceV| (b.path, b.currency);
    let now = bs.filter(f).map_values(g);
    if bs.len() == 0 {
        assert(now =~= Seq::empty());
    } else {
        never_counted_is(all, roots, bs.drop_last());
        let before = bs.drop_last().filter(f).map_values(g);
        if f(bs.last()) {
            assert(now =~= before.push(g(bs.last())));
        } else {
            assert(now =~= before);
        }
    }
}

/// A check that is told what is counted by hand lists the balances there that
/// no count covers, and no other.
pub proof fn what_was_never_counted_is_listed(
    d: DataV,
    all: Seq<AssertionV>,
    rs: Seq<AccountRecordV>,
    hs: Seq<HoldingV>,
    roots: Seq<Seq<char>>,
)
    ensures
        check::full_check(d, all, rs, hs, Some(roots)).uncounted == query::balances(
            d,
            date::MAX_DAY as int,
        ).filter(|b: BalanceV| lacks_a_count(all, roots, b)).map_values(
            |b: BalanceV| (b.path, b.currency),
        ),
{
    never_counted_is(all, roots, query::balances(d, date::MAX_DAY as int));
}

/// What a record adds to a commodity, in worth.
pub open spec fn adds(r: RecordV, c: CommodityV) -> int {
    match c {
        CommodityV::Cash(k) => if r.currency == k {
            amount::worth(r.amount) + amount::worth(r.commission)
        } else {
            0
        },
        CommodityV::Security(s) => if r.symbol == Some(s) {
            amount::worth(r.quantity)
        } else {
            0
        },
    }
}

/// What the records of an account through a day add to a commodity, in worth.
pub open spec fn all_add(
    rs: Seq<AccountRecordV>,
    account: Seq<char>,
    c: CommodityV,
    as_of: int,
) -> int
    decreases rs.len(),
{
    if rs.len() == 0 {
        0
    } else {
        let r = rs.last();
        all_add(rs.drop_last(), account, c, as_of) + (if r.account == account
            && r.record.settle_date <= as_of {
            adds(r.record, c)
        } else {
            0
        })
    }
}

proof fn replays_add(rs: Seq<AccountRecordV>, account: Seq<char>, c: CommodityV, as_of: int)
    ensures
        amount::worths(check::replay(rs, account, c, as_of)) == all_add(rs, account, c, as_of),
    decreases rs.len(),
{
    if rs.len() > 0 {
        replays_add(rs.drop_last(), account, c, as_of);
        let r = rs.last().record;
        let more = broker::changes(r, c);
        amount::worths_in_two(check::replay(rs.drop_last(), account, c, as_of), more);
        reveal_with_fuel(amount::worths, 3);
        match c {
            CommodityV::Cash(k) => {
                if r.currency == k {
                    assert(more.drop_last() =~= seq![r.amount]);
                    assert(seq![r.amount].drop_last() =~= Seq::<Dec>::empty());
                }
            },
            CommodityV::Security(s) => {
                if r.symbol == Some(s) {
                    assert(more.drop_last() =~= Seq::<Dec>::empty());
                }
            },
        }
    }
}

/// Where nothing is rounded, a holding is held against what the records of its
/// account settled through its day add to its commodity: their quantities, and
/// for cash their amounts and commissions.
pub proof fn a_holding_is_what_its_records_add(rs: Seq<AccountRecordV>, h: HoldingV)
    requires
        check::replayed(rs, h) is Some,
        amount::totals_exactly(check::replay(check::settled(rs), h.account, h.commodity, h.as_of)),
    ensures
        amount::worth(check::replayed(rs, h)->0) == all_add(
            check::settled(rs),
            h.account,
            h.commodity,
            h.as_of,
        ),
        check::settled(rs).to_multiset() == rs.to_multiset(),
{
    let keys = rs.map_values(|r: AccountRecordV| query::id_key(r.record.settle_date));
    sort::order_keeps_every_item(rs, keys);
    amount::an_exact_total(check::replay(check::settled(rs), h.account, h.commodity, h.as_of));
    replays_add(check::settled(rs), h.account, h.commodity, h.as_of);
}

/// How many figures of an assertion the ledger disagrees with.
pub open spec fn missed(d: DataV, a: AssertionV) -> int {
    let closing = if amount::worth(check::computed(d, a, a.period_end)->0) != amount::worth(
        a.closing,
    ) {
        1int
    } else {
        0int
    };
    let opening = if a.period_start is Some && a.opening is Some && amount::worth(
        check::computed(d, a, a.period_start->0 - 1)->0,
    ) != amount::worth(a.opening->0) {
        1int
    } else {
        0int
    };
    opening + closing
}

proof fn failures_are_counted(d: DataV, a: AssertionV)
    ensures
        check::failed(d, a).len() == missed(d, a),
{
    reveal_with_fuel(check::failures, 3);
    let all = assertion::points(a);
    if assertion::opening_point(a) is Some {
        assert(all.len() == 2);
    } else {
        assert(all.len() == 1);
    }
}

/// What is said of an account that nothing was held against.
pub open spec fn untouched() -> SummaryV {
    SummaryV { checked: 0, failed: 0, vouched_through: None }
}

/// What is said of an account.
pub open spec fn said_of(m: Seq<(KeyV, SummaryV)>, account: Seq<char>) -> SummaryV {
    match keyed::get(m, sort::text_key(account)) {
        Some(s) => s,
        None => untouched(),
    }
}

proof fn noted_in_order(
    m: Seq<(KeyV, SummaryV)>,
    account: Seq<char>,
    checked: int,
    failed: int,
    through: int,
    other: Seq<char>,
)
    requires
        keyed::in_order(m),
    ensures
        ({
            let after = check::noted(m, account, checked, failed, through);
            let (was, now) = (said_of(m, other), said_of(after, other));
            &&& keyed::in_order(after)
            &&& other != account ==> now == was
            &&& other == account ==> {
                &&& now.checked == was.checked + checked
                &&& now.failed == was.failed + failed
                &&& now.vouched_through == check::latest(was.vouched_through, through)
            }
        }),
{
    let k = sort::text_key(account);
    let was = said_of(m, account);
    let s = SummaryV {
        checked: was.checked + checked,
        failed: was.failed + failed,
        vouched_through: check::latest(was.vouched_through, through),
    };
    keyed::put_keeps_order(m, k, s);
    keyed::get_after_put(m, k, s, sort::text_key(other));
    assert(sort::text_key(other) == k ==> sort::text_key(other).text == k.text);
}

proof fn held_in_order(d: DataV, all: Seq<AssertionV>)
    ensures
        keyed::in_order(check::held_to(d, all).0),
    decreases all.len(),
{
    if all.len() > 0 {
        held_in_order(d, all.drop_last());
        let a = all.last();
        noted_in_order(
            check::held_to(d, all.drop_last()).0,
            a.account,
            assertion::points(a).len() as int,
            check::failed(d, a).len() as int,
            a.period_end,
            a.account,
        );
    }
}

/// One assertion more adds its figures to what was checked on its account, and
/// those the ledger disagrees with to what failed there. The account is then
/// vouched for through the later of the two days. What is said of another
/// account stays.
pub proof fn one_more_assertion_is_noted(
    d: DataV,
    all: Seq<AssertionV>,
    a: AssertionV,
    account: Seq<char>,
)
    ensures
        ({
            let was = said_of(check::checked(d, all).accounts, account);
            let now = said_of(check::checked(d, all.push(a)).accounts, account);
            &&& account != a.account ==> now == was
            &&& account == a.account ==> {
                &&& now.checked == was.checked + (if a.period_start is Some && a.opening is Some {
                    2int
                } else {
                    1int
                })
                &&& now.failed == was.failed + missed(d, a)
                &&& now.vouched_through matches Some(day) && a.period_end <= day && (day
                    == a.period_end || was.vouched_through == Some(day)) && (
                was.vouched_through matches Some(before) ==> before <= day)
            }
        }),
{
    assert(all.push(a).drop_last() =~= all);
    held_in_order(d, all);
    failures_are_counted(d, a);
    noted_in_order(
        check::held_to(d, all).0,
        a.account,
        assertion::points(a).len() as int,
        check::failed(d, a).len() as int,
        a.period_end,
        account,
    );
}

/// A ledger is let through, as it was checked, exactly where nothing disagrees
/// with it and something was held against it.
pub proof fn only_an_agreeing_ledger_is_let_through(r: ReportV)
    ensures
        r.mismatches.len() == 0 && check::figures(r.accounts) > 0 ==> check::gated(r) == Ok::<
            ReportV,
            Seq<char>,
        >(r),
        r.mismatches.len() > 0 || check::figures(r.accounts) <= 0 ==> check::gated(r) is Err,
{
}

/// A mismatch reads what was expected, what was found and, where nothing is
/// rounded, how much more was found than expected.
pub proof fn a_mismatch_reads_what_was_found(m: MismatchV)
    requires
        check::off_by(m) is Some,
        amount::takes_exactly(m.computed, m.expected),
    ensures
        ({
            let text = check::mismatch_text(m);
            let off = check::off_by(m)->0;
            &&& amount::worth(off) == amount::worth(m.computed) - amount::worth(m.expected)
            &&& hledger::has_within(text, " expected "@ + amount::printed(m.expected))
            &&& hledger::has_within(text, " sum to "@ + amount::printed(m.computed))
            &&& hledger::has_within(text, " (off by "@ + amount::printed(off) + ")"@)
            &&& hledger::has_within(text, ": at end of "@ + date::printed(m.as_of))
        }),
{
    let off = check::off_by(m)->0;
    let word = match m.figure {
        FigureV::Balance(_) => "postings"@,
        FigureV::Holding(_) => "broker records"@,
    };
    let (day, expected) = (date::printed(m.as_of), amount::printed(m.expected));
    let (found, by) = (amount::printed(m.computed), amount::printed(off));
    let name = "MISMATCH "@ + check::figure_text(m.figure);
    let dated = name + ": at end of "@ + day;
    let wanted = dated + " expected "@ + expected;
    let worded = wanted + ", "@ + word;
    let summed = worded + " sum to "@ + found;
    hledger::pair_stands(name, ": at end of "@, day);
    hledger::pair_stands(dated, " expected "@, expected);
    hledger::pair_stands(worded, " sum to "@, found);
    hledger::pair_stands(summed, " (off by "@, by);
    let (d, e) = (": at end of "@ + day, " expected "@ + expected);
    let f = " sum to "@ + found;
    let o = " (off by "@ + by + ")"@;
    hledger::stands_before(dated, " expected "@, d);
    hledger::stands_before(dated + " expected "@, expected, d);
    tail_keeps(wanted, word, found, by, d);
    tail_keeps(wanted, word, found, by, e);
    hledger::stands_before(summed, " (off by "@, f);
    hledger::stands_before(summed + " (off by "@, by, f);
    hledger::stands_before(summed + " (off by "@ + by, ")"@, f);
    hledger::triple_stands(summed, " (off by "@, by, ")"@);
}

proof fn tail_keeps(
    s: Seq<char>,
    word: Seq<char>,
    found: Seq<char>,
    by: Seq<char>,
    part: Seq<char>,
)
    requires
        hledger::has_within(s, part),
    ensures
        hledger::has_within(
            s + ", "@ + word + " sum to "@ + found + " (off by "@ + by + ")"@,
            part,
        ),
{
    let a = s + ", "@;
    let b = a + word;
    let c = b + " sum to "@;
    let d = c + found;
    let e = d + " (off by "@;
    let f = e + by;
    hledger::stands_before(s, ", "@, part);
    hledger::stands_before(a, word, part);
    hledger::stands_before(b, " sum to "@, part);
    hledger::stands_before(c, found, part);
    hledger::stands_before(d, " (off by "@, part);
    hledger::stands_before(e, by, part);
    hledger::stands_before(f, ")"@, part);
}

/// The summary of an account reads how many of its figures agreed, out of how
/// many.
pub proof fn a_summary_reads_what_agreed(account: Seq<char>, s: SummaryV)
    ensures
        hledger::has_within(
            check::summary_text(account, s),
            account + ": "@ + text::digits((s.checked - s.failed) as nat) + "/"@ + text::digits(
                s.checked as nat,
            ),
        ),
        s.failed == 0 ==> text::starts(check::summary_text(account, s), "  "@ + "ok  "@),
        s.failed != 0 ==> text::starts(check::summary_text(account, s), "  "@ + "FAIL"@),
{
    let text = check::summary_text(account, s);
    let word = if s.failed == 0 {
        "ok  "@
    } else {
        "FAIL"@
    };
    let head = "  "@ + word;
    let part = account + ": "@ + text::digits((s.checked - s.failed) as nat) + "/"@ + text::digits(
        s.checked as nat,
    );
    let tail = " through "@ + (match s.vouched_through {
        Some(day) => date::printed(day),
        None => Seq::empty(),
    }) + "\n"@;
    assert(text =~= (head + " "@) + part + tail);
    assert(text.subrange(0, head.len() as int) =~= head);
}

} // verus!
