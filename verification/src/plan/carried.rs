//! A ledger once a plan is carried out in it: what it then holds on the
//! accounts of the statements, and that their days still end on their balances.

use vstd::prelude::*;

use crate::amount;
use crate::amount::Dec;
use crate::currency::Currency;
use crate::db::import_batch;
use crate::model;
use crate::model::{HeldV, PostingV, TransactionV, VerificationV};
use crate::plan;
use crate::plan::chain;
use crate::plan::held::LandingV;
use crate::plan::tally;
use crate::plan::PlanV;
use crate::sort;
use crate::sort::KeyV;
use crate::statements::bank::LineV;
use crate::text;

verus! {

/// Does the transaction open an account?
pub open spec fn opens(t: TransactionV) -> bool {
    exists|i: int|
        0 <= i < t.postings.len() && (#[trigger] t.postings[i]).account == model::OPENING_EQUITY@
}

/// The accounts of the legs on others than `account`.
pub open spec fn others(postings: Seq<PostingV>, account: Seq<char>) -> Seq<Seq<char>>
    decreases postings.len(),
{
    if postings.len() == 0 {
        Seq::empty()
    } else {
        let before = others(postings.drop_last(), account);
        if postings.last().account != account {
            before.push(postings.last().account)
        } else {
            before
        }
    }
}

/// A leg of the transaction `id` on `account`, as the ledger holds it.
pub open spec fn holding(t: TransactionV, id: int, p: PostingV) -> HeldV {
    HeldV {
        date: t.date,
        amount: p.amount,
        refs: match t.external_ref {
            Some(r) => seq![r],
            None => Seq::empty(),
        },
        other_accounts: others(t.postings, p.account),
        opening: opens(t),
        transaction_id: id,
        unverified: import_batch::is_unverified(p.tags),
    }
}

/// What the ledger holds on `account` of `postings` of the transaction `id`.
pub open spec fn holdings_in(
    t: TransactionV,
    id: int,
    postings: Seq<PostingV>,
    account: Seq<char>,
    c: Currency,
) -> Seq<HeldV>
    decreases postings.len(),
{
    if postings.len() == 0 {
        Seq::empty()
    } else {
        let before = holdings_in(t, id, postings.drop_last(), account, c);
        let p = postings.last();
        if p.account == account && p.currency == c {
            before.push(holding(t, id, p))
        } else {
            before
        }
    }
}

/// What the ledger holds on `account` of the transactions, in their order.
pub open spec fn holdings(
    ts: Seq<TransactionV>,
    ids: Seq<int>,
    account: Seq<char>,
    c: Currency,
) -> Seq<HeldV>
    decreases ts.len(),
{
    if ts.len() == 0 {
        Seq::empty()
    } else {
        let t = ts.last();
        holdings(ts.drop_last(), ids, account, c) + holdings_in(
            t,
            ids[ts.len() - 1],
            t.postings,
            account,
            c,
        )
    }
}

/// The days a plan moves transactions to.
pub open spec fn redated(p: PlanV) -> Seq<(int, int)> {
    plan::moved(p.verified) + plan::deferred_moves(p.deferred)
}

/// The day a posting is on once the plan is carried out.
pub open spec fn day_after(h: HeldV, p: PlanV) -> int {
    match chain::redate_of(redated(p), h.transaction_id) {
        Some(day) => day,
        None => h.date,
    }
}

/// The refs of the lines that check the transaction `id`.
pub open spec fn refs_added(checks: Seq<VerificationV>, id: int) -> Seq<Seq<char>>
    decreases checks.len(),
{
    if checks.len() == 0 {
        Seq::empty()
    } else {
        let before = refs_added(checks.drop_last(), id);
        if checks.last().transaction_id == id {
            before.push(checks.last().statement_ref)
        } else {
            before
        }
    }
}

/// Does one of the checks clear the legs of the transaction `id` on `account`?
pub open spec fn clears(checks: Seq<VerificationV>, id: int, account: Seq<char>) -> bool {
    exists|i: int|
        0 <= i < checks.len() && (#[trigger] checks[i]).transaction_id == id
            && !checks[i].unchecked.contains(account)
}

/// A posting on `account` once the plan is carried out: moved where its
/// transaction is, and checked where a line of the account checks it.
pub open spec fn updated(h: HeldV, account: Seq<char>, p: PlanV) -> HeldV {
    HeldV {
        date: day_after(h, p),
        refs: h.refs + refs_added(p.verified, h.transaction_id),
        unverified: h.unverified && !clears(p.verified, h.transaction_id, account),
        ..h
    }
}

/// What the ledger held on the account of the statement, once the plan is
/// carried out.
pub open spec fn kept(s: LandingV, p: PlanV) -> Seq<HeldV> {
    s.existing.map_values(|h: HeldV| updated(h, s.account, p))
}

/// What the ledger holds on the account of the statement once the plan is
/// carried out and its transactions have the ids `ids`.
pub open spec fn held_after(s: LandingV, p: PlanV, ids: Seq<int>) -> Seq<HeldV> {
    kept(s, p) + holdings(
        plan::transactions_of(p.transactions),
        ids,
        s.account,
        s.statement.currency,
    )
}

/// Are `after` the statements `ls`, landing on the ledger once the plan is
/// carried out in it? In what order it then lists its postings is left open.
pub open spec fn is_landed_after(
    after: Seq<LandingV>,
    ls: Seq<LandingV>,
    p: PlanV,
    ids: Seq<int>,
) -> bool {
    &&& after.len() == ls.len()
    &&& forall|i: int|
        0 <= i < ls.len() ==> (#[trigger] after[i]).account == ls[i].account && after[i].statement
            == ls[i].statement && after[i].files == ls[i].files && tally::same_items(
            after[i].existing,
            held_after(ls[i], p, ids),
        )
}

pub open spec fn day_keys(v: Seq<HeldV>) -> Seq<KeyV> {
    v.map_values(|p: HeldV| KeyV { text: Seq::empty(), numbers: (p.date, 0, 0, 0) })
}

/// Postings by date; those of one day as they stood.
pub open spec fn by_day(v: Seq<HeldV>) -> Seq<HeldV> {
    sort::arranged(v, sort::order(day_keys(v)))
}

/// The statements `ls`, landing on the ledger once the plan is carried out in
/// it. It lists its postings by date; those of one day as they stood before,
/// and the new ones behind them.
pub open spec fn landed_after(ls: Seq<LandingV>, p: PlanV, ids: Seq<int>) -> Seq<LandingV> {
    ls.map_values(
        |s: LandingV| LandingV { existing: by_day(held_after(s, p, ids)), ..s },
    )
}

pub(crate) proof fn arranged_are_the_same<T>(v: Seq<T>, keys: Seq<KeyV>)
    requires
        keys.len() == v.len(),
    ensures
        tally::same_items(sort::arranged(v, sort::order(keys)), v),
    decreases v.len(),
{
    let order = sort::order(keys);
    sort::order_is_a_permutation(keys);
    if v.len() == 0 {
        assert(sort::arranged(v, order) =~= v);
    } else {
        let shorter = keys.drop_last();
        let before = sort::order(shorter);
        sort::order_is_a_permutation(shorter);
        arranged_are_the_same(v.drop_last(), shorter);
        let at = sort::place(keys, before, keys.last());
        sort::place_bounds(keys, before, keys.last());
        let rest = sort::arranged(v.drop_last(), before);
        assert forall|i: int| 0 <= i < order.len() implies sort::arranged(v, order)[i]
            == #[trigger] rest.insert(at, v.last())[i] by {
            if i < at {
                assert(order[i] == before[i]);
            } else if i > at {
                assert(order[i] == before[i - 1]);
            }
        }
        assert(sort::arranged(v, order) =~= rest.insert(at, v.last()));
        vstd::seq_lib::to_multiset_insert(rest, at, v.last());
        v.drop_last().to_multiset_ensures();
        assert(v.drop_last().push(v.last()) =~= v);
    }
}

spec fn move_of() -> spec_fn(HeldV) -> (int, Dec) {
    |p: HeldV| (p.date, p.amount)
}

proof fn holdings_in_move(
    t: TransactionV,
    id: int,
    postings: Seq<PostingV>,
    account: Seq<char>,
    c: Currency,
)
    ensures
        holdings_in(t, id, postings, account, c).map_values(move_of()) == chain::leg_moves(
            postings,
            t.date,
            account,
            c,
        ),
    decreases postings.len(),
{
    let v = holdings_in(t, id, postings, account, c);
    if postings.len() > 0 {
        holdings_in_move(t, id, postings.drop_last(), account, c);
        let before = holdings_in(t, id, postings.drop_last(), account, c);
        if v != before {
            assert(v.map_values(move_of()) =~= before.map_values(move_of()).push(
                move_of()(v.last()),
            ));
        }
    } else {
        assert(v.map_values(move_of()) =~= Seq::empty());
    }
}

proof fn holdings_move(ts: Seq<TransactionV>, ids: Seq<int>, account: Seq<char>, c: Currency)
    ensures
        holdings(ts, ids, account, c).map_values(move_of()) == chain::planned_moves(ts, account, c),
    decreases ts.len(),
{
    let v = holdings(ts, ids, account, c);
    if ts.len() > 0 {
        let t = ts.last();
        let id = ids[ts.len() - 1];
        holdings_move(ts.drop_last(), ids, account, c);
        holdings_in_move(t, id, t.postings, account, c);
        let before = holdings(ts.drop_last(), ids, account, c);
        let more = holdings_in(t, id, t.postings, account, c);
        assert(v.map_values(move_of()) =~= before.map_values(move_of()) + more.map_values(
            move_of(),
        ));
    } else {
        assert(v.map_values(move_of()) =~= Seq::empty());
    }
}

proof fn sorted_keys_stay(v: Seq<(int, Dec)>)
    requires
        chain::in_order(v),
    ensures
        sort::order(chain::date_keys(v)) == Seq::new(v.len(), |i: int| i),
    decreases v.len(),
{
    let keys = chain::date_keys(v);
    if v.len() > 0 {
        let short = v.drop_last();
        assert(keys.drop_last() =~= chain::date_keys(short));
        sorted_keys_stay(short);
        let before = sort::order(chain::date_keys(short));
        if before.len() > 0 {
            assert(before.last() == short.len() - 1);
            assert(keys[before.last()].numbers.0 == v[short.len() - 1].0);
            assert(v[short.len() - 1].0 <= v[v.len() - 1].0);
            sort::keys_in_strict_order(keys.last(), keys[before.last()], keys.last());
            assert(!text::before(keys.last().text, keys[before.last()].text));
        }
        assert(sort::place(keys, before, keys.last()) == before.len());
        assert(sort::order(keys) =~= Seq::new(v.len(), |i: int| i));
    } else {
        assert(sort::order(keys) =~= Seq::new(v.len(), |i: int| i));
    }
}

proof fn by_date_again(v: Seq<(int, Dec)>)
    ensures
        chain::by_date(chain::by_date(v)) == chain::by_date(v),
{
    let w = chain::by_date(v);
    chain::by_date_in_order(v);
    sorted_keys_stay(w);
    assert(chain::by_date(w) =~= w);
}

proof fn held_after_moves(s: LandingV, p: PlanV, ids: Seq<int>)
    ensures
        chain::held_moves(by_day(held_after(s, p, ids)), Seq::empty()) == chain::by_date(
            chain::held_moves(s.existing, redated(p)) + chain::planned_moves(
                plan::transactions_of(p.transactions),
                s.account,
                s.statement.currency,
            ),
        ),
{
    let ts = plan::transactions_of(p.transactions);
    let c = s.statement.currency;
    let all = held_after(s, p, ids);
    let pm = chain::held_moves(s.existing, redated(p)) + chain::planned_moves(ts, s.account, c);
    let new = holdings(ts, ids, s.account, c);
    holdings_move(ts, ids, s.account, c);
    assert(pm.len() == all.len());
    assert forall|i: int| 0 <= i < all.len() implies pm[i] == move_of()(#[trigger] all[i]) by {
        let n = s.existing.len();
        if i < n {
            assert(all[i] == updated(s.existing[i], s.account, p));
        } else {
            assert(all[i] == new[i - n]);
            assert(new.map_values(move_of())[i - n] == move_of()(new[i - n]));
        }
    }
    assert(day_keys(all) =~= chain::date_keys(pm)) by {
        assert forall|i: int| 0 <= i < all.len() implies day_keys(all)[i] == chain::date_keys(
            pm,
        )[i] by {
            assert(pm[i] == move_of()(all[i]));
        }
    }
    let order = sort::order(day_keys(all));
    sort::order_is_a_permutation(day_keys(all));
    let after = by_day(all);
    let moved = chain::held_moves(after, Seq::empty());
    assert forall|i: int| 0 <= i < moved.len() implies moved[i] == #[trigger] chain::by_date(
        pm,
    )[i] by {
        assert(after[i] == all[order[i]]);
        assert(pm[order[i]] == move_of()(all[order[i]]));
    }
    assert(moved =~= chain::by_date(pm));
}

/// The balance of the last line of a day.
spec fn closing_on(lines: Seq<LineV>, day: int) -> Option<Dec>
    decreases lines.len(),
{
    if lines.len() == 0 {
        None
    } else if lines.last().book_date == day {
        Some(lines.last().balance)
    } else {
        closing_on(lines.drop_last(), day)
    }
}

proof fn last_stated(lines: Seq<LineV>, opening: int, q: int)
    requires
        0 <= q < chain::stated(lines, opening).len(),
        forall|r: int|
            q < r < chain::stated(lines, opening).len() ==> (#[trigger] chain::stated(
                lines,
                opening,
            )[r]).0 != chain::stated(lines, opening)[q].0,
    ensures
        chain::stated(lines, opening)[q].0 > opening,
        closing_on(lines, chain::stated(lines, opening)[q].0) == Some(
            chain::stated(lines, opening)[q].1,
        ),
    decreases lines.len(),
{
    let now = chain::stated(lines, opening);
    let before = chain::stated(lines.drop_last(), opening);
    if q < before.len() {
        assert forall|r: int| q < r < before.len() implies (#[trigger] before[r]).0
            != before[q].0 by {
            assert(now[r] == before[r]);
        }
        last_stated(lines.drop_last(), opening, q);
        if lines.last().book_date > opening {
            assert(now[before.len() as int].0 == lines.last().book_date);
        }
    }
}

proof fn stated_on(lines: Seq<LineV>, opening: int, day: int) -> (q: int)
    requires
        day > opening,
        closing_on(lines, day) is Some,
    ensures
        0 <= q < chain::stated(lines, opening).len(),
        chain::stated(lines, opening)[q].0 == day,
    decreases lines.len(),
{
    if lines.last().book_date == day {
        chain::stated(lines.drop_last(), opening).len() as int
    } else {
        stated_on(lines.drop_last(), opening, day)
    }
}

proof fn day_ends_on_the_last(v: Seq<(int, Dec)>, i: int) -> (q: int)
    requires
        0 <= i < v.len(),
        chain::ends_day(chain::by_date(v), i),
    ensures
        0 <= q < v.len(),
        chain::by_date(v)[i] == v[q],
        forall|r: int| q < r < v.len() ==> (#[trigger] v[r]).0 != v[q].0,
{
    let keys = chain::date_keys(v);
    let order = sort::order(keys);
    let d = chain::by_date(v);
    sort::order_is_a_permutation(keys);
    chain::by_date_in_order(v);
    let q = order[i];
    assert(d[i] == v[q]);
    assert forall|r: int| q < r < v.len() implies (#[trigger] v[r]).0 != v[q].0 by {
        if v[r].0 == v[q].0 {
            let j = sort::every_item_is_placed(keys, r);
            assert(d[j] == v[r]);
            assert(keys[q] == keys[r]);
            if j < i {
                sort::keys_in_strict_order(keys[q], keys[r], keys[q]);
                sort::order_sorts(keys, j, i);
            } else if j > i {
                assert(d[i].0 <= d[i + 1].0);
                if i + 1 < j {
                    assert(d[i + 1].0 <= d[j].0);
                }
            }
        }
    }
    q
}

proof fn end_of_day(d: Seq<(int, Dec)>, j: int) -> (m: int)
    requires
        0 <= j < d.len(),
    ensures
        j <= m < d.len(),
        chain::ends_day(d, m),
        d[m].0 == d[j].0,
    decreases d.len() - j,
{
    if j + 1 < d.len() && d[j + 1].0 == d[j].0 {
        end_of_day(d, j + 1)
    } else {
        j
    }
}

/// Does the day end on the balance, or is it the one left out?
spec fn is_held(moves: Seq<(int, Dec)>, skip: Option<int>, day: int, want: Dec) -> bool {
    chain::through(moves, day) matches Some(b) && (Some(day) == skip || amount::equal(
        b,
        want,
    ))
}

proof fn each_day_held(
    s: LandingV,
    days: Seq<(int, Dec)>,
    moves: Seq<(int, Dec)>,
    skip: Option<int>,
    n: int,
    i: int,
)
    requires
        0 <= i < n,
        chain::days_hold(s, days, moves, skip, n) is Ok,
        chain::ends_day(days, i),
    ensures
        is_held(moves, skip, days[i].0, days[i].1),
    decreases n,
{
    if i < n - 1 {
        each_day_held(s, days, moves, skip, n - 1, i);
    }
}

proof fn days_held_again(
    s: LandingV,
    days: Seq<(int, Dec)>,
    moves: Seq<(int, Dec)>,
    skip: Option<int>,
    n: int,
)
    requires
        forall|i: int|
            0 <= i < n && chain::ends_day(days, i) ==> is_held(
                moves,
                skip,
                (#[trigger] days[i]).0,
                days[i].1,
            ),
    ensures
        chain::days_hold(s, days, moves, skip, n) is Ok,
    decreases n,
{
    if n > 0 {
        days_held_again(s, days, moves, skip, n - 1);
        if chain::ends_day(days, n - 1) {
            assert(is_held(moves, skip, days[n - 1].0, days[n - 1].1));
        }
    }
}

/// The balances of a statement that hold with the plan on top of the ledger
/// hold once the plan is carried out in it, for the days after `later` too.
pub(crate) proof fn chained_again(
    s: LandingV,
    p: PlanV,
    ids: Seq<int>,
    opening: int,
    later: int,
)
    requires
        opening <= later,
        chain::chained(s, opening, plan::transactions_of(p.transactions), redated(p)) is Ok,
    ensures
        chain::chained(
            LandingV { existing: by_day(held_after(s, p, ids)), ..s },
            later,
            Seq::empty(),
            Seq::empty(),
        ) is Ok,
{
    let c = s.statement.currency;
    let lines = s.statement.lines;
    let ts = plan::transactions_of(p.transactions);
    let t = LandingV { existing: by_day(held_after(s, p, ids)), ..s };
    let pm = chain::held_moves(s.existing, redated(p)) + chain::planned_moves(ts, s.account, c);
    held_after_moves(s, p, ids);
    by_date_again(pm);
    let none = chain::planned_moves(Seq::empty(), s.account, c);
    assert(chain::held_moves(t.existing, Seq::empty()) + none =~= chain::by_date(pm));
    let moves = chain::by_date(pm);
    let skip = chain::skipped(s, ts);
    let more = chain::skipped(t, Seq::empty());
    assert(!chain::moves_on(none, lines.last().book_date));
    assert(skip is None || skip == more);
    let before = chain::stated(lines, opening);
    let now = chain::stated(lines, later);
    let days = chain::by_date(before);
    let redays = chain::by_date(now);
    chain::by_date_in_order(before);
    chain::by_date_in_order(now);
    assert forall|i: int| 0 <= i < redays.len() && chain::ends_day(redays, i) implies is_held(
        moves,
        more,
        (#[trigger] redays[i]).0,
        redays[i].1,
    ) by {
        let day = redays[i].0;
        let q = day_ends_on_the_last(now, i);
        last_stated(lines, later, q);
        let b = stated_on(lines, opening, day);
        let keys = chain::date_keys(before);
        let j = sort::every_item_is_placed(keys, b);
        assert(days[j] == before[b]);
        let m = end_of_day(days, j);
        let z = day_ends_on_the_last(before, m);
        last_stated(lines, opening, z);
        each_day_held(s, days, moves, skip, days.len() as int, m);
    }
    days_held_again(t, redays, moves, more, redays.len() as int);
}

} // verus!
