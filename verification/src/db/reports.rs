//! What the reports promise: every figure is what the postings it covers come
//! to, each at the rate of its day.

use vstd::prelude::*;

use crate::accounts;
use crate::amount;
use crate::amount::Dec;
use crate::currency;
use crate::currency::Currency;
use crate::date;
use crate::db::agreement;
use crate::db::periods;
use crate::db::query;
use crate::db::query::{
    AccountRowV, AccountType, BalanceV, DataV, EntryV, Measure, PeriodV, PointV, PositionV,
    PostingRowV, Range, Terms,
};
use crate::db::rates;
use crate::db::rates::SeriesV;
use crate::keyed;
use crate::sort;
use crate::text;

verus! {

/// An amount of one currency times the rate of a day; 0 needs no rate.
pub open spec fn at_rate(
    prices: Seq<SeriesV>,
    a: Dec,
    from: Currency,
    to: Currency,
    day: int,
) -> Option<Dec> {
    if a.magnitude == 0 {
        Some(amount::zero())
    } else {
        match rates::rate_at(prices, from, to, day) {
            Ok(rate) => amount::product(a, rate),
            Err(_) => None,
        }
    }
}

/// The balances of one type of account, but for those of accounts carried at
/// cost.
pub open spec fn counted(bs: Seq<BalanceV>, roots: Seq<Seq<char>>, kind: AccountType) -> Seq<
    BalanceV,
> {
    bs.filter(|b: BalanceV| b.account_type == kind && !accounts::under_any(b.path, roots))
}

/// The balances in the base currency.
pub open spec fn in_base(t: Terms, bs: Seq<BalanceV>, as_of: int) -> Seq<Dec> {
    bs.map_values(|b: BalanceV| at_rate(t.prices, b.amount, b.currency, t.base, as_of)->0)
}

/// The balances of one side of the balance sheet, in the base currency.
pub open spec fn side(t: Terms, bs: Seq<BalanceV>, kind: AccountType, as_of: int) -> Seq<Dec> {
    in_base(t, counted(bs, t.roots, kind), as_of)
}

proof fn sides_are_totals(t: Terms, bs: Seq<BalanceV>, as_of: int)
    requires
        query::sides(t, bs, as_of) is Ok,
    ensures
        amount::total(side(t, bs, AccountType::Asset, as_of)) == Some(
            (query::sides(t, bs, as_of)->Ok_0).0,
        ),
        amount::total(side(t, bs, AccountType::Liability, as_of)) == Some(
            (query::sides(t, bs, as_of)->Ok_0).1,
        ),
        forall|i: int|
            0 <= i < bs.len() && ((#[trigger] bs[i]).account_type == AccountType::Asset
                || bs[i].account_type == AccountType::Liability) && !accounts::under_any(
                bs[i].path,
                t.roots,
            ) ==> at_rate(t.prices, bs[i].amount, bs[i].currency, t.base, as_of) is Some,
    decreases bs.len(),
{
    reveal(Seq::filter);
    if bs.len() == 0 {
        assert(side(t, bs, AccountType::Asset, as_of) =~= Seq::empty());
        assert(side(t, bs, AccountType::Liability, as_of) =~= Seq::empty());
    } else {
        let shorter = bs.drop_last();
        sides_are_totals(t, shorter, as_of);
        assert forall|i: int|
            0 <= i < bs.len() && ((#[trigger] bs[i]).account_type == AccountType::Asset
                || bs[i].account_type == AccountType::Liability) && !accounts::under_any(
                bs[i].path,
                t.roots,
            ) implies at_rate(t.prices, bs[i].amount, bs[i].currency, t.base, as_of) is Some by {
            if i < shorter.len() {
                assert(shorter[i] == bs[i]);
            }
        }
        a_side_grows(t, bs, AccountType::Asset, as_of);
        a_side_grows(t, bs, AccountType::Liability, as_of);
    }
}

proof fn a_side_grows(t: Terms, bs: Seq<BalanceV>, kind: AccountType, as_of: int)
    requires
        bs.len() > 0,
    ensures
        ({
            let b = bs.last();
            let before = side(t, bs.drop_last(), kind, as_of);
            let now = side(t, bs, kind, as_of);
            if b.account_type == kind && !accounts::under_any(b.path, t.roots) {
                &&& now.len() == before.len() + 1
                &&& now.drop_last() == before
                &&& now.last() == at_rate(t.prices, b.amount, b.currency, t.base, as_of)->0
            } else {
                now == before
            }
        }),
{
    reveal(Seq::filter);
    let b = bs.last();
    let before = side(t, bs.drop_last(), kind, as_of);
    let now = side(t, bs, kind, as_of);
    if b.account_type == kind && !accounts::under_any(b.path, t.roots) {
        assert(now.drop_last() =~= before);
    } else {
        assert(now =~= before);
    }
}

/// Net worth is what the assets and the liabilities come to: each is the total
/// of all balances of its type, each at the rate of the day, but for those of
/// accounts carried at cost. Balances of other types add nothing.
pub proof fn net_worth_is_assets_and_liabilities(d: DataV, t: Terms, as_of: int)
    requires
        query::net_worth(d, t, as_of) is Ok,
    ensures
        ({
            let p = query::net_worth(d, t, as_of)->Ok_0;
            let bs = query::balances(d, as_of);
            &&& p.date == as_of
            &&& amount::total(side(t, bs, AccountType::Asset, as_of)) == Some(p.assets)
            &&& amount::total(side(t, bs, AccountType::Liability, as_of)) == Some(p.liabilities)
            &&& amount::sum(p.assets, p.liabilities) == Some(p.net)
        }),
{
    sides_are_totals(t, query::balances(d, as_of), as_of);
}

/// Is nothing rounded as a net worth is added up?
pub open spec fn is_exact(d: DataV, t: Terms, as_of: int) -> bool {
    let bs = query::balances(d, as_of);
    &&& amount::totals_exactly(side(t, bs, AccountType::Asset, as_of))
    &&& amount::totals_exactly(side(t, bs, AccountType::Liability, as_of))
    &&& query::net_worth(d, t, as_of) matches Ok(p) ==> amount::adds_exactly(
        p.assets,
        p.liabilities,
    )
}

/// The amounts of the balances.
pub open spec fn amounts_of(bs: Seq<BalanceV>) -> Seq<Dec> {
    bs.map_values(|b: BalanceV| b.amount)
}

/// Is an amount worth as much once it is multiplied by 1?
pub open spec fn is_plain(a: Dec) -> bool {
    amount::product(a, amount::one()) matches Some(x) ==> amount::worth(x) == amount::worth(a)
}

/// Are the balances in the base currency, and worth as much at a rate of 1?
pub open spec fn are_plain(t: Terms, bs: Seq<BalanceV>) -> bool {
    forall|i: int| 0 <= i < bs.len() ==> (#[trigger] bs[i]).currency == t.base && is_plain(
        bs[i].amount,
    )
}

/// Where every balance that counts is in the base currency and nothing is
/// rounded, the assets are worth what the asset balances that count are worth
/// together, the liabilities what the liability balances are, and net worth
/// what both are.
pub proof fn net_worth_in_one_currency(d: DataV, t: Terms, as_of: int)
    requires
        query::net_worth(d, t, as_of) is Ok,
        is_exact(d, t, as_of),
        are_plain(t, counted(query::balances(d, as_of), t.roots, AccountType::Asset)),
        are_plain(t, counted(query::balances(d, as_of), t.roots, AccountType::Liability)),
    ensures
        ({
            let p = query::net_worth(d, t, as_of)->Ok_0;
            let bs = query::balances(d, as_of);
            let assets = amount::worths(amounts_of(counted(bs, t.roots, AccountType::Asset)));
            let liabilities = amount::worths(
                amounts_of(counted(bs, t.roots, AccountType::Liability)),
            );
            &&& amount::worth(p.assets) == assets
            &&& amount::worth(p.liabilities) == liabilities
            &&& amount::worth(p.net) == assets + liabilities
        }),
{
    let bs = query::balances(d, as_of);
    net_worth_is_assets_and_liabilities(d, t, as_of);
    sides_are_totals(t, bs, as_of);
    amount::an_exact_total(side(t, bs, AccountType::Asset, as_of));
    amount::an_exact_total(side(t, bs, AccountType::Liability, as_of));
    in_its_own_currency(t, bs, AccountType::Asset, as_of);
    in_its_own_currency(t, bs, AccountType::Liability, as_of);
}

proof fn in_its_own_currency(t: Terms, bs: Seq<BalanceV>, kind: AccountType, as_of: int)
    requires
        are_plain(t, counted(bs, t.roots, kind)),
        forall|i: int|
            0 <= i < bs.len() && (#[trigger] bs[i]).account_type == kind && !accounts::under_any(
                bs[i].path,
                t.roots,
            ) ==> at_rate(t.prices, bs[i].amount, bs[i].currency, t.base, as_of) is Some,
    ensures
        amount::worths(side(t, bs, kind, as_of)) == amount::worths(
            amounts_of(counted(bs, t.roots, kind)),
        ),
{
    let pred = |b: BalanceV| b.account_type == kind && !accounts::under_any(b.path, t.roots);
    let some = counted(bs, t.roots, kind);
    let a = side(t, bs, kind, as_of);
    let b = amounts_of(some);
    assert forall|i: int| 0 <= i < a.len() implies amount::worth(#[trigger] a[i]) == amount::worth(
        b[i],
    ) by {
        bs.lemma_filter_pred(pred, i);
        assert(some.contains(some[i]));
        bs.lemma_filter_contains_rev(pred, some[i]);
        let k = choose|k: int| 0 <= k < bs.len() && bs[k] == some[i];
        assert(at_rate(t.prices, bs[k].amount, bs[k].currency, t.base, as_of) is Some);
        assert(is_plain(some[i].amount));
        if some[i].amount.magnitude == 0 {
            amount::zero_worth(some[i].amount);
            amount::zero_worth(amount::zero());
        }
    }
    amount::worths_alike(a, b);
}

proof fn one_more_in_a_side(
    t: Terms,
    bs: Seq<BalanceV>,
    at: int,
    b: BalanceV,
    kind: AccountType,
    as_of: int,
)
    requires
        0 <= at <= bs.len(),
    ensures
        amount::worths(side(t, bs.insert(at, b), kind, as_of)) == amount::worths(
            side(t, bs, kind, as_of),
        ) + (if b.account_type == kind && !accounts::under_any(b.path, t.roots) {
            amount::worth(at_rate(t.prices, b.amount, b.currency, t.base, as_of)->0)
        } else {
            0
        }),
{
    let pred = |b: BalanceV| b.account_type == kind && !accounts::under_any(b.path, t.roots);
    let (head, tail) = (bs.take(at), bs.skip(at));
    assert(bs =~= head + tail);
    assert(bs.insert(at, b) =~= head.push(b) + tail);
    Seq::filter_distributes_over_add(head, tail, pred);
    Seq::filter_distributes_over_add(head.push(b), tail, pred);
    assert(head.push(b).drop_last() =~= head);
    a_side_grows(t, head.push(b), kind, as_of);
    assert(side(t, bs, kind, as_of) =~= side(t, head, kind, as_of) + side(t, tail, kind, as_of));
    assert(side(t, bs.insert(at, b), kind, as_of) =~= side(t, head.push(b), kind, as_of) + side(
        t,
        tail,
        kind,
        as_of,
    ));
    amount::worths_in_two(side(t, head, kind, as_of), side(t, tail, kind, as_of));
    amount::worths_in_two(side(t, head.push(b), kind, as_of), side(t, tail, kind, as_of));
}

/// A ledger with one balance more is worth that balance more, where nothing is
/// rounded: an asset adds to the assets alone and a liability to the liabilities
/// alone, and neither equity, income, expenses nor what is carried at cost adds
/// anything.
pub proof fn one_more_balance_is_worth_itself(
    before: DataV,
    after: DataV,
    t: Terms,
    as_of: int,
    at: int,
    b: BalanceV,
)
    requires
        query::net_worth(before, t, as_of) is Ok,
        query::net_worth(after, t, as_of) is Ok,
        is_exact(before, t, as_of),
        is_exact(after, t, as_of),
        0 <= at <= query::balances(before, as_of).len(),
        query::balances(after, as_of) == query::balances(before, as_of).insert(at, b),
    ensures
        ({
            let p = query::net_worth(before, t, as_of)->Ok_0;
            let q = query::net_worth(after, t, as_of)->Ok_0;
            let x = amount::worth(at_rate(t.prices, b.amount, b.currency, t.base, as_of)->0);
            let at_cost = accounts::under_any(b.path, t.roots);
            let assets = if b.account_type == AccountType::Asset && !at_cost {
                x
            } else {
                0
            };
            let liabilities = if b.account_type == AccountType::Liability && !at_cost {
                x
            } else {
                0
            };
            &&& amount::worth(q.assets) == amount::worth(p.assets) + assets
            &&& amount::worth(q.liabilities) == amount::worth(p.liabilities) + liabilities
            &&& amount::worth(q.net) == amount::worth(p.net) + assets + liabilities
        }),
{
    let bs = query::balances(before, as_of);
    net_worth_is_assets_and_liabilities(before, t, as_of);
    net_worth_is_assets_and_liabilities(after, t, as_of);
    amount::an_exact_total(side(t, bs, AccountType::Asset, as_of));
    amount::an_exact_total(side(t, bs, AccountType::Liability, as_of));
    amount::an_exact_total(side(t, bs.insert(at, b), AccountType::Asset, as_of));
    amount::an_exact_total(side(t, bs.insert(at, b), AccountType::Liability, as_of));
    one_more_in_a_side(t, bs, at, b, AccountType::Asset, as_of);
    one_more_in_a_side(t, bs, at, b, AccountType::Liability, as_of);
}

/// The postings to accounts of one type, from one day through another.
pub open spec fn dated(
    d: DataV,
    postings: Seq<EntryV>,
    kind: AccountType,
    from: int,
    to: int,
) -> Seq<EntryV> {
    postings.filter(
        |p: EntryV| query::meta(d, p.account_id).account_type == kind && from <= p.date <= to,
    )
}

/// The postings in the base currency, each at the rate of its own day.
pub open spec fn at_own_rates(prices: Seq<SeriesV>, base: Currency, ps: Seq<EntryV>) -> Seq<Dec> {
    ps.map_values(|p: EntryV| at_rate(prices, p.amount, p.currency, base, p.date)->0)
}

spec fn in_period(d: DataV, r: Range, kind: AccountType, start: int) -> spec_fn(EntryV) -> bool {
    |p: EntryV|
        query::meta(d, p.account_id).account_type == kind && r.start <= p.date <= r.end
            && periods::period_start(p.date, r.grain) == start
}

proof fn one_more_posting(
    prices: Seq<SeriesV>,
    base: Currency,
    ps: Seq<EntryV>,
    f: spec_fn(EntryV) -> bool,
)
    requires
        ps.len() > 0,
    ensures
        ({
            let p = ps.last();
            let before = at_own_rates(prices, base, ps.drop_last().filter(f));
            let now = at_own_rates(prices, base, ps.filter(f));
            if f(p) {
                &&& now.len() == before.len() + 1
                &&& now.drop_last() == before
                &&& now.last() == at_rate(prices, p.amount, p.currency, base, p.date)->0
            } else {
                now == before
            }
        }),
{
    reveal(Seq::filter);
    let before = at_own_rates(prices, base, ps.drop_last().filter(f));
    let now = at_own_rates(prices, base, ps.filter(f));
    if f(ps.last()) {
        assert(now.drop_last() =~= before);
    } else {
        assert(now =~= before);
    }
}

proof fn flows_are_totals(
    d: DataV,
    base: Currency,
    prices: Seq<SeriesV>,
    r: Range,
    postings: Seq<EntryV>,
    start: int,
)
    requires
        query::flows(d, base, prices, r, postings) is Ok,
    ensures
        ({
            let m = query::flows(d, base, prices, r, postings)->Ok_0;
            let income = postings.filter(in_period(d, r, AccountType::Income, start));
            let expense = postings.filter(in_period(d, r, AccountType::Expense, start));
            &&& amount::taken(at_own_rates(prices, base, income)) == Some(m[start].0)
            &&& amount::total(at_own_rates(prices, base, expense)) == Some(m[start].1)
        }),
    decreases postings.len(),
{
    let income = in_period(d, r, AccountType::Income, start);
    let expense = in_period(d, r, AccountType::Expense, start);
    if postings.len() == 0 {
        reveal(Seq::filter);
        assert(at_own_rates(prices, base, postings.filter(income)) =~= Seq::empty());
        assert(at_own_rates(prices, base, postings.filter(expense)) =~= Seq::empty());
    } else {
        flows_are_totals(d, base, prices, r, postings.drop_last(), start);
        one_more_posting(prices, base, postings, income);
        one_more_posting(prices, base, postings, expense);
    }
}

proof fn all_are_rated(
    d: DataV,
    base: Currency,
    prices: Seq<SeriesV>,
    r: Range,
    postings: Seq<EntryV>,
    i: int,
)
    requires
        query::flows(d, base, prices, r, postings) is Ok,
        0 <= i < postings.len(),
        r.start <= postings[i].date <= r.end,
        query::meta(d, postings[i].account_id).account_type == AccountType::Income || query::meta(
            d,
            postings[i].account_id,
        ).account_type == AccountType::Expense,
    ensures
        at_rate(prices, postings[i].amount, postings[i].currency, base, postings[i].date) is Some,
    decreases postings.len(),
{
    if i < postings.len() - 1 {
        all_are_rated(d, base, prices, r, postings.drop_last(), i);
    }
}

proof fn alike_are_filtered_alike(
    ps: Seq<EntryV>,
    f: spec_fn(EntryV) -> bool,
    g: spec_fn(EntryV) -> bool,
)
    requires
        forall|i: int| 0 <= i < ps.len() ==> f(#[trigger] ps[i]) == g(ps[i]),
    ensures
        ps.filter(f) == ps.filter(g),
    decreases ps.len(),
{
    reveal(Seq::filter);
    if ps.len() > 0 {
        assert forall|i: int| 0 <= i < ps.drop_last().len() implies f(#[trigger] ps.drop_last()[i])
            == g(ps.drop_last()[i]) by {
            assert(ps.drop_last()[i] == ps[i]);
        }
        alike_are_filtered_alike(ps.drop_last(), f, g);
        assert(ps[ps.len() - 1] == ps.last());
    }
}

proof fn reported_each(
    r: Range,
    spans: Seq<(int, int)>,
    m: Map<int, (Dec, Dec)>,
    i: int,
)
    requires
        query::reported(r, spans, m) is Ok,
        0 <= i < spans.len(),
    ensures
        ({
            let all = query::reported(r, spans, m)->Ok_0;
            let (start, end) = spans[i];
            &&& all.len() == spans.len()
            &&& all[i].start == query::later(start, r.start)
            &&& all[i].end == query::earlier(end, r.end)
            &&& all[i].income == m[start].0
            &&& all[i].expense == m[start].1
            &&& amount::difference(all[i].income, all[i].expense) == Some(all[i].net)
        }),
    decreases spans.len(),
{
    if i < spans.len() - 1 {
        reported_each(r, spans.drop_last(), m, i);
        assert(spans.drop_last()[i] == spans[i]);
    } else if spans.len() > 1 {
        reported_each(r, spans.drop_last(), m, 0);
    }
}

/// The days of a report, which lie in the calendar.
pub open spec fn are_days(r: Range) -> bool {
    &&& date::MIN_DAY <= r.start <= date::MAX_DAY
    &&& date::MIN_DAY <= r.end <= date::MAX_DAY
    &&& periods::in_calendar(r.start, r.end, r.grain)
}

proof fn reported_in_range(r: Range, spans: Seq<(int, int)>, m: Map<int, (Dec, Dec)>)
    requires
        query::reported(r, spans, m) is Ok,
    ensures
        (query::reported(r, spans, m)->Ok_0).len() == spans.len(),
{
    if spans.len() > 0 {
        reported_each(r, spans, m, 0);
    }
}

/// A period's expense is the total of the expense postings of its days, each
/// amount times the rate of its own day from its currency to the base. Its
/// income is what is left of 0 once the income postings of its days are taken
/// away, each at the rate of its day. Its net is the income less the expense.
pub proof fn a_period_reports_the_postings_of_its_days(
    d: DataV,
    base: Currency,
    prices: Seq<SeriesV>,
    r: Range,
    i: int,
)
    requires
        query::periodic(d, base, prices, r) is Ok,
        are_days(r),
        0 <= i < (query::periodic(d, base, prices, r)->Ok_0).len(),
    ensures
        ({
            let p = (query::periodic(d, base, prices, r)->Ok_0)[i];
            let income = dated(d, d.postings, AccountType::Income, p.start, p.end);
            let expense = dated(d, d.postings, AccountType::Expense, p.start, p.end);
            &&& amount::taken(at_own_rates(prices, base, income)) == Some(p.income)
            &&& amount::total(at_own_rates(prices, base, expense)) == Some(p.expense)
            &&& amount::difference(p.income, p.expense) == Some(p.net)
        }),
{
    let first = periods::period_start(r.start, r.grain);
    let spans = periods::periods(first, r.end, r.grain);
    let m = query::flows(d, base, prices, r, d.postings)->Ok_0;
    let p = (query::periodic(d, base, prices, r)->Ok_0)[i];
    reported_in_range(r, spans, m);
    reported_each(r, spans, m, i);
    periods::period_holds_its_days(r.start, r.grain);
    let start = spans[i].0;
    flows_are_totals(d, base, prices, r, d.postings, start);
    same_days(d, r, AccountType::Income, p, i);
    same_days(d, r, AccountType::Expense, p, i);
}

proof fn same_days(d: DataV, r: Range, kind: AccountType, p: PeriodV, i: int)
    requires
        are_days(r),
        ({
            let spans = periods::periods(
                periods::period_start(r.start, r.grain),
                r.end,
                r.grain,
            );
            &&& 0 <= i < spans.len()
            &&& p.start == query::later(spans[i].0, r.start)
            &&& p.end == query::earlier(spans[i].1, r.end)
        }),
    ensures
        ({
            let spans = periods::periods(
                periods::period_start(r.start, r.grain),
                r.end,
                r.grain,
            );
            d.postings.filter(in_period(d, r, kind, spans[i].0)) == dated(
                d,
                d.postings,
                kind,
                p.start,
                p.end,
            )
        }),
{
    let first = periods::period_start(r.start, r.grain);
    let spans = periods::periods(first, r.end, r.grain);
    let f = in_period(d, r, kind, spans[i].0);
    let g = |q: EntryV|
        query::meta(d, q.account_id).account_type == kind && p.start <= q.date <= p.end;
    periods::period_holds_its_days(r.start, r.grain);
    assert forall|k: int| 0 <= k < d.postings.len() implies f(#[trigger] d.postings[k]) == g(
        d.postings[k],
    ) by {
        let day = d.postings[k].date;
        if r.start <= day <= r.end {
            periods::periods_cover_the_range(first, r.end, r.grain, day);
            assert(spans[i].0 <= day <= spans[i].1 <==> spans[i].0 == periods::period_start(
                day,
                r.grain,
            ));
        }
    }
    alike_are_filtered_alike(d.postings, f, g);
}

/// Where nothing is rounded, a period's expense is worth what the expense
/// postings of its days are worth together, each at the rate of its own day,
/// its income minus what the income postings are worth, and its net the one
/// less the other.
pub proof fn a_period_is_worth_its_postings(
    d: DataV,
    base: Currency,
    prices: Seq<SeriesV>,
    r: Range,
    i: int,
)
    requires
        query::periodic(d, base, prices, r) is Ok,
        are_days(r),
        0 <= i < (query::periodic(d, base, prices, r)->Ok_0).len(),
        ({
            let p = (query::periodic(d, base, prices, r)->Ok_0)[i];
            let income = dated(d, d.postings, AccountType::Income, p.start, p.end);
            let expense = dated(d, d.postings, AccountType::Expense, p.start, p.end);
            &&& amount::taken_exactly(at_own_rates(prices, base, income))
            &&& amount::totals_exactly(at_own_rates(prices, base, expense))
            &&& amount::takes_exactly(p.income, p.expense)
        }),
    ensures
        ({
            let p = (query::periodic(d, base, prices, r)->Ok_0)[i];
            let income = dated(d, d.postings, AccountType::Income, p.start, p.end);
            let expense = dated(d, d.postings, AccountType::Expense, p.start, p.end);
            let earned = -amount::worths(at_own_rates(prices, base, income));
            let spent = amount::worths(at_own_rates(prices, base, expense));
            &&& amount::worth(p.income) == earned
            &&& amount::worth(p.expense) == spent
            &&& amount::worth(p.net) == earned - spent
        }),
{
    let p = (query::periodic(d, base, prices, r)->Ok_0)[i];
    let income = dated(d, d.postings, AccountType::Income, p.start, p.end);
    let expense = dated(d, d.postings, AccountType::Expense, p.start, p.end);
    a_period_reports_the_postings_of_its_days(d, base, prices, r, i);
    amount::an_exact_remainder(at_own_rates(prices, base, income));
    amount::an_exact_total(at_own_rates(prices, base, expense));
}

/// A period with one expense posting reports its amount times the rate of its
/// day, where nothing is rounded as that is added to 0.
pub proof fn a_single_expense_is_reported_at_its_rate(
    d: DataV,
    base: Currency,
    prices: Seq<SeriesV>,
    r: Range,
    i: int,
    q: EntryV,
    rate: Dec,
)
    requires
        query::periodic(d, base, prices, r) is Ok,
        are_days(r),
        0 <= i < (query::periodic(d, base, prices, r)->Ok_0).len(),
        ({
            let p = (query::periodic(d, base, prices, r)->Ok_0)[i];
            dated(d, d.postings, AccountType::Expense, p.start, p.end) == seq![q]
        }),
        q.amount.magnitude != 0,
        rates::rate_at(prices, q.currency, base, q.date) == Ok::<Dec, Seq<char>>(rate),
        amount::product(q.amount, rate) matches Some(x) ==> amount::adds_exactly(
            amount::zero(),
            x,
        ),
    ensures
        ({
            let p = (query::periodic(d, base, prices, r)->Ok_0)[i];
            amount::product(q.amount, rate) matches Some(x) && amount::worth(p.expense)
                == amount::worth(x)
        }),
{
    let p = (query::periodic(d, base, prices, r)->Ok_0)[i];
    let expense = dated(d, d.postings, AccountType::Expense, p.start, p.end);
    a_period_reports_the_postings_of_its_days(d, base, prices, r, i);
    let f = |q: EntryV|
        query::meta(d, q.account_id).account_type == AccountType::Expense && p.start <= q.date
            <= p.end;
    assert(expense[0] == q);
    d.postings.lemma_filter_pred(f, 0);
    assert(d.postings.filter(f).contains(q));
    d.postings.lemma_filter_contains_rev(f, q);
    let k = choose|k: int| 0 <= k < d.postings.len() && d.postings[k] == q;
    let first = periods::period_start(r.start, r.grain);
    let spans = periods::periods(first, r.end, r.grain);
    reported_in_range(r, spans, query::flows(d, base, prices, r, d.postings)->Ok_0);
    reported_each(r, spans, query::flows(d, base, prices, r, d.postings)->Ok_0, i);
    all_are_rated(d, base, prices, r, d.postings, k);
    let x = amount::product(q.amount, rate)->0;
    let one = at_own_rates(prices, base, expense);
    assert(one =~= seq![x]);
    assert(one.drop_last() =~= Seq::<Dec>::empty());
    reveal_with_fuel(amount::total, 2);
    amount::zero_worth(amount::zero());
}

/// The periods of a report follow one another without a gap, from the first
/// day of the range through its last.
pub proof fn reported_periods_meet(
    d: DataV,
    base: Currency,
    prices: Seq<SeriesV>,
    r: Range,
)
    requires
        query::periodic(d, base, prices, r) is Ok,
        are_days(r),
        r.start <= r.end,
    ensures
        ({
            let ps = query::periodic(d, base, prices, r)->Ok_0;
            &&& ps.len() > 0
            &&& ps[0].start == r.start
            &&& ps.last().end == r.end
            &&& forall|i: int| 0 < i < ps.len() ==> (#[trigger] ps[i]).start == ps[i - 1].end + 1
        }),
{
    let first = periods::period_start(r.start, r.grain);
    let spans = periods::periods(first, r.end, r.grain);
    let m = query::flows(d, base, prices, r, d.postings)->Ok_0;
    let ps = query::periodic(d, base, prices, r)->Ok_0;
    periods::period_holds_its_days(r.start, r.grain);
    periods::periods_cover_the_range(first, r.end, r.grain, r.start);
    reported_in_range(r, spans, m);
    reported_each(r, spans, m, 0);
    reported_each(r, spans, m, spans.len() - 1);
    assert forall|i: int| 0 < i < ps.len() implies (#[trigger] ps[i]).start == ps[i - 1].end
        + 1 by {
        reported_each(r, spans, m, i);
        reported_each(r, spans, m, i - 1);
        assert(spans[i].0 == spans[i - 1].1 + 1);
        query::starts_in_strict_order(first, r.end, r.grain, 0, i);
        query::starts_in_strict_order(first, r.end, r.grain, i - 1, i);
        if i < spans.len() - 1 {
            query::starts_in_strict_order(first, r.end, r.grain, i, spans.len() - 1);
        }
        assert(spans[0].0 <= r.start <= spans[0].1) by {
            assert(spans[0].0 == periods::period_start(r.start, r.grain));
        }
        assert(spans[1].0 == spans[0].1 + 1);
        if i > 1 {
            query::starts_in_strict_order(first, r.end, r.grain, 1, i);
        }
    }
}

/// A figure of each position in the reporting currency.
pub open spec fn each_at_rate(
    prices: Seq<SeriesV>,
    items: Seq<(Currency, Dec)>,
    to: Currency,
    as_of: int,
) -> Seq<Dec> {
    items.map_values(|c: (Currency, Dec)| at_rate(prices, c.1, c.0, to, as_of)->0)
}

/// What each position cost.
pub open spec fn costs(ps: Seq<PositionV>) -> Seq<(Currency, Dec)> {
    ps.map_values(|p: PositionV| (p.currency, p.total_cost))
}

/// What each position would sell for.
pub open spec fn market_values(ps: Seq<PositionV>) -> Seq<(Currency, Dec)> {
    ps.map_values(|p: PositionV| (p.currency, p.market_value))
}

/// What each position has gained and not yet brought in.
pub open spec fn unrealized(ps: Seq<PositionV>) -> Seq<(Currency, Dec)> {
    ps.map_values(|p: PositionV| (p.currency, p.unrealized_pnl_value))
}

/// What each position has brought in.
pub open spec fn realized(ps: Seq<PositionV>) -> Seq<(Currency, Dec)> {
    ps.map_values(|p: PositionV| (p.currency, p.realized_pnl_value))
}

proof fn converted_totals_are_totals(
    prices: Seq<SeriesV>,
    items: Seq<(Currency, Dec)>,
    to: Currency,
    as_of: int,
)
    requires
        query::converted_total(prices, items, to, as_of) is Ok,
    ensures
        amount::total(each_at_rate(prices, items, to, as_of)) == Some(
            query::converted_total(prices, items, to, as_of)->Ok_0,
        ),
        forall|i: int|
            0 <= i < items.len() ==> at_rate(
                prices,
                (#[trigger] items[i]).1,
                items[i].0,
                to,
                as_of,
            ) is Some,
    decreases items.len(),
{
    let all = each_at_rate(prices, items, to, as_of);
    if items.len() == 0 {
        assert(all =~= Seq::empty());
    } else {
        let shorter = items.drop_last();
        converted_totals_are_totals(prices, shorter, to, as_of);
        assert(all.drop_last() =~= each_at_rate(prices, shorter, to, as_of));
        assert forall|i: int| 0 <= i < items.len() implies at_rate(
            prices,
            (#[trigger] items[i]).1,
            items[i].0,
            to,
            as_of,
        ) is Some by {
            if i < shorter.len() {
                assert(shorter[i] == items[i]);
            }
        }
    }
}

/// Each total of a holdings report adds up that figure of every position, at
/// the rate of the day: the cost their costs, the market value their market
/// values, the unrealized gain their unrealized gains and the realized gain
/// their realized gains. The cash is that of every currency, and the value of
/// the whole is the market value and the cash.
pub proof fn holdings_total_their_positions(
    as_of: int,
    to: Currency,
    ps: Seq<PositionV>,
    cash: Seq<(Currency, Dec)>,
    prices: Seq<SeriesV>,
)
    requires
        query::holdings(as_of, to, ps, cash, prices) is Ok,
    ensures
        ({
            let h = query::holdings(as_of, to, ps, cash, prices)->Ok_0;
            &&& h.as_of == as_of
            &&& h.reporting_currency == to
            &&& amount::total(each_at_rate(prices, costs(ps), to, as_of)) == Some(h.total_cost)
            &&& amount::total(each_at_rate(prices, market_values(ps), to, as_of)) == Some(
                h.total_market_value,
            )
            &&& amount::total(each_at_rate(prices, unrealized(ps), to, as_of)) == Some(
                h.total_unrealized_pnl,
            )
            &&& amount::total(each_at_rate(prices, realized(ps), to, as_of)) == Some(
                h.total_realized_pnl,
            )
            &&& amount::total(each_at_rate(prices, cash, to, as_of)) == Some(h.total_cash)
            &&& amount::sum(h.total_market_value, h.total_cash) == Some(h.total_value)
        }),
{
    figures_are_theirs(ps);
    converted_totals_are_totals(prices, costs(ps), to, as_of);
    converted_totals_are_totals(prices, market_values(ps), to, as_of);
    converted_totals_are_totals(prices, unrealized(ps), to, as_of);
    converted_totals_are_totals(prices, realized(ps), to, as_of);
    converted_totals_are_totals(prices, cash, to, as_of);
}

proof fn figures_are_theirs(ps: Seq<PositionV>)
    ensures
        query::figures(ps, Measure::Cost) == costs(ps),
        query::figures(ps, Measure::MarketValue) == market_values(ps),
        query::figures(ps, Measure::Unrealized) == unrealized(ps),
        query::figures(ps, Measure::Realized) == realized(ps),
{
    assert(query::figures(ps, Measure::Cost) =~= costs(ps));
    assert(query::figures(ps, Measure::MarketValue) =~= market_values(ps));
    assert(query::figures(ps, Measure::Unrealized) =~= unrealized(ps));
    assert(query::figures(ps, Measure::Realized) =~= realized(ps));
}

/// Are the amounts all in one currency, and is nothing rounded as they are
/// added up at a rate of 1?
pub open spec fn are_exact_in(
    prices: Seq<SeriesV>,
    items: Seq<(Currency, Dec)>,
    c: Currency,
    as_of: int,
) -> bool {
    &&& forall|i: int|
        0 <= i < items.len() ==> (#[trigger] items[i]).0 == c && is_plain(items[i].1)
    &&& amount::totals_exactly(each_at_rate(prices, items, c, as_of))
}

proof fn exact_in_one_currency(
    prices: Seq<SeriesV>,
    items: Seq<(Currency, Dec)>,
    c: Currency,
    as_of: int,
    amounts: Seq<Dec>,
)
    requires
        query::converted_total(prices, items, c, as_of) is Ok,
        are_exact_in(prices, items, c, as_of),
        amounts == items.map_values(|i: (Currency, Dec)| i.1),
    ensures
        amount::worth(query::converted_total(prices, items, c, as_of)->Ok_0) == amount::worths(
            amounts,
        ),
{
    let all = each_at_rate(prices, items, c, as_of);
    converted_totals_are_totals(prices, items, c, as_of);
    amount::an_exact_total(all);
    assert forall|i: int| 0 <= i < all.len() implies amount::worth(#[trigger] all[i])
        == amount::worth(amounts[i]) by {
        assert(items[i].0 == c);
        if items[i].1.magnitude == 0 {
            amount::zero_worth(items[i].1);
            amount::zero_worth(amount::zero());
        }
    }
    amount::worths_alike(all, amounts);
}

/// Where every position is in the reporting currency and nothing is rounded,
/// each total is worth what that figure of the positions is worth together.
pub proof fn holdings_in_one_currency(
    as_of: int,
    to: Currency,
    ps: Seq<PositionV>,
    cash: Seq<(Currency, Dec)>,
    prices: Seq<SeriesV>,
)
    requires
        query::holdings(as_of, to, ps, cash, prices) is Ok,
        are_exact_in(prices, costs(ps), to, as_of),
        are_exact_in(prices, market_values(ps), to, as_of),
        are_exact_in(prices, unrealized(ps), to, as_of),
        are_exact_in(prices, realized(ps), to, as_of),
        are_exact_in(prices, cash, to, as_of),
        ({
            let h = query::holdings(as_of, to, ps, cash, prices)->Ok_0;
            amount::adds_exactly(h.total_market_value, h.total_cash)
        }),
    ensures
        ({
            let h = query::holdings(as_of, to, ps, cash, prices)->Ok_0;
            let cost = ps.map_values(|p: PositionV| p.total_cost);
            let value = ps.map_values(|p: PositionV| p.market_value);
            let gain = ps.map_values(|p: PositionV| p.unrealized_pnl_value);
            let brought = ps.map_values(|p: PositionV| p.realized_pnl_value);
            let money = cash.map_values(|c: (Currency, Dec)| c.1);
            &&& amount::worth(h.total_cost) == amount::worths(cost)
            &&& amount::worth(h.total_market_value) == amount::worths(value)
            &&& amount::worth(h.total_unrealized_pnl) == amount::worths(gain)
            &&& amount::worth(h.total_realized_pnl) == amount::worths(brought)
            &&& amount::worth(h.total_cash) == amount::worths(money)
            &&& amount::worth(h.total_value) == amount::worths(value) + amount::worths(money)
        }),
{
    let cost = ps.map_values(|p: PositionV| p.total_cost);
    let value = ps.map_values(|p: PositionV| p.market_value);
    let gain = ps.map_values(|p: PositionV| p.unrealized_pnl_value);
    let brought = ps.map_values(|p: PositionV| p.realized_pnl_value);
    let money = cash.map_values(|c: (Currency, Dec)| c.1);
    figures_are_theirs(ps);
    assert(cost =~= costs(ps).map_values(|i: (Currency, Dec)| i.1));
    assert(value =~= market_values(ps).map_values(|i: (Currency, Dec)| i.1));
    assert(gain =~= unrealized(ps).map_values(|i: (Currency, Dec)| i.1));
    assert(brought =~= realized(ps).map_values(|i: (Currency, Dec)| i.1));
    assert(money =~= cash.map_values(|i: (Currency, Dec)| i.1));
    exact_in_one_currency(prices, costs(ps), to, as_of, cost);
    exact_in_one_currency(prices, market_values(ps), to, as_of, value);
    exact_in_one_currency(prices, unrealized(ps), to, as_of, gain);
    exact_in_one_currency(prices, realized(ps), to, as_of, brought);
    exact_in_one_currency(prices, cash, to, as_of, money);
}

/// A holdings report lists every position once, by symbol.
pub proof fn holdings_list_every_position(
    as_of: int,
    to: Currency,
    ps: Seq<PositionV>,
    cash: Seq<(Currency, Dec)>,
    prices: Seq<SeriesV>,
)
    requires
        query::holdings(as_of, to, ps, cash, prices) is Ok,
    ensures
        ({
            let all = (query::holdings(as_of, to, ps, cash, prices)->Ok_0).positions;
            &&& all.to_multiset() == ps.to_multiset()
            &&& forall|i: int, j: int|
                0 <= i < j < all.len() ==> !text::before(
                    (#[trigger] all[j]).symbol,
                    (#[trigger] all[i]).symbol,
                )
        }),
{
    let keys = ps.map_values(|p: PositionV| sort::text_key(p.symbol));
    let all = (query::holdings(as_of, to, ps, cash, prices)->Ok_0).positions;
    sort::order_keeps_every_item(ps, keys);
    sort::order_is_a_permutation(keys);
    assert forall|i: int, j: int| 0 <= i < j < all.len() implies !text::before(
        (#[trigger] all[j]).symbol,
        (#[trigger] all[i]).symbol,
    ) by {
        sort::order_sorts(keys, i, j);
        assert(keys[sort::order(keys)[i]].text == all[i].symbol);
        assert(keys[sort::order(keys)[j]].text == all[j].symbol);
    }
}

proof fn amounts_are_filtered(postings: Seq<EntryV>, id: int, c: Currency, as_of: int)
    ensures
        query::amounts(postings, id, c, as_of) == postings.filter(
            |p: EntryV| p.account_id == id && p.currency == c && p.date <= as_of,
        ).map_values(|p: EntryV| p.amount),
    decreases postings.len(),
{
    reveal(Seq::filter);
    let f = |p: EntryV| p.account_id == id && p.currency == c && p.date <= as_of;
    let all = postings.filter(f).map_values(|p: EntryV| p.amount);
    if postings.len() == 0 {
        assert(all =~= Seq::empty());
    } else {
        amounts_are_filtered(postings.drop_last(), id, c, as_of);
        let rest = postings.drop_last().filter(f).map_values(|p: EntryV| p.amount);
        if f(postings.last()) {
            assert(all =~= rest.push(postings.last().amount));
        } else {
            assert(all =~= rest);
        }
    }
}

/// A balance is the total of what was posted to its account in its currency on
/// its day or before.
pub proof fn a_balance_is_what_was_posted(d: DataV, as_of: int, i: int)
    requires
        query::fits(d, as_of),
        0 <= i < query::balances(d, as_of).len(),
    ensures
        ({
            let b = query::balances(d, as_of)[i];
            let m = query::meta(d, b.account_id);
            let posted = d.postings.filter(
                |p: EntryV|
                    p.account_id == b.account_id && p.currency == b.currency && p.date <= as_of,
            );
            &&& amount::total(posted.map_values(|p: EntryV| p.amount)) == Some(b.amount)
            &&& posted.len() > 0
            &&& b.as_of == as_of
            &&& b.path == m.path
            &&& b.label == m.label
            &&& b.account_type == m.account_type
            &&& b.closed == m.closed
        }),
{
    let all = query::held(d.postings, as_of);
    let keys = query::balance_keys(d, as_of);
    let b = query::balances(d, as_of)[i];
    sort::order_is_a_permutation(keys);
    let k = sort::order(keys)[i];
    assert(query::balances(d, as_of)[i] == query::balance_of(d, all[k], as_of));
    amounts_are_filtered(d.postings, b.account_id, b.currency, as_of);
    let n = held_where(d.postings, as_of, k);
    let f = |p: EntryV|
        p.account_id == b.account_id && p.currency == b.currency && p.date <= as_of;
    d.postings.lemma_filter_contains(f, n);
}

/// Where a balance was first posted to.
proof fn held_where(postings: Seq<EntryV>, as_of: int, k: int) -> (n: int)
    requires
        0 <= k < query::held(postings, as_of).len(),
    ensures
        0 <= n < postings.len(),
        postings[n].account_id == query::held(postings, as_of)[k].0,
        postings[n].currency == query::held(postings, as_of)[k].1,
        postings[n].date <= as_of,
    decreases postings.len(),
{
    if k < query::held(postings.drop_last(), as_of).len() {
        held_where(postings.drop_last(), as_of, k)
    } else {
        postings.len() - 1
    }
}

proof fn all_are_held(postings: Seq<EntryV>, as_of: int, n: int) -> (k: int)
    requires
        0 <= n < postings.len(),
        postings[n].date <= as_of,
    ensures
        0 <= k < query::held(postings, as_of).len(),
        query::held(postings, as_of)[k] == (postings[n].account_id, postings[n].currency),
    decreases postings.len(),
{
    let before = query::held(postings.drop_last(), as_of);
    let p = postings.last();
    if n < postings.len() - 1 {
        all_are_held(postings.drop_last(), as_of, n)
    } else if before.contains((p.account_id, p.currency)) {
        choose|k: int| 0 <= k < before.len() && before[k] == (p.account_id, p.currency)
    } else {
        before.len() as int
    }
}

proof fn held_once(postings: Seq<EntryV>, as_of: int, i: int, j: int)
    requires
        0 <= i < j < query::held(postings, as_of).len(),
    ensures
        query::held(postings, as_of)[i] != query::held(postings, as_of)[j],
    decreases postings.len(),
{
    let before = query::held(postings.drop_last(), as_of);
    if j < before.len() {
        held_once(postings.drop_last(), as_of, i, j);
    } else {
        assert(before.contains(before[i]));
    }
}

/// Every posting through a day is in the balance of its account and currency.
pub proof fn every_posting_has_a_balance(d: DataV, as_of: int, n: int) -> (i: int)
    requires
        0 <= n < d.postings.len(),
        d.postings[n].date <= as_of,
    ensures
        0 <= i < query::balances(d, as_of).len(),
        query::balances(d, as_of)[i].account_id == d.postings[n].account_id,
        query::balances(d, as_of)[i].currency == d.postings[n].currency,
{
    let keys = query::balance_keys(d, as_of);
    let k = all_are_held(d.postings, as_of, n);
    let i = sort::every_item_is_placed(keys, k);
    sort::order_is_a_permutation(keys);
    i
}

/// No account has two balances in one currency.
pub proof fn each_balance_stands_once(d: DataV, as_of: int, i: int, j: int)
    requires
        0 <= i < j < query::balances(d, as_of).len(),
    ensures
        query::balances(d, as_of)[i].account_id != query::balances(d, as_of)[j].account_id
            || query::balances(d, as_of)[i].currency != query::balances(d, as_of)[j].currency,
{
    let keys = query::balance_keys(d, as_of);
    sort::order_is_a_permutation(keys);
    let (a, b) = (sort::order(keys)[i], sort::order(keys)[j]);
    if a < b {
        held_once(d.postings, as_of, a, b);
    } else {
        held_once(d.postings, as_of, b, a);
    }
}

/// The net worth of each period of a series is that of its last day, or of the
/// last day of the range where that is earlier.
pub proof fn each_point_is_a_net_worth(
    d: DataV,
    t: Terms,
    spans: Seq<(int, int)>,
    end: int,
    i: int,
)
    requires
        query::worth_over(d, t, spans, end) is Ok,
        0 <= i < spans.len(),
    ensures
        ({
            let points = query::worth_over(d, t, spans, end)->Ok_0;
            &&& points.len() == spans.len()
            &&& query::net_worth(d, t, points[i].date) == Ok::<PointV, Seq<char>>(points[i])
            &&& points[i].date <= spans[i].1
            &&& points[i].date <= end
            &&& points[i].date == spans[i].1 || points[i].date == end
        }),
    decreases spans.len(),
{
    if i < spans.len() - 1 {
        each_point_is_a_net_worth(d, t, spans.drop_last(), end, i);
        assert(spans.drop_last()[i] == spans[i]);
    } else if spans.len() > 1 {
        each_point_is_a_net_worth(d, t, spans.drop_last(), end, 0);
    }
}

proof fn each_row_is_a_posting(rows: Seq<PostingRowV>, i: int)
    requires
        query::postings_in(rows) is Ok,
        0 <= i < rows.len(),
    ensures
        query::postings_in(rows)->Ok_0.len() == rows.len(),
        query::entry_of(rows[i]) == Ok::<EntryV, Seq<char>>(query::postings_in(rows)->Ok_0[i]),
    decreases rows.len(),
{
    reveal_with_fuel(query::postings_in, 2);
    if i < rows.len() - 1 {
        each_row_is_a_posting(rows.drop_last(), i);
    } else if rows.len() > 1 {
        each_row_is_a_posting(rows.drop_last(), 0);
    }
}

/// Every posting row is a posting of the ledger: on its account, on the day, in
/// the currency and with the amount it spells.
pub proof fn a_ledger_holds_every_posting(
    accounts: Seq<AccountRowV>,
    rows: Seq<PostingRowV>,
    i: int,
)
    requires
        query::data_in(accounts, rows) is Ok,
        0 <= i < rows.len(),
    ensures
        ({
            let d = query::data_in(accounts, rows)->Ok_0;
            &&& d.postings.len() == rows.len()
            &&& d.postings[i].account_id == rows[i].account_id
            &&& date::read(rows[i].date) == Some(d.postings[i].date)
            &&& currency::of_code(rows[i].currency) == Some(d.postings[i].currency)
            &&& amount::spelled(rows[i].amount) == Some(d.postings[i].amount)
        }),
{
    each_row_is_a_posting(rows, i);
}

proof fn accounts_stand_in_order(rows: Seq<AccountRowV>)
    requires
        query::accounts_in(rows) is Ok,
    ensures
        keyed::in_order(query::accounts_in(rows)->Ok_0),
    decreases rows.len(),
{
    if rows.len() > 0 {
        accounts_stand_in_order(rows.drop_last());
        keyed::put_keeps_order(
            query::accounts_in(rows.drop_last())->Ok_0,
            query::id_key(rows.last().id),
            query::meta_of(rows.last())->Ok_0,
        );
    }
}

proof fn each_account_is_kept(rows: Seq<AccountRowV>, i: int)
    requires
        query::accounts_in(rows) is Ok,
        0 <= i < rows.len(),
        forall|j: int| i < j < rows.len() ==> (#[trigger] rows[j]).id != rows[i].id,
    ensures
        query::meta_of(rows[i]) matches Ok(m) && keyed::get(
            query::accounts_in(rows)->Ok_0,
            query::id_key(rows[i].id),
        ) == Some(m),
    decreases rows.len(),
{
    let shorter = rows.drop_last();
    accounts_stand_in_order(shorter);
    let before = query::accounts_in(shorter)->Ok_0;
    let last = rows.last();
    keyed::get_after_put(
        before,
        query::id_key(last.id),
        query::meta_of(last)->Ok_0,
        query::id_key(rows[i].id),
    );
    if i < rows.len() - 1 {
        assert(rows[rows.len() - 1].id != rows[i].id);
        assert(query::id_key(last.id).numbers.0 != query::id_key(rows[i].id).numbers.0);
        assert forall|j: int| i < j < shorter.len() implies (#[trigger] shorter[j]).id
            != shorter[i].id by {
            assert(rows[j].id != rows[i].id);
        }
        each_account_is_kept(shorter, i);
    }
}

/// Every account row is an account of the ledger, unless a later one has its
/// id: at its path, with its label, of its type, and closed where it says so.
pub proof fn a_ledger_holds_every_account(
    rows: Seq<AccountRowV>,
    postings: Seq<PostingRowV>,
    i: int,
)
    requires
        query::data_in(rows, postings) is Ok,
        0 <= i < rows.len(),
        forall|j: int| i < j < rows.len() ==> (#[trigger] rows[j]).id != rows[i].id,
    ensures
        ({
            let m = query::meta(query::data_in(rows, postings)->Ok_0, rows[i].id);
            &&& m.path == rows[i].path
            &&& m.label == rows[i].label
            &&& m.closed <==> rows[i].closed != 0
            &&& query::type_of(rows[i].acct_type) == Some(m.account_type)
        }),
{
    each_account_is_kept(rows, i);
}

/// Balances stand by path; those of one account, by currency.
pub proof fn balances_stand_by_path(d: DataV, as_of: int, i: int, j: int)
    requires
        0 <= i < j < query::balances(d, as_of).len(),
    ensures
        !text::before(query::balances(d, as_of)[j].path, query::balances(d, as_of)[i].path),
        query::balances(d, as_of)[i].path == query::balances(d, as_of)[j].path ==> currency::rank(
            query::balances(d, as_of)[i].currency,
        ) <= currency::rank(query::balances(d, as_of)[j].currency),
{
    let keys = query::balance_keys(d, as_of);
    sort::order_is_a_permutation(keys);
    sort::order_sorts(keys, i, j);
    let (a, b) = (sort::order(keys)[i], sort::order(keys)[j]);
    assert(keys[a].text == query::balances(d, as_of)[i].path);
    assert(keys[b].text == query::balances(d, as_of)[j].path);
}

/// The currencies of a ledger are those something is posted in.
pub proof fn a_currency_is_listed_where_it_is_used(
    postings: Seq<EntryV>,
    all: Seq<Currency>,
    c: Currency,
)
    ensures
        query::used_among(postings, all).contains(c) <==> all.contains(c) && exists|i: int|
            0 <= i < postings.len() && (#[trigger] postings[i]).currency == c,
    decreases all.len(),
{
    if all.len() > 0 {
        let shorter = all.drop_last();
        a_currency_is_listed_where_it_is_used(postings, shorter, c);
        let (before, now) = (
            query::used_among(postings, shorter),
            query::used_among(postings, all),
        );
        assert(all =~= shorter.push(all.last()));
        assert(all.contains(c) <==> shorter.contains(c) || c == all.last()) by {
            vstd::seq_lib::lemma_seq_contains_after_push(shorter, all.last(), c);
        }
        if query::used(postings, all.last()) {
            vstd::seq_lib::lemma_seq_contains_after_push(before, all.last(), c);
        }
    }
}

/// The newest posting of each account and currency that was posted to is
/// listed, on its own day.
pub proof fn every_newest_posting_is_listed(postings: Seq<EntryV>, n: int) -> (i: int)
    requires
        0 <= n < postings.len(),
        postings[n].date <= date::MAX_DAY,
    ensures
        ({
            let all = query::last_dates(postings);
            let p = postings[n];
            &&& 0 <= i < all.len()
            &&& all[i].0 == p.account_id
            &&& all[i].1 == p.currency
            &&& query::last_posting(postings, p.account_id, p.currency) == Some(all[i].2)
            &&& p.date <= all[i].2
        }),
{
    let keys = query::last_keys(postings);
    let p = postings[n];
    let k = all_are_held(postings, date::MAX_DAY as int, n);
    sort::order_is_a_permutation(keys);
    agreement::the_newest_posting_is_dated_last(postings, p.account_id, p.currency);
    assert(postings[n].account_id == p.account_id);
    sort::every_item_is_placed(keys, k)
}

} // verus!
