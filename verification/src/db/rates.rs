//! Exchange rates, and amounts converted by them.

use vstd::prelude::*;

use crate::amount;
use crate::amount::{Amount, Dec};
use crate::currency;
use crate::currency::Currency;
use crate::date;
use crate::date::Date;
use crate::refusal;
use crate::refusal::Refusal;
use crate::text;

verus! {

/// The quotes of one currency in another, by ascending date. A quote no
/// decimal can hold has no rate.
#[derive(Debug)]
pub struct Series {
    pub from: Currency,
    pub to: Currency,
    pub quotes: Vec<(Date, Option<Amount>)>,
}

/// The exchange rates recorded.
#[derive(Debug)]
pub struct PriceTable {
    pub series: Vec<Series>,
}

pub struct SeriesV {
    pub from: Currency,
    pub to: Currency,
    pub quotes: Seq<(int, Option<Dec>)>,
}

pub open spec fn quote_views(v: Seq<(Date, Option<Amount>)>) -> Seq<(int, Option<Dec>)> {
    v.map_values(|q: (Date, Option<Amount>)| (q.0@, amount::opt(q.1)))
}

impl View for Series {
    type V = SeriesV;

    open spec fn view(&self) -> SeriesV {
        SeriesV { from: self.from, to: self.to, quotes: quote_views(self.quotes@) }
    }
}

impl View for PriceTable {
    type V = Seq<SeriesV>;

    open spec fn view(&self) -> Seq<SeriesV> {
        self.series@.map_values(|s: Series| s@)
    }
}

/// Where the quotes of `from` in `to` are, from `at` on.
pub open spec fn series_of(table: Seq<SeriesV>, from: Currency, to: Currency, at: int) -> Option<
    int,
>
    decreases table.len() - at,
{
    if at < 0 || at >= table.len() {
        None
    } else if table[at].from == from && table[at].to == to {
        Some(at)
    } else {
        series_of(table, from, to, at + 1)
    }
}

/// How many of the quotes from `n` on are dated through `as_of` before one
/// that is not, and the `n` before them.
pub open spec fn through(quotes: Seq<(int, Option<Dec>)>, as_of: int, n: int) -> int
    decreases quotes.len() - n,
{
    if 0 <= n < quotes.len() && quotes[n].0 <= as_of {
        through(quotes, as_of, n + 1)
    } else {
        n
    }
}

/// The last quote dated on or before `as_of`, or the earliest if the date
/// precedes all of them.
pub open spec fn quoted(quotes: Seq<(int, Option<Dec>)>, as_of: int) -> Option<Dec> {
    let n = through(quotes, as_of, 0);
    if n > 0 {
        quotes[n - 1].1
    } else if quotes.len() > 0 {
        quotes[0].1
    } else {
        None
    }
}

/// The recorded rate of one pair as of a date.
pub open spec fn recorded_rate(
    table: Seq<SeriesV>,
    from: Currency,
    to: Currency,
    as_of: int,
) -> Option<Dec> {
    match series_of(table, from, to, 0) {
        Some(i) => quoted(table[i].quotes, as_of),
        None => None,
    }
}

/// What a pair without a rate is refused with.
pub open spec fn no_rate(from: Currency, to: Currency, as_of: int) -> Seq<char> {
    "no "@ + currency::code(from) + "→"@ + currency::code(to)
        + " exchange rate in stock_prices (needed for "@ + date::printed(as_of)
        + "); fetch it with `portfolio rates`"@
}

/// The rate to multiply a `from` amount by to express it in `to`, as of a
/// date: the direct one, or the inverse of the other direction's. A missing
/// pair is an error, never 1:1: that would silently count a foreign amount as
/// the base currency.
pub open spec fn rate_at(
    table: Seq<SeriesV>,
    from: Currency,
    to: Currency,
    as_of: int,
) -> Result<Dec, Seq<char>> {
    if from == to {
        Ok(amount::one())
    } else {
        match recorded_rate(table, from, to, as_of) {
            Some(r) => Ok(r),
            None => match recorded_rate(table, to, from, as_of) {
                Some(r) => if r.magnitude == 0 {
                    Err(no_rate(from, to, as_of))
                } else {
                    match amount::quotient(amount::one(), r) {
                        Some(q) => Ok(q),
                        None => Err(refusal::out_of_range()),
                    }
                },
                None => Err(no_rate(from, to, as_of)),
            },
        }
    }
}

/// An amount expressed in another currency. Zero converts to zero whatever the
/// rate, so a position that closed out does not need a quote to be reported.
pub open spec fn converted(
    table: Seq<SeriesV>,
    a: Dec,
    from: Currency,
    to: Currency,
    as_of: int,
) -> Result<Dec, Seq<char>> {
    if a.magnitude == 0 {
        Ok(amount::zero())
    } else {
        match rate_at(table, from, to, as_of) {
            Ok(r) => match amount::product(a, r) {
                Some(p) => Ok(p),
                None => Err(refusal::out_of_range()),
            },
            Err(e) => Err(e),
        }
    }
}

impl PriceTable {
    /// The recorded rate of one pair as of a date: the last quote dated on or
    /// before `as_of`, or the earliest if the date precedes all of them.
    pub fn recorded(&self, from: Currency, to: Currency, as_of: Date) -> (r: Option<Amount>)
        ensures
            amount::opt(r) == recorded_rate(self@, from, to, as_of@),
    {
        let ghost all = self@;
        let mut i: usize = 0;
        while i < self.series.len()
            invariant
                i <= self.series@.len(),
                all == self@,
                series_of(all, from, to, 0) == series_of(all, from, to, i as int),
            decreases self.series@.len() - i,
        {
            let s = &self.series[i];
            assert(all[i as int] == s@);
            if s.from == from && s.to == to {
                let ghost quotes = s@.quotes;
                let mut n: usize = 0;
                while n < s.quotes.len() && s.quotes[n].0.number() <= as_of.number()
                    invariant
                        n <= s.quotes@.len(),
                        quotes == quote_views(s.quotes@),
                        through(quotes, as_of@, 0) == through(quotes, as_of@, n as int),
                    decreases s.quotes@.len() - n,
                {
                    assert(quotes[n as int].0 == s.quotes@[n as int].0@);
                    n = n + 1;
                }
                if n < s.quotes.len() {
                    assert(quotes[n as int].0 == s.quotes@[n as int].0@);
                }
                assert(through(quotes, as_of@, n as int) == n);
                if n > 0 {
                    assert(quotes[n - 1].1 == amount::opt(s.quotes@[n - 1].1));
                    return s.quotes[n - 1].1;
                }
                if s.quotes.len() > 0 {
                    assert(quotes[0].1 == amount::opt(s.quotes@[0].1));
                    return s.quotes[0].1;
                }
                return None;
            }
            i = i + 1;
        }
        None
    }
}

/// The rate to multiply a `from` amount by to express it in `to`, as of a
/// date.
pub fn rate_as_of(from: Currency, to: Currency, as_of: Date, prices: &PriceTable) -> (r: Result<
    Amount,
    Refusal,
>)
    ensures
        match r {
            Ok(a) => rate_at(prices@, from, to, as_of@) == Ok::<Dec, Seq<char>>(a@),
            Err(e) => rate_at(prices@, from, to, as_of@) == Err::<Dec, Seq<char>>(e@),
        },
{
    if from == to {
        return Ok(Amount::one());
    }
    if let Some(r) = prices.recorded(from, to, as_of) {
        return Ok(r);
    }
    if let Some(r) = prices.recorded(to, from, as_of) {
        if !r.is_zero() {
            return match Amount::one().over(&r) {
                Some(q) => Ok(q),
                None => Err(Refusal::out_of_range()),
            };
        }
    }
    let mut out = text::copy("no ");
    out.append(from.text().as_str());
    out.append("→");
    out.append(to.text().as_str());
    out.append(" exchange rate in stock_prices (needed for ");
    out.append(as_of.text().as_str());
    out.append("); fetch it with `portfolio rates`");
    assert(out@ =~= no_rate(from, to, as_of@));
    Err(Refusal { message: out })
}

/// [`rate_as_of`] as an option: a page that shows several currencies names the
/// unpriced ones instead of failing whole.
pub fn rate(from: Currency, to: Currency, as_of: Date, prices: &PriceTable) -> (r: Option<Amount>)
    ensures
        amount::opt(r) == rate_at(prices@, from, to, as_of@).ok(),
{
    match rate_as_of(from, to, as_of, prices) {
        Ok(a) => Some(a),
        Err(_) => None,
    }
}

/// `amount` expressed in `to`.
pub fn convert_as_of(
    amount: Amount,
    from: Currency,
    to: Currency,
    as_of: Date,
    prices: &PriceTable,
) -> (r: Result<Amount, Refusal>)
    ensures
        match r {
            Ok(a) => converted(prices@, amount@, from, to, as_of@) == Ok::<Dec, Seq<char>>(a@),
            Err(e) => converted(prices@, amount@, from, to, as_of@) == Err::<Dec, Seq<char>>(e@),
        },
{
    if amount.is_zero() {
        return Ok(Amount::zero());
    }
    match rate_as_of(from, to, as_of, prices) {
        Ok(r) => match amount.times(&r) {
            Some(p) => Ok(p),
            None => Err(Refusal::out_of_range()),
        },
        Err(e) => Err(e),
    }
}

/// A currency needs no rate in itself.
pub proof fn own_rate_is_one(table: Seq<SeriesV>, c: Currency, as_of: int)
    ensures
        rate_at(table, c, c, as_of) == Ok::<Dec, Seq<char>>(amount::one()),
{
}

/// The pairs of currencies that quote each of `currencies` in `base`: both
/// directions of each, so an inverse rate can stand in when only one side was
/// recorded. The base needs none.
pub open spec fn pairs(currencies: Seq<Currency>, base: Currency) -> Seq<(Currency, Currency)>
    decreases currencies.len(),
{
    if currencies.len() == 0 {
        Seq::empty()
    } else {
        let before = pairs(currencies.drop_last(), base);
        let c = currencies.last();
        if c == base {
            before
        } else {
            before.push((c, base)).push((base, c))
        }
    }
}

/// The pairs of currencies whose quotes a report in `base` needs.
pub fn fx_pairs(currencies: &Vec<Currency>, base: Currency) -> (r: Vec<(Currency, Currency)>)
    ensures
        r@ == pairs(currencies@, base),
{
    let mut out: Vec<(Currency, Currency)> = Vec::new();
    let mut i: usize = 0;
    while i < currencies.len()
        invariant
            0 <= i <= currencies@.len(),
            out@ == pairs(currencies@.take(i as int), base),
        decreases currencies@.len() - i,
    {
        assert(currencies@.take(i as int + 1).drop_last() =~= currencies@.take(i as int));
        let c = currencies[i];
        if c != base {
            out.push((c, base));
            out.push((base, c));
        }
        i = i + 1;
    }
    assert(currencies@.take(i as int) =~= currencies@);
    out
}

/// Each of `currencies` but the base can be quoted in it from either side of
/// the pairs that are fetched.
pub proof fn every_currency_is_paired(currencies: Seq<Currency>, base: Currency, c: Currency)
    requires
        currencies.contains(c),
        c != base,
    ensures
        pairs(currencies, base).contains((c, base)),
        pairs(currencies, base).contains((base, c)),
    decreases currencies.len(),
{
    let before = pairs(currencies.drop_last(), base);
    let all = pairs(currencies, base);
    if currencies.last() == c {
        assert(all == before.push((c, base)).push((base, c)));
        assert(all[before.len() as int] == (c, base));
        assert(all[before.len() as int + 1] == (base, c));
    } else {
        let i = choose|i: int| 0 <= i < currencies.len() && currencies[i] == c;
        assert(currencies.drop_last()[i] == c);
        every_currency_is_paired(currencies.drop_last(), base, c);
        let j = choose|j: int| 0 <= j < before.len() && before[j] == (c, base);
        let k = choose|k: int| 0 <= k < before.len() && before[k] == (base, c);
        assert(all[j] == (c, base));
        assert(all[k] == (base, c));
    }
}

/// Are the quotes by ascending date?
pub open spec fn ascending(quotes: Seq<(int, Option<Dec>)>) -> bool {
    forall|i: int, j: int|
        0 <= i < j < quotes.len() ==> (#[trigger] quotes[i]).0 <= (#[trigger] quotes[j]).0
}

/// Are these the quotes of `from` in `to`, the only ones?
pub open spec fn quotes_of(
    table: Seq<SeriesV>,
    from: Currency,
    to: Currency,
    quotes: Seq<(int, Option<Dec>)>,
) -> bool {
    exists|n: int|
        0 <= n < table.len() && (#[trigger] table[n]).from == from && table[n].to == to
            && table[n].quotes == quotes && forall|i: int|
            0 <= i < table.len() && i != n ==> (#[trigger] table[i]).from != from || table[i].to
                != to
}

proof fn only_series(table: Seq<SeriesV>, from: Currency, to: Currency, n: int, at: int)
    requires
        0 <= at <= n < table.len(),
        table[n].from == from,
        table[n].to == to,
        forall|i: int|
            0 <= i < table.len() && i != n ==> (#[trigger] table[i]).from != from || table[i].to
                != to,
    ensures
        series_of(table, from, to, at) == Some(n),
    decreases n - at,
{
    if at < n {
        assert(table[at].from != from || table[at].to != to);
        only_series(table, from, to, n, at + 1);
    }
}

proof fn through_stops_behind(quotes: Seq<(int, Option<Dec>)>, as_of: int, k: int, n: int)
    requires
        ascending(quotes),
        0 <= n <= k < quotes.len(),
        quotes[k].0 <= as_of,
        k + 1 < quotes.len() ==> quotes[k + 1].0 > as_of,
    ensures
        through(quotes, as_of, n) == k + 1,
    decreases k - n,
{
    if n < k {
        assert(quotes[n].0 <= quotes[k].0);
        through_stops_behind(quotes, as_of, k, n + 1);
    } else {
        assert(through(quotes, as_of, k + 1) == k + 1);
    }
}

/// The recorded rate of a pair is that of the last quote of it dated through
/// the day: a later quote, or one of the other direction, is not taken.
pub proof fn the_last_quote_through_a_day_counts(
    table: Seq<SeriesV>,
    from: Currency,
    to: Currency,
    as_of: int,
    quotes: Seq<(int, Option<Dec>)>,
    k: int,
)
    requires
        quotes_of(table, from, to, quotes),
        ascending(quotes),
        0 <= k < quotes.len(),
        quotes[k].0 <= as_of,
        k + 1 < quotes.len() ==> quotes[k + 1].0 > as_of,
    ensures
        recorded_rate(table, from, to, as_of) == quotes[k].1,
{
    let n = choose|n: int|
        0 <= n < table.len() && (#[trigger] table[n]).from == from && table[n].to == to
            && table[n].quotes == quotes && forall|i: int|
            0 <= i < table.len() && i != n ==> (#[trigger] table[i]).from != from || table[i].to
                != to;
    only_series(table, from, to, n, 0);
    through_stops_behind(quotes, as_of, k, 0);
}

/// On a day before every quote, the earliest counts.
pub proof fn the_first_quote_counts_before_it(
    table: Seq<SeriesV>,
    from: Currency,
    to: Currency,
    as_of: int,
    quotes: Seq<(int, Option<Dec>)>,
)
    requires
        quotes_of(table, from, to, quotes),
        quotes.len() > 0,
        as_of < quotes[0].0,
    ensures
        recorded_rate(table, from, to, as_of) == quotes[0].1,
{
    let n = choose|n: int|
        0 <= n < table.len() && (#[trigger] table[n]).from == from && table[n].to == to
            && table[n].quotes == quotes && forall|i: int|
            0 <= i < table.len() && i != n ==> (#[trigger] table[i]).from != from || table[i].to
                != to;
    only_series(table, from, to, n, 0);
}

/// A pair without quotes of its own has no recorded rate.
pub proof fn a_pair_without_quotes_has_no_rate(
    table: Seq<SeriesV>,
    from: Currency,
    to: Currency,
    as_of: int,
)
    requires
        forall|i: int|
            0 <= i < table.len() ==> (#[trigger] table[i]).from != from || table[i].to != to,
    ensures
        recorded_rate(table, from, to, as_of) is None,
{
    no_series(table, from, to, 0);
}

proof fn no_series(table: Seq<SeriesV>, from: Currency, to: Currency, at: int)
    requires
        0 <= at,
        forall|i: int|
            0 <= i < table.len() ==> (#[trigger] table[i]).from != from || table[i].to != to,
    ensures
        series_of(table, from, to, at) is None,
    decreases table.len() - at,
{
    if at < table.len() {
        assert(table[at].from != from || table[at].to != to);
        no_series(table, from, to, at + 1);
    }
}

/// A rate is 1 within a currency. Between two it is the recorded one; where
/// only the other direction is recorded it is 1 over that, and there is none
/// where that is 0 or nothing is recorded.
pub proof fn a_rate_is_direct_or_inverse(
    table: Seq<SeriesV>,
    from: Currency,
    to: Currency,
    as_of: int,
)
    ensures
        ({
            let there = recorded_rate(table, from, to, as_of);
            let back = recorded_rate(table, to, from, as_of);
            let rate = rate_at(table, from, to, as_of);
            &&& from == to ==> rate == Ok::<Dec, Seq<char>>(amount::one())
            &&& from != to ==> {
                &&& there matches Some(r) ==> rate == Ok::<Dec, Seq<char>>(r)
                &&& there is None && rate is Ok ==> (back matches Some(r) && r.magnitude != 0
                    && amount::quotient(amount::one(), r) == Some(rate->Ok_0))
                &&& there is None && (back matches Some(r) ==> r.magnitude == 0) ==> rate is Err
                &&& there is None && (back matches Some(r) && r.magnitude != 0
                    && amount::quotient(amount::one(), r) is Some) ==> rate is Ok
            }
        }),
{
}

/// What is converted is the amount times its rate. Nothing but 0 is converted
/// without one, and 0 always is.
pub proof fn an_amount_is_converted_at_its_rate(
    table: Seq<SeriesV>,
    a: Dec,
    from: Currency,
    to: Currency,
    as_of: int,
)
    ensures
        ({
            let rate = rate_at(table, from, to, as_of);
            let x = converted(table, a, from, to, as_of);
            &&& amount::worth(a) == 0 && a.scale <= 28 ==> (x matches Ok(z) && amount::worth(z)
                == 0)
            &&& amount::worth(a) != 0 && x is Ok ==> rate is Ok && amount::product(
                a,
                rate->Ok_0,
            ) == Some(x->Ok_0)
            &&& amount::worth(a) != 0 && rate is Ok && amount::product(a, rate->Ok_0) is Some
                ==> x is Ok
        }),
{
    if a.magnitude == 0 {
        amount::zero_worth(a);
        amount::zero_worth(amount::zero());
    } else if a.scale <= 28 {
        amount::worth_of_some(a);
    }
}

} // verus!
