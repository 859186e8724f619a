//! Imports broker statements (IB, Firstrade, Cathay securities) into the
//! broker sub-ledger, with each statement's balances as holding assertions.

use vstd::prelude::*;

use crate::accounts;
use crate::accounts::Chart;
use crate::amount;
use crate::amount::{Amount, Dec};
use crate::assertion::AssertionSource;
use crate::currency::Currency;
use crate::date::Date;
use crate::db::broker;
use crate::db::broker::{BrokerRecord, RecordV};
use crate::db::check;
use crate::db::check::CheckReport;
use crate::db::holdings;
use crate::db::holdings::{Commodity, CommodityV, HoldingAssertion, HoldingV};
use crate::import::bank;
use crate::keyed;
use crate::names;
use crate::refusal::Refusal;
use crate::sort;
use crate::sort::{Key, KeyV};
use crate::text;

verus! {

/// The brokers.
#[derive(Clone, Copy, PartialEq, Eq, Structural, Debug)]
pub enum Source {
    Ib,
    Firstrade,
    CathaySecurities,
}

/// What a broker's imports are recorded as.
pub open spec fn source_name(s: Source) -> Seq<char> {
    match s {
        Source::Ib => "ib"@,
        Source::Firstrade => "firstrade"@,
        Source::CathaySecurities => "cathay-securities"@,
    }
}

impl Source {
    /// What the broker's imports are recorded as.
    pub fn batch_source(self) -> (r: &'static str)
        ensures
            r@ == source_name(self),
    {
        match self {
            Source::Ib => "ib",
            Source::Firstrade => "firstrade",
            Source::CathaySecurities => "cathay-securities",
        }
    }

    /// Namespaces the broker's refs.
    pub fn prefix(self) -> (r: String)
        ensures
            r@ == source_name(self) + ":"@,
    {
        let mut out = text::copy(self.batch_source());
        out.append(":");
        out
    }
}

/// What a statement lists: cash per currency, and shares per security.
#[derive(Clone, Debug)]
pub struct Holdings {
    pub cash: Vec<(Currency, Amount)>,
    pub positions: Vec<(String, Amount)>,
}

#[verifier::ext_equal]
pub struct HoldingsV {
    pub cash: Seq<(Currency, Dec)>,
    pub positions: Seq<(Seq<char>, Dec)>,
}

pub open spec fn cash_views(v: Seq<(Currency, Amount)>) -> Seq<(Currency, Dec)> {
    v.map_values(|c: (Currency, Amount)| (c.0, c.1@))
}

pub open spec fn position_views(v: Seq<(String, Amount)>) -> Seq<(Seq<char>, Dec)> {
    v.map_values(|p: (String, Amount)| (p.0@, p.1@))
}

impl View for Holdings {
    type V = HoldingsV;

    open spec fn view(&self) -> HoldingsV {
        HoldingsV {
            cash: cash_views(self.cash@),
            positions: position_views(self.positions@),
        }
    }
}

/// One statement of a broker.
#[derive(Debug)]
pub struct BrokerStatement {
    /// The account number it states; empty where it states none.
    pub account: String,
    pub period_start: Date,
    pub period_end: Date,
    /// When the download was generated, in seconds, where it says so.
    pub generated: Option<i64>,
    /// What the account held as the period began, and the day that is stated
    /// for.
    pub opening: Option<Holdings>,
    pub opening_date: Date,
    /// The records that open an account on what it held.
    pub opening_records: Vec<BrokerRecord>,
    pub closing: Option<Holdings>,
    pub records: Vec<BrokerRecord>,
}

#[verifier::ext_equal]
pub struct StatementV {
    pub account: Seq<char>,
    pub period_start: int,
    pub period_end: int,
    pub generated: Option<i64>,
    pub opening: Option<HoldingsV>,
    pub opening_date: int,
    pub opening_records: Seq<RecordV>,
    pub closing: Option<HoldingsV>,
    pub records: Seq<RecordV>,
}

pub open spec fn held_opt(h: Option<Holdings>) -> Option<HoldingsV> {
    match h {
        Some(h) => Some(h@),
        None => None,
    }
}

impl View for BrokerStatement {
    type V = StatementV;

    open spec fn view(&self) -> StatementV {
        StatementV {
            account: self.account@,
            period_start: self.period_start@,
            period_end: self.period_end@,
            generated: self.generated,
            opening: held_opt(self.opening),
            opening_date: self.opening_date@,
            opening_records: broker::record_views(self.opening_records@),
            closing: held_opt(self.closing),
            records: broker::record_views(self.records@),
        }
    }
}

pub open spec fn statement_views(v: Seq<BrokerStatement>) -> Seq<StatementV> {
    v.map_values(|s: BrokerStatement| s@)
}

/// Are the two of one account and period?
pub open spec fn one_period(a: StatementV, b: StatementV) -> bool {
    a.account == b.account && a.period_start == b.period_start && a.period_end == b.period_end
}

/// Was a download generated before another? One that doesn't say when, before
/// any that does.
pub open spec fn older(a: Option<i64>, b: Option<i64>) -> bool {
    match (a, b) {
        (None, Some(_)) => true,
        (Some(x), Some(y)) => x < y,
        _ => false,
    }
}

/// Does the statement at `j` take the place of the one at `i`?
pub open spec fn displaces(ss: Seq<StatementV>, i: int, j: int) -> bool {
    one_period(ss[j], ss[i]) && (older(ss[i].generated, ss[j].generated) || (ss[i].generated
        == ss[j].generated && j < i))
}

/// Is a statement the newest of its period? Of several downloads for one
/// period they differ only in when they were generated.
pub open spec fn is_newest(ss: Seq<StatementV>, i: int) -> bool {
    forall|j: int| 0 <= j < ss.len() ==> !#[trigger] displaces(ss, i, j)
}

/// The statements among the first `n` that are, or are not, the newest of their
/// period.
pub open spec fn chosen(ss: Seq<StatementV>, newest: bool, n: int) -> Seq<int>
    decreases n,
{
    if n <= 0 {
        Seq::empty()
    } else if is_newest(ss, n - 1) == newest {
        chosen(ss, newest, n - 1).push(n - 1)
    } else {
        chosen(ss, newest, n - 1)
    }
}

/// What statements are sorted by: the period.
pub open spec fn period_key(s: StatementV) -> KeyV {
    KeyV { text: Seq::empty(), numbers: (s.period_start, s.period_end, 0, 0) }
}

/// The statements to import, oldest period first.
pub open spec fn kept(ss: Seq<StatementV>) -> Seq<int> {
    let some = chosen(ss, true, ss.len() as int);
    sort::arranged(some, sort::order(some.map_values(|i: int| period_key(ss[i]))))
}

fn displaces_it(ss: &Vec<BrokerStatement>, i: usize, j: usize) -> (r: bool)
    requires
        i < ss@.len(),
        j < ss@.len(),
    ensures
        r == displaces(statement_views(ss@), i as int, j as int),
{
    let a = &ss[j];
    let b = &ss[i];
    assert(statement_views(ss@)[j as int] == a@);
    assert(statement_views(ss@)[i as int] == b@);
    if !text::same_text(a.account.as_str(), b.account.as_str()) || a.period_start.number()
        != b.period_start.number() || a.period_end.number() != b.period_end.number() {
        return false;
    }
    match (b.generated, a.generated) {
        (None, Some(_)) => true,
        (Some(x), Some(y)) => x < y || (x == y && j < i),
        (None, None) => j < i,
        (Some(_), None) => false,
    }
}

/// Is a statement the newest of its period?
fn is_the_newest(ss: &Vec<BrokerStatement>, i: usize) -> (r: bool)
    requires
        i < ss@.len(),
    ensures
        r == is_newest(statement_views(ss@), i as int),
{
    let ghost all = statement_views(ss@);
    let mut j: usize = 0;
    while j < ss.len()
        invariant
            j <= ss@.len(),
            i < ss@.len(),
            all == statement_views(ss@),
            forall|k: int| 0 <= k < j ==> !#[trigger] displaces(all, i as int, k),
        decreases ss@.len() - j,
    {
        if displaces_it(ss, i, j) {
            return false;
        }
        j = j + 1;
    }
    true
}

/// The statements to import, oldest period first, and those set aside: of
/// several downloads for one period only the newest is kept.
pub fn keep_newest(ss: &Vec<BrokerStatement>) -> (r: (Vec<usize>, Vec<usize>))
    ensures
        sort::places(r.0@) == kept(statement_views(ss@)),
        sort::places(r.1@) == chosen(statement_views(ss@), false, ss@.len() as int),
{
    let ghost all = statement_views(ss@);
    let mut some: Vec<usize> = Vec::new();
    let mut rest: Vec<usize> = Vec::new();
    let mut keys: Vec<Key> = Vec::new();
    let mut i: usize = 0;
    assert(sort::places(some@) =~= Seq::empty());
    assert(sort::places(rest@) =~= Seq::empty());
    while i < ss.len()
        invariant
            i <= ss@.len(),
            all == statement_views(ss@),
            sort::places(some@) == chosen(all, true, i as int),
            sort::places(rest@) == chosen(all, false, i as int),
            keys@.len() == some@.len(),
            forall|k: int|
                0 <= k < some@.len() ==> (#[trigger] some@[k]) < ss@.len() && keys@[k]@
                    == period_key(all[some@[k] as int]),
        decreases ss@.len() - i,
    {
        let ghost (s, t, ks) = (some@, rest@, keys@);
        if is_the_newest(ss, i) {
            some.push(i);
            keys.push(
                Key {
                    text: text::copy(""),
                    numbers: (
                        ss[i].period_start.number() as i64,
                        ss[i].period_end.number() as i64,
                        0,
                        0,
                    ),
                },
            );
            proof {
                reveal_strlit("");
                assert(all[i as int] == ss@[i as int]@);
                assert(keys@.last()@.text =~= Seq::empty());
                assert(sort::places(some@) =~= sort::places(s).push(i as int));
                assert forall|k: int| 0 <= k < some@.len() implies (#[trigger] some@[k]) < ss@.len()
                    && keys@[k]@ == period_key(all[some@[k] as int]) by {
                    if k < s.len() {
                        assert(some@[k] == s[k]);
                        assert(keys@[k] == ks[k]);
                    }
                }
            }
        } else {
            rest.push(i);
            assert(sort::places(rest@) =~= sort::places(t).push(i as int));
        }
        i = i + 1;
    }
    let ghost picked = sort::places(some@);
    assert(sort::key_views(keys@) =~= picked.map_values(|i: int| period_key(all[i])));
    let by = sort::order_of(keys);
    let mut out: Vec<usize> = Vec::new();
    let mut n: usize = 0;
    proof {
        sort::order_is_a_permutation(picked.map_values(|i: int| period_key(all[i])));
    }
    let ghost order = sort::order(picked.map_values(|i: int| period_key(all[i])));
    assert(sort::places(by@) == order);
    while n < by.len()
        invariant
            n <= by@.len(),
            out@.len() == n,
            order == sort::places(by@),
            picked == sort::places(some@),
            forall|k: int| 0 <= k < order.len() ==> 0 <= #[trigger] order[k] < some@.len(),
            forall|k: int|
                0 <= k < n ==> (#[trigger] out@[k]) as int == sort::arranged(picked, order)[k],
        decreases by@.len() - n,
    {
        assert(order[n as int] == by@[n as int]);
        out.push(some[by[n]]);
        n = n + 1;
    }
    assert(sort::places(out@) =~= sort::arranged(picked, order));
    (out, rest)
}

proof fn newest_among(ss: Seq<StatementV>, i: int, n: int) -> (j: int)
    requires
        0 <= i < ss.len(),
        0 <= n <= ss.len(),
    ensures
        0 <= j < ss.len(),
        one_period(ss[j], ss[i]),
        forall|k: int| 0 <= k < n ==> !#[trigger] displaces(ss, j, k),
    decreases n,
{
    if n == 0 {
        i
    } else {
        let j = newest_among(ss, i, n - 1);
        if displaces(ss, j, n - 1) {
            assert forall|k: int| 0 <= k < n implies !#[trigger] displaces(ss, n - 1, k) by {
                if k < n - 1 {
                    assert(!displaces(ss, j, k));
                }
            }
            n - 1
        } else {
            j
        }
    }
}

/// Of the downloads of one period, one is the newest.
pub proof fn each_period_has_a_newest(ss: Seq<StatementV>, i: int) -> (j: int)
    requires
        0 <= i < ss.len(),
    ensures
        0 <= j < ss.len(),
        one_period(ss[j], ss[i]),
        is_newest(ss, j),
        forall|k: int|
            0 <= k < ss.len() && one_period(ss[k], ss[i]) && is_newest(ss, k) ==> k == j,
{
    let j = newest_among(ss, i, ss.len() as int);
    assert forall|k: int|
        0 <= k < ss.len() && one_period(ss[k], ss[i]) && is_newest(ss, k) implies k == j by {
        assert(!displaces(ss, j, k));
        assert(!displaces(ss, k, j));
    }
    j
}

/// The records of an account.
#[derive(Debug)]
pub struct Records {
    pub list: Vec<BrokerRecord>,
}

impl View for Records {
    type V = Seq<RecordV>;

    open spec fn view(&self) -> Seq<RecordV> {
        broker::record_views(self.list@)
    }
}

/// The securities an account had touched by a day, in order.
pub open spec fn touched(records: Seq<RecordV>, as_of: int) -> Seq<Seq<char>>
    decreases records.len(),
{
    if records.len() == 0 {
        Seq::empty()
    } else {
        let rest = touched(records.drop_last(), as_of);
        let r = records.last();
        match r.symbol {
            Some(s) if r.settle_date <= as_of && r.quantity.magnitude != 0 => text::with_key(
                rest,
                s,
            ),
            _ => rest,
        }
    }
}

fn touched_by(records: &Vec<BrokerRecord>, as_of: Date) -> (r: Vec<String>)
    ensures
        text::texts(r@) == touched(broker::record_views(records@), as_of@),
{
    let ghost all = broker::record_views(records@);
    let mut out: Vec<String> = Vec::new();
    let mut i: usize = 0;
    assert(text::texts(out@) =~= Seq::empty());
    while i < records.len()
        invariant
            i <= records@.len(),
            all == broker::record_views(records@),
            text::texts(out@) == touched(all.take(i as int), as_of@),
        decreases records@.len() - i,
    {
        let r = &records[i];
        assert(all[i as int] == r@);
        assert(all.take(i as int + 1).drop_last() =~= all.take(i as int));
        if let Some(s) = &r.symbol {
            if r.settle_date.number() <= as_of.number() && !r.quantity.is_zero() {
                text::add_key(&mut out, s.as_str());
            }
        }
        i = i + 1;
    }
    assert(all.take(i as int) =~= all);
    out
}

/// Does a statement list a security?
pub open spec fn lists(h: HoldingsV, s: Seq<char>) -> bool {
    exists|i: int| 0 <= i < h.positions.len() && (#[trigger] h.positions[i]).0 == s
}

fn is_listed(h: &Holdings, s: &str) -> (r: bool)
    ensures
        r == lists(h@, s@),
{
    let mut i: usize = 0;
    while i < h.positions.len()
        invariant
            i <= h.positions@.len(),
            forall|k: int| 0 <= k < i ==> (#[trigger] h@.positions[k]).0 != s@,
        decreases h.positions@.len() - i,
    {
        assert(h@.positions[i as int].0 == h.positions@[i as int].0@);
        if text::same_text(h.positions[i].0.as_str(), s) {
            return true;
        }
        i = i + 1;
    }
    false
}

/// Zero for every security of `symbols` that a statement doesn't list.
pub open spec fn unlisted(h: HoldingsV, symbols: Seq<Seq<char>>) -> Seq<(CommodityV, Dec)>
    decreases symbols.len(),
{
    if symbols.len() == 0 {
        Seq::empty()
    } else {
        let rest = unlisted(h, symbols.drop_last());
        if lists(h, symbols.last()) {
            rest
        } else {
            rest.push((CommodityV::Security(symbols.last()), amount::zero()))
        }
    }
}

/// What a statement vouches for: each currency and position it lists, and
/// zero for every security the account touched by then that it doesn't list.
pub open spec fn figures_of(h: HoldingsV, records: Seq<RecordV>, as_of: int) -> Seq<
    (CommodityV, Dec),
> {
    h.cash.map_values(|c: (Currency, Dec)| (CommodityV::Cash(c.0), c.1)) + h.positions.map_values(
        |p: (Seq<char>, Dec)| (CommodityV::Security(p.0), p.1),
    ) + unlisted(h, touched(records, as_of))
}

pub open spec fn figure_views(v: Seq<(Commodity, Amount)>) -> Seq<(CommodityV, Dec)> {
    v.map_values(|f: (Commodity, Amount)| (f.0@, f.1@))
}

/// What a statement vouches for: each currency and position it lists, and
/// zero for every security the account touched by then that it doesn't list.
pub fn figures(stated: &Holdings, records: &Vec<BrokerRecord>, as_of: Date) -> (r: Vec<
    (Commodity, Amount),
>)
    ensures
        figure_views(r@) == figures_of(stated@, broker::record_views(records@), as_of@),
{
    let ghost h = stated@;
    let ghost cash = h.cash.map_values(|c: (Currency, Dec)| (CommodityV::Cash(c.0), c.1));
    let ghost positions = h.positions.map_values(
        |p: (Seq<char>, Dec)| (CommodityV::Security(p.0), p.1),
    );
    let mut out: Vec<(Commodity, Amount)> = Vec::new();
    let mut i: usize = 0;
    assert(figure_views(out@) =~= cash.take(0));
    while i < stated.cash.len()
        invariant
            i <= stated.cash@.len(),
            h == stated@,
            cash == h.cash.map_values(|c: (Currency, Dec)| (CommodityV::Cash(c.0), c.1)),
            figure_views(out@) == cash.take(i as int),
        decreases stated.cash@.len() - i,
    {
        let ghost before = out@;
        let c = &stated.cash[i];
        assert(h.cash[i as int] == (c.0, c.1@));
        out.push((Commodity::Cash(c.0), c.1));
        assert(figure_views(out@) =~= figure_views(before).push(cash[i as int]));
        assert(figure_views(out@) =~= cash.take(i as int + 1));
        i = i + 1;
    }
    assert(cash.take(i as int) =~= cash);
    i = 0;
    assert(figure_views(out@) =~= cash + positions.take(0));
    while i < stated.positions.len()
        invariant
            i <= stated.positions@.len(),
            h == stated@,
            positions == h.positions.map_values(
                |p: (Seq<char>, Dec)| (CommodityV::Security(p.0), p.1),
            ),
            figure_views(out@) == cash + positions.take(i as int),
        decreases stated.positions@.len() - i,
    {
        let ghost before = out@;
        let p = &stated.positions[i];
        assert(h.positions[i as int] == (p.0@, p.1@));
        out.push((Commodity::Security(text::copy(p.0.as_str())), p.1));
        assert(figure_views(out@) =~= figure_views(before).push(positions[i as int]));
        assert(figure_views(out@) =~= cash + positions.take(i as int + 1));
        i = i + 1;
    }
    assert(positions.take(i as int) =~= positions);
    let symbols = touched_by(records, as_of);
    let ghost ss = text::texts(symbols@);
    let ghost stated_ones = cash + positions;
    i = 0;
    assert(figure_views(out@) =~= stated_ones + unlisted(h, ss.take(0)));
    while i < symbols.len()
        invariant
            i <= symbols@.len(),
            h == stated@,
            ss == text::texts(symbols@),
            figure_views(out@) == stated_ones + unlisted(h, ss.take(i as int)),
        decreases symbols@.len() - i,
    {
        let ghost before = out@;
        assert(ss[i as int] == symbols@[i as int]@);
        assert(ss.take(i as int + 1).drop_last() =~= ss.take(i as int));
        if !is_listed(stated, symbols[i].as_str()) {
            out.push((Commodity::Security(text::copy(symbols[i].as_str())), Amount::zero()));
            assert(figure_views(out@) =~= figure_views(before).push(
                (CommodityV::Security(ss[i as int]), amount::zero()),
            ));
            assert(figure_views(out@) =~= stated_ones + unlisted(h, ss.take(i as int + 1)));
        }
        i = i + 1;
    }
    assert(ss.take(i as int) =~= ss);
    out
}

/// The ref of a record.
pub open spec fn ref_of(source: Source, account: Seq<char>, key: Seq<char>) -> Seq<char> {
    source_name(source) + ":"@ + account + ":"@ + key
}

/// The ledger account of a statement: the one given, or the one its number
/// stands for.
pub open spec fn ledger_account(
    chart: Chart,
    given: Option<Seq<char>>,
    path: Seq<char>,
    s: StatementV,
) -> Result<Seq<char>, Seq<char>> {
    match given {
        Some(a) => Ok(a),
        None => if s.account.len() == 0 {
            Err(path + " states no account number; pass --account"@)
        } else {
            match accounts::under(accounts::table(chart.institution.accounts@), s.account) {
                Some(a) => Ok(a),
                None => Err(bank::unknown(s.account)),
            }
        },
    }
}

/// The records that open an account, which holds `so_far`.
pub open spec fn openings(path: Seq<char>, s: StatementV, so_far: Seq<RecordV>) -> Result<
    Seq<RecordV>,
    Seq<char>,
> {
    if so_far.len() > 0 {
        Ok(Seq::empty())
    } else if s.opening is Some {
        Ok(s.opening_records)
    } else if s.closing is Some {
        Err(
            path
                + " opens holding securities it doesn't list; import the statement before it first"@,
        )
    } else {
        Ok(Seq::empty())
    }
}

/// A record to store, under its ref.
#[derive(Debug)]
pub struct Fresh {
    pub external_ref: String,
    pub record: BrokerRecord,
}

#[verifier::ext_equal]
pub struct FreshV {
    pub external_ref: Seq<char>,
    pub record: RecordV,
}

impl View for Fresh {
    type V = FreshV;

    open spec fn view(&self) -> FreshV {
        FreshV { external_ref: self.external_ref@, record: self.record@ }
    }
}

pub open spec fn fresh_views(v: Seq<Fresh>) -> Seq<FreshV> {
    v.map_values(|f: Fresh| f@)
}

/// What an import knows: the refs stored, and the records of each account.
#[verifier::ext_equal]
pub struct StateV {
    pub known: Seq<Seq<char>>,
    pub held: Seq<(KeyV, Seq<RecordV>)>,
}

/// What has been taken of a statement's records.
#[verifier::ext_equal]
pub struct TakenV {
    pub known: Seq<Seq<char>>,
    pub so_far: Seq<RecordV>,
    pub fresh: Seq<FreshV>,
    pub repeated: int,
}

/// What is taken of the records: each whose ref is not stored yet.
pub open spec fn taken(
    source: Source,
    account: Seq<char>,
    start: TakenV,
    records: Seq<RecordV>,
) -> TakenV
    decreases records.len(),
{
    if records.len() == 0 {
        start
    } else {
        let t = taken(source, account, start, records.drop_last());
        let r = records.last();
        let external_ref = ref_of(source, account, r.key);
        if t.known.contains(external_ref) {
            TakenV { repeated: t.repeated + 1, ..t }
        } else {
            TakenV {
                known: t.known.push(external_ref),
                so_far: t.so_far.push(r),
                fresh: t.fresh.push(FreshV { external_ref, record: r }),
                repeated: t.repeated,
            }
        }
    }
}

/// The trades among the records that carry no execution date.
pub open spec fn undated(fresh: Seq<FreshV>) -> int
    decreases fresh.len(),
{
    if fresh.len() == 0 {
        0
    } else {
        undated(fresh.drop_last()) + (if broker::trades(fresh.last().record.kind)
            && fresh.last().record.trade_date is None {
            1int
        } else {
            0int
        })
    }
}

/// The figures as assertions.
pub open spec fn asserted(account: Seq<char>, as_of: int, figures: Seq<(CommodityV, Dec)>) -> Seq<
    HoldingV,
> {
    figures.map_values(
        |f: (CommodityV, Dec)|
            HoldingV {
                source: AssertionSource::Statement,
                account,
                as_of,
                commodity: f.0,
                quantity: f.1,
            },
    )
}

/// What a statement vouches for as the period begins and as it ends.
pub open spec fn vouched(account: Seq<char>, s: StatementV, records: Seq<RecordV>) -> Seq<HoldingV> {
    (match s.opening {
        Some(h) => asserted(account, s.opening_date, figures_of(h, records, s.opening_date)),
        None => Seq::empty(),
    }) + (match s.closing {
        Some(h) => asserted(account, s.period_end, figures_of(h, records, s.period_end)),
        None => Seq::empty(),
    })
}

/// What the import of a statement stores.
#[derive(Debug)]
pub struct Import {
    pub account: String,
    /// How many records open the account.
    pub openings: usize,
    pub fresh: Vec<Fresh>,
    /// How many records were stored already.
    pub known: usize,
    /// Trades stored without an execution date.
    pub undated_trades: usize,
    pub figures: Vec<HoldingAssertion>,
}

#[verifier::ext_equal]
pub struct ImportV {
    pub account: Seq<char>,
    pub openings: int,
    pub fresh: Seq<FreshV>,
    pub known: int,
    pub undated_trades: int,
    pub figures: Seq<HoldingV>,
}

impl View for Import {
    type V = ImportV;

    open spec fn view(&self) -> ImportV {
        ImportV {
            account: self.account@,
            openings: self.openings as int,
            fresh: fresh_views(self.fresh@),
            known: self.known as int,
            undated_trades: self.undated_trades as int,
            figures: holdings::views(self.figures@),
        }
    }
}

pub open spec fn import_views(v: Seq<Import>) -> Seq<ImportV> {
    v.map_values(|i: Import| i@)
}

/// What is held of an account.
pub open spec fn held_of(held: Seq<(KeyV, Seq<RecordV>)>, account: Seq<char>) -> Seq<RecordV> {
    match keyed::get(held, sort::text_key(account)) {
        Some(r) => r,
        None => Seq::empty(),
    }
}

/// What the import of one statement stores, and what is known after it.
pub open spec fn step(
    chart: Chart,
    source: Source,
    given: Option<Seq<char>>,
    state: StateV,
    path: Seq<char>,
    s: StatementV,
) -> Result<(StateV, ImportV), Seq<char>> {
    match ledger_account(chart, given, path, s) {
        Err(e) => Err(e),
        Ok(account) => {
            let so_far = held_of(state.held, account);
            match openings(path, s, so_far) {
                Err(e) => Err(e),
                Ok(first) => {
                    let start = TakenV {
                        known: state.known,
                        so_far,
                        fresh: Seq::empty(),
                        repeated: 0,
                    };
                    let t = taken(source, s.account, start, first + s.records);
                    Ok(
                        (
                            StateV {
                                known: t.known,
                                held: keyed::put(state.held, sort::text_key(account), t.so_far),
                            },
                            ImportV {
                                account,
                                openings: first.len() as int,
                                fresh: t.fresh,
                                known: t.repeated,
                                undated_trades: undated(t.fresh),
                                figures: vouched(account, s, t.so_far),
                            },
                        ),
                    )
                },
            }
        },
    }
}

/// What the import of the first `n` statements stores, and what is known after
/// them.
pub open spec fn imported(
    chart: Chart,
    source: Source,
    given: Option<Seq<char>>,
    start: StateV,
    paths: Seq<Seq<char>>,
    ss: Seq<StatementV>,
    n: int,
) -> Result<(StateV, Seq<ImportV>), Seq<char>>
    decreases n,
{
    if n <= 0 {
        Ok((start, Seq::empty()))
    } else {
        match imported(chart, source, given, start, paths, ss, n - 1) {
            Err(e) => Err(e),
            Ok((state, rest)) => match step(
                chart,
                source,
                given,
                state,
                paths[n - 1],
                ss[n - 1],
            ) {
                Err(e) => Err(e),
                Ok((after, i)) => Ok((after, rest.push(i))),
            },
        }
    }
}

fn account_for(chart: &Chart, given: &Option<String>, path: &str, s: &BrokerStatement) -> (r: Result<
    String,
    Refusal,
>)
    ensures
        match r {
            Ok(a) => ledger_account(*chart, text::opt(*given), path@, s@) == Ok::<
                Seq<char>,
                Seq<char>,
            >(a@),
            Err(e) => ledger_account(*chart, text::opt(*given), path@, s@) == Err::<
                Seq<char>,
                Seq<char>,
            >(e@),
        },
{
    match given {
        Some(a) => Ok(text::copy(a.as_str())),
        None => {
            if s.account.as_str().unicode_len() == 0 {
                let mut out = text::copy(path);
                out.append(" states no account number; pass --account");
                return Err(Refusal { message: out });
            }
            match names::statement_account(chart, s.account.as_str()) {
                Ok(a) => Ok(text::copy(a.as_str())),
                Err(e) => Err(Refusal { message: e.text() }),
            }
        },
    }
}

fn is_known(known: &Vec<String>, key: &str) -> (r: bool)
    ensures
        r == text::texts(known@).contains(key@),
{
    let ghost all = text::texts(known@);
    let mut i: usize = 0;
    while i < known.len()
        invariant
            i <= known@.len(),
            all == text::texts(known@),
            forall|k: int| 0 <= k < i ==> #[trigger] all[k] != key@,
        decreases known@.len() - i,
    {
        assert(all[i as int] == known@[i as int]@);
        if text::same_text(known[i].as_str(), key) {
            return true;
        }
        i = i + 1;
    }
    false
}

/// What is being taken of a statement's records.
struct Taking {
    known: Vec<String>,
    so_far: Vec<BrokerRecord>,
    fresh: Vec<Fresh>,
    repeated: usize,
}

impl View for Taking {
    type V = TakenV;

    closed spec fn view(&self) -> TakenV {
        TakenV {
            known: text::texts(self.known@),
            so_far: broker::record_views(self.so_far@),
            fresh: fresh_views(self.fresh@),
            repeated: self.repeated as int,
        }
    }
}

fn take(t: Taking, source: Source, account: &str, records: &Vec<BrokerRecord>) -> (r: Taking)
    requires
        t.repeated + records@.len() <= usize::MAX,
    ensures
        r@ == taken(source, account@, t@, broker::record_views(records@)),
        r.repeated <= t.repeated + records@.len(),
{
    let ghost start = t@;
    let ghost all = broker::record_views(records@);
    let mut out = t;
    let mut i: usize = 0;
    let prefix = source.prefix();
    while i < records.len()
        invariant
            i <= records@.len(),
            all == broker::record_views(records@),
            prefix@ == source_name(source) + ":"@,
            out.repeated <= t.repeated + i,
            t.repeated + records@.len() <= usize::MAX,
            out@ == taken(source, account@, start, all.take(i as int)),
        decreases records@.len() - i,
    {
        let r = &records[i];
        assert(all[i as int] == r@);
        assert(all.take(i as int + 1).drop_last() =~= all.take(i as int));
        let mut external_ref = text::copy(prefix.as_str());
        external_ref.append(account);
        external_ref.append(":");
        external_ref.append(r.key.as_str());
        assert(external_ref@ =~= ref_of(source, account@, r@.key));
        if is_known(&out.known, external_ref.as_str()) {
            out.repeated = out.repeated + 1;
        } else {
            let ghost was = out;
            out.known.push(text::copy(external_ref.as_str()));
            out.so_far.push(r.copy());
            let ghost rf = external_ref@;
            out.fresh.push(Fresh { external_ref, record: r.copy() });
            assert(text::texts(out.known@) =~= text::texts(was.known@).push(rf));
            assert(broker::record_views(out.so_far@) =~= broker::record_views(was.so_far@).push(
                r@,
            ));
            assert(fresh_views(out.fresh@) =~= fresh_views(was.fresh@).push(
                FreshV { external_ref: rf, record: r@ },
            ));
        }
        i = i + 1;
    }
    assert(all.take(i as int) =~= all);
    out
}

proof fn taken_in_turn(
    source: Source,
    account: Seq<char>,
    start: TakenV,
    a: Seq<RecordV>,
    b: Seq<RecordV>,
)
    ensures
        taken(source, account, taken(source, account, start, a), b) == taken(
            source,
            account,
            start,
            a + b,
        ),
    decreases b.len(),
{
    if b.len() == 0 {
        assert(a + b =~= a);
    } else {
        taken_in_turn(source, account, start, a, b.drop_last());
        assert((a + b).drop_last() =~= a + b.drop_last());
        assert((a + b).last() == b.last());
    }
}

/// What an import knows: the refs stored, and the records of each account.
#[derive(Debug)]
pub struct State {
    pub known: Vec<String>,
    pub held: Vec<(Key, Records)>,
}

impl View for State {
    type V = StateV;

    open spec fn view(&self) -> StateV {
        StateV { known: text::texts(self.known@), held: keyed::entries(self.held@) }
    }
}

fn copy_records(records: &Vec<BrokerRecord>) -> (r: Vec<BrokerRecord>)
    ensures
        broker::record_views(r@) == broker::record_views(records@),
{
    let mut out: Vec<BrokerRecord> = Vec::new();
    let mut i: usize = 0;
    while i < records.len()
        invariant
            i <= records@.len(),
            out@.len() == i,
            forall|k: int| 0 <= k < i ==> (#[trigger] out@[k])@ == records@[k]@,
        decreases records@.len() - i,
    {
        out.push(records[i].copy());
        i = i + 1;
    }
    assert(broker::record_views(out@) =~= broker::record_views(records@));
    out
}

fn count_undated(fresh: &Vec<Fresh>) -> (r: usize)
    ensures
        r == undated(fresh_views(fresh@)),
{
    let ghost all = fresh_views(fresh@);
    let mut n: usize = 0;
    let mut i: usize = 0;
    while i < fresh.len()
        invariant
            i <= fresh@.len(),
            n <= i,
            all == fresh_views(fresh@),
            n == undated(all.take(i as int)),
        decreases fresh@.len() - i,
    {
        assert(all[i as int] == fresh@[i as int]@);
        assert(all.take(i as int + 1).drop_last() =~= all.take(i as int));
        if broker::is_trade(fresh[i].record.kind.as_str()) && fresh[i].record.trade_date.is_none() {
            n = n + 1;
        }
        i = i + 1;
    }
    assert(all.take(i as int) =~= all);
    n
}

fn assert_figures(account: &str, as_of: Date, figures: Vec<(Commodity, Amount)>) -> (r: Vec<
    HoldingAssertion,
>)
    ensures
        holdings::views(r@) == asserted(account@, as_of@, figure_views(figures@)),
{
    let ghost given = figures@;
    let ghost all = asserted(account@, as_of@, figure_views(given));
    let mut rest = figures;
    let mut out: Vec<HoldingAssertion> = Vec::new();
    assert(rest@ =~= given.skip(0));
    while rest.len() > 0
        invariant
            out@.len() + rest@.len() == given.len(),
            rest@ == given.skip(out@.len() as int),
            all == asserted(account@, as_of@, figure_views(given)),
            forall|k: int| 0 <= k < out@.len() ==> (#[trigger] out@[k])@ == all[k],
        decreases rest@.len(),
    {
        let ghost n = out@.len() as int;
        let (commodity, quantity) = rest.remove(0);
        assert((commodity, quantity) == given[n]);
        assert(figure_views(given)[n] == (commodity@, quantity@));
        out.push(
            HoldingAssertion {
                source: AssertionSource::Statement,
                account: text::copy(account),
                as_of,
                commodity,
                quantity,
            },
        );
        assert(rest@ =~= given.skip(n + 1));
    }
    assert(holdings::views(out@) =~= all);
    out
}

fn vouch(account: &str, s: &BrokerStatement, records: &Vec<BrokerRecord>) -> (r: Vec<
    HoldingAssertion,
>)
    ensures
        holdings::views(r@) == vouched(account@, s@, broker::record_views(records@)),
{
    let mut out: Vec<HoldingAssertion> = Vec::new();
    if let Some(h) = &s.opening {
        out = assert_figures(account, s.opening_date, figures(h, records, s.opening_date));
    } else {
        assert(holdings::views(out@) =~= Seq::empty());
    }
    let ghost first = out@;
    if let Some(h) = &s.closing {
        let mut more = assert_figures(account, s.period_end, figures(h, records, s.period_end));
        let ghost last = more@;
        out.append(&mut more);
        assert(holdings::views(out@) =~= holdings::views(first) + holdings::views(last));
    } else {
        assert(holdings::views(out@) =~= holdings::views(first) + Seq::empty());
    }
    out
}

/// Does a machine hold as many records as the statement has, openings and all?
pub open spec fn countable(s: StatementV) -> bool {
    s.opening_records.len() + s.records.len() <= usize::MAX
}

fn import_one(
    chart: &Chart,
    source: Source,
    given: &Option<String>,
    state: State,
    path: &str,
    s: &BrokerStatement,
) -> (r: Result<(State, Import), Refusal>)
    requires
        countable(s@),
    ensures
        match r {
            Ok((after, i)) => step(*chart, source, text::opt(*given), state@, path@, s@) == Ok::<
                (StateV, ImportV),
                Seq<char>,
            >((after@, i@)),
            Err(e) => step(*chart, source, text::opt(*given), state@, path@, s@) == Err::<
                (StateV, ImportV),
                Seq<char>,
            >(e@),
        },
{
    let account = account_for(chart, given, path, s)?;
    let State { known, mut held } = state;
    let key = Key::of_text(account.as_str());
    let so_far = match keyed::look(&held, &key) {
        Some(r) => copy_records(&r.list),
        None => Vec::new(),
    };
    let ghost had = held_of(state@.held, account@);
    assert(broker::record_views(so_far@) =~= had);
    assert(had.len() == so_far@.len());
    assert(s@.opening_records.len() == s.opening_records@.len());
    assert(s@.records.len() == s.records@.len());
    let none: Vec<BrokerRecord> = Vec::new();
    let first: &Vec<BrokerRecord> = if so_far.len() > 0 {
        &none
    } else if s.opening.is_some() {
        &s.opening_records
    } else if s.closing.is_some() {
        let mut out = text::copy(path);
        out.append(
            " opens holding securities it doesn't list; import the statement before it first",
        );
        return Err(Refusal { message: out });
    } else {
        &none
    };
    assert(broker::record_views(none@) =~= Seq::empty());
    let ghost opened = broker::record_views(first@);
    assert(openings(path@, s@, had) == Ok::<Seq<RecordV>, Seq<char>>(opened));
    let t = Taking { known, so_far, fresh: Vec::new(), repeated: 0 };
    assert(fresh_views(t.fresh@) =~= Seq::empty());
    let ghost start = t@;
    let t = take(t, source, s.account.as_str(), first);
    let t = take(t, source, s.account.as_str(), &s.records);
    proof {
        taken_in_turn(source, s@.account, start, opened, s@.records);
    }
    let Taking { known, so_far, fresh, repeated } = t;
    let undated_trades = count_undated(&fresh);
    let figures = vouch(account.as_str(), s, &so_far);
    keyed::set(&mut held, key, Records { list: so_far });
    let out = Import {
        account,
        openings: first.len(),
        fresh,
        known: repeated,
        undated_trades,
        figures,
    };
    Ok((State { known, held }, out))
}

proof fn refused_statements_stay(
    chart: Chart,
    source: Source,
    given: Option<Seq<char>>,
    start: StateV,
    paths: Seq<Seq<char>>,
    ss: Seq<StatementV>,
    n: int,
    all: int,
)
    requires
        n <= all,
        imported(chart, source, given, start, paths, ss, n) is Err,
    ensures
        imported(chart, source, given, start, paths, ss, all) == imported(
            chart,
            source,
            given,
            start,
            paths,
            ss,
            n,
        ),
    decreases all - n,
{
    if n < all {
        refused_statements_stay(chart, source, given, start, paths, ss, n, all - 1);
    }
}

/// Decides what the import of the statements stores. `state` is what the
/// sub-ledger holds.
pub fn import(
    chart: &Chart,
    source: Source,
    paths: &Vec<String>,
    statements: &Vec<BrokerStatement>,
    account: &Option<String>,
    state: State,
) -> (r: Result<Vec<Import>, Refusal>)
    requires
        paths@.len() == statements@.len(),
        forall|i: int| 0 <= i < statements@.len() ==> countable((#[trigger] statements@[i])@),
    ensures
        ({
            let all = imported(
                *chart,
                source,
                text::opt(*account),
                state@,
                text::texts(paths@),
                statement_views(statements@),
                statements@.len() as int,
            );
            match r {
                Ok(v) => all matches Ok(done) && done.1 == import_views(v@),
                Err(e) => all == Err::<(StateV, Seq<ImportV>), Seq<char>>(e@),
            }
        }),
{
    let ghost start = state@;
    let ghost given = text::opt(*account);
    let ghost ps = text::texts(paths@);
    let ghost ss = statement_views(statements@);
    let mut now = state;
    let mut out: Vec<Import> = Vec::new();
    let mut i: usize = 0;
    assert(import_views(out@) =~= Seq::empty());
    while i < statements.len()
        invariant
            i <= statements@.len(),
            paths@.len() == statements@.len(),
            forall|k: int| 0 <= k < statements@.len() ==> countable((#[trigger] statements@[k])@),
            start == state@,
            given == text::opt(*account),
            ps == text::texts(paths@),
            ss == statement_views(statements@),
            imported(*chart, source, given, start, ps, ss, i as int) == Ok::<
                (StateV, Seq<ImportV>),
                Seq<char>,
            >((now@, import_views(out@))),
        decreases statements@.len() - i,
    {
        let ghost before = out@;
        assert(ps[i as int] == paths@[i as int]@);
        assert(ss[i as int] == statements@[i as int]@);
        match import_one(chart, source, account, now, paths[i].as_str(), &statements[i]) {
            Err(e) => {
                proof {
                    refused_statements_stay(
                        *chart,
                        source,
                        given,
                        start,
                        ps,
                        ss,
                        i as int + 1,
                        ss.len() as int,
                    );
                }
                return Err(e);
            },
            Ok((after, one)) => {
                let ghost v = one@;
                now = after;
                out.push(one);
                assert(import_views(out@) =~= import_views(before).push(v));
            },
        }
        i = i + 1;
    }
    Ok(out)
}

proof fn taken_adds(source: Source, account: Seq<char>, start: TakenV, records: Seq<RecordV>)
    requires
        start.fresh.len() == 0,
    ensures
        ({
            let t = taken(source, account, start, records);
            &&& t.known.len() == start.known.len() + t.fresh.len()
            &&& forall|i: int| 0 <= i < start.known.len() ==> t.known[i] == #[trigger] start.known[i]
            &&& forall|i: int|
                0 <= i < t.fresh.len() ==> t.known[start.known.len() + i] == (
                #[trigger] t.fresh[i]).external_ref
        }),
    decreases records.len(),
{
    if records.len() > 0 {
        taken_adds(source, account, start, records.drop_last());
        let before = taken(source, account, start, records.drop_last());
        let t = taken(source, account, start, records);
        assert forall|i: int| 0 <= i < t.fresh.len() implies t.known[start.known.len() + i] == (
        #[trigger] t.fresh[i]).external_ref by {
            if i < before.fresh.len() {
                assert(t.fresh[i] == before.fresh[i]);
            }
        }
    }
}

/// Each line is stored once: what is taken of some records was not stored
/// before, no two are under one ref, and afterwards every record is stored.
pub proof fn each_line_is_stored_once(
    source: Source,
    account: Seq<char>,
    start: TakenV,
    records: Seq<RecordV>,
)
    requires
        start.fresh.len() == 0,
    ensures
        ({
            let t = taken(source, account, start, records);
            &&& forall|i: int|
                0 <= i < t.fresh.len() ==> !start.known.contains(
                    (#[trigger] t.fresh[i]).external_ref,
                )
            &&& forall|i: int, j: int|
                0 <= i < j < t.fresh.len() ==> (#[trigger] t.fresh[i]).external_ref != (
                #[trigger] t.fresh[j]).external_ref
            &&& forall|i: int|
                0 <= i < records.len() ==> t.known.contains(
                    ref_of(source, account, (#[trigger] records[i]).key),
                )
        }),
    decreases records.len(),
{
    if records.len() > 0 {
        let less = records.drop_last();
        each_line_is_stored_once(source, account, start, less);
        taken_adds(source, account, start, less);
        let before = taken(source, account, start, less);
        let t = taken(source, account, start, records);
        let last = ref_of(source, account, records.last().key);
        assert forall|i: int| 0 <= i < records.len() implies t.known.contains(
            ref_of(source, account, (#[trigger] records[i]).key),
        ) by {
            let r = ref_of(source, account, records[i].key);
            if i < less.len() {
                assert(less[i] == records[i]);
                let k = choose|k: int| 0 <= k < before.known.len() && before.known[k] == r;
                assert(t.known[k] == r);
            } else if !before.known.contains(last) {
                assert(t.known[before.known.len() as int] == last);
            }
        }
        if !before.known.contains(last) {
            assert forall|i: int| 0 <= i < before.fresh.len() implies (
            #[trigger] before.fresh[i]).external_ref != last by {
                assert(before.known[start.known.len() + i] == before.fresh[i].external_ref);
            }
            if start.known.contains(last) {
                let k = choose|k: int| 0 <= k < start.known.len() && start.known[k] == last;
                assert(before.known[k] == last);
            }
            assert forall|i: int, j: int| 0 <= i < j < t.fresh.len() implies (
            #[trigger] t.fresh[i]).external_ref != (#[trigger] t.fresh[j]).external_ref by {
                assert(t.fresh[i] == before.fresh[i]);
                if j < before.fresh.len() {
                    assert(t.fresh[j] == before.fresh[j]);
                }
            }
        }
    }
}

proof fn taken_keeps(source: Source, account: Seq<char>, start: TakenV, records: Seq<RecordV>)
    ensures
        taken(source, account, start, records).so_far.len() >= start.so_far.len(),
        forall|r: Seq<char>| #[trigger]
            start.known.contains(r) ==> taken(source, account, start, records).known.contains(r),
    decreases records.len(),
{
    if records.len() > 0 {
        taken_keeps(source, account, start, records.drop_last());
        let before = taken(source, account, start, records.drop_last());
        let t = taken(source, account, start, records);
        assert forall|r: Seq<char>| #[trigger] start.known.contains(r) implies t.known.contains(
            r,
        ) by {
            let k = choose|k: int| 0 <= k < before.known.len() && before.known[k] == r;
            assert(t.known[k] == r);
        }
    }
}

proof fn nothing_taken(source: Source, account: Seq<char>, start: TakenV, records: Seq<RecordV>)
    requires
        forall|i: int|
            0 <= i < records.len() ==> start.known.contains(
                ref_of(source, account, (#[trigger] records[i]).key),
            ),
    ensures
        taken(source, account, start, records) == (TakenV {
            repeated: start.repeated + records.len(),
            ..start
        }),
    decreases records.len(),
{
    if records.len() > 0 {
        let less = records.drop_last();
        assert forall|i: int| 0 <= i < less.len() implies start.known.contains(
            ref_of(source, account, (#[trigger] less[i]).key),
        ) by {
            assert(less[i] == records[i]);
        }
        nothing_taken(source, account, start, less);
        assert(start.known.contains(
            ref_of(source, account, records[records.len() - 1].key),
        ));
    }
}

/// Does `b` know what `a` knows, and hold no less of any account?
spec fn grows(a: StateV, b: StateV) -> bool {
    &&& forall|r: Seq<char>| #[trigger] a.known.contains(r) ==> b.known.contains(r)
    &&& forall|account: Seq<char>|
        held_of(a.held, account).len() <= (#[trigger] held_of(b.held, account)).len()
}

proof fn step_grows(
    chart: Chart,
    source: Source,
    given: Option<Seq<char>>,
    state: StateV,
    path: Seq<char>,
    s: StatementV,
)
    requires
        keyed::in_order(state.held),
        step(chart, source, given, state, path, s) is Ok,
    ensures
        ({
            let after = step(chart, source, given, state, path, s)->Ok_0.0;
            let account = ledger_account(chart, given, path, s)->Ok_0;
            let first = openings(path, s, held_of(state.held, account))->Ok_0;
            &&& keyed::in_order(after.held)
            &&& grows(state, after)
            &&& forall|i: int|
                0 <= i < (first + s.records).len() ==> after.known.contains(
                    ref_of(source, s.account, (#[trigger] (first + s.records)[i]).key),
                )
        }),
{
    let after = step(chart, source, given, state, path, s)->Ok_0.0;
    let account = ledger_account(chart, given, path, s)->Ok_0;
    let so_far = held_of(state.held, account);
    let first = openings(path, s, so_far)->Ok_0;
    let start = TakenV { known: state.known, so_far, fresh: Seq::empty(), repeated: 0 };
    let t = taken(source, s.account, start, first + s.records);
    let key = sort::text_key(account);
    taken_keeps(source, s.account, start, first + s.records);
    each_line_is_stored_once(source, s.account, start, first + s.records);
    keyed::put_keeps_order(state.held, key, t.so_far);
    assert forall|other: Seq<char>|
        held_of(state.held, other).len() <= (#[trigger] held_of(after.held, other)).len() by {
        keyed::get_after_put(state.held, key, t.so_far, sort::text_key(other));
        assert(sort::text_key(other).text == other);
    }
}

proof fn imports_grow(
    chart: Chart,
    source: Source,
    given: Option<Seq<char>>,
    start: StateV,
    paths: Seq<Seq<char>>,
    ss: Seq<StatementV>,
    m: int,
    n: int,
)
    requires
        0 <= m <= n,
        keyed::in_order(start.held),
        imported(chart, source, given, start, paths, ss, n) is Ok,
    ensures
        imported(chart, source, given, start, paths, ss, m) is Ok,
        keyed::in_order(imported(chart, source, given, start, paths, ss, n)->Ok_0.0.held),
        grows(
            imported(chart, source, given, start, paths, ss, m)->Ok_0.0,
            imported(chart, source, given, start, paths, ss, n)->Ok_0.0,
        ),
    decreases n,
{
    if n > 0 {
        let k = if m < n {
            m
        } else {
            n - 1
        };
        imports_grow(chart, source, given, start, paths, ss, k, n - 1);
        let before = imported(chart, source, given, start, paths, ss, n - 1)->Ok_0.0;
        step_grows(chart, source, given, before, paths[n - 1], ss[n - 1]);
        if m < n {
            let (a, b) = (
                imported(chart, source, given, start, paths, ss, m)->Ok_0.0,
                imported(chart, source, given, start, paths, ss, n)->Ok_0.0,
            );
            assert forall|account: Seq<char>|
                held_of(a.held, account).len() <= (#[trigger] held_of(b.held, account)).len() by {
                assert(held_of(before.held, account).len() <= held_of(b.held, account).len());
            }
        }
    }
}

/// Does the import of a statement store nothing, and count each of its records
/// as stored already? It opens nothing where `held` are some records of the
/// account.
pub open spec fn stores_nothing(i: ImportV, s: StatementV, held: Seq<RecordV>) -> bool {
    &&& i.fresh == Seq::<FreshV>::empty()
    &&& i.undated_trades == 0
    &&& i.known == i.openings + s.records.len()
    &&& held.len() > 0 ==> i.openings == 0
}

proof fn nothing_stored_again(
    chart: Chart,
    source: Source,
    given: Option<Seq<char>>,
    start: StateV,
    again: StateV,
    paths: Seq<Seq<char>>,
    ss: Seq<StatementV>,
    n: int,
    m: int,
)
    requires
        0 <= m <= n,
        keyed::in_order(start.held),
        keyed::in_order(again.held),
        imported(chart, source, given, start, paths, ss, n) is Ok,
        ({
            let after = imported(chart, source, given, start, paths, ss, n)->Ok_0.0;
            &&& forall|r: Seq<char>| #[trigger]
                after.known.contains(r) ==> again.known.contains(r)
            &&& forall|account: Seq<char>|
                (#[trigger] held_of(after.held, account)).len() > 0 ==> held_of(
                    again.held,
                    account,
                ).len() > 0
        }),
    ensures
        imported(chart, source, given, again, paths, ss, m) matches Ok((state, imports))
            && state.known == again.known && keyed::in_order(state.held) && (forall|
            account: Seq<char>,
        |
            #[trigger] held_of(state.held, account) == held_of(again.held, account))
            && imports.len() == m && forall|i: int|
            0 <= i < m ==> stores_nothing(
                #[trigger] imports[i],
                ss[i],
                held_of(again.held, imports[i].account),
            ),
    decreases m,
{
    if m > 0 {
        let k = m - 1;
        nothing_stored_again(
            chart,
            source,
            given,
            start,
            again,
            paths,
            ss,
            n,
            k,
        );
        imports_grow(chart, source, given, start, paths, ss, k, n);
        imports_grow(chart, source, given, start, paths, ss, m, n);
        imports_grow(chart, source, given, start, paths, ss, k, m);
        let (path, s) = (paths[k], ss[k]);
        let was = imported(chart, source, given, start, paths, ss, k)->Ok_0.0;
        let then = imported(chart, source, given, start, paths, ss, m)->Ok_0.0;
        let after = imported(chart, source, given, start, paths, ss, n)->Ok_0.0;
        let (state, before) = imported(chart, source, given, again, paths, ss, k)->Ok_0;
        let account = ledger_account(chart, given, path, s)->Ok_0;
        imports_grow(chart, source, given, start, paths, ss, 0, k);
        step_grows(chart, source, given, was, path, s);
        let so_far = held_of(again.held, account);
        let opened = openings(path, s, held_of(was.held, account))->Ok_0;
        assert(held_of(was.held, account).len() <= held_of(after.held, account).len());
        assert(held_of(state.held, account) == so_far);
        let first = openings(path, s, so_far)->Ok_0;
        assert(openings(path, s, so_far) is Ok);
        let begun = TakenV { known: state.known, so_far, fresh: Seq::empty(), repeated: 0 };
        let all = first + s.records;
        assert forall|i: int| 0 <= i < all.len() implies state.known.contains(
            ref_of(source, s.account, (#[trigger] all[i]).key),
        ) by {
            let whole = opened + s.records;
            let at = if i < first.len() {
                i
            } else {
                opened.len() + (i - first.len())
            };
            assert(whole[at] == all[i]);
            assert(then.known.contains(ref_of(source, s.account, whole[at].key)));
            assert(after.known.contains(ref_of(source, s.account, whole[at].key)));
        }
        nothing_taken(source, s.account, begun, all);
        let key = sort::text_key(account);
        keyed::put_keeps_order(state.held, key, so_far);
        let (now, imports) = imported(chart, source, given, again, paths, ss, m)->Ok_0;
        assert forall|other: Seq<char>| #[trigger] held_of(now.held, other) == held_of(
            again.held,
            other,
        ) by {
            keyed::get_after_put(state.held, key, so_far, sort::text_key(other));
            assert(sort::text_key(other).text == other);
            assert(held_of(state.held, other) == held_of(again.held, other));
        }
        assert forall|i: int| 0 <= i < m implies stores_nothing(
            #[trigger] imports[i],
            ss[i],
            held_of(again.held, imports[i].account),
        ) by {
            if i < k {
                assert(imports[i] == before[i]);
            }
        }
    }
}

/// How many records the first `n` statements list.
pub open spec fn listed(ss: Seq<StatementV>, n: int) -> int
    decreases n,
{
    if n <= 0 {
        0
    } else {
        listed(ss, n - 1) + ss[n - 1].records.len()
    }
}

/// How many records the first `n` imports found stored already.
pub open spec fn found(imports: Seq<ImportV>, n: int) -> int
    decreases n,
{
    if n <= 0 {
        0
    } else {
        found(imports, n - 1) + imports[n - 1].known
    }
}

/// How many records the first `n` imports opened accounts with.
pub open spec fn opened(imports: Seq<ImportV>, n: int) -> int
    decreases n,
{
    if n <= 0 {
        0
    } else {
        opened(imports, n - 1) + imports[n - 1].openings
    }
}

proof fn all_found(imports: Seq<ImportV>, ss: Seq<StatementV>, held: Seq<(KeyV, Seq<RecordV>)>, n: int)
    requires
        forall|i: int|
            0 <= i < n ==> stores_nothing(
                #[trigger] imports[i],
                ss[i],
                held_of(held, imports[i].account),
            ),
    ensures
        found(imports, n) == opened(imports, n) + listed(ss, n),
        (forall|i: int|
            0 <= i < n ==> held_of(held, (#[trigger] imports[i]).account).len() > 0) ==> opened(
            imports,
            n,
        ) == 0,
    decreases n,
{
    if n > 0 {
        all_found(imports, ss, held, n - 1);
        assert(stores_nothing(
            imports[n - 1],
            ss[n - 1],
            held_of(held, imports[n - 1].account),
        ));
    }
}

/// Broker statements imported again store nothing. Once an import is kept, the
/// same statements are taken again and every record of theirs is stored
/// already; where each account holds a record, none is opened, and as many
/// records are counted as known as the statements list. `again` is any state
/// that knows the refs stored and holds some records of each account that has
/// some.
pub proof fn statements_imported_again_store_nothing(
    chart: Chart,
    source: Source,
    given: Option<Seq<char>>,
    start: StateV,
    again: StateV,
    paths: Seq<Seq<char>>,
    ss: Seq<StatementV>,
)
    requires
        keyed::in_order(start.held),
        keyed::in_order(again.held),
        imported(chart, source, given, start, paths, ss, ss.len() as int) is Ok,
        ({
            let after = imported(chart, source, given, start, paths, ss, ss.len() as int)->Ok_0.0;
            &&& forall|r: Seq<char>| #[trigger]
                after.known.contains(r) ==> again.known.contains(r)
            &&& forall|account: Seq<char>|
                (#[trigger] held_of(after.held, account)).len() > 0 ==> held_of(
                    again.held,
                    account,
                ).len() > 0
        }),
    ensures
        imported(chart, source, given, again, paths, ss, ss.len() as int) matches Ok(
            (state, imports),
        ) && state.known == again.known && (forall|account: Seq<char>|
            #[trigger] held_of(state.held, account) == held_of(again.held, account))
            && imports.len() == ss.len() && (forall|i: int|
            0 <= i < ss.len() ==> stores_nothing(
                #[trigger] imports[i],
                ss[i],
                held_of(again.held, imports[i].account),
            )) && ((forall|i: int|
            0 <= i < ss.len() ==> held_of(again.held, (#[trigger] imports[i]).account).len() > 0)
            ==> opened(imports, ss.len() as int) == 0 && found(imports, ss.len() as int) == listed(
            ss,
            ss.len() as int,
        )),
{
    let n = ss.len() as int;
    nothing_stored_again(chart, source, given, start, again, paths, ss, n, n);
    let imports = imported(chart, source, given, again, paths, ss, n)->Ok_0.1;
    all_found(imports, ss, again.held, n);
}

proof fn is_touched(records: Seq<RecordV>, as_of: int, i: int) -> (k: int)
    requires
        0 <= i < records.len(),
        records[i].symbol is Some,
        records[i].settle_date <= as_of,
        records[i].quantity.magnitude != 0,
    ensures
        0 <= k < touched(records, as_of).len(),
        touched(records, as_of)[k] == records[i].symbol->0,
    decreases records.len(),
{
    let rest = touched(records.drop_last(), as_of);
    let now = touched(records, as_of);
    if i == records.len() - 1 {
        let s = records[i].symbol->0;
        let at = text::slot(rest, s, 0);
        text::slot_bound(rest, s, 0);
        assert(now[at] == s);
        at
    } else {
        let k = is_touched(records.drop_last(), as_of, i);
        let r = records.last();
        if r.symbol is Some && r.settle_date <= as_of && r.quantity.magnitude != 0 {
            let s = r.symbol->0;
            let at = text::slot(rest, s, 0);
            text::slot_bound(rest, s, 0);
            if !(at < rest.len() && rest[at] == s) && k >= at {
                assert(now[k + 1] == rest[k]);
                k + 1
            } else {
                assert(now[k] == rest[k]);
                k
            }
        } else {
            k
        }
    }
}

proof fn is_made_up_for(h: HoldingsV, symbols: Seq<Seq<char>>, k: int) -> (at: int)
    requires
        0 <= k < symbols.len(),
        !lists(h, symbols[k]),
    ensures
        0 <= at < unlisted(h, symbols).len(),
        unlisted(h, symbols)[at] == (CommodityV::Security(symbols[k]), amount::zero()),
    decreases symbols.len(),
{
    if k == symbols.len() - 1 {
        unlisted(h, symbols.drop_last()).len() as int
    } else {
        is_made_up_for(h, symbols.drop_last(), k)
    }
}

/// A statement vouches for every security the account had touched: at what it
/// lists, or at zero.
pub proof fn every_touched_security_is_vouched_for(
    h: HoldingsV,
    records: Seq<RecordV>,
    as_of: int,
    i: int,
) -> (at: int)
    requires
        0 <= i < records.len(),
        records[i].symbol is Some,
        records[i].settle_date <= as_of,
        records[i].quantity.magnitude != 0,
    ensures
        0 <= at < figures_of(h, records, as_of).len(),
        figures_of(h, records, as_of)[at].0 == CommodityV::Security(records[i].symbol->0),
        !lists(h, records[i].symbol->0) ==> figures_of(h, records, as_of)[at].1 == amount::zero(),
{
    let s = records[i].symbol->0;
    let k = is_touched(records, as_of, i);
    let symbols = touched(records, as_of);
    let all = figures_of(h, records, as_of);
    if lists(h, s) {
        let p = choose|p: int| 0 <= p < h.positions.len() && (#[trigger] h.positions[p]).0 == s;
        assert(all[h.cash.len() + p].0 == CommodityV::Security(s));
        h.cash.len() + p
    } else {
        let at = is_made_up_for(h, symbols, k);
        assert(all[h.cash.len() + h.positions.len() + at] == unlisted(h, symbols)[at]);
        h.cash.len() + h.positions.len() + at
    }
}

#[derive(Debug)]
pub struct Report {
    pub statements: usize,
    /// Same-period downloads set aside for a newer one.
    pub superseded: Vec<String>,
    pub inserted: usize,
    pub known: usize,
    pub openings: usize,
    pub assertions: usize,
    /// Trades stored without an execution date.
    pub undated_trades: usize,
    pub check: CheckReport,
}

/// The downloads set aside, each on a line.
pub open spec fn skipped_text(paths: Seq<Seq<char>>) -> Seq<char>
    decreases paths.len(),
{
    if paths.len() == 0 {
        Seq::empty()
    } else {
        skipped_text(paths.drop_last()) + "  skipped "@ + paths.last()
            + " (a newer download covers the same period)\n"@
    }
}

/// How a report reads, apart from the check.
pub open spec fn report_head(r: Report) -> Seq<char> {
    "imported "@ + text::digits(r.statements as nat) + " broker statements:\n"@ + skipped_text(
        text::texts(r.superseded@),
    ) + "  "@ + text::digits(r.inserted as nat) + " records inserted, "@ + text::digits(
        r.known as nat,
    ) + " already held\n  "@ + text::digits(r.openings as nat) + " opening records\n  "@
        + text::digits(r.assertions as nat) + " holding figures recorded\n"@ + (
    if r.undated_trades > 0 {
        "  "@ + text::digits(r.undated_trades as nat) + " trades carry only a settlement date\n"@
    } else {
        Seq::empty()
    })
}

impl Report {
    pub fn text(&self) -> (r: String)
        requires
            check::printable(self.check@),
        ensures
            r@ == report_head(*self) + check::report_text(self.check@),
    {
        let mut out = text::copy("imported ");
        out.append(text::number(self.statements).as_str());
        out.append(" broker statements:\n");
        let ghost head = out@;
        let ghost all = text::texts(self.superseded@);
        let mut i: usize = 0;
        assert(head + skipped_text(all.take(0)) =~= head);
        while i < self.superseded.len()
            invariant
                i <= self.superseded@.len(),
                all == text::texts(self.superseded@),
                out@ == head + skipped_text(all.take(i as int)),
            decreases self.superseded@.len() - i,
        {
            assert(all[i as int] == self.superseded@[i as int]@);
            assert(all.take(i as int + 1).drop_last() =~= all.take(i as int));
            out.append("  skipped ");
            out.append(self.superseded[i].as_str());
            out.append(" (a newer download covers the same period)\n");
            assert(out@ =~= head + skipped_text(all.take(i as int + 1)));
            i = i + 1;
        }
        assert(all.take(i as int) =~= all);
        out.append("  ");
        out.append(text::number(self.inserted).as_str());
        out.append(" records inserted, ");
        out.append(text::number(self.known).as_str());
        out.append(" already held\n  ");
        out.append(text::number(self.openings).as_str());
        out.append(" opening records\n  ");
        out.append(text::number(self.assertions).as_str());
        out.append(" holding figures recorded\n");
        if self.undated_trades > 0 {
            out.append("  ");
            out.append(text::number(self.undated_trades).as_str());
            out.append(" trades carry only a settlement date\n");
        }
        assert(out@ =~= report_head(*self));
        out.append(self.check.text().as_str());
        out
    }
}

/// Is a figure one of the statement's: the cash of a currency, a position, or 0
/// for a security it does not list?
pub open spec fn is_stated(h: HoldingsV, f: (CommodityV, Dec)) -> bool {
    match f.0 {
        CommodityV::Cash(c) => h.cash.contains((c, f.1)),
        CommodityV::Security(s) => h.positions.contains((s, f.1)) || (!lists(h, s)
            && f.1.magnitude == 0),
    }
}

proof fn unlisted_are_nothing(h: HoldingsV, symbols: Seq<Seq<char>>, i: int)
    requires
        0 <= i < unlisted(h, symbols).len(),
    ensures
        unlisted(h, symbols)[i].0 matches CommodityV::Security(s) && !lists(h, s),
        unlisted(h, symbols)[i].1.magnitude == 0,
    decreases symbols.len(),
{
    if symbols.len() > 0 && i < unlisted(h, symbols.drop_last()).len() {
        unlisted_are_nothing(h, symbols.drop_last(), i);
    }
}

/// A statement vouches for what it states and no more: its cash, its positions,
/// and nothing for securities it does not list.
pub proof fn every_figure_is_stated(h: HoldingsV, records: Seq<RecordV>, as_of: int, i: int)
    requires
        0 <= i < figures_of(h, records, as_of).len(),
    ensures
        is_stated(h, figures_of(h, records, as_of)[i]),
{
    let symbols = touched(records, as_of);
    let f = figures_of(h, records, as_of)[i];
    let (n, m) = (h.cash.len() as int, h.positions.len() as int);
    if i < n {
        assert(f == (CommodityV::Cash(h.cash[i].0), h.cash[i].1));
        assert(h.cash.contains(h.cash[i]));
    } else if i < n + m {
        assert(f == (CommodityV::Security(h.positions[i - n].0), h.positions[i - n].1));
        assert(h.positions.contains(h.positions[i - n]));
    } else {
        assert(f == unlisted(h, symbols)[i - n - m]);
        unlisted_are_nothing(h, symbols, i - n - m);
    }
}

/// All that a statement lists is vouched for: the cash of each currency and
/// each position.
pub proof fn all_that_is_stated_is_vouched_for(h: HoldingsV, records: Seq<RecordV>, as_of: int)
    ensures
        forall|i: int|
            0 <= i < h.cash.len() ==> figures_of(h, records, as_of).contains(
                (CommodityV::Cash((#[trigger] h.cash[i]).0), h.cash[i].1),
            ),
        forall|i: int|
            0 <= i < h.positions.len() ==> figures_of(h, records, as_of).contains(
                (CommodityV::Security((#[trigger] h.positions[i]).0), h.positions[i].1),
            ),
{
    let all = figures_of(h, records, as_of);
    assert forall|i: int| 0 <= i < h.cash.len() implies all.contains(
        (CommodityV::Cash((#[trigger] h.cash[i]).0), h.cash[i].1),
    ) by {
        assert(all[i] == (CommodityV::Cash(h.cash[i].0), h.cash[i].1));
    }
    assert forall|i: int| 0 <= i < h.positions.len() implies all.contains(
        (CommodityV::Security((#[trigger] h.positions[i]).0), h.positions[i].1),
    ) by {
        assert(all[h.cash.len() + i] == (
            CommodityV::Security(h.positions[i].0),
            h.positions[i].1,
        ));
    }
}

/// Does a figure vouch for one of a statement's holdings on an account and day?
pub open spec fn vouches_for(
    f: HoldingV,
    account: Seq<char>,
    h: Option<HoldingsV>,
    day: int,
) -> bool {
    &&& h matches Some(h) && is_stated(h, (f.commodity, f.quantity))
    &&& f.account == account
    &&& f.as_of == day
    &&& f.source == AssertionSource::Statement
}

/// Each figure of a statement vouches for what it opens on, on the day that is
/// stated for, or for what it closes on, on the last day of its period.
pub proof fn a_figure_vouches_for_its_day(
    account: Seq<char>,
    s: StatementV,
    records: Seq<RecordV>,
    i: int,
)
    requires
        0 <= i < vouched(account, s, records).len(),
    ensures
        ({
            let f = vouched(account, s, records)[i];
            vouches_for(f, account, s.opening, s.opening_date) || vouches_for(
                f,
                account,
                s.closing,
                s.period_end,
            )
        }),
{
    let n = match s.opening {
        Some(h) => figures_of(h, records, s.opening_date).len() as int,
        None => 0,
    };
    if i < n {
        every_figure_is_stated(s.opening->0, records, s.opening_date, i);
    } else {
        every_figure_is_stated(s.closing->0, records, s.period_end, i - n);
    }
}

/// A statement goes to the account it is given, or to the one its number stands
/// for; one that neither is given nor states a number is refused.
pub proof fn a_statement_goes_to_its_account(
    chart: Chart,
    given: Option<Seq<char>>,
    path: Seq<char>,
    s: StatementV,
)
    ensures
        match (given, ledger_account(chart, given, path, s)) {
            (Some(a), r) => r == Ok::<Seq<char>, Seq<char>>(a),
            (None, Ok(a)) => s.account.len() > 0 && accounts::under(
                accounts::table(chart.institution.accounts@),
                s.account,
            ) == Some(a),
            (None, Err(_)) => s.account.len() == 0 || accounts::under(
                accounts::table(chart.institution.accounts@),
                s.account,
            ) is None,
        },
{
}

/// An account is opened by the statement's opening records only where nothing
/// is held of it yet.
pub proof fn an_account_is_opened_once(path: Seq<char>, s: StatementV, so_far: Seq<RecordV>)
    ensures
        so_far.len() > 0 ==> openings(path, s, so_far) == Ok::<Seq<RecordV>, Seq<char>>(
            Seq::empty(),
        ),
        so_far.len() == 0 && s.opening is Some ==> openings(path, s, so_far) == Ok::<
            Seq<RecordV>,
            Seq<char>,
        >(s.opening_records),
        so_far.len() == 0 && s.opening is None && s.closing is Some ==> openings(path, s, so_far)
            is Err,
{
}

/// Every record whose ref is new is stored under it, and every other is counted
/// as known: what is stored and what is known make up the records.
pub proof fn every_record_is_stored_or_known(
    source: Source,
    account: Seq<char>,
    start: TakenV,
    records: Seq<RecordV>,
)
    requires
        start.fresh.len() == 0,
        start.repeated == 0,
    ensures
        ({
            let t = taken(source, account, start, records);
            &&& t.fresh.len() + t.repeated == records.len()
            &&& t.repeated >= 0
            &&& t.so_far == start.so_far + t.fresh.map_values(|f: FreshV| f.record)
            &&& t.known == start.known + t.fresh.map_values(|f: FreshV| f.external_ref)
            &&& forall|i: int|
                0 <= i < t.fresh.len() ==> (#[trigger] t.fresh[i]).external_ref == source_name(
                    source,
                ) + ":"@ + account + ":"@ + t.fresh[i].record.key && records.contains(
                    t.fresh[i].record,
                )
        }),
    decreases records.len(),
{
    let t = taken(source, account, start, records);
    if records.len() == 0 {
        assert(t.so_far =~= start.so_far + t.fresh.map_values(|f: FreshV| f.record));
        assert(t.known =~= start.known + t.fresh.map_values(|f: FreshV| f.external_ref));
    } else {
        let shorter = records.drop_last();
        every_record_is_stored_or_known(source, account, start, shorter);
        let before = taken(source, account, start, shorter);
        assert(t.so_far =~= start.so_far + t.fresh.map_values(|f: FreshV| f.record));
        assert(t.known =~= start.known + t.fresh.map_values(|f: FreshV| f.external_ref));
        assert forall|i: int| 0 <= i < t.fresh.len() implies (#[trigger] t.fresh[i]).external_ref
            == source_name(source) + ":"@ + account + ":"@ + t.fresh[i].record.key
            && records.contains(t.fresh[i].record) by {
            if i < before.fresh.len() {
                assert(t.fresh[i] == before.fresh[i]);
                let k = choose|k: int|
                    0 <= k < shorter.len() && shorter[k] == before.fresh[i].record;
                assert(records[k] == shorter[k]);
            } else {
                assert(records[records.len() - 1] == records.last());
            }
        }
    }
}

/// The import of a statement goes to its account, stores what is new of its
/// records, opening ones first, and vouches for its holdings by all that is then
/// held of the account.
pub proof fn a_statement_is_stored_on_its_account(
    chart: Chart,
    source: Source,
    given: Option<Seq<char>>,
    state: StateV,
    path: Seq<char>,
    s: StatementV,
)
    requires
        step(chart, source, given, state, path, s) is Ok,
        keyed::in_order(state.held),
    ensures
        ({
            let (after, i) = step(chart, source, given, state, path, s)->Ok_0;
            let first = openings(path, s, held_of(state.held, i.account))->Ok_0;
            let now = held_of(after.held, i.account);
            &&& ledger_account(chart, given, path, s) == Ok::<Seq<char>, Seq<char>>(i.account)
            &&& i.openings == first.len()
            &&& i.fresh.len() + i.known == first.len() + s.records.len()
            &&& now == held_of(state.held, i.account) + i.fresh.map_values(
                |f: FreshV| f.record,
            )
            &&& i.figures == vouched(i.account, s, now)
            &&& i.undated_trades == i.fresh.filter(
                |f: FreshV| broker::trades(f.record.kind) && f.record.trade_date is None,
            ).len()
        }),
{
    let (after, i) = step(chart, source, given, state, path, s)->Ok_0;
    let so_far = held_of(state.held, i.account);
    let first = openings(path, s, so_far)->Ok_0;
    let start = TakenV { known: state.known, so_far, fresh: Seq::empty(), repeated: 0 };
    let t = taken(source, s.account, start, first + s.records);
    every_record_is_stored_or_known(source, s.account, start, first + s.records);
    let key = sort::text_key(i.account);
    keyed::get_after_put(state.held, key, t.so_far, key);
    undated_are_counted(i.fresh);
}

proof fn undated_are_counted(fresh: Seq<FreshV>)
    ensures
        undated(fresh) == fresh.filter(
            |f: FreshV| broker::trades(f.record.kind) && f.record.trade_date is None,
        ).len(),
    decreases fresh.len(),
{
    reveal(Seq::filter);
    if fresh.len() > 0 {
        undated_are_counted(fresh.drop_last());
    }
}

} // verus!
