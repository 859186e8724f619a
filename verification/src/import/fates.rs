//! What becomes of the records on statement accounts: each relabels the
//! uncategorised line already imported for it, or waits for its line. One the
//! statements should explain but don't is a problem.

use vstd::prelude::*;

use crate::accounts;
use crate::accounts::Chart;
use crate::amount;
use crate::amount::Dec;
use crate::assertion;
use crate::assertion::{AssertionSource, AssertionV, BalanceAssertion};
use crate::currency;
use crate::currency::Currency;
use crate::date;
use crate::date::Date;
use crate::db::import_batch;
use crate::db::import_batch::{HeldTransaction, TransactionV};
use crate::interim;
use crate::interim::{Booked, BookedV, Booking, BookingV, LegV};
use crate::keyed;
use crate::pairing;
use crate::pairing::{Pairing, WINDOW_DAYS};
use crate::refusal::Refusal;
use crate::sort::{Key, KeyV};
use crate::statements::bank;
use crate::statements::bank::Bank;
use crate::text;

verus! {

/// What becomes of a record.
#[derive(Clone, Copy, Debug)]
pub enum Fate {
    /// Relabels this uncategorised line's fallback posting.
    Pairs { transaction_id: i64, fallback_posting: i64 },
    /// Books tagged unverified on this day.
    Waits(Date),
}

pub enum FateV {
    Pairs { transaction_id: int, fallback_posting: int },
    Waits(int),
}

impl View for Fate {
    type V = FateV;

    open spec fn view(&self) -> FateV {
        match self {
            Fate::Pairs { transaction_id, fallback_posting } => FateV::Pairs {
                transaction_id: *transaction_id as int,
                fallback_posting: *fallback_posting as int,
            },
            Fate::Waits(d) => FateV::Waits(d@),
        }
    }
}

pub open spec fn fate_views(v: Seq<(usize, Fate)>) -> Seq<(int, FateV)> {
    v.map_values(|f: (usize, Fate)| (f.0 as int, f.1@))
}

/// A statement account in one currency.
#[derive(Debug)]
pub struct Place {
    pub account: String,
    pub currency: Currency,
}

#[verifier::ext_equal]
pub struct PlaceV {
    pub account: Seq<char>,
    pub currency: Currency,
}

impl View for Place {
    type V = PlaceV;

    open spec fn view(&self) -> PlaceV {
        PlaceV { account: self.account@, currency: self.currency }
    }
}

pub open spec fn place_views(v: Seq<Place>) -> Seq<PlaceV> {
    v.map_values(|p: Place| p@)
}

/// A record's leg on a statement account.
pub open spec fn leg_of(b: BookedV) -> Option<LegV> {
    match b.booking {
        BookingV::OnStatement { leg, .. } => Some(leg),
        _ => None,
    }
}

pub open spec fn place_key(p: PlaceV) -> KeyV {
    KeyV { text: p.account, numbers: (currency::rank(p.currency), 0, 0, 0) }
}

/// The statement accounts the records are on, in order.
pub open spec fn places(records: Seq<BookedV>) -> Seq<(KeyV, PlaceV)>
    decreases records.len(),
{
    if records.len() == 0 {
        Seq::empty()
    } else {
        let rest = places(records.drop_last());
        match leg_of(records.last()) {
            None => rest,
            Some(l) => {
                let p = PlaceV { account: l.account, currency: l.currency };
                keyed::put(rest, place_key(p), p)
            },
        }
    }
}

pub open spec fn values(m: Seq<(KeyV, PlaceV)>) -> Seq<PlaceV> {
    m.map_values(|e: (KeyV, PlaceV)| e.1)
}

/// The statement accounts the records are on, in order.
pub fn places_of(records: &Vec<Booked>) -> (r: Vec<Place>)
    ensures
        place_views(r@) == values(places(interim::booked_views(records@))),
{
    let ghost all = interim::booked_views(records@);
    let mut m: Vec<(Key, Place)> = Vec::new();
    let mut i: usize = 0;
    assert(keyed::entries(m@) =~= Seq::empty());
    while i < records.len()
        invariant
            i <= records@.len(),
            all == interim::booked_views(records@),
            keyed::entries(m@) == places(all.take(i as int)),
        decreases records@.len() - i,
    {
        assert(all[i as int] == records@[i as int]@);
        assert(all.take(i as int + 1).drop_last() =~= all.take(i as int));
        if let Booking::OnStatement { leg, .. } = &records[i].booking {
            let p = Place { account: text::copy(leg.account.as_str()), currency: leg.currency };
            let key = Key {
                text: text::copy(leg.account.as_str()),
                numbers: (leg.currency.rank() as i64, 0, 0, 0),
            };
            assert(key@ == place_key(p@));
            keyed::set(&mut m, key, p);
        }
        i = i + 1;
    }
    assert(all.take(i as int) =~= all);
    let ghost done = keyed::entries(m@);
    let ghost given = m@;
    let mut out: Vec<Place> = Vec::new();
    assert(m@ =~= given.skip(0));
    while m.len() > 0
        invariant
            out@.len() + m@.len() == given.len(),
            m@ == given.skip(out@.len() as int),
            done == keyed::entries(given),
            forall|k: int| 0 <= k < out@.len() ==> (#[trigger] out@[k])@ == done[k].1,
        decreases m@.len(),
    {
        let ghost n = out@.len() as int;
        let (_, p) = m.remove(0);
        assert(p == given[n].1);
        assert(done[n].1 == p@);
        out.push(p);
        assert(m@ =~= given.skip(n + 1));
    }
    assert(place_views(out@) =~= values(done));
    out
}

/// Is a record's leg at a place?
pub open spec fn is_at(b: BookedV, p: PlaceV) -> bool {
    leg_of(b) matches Some(l) && l.account == p.account && l.currency == p.currency
}

/// The records among the first `n` whose leg is at a place.
pub open spec fn members(records: Seq<BookedV>, p: PlaceV, n: int) -> Seq<int>
    decreases n,
{
    if n <= 0 {
        Seq::empty()
    } else if is_at(records[n - 1], p) {
        members(records, p, n - 1).push(n - 1)
    } else {
        members(records, p, n - 1)
    }
}

fn members_of(records: &Vec<Booked>, p: &Place) -> (r: Vec<usize>)
    ensures
        pairing::ints(r@) == members(interim::booked_views(records@), p@, records@.len() as int),
        forall|i: int|
            0 <= i < r@.len() ==> (#[trigger] r@[i]) < records@.len() && is_at(
                records@[r@[i] as int]@,
                p@,
            ),
{
    let ghost all = interim::booked_views(records@);
    let mut out: Vec<usize> = Vec::new();
    let mut i: usize = 0;
    assert(pairing::ints(out@) =~= Seq::empty());
    while i < records.len()
        invariant
            i <= records@.len(),
            all == interim::booked_views(records@),
            pairing::ints(out@) == members(all, p@, i as int),
            forall|k: int|
                0 <= k < out@.len() ==> (#[trigger] out@[k]) < records@.len() && is_at(
                    records@[out@[k] as int]@,
                    p@,
                ),
        decreases records@.len() - i,
    {
        let ghost before = out@;
        assert(all[i as int] == records@[i as int]@);
        if let Booking::OnStatement { leg, .. } = &records[i].booking {
            if text::same_text(leg.account.as_str(), p.account.as_str()) && leg.currency
                == p.currency {
                out.push(i);
                assert(pairing::ints(out@) =~= pairing::ints(before).push(i as int));
            }
        }
        i = i + 1;
    }
    out
}

/// Is an account one that lines land on when nothing explains them?
pub open spec fn is_fallback(chart: Chart, account: Seq<char>) -> bool {
    ||| account == chart.fallback.income@
    ||| account == chart.fallback.expense@
    ||| accounts::is_value(accounts::table(chart.fallback.descriptions@), account)
}

fn falls_back(chart: &Chart, account: &str) -> (r: bool)
    ensures
        r == is_fallback(*chart, account@),
{
    text::same_text(account, chart.fallback.income.as_str()) || text::same_text(
        account,
        chart.fallback.expense.as_str(),
    ) || accounts::has_value(&chart.fallback.descriptions, account)
}

/// Was a transaction imported from a statement?
pub open spec fn from_a_statement(t: TransactionV) -> bool {
    t.external_ref matches Some(r) && (text::starts(r, bank::prefix(Bank::Cathay)) || text::starts(
        r,
        bank::prefix(Bank::LineBank),
    ))
}

/// The fallback's posting of a statement line imported with no record behind
/// it: two legs, one on `account`, the other on a fallback.
pub open spec fn uncategorised(chart: Chart, t: TransactionV, account: Seq<char>) -> Option<int> {
    let p = t.postings;
    if !from_a_statement(t) || p.len() != 2 {
        None
    } else if p[0].account == account && is_fallback(chart, p[1].account) {
        Some(p[1].id)
    } else if p[1].account == account && is_fallback(chart, p[0].account) {
        Some(p[0].id)
    } else {
        None
    }
}

/// A statement line imported with no record behind it: two legs, one on
/// `account`, the other on a fallback. Returns the fallback's posting.
pub fn uncategorised_line(chart: &Chart, t: &HeldTransaction, account: &str) -> (r: Option<i64>)
    ensures
        match r {
            Some(id) => uncategorised(*chart, t@, account@) == Some(id as int),
            None => uncategorised(*chart, t@, account@) is None,
        },
{
    let from = match &t.external_ref {
        None => false,
        Some(r) => text::starts_with(r.as_str(), Bank::Cathay.ref_prefix()) || text::starts_with(
            r.as_str(),
            Bank::LineBank.ref_prefix(),
        ),
    };
    assert(t@.postings.len() == t.postings@.len());
    if !from || t.postings.len() != 2 {
        return None;
    }
    let a = &t.postings[0];
    let b = &t.postings[1];
    assert(t@.postings[0] == a@ && t@.postings[1] == b@);
    if text::same_text(a.account.as_str(), account) && falls_back(chart, b.account.as_str()) {
        Some(b.id)
    } else if text::same_text(b.account.as_str(), account) && falls_back(
        chart,
        a.account.as_str(),
    ) {
        Some(a.id)
    } else {
        None
    }
}

/// The uncategorised lines among the transactions, by their place, each with
/// its fallback's posting.
pub open spec fn lines(chart: Chart, held: Seq<TransactionV>, account: Seq<char>) -> Seq<(int, int)>
    decreases held.len(),
{
    if held.len() == 0 {
        Seq::empty()
    } else {
        let rest = lines(chart, held.drop_last(), account);
        match uncategorised(chart, held.last(), account) {
            None => rest,
            Some(id) => rest.push((held.len() - 1, id)),
        }
    }
}

pub open spec fn line_views(v: Seq<(usize, i64)>) -> Seq<(int, int)> {
    v.map_values(|l: (usize, i64)| (l.0 as int, l.1 as int))
}

fn lines_of(chart: &Chart, held: &Vec<HeldTransaction>, account: &str) -> (r: Vec<(usize, i64)>)
    ensures
        line_views(r@) == lines(*chart, import_batch::transaction_views(held@), account@),
        forall|i: int| 0 <= i < r@.len() ==> (#[trigger] r@[i]).0 < held@.len(),
{
    let ghost all = import_batch::transaction_views(held@);
    let mut out: Vec<(usize, i64)> = Vec::new();
    let mut i: usize = 0;
    assert(line_views(out@) =~= Seq::empty());
    while i < held.len()
        invariant
            i <= held@.len(),
            all == import_batch::transaction_views(held@),
            line_views(out@) == lines(*chart, all.take(i as int), account@),
            forall|k: int| 0 <= k < out@.len() ==> (#[trigger] out@[k]).0 < held@.len(),
        decreases held@.len() - i,
    {
        let ghost before = out@;
        assert(all[i as int] == held@[i as int]@);
        assert(all.take(i as int + 1).drop_last() =~= all.take(i as int));
        if let Some(id) = uncategorised_line(chart, &held[i], account) {
            out.push((i, id));
            assert(line_views(out@) =~= line_views(before).push((i as int, id as int)));
        }
        i = i + 1;
    }
    assert(all.take(i as int) =~= all);
    out
}

/// What a transaction's first leg on an account moves, from `from` on.
pub open spec fn moved(t: TransactionV, account: Seq<char>, from: int) -> Option<Dec>
    decreases t.postings.len() - from,
{
    if from < 0 || from >= t.postings.len() {
        None
    } else if t.postings[from].account == account {
        Some(t.postings[from].amount)
    } else {
        moved(t, account, from + 1)
    }
}

/// Does a record's leg fit a line: the same amount, within the window?
pub open spec fn fits(b: BookedV, t: TransactionV, account: Seq<char>) -> bool {
    leg_of(b) matches Some(l) && moved(t, account, 0) matches Some(a) && amount::equal(a, l.amount)
        && pairing::near(t.date, b.date)
}

fn leg_fits(b: &Booked, t: &HeldTransaction, account: &str) -> (r: bool)
    ensures
        r == fits(b@, t@, account@),
{
    if let Booking::OnStatement { leg, .. } = &b.booking {
        let mut i: usize = 0;
        while i < t.postings.len()
            invariant
                i <= t.postings@.len(),
                moved(t@, account@, 0) == moved(t@, account@, i as int),
                leg_of(b@) == Some(leg@),
            decreases t.postings@.len() - i,
        {
            assert(t@.postings[i as int] == t.postings@[i as int]@);
            if text::same_text(t.postings[i].account.as_str(), account) {
                return t.postings[i].amount.equals(&leg.amount) && pairing::within_window(
                    t.date,
                    b.date,
                );
            }
            i = i + 1;
        }
    }
    false
}

/// The last day the statements of a place vouch for.
pub open spec fn vouched(recorded: Seq<AssertionV>, p: PlaceV) -> Option<int>
    decreases recorded.len(),
{
    if recorded.len() == 0 {
        None
    } else {
        let rest = vouched(recorded.drop_last(), p);
        let a = recorded.last();
        if a.source == AssertionSource::Statement && a.currency == p.currency && accounts::within(
            p.account,
            a.account,
        ) {
            match rest {
                Some(d) if d >= a.period_end => rest,
                _ => Some(a.period_end),
            }
        } else {
            rest
        }
    }
}

fn vouched_through(recorded: &Vec<BalanceAssertion>, p: &Place) -> (r: Option<Date>)
    ensures
        date::opt(r) == vouched(assertion::views(recorded@), p@),
        r matches Some(d) ==> exists|i: int|
            0 <= i < recorded@.len() && (#[trigger] recorded@[i]).period_end@ == d@,
{
    let ghost all = assertion::views(recorded@);
    let mut out: Option<Date> = None;
    let mut i: usize = 0;
    while i < recorded.len()
        invariant
            i <= recorded@.len(),
            all == assertion::views(recorded@),
            date::opt(out) == vouched(all.take(i as int), p@),
            out matches Some(d) ==> exists|k: int|
                0 <= k < recorded@.len() && (#[trigger] recorded@[k]).period_end@ == d@,
        decreases recorded@.len() - i,
    {
        let a = &recorded[i];
        assert(all[i as int] == a@);
        assert(all.take(i as int + 1).drop_last() =~= all.take(i as int));
        assert(recorded@[i as int].period_end@ == a.period_end@);
        if a.source == AssertionSource::Statement && a.currency == p.currency
            && accounts::in_subtree(p.account.as_str(), a.account.as_str()) {
            let later = match &out {
                Some(d) => d.number() < a.period_end.number(),
                None => true,
            };
            if later {
                out = Some(a.period_end);
            }
        }
        i = i + 1;
    }
    assert(all.take(i as int) =~= all);
    out
}

/// The day a record no line fits waits on. The statements vouch through
/// `through`; a record in their last days may be booked on the next one.
pub open spec fn waits(b: BookedV, p: PlaceV, through: Option<int>) -> Result<int, Seq<char>> {
    match through {
        Some(d) if b.date <= d => if d - b.date < WINDOW_DAYS {
            Ok(d + 1)
        } else {
            Err(
                b.id + " "@ + date::printed(b.date) + " "@ + amount::printed(leg_of(b)->0.amount)
                    + " on "@ + p.account + ": the statements through "@ + date::printed(d)
                    + " show no line for it"@,
            )
        },
        _ => Ok(b.date),
    }
}

/// The dates of some lines.
pub open spec fn days(held: Seq<TransactionV>, lines: Seq<(int, int)>, which: Seq<int>) -> Seq<
    Seq<char>,
> {
    which.map_values(|m: int| date::printed(held[lines[m].0].date))
}

/// What a record that fits several lines, or a line another record fits too,
/// is reported as.
pub open spec fn unclear(
    b: BookedV,
    held: Seq<TransactionV>,
    lines: Seq<(int, int)>,
    which: Seq<int>,
) -> Seq<char> {
    b.id + " "@ + date::printed(b.date) + " "@ + amount::printed(leg_of(b)->0.amount) + " matches "@
        + text::digits(which.len()) + " bank lines within 7 days ("@ + text::joined(
        days(held, lines, which),
        ", "@,
    ) + ")"@
}

/// A place with what it is settled by: the records on it and the lines they
/// may fit.
#[verifier::ext_equal]
pub struct SettingV {
    pub records: Seq<BookedV>,
    pub place: PlaceV,
    pub held: Seq<TransactionV>,
    pub at: Seq<int>,
    pub lines: Seq<(int, int)>,
    pub through: Option<int>,
}

/// The setting of a place.
pub open spec fn setting(
    chart: Chart,
    records: Seq<BookedV>,
    place: PlaceV,
    held: Seq<TransactionV>,
    recorded: Seq<AssertionV>,
) -> SettingV {
    SettingV {
        records,
        place,
        held,
        at: members(records, place, records.len() as int),
        lines: lines(chart, held, place.account),
        through: vouched(recorded, place),
    }
}

/// Which record fits which line.
pub open spec fn fit(s: SettingV) -> spec_fn(int, int) -> bool {
    |l: int, r: int| fits(s.records[s.at[l]], s.held[s.lines[r].0], s.place.account)
}

/// The pairs of records and lines.
pub open spec fn pairs(s: SettingV) -> Seq<(int, int)> {
    pairing::pairs(fit(s), s.at.len() as int, s.lines.len() as int, s.at.len() as int)
}

/// The records nothing chooses a line for, each with the lines it fits.
pub open spec fn ambiguous(s: SettingV) -> Seq<(int, Seq<int>)> {
    pairing::ambiguous(fit(s), s.at.len() as int, s.lines.len() as int, s.at.len() as int)
}

/// The records that have their line.
pub open spec fn paired(s: SettingV, ps: Seq<(int, int)>) -> Seq<(int, FateV)> {
    ps.map_values(
        |p: (int, int)|
            (
                s.at[p.0],
                FateV::Pairs {
                    transaction_id: s.held[s.lines[p.1].0].id,
                    fallback_posting: s.lines[p.1].1,
                },
            ),
    )
}

/// The reports of the records nothing chooses a line for.
pub open spec fn unclear_ones(s: SettingV, many: Seq<(int, Seq<int>)>) -> Seq<Seq<char>> {
    many.map_values(
        |a: (int, Seq<int>)| unclear(s.records[s.at[a.0]], s.held, s.lines, a.1),
    )
}

/// Does no line fit a record?
pub open spec fn is_alone(s: SettingV, l: int) -> bool {
    pairing::fitting(fit(s), l, s.lines.len() as int).len() == 0
}

/// What becomes of the records among the first `n` that no line fits: those
/// that wait, and the reports of those that should have had one.
pub open spec fn alone(s: SettingV, n: int) -> (Seq<(int, FateV)>, Seq<Seq<char>>)
    decreases n,
{
    if n <= 0 {
        (Seq::empty(), Seq::empty())
    } else {
        let (fates, problems) = alone(s, n - 1);
        if !is_alone(s, n - 1) {
            (fates, problems)
        } else {
            match waits(s.records[s.at[n - 1]], s.place, s.through) {
                Ok(day) => (fates.push((s.at[n - 1], FateV::Waits(day))), problems),
                Err(e) => (fates, problems.push(e)),
            }
        }
    }
}

/// What becomes of the records at a place, and what is wrong with them.
pub open spec fn settled(s: SettingV) -> (Seq<(int, FateV)>, Seq<Seq<char>>) {
    let (fates, problems) = alone(s, s.at.len() as int);
    (paired(s, pairs(s)) + fates, unclear_ones(s, ambiguous(s)) + problems)
}

proof fn paired_lefts(fit: spec_fn(int, int) -> bool, lefts: int, rights: int, n: int, l: int)
    ensures
        (exists|i: int|
            0 <= i < pairing::pairs(fit, lefts, rights, n).len() && (#[trigger] pairing::pairs(
                fit,
                lefts,
                rights,
                n,
            )[i]).0 == l) <==> 0 <= l < n && pairing::is_pair(fit, lefts, rights, l),
    decreases n,
{
    if n > 0 {
        paired_lefts(fit, lefts, rights, n - 1, l);
        let before = pairing::pairs(fit, lefts, rights, n - 1);
        let now = pairing::pairs(fit, lefts, rights, n);
        if exists|i: int| 0 <= i < before.len() && (#[trigger] before[i]).0 == l {
            let i = choose|i: int| 0 <= i < before.len() && (#[trigger] before[i]).0 == l;
            assert(now[i].0 == l);
        }
        if exists|i: int| 0 <= i < now.len() && (#[trigger] now[i]).0 == l {
            let i = choose|i: int| 0 <= i < now.len() && (#[trigger] now[i]).0 == l;
            if i < before.len() {
                assert(before[i].0 == l);
            }
        }
        if l == n - 1 && pairing::is_pair(fit, lefts, rights, l) {
            assert(now[before.len() as int].0 == l);
        }
    }
}

proof fn unclear_lefts(fit: spec_fn(int, int) -> bool, lefts: int, rights: int, n: int, l: int)
    ensures
        (exists|i: int|
            0 <= i < pairing::ambiguous(fit, lefts, rights, n).len() && (
            #[trigger] pairing::ambiguous(fit, lefts, rights, n)[i]).0 == l) <==> 0 <= l < n
            && pairing::is_ambiguous(fit, lefts, rights, l),
    decreases n,
{
    if n > 0 {
        unclear_lefts(fit, lefts, rights, n - 1, l);
        let before = pairing::ambiguous(fit, lefts, rights, n - 1);
        let now = pairing::ambiguous(fit, lefts, rights, n);
        if exists|i: int| 0 <= i < before.len() && (#[trigger] before[i]).0 == l {
            let i = choose|i: int| 0 <= i < before.len() && (#[trigger] before[i]).0 == l;
            assert(now[i].0 == l);
        }
        if exists|i: int| 0 <= i < now.len() && (#[trigger] now[i]).0 == l {
            let i = choose|i: int| 0 <= i < now.len() && (#[trigger] now[i]).0 == l;
            if i < before.len() {
                assert(before[i].0 == l);
            }
        }
        if l == n - 1 && pairing::is_ambiguous(fit, lefts, rights, l) {
            assert(now[before.len() as int].0 == l);
        }
    }
}

/// Does every assertion close before the last day there is?
pub open spec fn ends_in_time(recorded: Seq<AssertionV>) -> bool {
    forall|i: int| 0 <= i < recorded.len() ==> (#[trigger] recorded[i]).period_end < date::MAX_DAY
}

fn wait(b: &Booked, p: &Place, through: &Option<Date>) -> (r: Result<Date, Refusal>)
    requires
        leg_of(b@) is Some,
        through matches Some(d) ==> d@ < date::MAX_DAY,
    ensures
        match r {
            Ok(d) => waits(b@, p@, date::opt(*through)) == Ok::<int, Seq<char>>(d@),
            Err(e) => waits(b@, p@, date::opt(*through)) == Err::<int, Seq<char>>(e@),
        },
{
    match through {
        None => Ok(b.date),
        Some(d) => {
            if b.date.number() > d.number() {
                return Ok(b.date);
            }
            let gap: i32 = d.number() - b.date.number();
            if gap < WINDOW_DAYS {
                return Ok(d.succ_opt().unwrap());
            }
            let mut out = text::copy(b.id.as_str());
            out.append(" ");
            out.append(b.date.text().as_str());
            out.append(" ");
            if let Booking::OnStatement { leg, .. } = &b.booking {
                out.append(leg.amount.text().as_str());
            }
            out.append(" on ");
            out.append(p.account.as_str());
            out.append(": the statements through ");
            out.append(d.text().as_str());
            out.append(" show no line for it");
            Err(Refusal { message: out })
        },
    }
}

fn report_unclear(
    b: &Booked,
    held: &Vec<HeldTransaction>,
    lines: &Vec<(usize, i64)>,
    which: &Vec<usize>,
) -> (r: String)
    requires
        leg_of(b@) is Some,
        forall|i: int| 0 <= i < which@.len() ==> (#[trigger] which@[i]) < lines@.len(),
        forall|i: int| 0 <= i < lines@.len() ==> (#[trigger] lines@[i]).0 < held@.len(),
    ensures
        r@ == unclear(
            b@,
            import_batch::transaction_views(held@),
            line_views(lines@),
            pairing::ints(which@),
        ),
{
    let ghost all = import_batch::transaction_views(held@);
    let ghost some = line_views(lines@);
    let ghost these = pairing::ints(which@);
    let mut dates: Vec<String> = Vec::new();
    let mut i: usize = 0;
    while i < which.len()
        invariant
            i <= which@.len(),
            dates@.len() == i,
            all == import_batch::transaction_views(held@),
            some == line_views(lines@),
            these == pairing::ints(which@),
            forall|k: int| 0 <= k < which@.len() ==> (#[trigger] which@[k]) < lines@.len(),
            forall|k: int| 0 <= k < lines@.len() ==> (#[trigger] lines@[k]).0 < held@.len(),
            forall|k: int| 0 <= k < i ==> (#[trigger] dates@[k])@ == days(all, some, these)[k],
        decreases which@.len() - i,
    {
        let m: usize = which[i];
        let at: usize = lines[m].0;
        let d = held[at].date.text();
        assert(these[i as int] == m);
        assert(some[m as int].0 == at);
        assert(all[at as int] == held@[at as int]@);
        dates.push(d);
        i = i + 1;
    }
    assert(text::texts(dates@) =~= days(all, some, these));
    let mut out = text::copy(b.id.as_str());
    out.append(" ");
    out.append(b.date.text().as_str());
    out.append(" ");
    if let Booking::OnStatement { leg, .. } = &b.booking {
        out.append(leg.amount.text().as_str());
    }
    out.append(" matches ");
    out.append(text::number(which.len()).as_str());
    out.append(" bank lines within 7 days (");
    out.append(text::join_all(&dates, ", ").as_str());
    out.append(")");
    out
}

fn is_left(ps: &Vec<(usize, usize)>, l: usize) -> (r: bool)
    ensures
        r == exists|i: int|
            0 <= i < ps@.len() && (#[trigger] pairing::pair_views(ps@)[i]).0 == l,
{
    let ghost all = pairing::pair_views(ps@);
    let mut i: usize = 0;
    while i < ps.len()
        invariant
            i <= ps@.len(),
            all == pairing::pair_views(ps@),
            forall|k: int| 0 <= k < i ==> (#[trigger] all[k]).0 != l,
        decreases ps@.len() - i,
    {
        assert(all[i as int].0 == ps@[i as int].0);
        if ps[i].0 == l {
            return true;
        }
        i = i + 1;
    }
    false
}

fn is_unclear(many: &Vec<(usize, Vec<usize>)>, l: usize) -> (r: bool)
    ensures
        r == exists|i: int|
            0 <= i < many@.len() && (#[trigger] pairing::ambiguous_views(many@)[i]).0 == l,
{
    let ghost all = pairing::ambiguous_views(many@);
    let mut i: usize = 0;
    while i < many.len()
        invariant
            i <= many@.len(),
            all == pairing::ambiguous_views(many@),
            forall|k: int| 0 <= k < i ==> (#[trigger] all[k]).0 != l,
        decreases many@.len() - i,
    {
        assert(all[i as int].0 == many@[i as int].0);
        if many[i].0 == l {
            return true;
        }
        i = i + 1;
    }
    false
}

/// The fates and problems a pairing leaves.
fn gather(
    records: &Vec<Booked>,
    place: &Place,
    held: &Vec<HeldTransaction>,
    at: &Vec<usize>,
    lines: &Vec<(usize, i64)>,
    through: &Option<Date>,
    found: &Pairing,
    Ghost(s): Ghost<SettingV>,
) -> (r: (Vec<(usize, Fate)>, Vec<String>))
    requires
        s.records == interim::booked_views(records@),
        s.place == place@,
        s.held == import_batch::transaction_views(held@),
        s.at == pairing::ints(at@),
        s.lines == line_views(lines@),
        s.through == date::opt(*through),
        through matches Some(d) ==> d@ < date::MAX_DAY,
        forall|i: int|
            0 <= i < at@.len() ==> (#[trigger] at@[i]) < records@.len() && leg_of(
                records@[at@[i] as int]@,
            ) is Some,
        forall|i: int| 0 <= i < lines@.len() ==> (#[trigger] lines@[i]).0 < held@.len(),
        pairing::pair_views(found.pairs@) == pairs(s),
        pairing::ambiguous_views(found.ambiguous@) == ambiguous(s),
        forall|i: int|
            0 <= i < found.pairs@.len() ==> (#[trigger] found.pairs@[i]).0 < at@.len()
                && found.pairs@[i].1 < lines@.len(),
        forall|i: int|
            0 <= i < found.ambiguous@.len() ==> (#[trigger] found.ambiguous@[i]).0 < at@.len(),
        forall|i: int, j: int|
            0 <= i < found.ambiguous@.len() && 0 <= j < found.ambiguous@[i].1@.len() ==> (
            #[trigger] found.ambiguous@[i].1@[j]) < lines@.len(),
    ensures
        (fate_views(r.0@), text::texts(r.1@)) == settled(s),
{
    let mut fates = pair_fates(held, at, lines, found, Ghost(s));
    let mut problems = unclear_reports(records, held, at, lines, found, Ghost(s));
    let ghost (had, before) = (fate_views(fates@), text::texts(problems@));
    let mut l: usize = 0;
    assert(had + alone(s, 0).0 =~= had);
    assert(before + alone(s, 0).1 =~= before);
    while l < at.len()
        invariant
            l <= at@.len(),
            s.records == interim::booked_views(records@),
            s.place == place@,
            s.at == pairing::ints(at@),
            s.lines.len() == lines@.len(),
            s.through == date::opt(*through),
            through matches Some(d) ==> d@ < date::MAX_DAY,
            forall|i: int|
                0 <= i < at@.len() ==> (#[trigger] at@[i]) < records@.len() && leg_of(
                    records@[at@[i] as int]@,
                ) is Some,
            pairing::pair_views(found.pairs@) == pairs(s),
            pairing::ambiguous_views(found.ambiguous@) == ambiguous(s),
            fate_views(fates@) == had + alone(s, l as int).0,
            text::texts(problems@) == before + alone(s, l as int).1,
        decreases at@.len() - l,
    {
        let i: usize = at[l];
        assert(s.at[l as int] == i);
        assert(s.records[i as int] == records@[i as int]@);
        proof {
            let (lefts, rights) = (s.at.len() as int, s.lines.len() as int);
            paired_lefts(fit(s), lefts, rights, lefts, l as int);
            unclear_lefts(fit(s), lefts, rights, lefts, l as int);
            assert(pairs(s).len() == found.pairs@.len());
            assert(ambiguous(s).len() == found.ambiguous@.len());
        }
        if !is_left(&found.pairs, l) && !is_unclear(&found.ambiguous, l) {
            assert(is_alone(s, l as int));
            let ghost (fs, ps) = (fates@, problems@);
            match wait(&records[i], place, through) {
                Ok(day) => {
                    fates.push((i, Fate::Waits(day)));
                    assert(fate_views(fates@) =~= fate_views(fs).push((i as int, FateV::Waits(day@))));
                    assert(fate_views(fates@) =~= had + alone(s, l as int + 1).0);
                },
                Err(e) => {
                    let ghost why = e@;
                    problems.push(e.message);
                    assert(text::texts(problems@) =~= text::texts(ps).push(why));
                    assert(text::texts(problems@) =~= before + alone(s, l as int + 1).1);
                },
            }
        } else {
            assert(!is_alone(s, l as int));
        }
        l = l + 1;
    }
    (fates, problems)
}

fn pair_fates(
    held: &Vec<HeldTransaction>,
    at: &Vec<usize>,
    lines: &Vec<(usize, i64)>,
    found: &Pairing,
    Ghost(s): Ghost<SettingV>,
) -> (r: Vec<(usize, Fate)>)
    requires
        s.held == import_batch::transaction_views(held@),
        s.at == pairing::ints(at@),
        s.lines == line_views(lines@),
        forall|i: int| 0 <= i < lines@.len() ==> (#[trigger] lines@[i]).0 < held@.len(),
        pairing::pair_views(found.pairs@) == pairs(s),
        forall|i: int|
            0 <= i < found.pairs@.len() ==> (#[trigger] found.pairs@[i]).0 < at@.len()
                && found.pairs@[i].1 < lines@.len(),
    ensures
        fate_views(r@) == paired(s, pairs(s)),
{
    let mut fates: Vec<(usize, Fate)> = Vec::new();
    let mut k: usize = 0;
    while k < found.pairs.len()
        invariant
            k <= found.pairs@.len(),
            fates@.len() == k,
            s.held == import_batch::transaction_views(held@),
            s.at == pairing::ints(at@),
            s.lines == line_views(lines@),
            forall|i: int| 0 <= i < lines@.len() ==> (#[trigger] lines@[i]).0 < held@.len(),
            pairing::pair_views(found.pairs@) == pairs(s),
            forall|i: int|
                0 <= i < found.pairs@.len() ==> (#[trigger] found.pairs@[i]).0 < at@.len()
                    && found.pairs@[i].1 < lines@.len(),
            forall|i: int|
                0 <= i < k ==> fate_views(fates@)[i] == #[trigger] paired(s, pairs(s))[i],
        decreases found.pairs@.len() - k,
    {
        let (l, m) = found.pairs[k];
        let line = lines[m];
        let ghost before = fates@;
        assert(pairs(s)[k as int] == (l as int, m as int));
        assert(s.at[l as int] == at@[l as int]);
        assert(s.lines[m as int] == (line.0 as int, line.1 as int));
        assert(s.held[line.0 as int] == held@[line.0 as int]@);
        fates.push(
            (at[l], Fate::Pairs { transaction_id: held[line.0].id, fallback_posting: line.1 }),
        );
        assert forall|i: int| 0 <= i < k + 1 implies fate_views(fates@)[i] == #[trigger] paired(
            s,
            pairs(s),
        )[i] by {
            if i < k {
                assert(fate_views(fates@)[i] == fate_views(before)[i]);
            }
        }
        k = k + 1;
    }
    assert(pairs(s).len() == found.pairs@.len());
    assert(fate_views(fates@) =~= paired(s, pairs(s)));
    fates
}

fn unclear_reports(
    records: &Vec<Booked>,
    held: &Vec<HeldTransaction>,
    at: &Vec<usize>,
    lines: &Vec<(usize, i64)>,
    found: &Pairing,
    Ghost(s): Ghost<SettingV>,
) -> (r: Vec<String>)
    requires
        s.records == interim::booked_views(records@),
        s.held == import_batch::transaction_views(held@),
        s.at == pairing::ints(at@),
        s.lines == line_views(lines@),
        forall|i: int|
            0 <= i < at@.len() ==> (#[trigger] at@[i]) < records@.len() && leg_of(
                records@[at@[i] as int]@,
            ) is Some,
        forall|i: int| 0 <= i < lines@.len() ==> (#[trigger] lines@[i]).0 < held@.len(),
        pairing::ambiguous_views(found.ambiguous@) == ambiguous(s),
        forall|i: int|
            0 <= i < found.ambiguous@.len() ==> (#[trigger] found.ambiguous@[i]).0 < at@.len(),
        forall|i: int, j: int|
            0 <= i < found.ambiguous@.len() && 0 <= j < found.ambiguous@[i].1@.len() ==> (
            #[trigger] found.ambiguous@[i].1@[j]) < lines@.len(),
    ensures
        text::texts(r@) == unclear_ones(s, ambiguous(s)),
{
    let mut out: Vec<String> = Vec::new();
    let mut k: usize = 0;
    while k < found.ambiguous.len()
        invariant
            k <= found.ambiguous@.len(),
            out@.len() == k,
            s.records == interim::booked_views(records@),
            s.held == import_batch::transaction_views(held@),
            s.at == pairing::ints(at@),
            s.lines == line_views(lines@),
            forall|i: int|
                0 <= i < at@.len() ==> (#[trigger] at@[i]) < records@.len() && leg_of(
                    records@[at@[i] as int]@,
                ) is Some,
            forall|i: int| 0 <= i < lines@.len() ==> (#[trigger] lines@[i]).0 < held@.len(),
            pairing::ambiguous_views(found.ambiguous@) == ambiguous(s),
            forall|i: int|
                0 <= i < found.ambiguous@.len() ==> (#[trigger] found.ambiguous@[i]).0 < at@.len(),
            forall|i: int, j: int|
                0 <= i < found.ambiguous@.len() && 0 <= j < found.ambiguous@[i].1@.len() ==> (
                #[trigger] found.ambiguous@[i].1@[j]) < lines@.len(),
            forall|i: int|
                0 <= i < k ==> (#[trigger] out@[i])@ == unclear_ones(s, ambiguous(s))[i],
        decreases found.ambiguous@.len() - k,
    {
        let a = &found.ambiguous[k];
        let i: usize = at[a.0];
        assert(ambiguous(s)[k as int] == (a.0 as int, pairing::ints(a.1@)));
        assert(s.at[a.0 as int] == i);
        assert(s.records[i as int] == records@[i as int]@);
        out.push(report_unclear(&records[i], held, lines, &a.1));
        k = k + 1;
    }
    assert(ambiguous(s).len() == found.ambiguous@.len());
    assert(text::texts(out@) =~= unclear_ones(s, ambiguous(s)));
    out
}

/// What becomes of the records at a place, and what is wrong with them.
pub fn settle_place(
    chart: &Chart,
    records: &Vec<Booked>,
    place: &Place,
    held: &Vec<HeldTransaction>,
    recorded: &Vec<BalanceAssertion>,
) -> (r: (Vec<(usize, Fate)>, Vec<String>))
    requires
        ends_in_time(assertion::views(recorded@)),
    ensures
        (fate_views(r.0@), text::texts(r.1@)) == settled(
            setting(
                *chart,
                interim::booked_views(records@),
                place@,
                import_batch::transaction_views(held@),
                assertion::views(recorded@),
            ),
        ),
{
    let ghost known = assertion::views(recorded@);
    let ghost s = setting(
        *chart,
        interim::booked_views(records@),
        place@,
        import_batch::transaction_views(held@),
        known,
    );
    let at = members_of(records, place);
    let lines = lines_of(chart, held, place.account.as_str());
    let through = vouched_through(recorded, place);
    proof {
        if let Some(d) = through {
            let i = choose|i: int|
                0 <= i < recorded@.len() && (#[trigger] recorded@[i]).period_end@ == d@;
            assert(known[i] == recorded@[i]@);
        }
    }
    assert(s.at == pairing::ints(at@));
    assert(s.lines == line_views(lines@));
    let account = place.account.as_str();
    let asked = |i: &usize, l: &(usize, i64)| -> (b: bool)
        requires
            *i < records@.len(),
            l.0 < held@.len(),
        ensures
            b == fits(records@[*i as int]@, held@[l.0 as int]@, account@),
        { leg_fits(&records[*i], &held[l.0], account) };
    let found = pairing::one_to_one(at.as_slice(), lines.as_slice(), asked);
    let ghost rel = pairing::fit(at@, lines@, asked);
    let ghost (lefts, rights) = (at@.len() as int, lines@.len() as int);
    proof {
        assert forall|l: int, r: int| 0 <= l < lefts && 0 <= r < rights implies #[trigger] rel(l, r)
            == fit(s)(l, r) by {
            assert(s.at[l] == at@[l]);
            assert(s.lines[r].0 == lines@[r].0);
            assert(s.records[s.at[l]] == records@[at@[l] as int]@);
            assert(s.held[s.lines[r].0] == held@[lines@[r].0 as int]@);
            assert(pairing::asked(at@, lines@, asked, l, r));
        }
        pairing::pairs_by_the_items(rel, fit(s), lefts, rights, lefts);
    }
    gather(records, place, held, &at, &lines, &through, &found, Ghost(s))
}

pub open spec fn held_views(v: Seq<Vec<HeldTransaction>>) -> Seq<Seq<TransactionV>> {
    v.map_values(|h: Vec<HeldTransaction>| import_batch::transaction_views(h@))
}

/// What becomes of the records at the first `n` places, and what is wrong with
/// them.
pub open spec fn settled_at(
    chart: Chart,
    records: Seq<BookedV>,
    places: Seq<PlaceV>,
    held: Seq<Seq<TransactionV>>,
    recorded: Seq<AssertionV>,
    n: int,
) -> (Seq<(int, FateV)>, Seq<Seq<char>>)
    decreases n,
{
    if n <= 0 {
        (Seq::empty(), Seq::empty())
    } else {
        let (fates, problems) = settled_at(chart, records, places, held, recorded, n - 1);
        let (more, wrong) = settled(
            setting(chart, records, places[n - 1], held[n - 1], recorded),
        );
        (fates + more, problems + wrong)
    }
}

/// What becomes of the records, unless something is wrong with one.
pub open spec fn fates(
    chart: Chart,
    records: Seq<BookedV>,
    places: Seq<PlaceV>,
    held: Seq<Seq<TransactionV>>,
    recorded: Seq<AssertionV>,
) -> Result<Seq<(int, FateV)>, Seq<char>> {
    let (fates, problems) = settled_at(
        chart,
        records,
        places,
        held,
        recorded,
        places.len() as int,
    );
    if problems.len() == 0 {
        Ok(fates)
    } else {
        Err(
            "records on statement accounts need review; fix them in 天天記帳 and export again. Nothing was imported.\n  "@
                + text::joined(problems, "\n  "@),
        )
    }
}

/// What becomes of the records, unless something is wrong with one. `held` are
/// the transactions held at each of the places.
pub fn settle(
    chart: &Chart,
    records: &Vec<Booked>,
    places: &Vec<Place>,
    held: &Vec<Vec<HeldTransaction>>,
    recorded: &Vec<BalanceAssertion>,
) -> (r: Result<Vec<(usize, Fate)>, Refusal>)
    requires
        held@.len() == places@.len(),
        ends_in_time(assertion::views(recorded@)),
    ensures
        match r {
            Ok(v) => fates(
                *chart,
                interim::booked_views(records@),
                place_views(places@),
                held_views(held@),
                assertion::views(recorded@),
            ) == Ok::<Seq<(int, FateV)>, Seq<char>>(fate_views(v@)),
            Err(e) => fates(
                *chart,
                interim::booked_views(records@),
                place_views(places@),
                held_views(held@),
                assertion::views(recorded@),
            ) == Err::<Seq<(int, FateV)>, Seq<char>>(e@),
        },
{
    let ghost all = interim::booked_views(records@);
    let ghost ps = place_views(places@);
    let ghost hs = held_views(held@);
    let ghost known = assertion::views(recorded@);
    let mut out: Vec<(usize, Fate)> = Vec::new();
    let mut problems: Vec<String> = Vec::new();
    let mut n: usize = 0;
    assert(fate_views(out@) =~= Seq::empty());
    assert(text::texts(problems@) =~= Seq::empty());
    while n < places.len()
        invariant
            n <= places@.len(),
            held@.len() == places@.len(),
            all == interim::booked_views(records@),
            ps == place_views(places@),
            hs == held_views(held@),
            known == assertion::views(recorded@),
            ends_in_time(known),
            (fate_views(out@), text::texts(problems@)) == settled_at(
                *chart,
                all,
                ps,
                hs,
                known,
                n as int,
            ),
        decreases places@.len() - n,
    {
        assert(ps[n as int] == places@[n as int]@);
        assert(hs[n as int] == import_batch::transaction_views(held@[n as int]@));
        let ghost (had, wrong) = (out@, problems@);
        let (mut more, mut worse) = settle_place(
            chart,
            records,
            &places[n],
            &held[n],
            recorded,
        );
        let ghost (fs, ws) = (more@, worse@);
        out.append(&mut more);
        problems.append(&mut worse);
        assert(fate_views(out@) =~= fate_views(had) + fate_views(fs));
        assert(text::texts(problems@) =~= text::texts(wrong) + text::texts(ws));
        n = n + 1;
    }
    assert(text::texts(problems@).len() == problems@.len());
    if problems.len() > 0 {
        let mut why = text::copy(
            "records on statement accounts need review; fix them in 天天記帳 and export again. Nothing was imported.\n  ",
        );
        why.append(text::join_all(&problems, "\n  ").as_str());
        return Err(Refusal { message: why });
    }
    Ok(out)
}

/// What becomes of a record, from `from` on.
pub open spec fn fate_at(fates: Seq<(int, FateV)>, i: int, from: int) -> Option<FateV>
    decreases fates.len() - from,
{
    if from < 0 || from >= fates.len() {
        None
    } else if fates[from].0 == i {
        Some(fates[from].1)
    } else {
        fate_at(fates, i, from + 1)
    }
}

/// What becomes of a record.
pub fn fate_of(fates: &Vec<(usize, Fate)>, i: usize) -> (r: Option<Fate>)
    ensures
        match r {
            Some(f) => fate_at(fate_views(fates@), i as int, 0) == Some(f@),
            None => fate_at(fate_views(fates@), i as int, 0) is None,
        },
{
    let ghost all = fate_views(fates@);
    let mut k: usize = 0;
    while k < fates.len()
        invariant
            k <= fates@.len(),
            all == fate_views(fates@),
            fate_at(all, i as int, 0) == fate_at(all, i as int, k as int),
        decreases fates@.len() - k,
    {
        assert(all[k as int] == (fates@[k as int].0 as int, fates@[k as int].1@));
        if fates[k].0 == i {
            return Some(fates[k].1);
        }
        k = k + 1;
    }
    None
}

proof fn listed_fate(fates: Seq<(int, FateV)>, i: int, from: int, k: int)
    requires
        0 <= from <= k < fates.len(),
        fates[k].0 == i,
    ensures
        fate_at(fates, i, from) is Some,
    decreases fates.len() - from,
{
    if fates[from].0 != i {
        listed_fate(fates, i, from + 1, k);
    }
}

proof fn places_in_order(records: Seq<BookedV>)
    ensures
        keyed::in_order(places(records)),
    decreases records.len(),
{
    if records.len() > 0 {
        places_in_order(records.drop_last());
        if let Some(l) = leg_of(records.last()) {
            let p = PlaceV { account: l.account, currency: l.currency };
            keyed::put_keeps_order(places(records.drop_last()), place_key(p), p);
        }
    }
}

proof fn place_is_kept(records: Seq<BookedV>, i: int)
    requires
        0 <= i < records.len(),
        leg_of(records[i]) is Some,
    ensures
        ({
            let l = leg_of(records[i])->0;
            let p = PlaceV { account: l.account, currency: l.currency };
            keyed::get(places(records), place_key(p)) == Some(p)
        }),
    decreases records.len(),
{
    let l = leg_of(records[i])->0;
    let p = PlaceV { account: l.account, currency: l.currency };
    let rest = places(records.drop_last());
    places_in_order(records.drop_last());
    if i < records.len() - 1 {
        place_is_kept(records.drop_last(), i);
    }
    if let Some(m) = leg_of(records.last()) {
        let q = PlaceV { account: m.account, currency: m.currency };
        keyed::get_after_put(rest, place_key(q), q, place_key(p));
        if place_key(q) == place_key(p) {
            assert(q =~= p);
        }
    }
}

proof fn is_member(records: Seq<BookedV>, p: PlaceV, n: int, i: int) -> (l: int)
    requires
        0 <= i < n,
        is_at(records[i], p),
    ensures
        0 <= l < members(records, p, n).len(),
        members(records, p, n)[l] == i,
    decreases n,
{
    if i == n - 1 {
        members(records, p, n - 1).len() as int
    } else {
        is_member(records, p, n - 1, i)
    }
}

proof fn waiting_is_listed(s: SettingV, n: int, l: int) -> (k: int)
    requires
        0 <= l < n,
        is_alone(s, l),
        alone(s, n).1.len() == 0,
    ensures
        0 <= k < alone(s, n).0.len(),
        alone(s, n).0[k].0 == s.at[l],
    decreases n,
{
    if l == n - 1 {
        alone(s, n - 1).0.len() as int
    } else {
        waiting_is_listed(s, n - 1, l)
    }
}

proof fn settled_is_listed(s: SettingV, l: int) -> (k: int)
    requires
        0 <= l < s.at.len(),
        settled(s).1.len() == 0,
    ensures
        0 <= k < settled(s).0.len(),
        settled(s).0[k].0 == s.at[l],
{
    let (lefts, rights) = (s.at.len() as int, s.lines.len() as int);
    paired_lefts(fit(s), lefts, rights, lefts, l);
    unclear_lefts(fit(s), lefts, rights, lefts, l);
    assert(ambiguous(s).len() == 0);
    if pairing::is_pair(fit(s), lefts, rights, l) {
        let k = choose|k: int| 0 <= k < pairs(s).len() && (#[trigger] pairs(s)[k]).0 == l;
        k
    } else {
        assert(!pairing::is_ambiguous(fit(s), lefts, rights, l));
        let k = waiting_is_listed(s, lefts, l);
        pairs(s).len() + k
    }
}

proof fn settled_is_kept(
    chart: Chart,
    records: Seq<BookedV>,
    places: Seq<PlaceV>,
    held: Seq<Seq<TransactionV>>,
    recorded: Seq<AssertionV>,
    n: int,
    g: int,
    l: int,
) -> (k: int)
    requires
        0 <= g < n,
        0 <= l < members(records, places[g], records.len() as int).len(),
        settled_at(chart, records, places, held, recorded, n).1.len() == 0,
    ensures
        0 <= k < settled_at(chart, records, places, held, recorded, n).0.len(),
        settled_at(chart, records, places, held, recorded, n).0[k].0 == members(
            records,
            places[g],
            records.len() as int,
        )[l],
    decreases n,
{
    let before = settled_at(chart, records, places, held, recorded, n - 1);
    if g == n - 1 {
        let s = setting(chart, records, places[g], held[g], recorded);
        let k = settled_is_listed(s, l);
        before.0.len() + k
    } else {
        settled_is_kept(chart, records, places, held, recorded, n - 1, g, l)
    }
}

/// Where nothing is wrong, every record on a statement account relabels a line
/// or waits for one.
pub proof fn every_statement_record_has_a_fate(
    chart: Chart,
    records: Seq<BookedV>,
    held: Seq<Seq<TransactionV>>,
    recorded: Seq<AssertionV>,
    i: int,
)
    requires
        0 <= i < records.len(),
        leg_of(records[i]) is Some,
        fates(chart, records, values(places(records)), held, recorded) is Ok,
    ensures
        fate_at(
            fates(chart, records, values(places(records)), held, recorded)->Ok_0,
            i,
            0,
        ) is Some,
{
    let l = leg_of(records[i])->0;
    let p = PlaceV { account: l.account, currency: l.currency };
    let m = places(records);
    let ps = values(m);
    place_is_kept(records, i);
    let g = keyed::slot(m, place_key(p), 0);
    assert(ps[g] == p);
    let at = is_member(records, p, records.len() as int, i);
    let k = settled_is_kept(chart, records, ps, held, recorded, ps.len() as int, g, at);
    listed_fate(
        settled_at(chart, records, ps, held, recorded, ps.len() as int).0,
        i,
        0,
        k,
    );
}

/// A record that waits, waits on a day no statement vouches for yet, and no
/// earlier than its own.
pub proof fn a_waiting_record_is_not_vouched_for(b: BookedV, p: PlaceV, through: Option<int>)
    requires
        waits(b, p, through) is Ok,
    ensures
        through matches Some(d) ==> waits(b, p, through)->Ok_0 > d,
        waits(b, p, through)->Ok_0 >= b.date,
{
}

/// A line nothing was known of when it was imported has two legs: one on its
/// account, and the other, which gives way, on an account lines fall back to.
pub proof fn what_gives_way_is_a_fallback(chart: Chart, t: TransactionV, account: Seq<char>)
    requires
        uncategorised(chart, t, account) is Some,
    ensures
        ({
            let id = uncategorised(chart, t, account)->0;
            let p = t.postings;
            let gives_way = |n: int|
                p[n].id == id && (p[n].account == chart.fallback.income@ || p[n].account
                    == chart.fallback.expense@ || accounts::is_value(
                    accounts::table(chart.fallback.descriptions@),
                    p[n].account,
                )) && p[1 - n].account == account;
            &&& from_a_statement(t)
            &&& p.len() == 2
            &&& gives_way(0) || gives_way(1)
        }),
{
}

/// A line that may be paired is one nothing was known of.
pub proof fn an_open_line_is_uncategorised(
    chart: Chart,
    held: Seq<TransactionV>,
    account: Seq<char>,
    r: int,
)
    requires
        0 <= r < lines(chart, held, account).len(),
    ensures
        ({
            let (n, id) = lines(chart, held, account)[r];
            0 <= n < held.len() && uncategorised(chart, held[n], account) == Some(id)
        }),
    decreases held.len(),
{
    if r < lines(chart, held.drop_last(), account).len() {
        an_open_line_is_uncategorised(chart, held.drop_last(), account, r);
    }
}

/// Every line nothing was known of may be paired.
pub proof fn every_uncategorised_line_is_open(
    chart: Chart,
    held: Seq<TransactionV>,
    account: Seq<char>,
    n: int,
) -> (r: int)
    requires
        0 <= n < held.len(),
        uncategorised(chart, held[n], account) is Some,
    ensures
        0 <= r < lines(chart, held, account).len(),
        lines(chart, held, account)[r] == (n, uncategorised(chart, held[n], account)->0),
    decreases held.len(),
{
    if n < held.len() - 1 {
        every_uncategorised_line_is_open(chart, held.drop_last(), account, n)
    } else {
        lines(chart, held, account).len() - 1
    }
}

/// Is a transaction's first leg on an account worth a record's leg, and is it
/// dated within a week of the record?
pub open spec fn could_be(b: BookedV, t: TransactionV, account: Seq<char>) -> bool {
    &&& leg_of(b) is Some
    &&& exists|n: int|
        0 <= n < t.postings.len() && (#[trigger] t.postings[n]).account == account && amount::worth(
            t.postings[n].amount,
        ) == amount::worth(leg_of(b)->0.amount) && forall|m: int|
            0 <= m < n ==> (#[trigger] t.postings[m]).account != account
    &&& t.date <= b.date + 7
    &&& b.date <= t.date + 7
}

proof fn moved_first(t: TransactionV, account: Seq<char>, from: int)
    requires
        0 <= from,
    ensures
        match moved(t, account, from) {
            Some(a) => exists|n: int|
                from <= n < t.postings.len() && (#[trigger] t.postings[n]).account == account
                    && t.postings[n].amount == a && forall|m: int|
                    from <= m < n ==> (#[trigger] t.postings[m]).account != account,
            None => forall|n: int|
                from <= n < t.postings.len() ==> (#[trigger] t.postings[n]).account != account,
        },
    decreases t.postings.len() - from,
{
    if from < t.postings.len() && t.postings[from].account != account {
        moved_first(t, account, from + 1);
        if let Some(a) = moved(t, account, from + 1) {
            let n = choose|n: int|
                from + 1 <= n < t.postings.len() && (#[trigger] t.postings[n]).account == account
                    && t.postings[n].amount == a && forall|m: int|
                    from + 1 <= m < n ==> (#[trigger] t.postings[m]).account != account;
            assert(t.postings[n].account == account);
        }
    } else if from < t.postings.len() {
        assert(t.postings[from].account == account);
    }
}

/// A record fits a line of its amount within a week of it, and no other.
pub proof fn what_fits_is_of_its_amount(b: BookedV, t: TransactionV, account: Seq<char>)
    ensures
        fits(b, t, account) <==> could_be(b, t, account),
{
    moved_first(t, account, 0);
    if could_be(b, t, account) {
        let n = choose|n: int|
            0 <= n < t.postings.len() && (#[trigger] t.postings[n]).account == account
                && amount::worth(t.postings[n].amount) == amount::worth(leg_of(b)->0.amount)
                && forall|m: int|
                0 <= m < n ==> (#[trigger] t.postings[m]).account != account;
        assert(t.postings[n].account == account);
        let a = moved(t, account, 0)->0;
        let k = choose|k: int|
            0 <= k < t.postings.len() && (#[trigger] t.postings[k]).account == account
                && t.postings[k].amount == a && forall|m: int|
                0 <= m < k ==> (#[trigger] t.postings[m]).account != account;
        assert(k == n) by {
            assert(t.postings[k].account == account);
        }
    }
}

proof fn the_only_rival(fit: spec_fn(int, int) -> bool, r: int, n: int, a: int, b: int)
    requires
        0 <= a < n,
        0 <= b < n,
        fit(a, r),
        fit(b, r),
        pairing::rivals(fit, r, n) == 1,
    ensures
        a == b,
{
    if a < b {
        pairing::two_rivals(fit, r, n, a, b);
    } else if b < a {
        pairing::two_rivals(fit, r, n, b, a);
    }
}

proof fn fitting_holds(fit: spec_fn(int, int) -> bool, l: int, n: int, r: int)
    requires
        0 <= r < n,
        fit(l, r),
    ensures
        pairing::fitting(fit, l, n).contains(r),
    decreases n,
{
    let before = pairing::fitting(fit, l, n - 1);
    let now = pairing::fitting(fit, l, n);
    if r < n - 1 {
        fitting_holds(fit, l, n - 1, r);
        let i = choose|i: int| 0 <= i < before.len() && before[i] == r;
        assert(now[i] == r);
    } else {
        assert(now[before.len() as int] == r);
    }
}

/// Does the record `l` of a place fit the line `r`, and neither any other?
pub open spec fn only_fits(s: SettingV, l: int, r: int) -> bool {
    &&& 0 <= l < s.at.len()
    &&& 0 <= r < s.lines.len()
    &&& could_be(s.records[s.at[l]], s.held[s.lines[r].0], s.place.account)
    &&& forall|k: int|
        0 <= k < s.lines.len() && k != r ==> !could_be(
            s.records[s.at[l]],
            s.held[(#[trigger] s.lines[k]).0],
            s.place.account,
        )
    &&& forall|k: int|
        0 <= k < s.at.len() && k != l ==> !could_be(
            s.records[#[trigger] s.at[k]],
            s.held[s.lines[r].0],
            s.place.account,
        )
}

proof fn a_pair_only_fits(s: SettingV, n: int, i: int)
    requires
        0 <= n <= s.at.len(),
        0 <= i < pairing::pairs(fit(s), s.at.len() as int, s.lines.len() as int, n).len(),
    ensures
        ({
            let (l, r) = pairing::pairs(fit(s), s.at.len() as int, s.lines.len() as int, n)[i];
            only_fits(s, l, r)
        }),
    decreases n,
{
    let (lefts, rights) = (s.at.len() as int, s.lines.len() as int);
    let before = pairing::pairs(fit(s), lefts, rights, n - 1);
    if n <= 0 {
    } else if i < before.len() {
        a_pair_only_fits(s, n - 1, i);
    } else {
        let l = n - 1;
        let some = pairing::fitting(fit(s), l, rights);
        let r = some[0];
        pairing::fitting_members(fit(s), l, rights);
        assert(0 <= some[0] < rights && fit(s)(l, some[0]));
        what_fits_is_of_its_amount(
            s.records[s.at[l]],
            s.held[s.lines[r].0],
            s.place.account,
        );
        assert forall|k: int| 0 <= k < s.lines.len() && k != r implies !could_be(
            s.records[s.at[l]],
            s.held[(#[trigger] s.lines[k]).0],
            s.place.account,
        ) by {
            what_fits_is_of_its_amount(
                s.records[s.at[l]],
                s.held[s.lines[k].0],
                s.place.account,
            );
            if fit(s)(l, k) {
                fitting_holds(fit(s), l, rights, k);
            }
        }
        assert forall|k: int| 0 <= k < s.at.len() && k != l implies !could_be(
            s.records[#[trigger] s.at[k]],
            s.held[s.lines[r].0],
            s.place.account,
        ) by {
            what_fits_is_of_its_amount(
                s.records[s.at[k]],
                s.held[s.lines[r].0],
                s.place.account,
            );
            if fit(s)(k, r) {
                the_only_rival(fit(s), r, lefts, k, l);
            }
        }
    }
}

/// Does a record that no line fits wait on `day`: its own, where the statements
/// do not reach it, or else the day after them, where they reach less than a
/// week beyond it?
pub open spec fn waits_on(s: SettingV, l: int, day: int) -> bool {
    let b = s.records[s.at[l]];
    &&& 0 <= l < s.at.len()
    &&& forall|k: int|
        0 <= k < s.lines.len() ==> !could_be(
            b,
            s.held[(#[trigger] s.lines[k]).0],
            s.place.account,
        )
    &&& match s.through {
        Some(d) => if b.date > d {
            day == b.date
        } else {
            day == d + 1 && d < b.date + 7
        },
        None => day == b.date,
    }
}

proof fn the_alone_wait(s: SettingV, n: int, i: int) -> (l: int)
    requires
        0 <= n <= s.at.len(),
        0 <= i < alone(s, n).0.len(),
    ensures
        alone(s, n).0[i].0 == s.at[l],
        alone(s, n).0[i].1 matches FateV::Waits(day) && waits_on(s, l, day),
    decreases n,
{
    if n <= 0 {
        0
    } else if i < alone(s, n - 1).0.len() {
        the_alone_wait(s, n - 1, i)
    } else {
        let l = n - 1;
        let b = s.records[s.at[l]];
        assert forall|k: int| 0 <= k < s.lines.len() implies !could_be(
            b,
            s.held[(#[trigger] s.lines[k]).0],
            s.place.account,
        ) by {
            what_fits_is_of_its_amount(b, s.held[s.lines[k].0], s.place.account);
            if fit(s)(l, k) {
                fitting_holds(fit(s), l, s.lines.len() as int, k);
            }
        }
        l
    }
}

/// What becomes of a record at a place: it relabels the one line it fits, which
/// no other record fits, or no line fits it and it waits.
pub proof fn a_record_pairs_or_waits(s: SettingV, i: int) -> (at: (int, int))
    requires
        0 <= i < settled(s).0.len(),
    ensures
        ({
            let (record, fate) = settled(s).0[i];
            let (l, r) = at;
            &&& record == s.at[l]
            &&& match fate {
                FateV::Pairs { transaction_id, fallback_posting } => only_fits(s, l, r)
                    && transaction_id == s.held[s.lines[r].0].id && fallback_posting
                    == s.lines[r].1,
                FateV::Waits(day) => waits_on(s, l, day),
            }
        }),
{
    let ps = pairs(s);
    if i < ps.len() {
        a_pair_only_fits(s, s.at.len() as int, i);
        ps[i]
    } else {
        let l = the_alone_wait(s, s.at.len() as int, i - ps.len());
        (l, 0)
    }
}

/// A place is vouched for through the newest day a statement on its account or
/// above it, in its currency, ends on.
pub proof fn the_newest_statement_vouches(recorded: Seq<AssertionV>, p: PlaceV)
    ensures
        ({
            let covers = |a: AssertionV|
                a.source == AssertionSource::Statement && a.currency == p.currency
                    && accounts::within(p.account, a.account);
            match vouched(recorded, p) {
                None => forall|i: int| 0 <= i < recorded.len() ==> !covers(#[trigger] recorded[i]),
                Some(d) => (exists|i: int|
                    0 <= i < recorded.len() && covers(#[trigger] recorded[i])
                        && recorded[i].period_end == d) && forall|i: int|
                    0 <= i < recorded.len() && covers(#[trigger] recorded[i])
                        ==> recorded[i].period_end <= d,
            }
        }),
    decreases recorded.len(),
{
    if recorded.len() > 0 {
        let shorter = recorded.drop_last();
        let covers = |a: AssertionV|
            a.source == AssertionSource::Statement && a.currency == p.currency && accounts::within(
                p.account,
                a.account,
            );
        the_newest_statement_vouches(shorter, p);
        assert forall|i: int| 0 <= i < recorded.len() implies #[trigger] recorded[i] == (if i
            < shorter.len() {
            shorter[i]
        } else {
            recorded.last()
        }) by {}
        if let Some(d) = vouched(shorter, p) {
            let i = choose|i: int|
                0 <= i < shorter.len() && covers(#[trigger] shorter[i]) && shorter[i].period_end
                    == d;
            assert(recorded[i] == shorter[i]);
        }
        assert(recorded[recorded.len() - 1] == recorded.last());
    }
}

proof fn members_are_at(records: Seq<BookedV>, p: PlaceV, n: int, l: int)
    requires
        0 <= n <= records.len(),
        0 <= l < members(records, p, n).len(),
    ensures
        0 <= members(records, p, n)[l] < n,
        is_at(records[members(records, p, n)[l]], p),
    decreases n,
{
    if n > 0 && l < members(records, p, n - 1).len() {
        members_are_at(records, p, n - 1, l);
    }
}

/// What becomes of a record is settled at the place of its leg: by the lines of
/// its account and currency, and how far the statements there vouch.
pub proof fn a_fate_is_settled_at_its_place(
    chart: Chart,
    records: Seq<BookedV>,
    places: Seq<PlaceV>,
    held: Seq<Seq<TransactionV>>,
    recorded: Seq<AssertionV>,
    n: int,
    k: int,
) -> (at: (int, int))
    requires
        0 <= n <= places.len(),
        0 <= k < settled_at(chart, records, places, held, recorded, n).0.len(),
    ensures
        ({
            let fate = settled_at(chart, records, places, held, recorded, n).0[k];
            let (g, i) = at;
            let s = setting(chart, records, places[g], held[g], recorded);
            &&& 0 <= g < n
            &&& 0 <= i < settled(s).0.len()
            &&& settled(s).0[i] == fate
            &&& 0 <= fate.0 < records.len()
            &&& leg_of(records[fate.0]) matches Some(l)
            &&& l.account == places[g].account
            &&& l.currency == places[g].currency
        }),
    decreases n,
{
    let before = settled_at(chart, records, places, held, recorded, n - 1).0;
    if n <= 0 {
        (0, 0)
    } else if k < before.len() {
        a_fate_is_settled_at_its_place(chart, records, places, held, recorded, n - 1, k)
    } else {
        let g = n - 1;
        let s = setting(chart, records, places[g], held[g], recorded);
        let i = k - before.len();
        let (l, r) = a_record_pairs_or_waits(s, i);
        members_are_at(records, places[g], records.len() as int, l);
        (g, i)
    }
}

} // verus!
