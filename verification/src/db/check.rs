//! The invariant gate: every balance assertion must equal the balance the
//! postings compute, per account, currency and period, and every holding
//! assertion the balance the broker records replay to. Run after the journal
//! load and after every import, inside the writer's transaction, so a drifting
//! ledger never commits.

use vstd::prelude::*;

use crate::accounts;
use crate::accounts::Chart;
use crate::amount;
use crate::amount::{Amount, Dec};
use crate::assertion;
use crate::assertion::{AssertionSource, AssertionV, BalanceAssertion};
use crate::bounds;
use crate::currency;
use crate::currency::Currency;
use crate::date;
use crate::date::Date;
use crate::keyed;
use crate::refusal;
use crate::refusal::Refusal;
use crate::sort;
use crate::sort::{Key, KeyV};
use crate::text;

use super::broker;
use super::broker::{BrokerRecord, RecordV};
use super::holdings;
use super::holdings::{CommodityV, HoldingAssertion, HoldingV};
use super::query;
use super::query::{AccountBalance, BalanceV, DataV, LedgerData};

verus! {

/// An outside figure: a balance held to the postings, or a holding held to
/// the broker records.
#[derive(Debug, Clone, PartialEq)]
pub enum Figure {
    Balance(BalanceAssertion),
    Holding(HoldingAssertion),
}

pub enum FigureV {
    Balance(AssertionV),
    Holding(HoldingV),
}

impl View for Figure {
    type V = FigureV;

    open spec fn view(&self) -> FigureV {
        match self {
            Figure::Balance(a) => FigureV::Balance(a@),
            Figure::Holding(h) => FigureV::Holding(h@),
        }
    }
}

/// One figure that disagrees with what the ledger computes.
#[derive(Debug, Clone, PartialEq)]
pub struct Mismatch {
    pub figure: Figure,
    /// The day whose balance is compared: the day before `period_start` for
    /// the opening, `period_end` for the closing.
    pub as_of: Date,
    pub expected: Amount,
    pub computed: Amount,
}

#[verifier::ext_equal]
pub struct MismatchV {
    pub figure: FigureV,
    pub as_of: int,
    pub expected: Dec,
    pub computed: Dec,
}

impl View for Mismatch {
    type V = MismatchV;

    open spec fn view(&self) -> MismatchV {
        MismatchV {
            figure: self.figure@,
            as_of: self.as_of@,
            expected: self.expected@,
            computed: self.computed@,
        }
    }
}

pub open spec fn mismatch_views(v: Seq<Mismatch>) -> Seq<MismatchV> {
    v.map_values(|m: Mismatch| m@)
}

/// A balance no assertion vouches for up to its newest posting.
#[derive(Debug, Clone, PartialEq)]
pub struct Unchecked {
    pub account: String,
    pub currency: Currency,
    /// `None` when nothing ever vouched for it.
    pub vouched_through: Option<Date>,
    pub posted_through: Date,
}

#[verifier::ext_equal]
pub struct UncheckedV {
    pub account: Seq<char>,
    pub currency: Currency,
    pub vouched_through: Option<int>,
    pub posted_through: int,
}

impl View for Unchecked {
    type V = UncheckedV;

    open spec fn view(&self) -> UncheckedV {
        UncheckedV {
            account: self.account@,
            currency: self.currency,
            vouched_through: date::opt(self.vouched_through),
            posted_through: self.posted_through@,
        }
    }
}

pub open spec fn unchecked_views(v: Seq<Unchecked>) -> Seq<UncheckedV> {
    v.map_values(|u: Unchecked| u@)
}

/// How one account fared, in balance figures: a statement period states two,
/// an opening and a closing.
#[derive(Debug, Clone, Copy, PartialEq)]
pub struct AccountSummary {
    pub checked: usize,
    pub failed: usize,
    pub vouched_through: Option<Date>,
}

#[verifier::ext_equal]
pub struct SummaryV {
    pub checked: int,
    pub failed: int,
    pub vouched_through: Option<int>,
}

impl View for AccountSummary {
    type V = SummaryV;

    open spec fn view(&self) -> SummaryV {
        SummaryV {
            checked: self.checked as int,
            failed: self.failed as int,
            vouched_through: date::opt(self.vouched_through),
        }
    }
}

/// How the ledger fared.
#[derive(Debug)]
pub struct CheckReport {
    /// By account.
    pub accounts: Vec<(Key, AccountSummary)>,
    pub mismatches: Vec<Mismatch>,
    /// Asset and liability balances no assertion covers through their newest
    /// posting: not a failure, but nothing vouches for them as they stand.
    pub unchecked: Vec<Unchecked>,
    /// Balances under a `[counted]` root no count has vouched for yet. Not a
    /// failure: until the first count there is nothing to hold them to.
    pub uncounted: Vec<(String, Currency)>,
}

#[verifier::ext_equal]
pub struct ReportV {
    pub accounts: Seq<(KeyV, SummaryV)>,
    pub mismatches: Seq<MismatchV>,
    pub unchecked: Seq<UncheckedV>,
    pub uncounted: Seq<(Seq<char>, Currency)>,
}

pub open spec fn uncounted_views(v: Seq<(String, Currency)>) -> Seq<(Seq<char>, Currency)> {
    v.map_values(|e: (String, Currency)| (e.0@, e.1))
}

impl View for CheckReport {
    type V = ReportV;

    open spec fn view(&self) -> ReportV {
        ReportV {
            accounts: keyed::entries(self.accounts@),
            mismatches: mismatch_views(self.mismatches@),
            unchecked: unchecked_views(self.unchecked@),
            uncounted: uncounted_views(self.uncounted@),
        }
    }
}

/// The amounts of the balances in `currency` on `root` or below it.
pub open spec fn in_subtree(bs: Seq<BalanceV>, root: Seq<char>, c: Currency) -> Seq<Dec>
    decreases bs.len(),
{
    if bs.len() == 0 {
        Seq::empty()
    } else {
        let rest = in_subtree(bs.drop_last(), root, c);
        let b = bs.last();
        if b.currency == c && accounts::within(b.path, root) {
            rest.push(b.amount)
        } else {
            rest
        }
    }
}

/// What the postings on an assertion's account sum to at the end of a day. An
/// assertion on an account covers its subtree, as a Beancount `balance` does.
pub open spec fn computed(d: DataV, a: AssertionV, day: int) -> Option<Dec> {
    amount::total(in_subtree(query::balances(d, day), a.account, a.currency))
}

/// The figures of an assertion, among the first `n`, that the postings
/// disagree with.
pub open spec fn failures(d: DataV, a: AssertionV, n: int) -> Seq<MismatchV>
    decreases n,
{
    if n <= 0 {
        Seq::empty()
    } else {
        let rest = failures(d, a, n - 1);
        let (day, expected) = assertion::points(a)[n - 1];
        let found = computed(d, a, day)->0;
        if amount::equal(found, expected) {
            rest
        } else {
            rest.push(
                MismatchV {
                    figure: FigureV::Balance(a),
                    as_of: day,
                    expected,
                    computed: found,
                },
            )
        }
    }
}

/// Every figure of an assertion the postings disagree with.
pub open spec fn failed(d: DataV, a: AssertionV) -> Seq<MismatchV> {
    failures(d, a, assertion::points(a).len() as int)
}

/// The later of the two days; any day is later than none.
pub open spec fn latest(a: Option<int>, b: int) -> Option<int> {
    match a {
        Some(x) => if x < b {
            Some(b)
        } else {
            Some(x)
        },
        None => Some(b),
    }
}

/// The summaries with figures of one more assertion on `account`.
pub open spec fn noted(
    m: Seq<(KeyV, SummaryV)>,
    account: Seq<char>,
    checked: int,
    failed: int,
    through: int,
) -> Seq<(KeyV, SummaryV)> {
    let k = sort::text_key(account);
    let was = match keyed::get(m, k) {
        Some(s) => s,
        None => SummaryV { checked: 0, failed: 0, vouched_through: None },
    };
    keyed::put(
        m,
        k,
        SummaryV {
            checked: was.checked + checked,
            failed: was.failed + failed,
            vouched_through: latest(was.vouched_through, through),
        },
    )
}

/// The summaries and the mismatches of the assertions.
pub open spec fn held_to(d: DataV, all: Seq<AssertionV>) -> (Seq<(KeyV, SummaryV)>, Seq<MismatchV>)
    decreases all.len(),
{
    if all.len() == 0 {
        (Seq::empty(), Seq::empty())
    } else {
        let (m, bad) = held_to(d, all.drop_last());
        let a = all.last();
        let more = failed(d, a);
        (
            noted(
                m,
                a.account,
                assertion::points(a).len() as int,
                more.len() as int,
                a.period_end,
            ),
            bad + more,
        )
    }
}

/// The newest date an assertion vouches for a balance. Only the currency it
/// names counts — a 外幣 account asserted in USD says nothing about its JPY.
pub open spec fn vouched(all: Seq<AssertionV>, path: Seq<char>, c: Currency) -> Option<int>
    decreases all.len(),
{
    if all.len() == 0 {
        None
    } else {
        let rest = vouched(all.drop_last(), path, c);
        let a = all.last();
        if a.currency == c && accounts::within(path, a.account) {
            latest(rest, a.period_end)
        } else {
            rest
        }
    }
}

/// Is a balance vouched for through its newest posting?
pub open spec fn is_vouched(d: DataV, all: Seq<AssertionV>, b: BalanceV) -> bool {
    vouched(all, b.path, b.currency) matches Some(day) && day >= query::last_posting(
        d.postings,
        b.account_id,
        b.currency,
    )->0
}

/// The asset and liability balances no assertion covers through their newest
/// posting.
pub open spec fn unvouched(d: DataV, all: Seq<AssertionV>, bs: Seq<BalanceV>) -> Seq<UncheckedV>
    decreases bs.len(),
{
    if bs.len() == 0 {
        Seq::empty()
    } else {
        let rest = unvouched(d, all, bs.drop_last());
        let b = bs.last();
        if query::on_balance_sheet(b.account_type) && !is_vouched(d, all, b) {
            rest.push(
                UncheckedV {
                    account: b.path,
                    currency: b.currency,
                    vouched_through: vouched(all, b.path, b.currency),
                    posted_through: query::last_posting(
                        d.postings,
                        b.account_id,
                        b.currency,
                    )->0,
                },
            )
        } else {
            rest
        }
    }
}

/// How the ledger fares against the balance assertions.
pub open spec fn checked(d: DataV, all: Seq<AssertionV>) -> ReportV {
    ReportV {
        accounts: held_to(d, all).0,
        mismatches: held_to(d, all).1,
        unchecked: unvouched(d, all, query::balances(d, date::MAX_DAY as int)),
        uncounted: Seq::empty(),
    }
}

/// Is what an assertion's figure is compared with within what a decimal can
/// be?
pub open spec fn point_fits(d: DataV, a: AssertionV, day: int) -> bool {
    query::fits(d, day) && computed(d, a, day) is Some
}

/// Are the balances the assertions are compared with within range?
pub open spec fn checkable(d: DataV, all: Seq<AssertionV>) -> bool {
    &&& query::fits(d, date::MAX_DAY as int)
    &&& forall|i: int, j: int|
        0 <= i < all.len() && 0 <= j < assertion::points(#[trigger] all[i]).len() ==> point_fits(
            d,
            all[i],
            (#[trigger] assertion::points(all[i])[j]).0,
        )
}

/// Does every period the assertions open have a day before it?
pub open spec fn dated(all: Seq<AssertionV>) -> bool {
    forall|i: int| 0 <= i < all.len() ==> assertion::opens_after_first_day(#[trigger] all[i])
}

/// Does every period the assertions open have a day before it?
pub fn is_dated(assertions: &Vec<BalanceAssertion>) -> (r: bool)
    ensures
        r == dated(assertion::views(assertions@)),
{
    let ghost all = assertion::views(assertions@);
    let mut i: usize = 0;
    while i < assertions.len()
        invariant
            i <= assertions@.len(),
            all == assertion::views(assertions@),
            forall|k: int| 0 <= k < i ==> assertion::opens_after_first_day(#[trigger] all[k]),
        decreases assertions@.len() - i,
    {
        let a = &assertions[i];
        assert(all[i as int] == a@);
        if let (Some(start), Some(_)) = (a.period_start, a.opening) {
            if start.number() == date::MIN_DAY {
                return false;
            }
        }
        i = i + 1;
    }
    true
}

fn later_of(a: Option<Date>, b: Date) -> (r: Option<Date>)
    ensures
        date::opt(r) == latest(date::opt(a), b@),
{
    match a {
        Some(x) => if x.number() < b.number() {
            Some(b)
        } else {
            Some(x)
        },
        None => Some(b),
    }
}

/// The balances in `currency` on `root` or below it, summed.
fn subtree_balance(balances: &Vec<AccountBalance>, root: &str, currency: Currency) -> (r: Option<
    Amount,
>)
    ensures
        amount::opt(r) == amount::total(
            in_subtree(query::balance_views(balances@), root@, currency),
        ),
{
    let ghost bs = query::balance_views(balances@);
    let mut sum = Amount::zero();
    let mut i: usize = 0;
    while i < balances.len()
        invariant
            i <= balances@.len(),
            bs == query::balance_views(balances@),
            amount::total(in_subtree(bs.take(i as int), root@, currency)) == Some(sum@),
        decreases balances@.len() - i,
    {
        let b = &balances[i];
        let ghost before = in_subtree(bs.take(i as int), root@, currency);
        assert(bs[i as int] == b@);
        assert(bs.take(i as int + 1).drop_last() =~= bs.take(i as int));
        if b.currency == currency && accounts::in_subtree(b.path.as_str(), root) {
            assert(before.push(b.amount@).drop_last() =~= before);
            match sum.plus(&b.amount) {
                Some(s) => {
                    sum = s;
                },
                None => {
                    proof {
                        subtree_grows(bs, root@, currency, i as int + 1);
                        amount::total_stays_out(
                            in_subtree(bs, root@, currency),
                            in_subtree(bs.take(i as int + 1), root@, currency).len() as int,
                        );
                    }
                    return None;
                },
            }
        }
        i = i + 1;
    }
    assert(bs.take(i as int) =~= bs);
    Some(sum)
}

proof fn subtree_grows(bs: Seq<BalanceV>, root: Seq<char>, c: Currency, n: int)
    requires
        0 <= n <= bs.len(),
    ensures
        in_subtree(bs.take(n), root, c).len() <= in_subtree(bs, root, c).len(),
        in_subtree(bs, root, c).take(in_subtree(bs.take(n), root, c).len() as int) == in_subtree(
            bs.take(n),
            root,
            c,
        ),
    decreases bs.len(),
{
    if n < bs.len() {
        let shorter = bs.drop_last();
        subtree_grows(shorter, root, c, n);
        assert(shorter.take(n) =~= bs.take(n));
        let part = in_subtree(bs.take(n), root, c);
        assert(in_subtree(bs, root, c).take(part.len() as int) =~= in_subtree(
            shorter,
            root,
            c,
        ).take(part.len() as int));
    } else {
        assert(bs.take(n) =~= bs);
        let all = in_subtree(bs, root, c);
        assert(all.take(all.len() as int) =~= all);
    }
}

/// What the postings on an assertion's account sum to at the end of a day, if
/// it is within range.
fn computed_at(data: &LedgerData, a: &BalanceAssertion, day: Date) -> (r: Option<Amount>)
    ensures
        match r {
            Some(x) => point_fits(data@, a@, day@) && computed(data@, a@, day@) == Some(x@),
            None => !point_fits(data@, a@, day@),
        },
{
    match query::account_balances(data, day) {
        Ok(balances) => subtree_balance(&balances, a.account.as_str(), a.currency),
        Err(_) => None,
    }
}

/// Are the balances the assertions are compared with within range?
pub fn is_checkable(data: &LedgerData, assertions: &Vec<BalanceAssertion>) -> (r: bool)
    requires
        dated(assertion::views(assertions@)),
    ensures
        r == checkable(data@, assertion::views(assertions@)),
{
    let ghost all = assertion::views(assertions@);
    let end = Date::from_number(date::MAX_DAY).unwrap();
    if !data.fits(end) {
        return false;
    }
    let mut i: usize = 0;
    while i < assertions.len()
        invariant
            i <= assertions@.len(),
            all == assertion::views(assertions@),
            dated(all),
            query::fits(data@, date::MAX_DAY as int),
            forall|n: int, j: int|
                0 <= n < i && 0 <= j < assertion::points(#[trigger] all[n]).len() ==> point_fits(
                    data@,
                    all[n],
                    (#[trigger] assertion::points(all[n])[j]).0,
                ),
        decreases assertions@.len() - i,
    {
        let a = &assertions[i];
        assert(all[i as int] == a@);
        let points = a.points();
        let ghost ps = assertion::points(a@);
        let mut k: usize = 0;
        while k < points.len()
            invariant
                k <= points@.len(),
                i < all.len(),
                all == assertion::views(assertions@),
                all[i as int] == a@,
                ps == assertion::points(a@),
                ps == assertion::point_views(points@),
                forall|j: int| 0 <= j < k ==> point_fits(data@, a@, (#[trigger] ps[j]).0),
            decreases points@.len() - k,
        {
            assert(ps[k as int] == (points@[k as int].0@, points@[k as int].1@));
            if computed_at(data, a, points[k].0).is_none() {
                assert(!point_fits(data@, all[i as int], assertion::points(all[i as int])[k as int].0));
                return false;
            }
            k = k + 1;
        }
        i = i + 1;
    }
    true
}

/// The figures of an assertion the postings disagree with.
fn failed_of(data: &LedgerData, a: &BalanceAssertion) -> (r: (usize, Vec<Mismatch>))
    requires
        assertion::opens_after_first_day(a@),
        forall|j: int|
            0 <= j < assertion::points(a@).len() ==> point_fits(
                data@,
                a@,
                (#[trigger] assertion::points(a@)[j]).0,
            ),
    ensures
        r.0 == assertion::points(a@).len() <= 2,
        mismatch_views(r.1@) == failed(data@, a@),
        r.1@.len() <= r.0,
{
    let points = a.points();
    let ghost ps = assertion::points(a@);
    let mut out: Vec<Mismatch> = Vec::new();
    let mut k: usize = 0;
    assert(mismatch_views(out@) =~= Seq::empty());
    while k < points.len()
        invariant
            k <= points@.len(),
            ps == assertion::points(a@),
            ps == assertion::point_views(points@),
            forall|j: int| 0 <= j < ps.len() ==> point_fits(data@, a@, (#[trigger] ps[j]).0),
            mismatch_views(out@) == failures(data@, a@, k as int),
            out@.len() <= k,
        decreases points@.len() - k,
    {
        let (as_of, expected) = points[k];
        let ghost before = out@;
        assert(ps[k as int] == (as_of@, expected@));
        let found = computed_at(data, a, as_of).unwrap();
        if !found.equals(&expected) {
            let m = Mismatch {
                figure: Figure::Balance(a.copy()),
                as_of,
                expected,
                computed: found,
            };
            out.push(m);
            assert(mismatch_views(out@) =~= mismatch_views(before).push(m@));
        }
        k = k + 1;
    }
    assert(ps.len() == points@.len());
    (points.len(), out)
}

/// Notes figures of one more assertion on `account`.
fn note(
    accounts: &mut Vec<(Key, AccountSummary)>,
    account: &str,
    checked: usize,
    failed: usize,
    through: Date,
    Ghost(room): Ghost<int>,
)
    requires
        failed <= checked,
        0 <= room,
        room + checked <= usize::MAX,
        within_room(keyed::entries(old(accounts)@), room),
    ensures
        keyed::entries(final(accounts)@) == noted(
            keyed::entries(old(accounts)@),
            account@,
            checked as int,
            failed as int,
            through@,
        ),
        within_room(keyed::entries(final(accounts)@), room + checked),
{
    let ghost m = keyed::entries(accounts@);
    let key = Key::of_text(account);
    let was: AccountSummary = match keyed::look(accounts, &key) {
        Some(s) => *s,
        None => AccountSummary { checked: 0, failed: 0, vouched_through: None },
    };
    proof {
        found_is_held(m, key@);
    }
    let s = AccountSummary {
        checked: was.checked + checked,
        failed: was.failed + failed,
        vouched_through: later_of(was.vouched_through, through),
    };
    let ghost k = key@;
    keyed::set(accounts, key, s);
    proof {
        put_within_room(m, k, s@, room, room + checked);
    }
}

/// Has no account failed more figures than it has, or more than `room`?
pub open spec fn within_room(m: Seq<(KeyV, SummaryV)>, room: int) -> bool {
    forall|i: int|
        0 <= i < m.len() ==> 0 <= (#[trigger] m[i]).1.failed <= m[i].1.checked <= room
}

proof fn found_is_held(m: Seq<(KeyV, SummaryV)>, k: KeyV)
    ensures
        keyed::get(m, k) matches Some(s) ==> exists|i: int| 0 <= i < m.len() && #[trigger] m[i] == (
            k,
            s,
        ),
{
    if keyed::get(m, k) is Some {
        let i = keyed::slot(m, k, 0);
        assert(m[i] == (k, keyed::get(m, k)->0));
    }
}

proof fn put_within_room(m: Seq<(KeyV, SummaryV)>, k: KeyV, s: SummaryV, room: int, more: int)
    requires
        within_room(m, room),
        room <= more,
        0 <= s.failed <= s.checked <= more,
    ensures
        within_room(keyed::put(m, k, s), more),
{
    let i = keyed::slot(m, k, 0);
    keyed::slot_bounds(m, k, 0);
    let after = keyed::put(m, k, s);
    assert forall|j: int| 0 <= j < after.len() implies 0 <= (#[trigger] after[j]).1.failed
        <= after[j].1.checked <= more by {
        if i < m.len() && m[i].0 == k {
            if j != i {
                assert(after[j] == m[j]);
            }
        } else if j < i {
            assert(after[j] == m[j]);
        } else if j > i {
            assert(after[j] == m[j - 1]);
        }
    }
}

/// The newest date an assertion vouches for a balance.
fn vouched_through(assertions: &Vec<BalanceAssertion>, path: &str, currency: Currency) -> (r:
    Option<Date>)
    ensures
        date::opt(r) == vouched(assertion::views(assertions@), path@, currency),
{
    let ghost all = assertion::views(assertions@);
    let mut out: Option<Date> = None;
    let mut i: usize = 0;
    while i < assertions.len()
        invariant
            i <= assertions@.len(),
            all == assertion::views(assertions@),
            date::opt(out) == vouched(all.take(i as int), path@, currency),
        decreases assertions@.len() - i,
    {
        let a = &assertions[i];
        assert(all[i as int] == a@);
        assert(all.take(i as int + 1).drop_last() =~= all.take(i as int));
        if a.currency == currency && accounts::in_subtree(path, a.account.as_str()) {
            out = later_of(out, a.period_end);
        }
        i = i + 1;
    }
    assert(all.take(i as int) =~= all);
    out
}

/// The asset and liability balances no assertion covers through their newest
/// posting.
fn unvouched_of(data: &LedgerData, assertions: &Vec<BalanceAssertion>) -> (r: Vec<Unchecked>)
    requires
        query::fits(data@, date::MAX_DAY as int),
    ensures
        unchecked_views(r@) == unvouched(
            data@,
            assertion::views(assertions@),
            query::balances(data@, date::MAX_DAY as int),
        ),
{
    let end = Date::from_number(date::MAX_DAY).unwrap();
    let balances = data.balances_as_of(end);
    let ghost all = assertion::views(assertions@);
    let ghost bs = query::balances(data@, date::MAX_DAY as int);
    proof {
        query::balances_are_posted(data@, date::MAX_DAY as int);
    }
    let mut out: Vec<Unchecked> = Vec::new();
    let mut i: usize = 0;
    assert(unchecked_views(out@) =~= Seq::empty());
    while i < balances.len()
        invariant
            i <= balances@.len(),
            all == assertion::views(assertions@),
            bs == query::balance_views(balances@),
            forall|k: int|
                0 <= k < bs.len() ==> query::last_posting(
                    data@.postings,
                    (#[trigger] bs[k]).account_id,
                    bs[k].currency,
                ) is Some,
            unchecked_views(out@) == unvouched(data@, all, bs.take(i as int)),
        decreases balances@.len() - i,
    {
        let b = &balances[i];
        let ghost before = out@;
        assert(bs[i as int] == b@);
        assert(bs.take(i as int + 1).drop_last() =~= bs.take(i as int));
        if b.account_type.is_on_balance_sheet() {
            let posted_through = data.last_posting(b.account_id, b.currency).unwrap();
            let vouched = vouched_through(assertions, b.path.as_str(), b.currency);
            let held = match vouched {
                Some(day) => day.number() >= posted_through.number(),
                None => false,
            };
            if !held {
                let u = Unchecked {
                    account: text::copy(b.path.as_str()),
                    currency: b.currency,
                    vouched_through: vouched,
                    posted_through,
                };
                out.push(u);
                assert(unchecked_views(out@) =~= unchecked_views(before).push(u@));
            }
        }
        i = i + 1;
    }
    assert(bs.take(i as int) =~= bs);
    out
}

/// Moves everything in `from` behind what `to` holds.
fn extend(to: &mut Vec<Mismatch>, from: Vec<Mismatch>)
    ensures
        mismatch_views(final(to)@) == mismatch_views(old(to)@) + mismatch_views(from@),
        final(to)@.len() == old(to)@.len() + from@.len(),
{
    let ghost all = from@;
    let ghost before = to@;
    let mut rest = from;
    let ghost mut n: int = 0;
    assert(rest@ =~= all.skip(0));
    assert(to@ =~= before + all.take(0));
    while rest.len() > 0
        invariant
            0 <= n <= all.len(),
            rest@ == all.skip(n),
            to@ == before + all.take(n),
        decreases rest@.len(),
    {
        let m = rest.remove(0);
        to.push(m);
        assert(rest@ =~= all.skip(n + 1));
        assert(to@ =~= before + all.take(n + 1));
        proof {
            n = n + 1;
        }
    }
    assert(all.take(n) =~= all);
    assert(mismatch_views(to@) =~= mismatch_views(before) + mismatch_views(all));
}

/// How the ledger fares against the balance assertions: the pure part of
/// [`check`].
pub fn check_data(data: &LedgerData, assertions: &Vec<BalanceAssertion>) -> (r: CheckReport)
    requires
        dated(assertion::views(assertions@)),
        checkable(data@, assertion::views(assertions@)),
        2 * assertions@.len() <= usize::MAX,
    ensures
        r@ == checked(data@, assertion::views(assertions@)),
        within_room(r@.accounts, 2 * assertions@.len() as int),
{
    let ghost all = assertion::views(assertions@);
    let mut accounts: Vec<(Key, AccountSummary)> = Vec::new();
    let mut mismatches: Vec<Mismatch> = Vec::new();
    let mut i: usize = 0;
    assert(keyed::entries(accounts@) =~= Seq::empty());
    assert(mismatch_views(mismatches@) =~= Seq::empty());
    while i < assertions.len()
        invariant
            i <= assertions@.len(),
            2 * assertions@.len() <= usize::MAX,
            all == assertion::views(assertions@),
            dated(all),
            checkable(data@, all),
            keyed::entries(accounts@) == held_to(data@, all.take(i as int)).0,
            mismatch_views(mismatches@) == held_to(data@, all.take(i as int)).1,
            within_room(keyed::entries(accounts@), 2 * i as int),
        decreases assertions@.len() - i,
    {
        let a = &assertions[i];
        assert(all[i as int] == a@);
        assert(all.take(i as int + 1).drop_last() =~= all.take(i as int));
        assert forall|j: int| 0 <= j < assertion::points(a@).len() implies point_fits(
            data@,
            a@,
            (#[trigger] assertion::points(a@)[j]).0,
        ) by {
            assert(point_fits(data@, all[i as int], assertion::points(all[i as int])[j].0));
        }
        let (points, failed) = failed_of(data, a);
        assert(mismatch_views(failed@).len() == failed@.len());
        note(
            &mut accounts,
            a.account.as_str(),
            points,
            failed.len(),
            a.period_end,
            Ghost(2 * i as int),
        );
        extend(&mut mismatches, failed);
        i = i + 1;
    }
    assert(all.take(i as int) =~= all);
    let unchecked = unvouched_of(data, assertions);
    let uncounted: Vec<(String, Currency)> = Vec::new();
    assert(uncounted_views(uncounted@) =~= Seq::empty());
    CheckReport { accounts, mismatches, unchecked, uncounted }
}

/// A record of the sub-ledger and the account it belongs to.
#[derive(Debug)]
pub struct AccountRecord {
    pub account: String,
    pub record: BrokerRecord,
}

pub struct AccountRecordV {
    pub account: Seq<char>,
    pub record: RecordV,
}

impl View for AccountRecord {
    type V = AccountRecordV;

    open spec fn view(&self) -> AccountRecordV {
        AccountRecordV { account: self.account@, record: self.record@ }
    }
}

pub open spec fn record_views(v: Seq<AccountRecord>) -> Seq<AccountRecordV> {
    v.map_values(|r: AccountRecord| r@)
}

/// The records by the day they settled, those of one day as they stood.
pub open spec fn settled(rs: Seq<AccountRecordV>) -> Seq<AccountRecordV> {
    sort::arranged(
        rs,
        sort::order(
            rs.map_values(|r: AccountRecordV| query::id_key(r.record.settle_date)),
        ),
    )
}

/// What the records of an account settled through a day add to a commodity.
pub open spec fn replay(
    rs: Seq<AccountRecordV>,
    account: Seq<char>,
    c: CommodityV,
    as_of: int,
) -> Seq<Dec>
    decreases rs.len(),
{
    if rs.len() == 0 {
        Seq::empty()
    } else {
        let rest = replay(rs.drop_last(), account, c, as_of);
        let r = rs.last();
        if r.account == account && r.record.settle_date <= as_of {
            rest + broker::changes(r.record, c)
        } else {
            rest
        }
    }
}

/// What the records say an account held at the end of a day.
pub open spec fn replayed(rs: Seq<AccountRecordV>, h: HoldingV) -> Option<Dec> {
    amount::total(replay(settled(rs), h.account, h.commodity, h.as_of))
}

/// The holding figures in the order they are compared: by account, then by
/// day.
pub open spec fn in_turn(hs: Seq<HoldingV>) -> Seq<HoldingV> {
    sort::arranged(hs, sort::order(hs.map_values(|h: HoldingV| turn_key(h))))
}

pub open spec fn turn_key(h: HoldingV) -> KeyV {
    KeyV { text: h.account, numbers: (h.as_of, 0, 0, 0) }
}

/// The summaries and mismatches with the holding figures compared too. They
/// are folded into the same per-account summary as balance figures.
pub open spec fn compared(
    r: ReportV,
    rs: Seq<AccountRecordV>,
    hs: Seq<HoldingV>,
) -> ReportV
    decreases hs.len(),
{
    if hs.len() == 0 {
        r
    } else {
        let before = compared(r, rs, hs.drop_last());
        let h = hs.last();
        let found = replayed(rs, h)->0;
        let same = amount::equal(found, h.quantity);
        ReportV {
            accounts: noted(
                before.accounts,
                h.account,
                1,
                if same {
                    0
                } else {
                    1
                },
                h.as_of,
            ),
            mismatches: if same {
                before.mismatches
            } else {
                before.mismatches.push(
                    MismatchV {
                        figure: FigureV::Holding(h),
                        as_of: h.as_of,
                        expected: h.quantity,
                        computed: found,
                    },
                )
            },
            ..before
        }
    }
}

/// Are the balances the holding figures are compared with within range?
pub open spec fn replayable(rs: Seq<AccountRecordV>, hs: Seq<HoldingV>) -> bool {
    forall|i: int| 0 <= i < hs.len() ==> replayed(rs, #[trigger] hs[i]) is Some
}

/// The order the records settled in.
fn settled_order(records: &Vec<AccountRecord>) -> (r: Vec<usize>)
    ensures
        r@.len() == records@.len(),
        forall|i: int| 0 <= i < r@.len() ==> #[trigger] r@[i] < records@.len(),
        settled(record_views(records@)) == sort::places(r@).map_values(
            |i: int| record_views(records@)[i],
        ),
{
    let ghost rs = record_views(records@);
    let mut keys: Vec<Key> = Vec::new();
    let mut i: usize = 0;
    while i < records.len()
        invariant
            i <= records@.len(),
            i == keys@.len(),
            rs == record_views(records@),
            forall|k: int|
                0 <= k < i ==> (#[trigger] keys@[k])@ == query::id_key(rs[k].record.settle_date),
        decreases records@.len() - i,
    {
        assert(rs[i as int] == records@[i as int]@);
        keys.push(query::key_of_id(records[i].record.settle_date.number() as i64));
        i = i + 1;
    }
    assert(sort::key_views(keys@) =~= rs.map_values(
        |r: AccountRecordV| query::id_key(r.record.settle_date),
    ));
    sort::order_of(keys)
}

/// What the records say an account held, if it is within range.
fn replayed_of(records: &Vec<AccountRecord>, by: &Vec<usize>, h: &HoldingAssertion) -> (r: Option<
    Amount,
>)
    requires
        forall|i: int| 0 <= i < by@.len() ==> #[trigger] by@[i] < records@.len(),
        settled(record_views(records@)) == sort::places(by@).map_values(
            |i: int| record_views(records@)[i],
        ),
    ensures
        amount::opt(r) == replayed(record_views(records@), h@),
{
    let ghost rs = settled(record_views(records@));
    let ghost whole = replay(rs, h@.account, h@.commodity, h@.as_of);
    let mut sum = Amount::zero();
    let mut i: usize = 0;
    while i < by.len()
        invariant
            i <= by@.len() == rs.len(),
            rs == settled(record_views(records@)),
            rs == sort::places(by@).map_values(|i: int| record_views(records@)[i]),
            whole == replay(rs, h@.account, h@.commodity, h@.as_of),
            forall|k: int| 0 <= k < by@.len() ==> #[trigger] by@[k] < records@.len(),
            amount::total(replay(rs.take(i as int), h@.account, h@.commodity, h@.as_of)) == Some(
                sum@,
            ),
        decreases by@.len() - i,
    {
        let r = &records[by[i]];
        assert(rs[i as int] == r@);
        assert(rs.take(i as int + 1).drop_last() =~= rs.take(i as int));
        if text::same_text(r.account.as_str(), h.account.as_str())
            && r.record.settle_date.number() <= h.as_of.number() {
            let more = r.record.changes(&h.commodity);
            let ghost before = replay(rs.take(i as int), h@.account, h@.commodity, h@.as_of);
            let ghost added = more@.map_values(|a: Amount| a@);
            let mut k: usize = 0;
            assert(before + added.take(0) =~= before);
            while k < more.len()
                invariant
                    k <= more@.len(),
                    i < rs.len(),
                    added == more@.map_values(|a: Amount| a@),
                    whole == replay(rs, h@.account, h@.commodity, h@.as_of),
                    rs == settled(record_views(records@)),
                    replay(rs.take(i as int + 1), h@.account, h@.commodity, h@.as_of) == before
                        + added,
                    amount::total(before + added.take(k as int)) == Some(sum@),
                decreases more@.len() - k,
            {
                assert(added[k as int] == more@[k as int]@);
                assert((before + added.take(k as int + 1)).drop_last() =~= before + added.take(
                    k as int,
                ));
                match sum.plus(&more[k]) {
                    Some(s) => {
                        sum = s;
                    },
                    None => {
                        proof {
                            replay_grows(rs, h@.account, h@.commodity, h@.as_of, i as int + 1);
                            let n = before.len() + k + 1;
                            assert(whole.take(n as int) =~= before + added.take(k as int + 1));
                            amount::total_stays_out(whole, n as int);
                        }
                        return None;
                    },
                }
                k = k + 1;
            }
            assert(added.take(k as int) =~= added);
        }
        i = i + 1;
    }
    assert(rs.take(i as int) =~= rs);
    Some(sum)
}

proof fn replay_grows(rs: Seq<AccountRecordV>, account: Seq<char>, c: CommodityV, as_of: int, n: int)
    requires
        0 <= n <= rs.len(),
    ensures
        replay(rs.take(n), account, c, as_of).len() <= replay(rs, account, c, as_of).len(),
        replay(rs, account, c, as_of).take(replay(rs.take(n), account, c, as_of).len() as int)
            == replay(rs.take(n), account, c, as_of),
    decreases rs.len(),
{
    if n < rs.len() {
        let shorter = rs.drop_last();
        replay_grows(shorter, account, c, as_of, n);
        assert(shorter.take(n) =~= rs.take(n));
        let part = replay(rs.take(n), account, c, as_of);
        assert(replay(rs, account, c, as_of).take(part.len() as int) =~= replay(
            shorter,
            account,
            c,
            as_of,
        ).take(part.len() as int));
    } else {
        assert(rs.take(n) =~= rs);
        let all = replay(rs, account, c, as_of);
        assert(all.take(all.len() as int) =~= all);
    }
}

/// Are the balances the holding figures are compared with within range?
pub fn is_replayable(records: &Vec<AccountRecord>, holdings: &Vec<HoldingAssertion>) -> (r: bool)
    ensures
        r == replayable(record_views(records@), holdings::views(holdings@)),
{
    let by = settled_order(records);
    let ghost hs = holdings::views(holdings@);
    let mut i: usize = 0;
    while i < holdings.len()
        invariant
            i <= holdings@.len(),
            hs == holdings::views(holdings@),
            forall|k: int| 0 <= k < by@.len() ==> #[trigger] by@[k] < records@.len(),
            settled(record_views(records@)) == sort::places(by@).map_values(
                |i: int| record_views(records@)[i],
            ),
            forall|k: int|
                0 <= k < i ==> replayed(record_views(records@), #[trigger] hs[k]) is Some,
        decreases holdings@.len() - i,
    {
        assert(hs[i as int] == holdings@[i as int]@);
        if replayed_of(records, &by, &holdings[i]).is_none() {
            return false;
        }
        i = i + 1;
    }
    true
}

/// Compares each holding figure with the replay of its account's broker
/// records through that day: the pure part of [`check`] for holdings.
pub fn check_holdings(
    report: &mut CheckReport,
    records: &Vec<AccountRecord>,
    holdings: &Vec<HoldingAssertion>,
)
    requires
        replayable(record_views(records@), holdings::views(holdings@)),
        within_room(old(report)@.accounts, usize::MAX - holdings@.len()),
    ensures
        final(report)@ == compared(
            old(report)@,
            record_views(records@),
            in_turn(holdings::views(holdings@)),
        ),
{
    let ghost start = report@;
    let ghost rs = record_views(records@);
    let ghost hs = holdings::views(holdings@);
    let ghost turns = in_turn(hs);
    let by = settled_order(records);
    let mut keys: Vec<Key> = Vec::new();
    let mut n: usize = 0;
    while n < holdings.len()
        invariant
            n <= holdings@.len(),
            n == keys@.len(),
            hs == holdings::views(holdings@),
            forall|k: int| 0 <= k < n ==> (#[trigger] keys@[k])@ == turn_key(hs[k]),
        decreases holdings@.len() - n,
    {
        let h = &holdings[n];
        assert(hs[n as int] == h@);
        keys.push(
            Key {
                text: text::copy(h.account.as_str()),
                numbers: (h.as_of.number() as i64, 0, 0, 0),
            },
        );
        n = n + 1;
    }
    assert(sort::key_views(keys@) =~= hs.map_values(|h: HoldingV| turn_key(h)));
    let order = sort::order_of(keys);
    assert(turns =~= sort::places(order@).map_values(|i: int| hs[i]));
    let ghost room: int = usize::MAX - holdings@.len();
    assert(holdings@.len() == n);
    let mut i: usize = 0;
    assert(turns.take(0) =~= Seq::empty());
    while i < order.len()
        invariant
            i <= order@.len() == turns.len(),
            order@.len() == holdings@.len(),
            hs == holdings::views(holdings@),
            rs == record_views(records@),
            replayable(rs, hs),
            turns == sort::places(order@).map_values(|i: int| hs[i]),
            forall|k: int| 0 <= k < order@.len() ==> #[trigger] order@[k] < holdings@.len(),
            forall|k: int| 0 <= k < by@.len() ==> #[trigger] by@[k] < records@.len(),
            settled(rs) == sort::places(by@).map_values(|i: int| rs[i]),
            room == usize::MAX - holdings@.len(),
            0 <= room,
            within_room(report@.accounts, room + i),
            report@ == compared(start, rs, turns.take(i as int)),
        decreases order@.len() - i,
    {
        let h = &holdings[order[i]];
        assert(turns[i as int] == h@);
        assert(hs[order@[i as int] as int] == h@);
        assert(turns.take(i as int + 1).drop_last() =~= turns.take(i as int));
        let ghost before = report@;
        let found = replayed_of(records, &by, h).unwrap();
        let same = found.equals(&h.quantity);
        let ghost listed = report.mismatches@;
        note(
            &mut report.accounts,
            h.account.as_str(),
            1,
            if same {
                0
            } else {
                1
            },
            h.as_of,
            Ghost(room + i),
        );
        if !same {
            let m = Mismatch {
                figure: Figure::Holding(h.copy()),
                as_of: h.as_of,
                expected: h.quantity,
                computed: found,
            };
            report.mismatches.push(m);
            assert(mismatch_views(report.mismatches@) =~= mismatch_views(listed).push(m@));
        }
        i = i + 1;
        assert(report@ =~= compared(start, rs, turns.take(i as int)));
    }
    assert(turns.take(i as int) =~= turns);
}

/// Does a count cover a balance?
pub open spec fn is_counted(all: Seq<AssertionV>, b: BalanceV) -> bool {
    exists|i: int|
        0 <= i < all.len() && (#[trigger] all[i]).source == AssertionSource::Counted
            && all[i].currency == b.currency && accounts::within(b.path, all[i].account)
}

/// Balances under a `[counted]` root that no counted assertion covers.
pub open spec fn never_counted(
    all: Seq<AssertionV>,
    roots: Seq<Seq<char>>,
    bs: Seq<BalanceV>,
) -> Seq<(Seq<char>, Currency)>
    decreases bs.len(),
{
    if bs.len() == 0 {
        Seq::empty()
    } else {
        let rest = never_counted(all, roots, bs.drop_last());
        let b = bs.last();
        if accounts::under_any(b.path, roots) && !is_counted(all, b) {
            rest.push((b.path, b.currency))
        } else {
            rest
        }
    }
}

fn has_count(assertions: &Vec<BalanceAssertion>, b: &AccountBalance) -> (r: bool)
    ensures
        r == is_counted(assertion::views(assertions@), b@),
{
    let ghost all = assertion::views(assertions@);
    let mut i: usize = 0;
    while i < assertions.len()
        invariant
            i <= assertions@.len(),
            all == assertion::views(assertions@),
            forall|k: int|
                0 <= k < i ==> !((#[trigger] all[k]).source == AssertionSource::Counted
                    && all[k].currency == b@.currency && accounts::within(b@.path, all[k].account)),
        decreases assertions@.len() - i,
    {
        let a = &assertions[i];
        assert(all[i as int] == a@);
        if a.source == AssertionSource::Counted && a.currency == b.currency
            && accounts::in_subtree(b.path.as_str(), a.account.as_str()) {
            return true;
        }
        i = i + 1;
    }
    false
}

/// Balances under a `[counted]` root that no counted assertion covers.
pub fn uncounted(data: &LedgerData, assertions: &Vec<BalanceAssertion>, chart: &Chart) -> (r: Vec<
    (String, Currency),
>)
    requires
        query::fits(data@, date::MAX_DAY as int),
    ensures
        uncounted_views(r@) == never_counted(
            assertion::views(assertions@),
            text::texts(chart.counted@),
            query::balances(data@, date::MAX_DAY as int),
        ),
{
    let end = Date::from_number(date::MAX_DAY).unwrap();
    let balances = data.balances_as_of(end);
    let ghost all = assertion::views(assertions@);
    let ghost roots = text::texts(chart.counted@);
    let ghost bs = query::balances(data@, date::MAX_DAY as int);
    let mut out: Vec<(String, Currency)> = Vec::new();
    let mut i: usize = 0;
    assert(uncounted_views(out@) =~= Seq::empty());
    while i < balances.len()
        invariant
            i <= balances@.len(),
            all == assertion::views(assertions@),
            roots == text::texts(chart.counted@),
            bs == query::balance_views(balances@),
            uncounted_views(out@) == never_counted(all, roots, bs.take(i as int)),
        decreases balances@.len() - i,
    {
        let b = &balances[i];
        let ghost before = out@;
        assert(bs[i as int] == b@);
        assert(bs.take(i as int + 1).drop_last() =~= bs.take(i as int));
        if chart.is_counted(b.path.as_str()) && !has_count(assertions, b) {
            out.push((text::copy(b.path.as_str()), b.currency));
            assert(uncounted_views(out@) =~= uncounted_views(before).push((b@.path, b@.currency)));
        }
        i = i + 1;
    }
    assert(bs.take(i as int) =~= bs);
    out
}

/// How the ledger fares against everything that vouches for it.
pub open spec fn full_check(
    d: DataV,
    all: Seq<AssertionV>,
    rs: Seq<AccountRecordV>,
    hs: Seq<HoldingV>,
    roots: Option<Seq<Seq<char>>>,
) -> ReportV {
    let r = compared(checked(d, all), rs, in_turn(hs));
    match roots {
        Some(roots) => ReportV {
            uncounted: never_counted(all, roots, query::balances(d, date::MAX_DAY as int)),
            ..r
        },
        None => r,
    }
}

/// Is everything the ledger is compared with within range?
pub open spec fn comparable(
    d: DataV,
    all: Seq<AssertionV>,
    rs: Seq<AccountRecordV>,
    hs: Seq<HoldingV>,
) -> bool {
    checkable(d, all) && replayable(rs, hs)
}

/// Checks every recorded assertion against the postings and broker records.
pub fn check(
    data: &LedgerData,
    assertions: &Vec<BalanceAssertion>,
    records: &Vec<AccountRecord>,
    holdings: &Vec<HoldingAssertion>,
) -> (r: Result<CheckReport, Refusal>)
    requires
        dated(assertion::views(assertions@)),
        2 * assertions@.len() + holdings@.len() <= usize::MAX,
    ensures
        match r {
            Ok(report) => comparable(
                data@,
                assertion::views(assertions@),
                record_views(records@),
                holdings::views(holdings@),
            ) && report@ == full_check(
                data@,
                assertion::views(assertions@),
                record_views(records@),
                holdings::views(holdings@),
                None,
            ),
            Err(e) => !comparable(
                data@,
                assertion::views(assertions@),
                record_views(records@),
                holdings::views(holdings@),
            ) && e@ == refusal::out_of_range(),
        },
{
    if !is_checkable(data, assertions) || !is_replayable(records, holdings) {
        return Err(Refusal::out_of_range());
    }
    let mut report = check_data(data, assertions);
    check_holdings(&mut report, records, holdings);
    Ok(report)
}

/// [`check`], also listing the counted accounts no count vouches for yet.
pub fn with_counts(
    data: &LedgerData,
    assertions: &Vec<BalanceAssertion>,
    records: &Vec<AccountRecord>,
    holdings: &Vec<HoldingAssertion>,
    chart: &Chart,
) -> (r: Result<CheckReport, Refusal>)
    requires
        dated(assertion::views(assertions@)),
        2 * assertions@.len() + holdings@.len() <= usize::MAX,
    ensures
        match r {
            Ok(report) => comparable(
                data@,
                assertion::views(assertions@),
                record_views(records@),
                holdings::views(holdings@),
            ) && report@ == full_check(
                data@,
                assertion::views(assertions@),
                record_views(records@),
                holdings::views(holdings@),
                Some(text::texts(chart.counted@)),
            ),
            Err(e) => !comparable(
                data@,
                assertion::views(assertions@),
                record_views(records@),
                holdings::views(holdings@),
            ) && e@ == refusal::out_of_range(),
        },
{
    match check(data, assertions, records, holdings) {
        Ok(mut report) => {
            report.uncounted = uncounted(data, assertions, chart);
            Ok(report)
        },
        Err(e) => Err(e),
    }
}

/// How many figures were checked.
pub open spec fn figures(m: Seq<(KeyV, SummaryV)>) -> int
    decreases m.len(),
{
    if m.len() == 0 {
        0
    } else {
        figures(m.drop_last()) + m.last().1.checked
    }
}

/// Does the ledger pass? Green only when something vouched for the ledger and
/// every figure it vouched for matched: with no assertions at all there is
/// nothing to drift against, which is a failure, not a pass.
pub open spec fn passes(r: ReportV) -> bool {
    r.mismatches.len() == 0 && figures(r.accounts) > 0
}

/// How far a mismatch is off.
pub open spec fn off_by(m: MismatchV) -> Option<Dec> {
    amount::difference(m.computed, m.expected)
}

/// Is how far a mismatch is off within what a decimal can be?
pub open spec fn off_in_range(m: MismatchV) -> bool {
    amount::in_range(amount::worth(m.computed) - amount::worth(m.expected))
}

/// How a figure is named in a message.
pub open spec fn figure_text(f: FigureV) -> Seq<char> {
    match f {
        FigureV::Balance(a) => assertion::named(a),
        FigureV::Holding(h) => holdings::named(h),
    }
}

/// How a mismatch reads.
pub open spec fn mismatch_text(m: MismatchV) -> Seq<char> {
    "MISMATCH "@ + figure_text(m.figure) + ": at end of "@ + date::printed(m.as_of) + " expected "@
        + amount::printed(m.expected) + ", "@ + (match m.figure {
        FigureV::Balance(_) => "postings"@,
        FigureV::Holding(_) => "broker records"@,
    }) + " sum to "@ + amount::printed(m.computed) + " (off by "@ + amount::printed(off_by(m)->0)
        + ")"@
}

/// How an unchecked balance reads.
pub open spec fn unchecked_text(u: UncheckedV) -> Seq<char> {
    u.account + " "@ + currency::code(u.currency) + " ("@ + (match u.vouched_through {
        Some(day) => "vouched through "@ + date::printed(day) + ", "@,
        None => "never vouched for, "@,
    }) + "posted through "@ + date::printed(u.posted_through) + ")"@
}

/// How an uncounted balance reads.
pub open spec fn uncounted_text(e: (Seq<char>, Currency)) -> Seq<char> {
    e.0 + " "@ + currency::code(e.1)
}

/// How an account's summary reads.
pub open spec fn summary_text(account: Seq<char>, s: SummaryV) -> Seq<char> {
    "  "@ + (if s.failed == 0 {
        "ok  "@
    } else {
        "FAIL"@
    }) + " "@ + account + ": "@ + text::digits((s.checked - s.failed) as nat) + "/"@
        + text::digits(s.checked as nat) + " through "@ + (match s.vouched_through {
        Some(day) => date::printed(day),
        None => Seq::empty(),
    }) + "\n"@
}

pub open spec fn summary_lines(m: Seq<(KeyV, SummaryV)>) -> Seq<char>
    decreases m.len(),
{
    if m.len() == 0 {
        Seq::empty()
    } else {
        summary_lines(m.drop_last()) + summary_text(m.last().0.text, m.last().1)
    }
}

pub open spec fn mismatch_lines(m: Seq<MismatchV>) -> Seq<char>
    decreases m.len(),
{
    if m.len() == 0 {
        Seq::empty()
    } else {
        mismatch_lines(m.drop_last()) + "  "@ + mismatch_text(m.last()) + "\n"@
    }
}

pub open spec fn head_text(r: ReportV) -> Seq<char> {
    if figures(r.accounts) == 0 {
        "check: no balance figures — nothing vouches for this ledger\n"@
    } else {
        "check: "@ + text::digits(figures(r.accounts) as nat) + " balance figures over "@
            + text::digits(r.accounts.len()) + " accounts, "@ + text::digits(r.mismatches.len())
            + " failed\n"@
    }
}

pub open spec fn unchecked_line(v: Seq<UncheckedV>) -> Seq<char> {
    if v.len() == 0 {
        Seq::empty()
    } else {
        "unvouched through their newest posting: "@ + text::joined(
            v.map_values(|u: UncheckedV| unchecked_text(u)),
            ", "@,
        ) + "\n"@
    }
}

pub open spec fn uncounted_line(v: Seq<(Seq<char>, Currency)>) -> Seq<char> {
    if v.len() == 0 {
        Seq::empty()
    } else {
        "never counted (add one with `count`): "@ + text::joined(
            v.map_values(|e: (Seq<char>, Currency)| uncounted_text(e)),
            ", "@,
        ) + "\n"@
    }
}

/// How a report reads.
pub open spec fn report_text(r: ReportV) -> Seq<char> {
    head_text(r) + summary_lines(r.accounts) + mismatch_lines(r.mismatches) + unchecked_line(
        r.unchecked,
    ) + uncounted_line(r.uncounted)
}

/// Can a report be printed: do its numbers fit their types?
pub open spec fn printable(r: ReportV) -> bool {
    &&& figures(r.accounts) <= usize::MAX
    &&& forall|i: int|
        0 <= i < r.accounts.len() ==> (#[trigger] r.accounts[i]).1.failed <= r.accounts[i].1.checked
    &&& forall|i: int| 0 <= i < r.mismatches.len() ==> off_in_range(#[trigger] r.mismatches[i])
}

impl Figure {
    /// How the figure is named in a message.
    pub fn text(&self) -> (r: String)
        ensures
            r@ == figure_text(self@),
    {
        match self {
            Figure::Balance(a) => a.text(),
            Figure::Holding(h) => h.text(),
        }
    }
}

impl Mismatch {
    pub fn text(&self) -> (r: String)
        requires
            off_in_range(self@),
        ensures
            r@ == mismatch_text(self@),
    {
        let mut out = text::copy("MISMATCH ");
        out.append(self.figure.text().as_str());
        out.append(": at end of ");
        out.append(self.as_of.text().as_str());
        out.append(" expected ");
        out.append(self.expected.text().as_str());
        out.append(", ");
        out.append(
            match &self.figure {
                Figure::Balance(_) => "postings",
                Figure::Holding(_) => "broker records",
            },
        );
        out.append(" sum to ");
        out.append(self.computed.text().as_str());
        out.append(" (off by ");
        out.append(self.computed.minus(&self.expected).unwrap().text().as_str());
        out.append(")");
        assert(out@ =~= mismatch_text(self@));
        out
    }
}

impl Unchecked {
    pub fn text(&self) -> (r: String)
        ensures
            r@ == unchecked_text(self@),
    {
        let mut out = text::copy(self.account.as_str());
        out.append(" ");
        out.append(self.currency.text().as_str());
        out.append(" (");
        match self.vouched_through {
            Some(date) => {
                out.append("vouched through ");
                out.append(date.text().as_str());
                out.append(", ");
            },
            None => {
                out.append("never vouched for, ");
            },
        }
        out.append("posted through ");
        out.append(self.posted_through.text().as_str());
        out.append(")");
        assert(out@ =~= unchecked_text(self@));
        out
    }
}

proof fn figures_grow(m: Seq<(KeyV, SummaryV)>, n: int)
    requires
        0 <= n <= m.len(),
        forall|i: int| 0 <= i < m.len() ==> 0 <= (#[trigger] m[i]).1.checked,
    ensures
        0 <= figures(m.take(n)) <= figures(m),
    decreases m.len(), n,
{
    if n < m.len() {
        let shorter = m.drop_last();
        assert(shorter.take(n) =~= m.take(n));
        assert forall|i: int| 0 <= i < shorter.len() implies 0 <= (#[trigger] shorter[i]).1.checked by {
            assert(shorter[i] == m[i]);
        }
        figures_grow(shorter, n);
    } else {
        assert(m.take(n) =~= m);
        if m.len() > 0 {
            let shorter = m.drop_last();
            assert forall|i: int| 0 <= i < shorter.len() implies 0 <= (
            #[trigger] shorter[i]).1.checked by {
                assert(shorter[i] == m[i]);
            }
            assert(shorter.take(shorter.len() as int) =~= shorter);
            figures_grow(shorter, shorter.len() as int);
        }
    }
}

impl CheckReport {
    /// Balance figures checked, the unit `mismatches` counts in.
    pub fn figures(&self) -> (r: usize)
        requires
            figures(self@.accounts) <= usize::MAX,
        ensures
            r == figures(self@.accounts),
    {
        let ghost m = self@.accounts;
        let mut sum: usize = 0;
        let mut i: usize = 0;
        while i < self.accounts.len()
            invariant
                i <= self.accounts@.len(),
                m == keyed::entries(self.accounts@),
                figures(m) <= usize::MAX,
                sum == figures(m.take(i as int)),
            decreases self.accounts@.len() - i,
        {
            assert(m[i as int].1 == self.accounts@[i as int].1@);
            assert(m.take(i as int + 1).drop_last() =~= m.take(i as int));
            proof {
                assert forall|k: int| 0 <= k < m.len() implies 0 <= (#[trigger] m[k]).1.checked by {
                    assert(m[k].1 == self.accounts@[k].1@);
                }
                figures_grow(m, i as int + 1);
            }
            sum = sum + self.accounts[i].1.checked;
            i = i + 1;
        }
        assert(m.take(i as int) =~= m);
        sum
    }

    /// Can the report be printed?
    pub fn is_printable(&self) -> (r: bool)
        ensures
            r == printable(self@),
    {
        let ghost m = self@.accounts;
        proof {
            assert forall|k: int| 0 <= k < m.len() implies 0 <= (#[trigger] m[k]).1.checked by {
                assert(m[k].1 == self.accounts@[k].1@);
            }
        }
        let mut sum: usize = 0;
        let mut i: usize = 0;
        while i < self.accounts.len()
            invariant
                i <= self.accounts@.len(),
                m == self@.accounts,
                m == keyed::entries(self.accounts@),
                sum == figures(m.take(i as int)),
                forall|k: int| 0 <= k < m.len() ==> 0 <= (#[trigger] m[k]).1.checked,
                forall|k: int| 0 <= k < i ==> (#[trigger] m[k]).1.failed <= m[k].1.checked,
            decreases self.accounts@.len() - i,
        {
            assert(m[i as int].1 == self.accounts@[i as int].1@);
            assert(m.take(i as int + 1).drop_last() =~= m.take(i as int));
            proof {
                figures_grow(m, i as int + 1);
            }
            let s = &self.accounts[i].1;
            if s.failed > s.checked || s.checked > usize::MAX - sum {
                return false;
            }
            sum = sum + s.checked;
            i = i + 1;
        }
        assert(m.take(i as int) =~= m);
        let mut j: usize = 0;
        while j < self.mismatches.len()
            invariant
                j <= self.mismatches@.len(),
                self@.mismatches == mismatch_views(self.mismatches@),
                forall|k: int| 0 <= k < j ==> off_in_range(#[trigger] self@.mismatches[k]),
            decreases self.mismatches@.len() - j,
        {
            let found = &self.mismatches[j];
            assert(self@.mismatches[j as int] == found@);
            if !bounds::difference_in_range(&found.computed, &found.expected) {
                return false;
            }
            j = j + 1;
        }
        true
    }

    /// Does the ledger pass?
    pub fn ok(&self) -> (r: bool)
        ensures
            r == passes(self@),
    {
        assert(self@.mismatches.len() == self.mismatches@.len());
        if self.mismatches.len() > 0 {
            return false;
        }
        let ghost m = self@.accounts;
        proof {
            assert forall|k: int| 0 <= k < m.len() implies 0 <= (#[trigger] m[k]).1.checked by {
                assert(m[k].1 == self.accounts@[k].1@);
            }
        }
        let mut i: usize = 0;
        while i < self.accounts.len()
            invariant
                i <= self.accounts@.len(),
                m == keyed::entries(self.accounts@),
                m == self@.accounts,
                self@.mismatches.len() == 0,
                forall|k: int| 0 <= k < m.len() ==> 0 <= (#[trigger] m[k]).1.checked,
                figures(m.take(i as int)) == 0,
            decreases self.accounts@.len() - i,
        {
            assert(m[i as int].1 == self.accounts@[i as int].1@);
            assert(m.take(i as int + 1).drop_last() =~= m.take(i as int));
            if self.accounts[i].1.checked > 0 {
                proof {
                    figures_grow(m, i as int + 1);
                }
                return true;
            }
            i = i + 1;
        }
        assert(m.take(i as int) =~= m);
        false
    }

    /// The figures that disagree.
    pub fn failures(&self) -> (r: &Vec<Mismatch>)
        ensures
            mismatch_views(r@) == self@.mismatches,
    {
        &self.mismatches
    }

    fn head(&self) -> (r: String)
        requires
            printable(self@),
        ensures
            r@ == head_text(self@),
    {
        assert(self@.accounts.len() == self.accounts@.len());
        assert(self@.mismatches.len() == self.mismatches@.len());
        let n = self.figures();
        if n == 0 {
            return text::copy("check: no balance figures — nothing vouches for this ledger\n");
        }
        let mut out = text::copy("check: ");
        out.append(text::number(n).as_str());
        out.append(" balance figures over ");
        out.append(text::number(self.accounts.len()).as_str());
        out.append(" accounts, ");
        out.append(text::number(self.mismatches.len()).as_str());
        out.append(" failed\n");
        assert(out@ =~= head_text(self@));
        out
    }

    fn summaries(&self) -> (r: String)
        requires
            printable(self@),
        ensures
            r@ == summary_lines(self@.accounts),
    {
        let ghost m = self@.accounts;
        let mut out = String::new();
        let mut i: usize = 0;
        assert(out@ =~= summary_lines(m.take(0)));
        while i < self.accounts.len()
            invariant
                i <= self.accounts@.len(),
                m == keyed::entries(self.accounts@),
                m == self@.accounts,
                printable(self@),
                out@ == summary_lines(m.take(i as int)),
            decreases self.accounts@.len() - i,
        {
            let s = &self.accounts[i].1;
            let ghost before = out@;
            assert(m[i as int] == (self.accounts@[i as int].0@, s@));
            assert(m.take(i as int + 1).drop_last() =~= m.take(i as int));
            out.append("  ");
            out.append(
                if s.failed == 0 {
                    "ok  "
                } else {
                    "FAIL"
                },
            );
            out.append(" ");
            out.append(self.accounts[i].0.text.as_str());
            out.append(": ");
            out.append(text::number(s.checked - s.failed).as_str());
            out.append("/");
            out.append(text::number(s.checked).as_str());
            out.append(" through ");
            if let Some(day) = s.vouched_through {
                out.append(day.text().as_str());
            }
            out.append("\n");
            assert(out@ =~= before + summary_text(m[i as int].0.text, m[i as int].1));
            i = i + 1;
        }
        assert(m.take(i as int) =~= m);
        out
    }

    fn disagreements(&self) -> (r: String)
        requires
            printable(self@),
        ensures
            r@ == mismatch_lines(self@.mismatches),
    {
        let ghost m = self@.mismatches;
        let mut out = String::new();
        let mut i: usize = 0;
        assert(out@ =~= mismatch_lines(m.take(0)));
        while i < self.mismatches.len()
            invariant
                i <= self.mismatches@.len(),
                m == mismatch_views(self.mismatches@),
                m == self@.mismatches,
                printable(self@),
                out@ == mismatch_lines(m.take(i as int)),
            decreases self.mismatches@.len() - i,
        {
            let ghost before = out@;
            assert(m[i as int] == self.mismatches@[i as int]@);
            assert(m.take(i as int + 1).drop_last() =~= m.take(i as int));
            out.append("  ");
            out.append(self.mismatches[i].text().as_str());
            out.append("\n");
            assert(out@ =~= before + "  "@ + mismatch_text(m[i as int]) + "\n"@);
            i = i + 1;
        }
        assert(m.take(i as int) =~= m);
        out
    }

    fn unvouched(&self) -> (r: String)
        ensures
            r@ == unchecked_line(self@.unchecked),
    {
        let mut out = String::new();
        assert(self@.unchecked.len() == self.unchecked@.len());
        if self.unchecked.len() > 0 {
            let mut listed: Vec<String> = Vec::new();
            let mut i: usize = 0;
            while i < self.unchecked.len()
                invariant
                    i <= self.unchecked@.len(),
                    i == listed@.len(),
                    forall|k: int|
                        0 <= k < i ==> (#[trigger] listed@[k])@ == unchecked_text(
                            self.unchecked@[k]@,
                        ),
                decreases self.unchecked@.len() - i,
            {
                listed.push(self.unchecked[i].text());
                i = i + 1;
            }
            assert(text::texts(listed@) =~= self@.unchecked.map_values(
                |u: UncheckedV| unchecked_text(u),
            ));
            out.append("unvouched through their newest posting: ");
            out.append(text::join_all(&listed, ", ").as_str());
            out.append("\n");
        }
        assert(out@ =~= unchecked_line(self@.unchecked));
        out
    }

    fn never_counted(&self) -> (r: String)
        ensures
            r@ == uncounted_line(self@.uncounted),
    {
        let mut out = String::new();
        assert(self@.uncounted.len() == self.uncounted@.len());
        if self.uncounted.len() > 0 {
            let mut listed: Vec<String> = Vec::new();
            let mut i: usize = 0;
            while i < self.uncounted.len()
                invariant
                    i <= self.uncounted@.len(),
                    i == listed@.len(),
                    forall|k: int|
                        0 <= k < i ==> (#[trigger] listed@[k])@ == uncounted_text(
                            (self.uncounted@[k].0@, self.uncounted@[k].1),
                        ),
                decreases self.uncounted@.len() - i,
            {
                let (account, currency) = &self.uncounted[i];
                let mut one = text::copy(account.as_str());
                one.append(" ");
                one.append(currency.text().as_str());
                listed.push(one);
                i = i + 1;
            }
            assert(text::texts(listed@) =~= self@.uncounted.map_values(
                |e: (Seq<char>, Currency)| uncounted_text(e),
            ));
            out.append("never counted (add one with `count`): ");
            out.append(text::join_all(&listed, ", ").as_str());
            out.append("\n");
        }
        assert(out@ =~= uncounted_line(self@.uncounted));
        out
    }

    /// How the report reads.
    pub fn text(&self) -> (r: String)
        requires
            printable(self@),
        ensures
            r@ == report_text(self@),
    {
        let mut out = self.head();
        out.append(self.summaries().as_str());
        out.append(self.disagreements().as_str());
        out.append(self.unvouched().as_str());
        out.append(self.never_counted().as_str());
        assert(out@ =~= report_text(self@));
        out
    }
}

/// The report if the ledger passes; otherwise the report as the reason it does
/// not.
pub fn passed(report: CheckReport) -> (r: Result<CheckReport, Refusal>)
    requires
        printable(report@),
    ensures
        match r {
            Ok(same) => passes(report@) && same == report,
            Err(e) => !passes(report@) && e@ == "balance check failed:\n"@ + report_text(report@),
        },
{
    if report.ok() {
        Ok(report)
    } else {
        let mut out = text::copy("balance check failed:\n");
        out.append(report.text().as_str());
        Err(Refusal { message: out })
    }
}

/// What comes of a check a write is held to: the report of a ledger that
/// passes; otherwise the report as the reason it does not.
pub open spec fn gated(r: ReportV) -> Result<ReportV, Seq<char>> {
    if passes(r) {
        Ok(r)
    } else if printable(r) {
        Err("balance check failed:\n"@ + report_text(r))
    } else {
        Err(refusal::out_of_range())
    }
}

fn let_through(report: CheckReport) -> (r: Result<CheckReport, Refusal>)
    ensures
        match r {
            Ok(same) => gated(report@) == Ok::<ReportV, Seq<char>>(same@),
            Err(e) => gated(report@) == Err::<ReportV, Seq<char>>(e@),
        },
{
    if report.ok() {
        Ok(report)
    } else if report.is_printable() {
        passed(report)
    } else {
        Err(Refusal::out_of_range())
    }
}

/// [`check`], failing on any mismatch with the report as the error.
pub fn gate(
    data: &LedgerData,
    assertions: &Vec<BalanceAssertion>,
    records: &Vec<AccountRecord>,
    holdings: &Vec<HoldingAssertion>,
) -> (r: Result<CheckReport, Refusal>)
    requires
        dated(assertion::views(assertions@)),
        2 * assertions@.len() + holdings@.len() <= usize::MAX,
    ensures
        ({
            let all = assertion::views(assertions@);
            let rs = record_views(records@);
            let hs = holdings::views(holdings@);
            let outcome = if comparable(data@, all, rs, hs) {
                gated(full_check(data@, all, rs, hs, None))
            } else {
                Err(refusal::out_of_range())
            };
            match r {
                Ok(report) => outcome == Ok::<ReportV, Seq<char>>(report@),
                Err(e) => outcome == Err::<ReportV, Seq<char>>(e@),
            }
        }),
{
    match check(data, assertions, records, holdings) {
        Ok(report) => let_through(report),
        Err(e) => Err(e),
    }
}

/// [`with_counts`], failing as [`gate`] does.
pub fn gate_with_counts(
    data: &LedgerData,
    assertions: &Vec<BalanceAssertion>,
    records: &Vec<AccountRecord>,
    holdings: &Vec<HoldingAssertion>,
    chart: &Chart,
) -> (r: Result<CheckReport, Refusal>)
    requires
        dated(assertion::views(assertions@)),
        2 * assertions@.len() + holdings@.len() <= usize::MAX,
    ensures
        ({
            let all = assertion::views(assertions@);
            let rs = record_views(records@);
            let hs = holdings::views(holdings@);
            let outcome = if comparable(data@, all, rs, hs) {
                gated(full_check(data@, all, rs, hs, Some(text::texts(chart.counted@))))
            } else {
                Err(refusal::out_of_range())
            };
            match r {
                Ok(report) => outcome == Ok::<ReportV, Seq<char>>(report@),
                Err(e) => outcome == Err::<ReportV, Seq<char>>(e@),
            }
        }),
{
    match with_counts(data, assertions, records, holdings, chart) {
        Ok(report) => let_through(report),
        Err(e) => Err(e),
    }
}

proof fn agreed_points(d: DataV, a: AssertionV, n: int, j: int)
    requires
        0 <= j < n,
        failures(d, a, n).len() == 0,
    ensures
        amount::equal(computed(d, a, assertion::points(a)[j].0)->0, assertion::points(a)[j].1),
    decreases n,
{
    if j < n - 1 {
        agreed_points(d, a, n - 1, j);
    }
}

proof fn agreed_assertions(d: DataV, all: Seq<AssertionV>, i: int)
    requires
        0 <= i < all.len(),
        held_to(d, all).1.len() == 0,
    ensures
        failed(d, all[i]).len() == 0,
    decreases all.len(),
{
    if i < all.len() - 1 {
        assert(all.drop_last()[i] == all[i]);
        agreed_assertions(d, all.drop_last(), i);
    }
}

proof fn agreed_holdings(r: ReportV, rs: Seq<AccountRecordV>, hs: Seq<HoldingV>)
    requires
        compared(r, rs, hs).mismatches.len() == 0,
    ensures
        r.mismatches.len() == 0,
        forall|i: int|
            0 <= i < hs.len() ==> amount::equal(
                replayed(rs, #[trigger] hs[i])->0,
                hs[i].quantity,
            ),
    decreases hs.len(),
{
    if hs.len() > 0 {
        agreed_holdings(r, rs, hs.drop_last());
        assert forall|i: int| 0 <= i < hs.len() implies amount::equal(
            replayed(rs, #[trigger] hs[i])->0,
            hs[i].quantity,
        ) by {
            if i < hs.len() - 1 {
                assert(hs.drop_last()[i] == hs[i]);
            }
        }
    }
}

/// A ledger that passes agrees with everything that vouches for it: each
/// figure of each balance assertion is what the postings sum to, and each
/// holding figure is what the broker records replay to.
pub proof fn a_passing_ledger_agrees(
    d: DataV,
    all: Seq<AssertionV>,
    rs: Seq<AccountRecordV>,
    hs: Seq<HoldingV>,
    roots: Option<Seq<Seq<char>>>,
)
    requires
        passes(full_check(d, all, rs, hs, roots)),
    ensures
        forall|i: int, j: int|
            0 <= i < all.len() && 0 <= j < assertion::points(#[trigger] all[i]).len()
                ==> amount::equal(
                computed(d, all[i], (#[trigger] assertion::points(all[i])[j]).0)->0,
                assertion::points(all[i])[j].1,
            ),
        forall|i: int|
            0 <= i < hs.len() ==> amount::equal(
                replayed(rs, #[trigger] hs[i])->0,
                hs[i].quantity,
            ),
{
    let turns = in_turn(hs);
    agreed_holdings(checked(d, all), rs, turns);
    assert forall|i: int, j: int|
        0 <= i < all.len() && 0 <= j < assertion::points(#[trigger] all[i]).len() implies amount::equal(
        computed(d, all[i], (#[trigger] assertion::points(all[i])[j]).0)->0,
        assertion::points(all[i])[j].1,
    ) by {
        agreed_assertions(d, all, i);
        agreed_points(d, all[i], assertion::points(all[i]).len() as int, j);
    }
    let keys = hs.map_values(|h: HoldingV| turn_key(h));
    assert forall|i: int| 0 <= i < hs.len() implies amount::equal(
        replayed(rs, #[trigger] hs[i])->0,
        hs[i].quantity,
    ) by {
        let j = sort::every_item_is_placed(keys, i);
        assert(turns[j] == hs[i]);
    }
}

/// A ledger nothing vouches for does not pass.
pub proof fn nothing_vouched_for_does_not_pass(d: DataV, rs: Seq<AccountRecordV>)
    ensures
        !passes(full_check(d, Seq::empty(), rs, Seq::empty(), None)),
{
    let none: Seq<HoldingV> = Seq::empty();
    assert(in_turn(none) =~= Seq::empty());
}

} // verus!
