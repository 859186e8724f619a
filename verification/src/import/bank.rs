//! What every bank import does once its statements are parsed: plan against
//! the ledger, record the statements' figures, and report.

use vstd::prelude::*;

use crate::accounts;
use crate::accounts::Chart;
use crate::amount;
use crate::amount::Dec;
use crate::currency::Currency;
use crate::assertion;
use crate::assertion::{AssertionV, BalanceAssertion};
use crate::date;
use crate::date::Date;
use crate::db::check;
use crate::db::check::CheckReport;
use crate::model;
use crate::model::{Posting, Source, Transaction, TransactionV};
use crate::names;
use crate::plan;
use crate::plan::again;
use crate::plan::carried;
use crate::plan::chain;
use crate::plan::pairs;
use crate::plan::PlanV;
use crate::refusal::Refusal;
use crate::statements::bank;
use crate::statements::bank::{Bank, BankStatement, Merged, MergedV, StatementV};
use crate::text;

verus! {

/// Where the first statement of another bank stands, from `from` on.
pub open spec fn stray(bank: Bank, ms: Seq<MergedV>, from: int) -> Option<int>
    decreases ms.len() - from,
{
    if from < 0 || from >= ms.len() {
        None
    } else if ms[from].statement.bank != bank {
        Some(from)
    } else {
        stray(bank, ms, from + 1)
    }
}

/// What a statement of another bank is refused with.
pub open spec fn stray_text(bank: Bank, m: MergedV) -> Seq<char> {
    m.paths[0] + " is a "@ + bank::bank_text(m.statement.bank) + " statement, not "@
        + bank::bank_text(bank)
}

/// Refuses the statements of another bank.
pub fn of_one_bank(bank: Bank, merged: &Vec<Merged>) -> (r: Result<(), Refusal>)
    requires
        forall|i: int| 0 <= i < merged@.len() ==> (#[trigger] merged@[i]).paths@.len() > 0,
    ensures
        match r {
            Ok(()) => stray(bank, bank::merged_views(merged@), 0) is None,
            Err(e) => stray(bank, bank::merged_views(merged@), 0) matches Some(i) && e@
                == stray_text(bank, bank::merged_views(merged@)[i]),
        },
{
    let ghost all = bank::merged_views(merged@);
    let mut i: usize = 0;
    while i < merged.len()
        invariant
            i <= merged@.len(),
            all == bank::merged_views(merged@),
            forall|k: int| 0 <= k < merged@.len() ==> (#[trigger] merged@[k]).paths@.len() > 0,
            stray(bank, all, 0) == stray(bank, all, i as int),
        decreases merged@.len() - i,
    {
        let m = &merged[i];
        assert(all[i as int] == m@);
        if m.statement.bank != bank {
            assert(m@.paths[0] == m.paths@[0]@);
            let mut out = text::copy(m.paths[0].as_str());
            out.append(" is a ");
            out.append(m.statement.bank.text());
            out.append(" statement, not ");
            out.append(bank.text());
            return Err(Refusal { message: out });
        }
        i = i + 1;
    }
    Ok(())
}

/// Is a statement without rows? It then only vouches for its balance.
pub open spec fn is_idle(m: MergedV) -> bool {
    m.statement.lines.len() == 0
}

/// The file each line came from: as many lines of each as its span, the files
/// numbered from `first`.
pub open spec fn line_files(spans: Seq<int>, first: int) -> Seq<int>
    decreases spans.len(),
{
    if spans.len() == 0 {
        Seq::empty()
    } else {
        line_files(spans.drop_last(), first) + Seq::new(
            spans.last() as nat,
            |i: int| first + spans.len() - 1,
        )
    }
}

/// A statement with rows and where it lands.
#[derive(Debug)]
pub struct Landing {
    /// Where the statement stands among those merged.
    pub at: usize,
    pub account: String,
    /// The file each of its lines came from.
    pub files: Vec<usize>,
}

#[verifier::ext_equal]
pub struct LandingV {
    pub at: int,
    pub account: Seq<char>,
    pub files: Seq<int>,
}

impl View for Landing {
    type V = LandingV;

    open spec fn view(&self) -> LandingV {
        LandingV {
            at: self.at as int,
            account: self.account@,
            files: bank::span_views(self.files@),
        }
    }
}

pub open spec fn landing_views(v: Seq<Landing>) -> Seq<LandingV> {
    v.map_values(|l: Landing| l@)
}

/// What an account number the chart does not have is refused with.
pub open spec fn unknown(account_no: Seq<char>) -> Seq<char> {
    "unknown account "@ + account_no + " — add it to institution.accounts"@
}

/// The account of a statement.
pub open spec fn account_of(chart: Chart, s: StatementV) -> Result<Seq<char>, Seq<char>> {
    match accounts::under(accounts::table(chart.institution.accounts@), s.account_no) {
        Some(a) => Ok(a),
        None => Err(unknown(s.account_no)),
    }
}

/// Where the statements with rows land, and the number of files they are of.
pub open spec fn landings(chart: Chart, ms: Seq<MergedV>) -> Result<
    (Seq<LandingV>, int),
    Seq<char>,
>
    decreases ms.len(),
{
    if ms.len() == 0 {
        Ok((Seq::empty(), 0))
    } else {
        match landings(chart, ms.drop_last()) {
            Err(e) => Err(e),
            Ok((rest, first)) => {
                let m = ms.last();
                if is_idle(m) {
                    Ok((rest, first))
                } else {
                    match account_of(chart, m.statement) {
                        Err(e) => Err(e),
                        Ok(account) => Ok(
                            (
                                rest.push(
                                    LandingV {
                                        at: ms.len() - 1,
                                        account,
                                        files: line_files(m.spans, first),
                                    },
                                ),
                                first + m.spans.len(),
                            ),
                        ),
                    }
                }
            },
        }
    }
}

/// How many files the statements are of.
pub open spec fn file_count(ms: Seq<MergedV>) -> int
    decreases ms.len(),
{
    if ms.len() == 0 {
        0
    } else {
        file_count(ms.drop_last()) + ms.last().spans.len()
    }
}

proof fn files_counted(chart: Chart, ms: Seq<MergedV>, n: int)
    requires
        0 <= n <= ms.len(),
    ensures
        landings(chart, ms.take(n)) matches Ok(l) ==> 0 <= l.1 <= file_count(ms.take(n)),
        file_count(ms.take(n)) <= file_count(ms),
    decreases ms.len() - n, n,
{
    if n < ms.len() {
        files_counted(chart, ms, n + 1);
        assert(ms.take(n + 1).drop_last() =~= ms.take(n));
    } else {
        assert(ms.take(n) =~= ms);
    }
    count_bound(chart, ms.take(n));
}

proof fn count_bound(chart: Chart, ms: Seq<MergedV>)
    ensures
        landings(chart, ms) matches Ok(l) ==> 0 <= l.1 <= file_count(ms),
        0 <= file_count(ms),
    decreases ms.len(),
{
    if ms.len() > 0 {
        count_bound(chart, ms.drop_last());
    }
}

proof fn refused_landings_stay(chart: Chart, ms: Seq<MergedV>, n: int)
    requires
        0 <= n <= ms.len(),
        landings(chart, ms.take(n)) is Err,
    ensures
        landings(chart, ms) == landings(chart, ms.take(n)),
    decreases ms.len() - n,
{
    if n < ms.len() {
        assert(ms.take(n + 1).drop_last() =~= ms.take(n));
        refused_landings_stay(chart, ms, n + 1);
    } else {
        assert(ms.take(n) =~= ms);
    }
}

/// The account of a statement.
pub fn landing_account(chart: &Chart, s: &BankStatement) -> (r: Result<String, Refusal>)
    ensures
        match r {
            Ok(a) => account_of(*chart, s@) == Ok::<Seq<char>, Seq<char>>(a@),
            Err(e) => account_of(*chart, s@) == Err::<Seq<char>, Seq<char>>(e@),
        },
{
    match names::statement_account(chart, s.account_no.as_str()) {
        Ok(a) => Ok(text::copy(a.as_str())),
        Err(e) => Err(Refusal { message: e.text() }),
    }
}

fn files_of(spans: &Vec<usize>, first: usize) -> (r: Vec<usize>)
    requires
        first + spans@.len() <= usize::MAX,
    ensures
        bank::span_views(r@) == line_files(bank::span_views(spans@), first as int),
{
    let ghost all = bank::span_views(spans@);
    let mut out: Vec<usize> = Vec::new();
    let mut i: usize = 0;
    assert(bank::span_views(out@) =~= Seq::empty());
    while i < spans.len()
        invariant
            i <= spans@.len(),
            first + spans@.len() <= usize::MAX,
            all == bank::span_views(spans@),
            bank::span_views(out@) == line_files(all.take(i as int), first as int),
        decreases spans@.len() - i,
    {
        assert(all[i as int] == spans@[i as int]);
        assert(all.take(i as int + 1).drop_last() =~= all.take(i as int));
        let ghost before = bank::span_views(out@);
        let mut k: usize = 0;
        assert(before + Seq::new(0, |n: int| first + i) =~= before);
        while k < spans[i]
            invariant
                i < spans@.len(),
                k <= spans@[i as int],
                first + spans@.len() <= usize::MAX,
                bank::span_views(out@) == before + Seq::new(k as nat, |n: int| first + i),
            decreases spans@[i as int] - k,
        {
            let ghost had = out@;
            out.push(first + i);
            assert(bank::span_views(out@) =~= bank::span_views(had).push(first + i));
            assert(bank::span_views(out@) =~= before + Seq::new(
                (k + 1) as nat,
                |n: int| first + i,
            ));
            k = k + 1;
        }
        assert(Seq::new(k as nat, |n: int| first + i) =~= Seq::new(
            all.take(i as int + 1).last() as nat,
            |n: int| first as int + all.take(i as int + 1).len() - 1,
        ));
        i = i + 1;
    }
    assert(all.take(i as int) =~= all);
    out
}

/// Where the statements with rows land.
pub fn land(chart: &Chart, merged: &Vec<Merged>) -> (r: Result<Vec<Landing>, Refusal>)
    requires
        file_count(bank::merged_views(merged@)) <= usize::MAX,
    ensures
        match r {
            Ok(v) => landings(*chart, bank::merged_views(merged@)) matches Ok(l) && l.0
                == landing_views(v@),
            Err(e) => landings(*chart, bank::merged_views(merged@)) == Err::<
                (Seq<LandingV>, int),
                Seq<char>,
            >(e@),
        },
{
    let ghost all = bank::merged_views(merged@);
    let mut out: Vec<Landing> = Vec::new();
    let mut first: usize = 0;
    let mut i: usize = 0;
    assert(landing_views(out@) =~= Seq::empty());
    while i < merged.len()
        invariant
            i <= merged@.len(),
            all == bank::merged_views(merged@),
            file_count(all) <= usize::MAX,
            landings(*chart, all.take(i as int)) == Ok::<(Seq<LandingV>, int), Seq<char>>(
                (landing_views(out@), first as int),
            ),
        decreases merged@.len() - i,
    {
        let m = &merged[i];
        let ghost before = out@;
        assert(all[i as int] == m@);
        assert(all.take(i as int + 1).drop_last() =~= all.take(i as int));
        assert(m@.statement.lines.len() == m.statement.lines@.len());
        assert(m@.spans.len() == m.spans@.len());
        if m.statement.lines.len() > 0 {
            proof {
                files_counted(*chart, all, i as int);
                files_counted(*chart, all, i as int + 1);
            }
            match landing_account(chart, &m.statement) {
                Err(e) => {
                    proof {
                        refused_landings_stay(*chart, all, i as int + 1);
                    }
                    return Err(e);
                },
                Ok(account) => {
                    let l = Landing { at: i, account, files: files_of(&m.spans, first) };
                    out.push(l);
                    assert(landing_views(out@) =~= landing_views(before).push(l@));
                    first = first + m.spans.len();
                },
            }
        }
        i = i + 1;
    }
    assert(all.take(i as int) =~= all);
    Ok(out)
}

/// The transaction an idle account opens with: its balance, where it has one
/// and the ledger holds nothing of the account.
pub open spec fn idle_opening(account: Seq<char>, s: StatementV, held: int) -> Option<
    TransactionV,
> {
    match bank::opening_balance(s) {
        Some(a) => if held == 0 && a.magnitude != 0 {
            Some(
                plan::opening_transaction(
                    plan::held::LandingV {
                        account,
                        statement: s,
                        files: Seq::empty(),
                        existing: Seq::empty(),
                    },
                    a,
                ),
            )
        } else {
            None
        },
        None => None,
    }
}

/// The transaction an idle account opens with, given how many postings the
/// ledger holds on it.
pub fn open_idle(account: &str, s: &BankStatement, held: usize) -> (r: Option<Transaction>)
    requires
        s@.lines.len() == 0,
        bank::has_start(s@),
        bank::start(s@) > date::MIN_DAY,
    ensures
        match r {
            Some(t) => idle_opening(account@, s@, held as int) == Some(t@),
            None => idle_opening(account@, s@, held as int) is None,
        },
{
    let a = s.opening_balance();
    if held > 0 || a.is_zero() {
        return None;
    }
    let mut postings: Vec<Posting> = Vec::new();
    postings.push(Posting::new(account, a, s.currency));
    postings.push(Posting::new(model::OPENING_EQUITY, a.negated(), s.currency));
    assert(model::posting_views(postings@) =~= seq![
        model::leg(account@, a@, s@.currency),
        model::leg(model::OPENING_EQUITY@, amount::negated(a@), s@.currency),
    ]);
    Some(
        Transaction {
            date: s.opening_date(),
            payee: Some(text::copy("Opening balance")),
            narration: Some(text::copy(s.account_kind.as_str())),
            source: Source::Import,
            external_ref: Some(s.opening_ref(account)),
            import_batch_id: None,
            postings,
        },
    )
}

/// The figures of the statements with rows that land first, each over what its
/// account holds after its opening.
pub open spec fn stated(
    ms: Seq<MergedV>,
    landed: Seq<LandingV>,
    openings: Seq<int>,
    n: int,
) -> Seq<AssertionV>
    decreases n,
{
    if n <= 0 {
        Seq::empty()
    } else {
        let l = landed[n - 1];
        stated(ms, landed, openings, n - 1) + bank::figures(
            ms[l.at].statement,
            l.account,
            openings[n - 1],
        )
    }
}

/// The figures of the statements without rows.
pub open spec fn idle_stated(chart: Chart, ms: Seq<MergedV>) -> Result<Seq<AssertionV>, Seq<char>>
    decreases ms.len(),
{
    if ms.len() == 0 {
        Ok(Seq::empty())
    } else {
        match idle_stated(chart, ms.drop_last()) {
            Err(e) => Err(e),
            Ok(rest) => {
                let m = ms.last();
                if !is_idle(m) {
                    Ok(rest)
                } else {
                    match account_of(chart, m.statement) {
                        Err(e) => Err(e),
                        Ok(account) => Ok(
                            rest + bank::figures(
                                m.statement,
                                account,
                                bank::start(m.statement) - 1,
                            ),
                        ),
                    }
                }
            },
        }
    }
}

/// What the statements vouch for: the figures of those with rows, then of those
/// without.
pub open spec fn all_stated(
    chart: Chart,
    ms: Seq<MergedV>,
    landed: Seq<LandingV>,
    openings: Seq<int>,
) -> Result<Seq<AssertionV>, Seq<char>> {
    match idle_stated(chart, ms) {
        Err(e) => Err(e),
        Ok(idle) => Ok(stated(ms, landed, openings, landed.len() as int) + idle),
    }
}

/// Can a statement's figures be read off it?
pub open spec fn is_readable(s: StatementV) -> bool {
    &&& bank::has_start(s)
    &&& bank::start(s) > date::MIN_DAY
    &&& s.periods.len() == 0 ==> bank::is_settled(s) && bank::lines_in_range(s.lines)
}

/// Can the statement's figures be read off it?
pub fn can_be_read(s: &BankStatement) -> (r: bool)
    ensures
        r == is_readable(s@),
{
    s.has_day_before() && (s.periods.len() > 0 || s.is_settled() && s.lines_in_range())
}

proof fn refused_idle_stay(chart: Chart, ms: Seq<MergedV>, n: int)
    requires
        0 <= n <= ms.len(),
        idle_stated(chart, ms.take(n)) is Err,
    ensures
        idle_stated(chart, ms) == idle_stated(chart, ms.take(n)),
    decreases ms.len() - n,
{
    if n < ms.len() {
        assert(ms.take(n + 1).drop_last() =~= ms.take(n));
        refused_idle_stay(chart, ms, n + 1);
    } else {
        assert(ms.take(n) =~= ms);
    }
}

pub open spec fn day_views(v: Seq<Date>) -> Seq<int> {
    v.map_values(|d: Date| d@)
}

/// What the statements vouch for. `openings` are the days the accounts of those
/// with rows open on.
pub fn figures_of(
    chart: &Chart,
    merged: &Vec<Merged>,
    landed: &Vec<Landing>,
    openings: &Vec<Date>,
) -> (r: Result<Vec<BalanceAssertion>, Refusal>)
    requires
        openings@.len() == landed@.len(),
        forall|i: int| 0 <= i < landed@.len() ==> (#[trigger] landed@[i]).at < merged@.len(),
        forall|i: int| 0 <= i < merged@.len() ==> is_readable((#[trigger] merged@[i]).statement@),
    ensures
        match r {
            Ok(v) => all_stated(
                *chart,
                bank::merged_views(merged@),
                landing_views(landed@),
                day_views(openings@),
            ) == Ok::<Seq<AssertionV>, Seq<char>>(assertion::views(v@)),
            Err(e) => all_stated(
                *chart,
                bank::merged_views(merged@),
                landing_views(landed@),
                day_views(openings@),
            ) == Err::<Seq<AssertionV>, Seq<char>>(e@),
        },
{
    let ghost all = bank::merged_views(merged@);
    let ghost ls = landing_views(landed@);
    let ghost days = day_views(openings@);
    let mut out: Vec<BalanceAssertion> = Vec::new();
    let mut i: usize = 0;
    assert(assertion::views(out@) =~= Seq::empty());
    while i < landed.len()
        invariant
            i <= landed@.len(),
            openings@.len() == landed@.len(),
            forall|k: int| 0 <= k < landed@.len() ==> (#[trigger] landed@[k]).at < merged@.len(),
            forall|k: int|
                0 <= k < merged@.len() ==> is_readable((#[trigger] merged@[k]).statement@),
            all == bank::merged_views(merged@),
            ls == landing_views(landed@),
            days == day_views(openings@),
            assertion::views(out@) == stated(all, ls, days, i as int),
        decreases landed@.len() - i,
    {
        let l = &landed[i];
        let ghost before = out@;
        assert(ls[i as int] == l@);
        assert(days[i as int] == openings@[i as int]@);
        assert(all[l.at as int] == merged@[l.at as int]@);
        proof {
            let s = merged@[l.at as int].statement@;
            bank::first_after_bounds(s.lines, openings@[i as int]@);
            bank::first_after_bounds(s.lines, bank::settled_through(s));
        }
        let mut more = merged[l.at].statement.assertions(l.account.as_str(), openings[i]);
        let ghost new = more@;
        out.append(&mut more);
        assert(assertion::views(out@) =~= assertion::views(before) + assertion::views(new));
        i = i + 1;
    }
    let ghost first = assertion::views(out@);
    let mut n: usize = 0;
    assert(first + Seq::<AssertionV>::empty() =~= first);
    while n < merged.len()
        invariant
            n <= merged@.len(),
            forall|k: int|
                0 <= k < merged@.len() ==> is_readable((#[trigger] merged@[k]).statement@),
            all == bank::merged_views(merged@),
            ls == landing_views(landed@),
            days == day_views(openings@),
            first == stated(all, ls, days, ls.len() as int),
            idle_stated(*chart, all.take(n as int)) matches Ok(idle) && assertion::views(out@)
                == first + idle,
        decreases merged@.len() - n,
    {
        let m = &merged[n];
        let ghost before = out@;
        assert(all[n as int] == m@);
        assert(all.take(n as int + 1).drop_last() =~= all.take(n as int));
        assert(m@.statement.lines.len() == m.statement.lines@.len());
        if m.statement.lines.len() == 0 {
            match landing_account(chart, &m.statement) {
                Err(e) => {
                    proof {
                        refused_idle_stay(*chart, all, n as int + 1);
                    }
                    return Err(e);
                },
                Ok(account) => {
                    let mut more = m.statement.assertions(
                        account.as_str(),
                        m.statement.opening_date(),
                    );
                    let ghost new = more@;
                    out.append(&mut more);
                    assert(assertion::views(out@) =~= assertion::views(before) + assertion::views(
                        new,
                    ));
                    assert(assertion::views(out@) =~= first + (idle_stated(
                        *chart,
                        all.take(n as int),
                    )->Ok_0 + assertion::views(new)));
                },
            }
        }
        n = n + 1;
    }
    assert(all.take(n as int) =~= all);
    Ok(out)
}

/// Do the two assert the closing of one day: one account, currency, source and
/// last day?
pub open spec fn one_day(a: AssertionV, b: AssertionV) -> bool {
    a.account == b.account && a.currency == b.currency && a.source == b.source && a.period_end
        == b.period_end
}

/// The assertion recorded for a figure's day, from `from` on.
pub open spec fn recorded_at(recorded: Seq<AssertionV>, a: AssertionV, from: int) -> Option<int>
    decreases recorded.len() - from,
{
    if from < 0 || from >= recorded.len() {
        None
    } else if one_day(recorded[from], a) {
        Some(from)
    } else {
        recorded_at(recorded, a, from + 1)
    }
}

/// What a figure that contradicts the recorded one is refused with.
pub open spec fn stale(a: AssertionV, other: AssertionV) -> Seq<char> {
    "this download closes "@ + amount::printed(a.closing) + " on "@ + date::printed(a.period_end)
        + ", but "@ + assertion::named(other) + " was recorded as closing "@ + amount::printed(
        other.closing,
    ) + "; one of the two is stale — re-freeze, or drop the assertion that is"@
}

/// The figures to record, by their places. An assertion already recorded for
/// the same closing day stands: a later download states a wider period for
/// that day, which is the same claim.
pub open spec fn to_record(recorded: Seq<AssertionV>, figures: Seq<AssertionV>) -> Result<
    Seq<int>,
    Seq<char>,
>
    decreases figures.len(),
{
    if figures.len() == 0 {
        Ok(Seq::empty())
    } else {
        match to_record(recorded, figures.drop_last()) {
            Err(e) => Err(e),
            Ok(rest) => {
                let a = figures.last();
                match recorded_at(recorded, a, 0) {
                    None => Ok(rest.push(figures.len() - 1)),
                    Some(i) => if amount::equal(recorded[i].closing, a.closing) {
                        Ok(rest)
                    } else {
                        Err(stale(a, recorded[i]))
                    },
                }
            },
        }
    }
}

proof fn refused_figures_stay(recorded: Seq<AssertionV>, figures: Seq<AssertionV>, n: int)
    requires
        0 <= n <= figures.len(),
        to_record(recorded, figures.take(n)) is Err,
    ensures
        to_record(recorded, figures) == to_record(recorded, figures.take(n)),
    decreases figures.len() - n,
{
    if n < figures.len() {
        assert(figures.take(n + 1).drop_last() =~= figures.take(n));
        refused_figures_stay(recorded, figures, n + 1);
    } else {
        assert(figures.take(n) =~= figures);
    }
}

fn find_recorded(recorded: &Vec<BalanceAssertion>, a: &BalanceAssertion) -> (r: Option<usize>)
    ensures
        match r {
            Some(i) => i < recorded@.len() && recorded_at(assertion::views(recorded@), a@, 0)
                == Some(i as int),
            None => recorded_at(assertion::views(recorded@), a@, 0) is None,
        },
{
    let ghost all = assertion::views(recorded@);
    let mut i: usize = 0;
    while i < recorded.len()
        invariant
            i <= recorded@.len(),
            all == assertion::views(recorded@),
            recorded_at(all, a@, 0) == recorded_at(all, a@, i as int),
        decreases recorded@.len() - i,
    {
        let r = &recorded[i];
        assert(all[i as int] == r@);
        if text::same_text(r.account.as_str(), a.account.as_str()) && r.currency == a.currency
            && r.source == a.source && r.period_end.number() == a.period_end.number() {
            return Some(i);
        }
        i = i + 1;
    }
    None
}

/// The figures to record, by their places.
pub fn new_figures(recorded: &Vec<BalanceAssertion>, figures: &Vec<BalanceAssertion>) -> (r: Result<
    Vec<usize>,
    Refusal,
>)
    ensures
        match r {
            Ok(v) => to_record(assertion::views(recorded@), assertion::views(figures@)) == Ok::<
                Seq<int>,
                Seq<char>,
            >(bank::span_views(v@)),
            Err(e) => to_record(assertion::views(recorded@), assertion::views(figures@)) == Err::<
                Seq<int>,
                Seq<char>,
            >(e@),
        },
{
    let ghost known = assertion::views(recorded@);
    let ghost all = assertion::views(figures@);
    let mut out: Vec<usize> = Vec::new();
    let mut i: usize = 0;
    assert(bank::span_views(out@) =~= Seq::empty());
    while i < figures.len()
        invariant
            i <= figures@.len(),
            known == assertion::views(recorded@),
            all == assertion::views(figures@),
            to_record(known, all.take(i as int)) == Ok::<Seq<int>, Seq<char>>(
                bank::span_views(out@),
            ),
        decreases figures@.len() - i,
    {
        let a = &figures[i];
        let ghost before = out@;
        assert(all[i as int] == a@);
        assert(all.take(i as int + 1).drop_last() =~= all.take(i as int));
        match find_recorded(recorded, a) {
            None => {
                out.push(i);
                assert(bank::span_views(out@) =~= bank::span_views(before).push(i as int));
            },
            Some(k) => {
                let other = &recorded[k];
                assert(known[k as int] == other@);
                if !other.closing.equals(&a.closing) {
                    proof {
                        refused_figures_stay(known, all, i as int + 1);
                    }
                    let mut out = text::copy("this download closes ");
                    out.append(a.closing.text().as_str());
                    out.append(" on ");
                    out.append(a.period_end.text().as_str());
                    out.append(", but ");
                    out.append(other.text().as_str());
                    out.append(" was recorded as closing ");
                    out.append(other.closing.text().as_str());
                    out.append(
                        "; one of the two is stale — re-freeze, or drop the assertion that is",
                    );
                    assert(out@ =~= stale(a@, other@));
                    return Err(Refusal { message: out });
                }
            },
        }
        i = i + 1;
    }
    assert(all.take(i as int) =~= all);
    Ok(out)
}

proof fn recorded_is_there(recorded: Seq<AssertionV>, a: AssertionV, from: int)
    requires
        0 <= from,
    ensures
        match recorded_at(recorded, a, from) {
            Some(i) => from <= i < recorded.len() && one_day(recorded[i], a),
            None => forall|i: int|
                from <= i < recorded.len() ==> !one_day(#[trigger] recorded[i], a),
        },
    decreases recorded.len() - from,
{
    if from < recorded.len() && !one_day(recorded[from], a) {
        recorded_is_there(recorded, a, from + 1);
    }
}

proof fn recorded_first(
    recorded: Seq<AssertionV>,
    more: Seq<AssertionV>,
    a: AssertionV,
    from: int,
)
    requires
        0 <= from,
        recorded_at(recorded, a, from) is Some,
    ensures
        recorded_at(recorded + more, a, from) == recorded_at(recorded, a, from),
    decreases recorded.len() - from,
{
    assert((recorded + more)[from] == recorded[from]);
    if !one_day(recorded[from], a) {
        recorded_first(recorded, more, a, from + 1);
    }
}

proof fn each_is_recorded(recorded: Seq<AssertionV>, figures: Seq<AssertionV>, n: int)
    requires
        0 <= n <= figures.len(),
        to_record(recorded, figures.take(n)) is Ok,
    ensures
        ({
            let new = to_record(recorded, figures.take(n))->Ok_0;
            &&& forall|k: int| 0 <= k < new.len() ==> 0 <= (#[trigger] new[k]) < n
            &&& forall|i: int|
                0 <= i < n ==> match recorded_at(recorded, #[trigger] figures[i], 0) {
                    None => new.contains(i),
                    Some(k) => amount::equal(recorded[k].closing, figures[i].closing),
                }
        }),
    decreases n,
{
    if n > 0 {
        assert(figures.take(n).drop_last() =~= figures.take(n - 1));
        each_is_recorded(recorded, figures, n - 1);
        let before = to_record(recorded, figures.take(n - 1))->Ok_0;
        let new = to_record(recorded, figures.take(n))->Ok_0;
        assert forall|i: int| 0 <= i < n implies match recorded_at(
            recorded,
            #[trigger] figures[i],
            0,
        ) {
            None => new.contains(i),
            Some(k) => amount::equal(recorded[k].closing, figures[i].closing),
        } by {
            if recorded_at(recorded, figures[i], 0) is None {
                if i < n - 1 {
                    let k = choose|k: int| 0 <= k < before.len() && before[k] == i;
                    assert(new[k] == i);
                } else {
                    assert(new[new.len() - 1] == i);
                }
            }
        }
    }
}

proof fn landings_stand(chart: Chart, ms: Seq<MergedV>)
    ensures
        landings(chart, ms) matches Ok(l) ==> forall|i: int|
            0 <= i < l.0.len() ==> 0 <= (#[trigger] l.0[i]).at < ms.len(),
    decreases ms.len(),
{
    if ms.len() > 0 {
        landings_stand(chart, ms.drop_last());
    }
}

proof fn nothing_to_record(recorded: Seq<AssertionV>, figures: Seq<AssertionV>)
    requires
        forall|i: int|
            0 <= i < figures.len() ==> (recorded_at(recorded, #[trigger] figures[i], 0) matches Some(
                k,
            ) && amount::equal(recorded[k].closing, figures[i].closing)),
    ensures
        to_record(recorded, figures) == Ok::<Seq<int>, Seq<char>>(Seq::empty()),
    decreases figures.len(),
{
    if figures.len() > 0 {
        let less = figures.drop_last();
        assert forall|i: int| 0 <= i < less.len() implies (recorded_at(
            recorded,
            #[trigger] less[i],
            0,
        ) matches Some(k) && amount::equal(recorded[k].closing, less[i].closing)) by {
            assert(less[i] == figures[i]);
        }
        nothing_to_record(recorded, less);
        assert(figures[figures.len() - 1] == figures.last());
    }
}

/// Figures stated again are not recorded again: once those to record are, none
/// of the same figures is left to record. No two of them may close one day
/// differently.
pub proof fn figures_stated_again_add_nothing(
    recorded: Seq<AssertionV>,
    figures: Seq<AssertionV>,
)
    requires
        to_record(recorded, figures) is Ok,
        close_alike(figures),
    ensures
        ({
            let new = to_record(recorded, figures)->Ok_0;
            to_record(recorded + picked(figures, new), figures) == Ok::<
                Seq<int>,
                Seq<char>,
            >(Seq::empty())
        }),
{
    let new = to_record(recorded, figures)->Ok_0;
    let more = picked(figures, new);
    let after = recorded + more;
    let n = figures.len() as int;
    assert(figures.take(n) =~= figures);
    each_is_recorded(recorded, figures, n);
    assert forall|i: int| 0 <= i < n implies (recorded_at(after, #[trigger] figures[i], 0) matches Some(
        k,
    ) && amount::equal(after[k].closing, figures[i].closing)) by {
        let a = figures[i];
        recorded_is_there(recorded, a, 0);
        recorded_is_there(after, a, 0);
        match recorded_at(recorded, a, 0) {
            Some(k) => {
                recorded_first(recorded, more, a, 0);
                assert(after[k] == recorded[k]);
            },
            None => {
                let at = choose|at: int| 0 <= at < new.len() && new[at] == i;
                assert(after[recorded.len() + at] == a);
                let k = recorded_at(after, a, 0)->0;
                if k < recorded.len() {
                    assert(after[k] == recorded[k]);
                } else {
                    assert(after[k] == figures[new[k - recorded.len()]]);
                }
            },
        }
    }
    nothing_to_record(after, figures);
}

/// How many legs of the transactions are on the account.
pub open spec fn legs_on(ts: Seq<TransactionV>, account: Seq<char>, c: Currency) -> int {
    chain::planned_moves(ts, account, c).len() as int
}

/// The openings of the first `n` statements without rows, each with the place
/// of its statement. `held` is how many postings the ledger holds on the account
/// of each, and `ts` what the import writes before them.
pub open spec fn idle_openings(
    chart: Chart,
    ms: Seq<MergedV>,
    held: Seq<int>,
    ts: Seq<TransactionV>,
    n: int,
) -> Result<Seq<(int, TransactionV)>, Seq<char>>
    decreases n,
{
    if n <= 0 {
        Ok(Seq::empty())
    } else {
        match idle_openings(chart, ms, held, ts, n - 1) {
            Err(e) => Err(e),
            Ok(before) => {
                let s = ms[n - 1].statement;
                if !is_idle(ms[n - 1]) {
                    Ok(before)
                } else {
                    match account_of(chart, s) {
                        Err(e) => Err(e),
                        Ok(a) => {
                            let on = held[n - 1] + legs_on(ts, a, s.currency) + legs_on(
                                plan::transactions_of(before),
                                a,
                                s.currency,
                            );
                            match idle_opening(a, s, on) {
                                Some(t) => Ok(before.push((n - 1, t))),
                                None => Ok(before),
                            }
                        },
                    }
                }
            },
        }
    }
}

proof fn refused_openings_stay(
    chart: Chart,
    ms: Seq<MergedV>,
    held: Seq<int>,
    ts: Seq<TransactionV>,
    n: int,
    m: int,
)
    requires
        n <= m,
        idle_openings(chart, ms, held, ts, n) is Err,
    ensures
        idle_openings(chart, ms, held, ts, m) == idle_openings(chart, ms, held, ts, n),
    decreases m - n,
{
    if n < m {
        refused_openings_stay(chart, ms, held, ts, n, m - 1);
    }
}

/// The openings of the statements without rows.
fn openings_of_idle(
    chart: &Chart,
    merged: &Vec<Merged>,
    held: &Vec<usize>,
    planned: &Vec<(usize, Transaction)>,
) -> (r: Result<Vec<(usize, Transaction)>, Refusal>)
    requires
        held@.len() == merged@.len(),
        forall|i: int| 0 <= i < merged@.len() ==> is_readable((#[trigger] merged@[i]).statement@),
    ensures
        match r {
            Ok(v) => idle_openings(
                *chart,
                bank::merged_views(merged@),
                bank::span_views(held@),
                chain::planned_views(planned@),
                merged@.len() as int,
            ) == Ok::<Seq<(int, TransactionV)>, Seq<char>>(plan::filed_views(v@)),
            Err(e) => idle_openings(
                *chart,
                bank::merged_views(merged@),
                bank::span_views(held@),
                chain::planned_views(planned@),
                merged@.len() as int,
            ) == Err::<Seq<(int, TransactionV)>, Seq<char>>(e@),
        },
{
    let ghost ms = bank::merged_views(merged@);
    let ghost hs = bank::span_views(held@);
    let ghost ts = chain::planned_views(planned@);
    let mut out: Vec<(usize, Transaction)> = Vec::new();
    let mut i: usize = 0;
    assert(plan::filed_views(out@) =~= Seq::empty());
    while i < merged.len()
        invariant
            i <= merged@.len(),
            held@.len() == merged@.len(),
            forall|k: int|
                0 <= k < merged@.len() ==> is_readable((#[trigger] merged@[k]).statement@),
            ms == bank::merged_views(merged@),
            hs == bank::span_views(held@),
            ts == chain::planned_views(planned@),
            idle_openings(*chart, ms, hs, ts, i as int) == Ok::<
                Seq<(int, TransactionV)>,
                Seq<char>,
            >(plan::filed_views(out@)),
        decreases merged@.len() - i,
    {
        let m = &merged[i];
        let ghost before = out@;
        assert(ms[i as int] == m@);
        assert(hs[i as int] == held@[i as int]);
        assert(m@.statement.lines.len() == m.statement.lines@.len());
        if m.statement.lines.len() == 0 {
            let account = match landing_account(chart, &m.statement) {
                Ok(a) => a,
                Err(e) => {
                    proof {
                        refused_openings_stay(*chart, ms, hs, ts, i as int + 1, ms.len() as int);
                    }
                    return Err(e);
                },
            };
            let c = m.statement.currency;
            let new = chain::planned_moves_of(planned, account.as_str(), c);
            let opened = chain::planned_moves_of(&out, account.as_str(), c);
            proof {
                assert(chain::planned_views(out@) =~= plan::transactions_of(
                    plan::filed_views(out@),
                ));
                assert(chain::move_views(new@).len() == new@.len());
                assert(chain::move_views(opened@).len() == opened@.len());
            }
            let none = held[i] == 0 && new.len() == 0 && opened.len() == 0;
            let count: usize = if none {
                0
            } else {
                1
            };
            if let Some(t) = open_idle(account.as_str(), &m.statement, count) {
                let ghost tv = t@;
                out.push((i, t));
                assert(plan::filed_views(out@) =~= plan::filed_views(before).push((i as int, tv)));
            }
        }
        i = i + 1;
    }
    Ok(out)
}

/// What an import writes.
#[derive(Debug)]
pub struct Writes {
    pub plan: plan::Plan,
    /// The openings of the statements without rows, each with the place of its
    /// statement.
    pub idle: Vec<(usize, Transaction)>,
    /// The figures to record.
    pub figures: Vec<BalanceAssertion>,
}

#[verifier::ext_equal]
pub struct WritesV {
    pub plan: PlanV,
    pub idle: Seq<(int, TransactionV)>,
    pub figures: Seq<AssertionV>,
}

impl View for Writes {
    type V = WritesV;

    open spec fn view(&self) -> WritesV {
        WritesV {
            plan: self.plan@,
            idle: plan::filed_views(self.idle@),
            figures: assertion::views(self.figures@),
        }
    }
}

/// The figures at the places `new`.
pub open spec fn picked(figures: Seq<AssertionV>, new: Seq<int>) -> Seq<AssertionV> {
    new.map_values(|i: int| figures[i])
}

/// Are `ls` the statements with rows, each where it lands?
pub open spec fn are_landed(ls: Seq<plan::held::LandingV>, landed: Seq<LandingV>, ms: Seq<MergedV>) -> bool {
    &&& ls.len() == landed.len()
    &&& forall|i: int|
        0 <= i < ls.len() ==> (#[trigger] ls[i]).account == landed[i].account && ls[i].statement
            == ms[landed[i].at].statement && ls[i].files == landed[i].files
}

/// What an import of the statements writes into a ledger that holds `ls` of
/// those with rows, `held` postings of those without, knows the refs `known`
/// and has the figures `recorded`.
pub open spec fn written(
    chart: Chart,
    ms: Seq<MergedV>,
    landed: Seq<LandingV>,
    ls: Seq<plan::held::LandingV>,
    held: Seq<int>,
    known: Seq<Seq<char>>,
    matched: Seq<int>,
    drawn: Seq<Seq<(int, Dec)>>,
    candidates: Seq<Seq<char>>,
    recorded: Seq<AssertionV>,
) -> Result<WritesV, Seq<char>> {
    match plan::all_sorted(
        ls,
        known,
        accounts::table(chart.institution.accounts@),
        ls.len() as int,
    ) {
        Err(e) => Err(e),
        Ok(sorted) => match plan::planned(
            plan::ground(chart, ls, sorted, matched, drawn, candidates),
        ) {
            Err(e) => Err(e),
            Ok(p) => match idle_openings(
                chart,
                ms,
                held,
                plan::transactions_of(p.transactions),
                ms.len() as int,
            ) {
                Err(e) => Err(e),
                Ok(idle) => match all_stated(chart, ms, landed, p.openings) {
                    Err(e) => Err(e),
                    Ok(figures) => match to_record(recorded, figures) {
                        Err(e) => Err(e),
                        Ok(new) => Ok(
                            WritesV { plan: p, idle, figures: picked(figures, new) },
                        ),
                    },
                },
            },
        },
    }
}

/// Decides what an import of the statements writes. `statements` are those with
/// rows, with what the ledger holds of each; `held` is how many postings it
/// holds on the account of each of `merged`, read for those without rows.
pub fn import(
    chart: &Chart,
    merged: &Vec<Merged>,
    landed: &Vec<Landing>,
    statements: &Vec<plan::Statement>,
    held: &Vec<usize>,
    known_refs: &Vec<String>,
    candidates: &Vec<plan::Candidate>,
    matches: &Vec<plan::Matching>,
    recorded: &Vec<BalanceAssertion>,
) -> (r: Result<Writes, Refusal>)
    requires
        landings(*chart, bank::merged_views(merged@)) matches Ok(l) && l.0 == landing_views(
            landed@,
        ),
        are_landed(
            pairs::landings(statements@),
            landing_views(landed@),
            bank::merged_views(merged@),
        ),
        forall|i: int| 0 <= i < merged@.len() ==> is_readable((#[trigger] merged@[i]).statement@),
        plan::plannable(pairs::landings(statements@)),
        plan::draws_on(plan::drawn(matches@), plan::candidate_accounts(candidates@)),
        held@.len() == merged@.len(),
    ensures
        ({
            let all = written(
                *chart,
                bank::merged_views(merged@),
                landing_views(landed@),
                pairs::landings(statements@),
                bank::span_views(held@),
                text::texts(known_refs@),
                plan::matched(matches@),
                plan::drawn(matches@),
                plan::candidate_accounts(candidates@),
                assertion::views(recorded@),
            );
            match r {
                Ok(w) => all == Ok::<WritesV, Seq<char>>(w@),
                Err(e) => all == Err::<WritesV, Seq<char>>(e@),
            }
        }),
{
    let planned = plan::plan(chart, statements, known_refs, candidates, matches)?;
    assert(chain::planned_views(planned.transactions@) =~= plan::transactions_of(
        plan::filed_views(planned.transactions@),
    ));
    let idle = openings_of_idle(chart, merged, held, &planned.transactions)?;
    proof {
        landings_stand(*chart, bank::merged_views(merged@));
        again::each_sorted(
            pairs::landings(statements@),
            text::texts(known_refs@),
            accounts::table(chart.institution.accounts@),
            statements@.len() as int,
        );
        assert(landing_views(landed@).len() == landed@.len());
        assert(pairs::landings(statements@).len() == statements@.len());
        assert forall|i: int| 0 <= i < landed@.len() implies (#[trigger] landed@[i]).at
            < merged@.len() by {
            assert(landing_views(landed@)[i] == landed@[i]@);
        }
        assert(plan::days_of(planned.openings@) =~= day_views(planned.openings@));
        assert(plan::days_of(planned.openings@).len() == planned.openings@.len());
    }
    let stated = figures_of(chart, merged, landed, &planned.openings)?;
    let new = new_figures(recorded, &stated)?;
    let ghost all = assertion::views(stated@);
    let ghost at = bank::span_views(new@);
    proof {
        assert(all.take(all.len() as int) =~= all);
        each_is_recorded(assertion::views(recorded@), all, all.len() as int);
    }
    let mut figures: Vec<BalanceAssertion> = Vec::new();
    let mut i: usize = 0;
    while i < new.len()
        invariant
            i <= new@.len(),
            all == assertion::views(stated@),
            at == bank::span_views(new@),
            at.len() == new@.len(),
            forall|k: int| 0 <= k < at.len() ==> 0 <= (#[trigger] at[k]) < all.len(),
            figures@.len() == i,
            forall|k: int| 0 <= k < i ==> (#[trigger] figures@[k])@ == all[at[k]],
        decreases new@.len() - i,
    {
        assert(at[i as int] == new@[i as int]);
        assert(all[at[i as int]] == stated@[new@[i as int] as int]@);
        figures.push(stated[new[i]].copy());
        i = i + 1;
    }
    assert(assertion::views(figures@) =~= picked(all, at));
    Ok(Writes { plan: planned, idle, figures })
}

proof fn openings_so_far(
    chart: Chart,
    ms: Seq<MergedV>,
    held: Seq<int>,
    ts: Seq<TransactionV>,
    n: int,
    m: int,
)
    requires
        n <= m,
        idle_openings(chart, ms, held, ts, m) is Ok,
    ensures
        ({
            let all = idle_openings(chart, ms, held, ts, m)->Ok_0;
            &&& idle_openings(chart, ms, held, ts, n) matches Ok(some)
            &&& some.len() <= all.len()
            &&& some == all.take(some.len() as int)
        }),
    decreases m - n,
{
    let all = idle_openings(chart, ms, held, ts, m)->Ok_0;
    if n < m {
        openings_so_far(chart, ms, held, ts, n, m - 1);
        let some = idle_openings(chart, ms, held, ts, n)->Ok_0;
        assert(some =~= all.take(some.len() as int));
    } else {
        assert(all =~= all.take(all.len() as int));
    }
}

proof fn legs_grow(v: Seq<(int, TransactionV)>, n: int, account: Seq<char>, c: Currency)
    requires
        0 <= n <= v.len(),
    ensures
        legs_on(plan::transactions_of(v.take(n)), account, c) <= legs_on(
            plan::transactions_of(v),
            account,
            c,
        ),
    decreases v.len() - n,
{
    if n < v.len() {
        legs_grow(v, n + 1, account, c);
        let ts = plan::transactions_of(v.take(n + 1));
        assert(ts.drop_last() =~= plan::transactions_of(v.take(n)));
    } else {
        assert(v.take(n) =~= v);
    }
}

proof fn an_opening_is_held(account: Seq<char>, s: StatementV, v: Seq<(int, TransactionV)>, i: int)
    requires
        idle_opening(account, s, 0) is Some,
    ensures
        legs_on(
            plan::transactions_of(v.push((i, idle_opening(account, s, 0)->0))),
            account,
            s.currency,
        ) >= 1,
{
    let t = idle_opening(account, s, 0)->0;
    let ts = plan::transactions_of(v.push((i, t)));
    assert(ts.last() == t);
    let legs = t.postings;
    assert(legs.len() == 2);
    assert(legs.drop_last().drop_last() =~= Seq::empty());
    assert(legs.drop_last().last() == legs[0]);
    assert(chain::leg_moves(legs.drop_last(), t.date, account, s.currency).len() >= 1);
    assert(chain::leg_moves(legs, t.date, account, s.currency).len() >= 1);
}

/// Does the ledger now hold, on the account of each statement without rows,
/// what it held and what the import wrote there?
pub open spec fn holds_more(
    chart: Chart,
    ms: Seq<MergedV>,
    held: Seq<int>,
    w: WritesV,
    now: Seq<int>,
) -> bool {
    forall|i: int|
        0 <= i < ms.len() && is_idle(#[trigger] ms[i]) ==> (account_of(
            chart,
            ms[i].statement,
        ) matches Ok(a) ==> now[i] == held[i] + legs_on(
            plan::transactions_of(w.plan.transactions),
            a,
            ms[i].statement.currency,
        ) + legs_on(plan::transactions_of(w.idle), a, ms[i].statement.currency))
}

proof fn idle_accounts_open_once(
    chart: Chart,
    ms: Seq<MergedV>,
    held: Seq<int>,
    w: WritesV,
    now: Seq<int>,
    n: int,
)
    requires
        0 <= n <= ms.len(),
        forall|i: int| 0 <= i < ms.len() ==> 0 <= #[trigger] held[i],
        idle_openings(
            chart,
            ms,
            held,
            plan::transactions_of(w.plan.transactions),
            ms.len() as int,
        ) == Ok::<Seq<(int, TransactionV)>, Seq<char>>(w.idle),
        holds_more(chart, ms, held, w, now),
    ensures
        idle_openings(chart, ms, now, Seq::empty(), n) == Ok::<
            Seq<(int, TransactionV)>,
            Seq<char>,
        >(Seq::empty()),
    decreases n,
{
    if n > 0 {
        idle_accounts_open_once(chart, ms, held, w, now, n - 1);
        let ts = plan::transactions_of(w.plan.transactions);
        let all = ms.len() as int;
        let s = ms[n - 1].statement;
        openings_so_far(chart, ms, held, ts, n - 1, all);
        openings_so_far(chart, ms, held, ts, n, all);
        assert(held[n - 1] >= 0);
        if is_idle(ms[n - 1]) {
            let a = account_of(chart, s)->Ok_0;
            let c = s.currency;
            let before = idle_openings(chart, ms, held, ts, n - 1)->Ok_0;
            let after = idle_openings(chart, ms, held, ts, n)->Ok_0;
            legs_grow(w.idle, before.len() as int, a, c);
            legs_grow(w.idle, after.len() as int, a, c);
            let on = held[n - 1] + legs_on(ts, a, c) + legs_on(
                plan::transactions_of(before),
                a,
                c,
            );
            if on == 0 && idle_opening(a, s, 0) is Some {
                an_opening_is_held(a, s, before, n - 1);
            }
            let none = Seq::<(int, TransactionV)>::empty();
            assert(plan::transactions_of(none) =~= Seq::<TransactionV>::empty());
            assert(legs_on(Seq::empty(), a, c) == 0);
            assert(now[n - 1] >= on);
        }
    }
}

/// Does the record of each account begin where it did?
pub open spec fn begins_as_before(
    ls: Seq<plan::held::LandingV>,
    after: Seq<plan::held::LandingV>,
) -> bool {
    forall|i: int|
        0 <= i < ls.len() ==> plan::held::opening_day(#[trigger] after[i])
            == plan::held::opening_day(ls[i])
}

/// Do figures that close one day close it alike?
pub open spec fn close_alike(figures: Seq<AssertionV>) -> bool {
    forall|i: int, j: int|
        0 <= i < figures.len() && 0 <= j < figures.len() && one_day(
            #[trigger] figures[i],
            #[trigger] figures[j],
        ) ==> amount::equal(figures[i].closing, figures[j].closing)
}

/// An import repeated writes nothing. Once an import is kept, importing the same
/// statements again succeeds: it books no transaction, opens no account, checks
/// and moves no record, and records no figure. `again` are the refs the ledger
/// then knows, `ids` the ids of the transactions the import wrote and `now` how
/// many postings the ledger then holds of each statement without rows.
pub proof fn an_import_repeated_writes_nothing(
    chart: Chart,
    ms: Seq<MergedV>,
    landed: Seq<LandingV>,
    ls: Seq<plan::held::LandingV>,
    held: Seq<int>,
    known: Seq<Seq<char>>,
    matched: Seq<int>,
    drawn: Seq<Seq<(int, Dec)>>,
    candidates: Seq<Seq<char>>,
    recorded: Seq<AssertionV>,
    sorted: Seq<plan::held::SortedV>,
    w: WritesV,
    ids: Seq<int>,
    again: Seq<Seq<char>>,
    now: Seq<int>,
)
    requires
        are_landed(ls, landed, ms),
        written(
            chart,
            ms,
            landed,
            ls,
            held,
            known,
            matched,
            drawn,
            candidates,
            recorded,
        ) == Ok::<WritesV, Seq<char>>(w),
        again::is_repeatable(
            chart,
            ls,
            known,
            plan::ground(chart, ls, sorted, matched, drawn, candidates),
            w.plan,
            ids,
        ),
        again::knows(again, known, w.plan),
        begins_as_before(ls, carried::landed_after(ls, w.plan, ids)),
        forall|i: int| 0 <= i < ms.len() ==> 0 <= #[trigger] held[i],
        holds_more(chart, ms, held, w, now),
        all_stated(chart, ms, landed, w.plan.openings) matches Ok(figures) && close_alike(figures),
    ensures
        written(
            chart,
            ms,
            landed,
            carried::landed_after(ls, w.plan, ids),
            now,
            again,
            matched,
            drawn,
            candidates,
            recorded + w.figures,
        ) == Ok::<WritesV, Seq<char>>(
            (WritesV {
                plan: PlanV {
                    transactions: Seq::empty(),
                    openings: w.plan.openings,
                    verified: Seq::empty(),
                    deferred: Seq::empty(),
                },
                idle: Seq::empty(),
                figures: Seq::empty(),
            }),
        ),
{
    let accounts = accounts::table(chart.institution.accounts@);
    let n = ls.len() as int;
    let after = carried::landed_after(ls, w.plan, ids);
    again::statements_imported_again_add_nothing(
        chart,
        ls,
        known,
        matched,
        drawn,
        candidates,
        sorted,
        w.plan,
        ids,
        again,
        matched,
        drawn,
        candidates,
    );
    let resorted = plan::all_sorted(after, again, accounts, n)->Ok_0;
    again::each_sorted(ls, known, accounts, n);
    again::each_sorted(after, again, accounts, n);
    let days = again::nothing_to_do(resorted).openings;
    assert forall|i: int| 0 <= i < n implies days[i] == #[trigger] w.plan.openings[i] by {
        assert(plan::held::sorted(after[i], again, accounts) == Ok::<
            plan::held::SortedV,
            Seq<char>,
        >(resorted[i]));
        assert(plan::held::sorted(ls[i], known, accounts) == Ok::<
            plan::held::SortedV,
            Seq<char>,
        >(sorted[i]));
        again::sorted_parts(after[i], again, accounts);
        again::sorted_parts(ls[i], known, accounts);
    }
    assert(days =~= w.plan.openings);
    let none = Seq::<(int, TransactionV)>::empty();
    assert(plan::transactions_of(none) =~= Seq::<TransactionV>::empty());
    idle_accounts_open_once(chart, ms, held, w, now, ms.len() as int);
    let figures = all_stated(chart, ms, landed, w.plan.openings)->Ok_0;
    figures_stated_again_add_nothing(recorded, figures);
    assert(picked(figures, Seq::empty()) =~= Seq::empty());
}

/// What an import did.
#[derive(Debug)]
pub struct Report {
    pub bank: Bank,
    pub counts: plan::Counts,
    pub inserted: usize,
    pub batches: usize,
    pub check: CheckReport,
}

/// How a report reads, apart from the check.
pub open spec fn report_head(r: Report) -> Seq<char> {
    let c = r.counts;
    "imported "@ + bank::bank_text(r.bank) + " statements:\n  "@ + text::digits(r.inserted as nat)
        + " transactions inserted from "@ + text::digits(r.batches as nat) + " files\n  "@
        + text::digits(c.openings as nat) + " openings created\n  "@ + text::digits(c.new as nat)
        + " lines new ("@ + text::digits(c.matched as nat) + " matched, "@ + text::digits(
        c.uncategorised as nat,
    ) + " uncategorised)\n  "@ + text::digits(c.known as nat) + " lines already held, "@
        + text::digits(c.covered as nat) + " booked with their partner\n  "@ + text::digits(
        c.predate_opening as nat,
    ) + " lines on or before the account's opening\n"@
}

impl Report {
    pub fn text(&self) -> (r: String)
        requires
            check::printable(self.check@),
        ensures
            r@ == report_head(*self) + check::report_text(self.check@),
    {
        let c = &self.counts;
        let mut out = text::copy("imported ");
        out.append(self.bank.text());
        out.append(" statements:\n  ");
        out.append(text::number(self.inserted).as_str());
        out.append(" transactions inserted from ");
        out.append(text::number(self.batches).as_str());
        out.append(" files\n  ");
        out.append(text::number(c.openings).as_str());
        out.append(" openings created\n  ");
        out.append(text::number(c.new).as_str());
        out.append(" lines new (");
        out.append(text::number(c.matched).as_str());
        out.append(" matched, ");
        out.append(text::number(c.uncategorised).as_str());
        out.append(" uncategorised)\n  ");
        out.append(text::number(c.known).as_str());
        out.append(" lines already held, ");
        out.append(text::number(c.covered).as_str());
        out.append(" booked with their partner\n  ");
        out.append(text::number(c.predate_opening).as_str());
        out.append(" lines on or before the account's opening\n");
        assert(out@ =~= report_head(*self));
        out.append(self.check.text().as_str());
        out
    }
}

/// Every statement with rows lands on the account its number stands for, and
/// none without rows does.
pub proof fn a_statement_with_rows_lands(chart: Chart, ms: Seq<MergedV>, i: int) -> (j: int)
    requires
        landings(chart, ms) is Ok,
        0 <= i < ms.len(),
        ms[i].statement.lines.len() > 0,
    ensures
        ({
            let landed = (landings(chart, ms)->Ok_0).0;
            &&& 0 <= j < landed.len()
            &&& landed[j].at == i
            &&& accounts::under(
                accounts::table(chart.institution.accounts@),
                ms[i].statement.account_no,
            ) == Some(landed[j].account)
            &&& exists|first: int|
                0 <= first && landed[j].files == #[trigger] line_files(ms[i].spans, first)
        }),
    decreases ms.len(),
{
    count_bound(chart, ms.drop_last());
    if i < ms.len() - 1 {
        a_statement_with_rows_lands(chart, ms.drop_last(), i)
    } else {
        let first = (landings(chart, ms.drop_last())->Ok_0).1;
        let j = (landings(chart, ms)->Ok_0).0.len() - 1;
        assert((landings(chart, ms)->Ok_0).0[j].files == line_files(ms[i].spans, first));
        j
    }
}

/// What lands is a statement with rows.
pub proof fn what_lands_has_rows(chart: Chart, ms: Seq<MergedV>, j: int)
    requires
        landings(chart, ms) is Ok,
        0 <= j < (landings(chart, ms)->Ok_0).0.len(),
    ensures
        ({
            let l = (landings(chart, ms)->Ok_0).0[j];
            0 <= l.at < ms.len() && ms[l.at].statement.lines.len() > 0
        }),
    decreases ms.len(),
{
    if ms.len() > 0 && j < (landings(chart, ms.drop_last())->Ok_0).0.len() {
        what_lands_has_rows(chart, ms.drop_last(), j);
        let l = (landings(chart, ms.drop_last())->Ok_0).0[j];
        assert(ms.drop_last()[l.at] == ms[l.at]);
    }
}

/// How many lines the files before the one at `n` have.
pub open spec fn lines_before(spans: Seq<int>, n: int) -> int
    decreases n,
{
    if n <= 0 {
        0
    } else {
        lines_before(spans, n - 1) + spans[n - 1]
    }
}

/// The lines of a statement come from its files in turn: after those of the
/// files before it, as many from each as its span.
pub proof fn lines_come_from_their_files(spans: Seq<int>, first: int, n: int, i: int)
    requires
        forall|k: int| 0 <= k < spans.len() ==> 0 <= #[trigger] spans[k],
        0 <= n < spans.len(),
        0 <= i < spans[n],
    ensures
        line_files(spans, first).len() == lines_before(spans, spans.len() as int),
        0 <= lines_before(spans, n) + i < line_files(spans, first).len(),
        line_files(spans, first)[lines_before(spans, n) + i] == first + n,
    decreases spans.len(),
{
    let shorter = spans.drop_last();
    assert forall|k: int| 0 <= k < shorter.len() implies 0 <= #[trigger] shorter[k] by {
        assert(shorter[k] == spans[k]);
    }
    files_are_counted(shorter, first);
    same_before(spans, shorter.len() as int);
    same_before(spans, n);
    assert(spans.last() == spans[spans.len() - 1]);
    if n < shorter.len() {
        assert(shorter[n] == spans[n]);
        lines_come_from_their_files(shorter, first, n, i);
    }
}

proof fn files_are_counted(spans: Seq<int>, first: int)
    requires
        forall|k: int| 0 <= k < spans.len() ==> 0 <= #[trigger] spans[k],
    ensures
        line_files(spans, first).len() == lines_before(spans, spans.len() as int),
        0 <= lines_before(spans, spans.len() as int),
    decreases spans.len(),
{
    if spans.len() > 0 {
        let shorter = spans.drop_last();
        assert forall|k: int| 0 <= k < shorter.len() implies 0 <= #[trigger] shorter[k] by {
            assert(shorter[k] == spans[k]);
        }
        files_are_counted(shorter, first);
        same_before(spans, shorter.len() as int);
        assert(spans.last() == spans[spans.len() - 1]);
    }
}

proof fn same_before(spans: Seq<int>, n: int)
    requires
        0 <= n < spans.len(),
        forall|k: int| 0 <= k < spans.len() ==> 0 <= #[trigger] spans[k],
    ensures
        lines_before(spans.drop_last(), n) == lines_before(spans, n),
        0 <= lines_before(spans, n),
    decreases n,
{
    if n > 0 {
        same_before(spans, n - 1);
        assert(spans.drop_last()[n - 1] == spans[n - 1]);
    }
}

proof fn places_to_record(recorded: Seq<AssertionV>, figures: Seq<AssertionV>, i: int)
    requires
        to_record(recorded, figures) is Ok,
        0 <= i < figures.len(),
    ensures
        to_record(recorded, figures)->Ok_0.contains(i) <==> recorded_at(
            recorded,
            figures[i],
            0,
        ) is None,
        recorded_at(recorded, figures[i], 0) matches Some(k) ==> amount::equal(
            recorded[k].closing,
            figures[i].closing,
        ),
        forall|k: int|
            0 <= k < to_record(recorded, figures)->Ok_0.len() ==> 0 <= (#[trigger] to_record(
                recorded,
                figures,
            )->Ok_0[k]) < figures.len(),
    decreases figures.len(),
{
    let shorter = figures.drop_last();
    let rest = to_record(recorded, shorter)->Ok_0;
    let now = to_record(recorded, figures)->Ok_0;
    if shorter.len() > 0 {
        let k = if i < shorter.len() {
            i
        } else {
            0
        };
        places_to_record(recorded, shorter, k);
    } else {
        reveal_with_fuel(to_record, 2);
    }
    assert(forall|k: int| 0 <= k < rest.len() ==> now[k] == #[trigger] rest[k]);
    assert forall|k: int| 0 <= k < now.len() implies 0 <= (#[trigger] now[k])
        < figures.len() by {
        if k < rest.len() {
            assert(now[k] == rest[k]);
        }
    }
    if i < shorter.len() {
        assert(shorter[i] == figures[i]);
        if rest.contains(i) {
            let k = choose|k: int| 0 <= k < rest.len() && rest[k] == i;
            assert(now[k] == i);
        }
        if now.contains(i) {
            let k = choose|k: int| 0 <= k < now.len() && now[k] == i;
            if k < rest.len() {
                assert(rest[k] == i);
            }
        }
    } else {
        if recorded_at(recorded, figures[i], 0) is None {
            assert(now[rest.len() as int] == i);
        } else if now.contains(i) {
            let k = choose|k: int| 0 <= k < now.len() && now[k] == i;
            assert(rest[k] == i);
        }
    }
}

/// Does a recorded figure close the day of another, on its account, in its
/// currency and from its source?
pub open spec fn closes_its_day(recorded: Seq<AssertionV>, a: AssertionV) -> bool {
    exists|k: int|
        0 <= k < recorded.len() && (#[trigger] recorded[k]).account == a.account
            && recorded[k].currency == a.currency && recorded[k].source == a.source
            && recorded[k].period_end == a.period_end
}

/// A figure is recorded where none closes its day yet; where one does, it must
/// close it on the same balance.
pub proof fn a_figure_is_recorded_where_none_is(
    recorded: Seq<AssertionV>,
    figures: Seq<AssertionV>,
    i: int,
)
    requires
        to_record(recorded, figures) is Ok,
        0 <= i < figures.len(),
    ensures
        to_record(recorded, figures)->Ok_0.contains(i) <==> !closes_its_day(recorded, figures[i]),
        closes_its_day(recorded, figures[i]) ==> exists|k: int|
            0 <= k < recorded.len() && one_day(#[trigger] recorded[k], figures[i])
                && amount::worth(recorded[k].closing) == amount::worth(figures[i].closing),
{
    let a = figures[i];
    places_to_record(recorded, figures, i);
    recorded_is_there(recorded, a, 0);
    if closes_its_day(recorded, a) {
        let k = choose|k: int|
            0 <= k < recorded.len() && (#[trigger] recorded[k]).account == a.account
                && recorded[k].currency == a.currency && recorded[k].source == a.source
                && recorded[k].period_end == a.period_end;
        assert(one_day(recorded[k], a));
    }
    if let Some(k) = recorded_at(recorded, a, 0) {
        assert(one_day(recorded[k], a));
        assert(recorded[k].account == a.account);
    }
}

/// An idle account is opened where nothing is held of it and its statement
/// opens on something: with that, against the opening equity.
pub proof fn an_idle_account_is_opened(account: Seq<char>, s: StatementV, held: int)
    requires
        bank::opening_balance(s) is Some,
    ensures
        ({
            let a = bank::opening_balance(s)->0;
            match idle_opening(account, s, held) {
                Some(t) => {
                    &&& held == 0
                    &&& a.magnitude != 0
                    &&& t.date == bank::start(s) - 1
                    &&& t.postings.len() == 2
                    &&& t.postings[0].account == account
                    &&& t.postings[0].amount == a
                    &&& t.postings[0].currency == s.currency
                    &&& t.postings[1].account == model::OPENING_EQUITY@
                    &&& t.postings[1].currency == s.currency
                    &&& amount::worth(t.postings[1].amount) == -amount::worth(a)
                },
                None => held != 0 || a.magnitude == 0,
            }
        }),
{
    amount::negated_worth(bank::opening_balance(s)->0);
}

} // verus!
