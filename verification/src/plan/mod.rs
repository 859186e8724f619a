//! Decides what a bank import writes, without touching the database: which
//! statement lines the ledger already holds, how the new ones pair up, and
//! whether the result chains onto the ledger's balances day by day.

pub mod again;
pub mod booked;
pub mod carried;
pub mod chain;
pub mod held;
pub mod laws;
pub mod pairs;
pub mod standing;
pub mod tally;

use vstd::prelude::*;

use crate::accounts;
use crate::accounts::Chart;
use crate::amount;
use crate::amount::{Amount, Dec};
use crate::currency::Currency;
use crate::date;
use crate::date::Date;
use crate::model;
use crate::model::{
    HeldV, LedgerPosting, Posting, PostingV, Source, Transaction, TransactionV, Verification,
    VerificationV,
};
use crate::names;
pub use crate::plan::held::{Deferred, Statement, VERIFY_WINDOW_DAYS};
use crate::plan::held::{DeferredV, LandingV, Sorted, SortedV, Status};
use crate::plan::pairs::{Context, Shape};
use crate::refusal;
use crate::refusal::Refusal;
use crate::statements::bank;
use crate::statements::bank::{LineV, StatementLine};
use crate::text;

verus! {

/// An app record a line may be matched to, already resolved to the account it
/// books against.
#[derive(Clone, Debug)]
pub struct Candidate {
    pub date: Date,
    pub amount: Amount,
    pub currency: Currency,
    pub account: String,
}

/// What the matcher made of a line: the candidates it draws on, each with what
/// it draws.
#[derive(Clone, Debug)]
pub struct Matching {
    /// The line, by its place among those left to the matcher.
    pub target: usize,
    pub consumed: Vec<(usize, Amount)>,
}

/// What a line draws on the candidates.
pub open spec fn drawn_views(v: Seq<(usize, Amount)>) -> Seq<(int, Dec)> {
    v.map_values(|c: (usize, Amount)| (c.0 as int, c.1@))
}

pub open spec fn drawn(v: Seq<Matching>) -> Seq<Seq<(int, Dec)>> {
    v.map_values(|m: Matching| drawn_views(m.consumed@))
}

pub open spec fn matched(v: Seq<Matching>) -> Seq<int> {
    v.map_values(|m: Matching| m.target as int)
}

/// The accounts the candidates book against.
pub open spec fn candidate_accounts(v: Seq<Candidate>) -> Seq<Seq<char>> {
    v.map_values(|c: Candidate| c.account@)
}

/// Does every line draw on candidates there are?
pub open spec fn draws_on(drawn: Seq<Seq<(int, Dec)>>, candidates: Seq<Seq<char>>) -> bool {
    forall|m: int, i: int|
        0 <= m < drawn.len() && 0 <= i < drawn[m].len() ==> 0 <= (#[trigger] drawn[m][i]).0
            < candidates.len()
}

#[derive(Clone, Copy, Debug, PartialEq, Eq)]
pub struct Counts {
    /// Folded into the account's opening.
    pub predate_opening: usize,
    pub known: usize,
    /// The far half of a transfer, or a reversal, the ledger already booked
    /// with its partner line.
    pub covered: usize,
    pub new: usize,
    /// Unverified records a line verified.
    pub verified: usize,
    /// Unverified records the statement ends before.
    pub deferred: usize,
    pub openings: usize,
    pub matched: usize,
    pub uncategorised: usize,
}

#[derive(Debug)]
pub struct Plan {
    /// Each with the index of the file it came from; its batch is assigned at
    /// insert.
    pub transactions: Vec<(usize, Transaction)>,
    pub counts: Counts,
    /// Each statement's opening date; the ledger tracks its lines after it.
    pub openings: Vec<Date>,
    pub verified: Vec<Verification>,
    pub deferred: Vec<Deferred>,
}

/// A kind of status.
#[derive(Clone, Copy, PartialEq, Eq, Structural, Debug)]
pub enum Kind {
    PredatesOpening,
    Known,
    Covered,
    Verifies,
    New,
}

pub open spec fn kind(s: Status) -> Kind {
    match s {
        Status::PredatesOpening => Kind::PredatesOpening,
        Status::Known => Kind::Known,
        Status::Covered => Kind::Covered,
        Status::Verifies(_) => Kind::Verifies,
        Status::New => Kind::New,
    }
}

/// How many lines are of a kind.
pub open spec fn count_in(statuses: Seq<Status>, k: Kind) -> nat
    decreases statuses.len(),
{
    if statuses.len() == 0 {
        0
    } else {
        count_in(statuses.drop_last(), k) + (if kind(statuses.last()) == k {
            1nat
        } else {
            0nat
        })
    }
}

/// How many lines of all statements are of a kind.
pub open spec fn count(all: Seq<SortedV>, k: Kind) -> nat
    decreases all.len(),
{
    if all.len() == 0 {
        0
    } else {
        count(all.drop_last(), k) + count_in(all.last().statuses, k)
    }
}

/// How many lines all statements have.
pub open spec fn line_total(ls: Seq<LandingV>) -> nat
    decreases ls.len(),
{
    if ls.len() == 0 {
        0
    } else {
        line_total(ls.drop_last()) + ls.last().statement.lines.len()
    }
}

proof fn line_total_grows(ls: Seq<LandingV>, n: int)
    requires
        0 <= n < ls.len(),
    ensures
        line_total(ls.take(n + 1)) == line_total(ls.take(n)) + ls[n].statement.lines.len(),
        line_total(ls.take(n + 1)) <= line_total(ls),
    decreases ls.len(),
{
    assert(ls.take(n + 1).drop_last() =~= ls.take(n));
    if n + 1 == ls.len() {
        assert(ls.take(n + 1) =~= ls);
    } else {
        line_total_grows(ls.drop_last(), n);
        assert(ls.drop_last().take(n + 1) =~= ls.take(n + 1));
    }
}

fn kind_of(s: Status) -> (r: Kind)
    ensures
        r == kind(s),
{
    match s {
        Status::PredatesOpening => Kind::PredatesOpening,
        Status::Known => Kind::Known,
        Status::Covered => Kind::Covered,
        Status::Verifies(_) => Kind::Verifies,
        Status::New => Kind::New,
    }
}

fn count_of(sorted: &Vec<Sorted>, k: Kind, ls: Ghost<Seq<LandingV>>) -> (r: usize)
    requires
        pairs::all_sort(sorted@, ls@),
        line_total(ls@) <= usize::MAX,
    ensures
        r == count(pairs::sorted_views(sorted@), k),
{
    let ghost all = pairs::sorted_views(sorted@);
    let mut n: usize = 0;
    let mut si: usize = 0;
    while si < sorted.len()
        invariant
            si <= sorted@.len(),
            all == pairs::sorted_views(sorted@),
            pairs::all_sort(sorted@, ls@),
            line_total(ls@) <= usize::MAX,
            n == count(all.take(si as int), k),
            n <= line_total(ls@.take(si as int)),
        decreases sorted@.len() - si,
    {
        let statuses = &sorted[si].statuses;
        let ghost here = sorted@[si as int]@.statuses;
        let ghost before = n;
        proof {
            assert(pairs::sorts(sorted@[si as int], ls@[si as int]));
            line_total_grows(ls@, si as int);
            assert(all.take(si as int + 1).drop_last() =~= all.take(si as int));
            assert(all.take(si as int + 1).last() == sorted@[si as int]@);
        }
        let mut li: usize = 0;
        while li < statuses.len()
            invariant
                li <= statuses@.len(),
                here == statuses@,
                n == before + count_in(here.take(li as int), k),
                n <= before + li,
                before + here.len() <= usize::MAX,
            decreases statuses@.len() - li,
        {
            assert(here.take(li as int + 1).drop_last() =~= here.take(li as int));
            if kind_of(statuses[li]) == k {
                n = n + 1;
            }
            li = li + 1;
        }
        assert(here.take(li as int) =~= here);
        si = si + 1;
    }
    assert(all.take(si as int) =~= all);
    n
}

/// What the ledger holds of each of the first `n` statements.
pub open spec fn all_sorted(
    ls: Seq<LandingV>,
    known: Seq<Seq<char>>,
    accounts: Seq<(Seq<char>, Seq<char>)>,
    n: int,
) -> Result<Seq<SortedV>, Seq<char>>
    decreases n,
{
    if n <= 0 {
        Ok(Seq::empty())
    } else {
        match all_sorted(ls, known, accounts, n - 1) {
            Err(e) => Err(e),
            Ok(before) => match held::sorted(ls[n - 1], known, accounts) {
                Err(e) => Err(e),
                Ok(s) => Ok(before.push(s)),
            },
        }
    }
}

proof fn sorted_refused_stays(
    ls: Seq<LandingV>,
    known: Seq<Seq<char>>,
    accounts: Seq<(Seq<char>, Seq<char>)>,
    n: int,
    m: int,
)
    requires
        0 <= n <= m,
        all_sorted(ls, known, accounts, n) is Err,
    ensures
        all_sorted(ls, known, accounts, m) == all_sorted(ls, known, accounts, n),
    decreases m,
{
    if n < m {
        sorted_refused_stays(ls, known, accounts, n, m - 1);
    }
}

/// Can every statement be planned?
pub open spec fn plannable(ls: Seq<LandingV>) -> bool {
    &&& line_total(ls) <= usize::MAX
    &&& forall|i: int| 0 <= i < ls.len() ==> held::plannable(#[trigger] ls[i])
}

proof fn line_total_reaches(ls: Seq<LandingV>, n: int)
    requires
        0 <= n <= ls.len(),
    ensures
        line_total(ls.take(n)) <= line_total(ls),
    decreases ls.len() - n,
{
    if n < ls.len() {
        assert(ls.take(n + 1).drop_last() =~= ls.take(n));
        line_total_reaches(ls, n + 1);
    } else {
        assert(ls.take(n) =~= ls);
    }
}

/// Can every statement be planned?
pub fn can_be_planned(statements: &Vec<Statement>) -> (r: bool)
    ensures
        r == plannable(pairs::landings(statements@)),
{
    let ghost ls = pairs::landings(statements@);
    let mut total: usize = 0;
    let mut i: usize = 0;
    while i < statements.len()
        invariant
            i <= statements@.len(),
            ls == pairs::landings(statements@),
            total == line_total(ls.take(i as int)),
            forall|k: int| 0 <= k < i ==> held::plannable(#[trigger] ls[k]),
        decreases statements@.len() - i,
    {
        let s = &statements[i];
        proof {
            assert(ls[i as int] == s@);
            assert(ls.take(i as int + 1).drop_last() =~= ls.take(i as int));
            assert(ls.take(i as int + 1).last() == ls[i as int]);
            assert(s@.statement.lines.len() == s.statement.lines@.len());
            line_total_reaches(ls, i as int + 1);
        }
        if !held::can_be_planned(s) || s.statement.lines.len() > usize::MAX - total {
            return false;
        }
        total = total + s.statement.lines.len();
        i = i + 1;
    }
    assert(ls.take(i as int) =~= ls);
    true
}

fn sort_all(statements: &Vec<Statement>, known: &Vec<String>, accounts: &Vec<(String, String)>) -> (r:
    Result<Vec<Sorted>, Refusal>)
    requires
        plannable(pairs::landings(statements@)),
    ensures
        match r {
            Ok(v) => all_sorted(
                pairs::landings(statements@),
                text::texts(known@),
                accounts::table(accounts@),
                statements@.len() as int,
            ) == Ok::<Seq<SortedV>, Seq<char>>(pairs::sorted_views(v@)) && pairs::all_sort(
                v@,
                pairs::landings(statements@),
            ),
            Err(e) => all_sorted(
                pairs::landings(statements@),
                text::texts(known@),
                accounts::table(accounts@),
                statements@.len() as int,
            ) == Err::<Seq<SortedV>, Seq<char>>(e@),
        },
{
    let ghost ls = pairs::landings(statements@);
    let ghost kn = text::texts(known@);
    let ghost table = accounts::table(accounts@);
    let mut out: Vec<Sorted> = Vec::new();
    assert(pairs::sorted_views(out@) =~= Seq::empty());
    let mut i: usize = 0;
    while i < statements.len()
        invariant
            i <= statements@.len(),
            ls == pairs::landings(statements@),
            kn == text::texts(known@),
            table == accounts::table(accounts@),
            plannable(ls),
            out@.len() == i,
            all_sorted(ls, kn, table, i as int) == Ok::<Seq<SortedV>, Seq<char>>(
                pairs::sorted_views(out@),
            ),
            forall|j: int| 0 <= j < i ==> pairs::sorts(#[trigger] out@[j], ls[j]),
        decreases statements@.len() - i,
    {
        let ghost before = out@;
        assert(ls[i as int] == statements@[i as int]@);
        assert(held::plannable(ls[i as int]));
        match held::sort_lines(&statements[i], known, accounts) {
            Ok(s) => {
                out.push(s);
                assert(pairs::sorted_views(out@) =~= pairs::sorted_views(before).push(s@));
            },
            Err(e) => {
                proof {
                    sorted_refused_stays(ls, kn, table, i as int + 1, statements@.len() as int);
                }
                return Err(e);
            },
        }
        i = i + 1;
    }
    Ok(out)
}

/// The transaction that opens an account on `a`.
pub open spec fn opening_transaction(s: LandingV, a: Dec) -> TransactionV {
    let st = s.statement;
    TransactionV {
        date: bank::start(st) - 1,
        payee: Some("Opening balance"@),
        narration: Some(st.account_kind),
        source: Source::Import,
        external_ref: Some(bank::opening_ref(st.bank, s.account, st.currency)),
        import_batch_id: None,
        postings: seq![
            model::leg(s.account, a, st.currency),
            model::leg(model::OPENING_EQUITY@, amount::negated(a), st.currency),
        ],
    }
}

/// The openings of the accounts the ledger holds nothing of, among the first
/// `n` statements.
pub open spec fn openings(ls: Seq<LandingV>, sorted: Seq<SortedV>, n: int) -> Seq<
    (int, TransactionV),
>
    decreases n,
{
    if n <= 0 {
        Seq::empty()
    } else {
        let before = openings(ls, sorted, n - 1);
        match sorted[n - 1].fresh {
            Some(a) => before.push((ls[n - 1].files[0], opening_transaction(ls[n - 1], a))),
            None => before,
        }
    }
}

/// The legs a line draws from the candidates.
pub open spec fn drawn_legs(
    drawn: Seq<(int, Dec)>,
    candidates: Seq<Seq<char>>,
    c: Currency,
) -> Seq<PostingV> {
    drawn.map_values(|d: (int, Dec)| model::leg(candidates[d.0], amount::negated(d.1), c))
}

/// The amounts of the legs added up.
pub open spec fn leg_total(legs: Seq<PostingV>) -> Option<Dec>
    decreases legs.len(),
{
    if legs.len() == 0 {
        Some(amount::zero())
    } else {
        match leg_total(legs.drop_last()) {
            Some(t) => amount::sum(t, legs.last().amount),
            None => None,
        }
    }
}

/// What a plan is made from.
#[verifier::ext_equal]
pub struct Ground {
    pub chart: Chart,
    pub ls: Seq<LandingV>,
    pub sorted: Seq<SortedV>,
    /// The new lines.
    pub new: Seq<(int, int)>,
    pub shapes: Seq<Shape>,
    /// What each match draws on.
    pub drawn: Seq<Seq<(int, Dec)>>,
    /// The accounts the candidates book against.
    pub candidates: Seq<Seq<char>>,
}

/// The legs of the transaction of the new line `k`; `None` where a total is out
/// of range.
pub open spec fn legs(g: Ground, k: int) -> Option<Seq<PostingV>> {
    let at = g.new[k];
    let s = g.ls[at.0];
    let c = s.statement.currency;
    let d = pairs::delta_at(g.ls, at);
    let own = model::leg(s.account, d, c);
    match g.shapes[k] {
        Shape::Reversal(r) => Some(
            seq![own, model::leg(s.account, pairs::delta_at(g.ls, g.new[r as int]), c)],
        ),
        Shape::Transfer(o) => {
            let far = g.ls[g.new[o as int].0];
            let fc = far.statement.currency;
            let fd = pairs::delta_at(g.ls, g.new[o as int]);
            let both = seq![own, model::leg(far.account, fd, fc)];
            if fc == c {
                Some(both)
            } else {
                Some(
                    both.push(model::leg(model::CONVERSIONS@, amount::negated(d), c)).push(
                        model::leg(model::CONVERSIONS@, amount::negated(fd), fc),
                    ),
                )
            }
        },
        Shape::InTransit => Some(
            seq![own, model::leg(g.chart.institution.clearing@, amount::negated(d), c)],
        ),
        Shape::Matched(m) => {
            let some = seq![own] + drawn_legs(g.drawn[m as int], g.candidates, c);
            match leg_total(some) {
                None => None,
                Some(rest) => if rest.magnitude == 0 {
                    Some(some)
                } else {
                    Some(
                        some.push(
                            model::leg(
                                names::fallback(
                                    g.chart,
                                    pairs::line_at(g.ls, at).description,
                                    rest.negative,
                                ),
                                amount::negated(rest),
                                c,
                            ),
                        ),
                    )
                },
            }
        },
        _ => Some(
            seq![
                own,
                model::leg(
                    names::fallback(g.chart, pairs::line_at(g.ls, at).description, d.negative),
                    amount::negated(d),
                    c,
                ),
            ],
        ),
    }
}

/// What a line says of itself.
pub open spec fn narration(l: LineV) -> Option<Seq<char>> {
    if l.info.len() == 0 && l.memo.len() == 0 {
        None
    } else if l.memo.len() == 0 {
        Some(l.info)
    } else if l.info.len() == 0 {
        Some(l.memo)
    } else {
        Some(l.info + " · "@ + l.memo)
    }
}

/// The transaction of the new line `k` with these legs.
pub open spec fn line_transaction(g: Ground, k: int, postings: Seq<PostingV>) -> TransactionV {
    let at = g.new[k];
    let l = pairs::line_at(g.ls, at);
    TransactionV {
        date: l.book_date,
        payee: Some(
            match g.shapes[k] {
                Shape::Reversal(r) => pairs::line_at(g.ls, g.new[r as int]).description,
                _ => l.description,
            },
        ),
        narration: narration(l),
        source: Source::Import,
        external_ref: Some(g.sorted[at.0].refs[at.1]),
        import_batch_id: None,
        postings,
    }
}

/// The transactions of the first `n` new lines, with the files they come from;
/// `None` where a total is out of range.
pub open spec fn line_transactions(g: Ground, n: int) -> Option<Seq<(int, TransactionV)>>
    decreases n,
{
    if n <= 0 {
        Some(Seq::empty())
    } else {
        let k = n - 1;
        match line_transactions(g, k) {
            None => None,
            Some(before) => if g.shapes[k] == Shape::Absorbed {
                Some(before)
            } else {
                match legs(g, k) {
                    None => None,
                    Some(ps) => Some(
                        before.push(
                            (g.ls[g.new[k].0].files[g.new[k].1], line_transaction(g, k, ps)),
                        ),
                    ),
                }
            },
        }
    }
}

/// The posting at or after `from` of the transaction `id`.
pub open spec fn record_of(existing: Seq<HeldV>, id: int, from: int) -> Option<int>
    decreases existing.len() - from,
{
    if from < 0 || from >= existing.len() {
        None
    } else if existing[from].transaction_id == id {
        Some(from)
    } else {
        record_of(existing, id, from + 1)
    }
}

/// Does a line of a statement on `account` verify the record `id`?
pub open spec fn vouches(
    ls: Seq<LandingV>,
    sorted: Seq<SortedV>,
    id: i64,
    account: Seq<char>,
) -> bool {
    exists|si: int|
        0 <= si < ls.len() && (#[trigger] ls[si]).account == account && sorted[si].statuses.contains(
            Status::Verifies(id),
        )
}

/// The accounts among `others` with statements that no line here vouches for.
pub open spec fn unchecked(
    g: Ground,
    accounts: Seq<(Seq<char>, Seq<char>)>,
    id: i64,
    others: Seq<Seq<char>>,
) -> Seq<Seq<char>>
    decreases others.len(),
{
    if others.len() == 0 {
        Seq::empty()
    } else {
        let before = unchecked(g, accounts, id, others.drop_last());
        let a = others.last();
        if accounts::is_value(accounts, a) && !vouches(g.ls, g.sorted, id, a) {
            before.push(a)
        } else {
            before
        }
    }
}

/// What a line that verifies the record `id` says of it. A record that already
/// stands for another bank's line keeps that bank's date.
pub open spec fn verification(
    g: Ground,
    accounts: Seq<(Seq<char>, Seq<char>)>,
    si: int,
    li: int,
    id: i64,
    p: HeldV,
) -> VerificationV {
    VerificationV {
        transaction_id: id as int,
        date: if held::from_a_statement(p) {
            None
        } else {
            Some(g.ls[si].statement.lines[li].book_date)
        },
        statement_ref: g.sorted[si].refs[li],
        unchecked: unchecked(g, accounts, id, p.other_accounts),
    }
}

/// What the first `n` lines of the statement `si` verify.
pub open spec fn verified_in(
    g: Ground,
    accounts: Seq<(Seq<char>, Seq<char>)>,
    si: int,
    n: int,
) -> Seq<VerificationV>
    decreases n,
{
    if n <= 0 {
        Seq::empty()
    } else {
        let before = verified_in(g, accounts, si, n - 1);
        match g.sorted[si].statuses[n - 1] {
            Status::Verifies(id) => match record_of(g.ls[si].existing, id as int, 0) {
                Some(r) => before.push(
                    verification(g, accounts, si, n - 1, id, g.ls[si].existing[r]),
                ),
                None => before,
            },
            _ => before,
        }
    }
}

/// What the lines of the first `n` statements verify.
pub open spec fn verified(g: Ground, accounts: Seq<(Seq<char>, Seq<char>)>, n: int) -> Seq<
    VerificationV,
>
    decreases n,
{
    if n <= 0 {
        Seq::empty()
    } else {
        verified(g, accounts, n - 1) + verified_in(
            g,
            accounts,
            n - 1,
            g.ls[n - 1].statement.lines.len() as int,
        )
    }
}

/// The days the records move to.
pub open spec fn moved(verified: Seq<VerificationV>) -> Seq<(int, int)>
    decreases verified.len(),
{
    if verified.len() == 0 {
        Seq::empty()
    } else {
        let before = moved(verified.drop_last());
        match verified.last().date {
            Some(day) => before.push((verified.last().transaction_id, day)),
            None => before,
        }
    }
}

/// What an import is refused with that would put a record on two days.
pub open spec fn two_days(v: VerificationV, day: int, other: int) -> Seq<char> {
    "the record "@ + v.statement_ref + " verifies was booked "@ + date::printed(day)
        + " by one bank and "@ + date::printed(other)
        + " by the other; re-freeze so each side stands on its own. Nothing was imported"@
}

/// Does every record move to one day alone?
pub open spec fn one_day_each(verified: Seq<VerificationV>) -> Result<(), Seq<char>>
    decreases verified.len(),
{
    if verified.len() == 0 {
        Ok(())
    } else {
        match one_day_each(verified.drop_last()) {
            Err(e) => Err(e),
            Ok(_) => {
                let v = verified.last();
                match (
                    v.date,
                    chain::redate_of(moved(verified.drop_last()), v.transaction_id),
                ) {
                    (Some(day), Some(other)) => if day != other {
                        Err(two_days(v, day, other))
                    } else {
                        Ok(())
                    },
                    _ => Ok(()),
                }
            },
        }
    }
}

/// The records every statement defers.
pub open spec fn deferred(sorted: Seq<SortedV>) -> Seq<DeferredV>
    decreases sorted.len(),
{
    if sorted.len() == 0 {
        Seq::empty()
    } else {
        deferred(sorted.drop_last()) + sorted.last().deferred
    }
}

pub open spec fn deferred_moves(v: Seq<DeferredV>) -> Seq<(int, int)> {
    v.map_values(|d: DeferredV| (d.transaction_id, d.date))
}

/// How many of the shapes are `Matched`, and how many `Fallback`.
pub open spec fn count_shapes(shapes: Seq<Shape>, matched: bool) -> nat
    decreases shapes.len(),
{
    if shapes.len() == 0 {
        0
    } else {
        count_shapes(shapes.drop_last(), matched) + (if (matched && shapes.last() is Matched) || (
        !matched && shapes.last() is Fallback) {
            1nat
        } else {
            0nat
        })
    }
}

/// What a plan is.
#[verifier::ext_equal]
pub struct PlanV {
    pub transactions: Seq<(int, TransactionV)>,
    pub openings: Seq<int>,
    pub verified: Seq<VerificationV>,
    pub deferred: Seq<DeferredV>,
}

pub open spec fn filed_views(v: Seq<(usize, Transaction)>) -> Seq<(int, TransactionV)> {
    v.map_values(|e: (usize, Transaction)| (e.0 as int, e.1@))
}

pub open spec fn transactions_of(v: Seq<(int, TransactionV)>) -> Seq<TransactionV> {
    v.map_values(|e: (int, TransactionV)| e.1)
}

pub open spec fn days_of(v: Seq<Date>) -> Seq<int> {
    v.map_values(|d: Date| d@)
}

impl View for Plan {
    type V = PlanV;

    open spec fn view(&self) -> PlanV {
        PlanV {
            transactions: filed_views(self.transactions@),
            openings: days_of(self.openings@),
            verified: model::verification_views(self.verified@),
            deferred: held::deferred_views(self.deferred@),
        }
    }
}

/// What the plan of an import is made from, once its lines are sorted.
pub open spec fn ground(
    chart: Chart,
    ls: Seq<LandingV>,
    sorted: Seq<SortedV>,
    matched: Seq<int>,
    drawn: Seq<Seq<(int, Dec)>>,
    candidates: Seq<Seq<char>>,
) -> Ground {
    let new = pairs::new_lines(sorted);
    Ground {
        chart,
        ls,
        sorted,
        new,
        shapes: pairs::settled(
            pairs::paired(ls, accounts::table(chart.institution.accounts@), new),
            matched,
        ),
        drawn,
        candidates,
    }
}

/// The plan made from `g`.
pub open spec fn planned(g: Ground) -> Result<PlanV, Seq<char>> {
    let n = g.ls.len() as int;
    let table = accounts::table(g.chart.institution.accounts@);
    match line_transactions(g, g.new.len() as int) {
        None => Err(refusal::out_of_range()),
        Some(lines) => {
            let transactions = openings(g.ls, g.sorted, n) + lines;
            let checks = verified(g, table, n);
            let later = deferred(g.sorted);
            let days = g.sorted.map_values(|s: SortedV| s.opening);
            match one_day_each(checks) {
                Err(e) => Err(e),
                Ok(_) => match chain::all_chained(
                    g.ls,
                    days,
                    transactions_of(transactions),
                    moved(checks) + deferred_moves(later),
                    n,
                ) {
                    Err(e) => Err(e),
                    Ok(_) => Ok(
                        PlanV {
                            transactions,
                            openings: days,
                            verified: checks,
                            deferred: later,
                        },
                    ),
                },
            }
        },
    }
}

/// The counts of a plan made from `g`.
pub open spec fn counted(c: Counts, g: Ground, p: PlanV) -> bool {
    &&& c.predate_opening == count(g.sorted, Kind::PredatesOpening)
    &&& c.known == count(g.sorted, Kind::Known)
    &&& c.covered == count(g.sorted, Kind::Covered)
    &&& c.new == count(g.sorted, Kind::New)
    &&& c.verified == count(g.sorted, Kind::Verifies)
    &&& c.deferred == p.deferred.len()
    &&& c.openings == openings(g.ls, g.sorted, g.ls.len() as int).len()
    &&& c.matched == count_shapes(g.shapes, true)
    &&& c.uncategorised == count_shapes(g.shapes, false)
}

fn opening_of(s: &Statement, a: Amount) -> (r: Transaction)
    requires
        held::plannable(s@),
    ensures
        r@ == opening_transaction(s@, a@),
{
    let st = s.statement;
    let mut postings: Vec<Posting> = Vec::new();
    postings.push(Posting::new(s.account.as_str(), a, st.currency));
    postings.push(Posting::new(model::OPENING_EQUITY, a.negated(), st.currency));
    let t = Transaction {
        date: st.opening_date(),
        payee: Some(text::copy("Opening balance")),
        narration: Some(text::copy(st.account_kind.as_str())),
        source: Source::Import,
        external_ref: Some(st.opening_ref(s.account.as_str())),
        import_batch_id: None,
        postings,
    };
    assert(t@.postings =~= opening_transaction(s@, a@).postings);
    t
}

fn openings_of(statements: &Vec<Statement>, sorted: &Vec<Sorted>) -> (r: Vec<(usize, Transaction)>)
    requires
        plannable(pairs::landings(statements@)),
        pairs::all_sort(sorted@, pairs::landings(statements@)),
    ensures
        filed_views(r@) == openings(
            pairs::landings(statements@),
            pairs::sorted_views(sorted@),
            statements@.len() as int,
        ),
{
    let ghost ls = pairs::landings(statements@);
    let ghost ss = pairs::sorted_views(sorted@);
    let mut out: Vec<(usize, Transaction)> = Vec::new();
    assert(filed_views(out@) =~= Seq::empty());
    let mut i: usize = 0;
    while i < statements.len()
        invariant
            i <= statements@.len(),
            ls == pairs::landings(statements@),
            ss == pairs::sorted_views(sorted@),
            plannable(ls),
            pairs::all_sort(sorted@, ls),
            filed_views(out@) == openings(ls, ss, i as int),
        decreases statements@.len() - i,
    {
        let ghost before = out@;
        let s = &statements[i];
        assert(ls[i as int] == s@);
        assert(held::plannable(ls[i as int]));
        assert(ss[i as int] == sorted@[i as int]@);
        assert(s@.files.len() == s.files@.len());
        assert(s@.files[0] == s.files@[0]);
        if let Some(a) = sorted[i].fresh {
            let t = opening_of(s, a);
            out.push((s.files[0], t));
            assert(filed_views(out@) =~= filed_views(before).push((s@.files[0], t@)));
        }
        i = i + 1;
    }
    out
}

fn narration_of(l: &StatementLine) -> (r: Option<String>)
    ensures
        text::opt(r) == narration(l@),
{
    if l.info.as_str().is_empty() && l.memo.as_str().is_empty() {
        return None;
    }
    if l.memo.as_str().is_empty() {
        return Some(text::copy(l.info.as_str()));
    }
    if l.info.as_str().is_empty() {
        return Some(text::copy(l.memo.as_str()));
    }
    let mut out = text::copy(l.info.as_str());
    out.append(" · ");
    out.append(l.memo.as_str());
    Some(out)
}

proof fn no_leg_total_stays(legs: Seq<PostingV>, n: int)
    requires
        0 <= n <= legs.len(),
        leg_total(legs.take(n)) is None,
    ensures
        leg_total(legs) is None,
    decreases legs.len(),
{
    if n == legs.len() {
        assert(legs.take(n) =~= legs);
    } else {
        assert(legs.drop_last().take(n) =~= legs.take(n));
        no_leg_total_stays(legs.drop_last(), n);
    }
}

fn leg_total_of(legs: &Vec<Posting>) -> (r: Option<Amount>)
    ensures
        amount::opt(r) == leg_total(model::posting_views(legs@)),
{
    let ghost all = model::posting_views(legs@);
    let mut out = Amount::zero();
    let mut i: usize = 0;
    while i < legs.len()
        invariant
            i <= legs@.len(),
            all == model::posting_views(legs@),
            leg_total(all.take(i as int)) == Some(out@),
        decreases legs@.len() - i,
    {
        assert(all[i as int] == legs@[i as int]@);
        assert(all.take(i as int + 1).drop_last() =~= all.take(i as int));
        match out.plus(&legs[i].amount) {
            Some(next) => {
                out = next;
            },
            None => {
                proof {
                    no_leg_total_stays(all, i as int + 1);
                }
                return None;
            },
        }
        i = i + 1;
    }
    assert(all.take(i as int) =~= all);
    Some(out)
}

/// What a plan is made from.
struct Base<'a, 'b> {
    chart: &'a Chart,
    ctx: Context<'a, 'b>,
    shapes: &'a Vec<Shape>,
    matches: &'a Vec<Matching>,
    candidates: &'a Vec<Candidate>,
}

impl<'a, 'b> Base<'a, 'b> {
    spec fn g(&self) -> Ground {
        Ground {
            chart: *self.chart,
            ls: self.ctx.ls(),
            sorted: pairs::sorted_views(self.ctx.sorted@),
            new: self.ctx.places(),
            shapes: self.shapes@,
            drawn: drawn(self.matches@),
            candidates: candidate_accounts(self.candidates@),
        }
    }

    spec fn sound(&self) -> bool {
        &&& self.ctx.sound()
        &&& plannable(self.ctx.ls())
        &&& self.shapes@.len() == self.ctx.new@.len()
        &&& pairs::all_refer(self.shapes@, self.matches@.len() as int)
        &&& draws_on(drawn(self.matches@), candidate_accounts(self.candidates@))
    }

    fn matched_legs(&self, m: usize, own: Posting, l: &StatementLine, c: Currency) -> (r: Option<
        Vec<Posting>,
    >)
        requires
            self.sound(),
            m < self.matches@.len(),
        ensures
            ({
                let some = seq![own@] + drawn_legs(self.g().drawn[m as int], self.g().candidates, c);
                match r {
                    None => leg_total(some) is None,
                    Some(v) => leg_total(some) matches Some(rest) && model::posting_views(v@)
                        == (if rest.magnitude == 0 {
                        some
                    } else {
                        some.push(
                            model::leg(
                                names::fallback(*self.chart, l@.description, rest.negative),
                                amount::negated(rest),
                                c,
                            ),
                        )
                    }),
                }
            }),
    {
        let ghost g = self.g();
        let consumed = &self.matches[m].consumed;
        let ghost draws = g.drawn[m as int];
        assert(draws == drawn_views(consumed@));
        let ghost some = seq![own@] + drawn_legs(draws, g.candidates, c);
        let mut out: Vec<Posting> = Vec::new();
        out.push(own);
        let mut i: usize = 0;
        assert(model::posting_views(out@) =~= some.take(1));
        while i < consumed.len()
            invariant
                i <= consumed@.len(),
                self.sound(),
                m < self.matches@.len(),
                g == self.g(),
                draws == drawn_views(consumed@),
                draws == g.drawn[m as int],
                some == seq![own@] + drawn_legs(draws, g.candidates, c),
                model::posting_views(out@) == some.take(i as int + 1),
            decreases consumed@.len() - i,
        {
            let ghost before = out@;
            let (ci, a) = consumed[i];
            assert(draws[i as int] == (ci as int, a@));
            assert(0 <= g.drawn[m as int][i as int].0 < g.candidates.len());
            assert(g.candidates[ci as int] == self.candidates@[ci as int].account@);
            let p = Posting::new(self.candidates[ci].account.as_str(), a.negated(), c);
            assert(some[i as int + 1] == drawn_legs(draws, g.candidates, c)[i as int]);
            out.push(p);
            assert(model::posting_views(out@) =~= model::posting_views(before).push(p@));
            assert(some.take(i as int + 2) =~= some.take(i as int + 1).push(some[i as int + 1]));
            i = i + 1;
        }
        assert(some.take(i as int + 1) =~= some);
        match leg_total_of(&out) {
            None => None,
            Some(rest) => {
                if !rest.is_zero() {
                    let account = names::fallback_account(self.chart, l.description.as_str(), rest);
                    let p = Posting::new(account.as_str(), rest.negated(), c);
                    let ghost before = out@;
                    out.push(p);
                    assert(model::posting_views(out@) =~= model::posting_views(before).push(p@));
                }
                Some(out)
            },
        }
    }

    fn legs(&self, k: usize) -> (r: Option<Vec<Posting>>)
        requires
            self.sound(),
            k < self.ctx.new@.len(),
        ensures
            match r {
                Some(v) => legs(self.g(), k as int) == Some(model::posting_views(v@)),
                None => legs(self.g(), k as int) is None,
            },
    {
        let ghost g = self.g();
        let (s, l, d) = self.ctx.at(k);
        let c = s.statement.currency;
        let own = Posting::new(s.account.as_str(), d, c);
        assert(pairs::refers(
            self.shapes@[k as int],
            self.shapes@.len() as int,
            self.matches@.len() as int,
        ));
        let mut out: Vec<Posting> = Vec::new();
        match self.shapes[k] {
            Shape::Reversal(r) => {
                let (_, _, back) = self.ctx.at(r);
                out.push(own);
                out.push(Posting::new(s.account.as_str(), back, c));
            },
            Shape::Transfer(o) => {
                let (far, _, fd) = self.ctx.at(o);
                let fc = far.statement.currency;
                out.push(own);
                out.push(Posting::new(far.account.as_str(), fd, fc));
                if fc != c {
                    out.push(Posting::new(model::CONVERSIONS, d.negated(), c));
                    out.push(Posting::new(model::CONVERSIONS, fd.negated(), fc));
                }
            },
            Shape::InTransit => {
                out.push(own);
                out.push(
                    Posting::new(self.chart.institution.clearing.as_str(), d.negated(), c),
                );
            },
            Shape::Matched(m) => {
                return self.matched_legs(m, own, l, c);
            },
            _ => {
                let account = names::fallback_account(self.chart, l.description.as_str(), d);
                out.push(own);
                out.push(Posting::new(account.as_str(), d.negated(), c));
            },
        }
        assert(model::posting_views(out@) =~= legs(g, k as int)->0);
        Some(out)
    }

    fn line_transaction(&self, k: usize, postings: Vec<Posting>) -> (r: Transaction)
        requires
            self.sound(),
            k < self.ctx.new@.len(),
        ensures
            r@ == line_transaction(self.g(), k as int, model::posting_views(postings@)),
    {
        let (si, li) = self.ctx.new[k];
        let (s, l, _) = self.ctx.at(k);
        assert(pairs::refers(
            self.shapes@[k as int],
            self.shapes@.len() as int,
            self.matches@.len() as int,
        ));
        let payee = match self.shapes[k] {
            Shape::Reversal(r) => {
                let (_, back, _) = self.ctx.at(r);
                text::copy(back.description.as_str())
            },
            _ => text::copy(l.description.as_str()),
        };
        assert(self.ctx.places()[k as int] == (si as int, li as int));
        assert(pairs::sorts(self.ctx.sorted@[si as int], self.ctx.ls()[si as int]));
        assert(self.g().sorted[si as int] == self.ctx.sorted@[si as int]@);
        assert(self.g().sorted[si as int].refs[li as int] == self.ctx.sorted@[si as int].refs@[li as int]@);
        let key = text::copy(self.ctx.sorted[si].refs[li].as_str());
        Transaction {
            date: l.book_date,
            payee: Some(payee),
            narration: narration_of(l),
            source: Source::Import,
            external_ref: Some(key),
            import_batch_id: None,
            postings,
        }
    }

    fn line_transactions(&self) -> (r: Option<Vec<(usize, Transaction)>>)
        requires
            self.sound(),
        ensures
            match r {
                Some(v) => line_transactions(self.g(), self.ctx.new@.len() as int) == Some(
                    filed_views(v@),
                ),
                None => line_transactions(self.g(), self.ctx.new@.len() as int) is None,
            },
    {
        let ghost g = self.g();
        let mut out: Vec<(usize, Transaction)> = Vec::new();
        assert(filed_views(out@) =~= Seq::empty());
        let mut k: usize = 0;
        while k < self.ctx.new.len()
            invariant
                k <= self.ctx.new@.len(),
                self.sound(),
                g == self.g(),
                line_transactions(g, k as int) == Some(filed_views(out@)),
            decreases self.ctx.new@.len() - k,
        {
            let ghost before = out@;
            if self.shapes[k] != Shape::Absorbed {
                let (si, li) = self.ctx.new[k];
                let (s, _, _) = self.ctx.at(k);
                assert(g.new[k as int] == (si as int, li as int));
                assert(held::plannable(g.ls[si as int]));
                assert(s@.files.len() == s.files@.len());
                assert(s@.files[li as int] == s.files@[li as int]);
                match self.legs(k) {
                    None => {
                        proof {
                            no_line_transactions(g, k as int + 1, self.ctx.new@.len() as int);
                        }
                        return None;
                    },
                    Some(ps) => {
                        let t = self.line_transaction(k, ps);
                        out.push((s.files[li], t));
                        assert(filed_views(out@) =~= filed_views(before).push(
                            (s@.files[li as int], t@),
                        ));
                    },
                }
            }
            k = k + 1;
        }
        Some(out)
    }

    fn vouches(&self, id: i64, account: &str) -> (r: bool)
        requires
            self.sound(),
        ensures
            r == vouches(self.g().ls, self.g().sorted, id, account@),
    {
        let ghost g = self.g();
        let mut si: usize = 0;
        while si < self.ctx.ss.len()
            invariant
                si <= self.ctx.ss@.len(),
                self.sound(),
                g == self.g(),
                forall|j: int|
                    0 <= j < si ==> !((#[trigger] g.ls[j]).account == account@
                        && g.sorted[j].statuses.contains(Status::Verifies(id))),
            decreases self.ctx.ss@.len() - si,
        {
            assert(g.ls[si as int] == self.ctx.ss@[si as int]@);
            assert(pairs::sorts(self.ctx.sorted@[si as int], g.ls[si as int]));
            assert(g.sorted[si as int] == self.ctx.sorted@[si as int]@);
            if text::same_text(self.ctx.ss[si].account.as_str(), account) && has_verified(
                &self.ctx.sorted[si].statuses,
                id,
            ) {
                return true;
            }
            si = si + 1;
        }
        false
    }

    fn unchecked(&self, id: i64, others: &Vec<String>) -> (r: Vec<String>)
        requires
            self.sound(),
        ensures
            text::texts(r@) == unchecked(
                self.g(),
                accounts::table(self.chart.institution.accounts@),
                id,
                text::texts(others@),
            ),
    {
        let ghost g = self.g();
        let ghost table = accounts::table(self.chart.institution.accounts@);
        let ghost all = text::texts(others@);
        let mut out: Vec<String> = Vec::new();
        assert(text::texts(out@) =~= Seq::empty());
        let mut i: usize = 0;
        while i < others.len()
            invariant
                i <= others@.len(),
                self.sound(),
                g == self.g(),
                table == accounts::table(self.chart.institution.accounts@),
                all == text::texts(others@),
                text::texts(out@) == unchecked(g, table, id, all.take(i as int)),
            decreases others@.len() - i,
        {
            let ghost before = out@;
            assert(all[i as int] == others@[i as int]@);
            assert(all.take(i as int + 1).drop_last() =~= all.take(i as int));
            if accounts::has_value(&self.chart.institution.accounts, others[i].as_str())
                && !self.vouches(id, others[i].as_str()) {
                let a = text::copy(others[i].as_str());
                out.push(a);
                assert(text::texts(out@) =~= text::texts(before).push(a@));
            }
            i = i + 1;
        }
        assert(all.take(i as int) =~= all);
        out
    }

    /// What the lines of every statement verify.
    fn verified(&self) -> (r: Vec<Verification>)
        requires
            self.sound(),
        ensures
            model::verification_views(r@) == verified(
                self.g(),
                accounts::table(self.chart.institution.accounts@),
                self.ctx.ss@.len() as int,
            ),
    {
        let ghost g = self.g();
        let ghost table = accounts::table(self.chart.institution.accounts@);
        let mut out: Vec<Verification> = Vec::new();
        assert(model::verification_views(out@) =~= Seq::empty());
        let mut si: usize = 0;
        while si < self.ctx.ss.len()
            invariant
                si <= self.ctx.ss@.len(),
                self.sound(),
                g == self.g(),
                table == accounts::table(self.chart.institution.accounts@),
                model::verification_views(out@) == verified(g, table, si as int),
            decreases self.ctx.ss@.len() - si,
        {
            let s = &self.ctx.ss[si];
            let sorted = &self.ctx.sorted[si];
            let ghost before = model::verification_views(out@);
            assert(g.ls[si as int] == s@);
            assert(pairs::sorts(self.ctx.sorted@[si as int], g.ls[si as int]));
            assert(g.sorted[si as int] == sorted@);
            assert(before + verified_in(g, table, si as int, 0) =~= before);
            let mut li: usize = 0;
            while li < s.statement.lines.len()
                invariant
                    li <= s.statement.lines@.len(),
                    si < self.ctx.ss@.len(),
                    self.sound(),
                    g == self.g(),
                    table == accounts::table(self.chart.institution.accounts@),
                    g.ls[si as int] == s@,
                    g.sorted[si as int] == sorted@,
                    pairs::sorts(*sorted, s@),
                    model::verification_views(out@) == before + verified_in(
                        g,
                        table,
                        si as int,
                        li as int,
                    ),
                decreases s.statement.lines@.len() - li,
            {
                let ghost done = out@;
                assert(s@.statement.lines.len() == s.statement.lines@.len());
                if let Status::Verifies(id) = sorted.statuses[li] {
                    if let Some(r) = find_record(&s.existing, id) {
                        let p = &s.existing[r];
                        assert(s@.existing[r as int] == p@);
                        assert(s@.statement.lines[li as int] == s.statement.lines@[li as int]@);
                        assert(sorted@.refs[li as int] == sorted.refs@[li as int]@);
                        let v = Verification {
                            transaction_id: id,
                            date: if held::is_from_a_statement(p) {
                                None
                            } else {
                                Some(s.statement.lines[li].book_date)
                            },
                            statement_ref: text::copy(sorted.refs[li].as_str()),
                            unchecked: self.unchecked(id, &p.other_accounts),
                        };
                        assert(v@ == verification(g, table, si as int, li as int, id, p@));
                        out.push(v);
                        assert(model::verification_views(out@) =~= model::verification_views(
                            done,
                        ).push(v@));
                        assert(model::verification_views(out@) =~= before + verified_in(
                            g,
                            table,
                            si as int,
                            li as int + 1,
                        ));
                    }
                }
                li = li + 1;
            }
            assert(s@.statement.lines.len() == s.statement.lines@.len());
            si = si + 1;
        }
        out
    }
}

proof fn no_line_transactions(g: Ground, n: int, m: int)
    requires
        0 <= n <= m,
        line_transactions(g, n) is None,
    ensures
        line_transactions(g, m) is None,
    decreases m,
{
    if n < m {
        no_line_transactions(g, n, m - 1);
    }
}

fn has_verified(statuses: &Vec<Status>, id: i64) -> (r: bool)
    ensures
        r == statuses@.contains(Status::Verifies(id)),
{
    let mut i: usize = 0;
    while i < statuses.len()
        invariant
            i <= statuses@.len(),
            forall|j: int| 0 <= j < i ==> #[trigger] statuses@[j] != Status::Verifies(id),
        decreases statuses@.len() - i,
    {
        if statuses[i] == Status::Verifies(id) {
            return true;
        }
        i = i + 1;
    }
    false
}

fn find_record(existing: &Vec<LedgerPosting>, id: i64) -> (r: Option<usize>)
    ensures
        match r {
            Some(i) => record_of(model::held_views(existing@), id as int, 0) == Some(i as int) && i
                < existing@.len(),
            None => record_of(model::held_views(existing@), id as int, 0) is None,
        },
{
    let ghost all = model::held_views(existing@);
    let mut i: usize = 0;
    while i < existing.len()
        invariant
            i <= existing@.len(),
            all == model::held_views(existing@),
            record_of(all, id as int, 0) == record_of(all, id as int, i as int),
        decreases existing@.len() - i,
    {
        assert(all[i as int] == existing@[i as int]@);
        if existing[i].transaction_id == id {
            return Some(i);
        }
        i = i + 1;
    }
    None
}

proof fn two_days_stay(verified: Seq<VerificationV>, n: int)
    requires
        0 <= n <= verified.len(),
        one_day_each(verified.take(n)) is Err,
    ensures
        one_day_each(verified) == one_day_each(verified.take(n)),
    decreases verified.len(),
{
    if n == verified.len() {
        assert(verified.take(n) =~= verified);
    } else {
        assert(verified.drop_last().take(n) =~= verified.take(n));
        two_days_stay(verified.drop_last(), n);
    }
}

/// The days the verified records move to, if each moves to one day alone.
fn moved_of(verified: &Vec<Verification>) -> (r: Result<Vec<(i64, Date)>, Refusal>)
    ensures
        match r {
            Ok(v) => one_day_each(model::verification_views(verified@)) == Ok::<(), Seq<char>>(())
                && chain::redate_views(v@) == moved(model::verification_views(verified@)),
            Err(e) => one_day_each(model::verification_views(verified@)) == Err::<(), Seq<char>>(
                e@,
            ),
        },
{
    let ghost all = model::verification_views(verified@);
    let mut out: Vec<(i64, Date)> = Vec::new();
    assert(chain::redate_views(out@) =~= Seq::empty());
    let mut i: usize = 0;
    while i < verified.len()
        invariant
            i <= verified@.len(),
            all == model::verification_views(verified@),
            one_day_each(all.take(i as int)) == Ok::<(), Seq<char>>(()),
            chain::redate_views(out@) == moved(all.take(i as int)),
        decreases verified@.len() - i,
    {
        let ghost before = out@;
        let v = &verified[i];
        assert(all[i as int] == v@);
        assert(all.take(i as int + 1).drop_last() =~= all.take(i as int));
        if let Some(day) = v.date {
            if let Some(other) = chain::find_redate(&out, v.transaction_id) {
                if day.number() != other.number() {
                    proof {
                        two_days_stay(all, i as int + 1);
                    }
                    let mut m = text::copy("the record ");
                    m.append(v.statement_ref.as_str());
                    m.append(" verifies was booked ");
                    m.append(day.text().as_str());
                    m.append(" by one bank and ");
                    m.append(other.text().as_str());
                    m.append(
                        " by the other; re-freeze so each side stands on its own. Nothing was imported",
                    );
                    return Err(Refusal { message: m });
                }
            }
            out.push((v.transaction_id, day));
            assert(chain::redate_views(out@) =~= chain::redate_views(before).push(
                (v@.transaction_id, day@),
            ));
        }
        i = i + 1;
    }
    assert(all.take(i as int) =~= all);
    Ok(out)
}

fn deferred_of(sorted: &Vec<Sorted>) -> (r: Vec<Deferred>)
    ensures
        held::deferred_views(r@) == deferred(pairs::sorted_views(sorted@)),
{
    let ghost all = pairs::sorted_views(sorted@);
    let mut out: Vec<Deferred> = Vec::new();
    assert(held::deferred_views(out@) =~= Seq::empty());
    let mut i: usize = 0;
    while i < sorted.len()
        invariant
            i <= sorted@.len(),
            all == pairs::sorted_views(sorted@),
            held::deferred_views(out@) == deferred(all.take(i as int)),
        decreases sorted@.len() - i,
    {
        let ghost before = held::deferred_views(out@);
        let here = &sorted[i].deferred;
        let ghost views = held::deferred_views(here@);
        assert(all.take(i as int + 1).drop_last() =~= all.take(i as int));
        assert(all.take(i as int + 1).last() == sorted@[i as int]@);
        assert(before + views.take(0) =~= before);
        let mut j: usize = 0;
        while j < here.len()
            invariant
                j <= here@.len(),
                views == held::deferred_views(here@),
                held::deferred_views(out@) == before + views.take(j as int),
            decreases here@.len() - j,
        {
            let ghost done = out@;
            out.push(here[j]);
            assert(held::deferred_views(out@) =~= held::deferred_views(done).push(here@[j as int]@));
            assert(held::deferred_views(out@) =~= before + views.take(j as int + 1));
            j = j + 1;
        }
        assert(views.take(j as int) =~= views);
        i = i + 1;
    }
    assert(all.take(i as int) =~= all);
    out
}

fn count_shapes_of(shapes: &Vec<Shape>, matched: bool) -> (r: usize)
    ensures
        r == count_shapes(shapes@, matched),
{
    let mut n: usize = 0;
    let mut i: usize = 0;
    while i < shapes.len()
        invariant
            i <= shapes@.len(),
            n <= i,
            n == count_shapes(shapes@.take(i as int), matched),
        decreases shapes@.len() - i,
    {
        assert(shapes@.take(i as int + 1).drop_last() =~= shapes@.take(i as int));
        let one = match shapes[i] {
            Shape::Matched(_) => matched,
            Shape::Fallback => !matched,
            _ => false,
        };
        if one {
            n = n + 1;
        }
        i = i + 1;
    }
    assert(shapes@.take(i as int) =~= shapes@);
    n
}

/// The lines of an import that nothing but the matcher can explain, in the
/// order the matches name them.
pub fn targets(chart: &Chart, statements: &Vec<Statement>, known_refs: &Vec<String>) -> (r: Result<
    Vec<(usize, usize)>,
    Refusal,
>)
    requires
        plannable(pairs::landings(statements@)),
    ensures
        match all_sorted(
            pairs::landings(statements@),
            text::texts(known_refs@),
            accounts::table(chart.institution.accounts@),
            statements@.len() as int,
        ) {
            Err(m) => r matches Err(e) && e@ == m,
            Ok(sorted) => r matches Ok(v) && bank::pair_views(v@) == left_open(
                *chart,
                pairs::landings(statements@),
                sorted,
            ),
        },
{
    let ghost ls = pairs::landings(statements@);
    let accounts = &chart.institution.accounts;
    let sorted = match sort_all(statements, known_refs, accounts) {
        Ok(v) => v,
        Err(e) => {
            return Err(e);
        },
    };
    let new = pairs::new_lines_of(&sorted, Ghost(ls));
    let ctx = Context { ss: statements, sorted: &sorted, accounts, new: &new };
    let shapes = ctx.pair_up();
    let open = pairs::targets_of(&shapes);
    let ghost all = left_open(*chart, ls, pairs::sorted_views(sorted@));
    assert(pairs::ints(open@).len() == open@.len());
    let mut out: Vec<(usize, usize)> = Vec::new();
    assert(bank::pair_views(out@) =~= all.take(0));
    let mut i: usize = 0;
    while i < open.len()
        invariant
            i <= open@.len(),
            open@.len() == all.len(),
            shapes@.len() == new@.len(),
            all == pairs::ints(open@).map_values(|k: int| bank::pair_views(new@)[k]),
            forall|j: int| 0 <= j < open@.len() ==> (#[trigger] open@[j]) < shapes@.len(),
            bank::pair_views(out@) == all.take(i as int),
        decreases open@.len() - i,
    {
        let ghost before = out@;
        let at = new[open[i]];
        assert(all[i as int] == (at.0 as int, at.1 as int));
        out.push(at);
        assert(bank::pair_views(out@) =~= bank::pair_views(before).push((at.0 as int, at.1 as int)));
        assert(all.take(i as int + 1) =~= all.take(i as int).push(all[i as int]));
        i = i + 1;
    }
    assert(all.take(i as int) =~= all);
    Ok(out)
}

/// The new lines left to the matcher, each by its statement and its place.
pub open spec fn left_open(chart: Chart, ls: Seq<LandingV>, sorted: Seq<SortedV>) -> Seq<
    (int, int),
> {
    let new = pairs::new_lines(sorted);
    let shapes = pairs::paired(ls, accounts::table(chart.institution.accounts@), new);
    pairs::targets(shapes).map_values(|k: int| new[k])
}

/// Plans an import of `statements`, given the refs the ledger knows and what
/// the matcher made of the lines that [`targets`] leaves to it.
pub fn plan(
    chart: &Chart,
    statements: &Vec<Statement>,
    known_refs: &Vec<String>,
    candidates: &Vec<Candidate>,
    matches: &Vec<Matching>,
) -> (r: Result<Plan, Refusal>)
    requires
        plannable(pairs::landings(statements@)),
        draws_on(drawn(matches@), candidate_accounts(candidates@)),
    ensures
        match all_sorted(
            pairs::landings(statements@),
            text::texts(known_refs@),
            accounts::table(chart.institution.accounts@),
            statements@.len() as int,
        ) {
            Err(m) => r matches Err(e) && e@ == m,
            Ok(sorted) => {
                let g = ground(
                    *chart,
                    pairs::landings(statements@),
                    sorted,
                    matched(matches@),
                    drawn(matches@),
                    candidate_accounts(candidates@),
                );
                match r {
                    Ok(p) => planned(g) == Ok::<PlanV, Seq<char>>(p@) && counted(p.counts, g, p@),
                    Err(e) => planned(g) == Err::<PlanV, Seq<char>>(e@),
                }
            },
        },
{
    let ghost ls = pairs::landings(statements@);
    let accounts = &chart.institution.accounts;
    let sorted = match sort_all(statements, known_refs, accounts) {
        Ok(v) => v,
        Err(e) => {
            return Err(e);
        },
    };
    let ghost ss = pairs::sorted_views(sorted@);
    let new = pairs::new_lines_of(&sorted, Ghost(ls));
    let ctx = Context { ss: statements, sorted: &sorted, accounts, new: &new };
    let mut hits: Vec<usize> = Vec::new();
    let mut i: usize = 0;
    assert(pairs::ints(hits@) =~= matched(matches@).take(0));
    while i < matches.len()
        invariant
            i <= matches@.len(),
            hits@.len() == i,
            pairs::ints(hits@) == matched(matches@).take(i as int),
        decreases matches@.len() - i,
    {
        let ghost before = hits@;
        hits.push(matches[i].target);
        assert(pairs::ints(hits@) =~= pairs::ints(before).push(matches@[i as int].target as int));
        assert(matched(matches@).take(i as int + 1) =~= matched(matches@).take(i as int).push(
            matched(matches@)[i as int],
        ));
        i = i + 1;
    }
    assert(matched(matches@).take(i as int) =~= matched(matches@));
    let shapes = pairs::settle(ctx.pair_up(), &hits);
    let base = Base { chart, ctx, shapes: &shapes, matches, candidates };
    let ghost g = base.g();
    assert(g == ground(
        *chart,
        ls,
        ss,
        matched(matches@),
        drawn(matches@),
        candidate_accounts(candidates@),
    ));
    let mut transactions = openings_of(statements, &sorted);
    let opened: usize = transactions.len();
    let ghost first = filed_views(transactions@);
    assert(first.len() == opened);
    let mut lines = match base.line_transactions() {
        Some(v) => v,
        None => {
            return Err(Refusal::out_of_range());
        },
    };
    let ghost rest = filed_views(lines@);
    transactions.append(&mut lines);
    assert(filed_views(transactions@) =~= first + rest);
    let checks = base.verified();
    let mut redated = match moved_of(&checks) {
        Ok(v) => v,
        Err(e) => {
            return Err(e);
        },
    };
    let later = deferred_of(&sorted);
    let ghost moves = chain::redate_views(redated@);
    let ghost waits = held::deferred_views(later@);
    let mut j: usize = 0;
    assert(chain::redate_views(redated@) =~= moves + deferred_moves(waits).take(0));
    while j < later.len()
        invariant
            j <= later@.len(),
            waits == held::deferred_views(later@),
            chain::redate_views(redated@) == moves + deferred_moves(waits).take(j as int),
        decreases later@.len() - j,
    {
        let ghost before = redated@;
        let d = later[j];
        assert(waits[j as int] == d@);
        redated.push((d.transaction_id, d.date));
        assert(chain::redate_views(redated@) =~= chain::redate_views(before).push(
            (d@.transaction_id, d@.date),
        ));
        assert(chain::redate_views(redated@) =~= moves + deferred_moves(waits).take(j as int + 1));
        j = j + 1;
    }
    assert(deferred_moves(waits).take(j as int) =~= deferred_moves(waits));
    let ghost opened_on = ss.map_values(|s: SortedV| s.opening);
    let mut days: Vec<Date> = Vec::new();
    let mut k: usize = 0;
    assert(days_of(days@) =~= opened_on.take(0));
    while k < sorted.len()
        invariant
            k <= sorted@.len(),
            ss == pairs::sorted_views(sorted@),
            opened_on == ss.map_values(|s: SortedV| s.opening),
            days_of(days@) == opened_on.take(k as int),
        decreases sorted@.len() - k,
    {
        let ghost before = days@;
        days.push(sorted[k].opening);
        assert(days_of(days@) =~= days_of(before).push(sorted@[k as int].opening@));
        assert(ss[k as int] == sorted@[k as int]@);
        assert(opened_on.take(k as int + 1) =~= opened_on.take(k as int).push(
            opened_on[k as int],
        ));
        k = k + 1;
    }
    assert(opened_on.take(k as int) =~= opened_on);
    proof {
        assert(days_of(days@).len() == days@.len());
        assert(transactions_of(filed_views(transactions@)) =~= chain::planned_views(transactions@));
        assert forall|x: int| 0 <= x < statements@.len() implies held::plannable(
            (#[trigger] statements@[x])@,
        ) by {
            assert(ls[x] == statements@[x]@);
        }
    }
    if let Err(e) = chain::chain(statements, &days, &transactions, &redated) {
        return Err(e);
    }
    assert(held::deferred_views(later@).len() == later@.len());
    let counts = Counts {
        predate_opening: count_of(&sorted, Kind::PredatesOpening, Ghost(ls)),
        known: count_of(&sorted, Kind::Known, Ghost(ls)),
        covered: count_of(&sorted, Kind::Covered, Ghost(ls)),
        new: count_of(&sorted, Kind::New, Ghost(ls)),
        verified: count_of(&sorted, Kind::Verifies, Ghost(ls)),
        deferred: later.len(),
        openings: opened,
        matched: count_shapes_of(&shapes, true),
        uncategorised: count_shapes_of(&shapes, false),
    };
    Ok(Plan { transactions, counts, openings: days, verified: checks, deferred: later })
}

} // verus!
