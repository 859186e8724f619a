//! What the ledger already holds of a statement: which of its lines are known,
//! booked with a partner, or verify a record, and which are new.

use vstd::prelude::*;

use crate::accounts;
use crate::amount;
use crate::amount::{Amount, Dec};
use crate::currency;
use crate::date;
use crate::date::Date;
use crate::model;
use crate::model::{HeldV, LedgerPosting};
use crate::refusal;
use crate::refusal::Refusal;
use crate::statements::bank;
use crate::statements::bank::{Bank, BankStatement, LineV, StatementLine, StatementV};
use crate::text;

verus! {

/// One merged statement and where it lands.
pub struct Statement<'a> {
    pub account: String,
    pub statement: &'a BankStatement,
    /// Index of the file each line came from.
    pub files: Vec<usize>,
    /// What the ledger holds on `account` in the statement's currency.
    pub existing: Vec<LedgerPosting>,
}

/// What a merged statement and where it lands are.
#[verifier::ext_equal]
pub struct LandingV {
    pub account: Seq<char>,
    pub statement: StatementV,
    pub files: Seq<int>,
    pub existing: Seq<HeldV>,
}

impl<'a> View for Statement<'a> {
    type V = LandingV;

    open spec fn view(&self) -> LandingV {
        LandingV {
            account: self.account@,
            statement: self.statement@,
            files: bank::span_views(self.files@),
            existing: model::held_views(self.existing@),
        }
    }
}

/// How far a record's date may be from the line that verifies it: the
/// records take the bank's date when they are a week or more off.
pub const VERIFY_WINDOW_DAYS: i32 = 7;

/// An unverified record from a statement's last days that none of its lines
/// verifies: the bank books it after the statement, so it moves to the day
/// after, still unverified, for the next statement to verify.
#[derive(Clone, Copy, Debug, PartialEq)]
pub struct Deferred {
    pub transaction_id: i64,
    pub date: Date,
}

/// What a deferred record is: its transaction and the day it moves to.
pub struct DeferredV {
    pub transaction_id: int,
    pub date: int,
}

impl View for Deferred {
    type V = DeferredV;

    open spec fn view(&self) -> DeferredV {
        DeferredV { transaction_id: self.transaction_id as int, date: self.date@ }
    }
}

pub open spec fn deferred_views(v: Seq<Deferred>) -> Seq<DeferredV> {
    v.map_values(|d: Deferred| d@)
}

/// What the ledger holds of a line.
#[derive(Clone, Copy, PartialEq, Eq, Structural, Debug)]
pub enum Status {
    /// Folded into the account's opening.
    PredatesOpening,
    Known,
    /// Booked with its partner line.
    Covered,
    /// Verifies the unverified record with this transaction id.
    Verifies(i64),
    New,
}

/// Does a ref of the posting come from a statement?
pub open spec fn from_a_statement(p: HeldV) -> bool {
    exists|i: int|
        0 <= i < p.refs.len() && (text::starts(#[trigger] p.refs[i], bank::prefix(Bank::Cathay))
            || text::starts(p.refs[i], bank::prefix(Bank::LineBank)))
}

pub fn is_from_a_statement(p: &LedgerPosting) -> (r: bool)
    ensures
        r == from_a_statement(p@),
{
    let ghost all = p@.refs;
    let mut i: usize = 0;
    while i < p.refs.len()
        invariant
            i <= p.refs@.len(),
            all == text::texts(p.refs@),
            all == p@.refs,
            forall|j: int|
                0 <= j < i ==> !(text::starts(#[trigger] all[j], bank::prefix(Bank::Cathay))
                    || text::starts(all[j], bank::prefix(Bank::LineBank))),
        decreases p.refs@.len() - i,
    {
        assert(p@.refs[i as int] == p.refs@[i as int]@);
        if text::starts_with(p.refs[i].as_str(), Bank::Cathay.ref_prefix()) || text::starts_with(
            p.refs[i].as_str(),
            Bank::LineBank.ref_prefix(),
        ) {
            return true;
        }
        i = i + 1;
    }
    false
}

/// The days of the openings among `existing`, a run of one day once.
pub open spec fn opening_days(existing: Seq<HeldV>) -> Seq<int>
    decreases existing.len(),
{
    if existing.len() == 0 {
        Seq::empty()
    } else {
        let before = opening_days(existing.drop_last());
        let p = existing.last();
        if p.opening && (before.len() == 0 || before.last() != p.date) {
            before.push(p.date)
        } else {
            before
        }
    }
}

/// The day the ledger's record of an account begins after: its opening's; the
/// day before its first posting, where records carry it without an opening; or
/// the day before the statement, where the ledger holds nothing yet.
pub open spec fn opening_day(s: LandingV) -> Result<int, Seq<char>> {
    let days = opening_days(s.existing);
    if days.len() > 1 {
        Err(
            s.account + " "@ + currency::code(s.statement.currency)
                + " has more than one opening"@,
        )
    } else if days.len() == 1 {
        Ok(days[0])
    } else if s.existing.len() > 0 {
        Ok(s.existing[0].date - 1)
    } else {
        Ok(bank::start(s.statement) - 1)
    }
}

/// Can the statement be planned? It has a line, each line a file, and there is
/// a day before it and after it, and before every posting the ledger holds.
pub open spec fn plannable(s: LandingV) -> bool {
    &&& s.statement.lines.len() > 0
    &&& s.files.len() == s.statement.lines.len()
    &&& bank::start(s.statement) > date::MIN_DAY
    &&& bank::is_settled(s.statement)
    &&& bank::settled_through(s.statement) < date::MAX_DAY
    &&& s.existing.len() > 0 ==> s.existing[0].date > date::MIN_DAY
}

/// Can the statement be planned?
pub fn can_be_planned(s: &Statement) -> (r: bool)
    ensures
        r == plannable(s@),
{
    let st = s.statement;
    assert(s@.statement.lines.len() == st.lines@.len());
    assert(s@.files.len() == s.files@.len());
    assert(s@.existing.len() == s.existing@.len());
    if st.lines.len() == 0 || s.files.len() != st.lines.len() {
        return false;
    }
    if !st.has_day_before() || !st.is_settled() {
        return false;
    }
    if st.settled_through().number() == date::MAX_DAY {
        return false;
    }
    if s.existing.len() > 0 {
        assert(s@.existing[0] == s.existing@[0]@);
        return s.existing[0].date.number() > date::MIN_DAY;
    }
    true
}

fn opening_day_of(s: &Statement) -> (r: Result<Date, Refusal>)
    requires
        plannable(s@),
    ensures
        match r {
            Ok(d) => opening_day(s@) == Ok::<int, Seq<char>>(d@),
            Err(e) => opening_day(s@) == Err::<int, Seq<char>>(e@),
        },
{
    let ghost all = s@.existing;
    let mut days: Vec<Date> = Vec::new();
    let ghost mut seen: Seq<int> = Seq::empty();
    let mut i: usize = 0;
    while i < s.existing.len()
        invariant
            i <= s.existing@.len(),
            all == model::held_views(s.existing@),
            seen == opening_days(all.take(i as int)),
            seen.len() == days@.len(),
            forall|j: int| 0 <= j < days@.len() ==> (#[trigger] days@[j])@ == seen[j],
        decreases s.existing@.len() - i,
    {
        let p = &s.existing[i];
        assert(all[i as int] == p@);
        assert(all.take(i as int + 1).drop_last() =~= all.take(i as int));
        if p.opening {
            let again = if days.len() > 0 {
                days[days.len() - 1].number() == p.date.number()
            } else {
                false
            };
            if !again {
                days.push(p.date);
                proof {
                    seen = seen.push(p.date@);
                }
            }
        }
        i = i + 1;
    }
    assert(all.take(i as int) =~= all);
    if days.len() > 1 {
        let mut out = text::copy(s.account.as_str());
        out.append(" ");
        out.append(s.statement.currency.text().as_str());
        out.append(" has more than one opening");
        return Err(Refusal { message: out });
    }
    if days.len() == 1 {
        return Ok(days[0]);
    }
    if s.existing.len() > 0 {
        assert(all[0] == s.existing@[0]@);
        return Ok(s.existing[0].date.pred_opt().unwrap());
    }
    Ok(s.statement.opening_date())
}

/// The postings the ledger booked from other lines (a transfer's far half, a
/// reversal): each can cover one line with no ref of its own.
pub open spec fn spares(existing: Seq<HeldV>) -> Seq<(int, Dec)>
    decreases existing.len(),
{
    if existing.len() == 0 {
        Seq::empty()
    } else {
        let before = spares(existing.drop_last());
        let p = existing.last();
        if !p.opening && !p.unverified && from_a_statement(p) {
            before.push((p.date, p.amount))
        } else {
            before
        }
    }
}

pub open spec fn spare_views(v: Seq<(Date, Amount)>) -> Seq<(int, Dec)> {
    v.map_values(|p: (Date, Amount)| (p.0@, p.1@))
}

/// The first of `left` at or after `from` on that day of that amount.
pub open spec fn spare_from(left: Seq<(int, Dec)>, day: int, a: Dec, from: int) -> Option<int>
    decreases left.len() - from,
{
    if from < 0 || from >= left.len() {
        None
    } else if left[from].0 == day && amount::equal(left[from].1, a) {
        Some(from)
    } else {
        spare_from(left, day, a, from + 1)
    }
}

/// The first of `left` on the line's day of its amount.
pub open spec fn spare_for(left: Seq<(int, Dec)>, l: LineV) -> Option<int> {
    spare_from(left, l.book_date, bank::delta(l)->0, 0)
}

fn spares_of(existing: &Vec<LedgerPosting>) -> (r: Vec<(Date, Amount)>)
    ensures
        spare_views(r@) == spares(model::held_views(existing@)),
{
    let ghost all = model::held_views(existing@);
    let mut out: Vec<(Date, Amount)> = Vec::new();
    assert(spare_views(out@) =~= Seq::empty());
    let mut i: usize = 0;
    while i < existing.len()
        invariant
            i <= existing@.len(),
            all == model::held_views(existing@),
            spare_views(out@) == spares(all.take(i as int)),
        decreases existing@.len() - i,
    {
        let p = &existing[i];
        let ghost before = out@;
        assert(all[i as int] == p@);
        assert(all.take(i as int + 1).drop_last() =~= all.take(i as int));
        if !p.opening && !p.unverified && is_from_a_statement(p) {
            out.push((p.date, p.amount));
            assert(spare_views(out@) =~= spare_views(before).push((p.date@, p.amount@)));
        }
        i = i + 1;
    }
    assert(all.take(i as int) =~= all);
    out
}

fn spare_for_line(left: &Vec<(Date, Amount)>, l: &StatementLine, d: &Amount) -> (r: Option<usize>)
    requires
        bank::delta(l@) == Some(d@),
    ensures
        match r {
            Some(i) => spare_for(spare_views(left@), l@) == Some(i as int) && i < left@.len(),
            None => spare_for(spare_views(left@), l@) is None,
        },
{
    let ghost all = spare_views(left@);
    let mut i: usize = 0;
    while i < left.len()
        invariant
            i <= left@.len(),
            all == spare_views(left@),
            bank::delta(l@) == Some(d@),
            spare_for(all, l@) == spare_from(all, l@.book_date, d@, i as int),
        decreases left@.len() - i,
    {
        assert(all[i as int] == (left@[i as int].0@, left@[i as int].1@));
        if left[i].0.number() == l.book_date.number() && left[i].1.equals(d) {
            return Some(i);
        }
        i = i + 1;
    }
    None
}

/// What the refs alone say of a line.
pub open spec fn by_ref(l: LineV, key: Seq<char>, opening: int, known: Seq<Seq<char>>) -> Status {
    if l.book_date <= opening {
        Status::PredatesOpening
    } else if known.contains(key) {
        Status::Known
    } else {
        Status::New
    }
}

pub open spec fn by_refs(
    lines: Seq<LineV>,
    refs: Seq<Seq<char>>,
    opening: int,
    known: Seq<Seq<char>>,
) -> Seq<Status> {
    Seq::new(lines.len(), |i: int| by_ref(lines[i], refs[i], opening, known))
}

/// The spare postings left once each known line among the first `n` has taken
/// back its own.
pub open spec fn unclaimed(
    lines: Seq<LineV>,
    statuses: Seq<Status>,
    all: Seq<(int, Dec)>,
    n: int,
) -> Seq<(int, Dec)>
    decreases n,
{
    if n <= 0 {
        all
    } else {
        let left = unclaimed(lines, statuses, all, n - 1);
        if statuses[n - 1] == Status::Known {
            match spare_for(left, lines[n - 1]) {
                Some(i) => left.remove(i),
                None => left,
            }
        } else {
            left
        }
    }
}

/// The first `n` statuses once each new line that a spare posting fits has
/// taken it, and what is left of those postings.
pub open spec fn covered(
    lines: Seq<LineV>,
    statuses: Seq<Status>,
    all: Seq<(int, Dec)>,
    n: int,
) -> (Seq<Status>, Seq<(int, Dec)>)
    decreases n,
{
    if n <= 0 {
        (Seq::empty(), all)
    } else {
        let (done, left) = covered(lines, statuses, all, n - 1);
        if statuses[n - 1] == Status::New {
            match spare_for(left, lines[n - 1]) {
                Some(i) => (done.push(Status::Covered), left.remove(i)),
                None => (done.push(Status::New), left),
            }
        } else {
            (done.push(statuses[n - 1]), left)
        }
    }
}

/// What the ledger holds of each line before records are verified.
pub open spec fn booked(
    lines: Seq<LineV>,
    refs: Seq<Seq<char>>,
    opening: int,
    known: Seq<Seq<char>>,
    existing: Seq<HeldV>,
) -> Seq<Status> {
    let statuses = by_refs(lines, refs, opening, known);
    let left = unclaimed(lines, statuses, spares(existing), lines.len() as int);
    covered(lines, statuses, left, lines.len() as int).0
}

/// Each line's effect.
pub open spec fn has_effects(deltas: Seq<Amount>, lines: Seq<LineV>) -> bool {
    &&& deltas.len() == lines.len()
    &&& forall|i: int|
        0 <= i < lines.len() ==> bank::delta(#[trigger] lines[i]) == Some(deltas[i]@)
}

fn booked_of(
    lines: &Vec<StatementLine>,
    deltas: &Vec<Amount>,
    refs: &Vec<String>,
    opening: Date,
    known: &Vec<String>,
    existing: &Vec<LedgerPosting>,
) -> (r: Vec<Status>)
    requires
        has_effects(deltas@, bank::line_views(lines@)),
        refs@.len() == lines@.len(),
    ensures
        r@ == booked(
            bank::line_views(lines@),
            text::texts(refs@),
            opening@,
            text::texts(known@),
            model::held_views(existing@),
        ),
        r@.len() == lines@.len(),
{
    let ghost views = bank::line_views(lines@);
    let ghost keys = text::texts(refs@);
    let ghost held = text::texts(known@);
    let ghost first = by_refs(views, keys, opening@, held);
    let mut statuses: Vec<Status> = Vec::new();
    let mut i: usize = 0;
    while i < lines.len()
        invariant
            i <= lines@.len(),
            views == bank::line_views(lines@),
            refs@.len() == lines@.len(),
            keys == text::texts(refs@),
            held == text::texts(known@),
            first == by_refs(views, keys, opening@, held),
            statuses@ == first.take(i as int),
        decreases lines@.len() - i,
    {
        assert(views[i as int] == lines@[i as int]@);
        assert(keys[i as int] == refs@[i as int]@);
        let status = if lines[i].book_date.number() <= opening.number() {
            Status::PredatesOpening
        } else if is_among(known, refs[i].as_str()) {
            Status::Known
        } else {
            Status::New
        };
        statuses.push(status);
        assert(first.take(i as int + 1) =~= first.take(i as int).push(first[i as int]));
        i = i + 1;
    }
    assert(first.take(i as int) =~= first);
    let ghost all = spares(model::held_views(existing@));
    let mut left = spares_of(existing);
    let mut j: usize = 0;
    while j < lines.len()
        invariant
            j <= lines@.len(),
            views == bank::line_views(lines@),
            has_effects(deltas@, views),
            statuses@ == first,
            first.len() == lines@.len(),
            spare_views(left@) == unclaimed(views, first, all, j as int),
        decreases lines@.len() - j,
    {
        assert(views[j as int] == lines@[j as int]@);
        if statuses[j] == Status::Known {
            if let Some(at) = spare_for_line(&left, &lines[j], &deltas[j]) {
                let ghost before = left@;
                let _ = left.remove(at);
                assert(spare_views(left@) =~= spare_views(before).remove(at as int));
            }
        }
        j = j + 1;
    }
    let ghost rest = unclaimed(views, first, all, views.len() as int);
    let mut out: Vec<Status> = Vec::new();
    let mut k: usize = 0;
    assert(out@ =~= Seq::empty());
    while k < lines.len()
        invariant
            k <= lines@.len(),
            views == bank::line_views(lines@),
            has_effects(deltas@, views),
            statuses@ == first,
            first.len() == lines@.len(),
            out@.len() == k,
            (out@, spare_views(left@)) == covered(views, first, rest, k as int),
        decreases lines@.len() - k,
    {
        assert(views[k as int] == lines@[k as int]@);
        let mut status = statuses[k];
        if status == Status::New {
            if let Some(at) = spare_for_line(&left, &lines[k], &deltas[k]) {
                let ghost before = left@;
                let _ = left.remove(at);
                assert(spare_views(left@) =~= spare_views(before).remove(at as int));
                status = Status::Covered;
            }
        }
        out.push(status);
        k = k + 1;
    }
    out
}

/// Is `key` among `known`?
pub(crate) fn is_among(known: &Vec<String>, key: &str) -> (r: bool)
    ensures
        r == text::texts(known@).contains(key@),
{
    let wanted = text::copy(key);
    let mut i: usize = 0;
    while i < known.len()
        invariant
            i <= known@.len(),
            wanted@ == key@,
            forall|j: int| 0 <= j < i ==> (#[trigger] text::texts(known@)[j]) != key@,
        decreases known@.len() - i,
    {
        assert(text::texts(known@)[i as int] == known@[i as int]@);
        if known[i] == wanted {
            return true;
        }
        i = i + 1;
    }
    false
}

/// Is the record of the line's amount, and dated near it?
pub open spec fn fits(l: LineV, p: HeldV) -> bool {
    &&& amount::equal(p.amount, bank::delta(l)->0)
    &&& -VERIFY_WINDOW_DAYS <= p.date - l.book_date <= VERIFY_WINDOW_DAYS
}

/// The records no statement has checked yet.
pub open spec fn unverified(existing: Seq<HeldV>) -> Seq<HeldV>
    decreases existing.len(),
{
    if existing.len() == 0 {
        Seq::empty()
    } else {
        let before = unverified(existing.drop_last());
        let p = existing.last();
        if p.unverified && !p.opening {
            before.push(p)
        } else {
            before
        }
    }
}

/// The records that fit a line.
pub open spec fn fitting(l: LineV, records: Seq<HeldV>) -> Seq<HeldV>
    decreases records.len(),
{
    if records.len() == 0 {
        Seq::empty()
    } else {
        let before = fitting(l, records.drop_last());
        if fits(l, records.last()) {
            before.push(records.last())
        } else {
            before
        }
    }
}

/// How many new lines among the first `n` fit a record.
pub open spec fn rivals(lines: Seq<LineV>, statuses: Seq<Status>, p: HeldV, n: int) -> nat
    decreases n,
{
    if n <= 0 {
        0
    } else {
        rivals(lines, statuses, p, n - 1) + (if statuses[n - 1] == Status::New && fits(
            lines[n - 1],
            p,
        ) {
            1nat
        } else {
            0nat
        })
    }
}

/// Does the line at `i` fit one record alone that no other new line fits?
pub open spec fn verifies(
    lines: Seq<LineV>,
    statuses: Seq<Status>,
    records: Seq<HeldV>,
    i: int,
) -> bool {
    let fit = fitting(lines[i], records);
    fit.len() == 1 && rivals(lines, statuses, fit[0], lines.len() as int) == 1
}

/// A line's status once records are verified: a new line verifies the record
/// that fits it and no other.
pub open spec fn checked(
    lines: Seq<LineV>,
    statuses: Seq<Status>,
    records: Seq<HeldV>,
    i: int,
) -> Status {
    if statuses[i] == Status::New && verifies(lines, statuses, records, i) {
        Status::Verifies(fitting(lines[i], records)[0].transaction_id as i64)
    } else {
        statuses[i]
    }
}

/// The days of the records, listed.
pub open spec fn days_listed(records: Seq<HeldV>) -> Seq<Seq<char>> {
    records.map_values(|p: HeldV| date::printed(p.date))
}

/// How an ambiguous line is reported.
pub open spec fn ambiguity(l: LineV, fit: Seq<HeldV>) -> Seq<char> {
    date::printed(l.book_date) + " "@ + amount::printed(bank::delta(l)->0) + " matches "@
        + text::digits(fit.len()) + " unverified records within 7 days ("@ + text::joined(
        days_listed(fit),
        ", "@,
    ) + ")"@
}

/// The reports of the new lines among the first `n` that fit several records,
/// or one that another new line fits too.
pub open spec fn ambiguities(
    lines: Seq<LineV>,
    statuses: Seq<Status>,
    records: Seq<HeldV>,
    n: int,
) -> Seq<Seq<char>>
    decreases n,
{
    if n <= 0 {
        Seq::empty()
    } else {
        let before = ambiguities(lines, statuses, records, n - 1);
        let fit = fitting(lines[n - 1], records);
        if statuses[n - 1] == Status::New && fit.len() > 0 && !verifies(
            lines,
            statuses,
            records,
            n - 1,
        ) {
            before.push(ambiguity(lines[n - 1], fit))
        } else {
            before
        }
    }
}

fn fits_line(l: &StatementLine, d: &Amount, p: &LedgerPosting) -> (r: bool)
    requires
        bank::delta(l@) == Some(d@),
    ensures
        r == fits(l@, p@),
{
    let gap: i32 = p.date.number() - l.book_date.number();
    p.amount.equals(d) && -VERIFY_WINDOW_DAYS <= gap && gap <= VERIFY_WINDOW_DAYS
}

/// Where the records no statement has checked yet stand in `existing`.
spec fn stand_for(at: Seq<usize>, existing: Seq<LedgerPosting>, records: Seq<HeldV>) -> bool {
    &&& at.len() == records.len()
    &&& forall|i: int|
        0 <= i < at.len() ==> (#[trigger] at[i]) < existing.len() && existing[at[i] as int]@
            == records[i]
}

fn unverified_of(existing: &Vec<LedgerPosting>) -> (r: Vec<usize>)
    ensures
        stand_for(r@, existing@, unverified(model::held_views(existing@))),
{
    let ghost all = model::held_views(existing@);
    let mut out: Vec<usize> = Vec::new();
    let mut i: usize = 0;
    while i < existing.len()
        invariant
            i <= existing@.len(),
            all == model::held_views(existing@),
            stand_for(out@, existing@, unverified(all.take(i as int))),
        decreases existing@.len() - i,
    {
        assert(all[i as int] == existing@[i as int]@);
        assert(all.take(i as int + 1).drop_last() =~= all.take(i as int));
        if existing[i].unverified && !existing[i].opening {
            out.push(i);
        }
        i = i + 1;
    }
    assert(all.take(i as int) =~= all);
    out
}

fn fitting_of(
    l: &StatementLine,
    d: &Amount,
    existing: &Vec<LedgerPosting>,
    at: &Vec<usize>,
    records: Ghost<Seq<HeldV>>,
) -> (r: Vec<usize>)
    requires
        bank::delta(l@) == Some(d@),
        stand_for(at@, existing@, records@),
    ensures
        stand_for(r@, existing@, fitting(l@, records@)),
{
    let ghost all = records@;
    let mut out: Vec<usize> = Vec::new();
    let mut i: usize = 0;
    while i < at.len()
        invariant
            i <= at@.len(),
            bank::delta(l@) == Some(d@),
            all == records@,
            stand_for(at@, existing@, all),
            stand_for(out@, existing@, fitting(l@, all.take(i as int))),
        decreases at@.len() - i,
    {
        assert(all.take(i as int + 1).drop_last() =~= all.take(i as int));
        assert(existing@[at@[i as int] as int]@ == all[i as int]);
        if fits_line(l, d, &existing[at[i]]) {
            out.push(at[i]);
        }
        i = i + 1;
    }
    assert(all.take(i as int) =~= all);
    out
}

fn rivals_of(
    lines: &Vec<StatementLine>,
    deltas: &Vec<Amount>,
    statuses: &Vec<Status>,
    p: &LedgerPosting,
) -> (r: usize)
    requires
        has_effects(deltas@, bank::line_views(lines@)),
        statuses@.len() == lines@.len(),
    ensures
        r == rivals(bank::line_views(lines@), statuses@, p@, lines@.len() as int),
{
    let ghost views = bank::line_views(lines@);
    let mut n: usize = 0;
    let mut i: usize = 0;
    while i < lines.len()
        invariant
            i <= lines@.len(),
            n <= i,
            views == bank::line_views(lines@),
            has_effects(deltas@, views),
            statuses@.len() == lines@.len(),
            n == rivals(views, statuses@, p@, i as int),
        decreases lines@.len() - i,
    {
        assert(views[i as int] == lines@[i as int]@);
        if statuses[i] == Status::New && fits_line(&lines[i], &deltas[i], p) {
            n = n + 1;
        }
        i = i + 1;
    }
    n
}

fn ambiguity_of(
    l: &StatementLine,
    d: &Amount,
    existing: &Vec<LedgerPosting>,
    fit: &Vec<usize>,
    records: Ghost<Seq<HeldV>>,
) -> (r: String)
    requires
        bank::delta(l@) == Some(d@),
        stand_for(fit@, existing@, records@),
    ensures
        r@ == ambiguity(l@, records@),
{
    let ghost all = days_listed(records@);
    let mut days: Vec<String> = Vec::new();
    let mut i: usize = 0;
    assert(text::texts(days@) =~= all.take(0));
    while i < fit.len()
        invariant
            i <= fit@.len(),
            stand_for(fit@, existing@, records@),
            all == days_listed(records@),
            text::texts(days@) == all.take(i as int),
        decreases fit@.len() - i,
    {
        let ghost before = days@;
        assert(existing@[fit@[i as int] as int]@ == records@[i as int]);
        let day = existing[fit[i]].date.text();
        days.push(day);
        assert(text::texts(days@) =~= text::texts(before).push(day@));
        assert(all.take(i as int + 1) =~= all.take(i as int).push(all[i as int]));
        i = i + 1;
    }
    assert(all.take(i as int) =~= all);
    assert(text::texts(days@).subrange(0, all.len() as int) =~= all);
    let mut out = l.book_date.text();
    out.append(" ");
    out.append(d.text().as_str());
    out.append(" matches ");
    out.append(text::number(fit.len()).as_str());
    out.append(" unverified records within 7 days (");
    out.append(text::join(days.as_slice(), 0, days.len(), ", ").as_str());
    out.append(")");
    out
}

/// The statuses once records are verified, and the reports of the ambiguous
/// lines.
fn checked_of(
    lines: &Vec<StatementLine>,
    deltas: &Vec<Amount>,
    statuses: &Vec<Status>,
    existing: &Vec<LedgerPosting>,
    at: &Vec<usize>,
    records: Ghost<Seq<HeldV>>,
) -> (r: (Vec<Status>, Vec<String>))
    requires
        has_effects(deltas@, bank::line_views(lines@)),
        statuses@.len() == lines@.len(),
        stand_for(at@, existing@, records@),
    ensures
        r.0@ == Seq::new(
            lines@.len(),
            |i: int| checked(bank::line_views(lines@), statuses@, records@, i),
        ),
        text::texts(r.1@) == ambiguities(
            bank::line_views(lines@),
            statuses@,
            records@,
            lines@.len() as int,
        ),
{
    let ghost views = bank::line_views(lines@);
    let ghost all = Seq::new(lines@.len(), |i: int| checked(views, statuses@, records@, i));
    let mut out: Vec<Status> = Vec::new();
    let mut ambiguous: Vec<String> = Vec::new();
    let mut i: usize = 0;
    assert(text::texts(ambiguous@) =~= Seq::empty());
    while i < lines.len()
        invariant
            i <= lines@.len(),
            views == bank::line_views(lines@),
            has_effects(deltas@, views),
            statuses@.len() == lines@.len(),
            stand_for(at@, existing@, records@),
            all == Seq::new(lines@.len(), |i: int| checked(views, statuses@, records@, i)),
            out@ == all.take(i as int),
            text::texts(ambiguous@) == ambiguities(views, statuses@, records@, i as int),
        decreases lines@.len() - i,
    {
        let ghost reported = ambiguous@;
        assert(views[i as int] == lines@[i as int]@);
        let mut status = statuses[i];
        if status == Status::New {
            let fit = fitting_of(&lines[i], &deltas[i], existing, at, records);
            let ghost fitted = fitting(views[i as int], records@);
            if fit.len() > 0 {
                assert(existing@[fit@[0] as int]@ == fitted[0]);
                let only = &existing[fit[0]];
                if fit.len() == 1 && rivals_of(lines, deltas, statuses, only) == 1 {
                    status = Status::Verifies(only.transaction_id);
                } else {
                    let report = ambiguity_of(&lines[i], &deltas[i], existing, &fit, Ghost(fitted));
                    ambiguous.push(report);
                    assert(text::texts(ambiguous@) =~= text::texts(reported).push(report@));
                }
            }
        }
        out.push(status);
        assert(all.take(i as int + 1) =~= all.take(i as int).push(all[i as int]));
        i = i + 1;
    }
    assert(all.take(i as int) =~= all);
    (out, ambiguous)
}

/// Is the record from the statement's last days, so that the bank may book it
/// after?
pub open spec fn pending(p: HeldV, opening: int, settled: int) -> bool {
    opening < p.date <= settled && settled - p.date < VERIFY_WINDOW_DAYS
}

/// Does a line verify the record?
pub open spec fn is_verified(statuses: Seq<Status>, p: HeldV) -> bool {
    exists|i: int|
        0 <= i < statuses.len() && (#[trigger] statuses[i] matches Status::Verifies(id) && id
            == p.transaction_id)
}

/// The first of `others` that has statements of its own.
pub open spec fn first_with_statements(
    others: Seq<Seq<char>>,
    accounts: Seq<(Seq<char>, Seq<char>)>,
    from: int,
) -> Option<int>
    decreases others.len() - from,
{
    if from < 0 || from >= others.len() {
        None
    } else if accounts::is_value(accounts, others[from]) {
        Some(from)
    } else {
        first_with_statements(others, accounts, from + 1)
    }
}

/// What an import is refused with that would move a record another statement
/// is checked against.
pub open spec fn not_ours(s: LandingV, p: HeldV, other: Seq<char>) -> Seq<char> {
    s.account + " "@ + currency::code(s.statement.currency) + ": the record of "@
        + amount::printed(p.amount) + " on "@ + date::printed(p.date) + " is also "@ + other
        + "'s, and this statement does not show it. Import it together with the next statement, which may, or review the record. Nothing was imported"@
}

/// The records of the last days that no line verifies, which wait for the next
/// statement on the day after this one. One that reaches another account with
/// statements of its own is refused: moving it would move that leg too.
pub open spec fn deferrals(
    s: LandingV,
    statuses: Seq<Status>,
    accounts: Seq<(Seq<char>, Seq<char>)>,
    opening: int,
    records: Seq<HeldV>,
) -> Result<Seq<DeferredV>, Seq<char>>
    decreases records.len(),
{
    if records.len() == 0 {
        Ok(Seq::empty())
    } else {
        match deferrals(s, statuses, accounts, opening, records.drop_last()) {
            Err(e) => Err(e),
            Ok(before) => {
                let p = records.last();
                let settled = bank::settled_through(s.statement);
                if !pending(p, opening, settled) || is_verified(statuses, p) {
                    Ok(before)
                } else {
                    match first_with_statements(p.other_accounts, accounts, 0) {
                        Some(i) => Err(not_ours(s, p, p.other_accounts[i])),
                        None => Ok(
                            before.push(
                                DeferredV { transaction_id: p.transaction_id, date: settled + 1 },
                            ),
                        ),
                    }
                }
            },
        }
    }
}

proof fn deferral_refused_stays(
    s: LandingV,
    statuses: Seq<Status>,
    accounts: Seq<(Seq<char>, Seq<char>)>,
    opening: int,
    records: Seq<HeldV>,
    n: int,
)
    requires
        0 <= n <= records.len(),
        deferrals(s, statuses, accounts, opening, records.take(n)) is Err,
    ensures
        deferrals(s, statuses, accounts, opening, records) == deferrals(
            s,
            statuses,
            accounts,
            opening,
            records.take(n),
        ),
    decreases records.len(),
{
    if n == records.len() {
        assert(records.take(n) =~= records);
    } else {
        assert(records.drop_last().take(n) =~= records.take(n));
        deferral_refused_stays(s, statuses, accounts, opening, records.drop_last(), n);
    }
}

fn is_verified_by(statuses: &Vec<Status>, p: &LedgerPosting) -> (r: bool)
    ensures
        r == is_verified(statuses@, p@),
{
    let mut i: usize = 0;
    while i < statuses.len()
        invariant
            i <= statuses@.len(),
            forall|j: int|
                0 <= j < i ==> !(#[trigger] statuses@[j] matches Status::Verifies(id) && id
                    == p.transaction_id),
        decreases statuses@.len() - i,
    {
        if let Status::Verifies(id) = statuses[i] {
            if id == p.transaction_id {
                return true;
            }
        }
        i = i + 1;
    }
    false
}

fn first_other(others: &Vec<String>, accounts: &Vec<(String, String)>) -> (r: Option<usize>)
    ensures
        match r {
            Some(i) => first_with_statements(text::texts(others@), accounts::table(accounts@), 0)
                == Some(i as int) && i < others@.len(),
            None => first_with_statements(
                text::texts(others@),
                accounts::table(accounts@),
                0,
            ) is None,
        },
{
    let ghost all = text::texts(others@);
    let mut i: usize = 0;
    while i < others.len()
        invariant
            i <= others@.len(),
            all == text::texts(others@),
            first_with_statements(all, accounts::table(accounts@), 0) == first_with_statements(
                all,
                accounts::table(accounts@),
                i as int,
            ),
        decreases others@.len() - i,
    {
        assert(all[i as int] == others@[i as int]@);
        if accounts::has_value(accounts, others[i].as_str()) {
            return Some(i);
        }
        i = i + 1;
    }
    None
}

fn not_ours_of(s: &Statement, p: &LedgerPosting, other: &str) -> (r: Refusal)
    ensures
        r@ == not_ours(s@, p@, other@),
{
    let mut out = text::copy(s.account.as_str());
    out.append(" ");
    out.append(s.statement.currency.text().as_str());
    out.append(": the record of ");
    out.append(p.amount.text().as_str());
    out.append(" on ");
    out.append(p.date.text().as_str());
    out.append(" is also ");
    out.append(other);
    out.append(
        "'s, and this statement does not show it. Import it together with the next statement, which may, or review the record. Nothing was imported",
    );
    Refusal { message: out }
}

fn deferrals_of(
    s: &Statement,
    statuses: &Vec<Status>,
    accounts: &Vec<(String, String)>,
    opening: Date,
    at: &Vec<usize>,
    records: Ghost<Seq<HeldV>>,
) -> (r: Result<Vec<Deferred>, Refusal>)
    requires
        plannable(s@),
        stand_for(at@, s.existing@, records@),
    ensures
        match r {
            Ok(v) => deferrals(
                s@,
                statuses@,
                accounts::table(accounts@),
                opening@,
                records@,
            ) == Ok::<Seq<DeferredV>, Seq<char>>(deferred_views(v@)),
            Err(e) => deferrals(
                s@,
                statuses@,
                accounts::table(accounts@),
                opening@,
                records@,
            ) == Err::<Seq<DeferredV>, Seq<char>>(e@),
        },
{
    let ghost all = records@;
    let ghost table = accounts::table(accounts@);
    let settled = s.statement.settled_through();
    let after = settled.succ_opt().unwrap();
    let mut out: Vec<Deferred> = Vec::new();
    assert(deferred_views(out@) =~= Seq::empty());
    let mut i: usize = 0;
    while i < at.len()
        invariant
            i <= at@.len(),
            all == records@,
            table == accounts::table(accounts@),
            settled@ == bank::settled_through(s@.statement),
            after@ == settled@ + 1,
            stand_for(at@, s.existing@, all),
            deferrals(s@, statuses@, table, opening@, all.take(i as int)) == Ok::<
                Seq<DeferredV>,
                Seq<char>,
            >(deferred_views(out@)),
        decreases at@.len() - i,
    {
        let ghost before = out@;
        assert(all.take(i as int + 1).drop_last() =~= all.take(i as int));
        assert(s.existing@[at@[i as int] as int]@ == all[i as int]);
        let p = &s.existing[at[i]];
        let day: i32 = p.date.number();
        let end: i32 = settled.number();
        let is_pending = opening.number() < day && day <= end && end - day < VERIFY_WINDOW_DAYS;
        if is_pending && !is_verified_by(statuses, p) {
            if let Some(o) = first_other(&p.other_accounts, accounts) {
                assert(p@.other_accounts[o as int] == p.other_accounts@[o as int]@);
                proof {
                    deferral_refused_stays(s@, statuses@, table, opening@, all, i as int + 1);
                }
                return Err(not_ours_of(s, p, p.other_accounts[o].as_str()));
            }
            let d = Deferred { transaction_id: p.transaction_id, date: after };
            out.push(d);
            assert(deferred_views(out@) =~= deferred_views(before).push(d@));
        }
        i = i + 1;
    }
    assert(all.take(i as int) =~= all);
    Ok(out)
}

/// What the ledger holds of a statement.
#[verifier::ext_equal]
pub struct SortedV {
    pub refs: Seq<Seq<char>>,
    /// The day the ledger's record of the account begins after.
    pub opening: int,
    /// What the account opens on, where the ledger holds nothing of it yet.
    pub fresh: Option<Dec>,
    pub statuses: Seq<Status>,
    pub deferred: Seq<DeferredV>,
}

/// What a statement is refused with whose lines and records pair ambiguously.
pub open spec fn ambiguous(s: LandingV, reports: Seq<Seq<char>>) -> Seq<char> {
    s.account + " "@ + currency::code(s.statement.currency)
        + ": lines and unverified records pair ambiguously; review them, then import again. Nothing was imported.\n  "@
        + text::joined(reports, "\n  "@)
}

/// What the ledger holds of a statement, given the refs it knows and the
/// accounts that have statements.
pub open spec fn sorted(
    s: LandingV,
    known: Seq<Seq<char>>,
    accounts: Seq<(Seq<char>, Seq<char>)>,
) -> Result<SortedV, Seq<char>> {
    let lines = s.statement.lines;
    if !bank::has_deltas(lines) {
        Err(refusal::out_of_range())
    } else {
        let refs = bank::refs(bank::prefix(s.statement.bank), s.statement.account_no, lines);
        match opening_day(s) {
            Err(e) => Err(e),
            Ok(opening) => {
                let is_fresh = s.existing.len() == 0;
                let records = unverified(s.existing);
                let first = booked(lines, refs, opening, known, s.existing);
                let statuses = Seq::new(lines.len(), |i: int| checked(lines, first, records, i));
                let reports = ambiguities(lines, first, records, lines.len() as int);
                if is_fresh && bank::opening_balance(s.statement) is None {
                    Err(refusal::out_of_range())
                } else {
                    match deferrals(s, statuses, accounts, opening, records) {
                        Err(e) => Err(e),
                        Ok(deferred) => if reports.len() > 0 {
                            Err(ambiguous(s, reports))
                        } else {
                            Ok(
                                SortedV {
                                    refs,
                                    opening,
                                    fresh: if is_fresh {
                                        bank::opening_balance(s.statement)
                                    } else {
                                        None
                                    },
                                    statuses,
                                    deferred,
                                },
                            )
                        },
                    }
                }
            },
        }
    }
}

/// What the ledger holds of a statement.
pub struct Sorted {
    pub refs: Vec<String>,
    pub deltas: Vec<Amount>,
    pub opening: Date,
    pub fresh: Option<Amount>,
    pub statuses: Vec<Status>,
    pub deferred: Vec<Deferred>,
}

impl View for Sorted {
    type V = SortedV;

    open spec fn view(&self) -> SortedV {
        SortedV {
            refs: text::texts(self.refs@),
            opening: self.opening@,
            fresh: amount::opt(self.fresh),
            statuses: self.statuses@,
            deferred: deferred_views(self.deferred@),
        }
    }
}

/// The effect of each line; `None` if one is out of range.
fn deltas_of(lines: &Vec<StatementLine>) -> (r: Option<Vec<Amount>>)
    ensures
        r is Some <==> bank::has_deltas(bank::line_views(lines@)),
        r matches Some(v) ==> has_effects(v@, bank::line_views(lines@)),
{
    let ghost views = bank::line_views(lines@);
    let mut out: Vec<Amount> = Vec::new();
    let mut i: usize = 0;
    while i < lines.len()
        invariant
            i <= lines@.len(),
            views == bank::line_views(lines@),
            out@.len() == i,
            forall|j: int| 0 <= j < i ==> bank::delta(#[trigger] views[j]) == Some(out@[j]@),
        decreases lines@.len() - i,
    {
        assert(views[i as int] == lines@[i as int]@);
        match lines[i].checked_delta() {
            Some(d) => {
                out.push(d);
            },
            None => {
                assert(bank::delta(views[i as int]) is None);
                return None;
            },
        }
        i = i + 1;
    }
    Some(out)
}

/// Sorts a statement's lines by what the ledger holds of them.
pub fn sort_lines(s: &Statement, known: &Vec<String>, accounts: &Vec<(String, String)>) -> (r:
    Result<Sorted, Refusal>)
    requires
        plannable(s@),
    ensures
        match r {
            Ok(v) => sorted(s@, text::texts(known@), accounts::table(accounts@)) == Ok::<
                SortedV,
                Seq<char>,
            >(v@) && has_effects(v.deltas@, s@.statement.lines) && v@.refs.len()
                == s@.statement.lines.len() == v@.statuses.len(),
            Err(e) => sorted(s@, text::texts(known@), accounts::table(accounts@)) == Err::<
                SortedV,
                Seq<char>,
            >(e@),
        },
{
    let st = s.statement;
    let ghost lines = s@.statement.lines;
    assert(lines.len() == st.lines@.len());
    let deltas = match deltas_of(&st.lines) {
        Some(v) => v,
        None => {
            return Err(Refusal::out_of_range());
        },
    };
    let refs = match bank::line_refs(st.bank.ref_prefix(), st.account_no.as_str(), &st.lines) {
        Some(v) => v,
        None => {
            return Err(Refusal::out_of_range());
        },
    };
    assert(text::texts(refs@).len() == refs@.len());
    let opening = match opening_day_of(s) {
        Ok(d) => d,
        Err(e) => {
            return Err(e);
        },
    };
    let ghost held = model::held_views(s.existing@);
    assert(held.len() == s.existing@.len());
    let ghost records = unverified(held);
    let at = unverified_of(&s.existing);
    let first = booked_of(&st.lines, &deltas, &refs, opening, known, &s.existing);
    let (statuses, reports) = checked_of(
        &st.lines,
        &deltas,
        &first,
        &s.existing,
        &at,
        Ghost(records),
    );
    assert(text::texts(reports@).len() == reports@.len());
    let fresh = if s.existing.len() == 0 {
        match st.checked_opening() {
            Some(a) => Some(a),
            None => {
                return Err(Refusal::out_of_range());
            },
        }
    } else {
        None
    };
    let deferred = match deferrals_of(s, &statuses, accounts, opening, &at, Ghost(records)) {
        Ok(v) => v,
        Err(e) => {
            return Err(e);
        },
    };
    if reports.len() > 0 {
        let mut out = text::copy(s.account.as_str());
        out.append(" ");
        out.append(st.currency.text().as_str());
        out.append(
            ": lines and unverified records pair ambiguously; review them, then import again. Nothing was imported.\n  ",
        );
        assert(text::texts(reports@).subrange(0, reports@.len() as int) =~= text::texts(reports@));
        out.append(text::join(reports.as_slice(), 0, reports.len(), "\n  ").as_str());
        return Err(Refusal { message: out });
    }
    Ok(Sorted { refs, deltas, opening, fresh, statuses, deferred })
}

} // verus!
