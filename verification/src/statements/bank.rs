//! What a bank statement is once parsed, whichever bank printed it. The
//! per-bank rules (ref namespace, how a line names an account, what undoes a
//! debit, how far a statement vouches) are [`Bank`]'s.

use vstd::prelude::*;

use crate::amount;
use crate::amount::{Amount, Dec};
use crate::assertion;
use crate::assertion::{AssertionSource, AssertionV, BalanceAssertion};
use crate::bounds;
use crate::currency;
use crate::currency::Currency;
use crate::date;
use crate::date::Date;
use crate::statements::cathay;
use crate::statements::line_bank;
use crate::text;
use crate::text::Class;

verus! {

#[derive(Clone, Copy, PartialEq, Eq, Structural, Debug)]
pub enum Bank {
    Cathay,
    LineBank,
}

/// What namespaces a bank's refs.
pub open spec fn prefix(bank: Bank) -> Seq<char> {
    match bank {
        Bank::Cathay => "cathay-bank:"@,
        Bank::LineBank => "line-bank:"@,
    }
}

/// Does `s` name `account_no`, in the bank's way of writing one?
pub open spec fn names(bank: Bank, s: Seq<char>, account_no: Seq<char>) -> bool {
    match bank {
        Bank::Cathay => cathay::names(s, account_no),
        Bank::LineBank => line_bank::names(s, account_no),
    }
}

/// What a line is.
#[verifier::ext_equal]
pub struct LineV {
    pub book_date: int,
    pub description: Seq<char>,
    pub withdrawal: Dec,
    pub deposit: Dec,
    pub balance: Dec,
    pub info: Seq<char>,
    pub memo: Seq<char>,
}

/// What a period is.
pub struct PeriodV {
    pub start: int,
    pub end: int,
    pub opening: Dec,
    pub closing: Dec,
}

/// What a statement is.
#[verifier::ext_equal]
pub struct StatementV {
    pub bank: Bank,
    pub account_no: Seq<char>,
    pub account_kind: Seq<char>,
    pub currency: Currency,
    pub period_end: Option<int>,
    pub periods: Seq<PeriodV>,
    pub lines: Seq<LineV>,
}

/// A line's signed effect on the account.
pub open spec fn delta(l: LineV) -> Option<Dec> {
    amount::difference(l.deposit, l.withdrawal)
}

/// The balance before a line.
pub open spec fn balance_before(l: LineV) -> Option<Dec> {
    match delta(l) {
        Some(d) => amount::difference(l.balance, d),
        None => None,
    }
}

/// Is a line's effect within what a decimal can be?
pub open spec fn delta_in_range(l: LineV) -> bool {
    amount::in_range(amount::worth(l.deposit) - amount::worth(l.withdrawal))
}

/// Is the balance before a line within what a decimal can be? There is one to
/// spare where the line's effect is rounded.
pub open spec fn line_in_range(l: LineV) -> bool {
    let before = amount::worth(l.balance) - (amount::worth(l.deposit) - amount::worth(
        l.withdrawal,
    ));
    &&& delta_in_range(l)
    &&& if amount::difference_fits(l.deposit, l.withdrawal) {
        amount::in_range(before)
    } else {
        -(amount::limit() - 2) * amount::pow10(28) <= before <= (amount::limit() - 2)
            * amount::pow10(28)
    }
}

/// Are the balances before the lines within what a decimal can be?
pub open spec fn lines_in_range(lines: Seq<LineV>) -> bool {
    forall|i: int| 0 <= i < lines.len() ==> line_in_range(#[trigger] lines[i])
}

/// Are the effects of the lines within what a decimal can be?
pub open spec fn deltas_in_range(lines: Seq<LineV>) -> bool {
    forall|i: int| 0 <= i < lines.len() ==> delta_in_range(#[trigger] lines[i])
}

/// Is `line` the bank undoing the earlier `debit`?
pub open spec fn cancels(bank: Bank, debit: LineV, line: LineV) -> bool {
    &&& debit.book_date == line.book_date
    &&& match bank {
        // A 錯誤更正 row carries a negative withdrawal.
        Bank::Cathay => {
            &&& line.withdrawal.negative
            &&& debit.info == line.info
            &&& amount::equal(debit.withdrawal, amount::negated(line.withdrawal))
        },
        // The cancel repeats the transfer's 備註, which may have wrapped
        // elsewhere.
        Bank::LineBank => {
            &&& line.description == line_bank::CANCEL@
            &&& text::stripped(line.info, line_bank::CANCEL_REMARK@) matches Some(rest)
            &&& text::kept(rest, Class::Solid) == text::kept(debit.info, Class::Solid)
            &&& delta(debit) matches Some(out)
            &&& delta(line) matches Some(back)
            &&& out.negative
            &&& amount::equal(out, amount::negated(back))
        },
    }
}

/// The bank's name.
pub open spec fn bank_text(bank: Bank) -> Seq<char> {
    match bank {
        Bank::Cathay => "Cathay bank"@,
        Bank::LineBank => "LINE Bank"@,
    }
}

impl Bank {
    /// Every bank.
    pub fn all() -> (r: Vec<Bank>)
        ensures
            r@ == seq![Bank::Cathay, Bank::LineBank],
    {
        let out: Vec<Bank> = vec![Bank::Cathay, Bank::LineBank];
        assert(out@ =~= seq![Bank::Cathay, Bank::LineBank]);
        out
    }

    /// The bank's name.
    pub fn text(self) -> (r: &'static str)
        ensures
            r@ == bank_text(self),
    {
        match self {
            Bank::Cathay => "Cathay bank",
            Bank::LineBank => "LINE Bank",
        }
    }

    /// Namespaces the bank's `external_ref`s: every importer shares one dedup
    /// scope.
    pub fn ref_prefix(self) -> (r: &'static str)
        ensures
            r@ == prefix(self),
    {
        match self {
            Bank::Cathay => "cathay-bank:",
            Bank::LineBank => "line-bank:",
        }
    }

    /// What its imports are recorded as.
    pub fn source(self) -> (r: &'static str)
        ensures
            r@ == (match self {
                Bank::Cathay => "cathay-bank"@,
                Bank::LineBank => "line-bank"@,
            }),
    {
        match self {
            Bank::Cathay => "cathay-bank",
            Bank::LineBank => "line-bank",
        }
    }

    /// Does a line's text name `account_no`, in this bank's way of writing
    /// one?
    pub fn names_account(self, s: &str, account_no: &str) -> (r: bool)
        ensures
            r == names(self, s@, account_no@),
    {
        match self {
            Bank::Cathay => cathay::info_names_account(s, account_no),
            Bank::LineBank => line_bank::remark_names_account(s, account_no),
        }
    }

    /// Is `line` the bank undoing the earlier `debit`?
    pub fn cancels(self, debit: &StatementLine, line: &StatementLine) -> (r: bool)
        ensures
            r == cancels(self, debit@, line@),
    {
        if debit.book_date.number() != line.book_date.number() {
            return false;
        }
        match self {
            Bank::Cathay => line.withdrawal.is_sign_negative() && text::same_text(
                debit.info.as_str(),
                line.info.as_str(),
            ) && debit.withdrawal.equals(&line.withdrawal.negated()),
            Bank::LineBank => {
                if !text::same_text(line.description.as_str(), line_bank::CANCEL) {
                    return false;
                }
                let rest = match text::strip_prefix(line.info.as_str(), line_bank::CANCEL_REMARK) {
                    Some(rest) => rest,
                    None => {
                        return false;
                    },
                };
                if !text::same_text(
                    text::keep(rest.as_str(), Class::Solid).as_str(),
                    text::keep(debit.info.as_str(), Class::Solid).as_str(),
                ) {
                    return false;
                }
                match (debit.checked_delta(), line.checked_delta()) {
                    (Some(out), Some(back)) => out.is_sign_negative() && out.equals(
                        &back.negated(),
                    ),
                    _ => false,
                }
            },
        }
    }
}

#[derive(Clone, Debug, PartialEq)]
pub struct StatementLine {
    pub book_date: Date,
    pub description: String,
    pub withdrawal: Amount,
    pub deposit: Amount,
    pub balance: Amount,
    pub info: String,
    pub memo: String,
}

impl View for StatementLine {
    type V = LineV;

    open spec fn view(&self) -> LineV {
        LineV {
            book_date: self.book_date@,
            description: self.description@,
            withdrawal: self.withdrawal@,
            deposit: self.deposit@,
            balance: self.balance@,
            info: self.info@,
            memo: self.memo@,
        }
    }
}

pub open spec fn line_views(v: Seq<StatementLine>) -> Seq<LineV> {
    v.map_values(|l: StatementLine| l@)
}

impl StatementLine {
    /// Signed effect on the account. `withdrawal` can be negative on 錯誤更正
    /// (error-correction) rows, which reverse an earlier debit.
    pub fn delta(&self) -> (r: Amount)
        requires
            delta_in_range(self@),
        ensures
            delta(self@) == Some(r@),
    {
        self.deposit.minus(&self.withdrawal).unwrap()
    }

    /// Signed effect on the account, if it is within range.
    pub fn checked_delta(&self) -> (r: Option<Amount>)
        ensures
            amount::opt(r) == delta(self@),
    {
        self.deposit.minus(&self.withdrawal)
    }

    /// The balance before the line, if it is within range.
    pub fn checked_before(&self) -> (r: Option<Amount>)
        ensures
            amount::opt(r) == balance_before(self@),
            line_in_range(self@) ==> r is Some,
    {
        match self.deposit.minus(&self.withdrawal) {
            Some(d) => {
                proof {
                    ranges_leave_room(
                        amount::worth(self.balance@),
                        amount::worth(self.deposit@) - amount::worth(self.withdrawal@),
                        amount::worth(d@),
                    );
                }
                self.balance.minus(&d)
            },
            None => None,
        }
    }

    /// A copy of the line.
    pub fn copy(&self) -> (r: StatementLine)
        ensures
            r@ == self@,
    {
        StatementLine {
            book_date: self.book_date,
            description: text::copy(self.description.as_str()),
            withdrawal: self.withdrawal,
            deposit: self.deposit,
            balance: self.balance,
            info: text::copy(self.info.as_str()),
            memo: text::copy(self.memo.as_str()),
        }
    }
}

proof fn ranges_leave_room(balance: int, exact: int, rounded: int)
    requires
        amount::near(rounded, exact),
    ensures
        -(amount::limit() - 2) * amount::pow10(28) <= balance - exact <= (amount::limit() - 2)
            * amount::pow10(28) ==> amount::in_range(balance - rounded),
{
    let one = amount::pow10(28);
    assert((amount::limit() - 1) * one == (amount::limit() - 2) * one + one) by (nonlinear_arith);
    assert(-(amount::limit() - 1) * one == -(amount::limit() - 2) * one - one) by (nonlinear_arith);
}

/// A period a statement states its own opening and closing for.
#[derive(Clone, Copy, Debug, PartialEq)]
pub struct Period {
    pub start: Date,
    pub end: Date,
    pub opening: Amount,
    pub closing: Amount,
}

impl View for Period {
    type V = PeriodV;

    open spec fn view(&self) -> PeriodV {
        PeriodV {
            start: self.start@,
            end: self.end@,
            opening: self.opening@,
            closing: self.closing@,
        }
    }
}

pub open spec fn period_views(v: Seq<Period>) -> Seq<PeriodV> {
    v.map_values(|p: Period| p@)
}

#[derive(Debug)]
pub struct BankStatement {
    pub bank: Bank,
    pub account_no: String,
    pub account_kind: String,
    pub currency: Currency,
    /// End of the period the statement covers.
    pub period_end: Option<Date>,
    /// Issued statements, each vouching for its own period; empty for a
    /// download, whose one period runs from its first line.
    pub periods: Vec<Period>,
    /// Oldest first. Empty only for an issued statement with no activity.
    pub lines: Vec<StatementLine>,
}

impl View for BankStatement {
    type V = StatementV;

    open spec fn view(&self) -> StatementV {
        StatementV {
            bank: self.bank,
            account_no: self.account_no@,
            account_kind: self.account_kind@,
            currency: self.currency,
            period_end: date::opt(self.period_end),
            periods: period_views(self.periods@),
            lines: line_views(self.lines@),
        }
    }
}

/// The balance before the first line; with no line, what the first period
/// opens on; with neither, nothing.
pub open spec fn opening_balance(s: StatementV) -> Option<Dec> {
    if s.lines.len() > 0 {
        balance_before(s.lines[0])
    } else if s.periods.len() > 0 {
        Some(s.periods[0].opening)
    } else {
        Some(amount::zero())
    }
}

/// What the last period closes on; without periods, the last line's balance;
/// with neither, nothing.
pub open spec fn closing_balance(s: StatementV) -> Dec {
    if s.periods.len() > 0 {
        s.periods.last().closing
    } else if s.lines.len() > 0 {
        s.lines.last().balance
    } else {
        amount::zero()
    }
}

/// Does a statement have a first day?
pub open spec fn has_start(s: StatementV) -> bool {
    s.periods.len() > 0 || s.lines.len() > 0
}

/// The first day a statement covers.
pub open spec fn start(s: StatementV) -> int {
    if s.periods.len() > 0 {
        s.periods[0].start
    } else {
        s.lines[0].book_date
    }
}

/// Does a line naming this account on `day` have its far side here?
pub open spec fn covers(s: StatementV, day: int) -> bool {
    s.periods.len() > 0 ==> s.periods[0].start <= day <= s.periods.last().end
}

/// The `external_ref` of an account's opening.
pub open spec fn opening_ref(bank: Bank, account: Seq<char>, c: Currency) -> Seq<char> {
    prefix(bank) + "opening:"@ + account + ":"@ + currency::code(c)
}

/// A line's key, apart from the number of its repeat.
pub open spec fn base_ref(prefix: Seq<char>, account_no: Seq<char>, l: LineV) -> Seq<char> {
    prefix + account_no + ":"@ + date::printed(l.book_date) + ":"@ + amount::printed(delta(l)->0)
        + ":"@ + amount::printed(l.balance)
}

pub open spec fn base_refs(prefix: Seq<char>, account_no: Seq<char>, lines: Seq<LineV>) -> Seq<
    Seq<char>,
> {
    lines.map_values(|l: LineV| base_ref(prefix, account_no, l))
}

/// How often `key` stands in `s`.
pub open spec fn occurrences(s: Seq<Seq<char>>, key: Seq<char>) -> nat
    decreases s.len(),
{
    if s.len() == 0 {
        0
    } else {
        occurrences(s.drop_last(), key) + (if s.last() == key {
            1nat
        } else {
            0nat
        })
    }
}

/// The `n`th line with the key `base`: the first has it as it is, a repeat has
/// its number behind.
pub open spec fn numbered(base: Seq<char>, n: nat) -> Seq<char> {
    if n == 1 {
        base
    } else {
        base + ":"@ + text::digits(n)
    }
}

/// Each of `bases` with the number of its repeat.
pub open spec fn numbered_all(bases: Seq<Seq<char>>) -> Seq<Seq<char>> {
    Seq::new(bases.len(), |i: int| numbered(bases[i], occurrences(bases.take(i), bases[i]) + 1))
}

/// The dedup key of each line.
pub open spec fn refs(prefix: Seq<char>, account_no: Seq<char>, lines: Seq<LineV>) -> Seq<
    Seq<char>,
> {
    numbered_all(base_refs(prefix, account_no, lines))
}

/// Does every line have an effect within range?
pub open spec fn has_deltas(lines: Seq<LineV>) -> bool {
    forall|i: int| 0 <= i < lines.len() ==> delta(#[trigger] lines[i]) is Some
}

fn base_ref_of(prefix: &str, account_no: &str, l: &StatementLine, d: &Amount) -> (r: String)
    requires
        delta(l@) == Some(d@),
    ensures
        r@ == base_ref(prefix@, account_no@, l@),
{
    let mut out = text::copy(prefix);
    out.append(account_no);
    out.append(":");
    out.append(l.book_date.text().as_str());
    out.append(":");
    out.append(d.text().as_str());
    out.append(":");
    out.append(l.balance.text().as_str());
    out
}

/// The dedup key of each line; `None` if a line's effect is out of range.
pub(crate) fn line_refs(prefix: &str, account_no: &str, lines: &Vec<StatementLine>) -> (r: Option<
    Vec<String>,
>)
    ensures
        r is Some <==> has_deltas(line_views(lines@)),
        r matches Some(v) ==> text::texts(v@) == refs(prefix@, account_no@, line_views(lines@)),
        deltas_in_range(line_views(lines@)) ==> r is Some,
{
    let ghost views = line_views(lines@);
    let ghost all = base_refs(prefix@, account_no@, views);
    let mut bases: Vec<String> = Vec::new();
    let mut i: usize = 0;
    while i < lines.len()
        invariant
            i <= lines@.len(),
            views == line_views(lines@),
            all == base_refs(prefix@, account_no@, views),
            text::texts(bases@) == all.take(i as int),
            forall|j: int| 0 <= j < i ==> delta(#[trigger] views[j]) is Some,
        decreases lines@.len() - i,
    {
        assert(views[i as int] == lines@[i as int]@);
        match lines[i].deposit.minus(&lines[i].withdrawal) {
            Some(d) => {
                let ghost before = bases@;
                let base = base_ref_of(prefix, account_no, &lines[i], &d);
                bases.push(base);
                assert(text::texts(bases@) =~= text::texts(before).push(base@));
                assert(all.take(i as int + 1) =~= all.take(i as int).push(all[i as int]));
            },
            None => {
                assert(delta(views[i as int]) is None);
                assert(deltas_in_range(views) ==> delta_in_range(views[i as int]));
                return None;
            },
        }
        i = i + 1;
    }
    assert(all.take(i as int) =~= all);
    Some(number_repeats(&bases))
}

/// Each of `bases` with the number of its repeat.
fn number_repeats(bases: &Vec<String>) -> (r: Vec<String>)
    ensures
        text::texts(r@) == numbered_all(text::texts(bases@)),
{
    let ghost all = text::texts(bases@);
    let mut out: Vec<String> = Vec::new();
    let mut i: usize = 0;
    while i < bases.len()
        invariant
            i <= bases@.len(),
            all == text::texts(bases@),
            text::texts(out@) == numbered_all(all).take(i as int),
        decreases bases@.len() - i,
    {
        let ghost before = out@;
        let mut n: usize = 0;
        let mut j: usize = 0;
        while j < i
            invariant
                j <= i < bases@.len(),
                n <= j,
                all == text::texts(bases@),
                n == occurrences(all.take(j as int), all[i as int]),
            decreases i - j,
        {
            assert(all.take(j as int + 1).drop_last() =~= all.take(j as int));
            if bases[j] == bases[i] {
                n = n + 1;
            }
            j = j + 1;
        }
        let mut key = text::copy(bases[i].as_str());
        if n > 0 {
            key.append(":");
            key.append(text::number(n + 1).as_str());
        }
        assert(key@ =~= numbered(all[i as int], n as nat + 1));
        out.push(key);
        assert(text::texts(out@) =~= text::texts(before).push(key@));
        assert(numbered_all(all).take(i as int + 1) =~= numbered_all(all).take(i as int).push(
            numbered_all(all)[i as int],
        ));
        i = i + 1;
    }
    assert(numbered_all(all).take(i as int) =~= numbered_all(all));
    out
}

/// The last line before `to` that is not yet paired and that `line` undoes.
pub open spec fn undone(
    bank: Bank,
    lines: Seq<LineV>,
    used: Seq<bool>,
    line: LineV,
    to: int,
) -> Option<int>
    decreases to,
{
    if to <= 0 {
        None
    } else if !used[to - 1] && cancels(bank, lines[to - 1], line) {
        Some(to - 1)
    } else {
        undone(bank, lines, used, line, to - 1)
    }
}

/// The pairs among the first `n` lines, each line with the nearest line before
/// it that it undoes, and which lines they use.
pub open spec fn paired(bank: Bank, lines: Seq<LineV>, n: int) -> (Seq<bool>, Seq<(int, int)>)
    decreases n,
{
    if n <= 0 {
        (Seq::new(lines.len(), |i: int| false), Seq::empty())
    } else {
        let (used, pairs) = paired(bank, lines, n - 1);
        match undone(bank, lines, used, lines[n - 1], n - 1) {
            Some(d) => (used.update(d, true).update(n - 1, true), pairs.push((d, n - 1))),
            None => (used, pairs),
        }
    }
}

/// The debits the bank undid, as (debit, reversal).
pub open spec fn reversals(bank: Bank, lines: Seq<LineV>) -> Seq<(int, int)> {
    paired(bank, lines, lines.len() as int).1
}

pub open spec fn pair_views(v: Seq<(usize, usize)>) -> Seq<(int, int)> {
    v.map_values(|p: (usize, usize)| (p.0 as int, p.1 as int))
}

/// The debits the bank undid, as (debit, reversal).
pub(crate) fn reversed_lines(bank: Bank, lines: &Vec<StatementLine>) -> (r: Vec<(usize, usize)>)
    ensures
        pair_views(r@) == reversals(bank, line_views(lines@)),
        forall|i: int|
            0 <= i < r@.len() ==> (#[trigger] r@[i]).0 < r@[i].1 && r@[i].1 < lines@.len(),
{
    let ghost views = line_views(lines@);
    let mut used: Vec<bool> = Vec::new();
    let mut k: usize = 0;
    while k < lines.len()
        invariant
            k <= lines@.len(),
            used@ == Seq::new(k as nat, |i: int| false),
        decreases lines@.len() - k,
    {
        used.push(false);
        assert(used@ =~= Seq::new((k + 1) as nat, |i: int| false));
        k = k + 1;
    }
    let mut pairs: Vec<(usize, usize)> = Vec::new();
    assert(pair_views(pairs@) =~= Seq::empty());
    let mut n: usize = 0;
    while n < lines.len()
        invariant
            n <= lines@.len(),
            views == line_views(lines@),
            used@.len() == lines@.len(),
            (used@, pair_views(pairs@)) == paired(bank, views, n as int),
            forall|i: int|
                0 <= i < pairs@.len() ==> (#[trigger] pairs@[i]).0 < pairs@[i].1 && pairs@[i].1
                    < lines@.len(),
        decreases lines@.len() - n,
    {
        let ghost before = (used@, pairs@);
        assert(views[n as int] == lines@[n as int]@);
        let mut to: usize = n;
        let mut found: bool = false;
        while to > 0 && !found
            invariant
                to <= n < lines@.len(),
                views == line_views(lines@),
                views[n as int] == lines@[n as int]@,
                used@.len() == lines@.len(),
                !found ==> undone(bank, views, used@, views[n as int], n as int) == undone(
                    bank,
                    views,
                    used@,
                    views[n as int],
                    to as int,
                ),
                found ==> to < n && undone(bank, views, used@, views[n as int], n as int) == Some(
                    to as int,
                ),
            decreases to,
        {
            let at: usize = to - 1;
            assert(views[at as int] == lines@[at as int]@);
            if !used[at] && bank.cancels(&lines[at], &lines[n]) {
                found = true;
            }
            to = at;
        }
        if found {
            used.set(to, true);
            used.set(n, true);
            pairs.push((to, n));
            assert(pair_views(pairs@) =~= pair_views(before.1).push((to as int, n as int)));
        }
        n = n + 1;
    }
    pairs
}

/// The first line dated after `day`.
pub open spec fn first_after(lines: Seq<LineV>, day: int) -> int
    decreases lines.len(),
{
    if lines.len() == 0 || lines[0].book_date > day {
        0
    } else {
        1 + first_after(lines.skip(1), day)
    }
}

pub(crate) proof fn first_after_bounds(lines: Seq<LineV>, day: int)
    ensures
        0 <= first_after(lines, day) <= lines.len(),
    decreases lines.len(),
{
    if lines.len() > 0 {
        first_after_bounds(lines.skip(1), day);
    }
}

/// The first line dated after `day`.
pub(crate) fn position_after(lines: &Vec<StatementLine>, day: i32) -> (r: usize)
    ensures
        r == first_after(line_views(lines@), day as int),
        r <= lines@.len(),
        r < lines@.len() ==> lines@[r as int].book_date@ > day,
        forall|i: int| 0 <= i < r ==> (#[trigger] lines@[i]).book_date@ <= day,
{
    let ghost views = line_views(lines@);
    let mut i: usize = 0;
    assert(views.skip(0) =~= views);
    while i < lines.len() && lines[i].book_date.number() <= day
        invariant
            i <= lines@.len(),
            views == line_views(lines@),
            first_after(views, day as int) == i + first_after(views.skip(i as int), day as int),
            forall|j: int| 0 <= j < i ==> (#[trigger] lines@[j]).book_date@ <= day,
        decreases lines@.len() - i,
    {
        assert(views.skip(i as int)[0] == lines@[i as int]@);
        assert(views.skip(i as int).skip(1) =~= views.skip(i as int + 1));
        i = i + 1;
    }
    if i < lines.len() {
        assert(views.skip(i as int)[0] == lines@[i as int]@);
    }
    i
}

/// The balance a period opens on once the lines before the cut are gone: what
/// the first line kept starts from, or the closing where the period keeps none.
pub open spec fn opening_left(kept: Seq<LineV>, p: PeriodV) -> Dec {
    if kept.len() > 0 && kept[0].book_date <= p.end {
        balance_before(kept[0])->0
    } else {
        p.closing
    }
}

/// The periods that reach `day`, the one it falls in starting there.
pub open spec fn periods_from(periods: Seq<PeriodV>, kept: Seq<LineV>, day: int) -> Seq<PeriodV>
    decreases periods.len(),
{
    if periods.len() == 0 {
        Seq::empty()
    } else {
        let before = periods_from(periods.drop_last(), kept, day);
        let p = periods.last();
        if p.end < day {
            before
        } else if p.start < day {
            before.push(PeriodV { start: day, opening: opening_left(kept, p), ..p })
        } else {
            before.push(p)
        }
    }
}

/// The statement without its lines before `day`; a period they fall in starts
/// at `day`, on the balance they leave.
pub open spec fn cut(s: StatementV, day: int) -> StatementV {
    let kept = s.lines.skip(first_after(s.lines, day - 1));
    StatementV { lines: kept, periods: periods_from(s.periods, kept, day), ..s }
}

/// The first day a statement may not hold in full. A download may have been
/// made partway through its range's end.
pub open spec fn unsettled_from(s: StatementV) -> Option<int> {
    match s.bank {
        Bank::Cathay => s.period_end,
        Bank::LineBank => match s.period_end {
            Some(end) => date::after(end),
            None => None,
        },
    }
}

/// The day after the last line.
pub open spec fn after_last(s: StatementV) -> Option<int> {
    if s.lines.len() > 0 {
        date::after(s.lines.last().book_date)
    } else {
        None
    }
}

/// 1970-01-01.
pub open spec fn epoch() -> int {
    719163
}

/// The date to assert the closing balance on.
pub open spec fn assert_date(s: StatementV) -> int {
    match (unsettled_from(s), after_last(s)) {
        (Some(end), Some(after)) => if end >= after {
            end
        } else {
            after
        },
        (Some(end), None) => end,
        (None, Some(after)) => after,
        (None, None) => epoch(),
    }
}

/// Does a statement say how far it holds every day in full?
pub open spec fn is_settled(s: StatementV) -> bool {
    match unsettled_from(s) {
        Some(day) => day > date::MIN_DAY,
        None => s.lines.len() > 0,
    }
}

/// The last day a statement holds in full.
pub open spec fn settled_through(s: StatementV) -> int {
    match unsettled_from(s) {
        Some(day) => day - 1,
        None => s.lines.last().book_date,
    }
}

/// What a statement vouches for.
pub open spec fn vouched(
    account: Seq<char>,
    c: Currency,
    start: Option<int>,
    opening: Option<Dec>,
    end: int,
    closing: Dec,
) -> AssertionV {
    AssertionV {
        source: AssertionSource::Statement,
        account,
        currency: c,
        period_start: start,
        opening,
        period_end: end,
        closing,
    }
}

/// What the periods that reach past `after` vouch for: those that begin after
/// it for their opening and closing, the others for their closing.
pub open spec fn period_figures(
    account: Seq<char>,
    c: Currency,
    periods: Seq<PeriodV>,
    after: int,
) -> Seq<AssertionV>
    decreases periods.len(),
{
    if periods.len() == 0 {
        Seq::empty()
    } else {
        let before = period_figures(account, c, periods.drop_last(), after);
        let p = periods.last();
        if p.end <= after {
            before
        } else if p.start > after {
            before.push(vouched(account, c, Some(p.start), Some(p.opening), p.end, p.closing))
        } else {
            before.push(vouched(account, c, None, None, p.end, p.closing))
        }
    }
}

/// The balance at the end of `end`: what the line after it starts from, or the
/// last line's.
pub open spec fn balance_at(lines: Seq<LineV>, end: int) -> Dec {
    let n = first_after(lines, end);
    if n < lines.len() {
        balance_before(lines[n])->0
    } else {
        lines.last().balance
    }
}

/// What the lines of a download, settled through `end`, vouch for after the
/// day `after`.
pub open spec fn download_figure(
    account: Seq<char>,
    c: Currency,
    lines: Seq<LineV>,
    end: int,
    after: int,
) -> Option<AssertionV> {
    let from = first_after(lines, after);
    if from < lines.len() {
        let first = lines[from];
        let opening = balance_before(first)->0;
        if end >= first.book_date {
            Some(
                vouched(
                    account,
                    c,
                    Some(first.book_date),
                    Some(opening),
                    end,
                    balance_at(lines, end),
                ),
            )
        } else {
            Some(vouched(account, c, None, None, first.book_date - 1, opening))
        }
    } else {
        None
    }
}

/// Are the balances that a download's figure is read off, before the first line
/// after `after` and before the first line after `end`, within what a decimal
/// can be?
pub open spec fn figure_in_range(lines: Seq<LineV>, end: int, after: int) -> bool {
    let from = first_after(lines, after);
    let n = first_after(lines, end);
    from < lines.len() ==> {
        &&& line_in_range(lines[from])
        &&& n < lines.len() ==> line_in_range(lines[n])
    }
}

/// Can what a download vouches for after the day `after` be read off it?
pub open spec fn has_figure(s: StatementV, after: int) -> bool {
    first_after(s.lines, after) < s.lines.len() ==> {
        &&& is_settled(s)
        &&& figure_in_range(s.lines, settled_through(s), after)
    }
}

/// Is the opening of each period that `date` cuts within what a decimal can be?
pub open spec fn cut_in_range(s: StatementV, date: int) -> bool {
    let n = first_after(s.lines, date - 1);
    forall|i: int|
        0 <= i < s.periods.len() && (#[trigger] s.periods[i]).start < date <= s.periods[i].end && n
            < s.lines.len() && s.lines[n].book_date <= s.periods[i].end ==> line_in_range(s.lines[n])
}

/// The statement's figures for `account` over what it holds after `after`.
pub open spec fn figures(s: StatementV, account: Seq<char>, after: int) -> Seq<AssertionV> {
    if s.periods.len() > 0 {
        period_figures(account, s.currency, s.periods, after)
    } else {
        match download_figure(account, s.currency, s.lines, settled_through(s), after) {
            Some(a) => seq![a],
            None => Seq::empty(),
        }
    }
}

/// A download's one assertion; `None` when no line is after `after`.
pub(crate) fn download_figure_of(
    account: &str,
    currency: Currency,
    lines: &Vec<StatementLine>,
    end: Date,
    after: Date,
) -> (r: Option<BalanceAssertion>)
    requires
        figure_in_range(line_views(lines@), end@, after@),
    ensures
        match r {
            Some(a) => download_figure(account@, currency, line_views(lines@), end@, after@)
                == Some(a@),
            None => download_figure(account@, currency, line_views(lines@), end@, after@) is None,
        },
{
    let ghost views = line_views(lines@);
    let from: usize = position_after(lines, after.number());
    if from >= lines.len() {
        return None;
    }
    let first = &lines[from];
    assert(views[from as int] == first@);
    let opening = first.checked_before().unwrap();
    let n: usize = position_after(lines, end.number());
    let closing = if n < lines.len() {
        assert(views[n as int] == lines@[n as int]@);
        lines[n].checked_before().unwrap()
    } else {
        assert(views.last() == lines@[n - 1]@);
        lines[n - 1].balance
    };
    let settled = end.number() >= first.book_date.number();
    let last_day = if settled {
        end
    } else {
        let e: i32 = end.number();
        let f: i32 = first.book_date.number();
        first.book_date.pred_opt().unwrap()
    };
    Some(
        BalanceAssertion {
            source: AssertionSource::Statement,
            account: text::copy(account),
            currency,
            period_start: if settled {
                Some(first.book_date)
            } else {
                None
            },
            opening: if settled {
                Some(opening)
            } else {
                None
            },
            period_end: last_day,
            closing: if settled {
                closing
            } else {
                opening
            },
        },
    )
}

impl BankStatement {
    /// Balance before the first line, reconstructed from the oldest row.
    pub fn opening_balance(&self) -> (r: Amount)
        requires
            self@.lines.len() > 0 ==> line_in_range(self@.lines[0]),
        ensures
            opening_balance(self@) == Some(r@),
    {
        if self.lines.len() > 0 {
            assert(self@.lines[0] == self.lines@[0]@);
            self.lines[0].checked_before().unwrap()
        } else if self.periods.len() > 0 {
            assert(self@.periods[0] == self.periods@[0]@);
            self.periods[0].opening
        } else {
            Amount::zero()
        }
    }

    /// Balance before the first line, if it is within range.
    pub(crate) fn checked_opening(&self) -> (r: Option<Amount>)
        ensures
            amount::opt(r) == opening_balance(self@),
    {
        if self.lines.len() > 0 {
            assert(self@.lines[0] == self.lines@[0]@);
            self.lines[0].checked_before()
        } else if self.periods.len() > 0 {
            assert(self@.periods[0] == self.periods@[0]@);
            Some(self.periods[0].opening)
        } else {
            Some(Amount::zero())
        }
    }

    pub fn closing_balance(&self) -> (r: Amount)
        ensures
            r@ == closing_balance(self@),
    {
        if self.periods.len() > 0 {
            let last: usize = self.periods.len() - 1;
            assert(self@.periods.last() == self.periods@[last as int]@);
            self.periods[last].closing
        } else if self.lines.len() > 0 {
            let last: usize = self.lines.len() - 1;
            assert(self@.lines.last() == self.lines@[last as int]@);
            self.lines[last].balance
        } else {
            Amount::zero()
        }
    }

    /// The first day the statement covers.
    pub fn start(&self) -> (r: Date)
        requires
            has_start(self@),
        ensures
            r@ == start(self@),
    {
        if self.periods.len() > 0 {
            assert(self@.periods[0] == self.periods@[0]@);
            self.periods[0].start
        } else {
            assert(self@.lines[0] == self.lines@[0]@);
            self.lines[0].book_date
        }
    }

    /// Whether a line naming this account on `date` has its far side here.
    /// A download says nothing of the days around it, so it is taken to
    /// cover them; an issued statement covers its periods.
    pub fn covers(&self, date: Date) -> (r: bool)
        ensures
            r == covers(self@, date@),
    {
        if self.periods.len() > 0 {
            let last: usize = self.periods.len() - 1;
            assert(self@.periods[0] == self.periods@[0]@);
            assert(self@.periods.last() == self.periods@[last as int]@);
            self.periods[0].start.number() <= date.number() && date.number()
                <= self.periods[last].end.number()
        } else {
            true
        }
    }

    /// The day an opening transaction is dated: before the first stated
    /// period, else before the first line.
    pub fn opening_date(&self) -> (r: Date)
        requires
            has_start(self@),
            start(self@) > date::MIN_DAY,
        ensures
            r@ == start(self@) - 1,
    {
        self.start().pred_opt().unwrap()
    }

    /// The `external_ref` of an account's opening, so a second one is a
    /// duplicate.
    pub fn opening_ref(&self, account: &str) -> (r: String)
        ensures
            r@ == opening_ref(self@.bank, account@, self@.currency),
    {
        let mut out = text::copy(self.bank.ref_prefix());
        out.append("opening:");
        out.append(account);
        out.append(":");
        out.append(self.currency.text().as_str());
        out
    }

    pub fn names_account(&self, s: &str, account_no: &str) -> (r: bool)
        ensures
            r == names(self@.bank, s@, account_no@),
    {
        self.bank.names_account(s, account_no)
    }

    /// Dedup key per line, shared by the freeze bake and importers.
    ///
    /// Not the line index: statements get re-split per year, which shifts
    /// indices. Same-day out-and-back sequences (−X, +X, −X) repeat the running
    /// balance, so repeats of an identical key get `:2`, `:3`. The suffix is
    /// counted from the first line of the day this statement holds, so a
    /// statement starting mid-day numbers them differently; the importer's
    /// balance-chain check is what catches that.
    pub fn dedup_refs(&self) -> (r: Vec<String>)
        requires
            deltas_in_range(self@.lines),
        ensures
            text::texts(r@) == refs(prefix(self@.bank), self@.account_no, self@.lines),
            has_deltas(self@.lines),
    {
        line_refs(self.bank.ref_prefix(), self.account_no.as_str(), &self.lines).unwrap()
    }

    /// Debits the bank itself undid, as `(debit, reversal)` line indices.
    ///
    /// Both lines are real and both are kept; they are paired so neither
    /// reaches the matcher, where an app record the same size would otherwise
    /// be spent on a movement that never happened. A reversal with no such
    /// debit is left unpaired and falls through like any other line.
    pub fn reversals(&self) -> (r: Vec<(usize, usize)>)
        ensures
            pair_views(r@) == reversals(self@.bank, self@.lines),
            forall|i: int|
                0 <= i < r@.len() ==> (#[trigger] r@[i]).0 < r@[i].1 && r@[i].1 < self@.lines.len(),
    {
        reversed_lines(self.bank, &self.lines)
    }

    /// Drops lines before `date` (their balance becomes the opening, and a
    /// period they fall in starts at `date`); returns how many.
    pub fn trim_before(&mut self, date: Date) -> (r: usize)
        requires
            cut_in_range(old(self)@, date@),
        ensures
            final(self)@ == cut(old(self)@, date@),
            r == first_after(old(self)@.lines, date@ - 1),
    {
        let ghost before = *self;
        let day: i32 = date.number();
        let n: usize = position_after(&self.lines, day - 1);
        let kept = self.lines.split_off(n);
        self.lines = kept;
        assert(self@.lines =~= before@.lines.skip(n as int));
        if self.lines.len() > 0 {
            assert(self@.lines[0] == self.lines@[0]@);
            assert(self@.lines[0] == before@.lines[n as int]);
        }
        let mut periods: Vec<Period> = Vec::new();
        let mut i: usize = 0;
        while i < self.periods.len()
            invariant
                i <= self.periods@.len(),
                self.periods == before.periods,
                self.bank == before.bank,
                self.account_no == before.account_no,
                self.account_kind == before.account_kind,
                self.currency == before.currency,
                self.period_end == before.period_end,
                self@.lines == before@.lines.skip(n as int),
                cut_in_range(before@, date@),
                n == first_after(before@.lines, date@ - 1),
                self.lines@.len() > 0 ==> self@.lines[0] == before@.lines[n as int] && n
                    < before@.lines.len() && self@.lines[0] == self.lines@[0]@,
                day == date@,
                period_views(periods@) == periods_from(
                    period_views(self.periods@).take(i as int),
                    self@.lines,
                    date@,
                ),
            decreases self.periods@.len() - i,
        {
            let ghost done = periods@;
            let p = self.periods[i];
            assert(period_views(self.periods@).take(i as int + 1).drop_last() =~= period_views(
                self.periods@,
            ).take(i as int));
            if p.end.number() >= day {
                if p.start.number() < day {
                    let opening = if self.lines.len() > 0 && self.lines[0].book_date.number()
                        <= p.end.number() {
                        assert(before@.periods[i as int] == p@);
                        self.lines[0].checked_before().unwrap()
                    } else {
                        p.closing
                    };
                    periods.push(Period { start: date, end: p.end, opening, closing: p.closing });
                } else {
                    periods.push(p);
                }
                assert(period_views(periods@) =~= period_views(done).push(periods@.last()@));
            }
            i = i + 1;
        }
        assert(period_views(self.periods@).take(i as int) =~= period_views(self.periods@));
        self.periods = periods;
        n
    }

    /// The first day this statement may not hold in full.
    fn unsettled_from(&self) -> (r: Option<Date>)
        ensures
            date::opt(r) == unsettled_from(self@),
    {
        match self.bank {
            Bank::Cathay => self.period_end,
            Bank::LineBank => match self.period_end {
                Some(end) => end.succ_opt(),
                None => None,
            },
        }
    }

    /// Date to assert the closing balance on. Beancount asserts at the start of
    /// the day, so this must fall after the final transaction.
    pub fn assert_date(&self) -> (r: Date)
        ensures
            r@ == assert_date(self@),
    {
        let after_last = if self.lines.len() > 0 {
            let last: usize = self.lines.len() - 1;
            assert(self@.lines.last() == self.lines@[last as int]@);
            self.lines[last].book_date.succ_opt()
        } else {
            None
        };
        match (self.unsettled_from(), after_last) {
            (Some(end), Some(after)) => if end.number() >= after.number() {
                end
            } else {
                after
            },
            (Some(end), None) => end,
            (None, Some(after)) => after,
            (None, None) => Date::from_number(719163).unwrap(),
        }
    }

    /// The last day this statement holds in full. A Cathay TWD download may
    /// have been made partway through the end of its stated range, so the day
    /// before. A 外幣 download states no range; its last line's balance is
    /// taken as current, so a second download made later that same day is
    /// refused as contradicting it.
    pub fn settled_through(&self) -> (r: Date)
        requires
            is_settled(self@),
        ensures
            r@ == settled_through(self@),
    {
        match self.unsettled_from() {
            Some(from) => from.pred_opt().unwrap(),
            None => {
                let last: usize = self.lines.len() - 1;
                assert(self@.lines.last() == self.lines@[last as int]@);
                self.lines[last].book_date
            },
        }
    }

    /// Does the statement say how far it holds every day in full?
    pub fn is_settled(&self) -> (r: bool)
        ensures
            r == is_settled(self@),
    {
        match self.unsettled_from() {
            Some(from) => from.number() > date::MIN_DAY,
            None => self.lines.len() > 0,
        }
    }

    /// Does the statement have a first day, and one before it?
    pub fn has_day_before(&self) -> (r: bool)
        ensures
            r == (has_start(self@) && start(self@) > date::MIN_DAY),
    {
        if self.periods.len() == 0 && self.lines.len() == 0 {
            return false;
        }
        self.start().number() > date::MIN_DAY
    }

    /// Are the balances before the lines within what a decimal can be?
    pub fn lines_in_range(&self) -> (r: bool)
        ensures
            r == lines_in_range(self@.lines),
    {
        let mut i: usize = 0;
        while i < self.lines.len()
            invariant
                i <= self.lines@.len(),
                self@.lines == line_views(self.lines@),
                forall|k: int| 0 <= k < i ==> line_in_range(#[trigger] self@.lines[k]),
            decreases self.lines@.len() - i,
        {
            let l = &self.lines[i];
            assert(self@.lines[i as int] == l@);
            if !bounds::difference_in_range(&l.deposit, &l.withdrawal)
                || !bounds::remainder_in_range(&l.balance, &l.deposit, &l.withdrawal) {
                return false;
            }
            i = i + 1;
        }
        true
    }

    /// The statement's figures for `account`, over what it holds after
    /// `after` (earlier lines are in the account's opening). An issued
    /// statement vouches for each of its periods; one that began on or before
    /// `after` only for its closing.
    pub fn assertions(&self, account: &str, after: Date) -> (r: Vec<BalanceAssertion>)
        requires
            self@.periods.len() == 0 ==> has_figure(self@, after@),
        ensures
            assertion::views(r@) == figures(self@, account@, after@),
    {
        let mut out: Vec<BalanceAssertion> = Vec::new();
        if self.periods.len() == 0 {
            if let Some(a) = self.download_assertion(account, after) {
                out.push(a);
                assert(assertion::views(out@) =~= seq![a@]);
            } else {
                assert(assertion::views(out@) =~= Seq::empty());
            }
            return out;
        }
        let ghost all = self@.periods;
        assert(assertion::views(out@) =~= Seq::empty());
        let mut i: usize = 0;
        while i < self.periods.len()
            invariant
                i <= self.periods@.len(),
                all == self@.periods,
                assertion::views(out@) == period_figures(
                    account@,
                    self@.currency,
                    all.take(i as int),
                    after@,
                ),
            decreases self.periods@.len() - i,
        {
            let ghost done = out@;
            let p = self.periods[i];
            assert(all[i as int] == p@);
            assert(all.take(i as int + 1).drop_last() =~= all.take(i as int));
            if p.end.number() > after.number() {
                let whole = p.start.number() > after.number();
                out.push(
                    BalanceAssertion {
                        source: AssertionSource::Statement,
                        account: text::copy(account),
                        currency: self.currency,
                        period_start: if whole {
                            Some(p.start)
                        } else {
                            None
                        },
                        opening: if whole {
                            Some(p.opening)
                        } else {
                            None
                        },
                        period_end: p.end,
                        closing: p.closing,
                    },
                );
                assert(assertion::views(out@) =~= assertion::views(done).push(out@.last()@));
            }
            i = i + 1;
        }
        assert(all.take(i as int) =~= all);
        out
    }

    /// A download's one assertion, closing on [`Self::settled_through`].
    /// `None` when no line is after `after`. Asserting a day the download may
    /// not hold in full would refuse the next one that does.
    pub fn download_assertion(&self, account: &str, after: Date) -> (r: Option<BalanceAssertion>)
        requires
            has_figure(self@, after@),
        ensures
            match r {
                Some(a) => download_figure(
                    account@,
                    self@.currency,
                    self@.lines,
                    settled_through(self@),
                    after@,
                ) == Some(a@),
                None => download_figure(
                    account@,
                    self@.currency,
                    self@.lines,
                    settled_through(self@),
                    after@,
                ) is None,
            },
    {
        if position_after(&self.lines, after.number()) >= self.lines.len() {
            return None;
        }
        download_figure_of(account, self.currency, &self.lines, self.settled_through(), after)
    }
}

/// One account's statements in one currency, joined.
#[derive(Debug)]
pub struct Merged {
    pub statement: BankStatement,
    /// The files, by name.
    pub paths: Vec<String>,
    /// How many of `statement.lines` each of `paths` contributed, in order.
    pub spans: Vec<usize>,
}

/// What joined statements are.
#[verifier::ext_equal]
pub struct MergedV {
    pub statement: StatementV,
    pub paths: Seq<Seq<char>>,
    pub spans: Seq<int>,
}

pub open spec fn span_views(v: Seq<usize>) -> Seq<int> {
    v.map_values(|n: usize| n as int)
}

impl View for Merged {
    type V = MergedV;

    open spec fn view(&self) -> MergedV {
        MergedV {
            statement: self.statement@,
            paths: text::texts(self.paths@),
            spans: span_views(self.spans@),
        }
    }
}

pub open spec fn merged_views(v: Seq<Merged>) -> Seq<MergedV> {
    v.map_values(|m: Merged| m@)
}

} // verus!
