//! The outside figures the check holds the ledger to, as the database holds
//! them.

use vstd::prelude::*;

use crate::amount;
use crate::amount::{Amount, Dec};
use crate::assertion;
use crate::assertion::{AssertionSource, AssertionV, BalanceAssertion};
use crate::currency;
use crate::currency::Currency;
use crate::date;
use crate::date::Date;
use crate::refusal::Refusal;
use crate::text;

use super::broker;
use super::review;

verus! {

/// A row of `balance_assertion`, as the database holds it.
pub struct Row {
    pub source: String,
    pub account: String,
    pub currency: String,
    pub period_start: Option<String>,
    pub opening: Option<String>,
    pub period_end: String,
    pub closing: String,
}

pub struct RowV {
    pub source: Seq<char>,
    pub account: Seq<char>,
    pub currency: Seq<char>,
    pub period_start: Option<Seq<char>>,
    pub opening: Option<Seq<char>>,
    pub period_end: Seq<char>,
    pub closing: Seq<char>,
}

impl View for Row {
    type V = RowV;

    open spec fn view(&self) -> RowV {
        RowV {
            source: self.source@,
            account: self.account@,
            currency: self.currency@,
            period_start: text::opt(self.period_start),
            opening: text::opt(self.opening),
            period_end: self.period_end@,
            closing: self.closing@,
        }
    }
}

/// An optional amount's text: absent, an amount, or unreadable.
pub open spec fn amount_in(s: Option<Seq<char>>) -> Option<Option<Dec>> {
    match s {
        None => Some(None),
        Some(s) => match amount::spelled(s) {
            Some(a) => Some(Some(a)),
            None => None,
        },
    }
}

/// The assertion a row holds.
pub open spec fn assertion_in(r: RowV) -> Result<AssertionV, Seq<char>> {
    match (
        assertion::source_of(r.source),
        currency::of_code(r.currency),
        broker::day_in(r.period_start),
        amount_in(r.opening),
        date::read(r.period_end),
        amount::spelled(r.closing),
    ) {
        (
            Some(source),
            Some(c),
            Some(period_start),
            Some(opening),
            Some(period_end),
            Some(closing),
        ) => Ok(
            AssertionV {
                source,
                account: r.account,
                currency: c,
                period_start,
                opening,
                period_end,
                closing,
            },
        ),
        _ => Err("invalid balance_assertion row for "@ + r.account),
    }
}

/// Are the assertion's days and amounts days and decimals?
pub open spec fn is_storable(a: AssertionV) -> bool {
    &&& a.period_start matches Some(d) ==> date::MIN_DAY <= d <= date::MAX_DAY
    &&& a.opening matches Some(x) ==> amount::valid(x)
    &&& date::MIN_DAY <= a.period_end <= date::MAX_DAY
    &&& amount::valid(a.closing)
}

impl Row {
    /// The assertion the row holds. What an assertion is stored as reads back
    /// as the same figures.
    pub fn read(&self) -> (r: Result<BalanceAssertion, Refusal>)
        ensures
            match r {
                Ok(a) => assertion_in(self@) == Ok::<AssertionV, Seq<char>>(a@),
                Err(e) => assertion_in(self@) == Err::<AssertionV, Seq<char>>(e@),
            },
            forall|a: AssertionV|
                is_storable(a) && self@ == #[trigger] stored(a) ==> (r matches Ok(v)
                    && review::same_assertion(v@, a)),
    {
        let period_start: Option<Option<Date>> = match &self.period_start {
            None => Some(None),
            Some(s) => match Date::from_iso(s.as_str()) {
                Some(d) => Some(Some(d)),
                None => None,
            },
        };
        let opening: Option<Option<Amount>> = match &self.opening {
            None => Some(None),
            Some(s) => match Amount::parse(s.as_str()) {
                Some(a) => Some(Some(a)),
                None => None,
            },
        };
        let source = AssertionSource::parse(self.source.as_str());
        let currency = Currency::parse(self.currency.as_str());
        let period_end = Date::from_iso(self.period_end.as_str());
        let closing = Amount::parse(self.closing.as_str());
        proof {
            assert forall|a: AssertionV|
                is_storable(a) && self@ == #[trigger] stored(a) implies assertion_in(self@) is Ok
                && review::same_assertion(assertion_in(self@)->Ok_0, a) by {
                assertion::source_reads_back(a.source);
                currency::code_reads_back(a.currency);
                date::has_civil(a.period_end);
                assert(self@.period_end == date::printed(a.period_end));
                assert(self@.closing == amount::printed(a.closing));
                amount::reread_worth(a.closing);
                if let Some(d) = a.period_start {
                    date::has_civil(d);
                    assert(self@.period_start == Some(date::printed(d)));
                }
                if let Some(x) = a.opening {
                    assert(self@.opening == Some(amount::printed(x)));
                    amount::reread_worth(x);
                }
            }
        }
        match (source, currency, period_start, opening, period_end, closing) {
            (
                Some(source),
                Some(currency),
                Some(period_start),
                Some(opening),
                Some(period_end),
                Some(closing),
            ) => Ok(
                BalanceAssertion {
                    source,
                    account: text::copy(self.account.as_str()),
                    currency,
                    period_start,
                    opening,
                    period_end,
                    closing,
                },
            ),
            _ => {
                let mut out = text::copy("invalid balance_assertion row for ");
                out.append(self.account.as_str());
                Err(Refusal { message: out })
            },
        }
    }
}

/// The text columns an assertion is stored as: currency, source, start and
/// opening of the period, its end, and the closing.
pub fn columns(a: &BalanceAssertion) -> (r: Row)
    ensures
        r@ == stored(a@),
{
    Row {
        source: a.source.text(),
        account: text::copy(a.account.as_str()),
        currency: a.currency.text(),
        period_start: match a.period_start {
            Some(d) => Some(d.text()),
            None => None,
        },
        opening: match a.opening {
            Some(x) => Some(x.text()),
            None => None,
        },
        period_end: a.period_end.text(),
        closing: a.closing.text(),
    }
}

/// The row an assertion is stored as.
pub open spec fn stored(a: AssertionV) -> RowV {
    RowV {
        source: assertion::source_text(a.source),
        account: a.account,
        currency: currency::code(a.currency),
        period_start: match a.period_start {
            Some(d) => Some(date::printed(d)),
            None => None,
        },
        opening: match a.opening {
            Some(x) => Some(amount::printed(x)),
            None => None,
        },
        period_end: date::printed(a.period_end),
        closing: amount::printed(a.closing),
    }
}

/// Does an assertion state both ends of its opening, or neither?
pub open spec fn is_whole(a: AssertionV) -> bool {
    (a.period_start is Some) == (a.opening is Some)
}

/// An assertion with only half an opening is refused before it is stored.
pub fn acceptable(a: &BalanceAssertion) -> (r: Result<(), Refusal>)
    ensures
        match r {
            Ok(()) => is_whole(a@),
            Err(e) => !is_whole(a@) && e@ == "assertion on "@ + a@.account
                + " has only one of period_start and opening"@,
        },
{
    if a.period_start.is_some() != a.opening.is_some() {
        let mut out = text::copy("assertion on ");
        out.append(a.account.as_str());
        out.append(" has only one of period_start and opening");
        Err(Refusal { message: out })
    } else {
        Ok(())
    }
}

/// The name of a source, as a programmer reads it.
pub open spec fn source_name(s: AssertionSource) -> Seq<char> {
    match s {
        AssertionSource::Statement => "Statement"@,
        AssertionSource::Tiantian => "Tiantian"@,
        AssertionSource::Counted => "Counted"@,
    }
}

pub open spec fn optional(s: Option<Seq<char>>) -> Seq<char> {
    match s {
        Some(s) => "Some("@ + s + ")"@,
        None => "None"@,
    }
}

/// Every field of an assertion.
pub open spec fn spelled_out(a: AssertionV) -> Seq<char> {
    let r = stored(a);
    "BalanceAssertion { source: "@ + source_name(a.source) + ", account: "@ + text::debug_text(
        a.account,
    ) + ", currency: "@ + r.currency + ", period_start: "@ + optional(r.period_start)
        + ", opening: "@ + optional(r.opening) + ", period_end: "@ + r.period_end + ", closing: "@
        + r.closing + " }"@
}

fn optional_text(s: &Option<String>) -> (r: String)
    ensures
        r@ == optional(text::opt(*s)),
{
    match s {
        Some(s) => {
            let mut out = text::copy("Some(");
            out.append(s.as_str());
            out.append(")");
            out
        },
        None => text::copy("None"),
    }
}

fn spell_out(a: &BalanceAssertion) -> (r: String)
    ensures
        r@ == spelled_out(a@),
{
    let row = columns(a);
    let mut out = text::copy("BalanceAssertion { source: ");
    out.append(
        match a.source {
            AssertionSource::Statement => "Statement",
            AssertionSource::Tiantian => "Tiantian",
            AssertionSource::Counted => "Counted",
        },
    );
    out.append(", account: ");
    out.append(text::quoted(a.account.as_str()).as_str());
    out.append(", currency: ");
    out.append(row.currency.as_str());
    out.append(", period_start: ");
    out.append(optional_text(&row.period_start).as_str());
    out.append(", opening: ");
    out.append(optional_text(&row.opening).as_str());
    out.append(", period_end: ");
    out.append(row.period_end.as_str());
    out.append(", closing: ");
    out.append(row.closing.as_str());
    out.append(" }");
    assert(out@ =~= spelled_out(a@));
    out
}

/// Whether an assertion agrees with the one recorded for its account,
/// currency, source and closing day. The same figures are the same claim, but
/// a different figure is an error, since two statements cannot both be right.
pub fn agrees(a: &BalanceAssertion, recorded: &BalanceAssertion) -> (r: Result<(), Refusal>)
    ensures
        match r {
            Ok(()) => review::same_assertion(recorded@, a@),
            Err(e) => !review::same_assertion(recorded@, a@) && e@ == "assertion "@ + spelled_out(
                a@,
            ) + " conflicts with the recorded "@ + spelled_out(recorded@),
        },
{
    if review::is_same_assertion(recorded, a) {
        Ok(())
    } else {
        let mut out = text::copy("assertion ");
        out.append(spell_out(a).as_str());
        out.append(" conflicts with the recorded ");
        out.append(spell_out(recorded).as_str());
        Err(Refusal { message: out })
    }
}

/// Are the two for one account, currency, source and closing day?
pub open spec fn one_key(a: AssertionV, b: AssertionV) -> bool {
    a.account == b.account && a.currency == b.currency && a.source == b.source && a.period_end
        == b.period_end
}

/// Where the assertion for the same key stands, from `from` on.
pub open spec fn held_at(recorded: Seq<AssertionV>, a: AssertionV, from: int) -> Option<int>
    decreases recorded.len() - from,
{
    if from < 0 || from >= recorded.len() {
        None
    } else if one_key(recorded[from], a) {
        Some(from)
    } else {
        held_at(recorded, a, from + 1)
    }
}

/// What is on record once an assertion is recorded: the assertion too, or what
/// was there where it holds the same figures for that key. A different figure
/// is refused, and so is half an opening.
pub open spec fn inserted(recorded: Seq<AssertionV>, a: AssertionV) -> Result<
    Seq<AssertionV>,
    Seq<char>,
> {
    if !is_whole(a) {
        Err("assertion on "@ + a.account + " has only one of period_start and opening"@)
    } else {
        match held_at(recorded, a, 0) {
            None => Ok(recorded.push(a)),
            Some(i) => if review::same_assertion(recorded[i], a) {
                Ok(recorded)
            } else {
                Err(
                    "assertion "@ + spelled_out(a) + " conflicts with the recorded "@ + spelled_out(
                        recorded[i],
                    ),
                )
            },
        }
    }
}

/// Decides what recording an assertion does: `true` where it is to be stored,
/// `false` where the same figures already are.
pub fn insert(recorded: &Vec<BalanceAssertion>, a: &BalanceAssertion) -> (r: Result<bool, Refusal>)
    ensures
        match r {
            Ok(new) => inserted(assertion::views(recorded@), a@) == Ok::<
                Seq<AssertionV>,
                Seq<char>,
            >(
                if new {
                    assertion::views(recorded@).push(a@)
                } else {
                    assertion::views(recorded@)
                },
            ) && new == (held_at(assertion::views(recorded@), a@, 0) is None),
            Err(e) => inserted(assertion::views(recorded@), a@) == Err::<
                Seq<AssertionV>,
                Seq<char>,
            >(e@),
        },
{
    let ghost all = assertion::views(recorded@);
    acceptable(a)?;
    let mut i: usize = 0;
    while i < recorded.len()
        invariant
            i <= recorded@.len(),
            all == assertion::views(recorded@),
            is_whole(a@),
            held_at(all, a@, 0) == held_at(all, a@, i as int),
        decreases recorded@.len() - i,
    {
        let r = &recorded[i];
        assert(all[i as int] == r@);
        if text::same_text(r.account.as_str(), a.account.as_str()) && r.currency == a.currency
            && r.source == a.source && r.period_end.number() == a.period_end.number() {
            agrees(a, r)?;
            return Ok(false);
        }
        i = i + 1;
    }
    Ok(true)
}

/// Is there one assertion at most for each key?
pub open spec fn keys_apart(recorded: Seq<AssertionV>) -> bool {
    forall|i: int, j: int|
        0 <= i < j < recorded.len() ==> !one_key(#[trigger] recorded[i], #[trigger] recorded[j])
}

proof fn held_is_there(recorded: Seq<AssertionV>, a: AssertionV, from: int)
    requires
        0 <= from,
    ensures
        match held_at(recorded, a, from) {
            Some(i) => from <= i < recorded.len() && one_key(recorded[i], a),
            None => forall|i: int|
                from <= i < recorded.len() ==> !one_key(#[trigger] recorded[i], a),
        },
    decreases recorded.len() - from,
{
    if from < recorded.len() && !one_key(recorded[from], a) {
        held_is_there(recorded, a, from + 1);
    }
}

/// A figure is recorded once. After `a` is, a figure `b` for the same account,
/// currency, source and closing day is accepted exactly where its start,
/// opening and closing are those of `a`, and then nothing changes: there is one
/// assertion for that key, with the figures of `a`.
pub proof fn a_figure_is_recorded_once(
    recorded: Seq<AssertionV>,
    a: AssertionV,
    b: AssertionV,
) -> (i: int)
    requires
        keys_apart(recorded),
        inserted(recorded, a) is Ok,
        one_key(a, b),
    ensures
        ({
            let after = inserted(recorded, a)->Ok_0;
            &&& keys_apart(after)
            &&& 0 <= i < after.len()
            &&& forall|k: int|
                0 <= k < after.len() ==> (one_key(#[trigger] after[k], a) <==> k == i)
            &&& review::same_assertion(after[i], a)
            &&& inserted(after, b) is Ok <==> review::same_assertion(a, b)
            &&& inserted(after, b) is Ok ==> inserted(after, b) == Ok::<
                Seq<AssertionV>,
                Seq<char>,
            >(after)
        }),
{
    let after = inserted(recorded, a)->Ok_0;
    held_is_there(recorded, a, 0);
    let i = match held_at(recorded, a, 0) {
        Some(i) => i,
        None => recorded.len() as int,
    };
    assert forall|p: int, q: int| 0 <= p < q < after.len() implies !one_key(
        #[trigger] after[p],
        #[trigger] after[q],
    ) by {
        if q < recorded.len() {
            assert(!one_key(recorded[p], recorded[q]));
        } else {
            assert(!one_key(recorded[p], a));
        }
    }
    assert forall|k: int| 0 <= k < after.len() implies (one_key(#[trigger] after[k], a) <==> k
        == i) by {
        if k < i {
            assert(!one_key(after[k], after[i]));
        } else if k > i {
            assert(!one_key(after[i], after[k]));
        }
    }
    held_is_there(after, b, 0);
    assert(one_key(after[i], b));
    let at = held_at(after, b, 0)->0;
    assert(one_key(after[at], a));
    i
}

/// Whether an assertion can be marked no longer true: only a 天天記帳 closing,
/// when a person changed the records it summed.
pub fn supersede(a: &BalanceAssertion) -> (r: Result<(), Refusal>)
    ensures
        match r {
            Ok(()) => a@.source == AssertionSource::Tiantian,
            Err(e) => a@.source != AssertionSource::Tiantian && e@
                == "only a 天天記帳 closing can be superseded, not "@ + assertion::named(a@),
        },
{
    if a.source != AssertionSource::Tiantian {
        let mut out = text::copy("only a 天天記帳 closing can be superseded, not ");
        out.append(a.text().as_str());
        Err(Refusal { message: out })
    } else {
        Ok(())
    }
}

} // verus!
