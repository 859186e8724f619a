//! A balance someone outside the ledger vouches for: a statement's closing,
//! the app's own balance, or a counted one.

use vstd::prelude::*;

use crate::amount;
use crate::amount::{Amount, Dec};
use crate::currency;
use crate::currency::Currency;
use crate::date;
use crate::date::Date;
use crate::text;

verus! {

/// Who vouches for the figure.
#[derive(Clone, Copy, PartialEq, Eq, Structural, PartialOrd, Ord, Debug)]
pub enum AssertionSource {
    /// An institution's statement.
    Statement,
    /// The app's own closing balance, for accounts it was the record of.
    Tiantian,
    /// A balance the user counted (cash).
    Counted,
}

/// How a source is written.
pub open spec fn source_text(s: AssertionSource) -> Seq<char> {
    match s {
        AssertionSource::Statement => "statement"@,
        AssertionSource::Tiantian => "tiantian"@,
        AssertionSource::Counted => "counted"@,
    }
}

/// The source a text names.
pub open spec fn source_of(s: Seq<char>) -> Option<AssertionSource> {
    if s == "statement"@ {
        Some(AssertionSource::Statement)
    } else if s == "tiantian"@ {
        Some(AssertionSource::Tiantian)
    } else if s == "counted"@ {
        Some(AssertionSource::Counted)
    } else {
        None
    }
}

impl AssertionSource {
    pub fn text(&self) -> (r: String)
        ensures
            r@ == source_text(*self),
    {
        text::copy(
            match self {
                AssertionSource::Statement => "statement",
                AssertionSource::Tiantian => "tiantian",
                AssertionSource::Counted => "counted",
            },
        )
    }

    /// The source a text names.
    pub fn parse(s: &str) -> (r: Option<AssertionSource>)
        ensures
            r == source_of(s@),
    {
        if text::same_text(s, "statement") {
            Some(AssertionSource::Statement)
        } else if text::same_text(s, "tiantian") {
            Some(AssertionSource::Tiantian)
        } else if text::same_text(s, "counted") {
            Some(AssertionSource::Counted)
        } else {
            None
        }
    }
}

/// A source's text is read back as the source.
pub proof fn source_reads_back(s: AssertionSource)
    ensures
        source_of(source_text(s)) == Some(s),
{
    reveal_strlit("statement");
    reveal_strlit("tiantian");
    reveal_strlit("counted");
    assert("statement"@[0] == 's' && "tiantian"@[0] == 't' && "counted"@[0] == 'c');
}

/// One assertion. Dates are inclusive: `opening` is the balance before
/// `period_start`, `closing` the balance at the end of `period_end`. Both cover
/// `account` and its subtree in `currency`.
#[derive(Clone, Debug, PartialEq)]
pub struct BalanceAssertion {
    pub source: AssertionSource,
    pub account: String,
    pub currency: Currency,
    pub period_start: Option<Date>,
    pub opening: Option<Amount>,
    pub period_end: Date,
    pub closing: Amount,
}

#[verifier::ext_equal]
pub struct AssertionV {
    pub source: AssertionSource,
    pub account: Seq<char>,
    pub currency: Currency,
    pub period_start: Option<int>,
    pub opening: Option<Dec>,
    pub period_end: int,
    pub closing: Dec,
}

impl View for BalanceAssertion {
    type V = AssertionV;

    open spec fn view(&self) -> AssertionV {
        AssertionV {
            source: self.source,
            account: self.account@,
            currency: self.currency,
            period_start: date::opt(self.period_start),
            opening: amount::opt(self.opening),
            period_end: self.period_end@,
            closing: self.closing@,
        }
    }
}

pub open spec fn views(v: Seq<BalanceAssertion>) -> Seq<AssertionV> {
    v.map_values(|a: BalanceAssertion| a@)
}

/// How an assertion is named in a message.
pub open spec fn named(a: AssertionV) -> Seq<char> {
    a.account + " "@ + currency::code(a.currency) + " ("@ + source_text(a.source) + " "@ + (
    match a.period_start {
        Some(start) => "period "@ + date::printed(start) + "..="@ + date::printed(a.period_end)
            + ")"@,
        None => "as of "@ + date::printed(a.period_end) + ")"@,
    })
}

/// The day and the balance at its end that an assertion's opening states.
pub open spec fn opening_point(a: AssertionV) -> Option<(int, Dec)> {
    match (a.period_start, a.opening) {
        (Some(start), Some(opening)) => Some((start - 1, opening)),
        _ => None,
    }
}

/// The (day, balance at the end of it) pairs `a` states: the opening, if any,
/// then the closing.
pub open spec fn points(a: AssertionV) -> Seq<(int, Dec)> {
    match opening_point(a) {
        Some(p) => seq![p, (a.period_end, a.closing)],
        None => seq![(a.period_end, a.closing)],
    }
}

pub open spec fn point_views(v: Seq<(Date, Amount)>) -> Seq<(int, Dec)> {
    v.map_values(|p: (Date, Amount)| (p.0@, p.1@))
}

/// Does the period an assertion opens have a day before it?
pub open spec fn opens_after_first_day(a: AssertionV) -> bool {
    (a.period_start is Some && a.opening is Some) ==> a.period_start->0 > date::MIN_DAY
}

impl BalanceAssertion {
    /// How the assertion is named in a message.
    pub fn text(&self) -> (r: String)
        ensures
            r@ == named(self@),
    {
        let mut out = text::copy(self.account.as_str());
        out.append(" ");
        out.append(self.currency.text().as_str());
        out.append(" (");
        out.append(self.source.text().as_str());
        out.append(" ");
        let ghost head = out@;
        match self.period_start {
            Some(start) => {
                out.append("period ");
                out.append(start.text().as_str());
                out.append("..=");
                out.append(self.period_end.text().as_str());
                out.append(")");
            },
            None => {
                out.append("as of ");
                out.append(self.period_end.text().as_str());
                out.append(")");
            },
        }
        assert(out@ =~= named(self@));
        out
    }

    /// The (day, balance at the end of it) pairs this states: the opening, if
    /// any, then the closing.
    pub fn points(&self) -> (r: Vec<(Date, Amount)>)
        requires
            opens_after_first_day(self@),
        ensures
            point_views(r@) == points(self@),
    {
        let mut out: Vec<(Date, Amount)> = Vec::new();
        if let (Some(start), Some(opening)) = (self.period_start, self.opening) {
            out.push((start.pred_opt().unwrap(), opening));
        }
        out.push((self.period_end, self.closing));
        assert(point_views(out@) =~= points(self@));
        out
    }

    /// A copy of the assertion.
    pub fn copy(&self) -> (r: BalanceAssertion)
        ensures
            r@ == self@,
    {
        BalanceAssertion {
            source: self.source,
            account: text::copy(self.account.as_str()),
            currency: self.currency,
            period_start: self.period_start,
            opening: self.opening,
            period_end: self.period_end,
            closing: self.closing,
        }
    }
}

} // verus!
