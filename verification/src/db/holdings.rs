//! What a broker statement says an account held — cash per currency, shares
//! per security — held to the broker records, as a balance assertion is held
//! to the postings.

use vstd::prelude::*;

use crate::amount;
use crate::amount::{Amount, Dec};
use crate::assertion;
use crate::assertion::AssertionSource;
use crate::currency;
use crate::currency::Currency;
use crate::date;
use crate::date::Date;
use crate::refusal::Refusal;
use crate::text;

verus! {

/// What an account holds: cash in a currency, or shares of a security.
#[derive(Clone, Debug, PartialEq, Eq)]
pub enum Commodity {
    Cash(Currency),
    Security(String),
}

pub enum CommodityV {
    Cash(Currency),
    Security(Seq<char>),
}

impl View for Commodity {
    type V = CommodityV;

    open spec fn view(&self) -> CommodityV {
        match self {
            Commodity::Cash(c) => CommodityV::Cash(*c),
            Commodity::Security(s) => CommodityV::Security(s@),
        }
    }
}

/// How a commodity is written.
pub open spec fn commodity_text(c: CommodityV) -> Seq<char> {
    match c {
        CommodityV::Cash(c) => currency::code(c),
        CommodityV::Security(s) => s,
    }
}

/// The word for what kind of thing a commodity is.
pub open spec fn kind_of(c: CommodityV) -> Seq<char> {
    match c {
        CommodityV::Cash(_) => "cash"@,
        CommodityV::Security(_) => "position"@,
    }
}

/// The commodity of a kind and a text.
pub open spec fn commodity_of(kind: Seq<char>, s: Seq<char>) -> Option<CommodityV> {
    if kind == "cash"@ {
        match currency::of_code(s) {
            Some(c) => Some(CommodityV::Cash(c)),
            None => None,
        }
    } else if kind == "position"@ {
        Some(CommodityV::Security(s))
    } else {
        None
    }
}

impl Commodity {
    pub fn text(&self) -> (r: String)
        ensures
            r@ == commodity_text(self@),
    {
        match self {
            Commodity::Cash(c) => c.text(),
            Commodity::Security(s) => text::copy(s.as_str()),
        }
    }

    /// The word for what kind of thing the commodity is.
    pub fn kind(&self) -> (r: &'static str)
        ensures
            r@ == kind_of(self@),
    {
        match self {
            Commodity::Cash(_) => "cash",
            Commodity::Security(_) => "position",
        }
    }

    /// The commodity of a kind and a text.
    pub fn parse(kind: &str, s: &str) -> (r: Option<Commodity>)
        ensures
            match r {
                Some(c) => commodity_of(kind@, s@) == Some(c@),
                None => commodity_of(kind@, s@) is None,
            },
    {
        if text::same_text(kind, "cash") {
            match Currency::parse(s) {
                Some(c) => Some(Commodity::Cash(c)),
                None => None,
            }
        } else if text::same_text(kind, "position") {
            Some(Commodity::Security(text::copy(s)))
        } else {
            None
        }
    }

    pub fn same(&self, other: &Commodity) -> (r: bool)
        ensures
            r == (self@ == other@),
    {
        match (self, other) {
            (Commodity::Cash(a), Commodity::Cash(b)) => a == b,
            (Commodity::Security(a), Commodity::Security(b)) => text::same_text(
                a.as_str(),
                b.as_str(),
            ),
            _ => false,
        }
    }

    pub fn copy(&self) -> (r: Commodity)
        ensures
            r@ == self@,
    {
        match self {
            Commodity::Cash(c) => Commodity::Cash(*c),
            Commodity::Security(s) => Commodity::Security(text::copy(s.as_str())),
        }
    }
}

/// A commodity is read back from its kind and its text.
pub proof fn commodity_reads_back(c: CommodityV)
    ensures
        commodity_of(kind_of(c), commodity_text(c)) == Some(c),
{
    reveal_strlit("cash");
    reveal_strlit("position");
    assert("cash"@[0] == 'c' && "position"@[0] == 'p');
    if let CommodityV::Cash(k) = c {
        currency::code_reads_back(k);
    }
}

/// One figure of a statement.
#[derive(Clone, Debug, PartialEq)]
pub struct HoldingAssertion {
    pub source: AssertionSource,
    pub account: String,
    pub as_of: Date,
    pub commodity: Commodity,
    pub quantity: Amount,
}

#[verifier::ext_equal]
pub struct HoldingV {
    pub source: AssertionSource,
    pub account: Seq<char>,
    pub as_of: int,
    pub commodity: CommodityV,
    pub quantity: Dec,
}

impl View for HoldingAssertion {
    type V = HoldingV;

    open spec fn view(&self) -> HoldingV {
        HoldingV {
            source: self.source,
            account: self.account@,
            as_of: self.as_of@,
            commodity: self.commodity@,
            quantity: self.quantity@,
        }
    }
}

pub open spec fn views(v: Seq<HoldingAssertion>) -> Seq<HoldingV> {
    v.map_values(|h: HoldingAssertion| h@)
}

/// How a figure is named in a message.
pub open spec fn named(h: HoldingV) -> Seq<char> {
    h.account + " "@ + commodity_text(h.commodity) + " ("@ + assertion::source_text(h.source)
        + " as of "@ + date::printed(h.as_of) + ")"@
}

impl HoldingAssertion {
    /// How the figure is named in a message.
    pub fn text(&self) -> (r: String)
        ensures
            r@ == named(self@),
    {
        let mut out = text::copy(self.account.as_str());
        out.append(" ");
        out.append(self.commodity.text().as_str());
        out.append(" (");
        out.append(self.source.text().as_str());
        out.append(" as of ");
        out.append(self.as_of.text().as_str());
        out.append(")");
        assert(out@ =~= named(self@));
        out
    }

    pub fn copy(&self) -> (r: HoldingAssertion)
        ensures
            r@ == self@,
    {
        HoldingAssertion {
            source: self.source,
            account: text::copy(self.account.as_str()),
            as_of: self.as_of,
            commodity: self.commodity.copy(),
            quantity: self.quantity,
        }
    }
}

/// A row of `holding_assertion`, as the database holds it.
pub struct Row {
    pub source: String,
    pub account: String,
    pub as_of: String,
    pub kind: String,
    pub commodity: String,
    pub quantity: String,
}

pub struct RowV {
    pub source: Seq<char>,
    pub account: Seq<char>,
    pub as_of: Seq<char>,
    pub kind: Seq<char>,
    pub commodity: Seq<char>,
    pub quantity: Seq<char>,
}

impl View for Row {
    type V = RowV;

    open spec fn view(&self) -> RowV {
        RowV {
            source: self.source@,
            account: self.account@,
            as_of: self.as_of@,
            kind: self.kind@,
            commodity: self.commodity@,
            quantity: self.quantity@,
        }
    }
}

/// What a row that cannot be read is refused with.
pub open spec fn unreadable(account: Seq<char>) -> Seq<char> {
    "invalid holding_assertion row for "@ + account
}

/// The figure a row holds.
pub open spec fn holding_in(r: RowV) -> Result<HoldingV, Seq<char>> {
    match (
        commodity_of(r.kind, r.commodity),
        assertion::source_of(r.source),
        date::read(r.as_of),
        amount::spelled(r.quantity),
    ) {
        (Some(commodity), Some(source), Some(as_of), Some(quantity)) => Ok(
            HoldingV { source, account: r.account, as_of, commodity, quantity },
        ),
        _ => Err(unreadable(r.account)),
    }
}

impl Row {
    /// The figure the row holds.
    pub fn read(&self) -> (r: Result<HoldingAssertion, Refusal>)
        ensures
            match r {
                Ok(h) => holding_in(self@) == Ok::<HoldingV, Seq<char>>(h@),
                Err(e) => holding_in(self@) == Err::<HoldingV, Seq<char>>(e@),
            },
    {
        match (
            Commodity::parse(self.kind.as_str(), self.commodity.as_str()),
            AssertionSource::parse(self.source.as_str()),
            Date::from_iso(self.as_of.as_str()),
            Amount::parse(self.quantity.as_str()),
        ) {
            (Some(commodity), Some(source), Some(as_of), Some(quantity)) => Ok(
                HoldingAssertion {
                    source,
                    account: text::copy(self.account.as_str()),
                    as_of,
                    commodity,
                    quantity,
                },
            ),
            _ => {
                let mut out = text::copy("invalid holding_assertion row for ");
                out.append(self.account.as_str());
                Err(Refusal { message: out })
            },
        }
    }
}

/// What a figure that contradicts the recorded one is refused with.
pub open spec fn contradiction(h: HoldingV, stored: Dec) -> Seq<char> {
    named(h) + " states "@ + amount::printed(h.quantity) + ", but "@ + amount::printed(stored)
        + " was recorded"@
}

/// Whether a figure was new, given what stands recorded after it was inserted
/// and whether that added a row. A different figure for the same account, day
/// and commodity is an error, since two statements cannot both be right.
pub fn recorded(a: &HoldingAssertion, stored: &HoldingAssertion, inserted: bool) -> (r: Result<
    bool,
    Refusal,
>)
    ensures
        match r {
            Ok(new) => amount::equal(stored@.quantity, a@.quantity) && new == inserted,
            Err(e) => !amount::equal(stored@.quantity, a@.quantity) && e@ == contradiction(
                a@,
                stored@.quantity,
            ),
        },
{
    if stored.quantity.equals(&a.quantity) {
        Ok(inserted)
    } else {
        let mut out = a.text();
        out.append(" states ");
        out.append(a.quantity.text().as_str());
        out.append(", but ");
        out.append(stored.quantity.text().as_str());
        out.append(" was recorded");
        assert(out@ =~= contradiction(a@, stored@.quantity));
        Err(Refusal { message: out })
    }
}

/// One row of the `assertion_coverage` view: a figure some outside party
/// vouches for, from either assertion table.
#[derive(Debug, Clone, PartialEq, Eq)]
pub struct Coverage {
    pub account: String,
    pub commodity: String,
    pub as_of: String,
    pub source: String,
    /// `balance` (held to postings), `cash` or `position` (held to broker
    /// records).
    pub kind: String,
}

/// A figure is what its row says.
pub proof fn a_figure_is_what_its_row_says(r: RowV)
    requires
        holding_in(r) is Ok,
    ensures
        ({
            let h = holding_in(r)->Ok_0;
            &&& assertion::source_of(r.source) == Some(h.source)
            &&& h.account == r.account
            &&& date::read(r.as_of) == Some(h.as_of)
            &&& amount::spelled(r.quantity) == Some(h.quantity)
            &&& r.kind == "cash"@ ==> (h.commodity matches CommodityV::Cash(c)
                && currency::of_code(r.commodity) == Some(c))
            &&& r.kind == "position"@ ==> h.commodity == CommodityV::Security(r.commodity)
        }),
{
    reveal_strlit("cash");
    reveal_strlit("position");
    assert("cash"@.len() != "position"@.len());
}

} // verus!
