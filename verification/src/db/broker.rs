//! The broker sub-ledger, one record per statement line, deduplicated on its
//! ref.

use vstd::prelude::*;

use crate::amount;
use crate::amount::{Amount, Dec};
use crate::currency;
use crate::currency::Currency;
use crate::date;
use crate::date::Date;
use crate::journal;
use crate::refusal::Refusal;
use crate::text;

use super::holdings::{Commodity, CommodityV};

verus! {

/// One line of a broker's statement.
#[derive(Clone, Debug, PartialEq)]
pub struct BrokerRecord {
    /// The word for what kind of line it is.
    pub kind: String,
    pub trade_date: Option<Date>,
    pub settle_date: Date,
    /// When the trade was executed, as RFC 3339 writes a moment.
    pub executed_at: Option<String>,
    pub symbol: Option<String>,
    pub quantity: Amount,
    pub price: Amount,
    pub amount: Amount,
    pub commission: Amount,
    pub currency: Currency,
    pub description: String,
    pub key: String,
}

#[verifier::ext_equal]
pub struct RecordV {
    pub kind: Seq<char>,
    pub trade_date: Option<int>,
    pub settle_date: int,
    pub executed_at: Option<Seq<char>>,
    pub symbol: Option<Seq<char>>,
    pub quantity: Dec,
    pub price: Dec,
    pub amount: Dec,
    pub commission: Dec,
    pub currency: Currency,
    pub description: Seq<char>,
    pub key: Seq<char>,
}

impl View for BrokerRecord {
    type V = RecordV;

    open spec fn view(&self) -> RecordV {
        RecordV {
            kind: self.kind@,
            trade_date: date::opt(self.trade_date),
            settle_date: self.settle_date@,
            executed_at: text::opt(self.executed_at),
            symbol: text::opt(self.symbol),
            quantity: self.quantity@,
            price: self.price@,
            amount: self.amount@,
            commission: self.commission@,
            currency: self.currency,
            description: self.description@,
            key: self.key@,
        }
    }
}

pub open spec fn record_views(v: Seq<BrokerRecord>) -> Seq<RecordV> {
    v.map_values(|r: BrokerRecord| r@)
}

/// Is the word that of a purchase or a sale?
pub open spec fn trades(kind: Seq<char>) -> bool {
    kind == "buy"@ || kind == "sell"@
}

/// Is the word that of a purchase or a sale?
pub fn is_trade(kind: &str) -> (r: bool)
    ensures
        r == trades(kind@),
{
    text::same_text(kind, "buy") || text::same_text(kind, "sell")
}

/// What a record adds to the balance of a commodity: its amount and its
/// commission to the cash of its currency, its quantity to its security.
pub open spec fn changes(r: RecordV, c: CommodityV) -> Seq<Dec> {
    match c {
        CommodityV::Cash(k) => if r.currency == k {
            seq![r.amount, r.commission]
        } else {
            Seq::empty()
        },
        CommodityV::Security(s) => if r.symbol == Some(s) {
            seq![r.quantity]
        } else {
            Seq::empty()
        },
    }
}

impl BrokerRecord {
    /// What the record adds to the balance of a commodity.
    pub fn changes(&self, c: &Commodity) -> (r: Vec<Amount>)
        ensures
            r@.map_values(|a: Amount| a@) == changes(self@, c@),
    {
        let mut out: Vec<Amount> = Vec::new();
        match c {
            Commodity::Cash(k) => {
                if self.currency == *k {
                    out.push(self.amount);
                    out.push(self.commission);
                }
            },
            Commodity::Security(s) => {
                if let Some(symbol) = &self.symbol {
                    if text::same_text(symbol.as_str(), s.as_str()) {
                        out.push(self.quantity);
                    }
                }
            },
        }
        assert(out@.map_values(|a: Amount| a@) =~= changes(self@, c@));
        out
    }

    pub fn copy(&self) -> (r: BrokerRecord)
        ensures
            r@ == self@,
    {
        BrokerRecord {
            kind: text::copy(self.kind.as_str()),
            trade_date: self.trade_date,
            settle_date: self.settle_date,
            executed_at: journal::copy_opt(&self.executed_at),
            symbol: journal::copy_opt(&self.symbol),
            quantity: self.quantity,
            price: self.price,
            amount: self.amount,
            commission: self.commission,
            currency: self.currency,
            description: text::copy(self.description.as_str()),
            key: text::copy(self.key.as_str()),
        }
    }

    /// Fills in the day the trade was made, where none is held; a date already
    /// held stands. `true` when it was filled in.
    pub fn fill_trade_date(&mut self, date: Date) -> (r: bool)
        ensures
            r == (old(self)@.trade_date is None),
            final(self)@ == (RecordV {
                trade_date: match old(self)@.trade_date {
                    Some(d) => Some(d),
                    None => Some(date@),
                },
                ..old(self)@
            }),
    {
        match self.trade_date {
            Some(_) => false,
            None => {
                self.trade_date = Some(date);
                true
            },
        }
    }
}

/// A record ready to store: which ledger account it belongs to and its
/// namespaced ref.
#[derive(Clone, Debug, PartialEq)]
pub struct NewRecord {
    pub account: String,
    pub external_ref: String,
    pub import_batch_id: Option<i64>,
    pub record: BrokerRecord,
}

/// A row of `broker_record`, as the database holds it.
pub struct Row {
    pub account: String,
    pub external_ref: String,
    pub kind: String,
    pub trade_date: Option<String>,
    pub settle_date: String,
    pub executed_at: Option<String>,
    pub symbol: Option<String>,
    pub quantity: String,
    pub price: String,
    pub amount: String,
    pub commission: String,
    pub currency: String,
    pub description: String,
}

pub struct RowV {
    pub account: Seq<char>,
    pub external_ref: Seq<char>,
    pub kind: Seq<char>,
    pub trade_date: Option<Seq<char>>,
    pub settle_date: Seq<char>,
    pub executed_at: Option<Seq<char>>,
    pub symbol: Option<Seq<char>>,
    pub quantity: Seq<char>,
    pub price: Seq<char>,
    pub amount: Seq<char>,
    pub commission: Seq<char>,
    pub currency: Seq<char>,
    pub description: Seq<char>,
}

impl View for Row {
    type V = RowV;

    open spec fn view(&self) -> RowV {
        RowV {
            account: self.account@,
            external_ref: self.external_ref@,
            kind: self.kind@,
            trade_date: text::opt(self.trade_date),
            settle_date: self.settle_date@,
            executed_at: text::opt(self.executed_at),
            symbol: text::opt(self.symbol),
            quantity: self.quantity@,
            price: self.price@,
            amount: self.amount@,
            commission: self.commission@,
            currency: self.currency@,
            description: self.description@,
        }
    }
}

/// What a row that cannot be read is refused with.
pub open spec fn unreadable(external_ref: Seq<char>) -> Seq<char> {
    "invalid broker_record "@ + external_ref
}

/// An optional day's text: absent, a day, or unreadable.
pub open spec fn day_in(s: Option<Seq<char>>) -> Option<Option<int>> {
    match s {
        None => Some(None),
        Some(s) => match date::read(s) {
            Some(d) => Some(Some(d)),
            None => None,
        },
    }
}

/// An optional moment's text: absent, one that names a moment, or unreadable.
pub open spec fn moment_in(s: Option<Seq<char>>) -> Option<Option<Seq<char>>> {
    match s {
        None => Some(None),
        Some(s) => match date::parsed_moment(s) {
            Some(_) => Some(Some(s)),
            None => None,
        },
    }
}

/// The record a row holds; its key is the stored ref.
pub open spec fn record_in(r: RowV) -> Result<RecordV, Seq<char>> {
    match (
        day_in(r.trade_date),
        date::read(r.settle_date),
        moment_in(r.executed_at),
        amount::spelled(r.quantity),
        amount::spelled(r.price),
        amount::spelled(r.amount),
        amount::spelled(r.commission),
        currency::of_code(r.currency),
    ) {
        (
            Some(trade_date),
            Some(settle_date),
            Some(executed_at),
            Some(quantity),
            Some(price),
            Some(a),
            Some(commission),
            Some(c),
        ) => Ok(
            RecordV {
                kind: r.kind,
                trade_date,
                settle_date,
                executed_at,
                symbol: r.symbol,
                quantity,
                price,
                amount: a,
                commission,
                currency: c,
                description: r.description,
                key: r.external_ref,
            },
        ),
        _ => Err(unreadable(r.external_ref)),
    }
}

impl Row {
    /// The record the row holds.
    pub fn read(&self) -> (r: Result<BrokerRecord, Refusal>)
        ensures
            match r {
                Ok(b) => record_in(self@) == Ok::<RecordV, Seq<char>>(b@),
                Err(e) => record_in(self@) == Err::<RecordV, Seq<char>>(e@),
            },
    {
        let trade_date: Option<Option<Date>> = match &self.trade_date {
            None => Some(None),
            Some(s) => match Date::from_iso(s.as_str()) {
                Some(d) => Some(Some(d)),
                None => None,
            },
        };
        let executed_at: Option<Option<String>> = match &self.executed_at {
            None => Some(None),
            Some(s) => if date::is_moment(s.as_str()) {
                Some(Some(text::copy(s.as_str())))
            } else {
                None
            },
        };
        match (
            trade_date,
            Date::from_iso(self.settle_date.as_str()),
            executed_at,
            Amount::parse(self.quantity.as_str()),
            Amount::parse(self.price.as_str()),
            Amount::parse(self.amount.as_str()),
            Amount::parse(self.commission.as_str()),
            Currency::parse(self.currency.as_str()),
        ) {
            (
                Some(trade_date),
                Some(settle_date),
                Some(executed_at),
                Some(quantity),
                Some(price),
                Some(amount),
                Some(commission),
                Some(currency),
            ) => Ok(
                BrokerRecord {
                    kind: text::copy(self.kind.as_str()),
                    trade_date,
                    settle_date,
                    executed_at,
                    symbol: journal::copy_opt(&self.symbol),
                    quantity,
                    price,
                    amount,
                    commission,
                    currency,
                    description: text::copy(self.description.as_str()),
                    key: text::copy(self.external_ref.as_str()),
                },
            ),
            _ => {
                let mut out = text::copy("invalid broker_record ");
                out.append(self.external_ref.as_str());
                Err(Refusal { message: out })
            },
        }
    }
}

/// A record is what its row says, each figure under its own name.
pub proof fn a_record_is_what_its_row_says(r: RowV)
    requires
        record_in(r) is Ok,
    ensures
        ({
            let b = record_in(r)->Ok_0;
            &&& b.kind == r.kind
            &&& date::read(r.settle_date) == Some(b.settle_date)
            &&& r.trade_date matches Some(s) ==> date::read(s) == b.trade_date && b.trade_date
                is Some
            &&& r.trade_date is None ==> b.trade_date is None
            &&& b.executed_at == r.executed_at
            &&& b.symbol == r.symbol
            &&& amount::spelled(r.quantity) == Some(b.quantity)
            &&& amount::spelled(r.price) == Some(b.price)
            &&& amount::spelled(r.amount) == Some(b.amount)
            &&& amount::spelled(r.commission) == Some(b.commission)
            &&& currency::of_code(r.currency) == Some(b.currency)
            &&& b.description == r.description
            &&& b.key == r.external_ref
        }),
{
}

} // verus!
