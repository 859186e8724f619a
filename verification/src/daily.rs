//! The records of 天天記帳: income and expense, and transfers.

use vstd::prelude::*;

use crate::amount;
use crate::amount::{Amount, Dec};
use crate::currency::Currency;
use crate::date::Date;
use crate::text;

verus! {

/// One record.
#[derive(Clone, Debug, PartialEq)]
pub enum Entry {
    /// Money into an account, or out of it where `amount` is negative.
    Flow {
        date: Date,
        account: String,
        amount: Amount,
        currency: Currency,
        category: String,
        memo: String,
        id: String,
    },
    /// `out` leaves `from`, and `inn` comes into `to`.
    Transfer {
        date: Date,
        from: String,
        out: Amount,
        out_currency: Currency,
        to: String,
        inn: Amount,
        in_currency: Currency,
        memo: String,
        id: String,
    },
}

#[verifier::ext_equal]
pub enum EntryV {
    Flow {
        date: int,
        account: Seq<char>,
        amount: Dec,
        currency: Currency,
        category: Seq<char>,
        memo: Seq<char>,
        id: Seq<char>,
    },
    Transfer {
        date: int,
        from: Seq<char>,
        out: Dec,
        out_currency: Currency,
        to: Seq<char>,
        inn: Dec,
        in_currency: Currency,
        memo: Seq<char>,
        id: Seq<char>,
    },
}

impl View for Entry {
    type V = EntryV;

    open spec fn view(&self) -> EntryV {
        match self {
            Entry::Flow { date, account, amount, currency, category, memo, id } => EntryV::Flow {
                date: date@,
                account: account@,
                amount: amount@,
                currency: *currency,
                category: category@,
                memo: memo@,
                id: id@,
            },
            Entry::Transfer {
                date,
                from,
                out,
                out_currency,
                to,
                inn,
                in_currency,
                memo,
                id,
            } => EntryV::Transfer {
                date: date@,
                from: from@,
                out: out@,
                out_currency: *out_currency,
                to: to@,
                inn: inn@,
                in_currency: *in_currency,
                memo: memo@,
                id: id@,
            },
        }
    }
}

pub open spec fn entry_views(v: Seq<Entry>) -> Seq<EntryV> {
    v.map_values(|e: Entry| e@)
}

pub open spec fn day_of(e: EntryV) -> int {
    match e {
        EntryV::Flow { date, .. } => date,
        EntryV::Transfer { date, .. } => date,
    }
}

pub open spec fn id_of(e: EntryV) -> Seq<char> {
    match e {
        EntryV::Flow { id, .. } => id,
        EntryV::Transfer { id, .. } => id,
    }
}

pub open spec fn memo_of(e: EntryV) -> Seq<char> {
    match e {
        EntryV::Flow { memo, .. } => memo,
        EntryV::Transfer { memo, .. } => memo,
    }
}

/// The labels of the accounts a record is on.
pub open spec fn accounts_of(e: EntryV) -> Seq<Seq<char>> {
    match e {
        EntryV::Flow { account, .. } => seq![account],
        EntryV::Transfer { from, to, .. } => seq![from, to],
    }
}

/// What a record does to an account it is on: the amount, the currency, and
/// the other account of a transfer.
pub open spec fn effect(e: EntryV, label: Seq<char>) -> (Dec, Currency, Option<Seq<char>>) {
    match e {
        EntryV::Flow { amount, currency, .. } => (amount, currency, None),
        EntryV::Transfer { from, out, out_currency, to, inn, in_currency, .. } => if from == label {
            (amount::negated(out), out_currency, Some(to))
        } else {
            (inn, in_currency, Some(from))
        },
    }
}

impl Entry {
    pub fn date(&self) -> (r: Date)
        ensures
            r@ == day_of(self@),
    {
        match self {
            Entry::Flow { date, .. } => *date,
            Entry::Transfer { date, .. } => *date,
        }
    }

    pub fn id(&self) -> (r: &String)
        ensures
            r@ == id_of(self@),
    {
        match self {
            Entry::Flow { id, .. } => id,
            Entry::Transfer { id, .. } => id,
        }
    }

    pub fn memo(&self) -> (r: &String)
        ensures
            r@ == memo_of(self@),
    {
        match self {
            Entry::Flow { memo, .. } => memo,
            Entry::Transfer { memo, .. } => memo,
        }
    }

    /// Is the record from the 轉帳 export rather than 收支?
    pub fn is_transfer(&self) -> (r: bool)
        ensures
            r == (self@ is Transfer),
    {
        match self {
            Entry::Flow { .. } => false,
            Entry::Transfer { .. } => true,
        }
    }

    /// The labels of the accounts the record is on.
    pub fn accounts(&self) -> (r: Vec<String>)
        ensures
            text::texts(r@) == accounts_of(self@),
    {
        let mut out: Vec<String> = Vec::new();
        match self {
            Entry::Flow { account, .. } => {
                out.push(text::copy(account.as_str()));
            },
            Entry::Transfer { from, to, .. } => {
                out.push(text::copy(from.as_str()));
                out.push(text::copy(to.as_str()));
            },
        }
        assert(text::texts(out@) =~= accounts_of(self@));
        out
    }

    /// What the record does to an account it is on.
    pub fn effect(&self, label: &str) -> (r: (Amount, Currency, Option<String>))
        ensures
            (r.0@, r.1, text::opt(r.2)) == effect(self@, label@),
    {
        match self {
            Entry::Flow { amount, currency, .. } => (*amount, *currency, None),
            Entry::Transfer { from, out, out_currency, to, inn, in_currency, .. } => {
                if text::same_text(from.as_str(), label) {
                    (out.negated(), *out_currency, Some(text::copy(to.as_str())))
                } else {
                    (*inn, *in_currency, Some(text::copy(from.as_str())))
                }
            },
        }
    }
}

/// A record of income or expense moves its amount on its account. A transfer
/// takes what goes out from the account it leaves and brings what comes in to
/// the account it reaches, each naming the other.
pub proof fn a_record_moves_what_it_says(e: EntryV, label: Seq<char>)
    ensures
        ({
            let (a, c, other) = effect(e, label);
            match e {
                EntryV::Flow { amount, currency, .. } => amount::worth(a) == amount::worth(amount)
                    && c == currency && other is None,
                EntryV::Transfer { from, out, out_currency, to, inn, in_currency, .. } => {
                    &&& label == from ==> amount::worth(a) == -amount::worth(out) && c
                        == out_currency && other == Some(to)
                    &&& label == to && from != to ==> amount::worth(a) == amount::worth(inn) && c
                        == in_currency && other == Some(from)
                }
            }
        }),
{
    if let EntryV::Transfer { out, .. } = e {
        amount::negated_worth(out);
    }
}

/// A transfer of one amount between two accounts moves nothing in all.
pub proof fn a_transfer_is_level(e: EntryV)
    requires
        e matches EntryV::Transfer { from, out, to, inn, .. } && from != to && amount::worth(out)
            == amount::worth(inn),
    ensures
        ({
            let names = accounts_of(e);
            &&& names.len() == 2
            &&& amount::worth(effect(e, names[0]).0) + amount::worth(effect(e, names[1]).0) == 0
        }),
{
    a_record_moves_what_it_says(e, accounts_of(e)[0]);
    a_record_moves_what_it_says(e, accounts_of(e)[1]);
}

} // verus!
