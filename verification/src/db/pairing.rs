//! Statement lines the importer could not pair with an unverified record on
//! its own, and the record a person picked for each.

use vstd::prelude::*;

use crate::amount;
use crate::amount::{Amount, Dec};
use crate::currency;
use crate::currency::Currency;
use crate::date;
use crate::date::Date;
use crate::refusal::Refusal;
use crate::text;

use super::events;
use super::events::Pairing;

verus! {

/// A line that fits more than one unverified record, or whose one record fits
/// another line too.
#[derive(Clone, Debug, PartialEq)]
pub struct Ambiguity {
    pub account: String,
    pub currency: Currency,
    pub statement_ref: String,
    pub date: Date,
    pub amount: Amount,
    pub description: String,
    /// The unverified records it fits.
    pub candidates: Vec<i64>,
}

#[verifier::ext_equal]
pub struct AmbiguityV {
    pub account: Seq<char>,
    pub currency: Currency,
    pub statement_ref: Seq<char>,
    pub date: int,
    pub amount: Dec,
    pub description: Seq<char>,
    pub candidates: Seq<i64>,
}

impl View for Ambiguity {
    type V = AmbiguityV;

    open spec fn view(&self) -> AmbiguityV {
        AmbiguityV {
            account: self.account@,
            currency: self.currency,
            statement_ref: self.statement_ref@,
            date: self.date@,
            amount: self.amount@,
            description: self.description@,
            candidates: self.candidates@,
        }
    }
}

/// An ambiguity whose line no transaction holds yet, with the pick if made.
#[derive(Clone, Debug, PartialEq)]
pub struct Choice {
    pub id: i64,
    pub ambiguity: Ambiguity,
    pub chosen: Option<i64>,
}

/// The list of numbers `serde_json::from_str` reads out of a text.
pub uninterp spec fn json_ids(s: Seq<char>) -> Option<Seq<i64>>;

/// A list of numbers as JSON has it.
pub open spec fn ids_json(v: Seq<i64>) -> Seq<char> {
    seq!['['] + text::joined(v.map_values(|i: i64| text::signed_digits(i as int)), seq![','])
        + seq![']']
}

/// `serde_json::from_str`, into a list of numbers: it reads what such a list
/// is written as. Which other texts it takes is left to `json_ids`.
#[verifier::external_body]
fn ids_from_json(s: &str) -> (r: Option<Vec<i64>>)
    ensures
        match r {
            Some(v) => json_ids(s@) == Some(v@),
            None => json_ids(s@) is None,
        },
        forall|v: Seq<i64>| s@ == #[trigger] ids_json(v) ==> r is Some && r->0@ == v,
{
    serde_json::from_str(s).ok()
}

/// `serde_json::to_string`, of a list of numbers: the numbers in brackets,
/// a comma between them.
#[verifier::external_body]
fn ids_to_json(v: &Vec<i64>) -> (r: String)
    ensures
        r@ == ids_json(v@),
{
    serde_json::to_string(v).expect("a list of numbers")
}

/// The candidates as they are stored.
pub fn stored_candidates(a: &Ambiguity) -> (r: String)
    ensures
        r@ == ids_json(a@.candidates),
{
    ids_to_json(&a.candidates)
}

/// A row of `verification_choice`, as the database holds it.
pub struct ChoiceRow {
    pub id: i64,
    pub path: String,
    pub currency: String,
    pub statement_ref: String,
    pub date: String,
    pub amount: String,
    pub description: String,
    pub candidates: String,
    pub transaction_id: Option<i64>,
}

/// The ambiguity a row holds, given the candidates its text reads as.
pub open spec fn ambiguity_in(r: ChoiceRow, candidates: Option<Seq<i64>>) -> Result<
    AmbiguityV,
    Seq<char>,
> {
    match currency::of_code(r.currency@) {
        None => Err(events::misread("currency"@, r.currency@)),
        Some(c) => match date::read(r.date@) {
            None => Err(events::misread("line date"@, r.date@)),
            Some(day) => match amount::spelled(r.amount@) {
                None => Err(events::misread("line amount"@, r.amount@)),
                Some(a) => match candidates {
                    None => Err("choice candidates"@),
                    Some(ids) => Ok(
                        AmbiguityV {
                            account: r.path@,
                            currency: c,
                            statement_ref: r.statement_ref@,
                            date: day,
                            amount: a,
                            description: r.description@,
                            candidates: ids,
                        },
                    ),
                },
            },
        },
    }
}

impl ChoiceRow {
    /// The choice the row holds, given the candidates its text reads as.
    pub fn with_candidates(&self, candidates: Option<Vec<i64>>) -> (r: Result<Choice, Refusal>)
        ensures
            match r {
                Ok(c) => ambiguity_in(
                    *self,
                    match candidates {
                        Some(v) => Some(v@),
                        None => None,
                    },
                ) == Ok::<AmbiguityV, Seq<char>>(c.ambiguity@) && c.id == self.id && c.chosen
                    == self.transaction_id,
                Err(e) => ambiguity_in(
                    *self,
                    match candidates {
                        Some(v) => Some(v@),
                        None => None,
                    },
                ) == Err::<AmbiguityV, Seq<char>>(e@),
            },
    {
        let currency = match Currency::parse(self.currency.as_str()) {
            Some(c) => c,
            None => return Err(events::misreads("currency", self.currency.as_str())),
        };
        let date = match Date::from_iso(self.date.as_str()) {
            Some(d) => d,
            None => return Err(events::misreads("line date", self.date.as_str())),
        };
        let amount = match Amount::parse(self.amount.as_str()) {
            Some(a) => a,
            None => return Err(events::misreads("line amount", self.amount.as_str())),
        };
        match candidates {
            None => Err(Refusal::new("choice candidates")),
            Some(candidates) => Ok(
                Choice {
                    id: self.id,
                    ambiguity: Ambiguity {
                        account: text::copy(self.path.as_str()),
                        currency,
                        statement_ref: text::copy(self.statement_ref.as_str()),
                        date,
                        amount,
                        description: text::copy(self.description.as_str()),
                        candidates,
                    },
                    chosen: self.transaction_id,
                },
            ),
        }
    }

    /// The choice the row holds.
    pub fn read(&self) -> (r: Result<Choice, Refusal>)
        ensures
            match r {
                Ok(c) => ambiguity_in(*self, json_ids(self.candidates@)) == Ok::<
                    AmbiguityV,
                    Seq<char>,
                >(c.ambiguity@) && c.id == self.id && c.chosen == self.transaction_id,
                Err(e) => ambiguity_in(*self, json_ids(self.candidates@)) == Err::<
                    AmbiguityV,
                    Seq<char>,
                >(e@),
            },
            forall|v: Seq<i64>|
                self.candidates@ == #[trigger] ids_json(v) && r is Ok
                    ==> r->Ok_0.ambiguity@.candidates == v,
    {
        self.with_candidates(ids_from_json(self.candidates.as_str()))
    }
}

/// The pick of a record for the line of an open choice. A record picked for
/// another open line cannot be picked again: one line verifies one record.
pub fn choose_record(id: i64, choice: Option<Choice>, transaction_id: i64, taken: bool) -> (r: Result<
    Pairing,
    Refusal,
>)
    ensures
        match r {
            Ok(p) => choice matches Some(c) && c.ambiguity@.candidates.contains(transaction_id)
                && !taken && p.statement_ref@ == c.ambiguity@.statement_ref && p.date@
                == c.ambiguity@.date && p.amount@ == c.ambiguity@.amount,
            Err(e) => match choice {
                None => e@ == "查無待配對的對帳單明細 "@ + text::signed_digits(id as int),
                Some(c) => if !c.ambiguity@.candidates.contains(transaction_id) {
                    e@ == "這筆不在可配對的紀錄裡"@
                } else {
                    taken && e@ == "這筆紀錄已配給另一筆明細"@
                },
            },
        },
{
    let choice = match choice {
        Some(c) => c,
        None => {
            let mut out = text::copy("查無待配對的對帳單明細 ");
            out.append(text::signed_number(id).as_str());
            return Err(Refusal { message: out });
        },
    };
    let ids = &choice.ambiguity.candidates;
    let mut found = false;
    let mut i: usize = 0;
    while i < ids.len() && !found
        invariant
            i <= ids@.len(),
            found ==> ids@.contains(transaction_id),
            !found ==> forall|k: int| 0 <= k < i ==> ids@[k] != transaction_id,
        decreases ids@.len() - i,
    {
        if ids[i] == transaction_id {
            assert(ids@[i as int] == transaction_id);
            found = true;
        }
        i = i + 1;
    }
    if !found {
        assert(!ids@.contains(transaction_id));
        return Err(Refusal::new("這筆不在可配對的紀錄裡"));
    }
    if taken {
        return Err(Refusal::new("這筆紀錄已配給另一筆明細"));
    }
    Ok(
        Pairing {
            statement_ref: text::copy(choice.ambiguity.statement_ref.as_str()),
            date: choice.ambiguity.date,
            amount: choice.ambiguity.amount,
        },
    )
}

} // verus!
