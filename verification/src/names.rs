//! Which ledger account a thing belongs to. The rules are policy; the names
//! they resolve to are the chart's.

use vstd::prelude::*;

use crate::accounts;
use crate::accounts::Chart;
use crate::amount::Amount;
use crate::text;

verus! {

/// An account number the chart does not have.
#[derive(Clone, Debug)]
pub struct UnknownAccount {
    pub account_no: String,
}

impl UnknownAccount {
    pub fn text(&self) -> (r: String)
        ensures
            r@ == "unknown account "@ + self.account_no@ + " — add it to institution.accounts"@,
    {
        let mut out = text::copy("unknown account ");
        out.append(self.account_no.as_str());
        out.append(" — add it to institution.accounts");
        out
    }
}

/// The ledger account a statement's own account number refers to.
pub fn statement_account<'a>(chart: &'a Chart, account_no: &str) -> (r: Result<
    &'a String,
    UnknownAccount,
>)
    ensures
        match r {
            Ok(account) => accounts::under(
                accounts::table(chart.institution.accounts@),
                account_no@,
            ) == Some(account@),
            Err(e) => e.account_no@ == account_no@ && accounts::under(
                accounts::table(chart.institution.accounts@),
                account_no@,
            ) is None,
        },
{
    match accounts::lookup(&chart.institution.accounts, account_no) {
        Some(account) => Ok(account),
        None => Err(UnknownAccount { account_no: text::copy(account_no) }),
    }
}

/// The account a line falls back to: the one its wording is mapped to, else
/// one by the direction the money went.
pub open spec fn fallback(chart: Chart, description: Seq<char>, negative: bool) -> Seq<char> {
    match accounts::under(accounts::table(chart.fallback.descriptions@), description) {
        Some(account) => account,
        None => if negative {
            chart.fallback.expense@
        } else {
            chart.fallback.income@
        },
    }
}

/// Fallback for lines the bookkeeping app has no record of.
///
/// A bank prints its own wording for interest and fees, so the descriptions
/// worth recognising differ per institution and are configured rather than
/// compiled in. Anything unrecognised is bucketed by direction, which is all
/// the statement alone can tell us.
pub fn fallback_account<'a>(chart: &'a Chart, description: &str, delta: Amount) -> (r: &'a String)
    ensures
        r@ == fallback(*chart, description@, delta@.negative),
{
    match accounts::lookup(&chart.fallback.descriptions, description) {
        Some(account) => account,
        None => if delta.is_sign_negative() {
            &chart.fallback.expense
        } else {
            &chart.fallback.income
        },
    }
}

} // verus!
