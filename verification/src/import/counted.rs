//! A balance the user counted, for an account no institution reports on:
//! recorded as a `counted` assertion, which the ledger is then held to as it is
//! to a statement's closing.

use vstd::prelude::*;

use crate::accounts;
use crate::accounts::Chart;
use crate::amount;
use crate::amount::{Amount, Dec};
use crate::assertion;
use crate::assertion::{AssertionSource, AssertionV, BalanceAssertion};
use crate::currency;
use crate::currency::Currency;
use crate::date::Date;
use crate::db::check;
use crate::db::check::CheckReport;
use crate::refusal::Refusal;
use crate::text;

verus! {

/// The account a name stands for: what the app's label is mapped to, or the
/// path itself.
pub open spec fn named(chart: Chart, name: Seq<char>) -> Seq<char> {
    match accounts::under(accounts::table(chart.accounts@), name) {
        Some(a) => a,
        None => name,
    }
}

/// The account a name stands for.
pub fn account(chart: &Chart, name: &str) -> (r: String)
    ensures
        r@ == named(*chart, name@),
{
    match chart.account(name) {
        Some(a) => text::copy(a.as_str()),
        None => text::copy(name),
    }
}

pub open spec fn codes(cs: Seq<Currency>) -> Seq<Seq<char>> {
    cs.map_values(|c: Currency| currency::code(c))
}

/// The currency of a count: the one given, or the only one the account holds.
pub open spec fn currency_of(account: Seq<char>, given: Option<Currency>, held: Seq<Currency>) -> Result<
    Currency,
    Seq<char>,
> {
    match given {
        Some(c) => Ok(c),
        None => if held.len() == 1 {
            Ok(held[0])
        } else if held.len() == 0 {
            Err(account + " holds nothing yet; name the --currency"@)
        } else {
            Err(
                account + " holds ["@ + text::joined(codes(held), ", "@)
                    + "]; name the --currency"@,
            )
        },
    }
}

/// The assertion a count makes. `held` are the currencies the account holds.
pub open spec fn counted(
    chart: Chart,
    account: Seq<char>,
    day: int,
    amount: Dec,
    given: Option<Currency>,
    held: Seq<Currency>,
) -> Result<AssertionV, Seq<char>> {
    if !accounts::under_any(account, text::texts(chart.counted@)) {
        Err(account + " is not under a [counted] root in mapping.toml"@)
    } else {
        match currency_of(account, given, held) {
            Err(e) => Err(e),
            Ok(currency) => Ok(
                AssertionV {
                    source: AssertionSource::Counted,
                    account,
                    currency,
                    period_start: None,
                    opening: None,
                    period_end: day,
                    closing: amount,
                },
            ),
        }
    }
}

fn choose_currency(account: &str, given: Option<Currency>, held: &Vec<Currency>) -> (r: Result<
    Currency,
    Refusal,
>)
    ensures
        match r {
            Ok(c) => currency_of(account@, given, held@) == Ok::<Currency, Seq<char>>(c),
            Err(e) => currency_of(account@, given, held@) == Err::<Currency, Seq<char>>(e@),
        },
{
    if let Some(c) = given {
        return Ok(c);
    }
    if held.len() == 1 {
        return Ok(held[0]);
    }
    let mut out = text::copy(account);
    if held.len() == 0 {
        out.append(" holds nothing yet; name the --currency");
        return Err(Refusal { message: out });
    }
    let mut names: Vec<String> = Vec::new();
    let mut i: usize = 0;
    while i < held.len()
        invariant
            i <= held@.len(),
            names@.len() == i,
            forall|k: int| 0 <= k < i ==> (#[trigger] names@[k])@ == currency::code(held@[k]),
        decreases held@.len() - i,
    {
        names.push(held[i].text());
        i = i + 1;
    }
    assert(text::texts(names@) =~= codes(held@));
    out.append(" holds [");
    out.append(text::join_all(&names, ", ").as_str());
    out.append("]; name the --currency");
    Err(Refusal { message: out })
}

/// The assertion a count makes. `held` are the currencies the account holds.
pub fn record(
    chart: &Chart,
    account: &str,
    date: Date,
    amount: Amount,
    currency: Option<Currency>,
    held: &Vec<Currency>,
) -> (r: Result<BalanceAssertion, Refusal>)
    ensures
        match r {
            Ok(a) => counted(*chart, account@, date@, amount@, currency, held@) == Ok::<
                AssertionV,
                Seq<char>,
            >(a@),
            Err(e) => counted(*chart, account@, date@, amount@, currency, held@) == Err::<
                AssertionV,
                Seq<char>,
            >(e@),
        },
{
    if !chart.is_counted(account) {
        let mut out = text::copy(account);
        out.append(" is not under a [counted] root in mapping.toml");
        return Err(Refusal { message: out });
    }
    let currency = choose_currency(account, currency, held)?;
    Ok(
        BalanceAssertion {
            source: AssertionSource::Counted,
            account: text::copy(account),
            currency,
            period_start: None,
            opening: None,
            period_end: date,
            closing: amount,
        },
    )
}

#[derive(Debug)]
pub struct Report {
    pub assertion: BalanceAssertion,
    pub check: CheckReport,
}

impl Report {
    pub fn text(&self) -> (r: String)
        requires
            check::printable(self.check@),
        ensures
            r@ == "recorded "@ + assertion::named(self.assertion@) + ": "@ + amount::printed(
                self.assertion@.closing,
            ) + "\n"@ + check::report_text(self.check@),
    {
        let mut out = text::copy("recorded ");
        out.append(self.assertion.text().as_str());
        out.append(": ");
        out.append(self.assertion.closing.text().as_str());
        out.append("\n");
        out.append(self.check.text().as_str());
        out
    }
}

/// A count states the amount counted on its account at the end of its day, in
/// the currency given or the one the account holds, where the account is
/// counted by hand.
pub proof fn a_count_states_what_was_counted(
    chart: Chart,
    account: Seq<char>,
    day: int,
    amount: Dec,
    given: Option<Currency>,
    held: Seq<Currency>,
)
    ensures
        match counted(chart, account, day, amount, given, held) {
            Ok(a) => {
                &&& accounts::under_any(account, text::texts(chart.counted@))
                &&& a.source == AssertionSource::Counted
                &&& a.account == account
                &&& a.period_end == day
                &&& a.closing == amount
                &&& a.period_start is None
                &&& a.opening is None
                &&& given matches Some(c) ==> a.currency == c
                &&& given is None ==> held == seq![a.currency]
            },
            Err(_) => !accounts::under_any(account, text::texts(chart.counted@)) || (given is None
                && held.len() != 1),
        },
{
    if held.len() == 1 {
        assert(held =~= seq![held[0]]);
    }
}

} // verus!
