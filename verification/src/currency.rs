//! The currencies accounts are kept in.

use vstd::prelude::*;

use crate::text;

verus! {

/// A currency, by its ISO 4217 code.
#[derive(Clone, Copy, PartialEq, Eq, Structural, PartialOrd, Ord, Hash, Debug)]
pub enum Currency {
    JPY,
    TWD,
    USD,
}

/// The currency's code.
pub open spec fn code(c: Currency) -> Seq<char> {
    match c {
        Currency::JPY => "JPY"@,
        Currency::TWD => "TWD"@,
        Currency::USD => "USD"@,
    }
}

/// The currency a code stands for.
pub open spec fn of_code(s: Seq<char>) -> Option<Currency> {
    if s == "JPY"@ {
        Some(Currency::JPY)
    } else if s == "TWD"@ {
        Some(Currency::TWD)
    } else if s == "USD"@ {
        Some(Currency::USD)
    } else {
        None
    }
}

/// Where a currency stands among the others, by its code.
pub open spec fn rank(c: Currency) -> int {
    match c {
        Currency::JPY => 0,
        Currency::TWD => 1,
        Currency::USD => 2,
    }
}

impl Currency {
    /// The currency's code.
    pub fn text(&self) -> (r: String)
        ensures
            r@ == code(*self),
    {
        text::copy(
            match self {
                Currency::JPY => "JPY",
                Currency::TWD => "TWD",
                Currency::USD => "USD",
            },
        )
    }

    /// The currency a code stands for.
    pub fn parse(s: &str) -> (r: Option<Currency>)
        ensures
            r == of_code(s@),
    {
        if text::same_text(s, "JPY") {
            Some(Currency::JPY)
        } else if text::same_text(s, "TWD") {
            Some(Currency::TWD)
        } else if text::same_text(s, "USD") {
            Some(Currency::USD)
        } else {
            None
        }
    }

    /// Where the currency stands among the others, by its code.
    pub fn rank(&self) -> (r: u8)
        ensures
            r == rank(*self),
    {
        match self {
            Currency::JPY => 0,
            Currency::TWD => 1,
            Currency::USD => 2,
        }
    }
}

/// A currency is read back from its code.
pub proof fn code_reads_back(c: Currency)
    ensures
        of_code(code(c)) == Some(c),
{
    reveal_strlit("JPY");
    reveal_strlit("TWD");
    reveal_strlit("USD");
    assert("TWD"@[0] != "JPY"@[0] && "USD"@[0] != "JPY"@[0] && "USD"@[0] != "TWD"@[0]);
}

} // verus!
