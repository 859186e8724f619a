//! Sums per currency.

use vstd::prelude::*;

use crate::amount;
use crate::amount::{Amount, Dec};
use crate::currency;
use crate::currency::Currency;
use crate::text;

verus! {

/// An amount in each currency.
pub struct Tally {
    pub jpy: Amount,
    pub twd: Amount,
    pub usd: Amount,
}

pub struct TallyV {
    pub jpy: Dec,
    pub twd: Dec,
    pub usd: Dec,
}

impl View for Tally {
    type V = TallyV;

    open spec fn view(&self) -> TallyV {
        TallyV { jpy: self.jpy@, twd: self.twd@, usd: self.usd@ }
    }
}

/// The amount in a currency.
pub open spec fn in_currency(t: TallyV, c: Currency) -> Dec {
    match c {
        Currency::JPY => t.jpy,
        Currency::TWD => t.twd,
        Currency::USD => t.usd,
    }
}

pub open spec fn nothing() -> TallyV {
    TallyV { jpy: amount::zero(), twd: amount::zero(), usd: amount::zero() }
}

/// The sums with one amount more, if that is within range.
pub open spec fn added(t: TallyV, c: Currency, a: Dec) -> Option<TallyV> {
    match amount::sum(in_currency(t, c), a) {
        None => None,
        Some(s) => Some(
            match c {
                Currency::JPY => TallyV { jpy: s, ..t },
                Currency::TWD => TallyV { twd: s, ..t },
                Currency::USD => TallyV { usd: s, ..t },
            },
        ),
    }
}

/// The sum of the amounts in each currency.
pub open spec fn tally(legs: Seq<(Dec, Currency)>) -> Option<TallyV>
    decreases legs.len(),
{
    if legs.len() == 0 {
        Some(nothing())
    } else {
        match tally(legs.drop_last()) {
            None => None,
            Some(t) => added(t, legs.last().1, legs.last().0),
        }
    }
}

pub open spec fn leg_views(v: Seq<(Amount, Currency)>) -> Seq<(Dec, Currency)> {
    v.map_values(|l: (Amount, Currency)| (l.0@, l.1))
}

/// `12.50 TWD`.
pub open spec fn sum_text(a: Dec, c: Currency) -> Seq<char> {
    amount::printed(a) + " "@ + currency::code(c)
}

/// A sum that is not 0, alone; nothing for one that is.
pub open spec fn left_in(t: TallyV, c: Currency) -> Seq<Seq<char>> {
    if in_currency(t, c).magnitude == 0 {
        Seq::empty()
    } else {
        seq![sum_text(in_currency(t, c), c)]
    }
}

/// The sums that are not 0, in words.
pub open spec fn left(t: TallyV) -> Seq<Seq<char>> {
    left_in(t, Currency::JPY) + left_in(t, Currency::TWD) + left_in(t, Currency::USD)
}

/// Are all the sums 0?
pub open spec fn is_level(t: TallyV) -> bool {
    t.jpy.magnitude == 0 && t.twd.magnitude == 0 && t.usd.magnitude == 0
}

/// The first currency whose sum is not 0.
pub open spec fn first_left(t: TallyV) -> Option<Currency> {
    if t.jpy.magnitude != 0 {
        Some(Currency::JPY)
    } else if t.twd.magnitude != 0 {
        Some(Currency::TWD)
    } else if t.usd.magnitude != 0 {
        Some(Currency::USD)
    } else {
        None
    }
}

impl Tally {
    pub fn new() -> (r: Tally)
        ensures
            r@ == nothing(),
    {
        Tally { jpy: Amount::zero(), twd: Amount::zero(), usd: Amount::zero() }
    }

    /// The amount in a currency.
    pub fn of(&self, c: Currency) -> (r: Amount)
        ensures
            r@ == in_currency(self@, c),
    {
        match c {
            Currency::JPY => self.jpy,
            Currency::TWD => self.twd,
            Currency::USD => self.usd,
        }
    }

    /// Adds an amount, if the sum is within range.
    pub fn add_amount(&mut self, c: Currency, a: &Amount) -> (r: bool)
        ensures
            match added(old(self)@, c, a@) {
                Some(t) => r && final(self)@ == t,
                None => !r && final(self)@ == old(self)@,
            },
    {
        match self.of(c).plus(a) {
            None => false,
            Some(s) => {
                match c {
                    Currency::JPY => {
                        self.jpy = s;
                    },
                    Currency::TWD => {
                        self.twd = s;
                    },
                    Currency::USD => {
                        self.usd = s;
                    },
                }
                true
            },
        }
    }

    fn list(&self, c: Currency, out: &mut Vec<String>)
        ensures
            text::texts(final(out)@) == text::texts(old(out)@) + left_in(self@, c),
    {
        let ghost before = out@;
        if !self.of(c).is_zero() {
            let mut one = self.of(c).text();
            one.append(" ");
            one.append(c.text().as_str());
            out.push(one);
        }
        assert(text::texts(out@) =~= text::texts(before) + left_in(self@, c));
    }

    /// The sums that are not 0, in words.
    pub fn left(&self) -> (r: Vec<String>)
        ensures
            text::texts(r@) == left(self@),
            (r@.len() == 0) == is_level(self@),
    {
        let mut out: Vec<String> = Vec::new();
        assert(text::texts(out@) =~= Seq::empty());
        self.list(Currency::JPY, &mut out);
        self.list(Currency::TWD, &mut out);
        self.list(Currency::USD, &mut out);
        assert(text::texts(out@) =~= left(self@));
        assert(text::texts(out@).len() == out@.len());
        out
    }

    /// The first currency whose sum is not 0.
    pub fn first_left(&self) -> (r: Option<Currency>)
        ensures
            r == first_left(self@),
    {
        if !self.jpy.is_zero() {
            Some(Currency::JPY)
        } else if !self.twd.is_zero() {
            Some(Currency::TWD)
        } else if !self.usd.is_zero() {
            Some(Currency::USD)
        } else {
            None
        }
    }
}

/// Sums out of range stay so.
pub proof fn out_of_range_stays(legs: Seq<(Dec, Currency)>, n: int)
    requires
        0 <= n <= legs.len(),
        tally(legs.take(n)) is None,
    ensures
        tally(legs) is None,
    decreases legs.len() - n,
{
    if n < legs.len() {
        assert(legs.take(n + 1).drop_last() =~= legs.take(n));
        out_of_range_stays(legs, n + 1);
    } else {
        assert(legs.take(n) =~= legs);
    }
}

/// The amounts in one currency.
pub open spec fn amounts_in(legs: Seq<(Dec, Currency)>, c: Currency) -> Seq<Dec>
    decreases legs.len(),
{
    if legs.len() == 0 {
        Seq::empty()
    } else {
        let rest = amounts_in(legs.drop_last(), c);
        if legs.last().1 == c {
            rest.push(legs.last().0)
        } else {
            rest
        }
    }
}

/// The sum in a currency is the total of the amounts in it.
pub proof fn sums_are_totals(legs: Seq<(Dec, Currency)>, c: Currency)
    requires
        tally(legs) is Some,
    ensures
        amount::total(amounts_in(legs, c)) == Some(in_currency(tally(legs)->0, c)),
    decreases legs.len(),
{
    if legs.len() > 0 {
        let shorter = legs.drop_last();
        sums_are_totals(shorter, c);
        let rest = amounts_in(shorter, c);
        assert(rest.push(legs.last().0).drop_last() =~= rest);
    }
}

} // verus!
