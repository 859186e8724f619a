//! Amounts of money: decimals with the sign, the 96-bit digits and the scale
//! that `rust_decimal::Decimal` keeps, so that sums round and print as its do.

use vstd::prelude::*;

use crate::text;

verus! {

/// What an amount is: `magnitude` with `scale` of its digits after the point.
/// A zero has a sign and a scale like any other.
pub struct Dec {
    pub negative: bool,
    pub magnitude: u128,
    pub scale: u32,
}

pub open spec fn pow10(n: nat) -> int
    decreases n,
{
    if n == 0 {
        1
    } else {
        10 * pow10((n - 1) as nat)
    }
}

/// One more than the largest magnitude a decimal holds.
pub open spec fn limit() -> int {
    0x1_0000_0000_0000_0000_0000_0000
}

/// Is `d` a decimal?
pub open spec fn valid(d: Dec) -> bool {
    d.magnitude < limit() && d.scale <= 28
}

pub open spec fn signed(d: Dec) -> int {
    if d.negative {
        -(d.magnitude as int)
    } else {
        d.magnitude as int
    }
}

/// The value of `d`, in units of the smallest scale.
pub open spec fn worth(d: Dec) -> int {
    signed(d) * pow10((28 - d.scale) as nat)
}

/// Is a value of `w` smallest units within what a decimal can be?
pub open spec fn in_range(w: int) -> bool {
    -(limit() - 1) * pow10(28) <= w <= (limit() - 1) * pow10(28)
}

/// Are the two values no more than one apart?
pub open spec fn near(w: int, v: int) -> bool {
    -pow10(28) <= w - v <= pow10(28)
}

pub open spec fn zero() -> Dec {
    Dec { negative: false, magnitude: 0, scale: 0 }
}

/// `d` with its sign turned, a zero's too.
pub open spec fn negated(d: Dec) -> Dec {
    Dec { negative: !d.negative, ..d }
}

pub open spec fn of_parts(p: (bool, u128, u32)) -> Dec {
    Dec { negative: p.0, magnitude: p.1, scale: p.2 }
}

pub open spec fn of_option(p: Option<(bool, u128, u32)>) -> Option<Dec> {
    match p {
        Some(p) => Some(of_parts(p)),
        None => None,
    }
}

/// The scale two decimals are brought to before they are added.
pub open spec fn common_scale(a: Dec, b: Dec) -> nat {
    if a.scale >= b.scale {
        a.scale as nat
    } else {
        b.scale as nat
    }
}

/// `d` in units of `scale`.
pub open spec fn at_scale(d: Dec, scale: nat) -> int {
    signed(d) * pow10((scale - d.scale) as nat)
}

/// Do `a`, `b` and a total of `w` units fit in a decimal of their common
/// scale, so that nothing is rounded?
pub open spec fn fits(a: Dec, b: Dec, w: int) -> bool {
    let s = common_scale(a, b);
    &&& -limit() < at_scale(a, s) < limit()
    &&& -limit() < at_scale(b, s) < limit()
    &&& -limit() < w < limit()
}

/// Is `a + b` a decimal of their common scale?
pub open spec fn sum_fits(a: Dec, b: Dec) -> bool {
    fits(a, b, at_scale(a, common_scale(a, b)) + at_scale(b, common_scale(a, b)))
}

/// Is `a - b` a decimal of their common scale?
pub open spec fn difference_fits(a: Dec, b: Dec) -> bool {
    fits(a, b, at_scale(a, common_scale(a, b)) - at_scale(b, common_scale(a, b)))
}

/// A decimal of `units` of its last digit; a zero has no sign.
pub open spec fn of_units(units: int, scale: nat) -> Dec {
    Dec {
        negative: units < 0,
        magnitude: (if units < 0 {
            -units
        } else {
            units
        }) as u128,
        scale: scale as u32,
    }
}

/// `a + b` where nothing is rounded: a zero leaves the other as it is, and
/// other decimals are added in their common scale.
pub open spec fn plain_sum(a: Dec, b: Dec) -> Option<Dec> {
    let s = common_scale(a, b);
    if a.magnitude == 0 {
        Some(b)
    } else if b.magnitude == 0 {
        Some(a)
    } else if sum_fits(a, b) {
        Some(of_units(at_scale(a, s) + at_scale(b, s), s))
    } else {
        None
    }
}

/// `a - b` where nothing is rounded: to take a zero away changes nothing, to
/// take from a zero turns the sign, and other decimals are subtracted in their
/// common scale.
pub open spec fn plain_difference(a: Dec, b: Dec) -> Option<Dec> {
    let s = common_scale(a, b);
    if a.magnitude == 0 {
        Some(
            if b.magnitude == 0 {
                b
            } else {
                negated(b)
            },
        )
    } else if b.magnitude == 0 {
        Some(a)
    } else if difference_fits(a, b) {
        Some(of_units(at_scale(a, s) - at_scale(b, s), s))
    } else {
        None
    }
}

/// What `Decimal::checked_add` gives for the two decimals.
pub uninterp spec fn decimal_sum(
    a_negative: bool,
    a_magnitude: u128,
    a_scale: u32,
    b_negative: bool,
    b_magnitude: u128,
    b_scale: u32,
) -> Option<(bool, u128, u32)>;

/// What `Decimal::checked_sub` gives for the two decimals.
pub uninterp spec fn decimal_difference(
    a_negative: bool,
    a_magnitude: u128,
    a_scale: u32,
    b_negative: bool,
    b_magnitude: u128,
    b_scale: u32,
) -> Option<(bool, u128, u32)>;

/// What `Decimal::checked_mul` gives for the two decimals.
pub uninterp spec fn decimal_product(
    a_negative: bool,
    a_magnitude: u128,
    a_scale: u32,
    b_negative: bool,
    b_magnitude: u128,
    b_scale: u32,
) -> Option<(bool, u128, u32)>;

/// What `Decimal::checked_div` gives for the two decimals.
pub uninterp spec fn decimal_quotient(
    a_negative: bool,
    a_magnitude: u128,
    a_scale: u32,
    b_negative: bool,
    b_magnitude: u128,
    b_scale: u32,
) -> Option<(bool, u128, u32)>;

/// What `<Decimal as FromStr>::from_str` reads out of a text.
pub uninterp spec fn parsed_decimal(s: Seq<char>) -> Option<(bool, u128, u32)>;

/// `a + b`; `None` where the total is out of range.
pub open spec fn sum(a: Dec, b: Dec) -> Option<Dec> {
    of_option(
        decimal_sum(a.negative, a.magnitude, a.scale, b.negative, b.magnitude, b.scale),
    )
}

/// `a - b`; `None` where the difference is out of range.
pub open spec fn difference(a: Dec, b: Dec) -> Option<Dec> {
    of_option(
        decimal_difference(a.negative, a.magnitude, a.scale, b.negative, b.magnitude, b.scale),
    )
}

/// `a * b`; `None` where the product is out of range.
pub open spec fn product(a: Dec, b: Dec) -> Option<Dec> {
    of_option(
        decimal_product(a.negative, a.magnitude, a.scale, b.negative, b.magnitude, b.scale),
    )
}

/// `a / b`; `None` where `b` is 0 or the quotient is out of range.
pub open spec fn quotient(a: Dec, b: Dec) -> Option<Dec> {
    of_option(
        decimal_quotient(a.negative, a.magnitude, a.scale, b.negative, b.magnitude, b.scale),
    )
}

pub open spec fn one() -> Dec {
    Dec { negative: false, magnitude: 1, scale: 0 }
}

/// The total of the amounts, added one after another to 0.
pub open spec fn total(amounts: Seq<Dec>) -> Option<Dec>
    decreases amounts.len(),
{
    if amounts.len() == 0 {
        Some(zero())
    } else {
        match total(amounts.drop_last()) {
            Some(t) => sum(t, amounts.last()),
            None => None,
        }
    }
}

/// A total out of range stays so.
pub proof fn total_stays_out(amounts: Seq<Dec>, n: int)
    requires
        0 <= n <= amounts.len(),
        total(amounts.take(n)) is None,
    ensures
        total(amounts) is None,
    decreases amounts.len() - n,
{
    if n < amounts.len() {
        assert(amounts.take(n + 1).drop_last() =~= amounts.take(n));
        total_stays_out(amounts, n + 1);
    } else {
        assert(amounts.take(n) =~= amounts);
    }
}

/// `d` without its trailing zeros; a zero without its sign too.
pub open spec fn normal(d: Dec) -> Dec
    decreases d.scale,
{
    if d.magnitude == 0 {
        zero()
    } else if d.scale > 0 && d.magnitude % 10 == 0 {
        normal(Dec { magnitude: (d.magnitude / 10) as u128, scale: (d.scale - 1) as u32, ..d })
    } else {
        d
    }
}

/// The decimal a text spells.
pub open spec fn spelled(s: Seq<char>) -> Option<Dec> {
    of_option(parsed_decimal(s))
}

/// Are `a` and `b` the same value, whatever their scales?
pub open spec fn equal(a: Dec, b: Dec) -> bool {
    worth(a) == worth(b)
}

/// `n` in `width` digits.
pub open spec fn padded(n: nat, width: nat) -> Seq<char>
    decreases width,
{
    if width == 0 {
        Seq::empty()
    } else {
        padded(n / 10, (width - 1) as nat).push(text::digit_of((n % 10) as int))
    }
}

/// How a decimal prints: its sign, the digits before the point and, where the
/// scale is not 0, the point and that many digits.
pub open spec fn printed(d: Dec) -> Seq<char> {
    let one = pow10(d.scale as nat);
    (if d.negative {
        seq!['-']
    } else {
        seq![]
    }) + text::digits((d.magnitude as int / one) as nat) + (if d.scale == 0 {
        seq![]
    } else {
        seq!['.'] + padded((d.magnitude as int % one) as nat, d.scale as nat)
    })
}

/// What a decimal reads back as once it is printed: itself, but a zero has
/// lost its sign.
pub open spec fn reread(d: Dec) -> Dec {
    Dec { negative: d.negative && d.magnitude != 0, ..d }
}

/// `Decimal::checked_add`, on the parts of two decimals. Nothing is rounded
/// where one is zero or the total fits their common scale, and a total within
/// the range of a decimal is always given, rounded by no more than one; how one
/// that does not fit is rounded is left to `decimal_sum`.
#[verifier::external_body]
fn checked_add(
    an: bool,
    am: u128,
    ascale: u32,
    bn: bool,
    bm: u128,
    bscale: u32,
) -> (r: Option<(bool, u128, u32)>)
    requires
        valid(of_parts((an, am, ascale))),
        valid(of_parts((bn, bm, bscale))),
    ensures
        r == decimal_sum(an, am, ascale, bn, bm, bscale),
        r matches Some(p) ==> valid(of_parts(p)),
        in_range(worth(of_parts((an, am, ascale))) + worth(of_parts((bn, bm, bscale))))
            ==> r is Some,
        r matches Some(p) ==> near(
            worth(of_parts(p)),
            worth(of_parts((an, am, ascale))) + worth(of_parts((bn, bm, bscale))),
        ),
        sum_fits(of_parts((an, am, ascale)), of_parts((bn, bm, bscale))) ==> r is Some && worth(
            of_parts(r->0),
        ) == worth(of_parts((an, am, ascale))) + worth(of_parts((bn, bm, bscale))),
        plain_sum(of_parts((an, am, ascale)), of_parts((bn, bm, bscale))) matches Some(d)
            ==> of_option(r) == Some(d),
{
    let mut a = rust_decimal::Decimal::from_i128_with_scale(am as i128, ascale);
    a.set_sign_negative(an);
    let mut b = rust_decimal::Decimal::from_i128_with_scale(bm as i128, bscale);
    b.set_sign_negative(bn);
    a.checked_add(b).map(|d| (d.is_sign_negative(), d.mantissa().unsigned_abs(), d.scale()))
}

/// `Decimal::checked_sub`, on the parts of two decimals. Nothing is rounded
/// where one is zero or the difference fits their common scale, and a
/// difference within the range of a decimal is always given, rounded by no more
/// than one; how one that does not fit is rounded is left to
/// `decimal_difference`.
#[verifier::external_body]
fn checked_sub(
    an: bool,
    am: u128,
    ascale: u32,
    bn: bool,
    bm: u128,
    bscale: u32,
) -> (r: Option<(bool, u128, u32)>)
    requires
        valid(of_parts((an, am, ascale))),
        valid(of_parts((bn, bm, bscale))),
    ensures
        r == decimal_difference(an, am, ascale, bn, bm, bscale),
        r matches Some(p) ==> valid(of_parts(p)),
        in_range(worth(of_parts((an, am, ascale))) - worth(of_parts((bn, bm, bscale))))
            ==> r is Some,
        r matches Some(p) ==> near(
            worth(of_parts(p)),
            worth(of_parts((an, am, ascale))) - worth(of_parts((bn, bm, bscale))),
        ),
        difference_fits(of_parts((an, am, ascale)), of_parts((bn, bm, bscale))) ==> r is Some && worth(
            of_parts(r->0),
        ) == worth(of_parts((an, am, ascale))) - worth(of_parts((bn, bm, bscale))),
        plain_difference(of_parts((an, am, ascale)), of_parts((bn, bm, bscale))) matches Some(d)
            ==> of_option(r) == Some(d),
{
    let mut a = rust_decimal::Decimal::from_i128_with_scale(am as i128, ascale);
    a.set_sign_negative(an);
    let mut b = rust_decimal::Decimal::from_i128_with_scale(bm as i128, bscale);
    b.set_sign_negative(bn);
    a.checked_sub(b).map(|d| (d.is_sign_negative(), d.mantissa().unsigned_abs(), d.scale()))
}

/// `Decimal::checked_div`, on the parts of two decimals. A division by 0 gives
/// nothing; which digits a long quotient keeps is left to `decimal_quotient`.
#[verifier::external_body]
fn checked_div(
    an: bool,
    am: u128,
    ascale: u32,
    bn: bool,
    bm: u128,
    bscale: u32,
) -> (r: Option<(bool, u128, u32)>)
    requires
        valid(of_parts((an, am, ascale))),
        valid(of_parts((bn, bm, bscale))),
    ensures
        r == decimal_quotient(an, am, ascale, bn, bm, bscale),
        r matches Some(p) ==> valid(of_parts(p)),
        bm == 0 ==> r is None,
{
    let mut a = rust_decimal::Decimal::from_i128_with_scale(am as i128, ascale);
    a.set_sign_negative(an);
    let mut b = rust_decimal::Decimal::from_i128_with_scale(bm as i128, bscale);
    b.set_sign_negative(bn);
    a.checked_div(b).map(|d| (d.is_sign_negative(), d.mantissa().unsigned_abs(), d.scale()))
}

/// `Decimal::checked_mul`, on the parts of two decimals. Which digits a long
/// product keeps is left to `decimal_product`.
#[verifier::external_body]
fn checked_mul(
    an: bool,
    am: u128,
    ascale: u32,
    bn: bool,
    bm: u128,
    bscale: u32,
) -> (r: Option<(bool, u128, u32)>)
    requires
        valid(of_parts((an, am, ascale))),
        valid(of_parts((bn, bm, bscale))),
    ensures
        r == decimal_product(an, am, ascale, bn, bm, bscale),
        r matches Some(p) ==> valid(of_parts(p)),
{
    let mut a = rust_decimal::Decimal::from_i128_with_scale(am as i128, ascale);
    a.set_sign_negative(an);
    let mut b = rust_decimal::Decimal::from_i128_with_scale(bm as i128, bscale);
    b.set_sign_negative(bn);
    a.checked_mul(b).map(|d| (d.is_sign_negative(), d.mantissa().unsigned_abs(), d.scale()))
}

/// `<Decimal as PartialEq>::eq`: the values are compared, not the scales.
#[verifier::external_body]
fn decimal_eq(an: bool, am: u128, ascale: u32, bn: bool, bm: u128, bscale: u32) -> (r: bool)
    requires
        valid(of_parts((an, am, ascale))),
        valid(of_parts((bn, bm, bscale))),
    ensures
        r == equal(of_parts((an, am, ascale)), of_parts((bn, bm, bscale))),
{
    let mut a = rust_decimal::Decimal::from_i128_with_scale(am as i128, ascale);
    a.set_sign_negative(an);
    let mut b = rust_decimal::Decimal::from_i128_with_scale(bm as i128, bscale);
    b.set_sign_negative(bn);
    a == b
}

/// `<Decimal as PartialOrd>::lt`: the values are compared, not the scales.
#[verifier::external_body]
fn decimal_lt(an: bool, am: u128, ascale: u32, bn: bool, bm: u128, bscale: u32) -> (r: bool)
    requires
        valid(of_parts((an, am, ascale))),
        valid(of_parts((bn, bm, bscale))),
    ensures
        r == (worth(of_parts((an, am, ascale))) < worth(of_parts((bn, bm, bscale)))),
{
    let mut a = rust_decimal::Decimal::from_i128_with_scale(am as i128, ascale);
    a.set_sign_negative(an);
    let mut b = rust_decimal::Decimal::from_i128_with_scale(bm as i128, bscale);
    b.set_sign_negative(bn);
    a < b
}

/// `<Decimal as FromStr>::from_str`: it reads what a decimal prints as. Which
/// other texts spell a decimal is left to `parsed_decimal`.
#[verifier::external_body]
fn decimal_from_str(s: &str) -> (r: Option<(bool, u128, u32)>)
    ensures
        r == parsed_decimal(s@),
        r matches Some(p) ==> valid(of_parts(p)),
        forall|d: Dec|
            valid(d) && s@ == #[trigger] printed(d) ==> of_option(r) == Some(reread(d)),
{
    let read: Result<rust_decimal::Decimal, rust_decimal::Error> = s.parse();
    read.ok().map(|d| (d.is_sign_negative(), d.mantissa().unsigned_abs(), d.scale()))
}

/// `<Decimal as Display>::fmt`, through `to_string`: the sign, the digits
/// before the point and the `scale` digits after it.
#[verifier::external_body]
fn decimal_to_string(negative: bool, magnitude: u128, scale: u32) -> (r: String)
    requires
        valid(of_parts((negative, magnitude, scale))),
    ensures
        r@ == printed(of_parts((negative, magnitude, scale))),
{
    let mut d = rust_decimal::Decimal::from_i128_with_scale(magnitude as i128, scale);
    d.set_sign_negative(negative);
    d.to_string()
}

/// An amount of money.
#[derive(Clone, Copy, Debug)]
pub struct Amount {
    negative: bool,
    magnitude: u128,
    scale: u32,
}

impl View for Amount {
    type V = Dec;

    closed spec fn view(&self) -> Dec {
        Dec { negative: self.negative, magnitude: self.magnitude, scale: self.scale }
    }
}

/// The amount of an option, as a decimal.
pub open spec fn opt(a: Option<Amount>) -> Option<Dec> {
    match a {
        Some(a) => Some(a@),
        None => None,
    }
}

impl Amount {
    #[verifier::type_invariant]
    spec fn within_decimal(self) -> bool {
        valid(self@)
    }

    pub fn zero() -> (r: Amount)
        ensures
            r@ == zero(),
    {
        Amount { negative: false, magnitude: 0, scale: 0 }
    }

    /// The decimal with these parts, if a decimal has room for them.
    pub fn from_parts(negative: bool, magnitude: u128, scale: u32) -> (r: Option<Amount>)
        ensures
            opt(r) == (if valid(of_parts((negative, magnitude, scale))) {
                Some(of_parts((negative, magnitude, scale)))
            } else {
                None
            }),
    {
        if magnitude < 0x1_0000_0000_0000_0000_0000_0000 && scale <= 28 {
            Some(Amount { negative, magnitude, scale })
        } else {
            None
        }
    }

    /// The sign, the magnitude and the scale.
    pub fn parts(&self) -> (r: (bool, u128, u32))
        ensures
            of_parts(r) == self@,
            valid(self@),
    {
        proof {
            use_type_invariant(self);
        }
        (self.negative, self.magnitude, self.scale)
    }

    /// Reads a decimal.
    pub fn parse(s: &str) -> (r: Option<Amount>)
        ensures
            opt(r) == spelled(s@),
            forall|d: Dec|
                valid(d) && s@ == #[trigger] printed(d) ==> opt(r) == Some(reread(d)),
    {
        match decimal_from_str(s) {
            Some((negative, magnitude, scale)) => Some(Amount { negative, magnitude, scale }),
            None => None,
        }
    }

    /// Prints the decimal, with the digits of its scale.
    pub fn text(&self) -> (r: String)
        ensures
            r@ == printed(self@),
    {
        proof {
            use_type_invariant(self);
        }
        decimal_to_string(self.negative, self.magnitude, self.scale)
    }

    pub fn is_zero(&self) -> (r: bool)
        ensures
            r == (self@.magnitude == 0),
    {
        self.magnitude == 0
    }

    pub fn is_sign_negative(&self) -> (r: bool)
        ensures
            r == self@.negative,
    {
        self.negative
    }

    /// The amount with its sign turned.
    pub fn negated(&self) -> (r: Amount)
        ensures
            r@ == negated(self@),
    {
        proof {
            use_type_invariant(self);
        }
        Amount { negative: !self.negative, magnitude: self.magnitude, scale: self.scale }
    }

    /// Are the two the same value?
    pub fn equals(&self, other: &Amount) -> (r: bool)
        ensures
            r == equal(self@, other@),
    {
        proof {
            use_type_invariant(self);
            use_type_invariant(other);
        }
        decimal_eq(
            self.negative,
            self.magnitude,
            self.scale,
            other.negative,
            other.magnitude,
            other.scale,
        )
    }

    /// Is this the lesser value?
    pub fn less(&self, other: &Amount) -> (r: bool)
        ensures
            r == (worth(self@) < worth(other@)),
    {
        proof {
            use_type_invariant(self);
            use_type_invariant(other);
        }
        decimal_lt(
            self.negative,
            self.magnitude,
            self.scale,
            other.negative,
            other.magnitude,
            other.scale,
        )
    }

    /// The total, if it is within range.
    pub fn plus(&self, other: &Amount) -> (r: Option<Amount>)
        ensures
            opt(r) == sum(self@, other@),
            in_range(worth(self@) + worth(other@)) ==> r is Some,
            r matches Some(v) ==> near(worth(v@), worth(self@) + worth(other@)),
            sum_fits(self@, other@) ==> r is Some && worth(r->0@) == worth(self@) + worth(other@),
            plain_sum(self@, other@) matches Some(d) ==> opt(r) == Some(d),
    {
        proof {
            use_type_invariant(self);
            use_type_invariant(other);
        }
        match checked_add(
            self.negative,
            self.magnitude,
            self.scale,
            other.negative,
            other.magnitude,
            other.scale,
        ) {
            Some((negative, magnitude, scale)) => Some(Amount { negative, magnitude, scale }),
            None => None,
        }
    }

    /// The difference, if it is within range.
    pub fn minus(&self, other: &Amount) -> (r: Option<Amount>)
        ensures
            opt(r) == difference(self@, other@),
            in_range(worth(self@) - worth(other@)) ==> r is Some,
            r matches Some(v) ==> near(worth(v@), worth(self@) - worth(other@)),
            difference_fits(self@, other@) ==> r is Some && worth(r->0@) == worth(self@) - worth(other@),
            plain_difference(self@, other@) matches Some(d) ==> opt(r) == Some(d),
    {
        proof {
            use_type_invariant(self);
            use_type_invariant(other);
        }
        match checked_sub(
            self.negative,
            self.magnitude,
            self.scale,
            other.negative,
            other.magnitude,
            other.scale,
        ) {
            Some((negative, magnitude, scale)) => Some(Amount { negative, magnitude, scale }),
            None => None,
        }
    }

    /// The product, if it is within range.
    pub fn times(&self, other: &Amount) -> (r: Option<Amount>)
        ensures
            opt(r) == product(self@, other@),
    {
        proof {
            use_type_invariant(self);
            use_type_invariant(other);
        }
        match checked_mul(
            self.negative,
            self.magnitude,
            self.scale,
            other.negative,
            other.magnitude,
            other.scale,
        ) {
            Some((negative, magnitude, scale)) => Some(Amount { negative, magnitude, scale }),
            None => None,
        }
    }
}

impl Amount {
    pub fn one() -> (r: Amount)
        ensures
            r@ == one(),
    {
        Amount { negative: false, magnitude: 1, scale: 0 }
    }

    /// The quotient, if there is one within range.
    pub fn over(&self, other: &Amount) -> (r: Option<Amount>)
        ensures
            opt(r) == quotient(self@, other@),
            other@.magnitude == 0 ==> r is None,
    {
        proof {
            use_type_invariant(self);
            use_type_invariant(other);
        }
        match checked_div(
            self.negative,
            self.magnitude,
            self.scale,
            other.negative,
            other.magnitude,
            other.scale,
        ) {
            Some((negative, magnitude, scale)) => Some(Amount { negative, magnitude, scale }),
            None => None,
        }
    }

    /// The amount without its trailing zeros.
    pub fn normalized(&self) -> (r: Amount)
        ensures
            r@ == normal(self@),
    {
        proof {
            use_type_invariant(self);
        }
        if self.magnitude == 0 {
            return Amount::zero();
        }
        let mut magnitude = self.magnitude;
        let mut scale = self.scale;
        while scale > 0 && magnitude % 10 == 0
            invariant
                0 < magnitude < limit(),
                scale <= 28,
                normal(Dec { negative: self.negative, magnitude, scale }) == normal(self@),
            decreases scale,
        {
            magnitude = magnitude / 10;
            scale = scale - 1;
        }
        Amount { negative: self.negative, magnitude, scale }
    }
}

impl PartialEq for Amount {
    fn eq(&self, other: &Amount) -> (r: bool) {
        self.equals(other)
    }
}

impl vstd::std_specs::cmp::PartialEqSpecImpl for Amount {
    open spec fn obeys_eq_spec() -> bool {
        true
    }

    open spec fn eq_spec(&self, other: &Amount) -> bool {
        equal(self@, other@)
    }
}

/// Turning a sign twice changes nothing.
pub proof fn negated_twice(d: Dec)
    ensures
        negated(negated(d)) == d,
{
}

/// An amount is worth as much when it is read back.
pub proof fn reread_worth(d: Dec)
    ensures
        equal(reread(d), d),
{
}

/// An amount is worth minus what it is with its sign turned.
pub proof fn negated_worth(d: Dec)
    ensures
        worth(negated(d)) == -worth(d),
{
    assert(-signed(d) * pow10((28 - d.scale) as nat) == -(signed(d) * pow10((28 - d.scale) as nat)))
        by (nonlinear_arith);
}

/// Trailing zeros are worth nothing.
pub proof fn normal_worth(d: Dec)
    requires
        d.scale <= 28,
    ensures
        equal(normal(d), d),
    decreases d.scale,
{
    let rest = pow10((28 - d.scale) as nat);
    if d.magnitude == 0 {
        assert(0 * rest == 0 && 0 * pow10(28) == 0);
    } else if d.scale > 0 && d.magnitude % 10 == 0 {
        let shorter = Dec {
            magnitude: (d.magnitude / 10) as u128,
            scale: (d.scale - 1) as u32,
            ..d
        };
        normal_worth(shorter);
        assert(pow10((28 - shorter.scale) as nat) == 10 * rest);
        assert(signed(d) == 10 * signed(shorter));
        assert(signed(shorter) * (10 * rest) == (10 * signed(shorter)) * rest) by (nonlinear_arith);
    }
}

/// What the amounts are worth together.
pub open spec fn worths(amounts: Seq<Dec>) -> int
    decreases amounts.len(),
{
    if amounts.len() == 0 {
        0
    } else {
        worths(amounts.drop_last()) + worth(amounts.last())
    }
}

/// Is nothing rounded where `b` is added to `a`?
pub open spec fn adds_exactly(a: Dec, b: Dec) -> bool {
    sum(a, b) matches Some(s) ==> worth(s) == worth(a) + worth(b)
}

/// Is nothing rounded where `b` is taken from `a`?
pub open spec fn takes_exactly(a: Dec, b: Dec) -> bool {
    difference(a, b) matches Some(s) ==> worth(s) == worth(a) - worth(b)
}

/// Is nothing rounded as the amounts are added one after another to 0?
pub open spec fn totals_exactly(amounts: Seq<Dec>) -> bool {
    forall|n: int|
        0 <= n < amounts.len() ==> (#[trigger] total(amounts.take(n)) matches Some(t)
            ==> adds_exactly(t, amounts[n]))
}

/// What is left of 0 once the amounts are taken from it one after another.
pub open spec fn taken(amounts: Seq<Dec>) -> Option<Dec>
    decreases amounts.len(),
{
    if amounts.len() == 0 {
        Some(zero())
    } else {
        match taken(amounts.drop_last()) {
            Some(t) => difference(t, amounts.last()),
            None => None,
        }
    }
}

/// Is nothing rounded as the amounts are taken one after another from 0?
pub open spec fn taken_exactly(amounts: Seq<Dec>) -> bool {
    forall|n: int|
        0 <= n < amounts.len() ==> (#[trigger] taken(amounts.take(n)) matches Some(t)
            ==> takes_exactly(t, amounts[n]))
}

/// A zero is worth nothing.
pub proof fn zero_worth(d: Dec)
    requires
        d.magnitude == 0,
    ensures
        worth(d) == 0,
{
    assert(0 * pow10((28 - d.scale) as nat) == 0);
}

/// Where nothing is rounded, a total is worth what its amounts are worth.
pub proof fn an_exact_total(amounts: Seq<Dec>)
    requires
        total(amounts) is Some,
        totals_exactly(amounts),
    ensures
        worth(total(amounts)->0) == worths(amounts),
    decreases amounts.len(),
{
    if amounts.len() == 0 {
        zero_worth(zero());
    } else {
        let n = amounts.len() - 1;
        let shorter = amounts.drop_last();
        assert(amounts.take(n) =~= shorter);
        assert forall|k: int| 0 <= k < shorter.len() implies (#[trigger] total(
            shorter.take(k),
        ) matches Some(t) ==> adds_exactly(t, shorter[k])) by {
            assert(amounts.take(k) =~= shorter.take(k));
            assert(total(amounts.take(k)) == total(shorter.take(k)));
        }
        an_exact_total(shorter);
        assert(total(amounts.take(n)) == total(shorter));
    }
}

/// Where nothing is rounded, what is left of 0 is worth minus what the amounts
/// taken are worth.
pub proof fn an_exact_remainder(amounts: Seq<Dec>)
    requires
        taken(amounts) is Some,
        taken_exactly(amounts),
    ensures
        worth(taken(amounts)->0) == -worths(amounts),
    decreases amounts.len(),
{
    if amounts.len() == 0 {
        zero_worth(zero());
    } else {
        let n = amounts.len() - 1;
        let shorter = amounts.drop_last();
        assert(amounts.take(n) =~= shorter);
        assert forall|k: int| 0 <= k < shorter.len() implies (#[trigger] taken(
            shorter.take(k),
        ) matches Some(t) ==> takes_exactly(t, shorter[k])) by {
            assert(amounts.take(k) =~= shorter.take(k));
            assert(taken(amounts.take(k)) == taken(shorter.take(k)));
        }
        an_exact_remainder(shorter);
        assert(taken(amounts.take(n)) == taken(shorter));
    }
}

/// Amounts in two parts are worth what the parts are worth.
pub proof fn worths_in_two(a: Seq<Dec>, b: Seq<Dec>)
    ensures
        worths(a + b) == worths(a) + worths(b),
    decreases b.len(),
{
    if b.len() == 0 {
        assert(a + b =~= a);
    } else {
        worths_in_two(a, b.drop_last());
        assert((a + b).drop_last() =~= a + b.drop_last());
    }
}

/// Amounts worth the same one by one are worth the same together.
pub proof fn worths_alike(a: Seq<Dec>, b: Seq<Dec>)
    requires
        a.len() == b.len(),
        forall|i: int| 0 <= i < a.len() ==> worth(#[trigger] a[i]) == worth(b[i]),
    ensures
        worths(a) == worths(b),
    decreases a.len(),
{
    if a.len() > 0 {
        assert(worth(a[a.len() - 1]) == worth(b[a.len() - 1]));
        assert forall|i: int| 0 <= i < a.drop_last().len() implies worth(
            #[trigger] a.drop_last()[i],
        ) == worth(b.drop_last()[i]) by {
            assert(worth(a[i]) == worth(b[i]));
        }
        worths_alike(a.drop_last(), b.drop_last());
    }
}

proof fn pow10_is_positive(n: nat)
    ensures
        pow10(n) > 0,
    decreases n,
{
    if n > 0 {
        pow10_is_positive((n - 1) as nat);
    }
}

/// What is not a zero is worth something.
pub proof fn worth_of_some(d: Dec)
    requires
        d.magnitude != 0,
        d.scale <= 28,
    ensures
        worth(d) != 0,
{
    pow10_is_positive((28 - d.scale) as nat);
    let (a, b) = (signed(d), pow10((28 - d.scale) as nat));
    assert(a != 0 && b > 0 ==> a * b != 0) by (nonlinear_arith);
}

} // verus!
