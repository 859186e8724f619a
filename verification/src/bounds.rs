//! Whether the value of a few amounts put together stays within what a
//! decimal can be, found without rounding.

use vstd::prelude::*;

use crate::amount;
use crate::amount::Amount;

verus! {

/// The smallest units in one.
const ONE: i128 = 10_000_000_000_000_000_000_000_000_000;

/// The largest magnitude a decimal holds.
const MOST: i128 = 0xFFFF_FFFF_FFFF_FFFF_FFFF_FFFF;

proof fn one_is_a_power()
    ensures
        amount::pow10(28) == ONE,
{
    reveal_with_fuel(amount::pow10, 29);
}

proof fn powers_grow(m: nat, n: nat)
    requires
        m <= n,
    ensures
        1 <= amount::pow10(m) <= amount::pow10(n),
    decreases n,
{
    if n > 0 {
        if m == n {
            powers_grow((m - 1) as nat, (n - 1) as nat);
        } else {
            powers_grow(m, (n - 1) as nat);
        }
    }
}

proof fn powers_join(m: nat, n: nat)
    ensures
        amount::pow10(m) * amount::pow10(n) == amount::pow10(m + n),
    decreases m,
{
    if m == 0 {
        assert(1 * amount::pow10(n) == amount::pow10(n));
    } else {
        powers_join((m - 1) as nat, n);
        assert((m - 1) as nat + n == (m + n - 1) as nat);
        let p = amount::pow10((m - 1) as nat);
        let q = amount::pow10(n);
        assert((10 * p) * q == 10 * (p * q)) by (nonlinear_arith);
    }
}

fn power(n: u32) -> (r: u128)
    requires
        n <= 28,
    ensures
        r == amount::pow10(n as nat),
        1 <= r <= ONE,
{
    let mut out: u128 = 1;
    let mut i: u32 = 0;
    while i < n
        invariant
            i <= n <= 28,
            out == amount::pow10(i as nat),
        decreases n - i,
    {
        proof {
            one_is_a_power();
            powers_grow((i + 1) as nat, 28);
            assert((i + 1) as nat - 1 == i as nat);
        }
        out = out * 10;
        i = i + 1;
    }
    proof {
        one_is_a_power();
        powers_grow(n as nat, 28);
    }
    out
}

/// A value, as ones and the smallest units left over.
#[derive(Clone, Copy)]
struct Value {
    ones: i128,
    rest: i128,
}

impl Value {
    spec fn units(self) -> int {
        self.ones * amount::pow10(28) + self.rest
    }

    /// The value of an amount.
    fn of(a: &Amount) -> (r: Value)
        ensures
            r.units() == amount::worth(a@),
            -amount::limit() <= r.ones <= amount::limit(),
            -ONE <= r.rest <= ONE,
    {
        let (negative, magnitude, scale) = a.parts();
        let ghost d = a@;
        let below = power(scale);
        let above = power(28 - scale);
        let ones: u128 = magnitude / below;
        let over: u128 = magnitude % below;
        proof {
            one_is_a_power();
            powers_join(scale as nat, (28 - scale) as nat);
            let (b, u) = (below as int, above as int);
            let (m, q, o) = (magnitude as int, ones as int, over as int);
            assert(b * u == ONE);
            assert(m == q * b + o && 0 <= o < b && 0 <= q <= m) by (nonlinear_arith)
                requires
                    b >= 1,
                    m >= 0,
                    q == m / b,
                    o == m % b,
            ;
            assert(o * u <= ONE) by (nonlinear_arith)
                requires
                    0 <= o < b,
                    u >= 1,
                    b * u == ONE,
            ;
            assert(o * u >= 0) by (nonlinear_arith)
                requires
                    0 <= o,
                    u >= 1,
            ;
            assert(m * u == q * ONE + o * u) by (nonlinear_arith)
                requires
                    m == q * b + o,
                    b * u == ONE,
            ;
            assert(-m * u == -(m * u)) by (nonlinear_arith);
        }
        let rest: u128 = over * above;
        if negative {
            Value { ones: -(ones as i128), rest: -(rest as i128) }
        } else {
            Value { ones: ones as i128, rest: rest as i128 }
        }
    }
}

/// Is the value of `ones` and `rest` smallest units at most `most` ones, below
/// zero or above?
fn is_within(ones: i128, rest: i128, most: i128) -> (r: bool)
    requires
        -4 * amount::limit() <= ones <= 4 * amount::limit(),
        -3 * ONE <= rest <= 3 * ONE,
        0 <= most <= MOST,
    ensures
        r == (-most * amount::pow10(28) <= ones * amount::pow10(28) + rest <= most * amount::pow10(28)),
{
    proof {
        one_is_a_power();
    }
    let carry: i128 = if rest < -2 * ONE {
        -3
    } else if rest < -ONE {
        -2
    } else if rest < 0 {
        -1
    } else if rest < ONE {
        0
    } else if rest < 2 * ONE {
        1
    } else if rest < 3 * ONE {
        2
    } else {
        3
    };
    let whole: i128 = ones + carry;
    let left: i128 = rest - carry * ONE;
    assert(0 <= left < ONE);
    assert(ones * ONE + rest == whole * ONE + left);
    -most <= whole && (whole < most || whole == most && left == 0)
}

/// Is the value of `a - b` within what a decimal can be?
pub fn difference_in_range(a: &Amount, b: &Amount) -> (r: bool)
    ensures
        r == amount::in_range(amount::worth(a@) - amount::worth(b@)),
{
    let (a, b) = (Value::of(a), Value::of(b));
    proof {
        one_is_a_power();
    }
    is_within(a.ones - b.ones, a.rest - b.rest, MOST)
}

/// An amount in units of its last digit and `more` digits, if a decimal has
/// room for them.
fn raised(a: &Amount, more: u32) -> (r: Option<i128>)
    requires
        a@.scale + more <= 28,
    ensures
        match r {
            Some(v) => v == amount::at_scale(a@, (a@.scale + more) as nat) && -amount::limit() < v
                < amount::limit(),
            None => !(-amount::limit() < amount::at_scale(a@, (a@.scale + more) as nat)
                < amount::limit()),
        },
{
    let (negative, magnitude, _) = a.parts();
    let by = power(more);
    let ghost units = magnitude * by;
    proof {
        let (m, p) = (magnitude as int, by as int);
        assert(units >= 0) by (nonlinear_arith)
            requires
                units == m * p,
                m >= 0,
                p >= 1,
        ;
        assert(-m * p == -(m * p)) by (nonlinear_arith);
    }
    match magnitude.checked_mul(by) {
        Some(v) => if v <= MOST as u128 {
            if negative {
                Some(-(v as i128))
            } else {
                Some(v as i128)
            }
        } else {
            None
        },
        None => None,
    }
}

/// Is `a - b` a decimal of their common scale?
fn difference_fits(a: &Amount, b: &Amount) -> (r: bool)
    ensures
        r == amount::difference_fits(a@, b@),
{
    let (_, _, at) = a.parts();
    let (_, _, bt) = b.parts();
    let common: u32 = if at >= bt {
        at
    } else {
        bt
    };
    match (raised(a, common - at), raised(b, common - bt)) {
        (Some(v), Some(w)) => -MOST <= v - w && v - w <= MOST,
        _ => false,
    }
}

/// Is the value of `c - (a - b)` within what a decimal can be? There is one to
/// spare where `a - b` is rounded.
pub fn remainder_in_range(c: &Amount, a: &Amount, b: &Amount) -> (r: bool)
    ensures
        r == ({
            let rest = amount::worth(c@) - (amount::worth(a@) - amount::worth(b@));
            if amount::difference_fits(a@, b@) {
                amount::in_range(rest)
            } else {
                -(amount::limit() - 2) * amount::pow10(28) <= rest <= (amount::limit() - 2)
                    * amount::pow10(28)
            }
        }),
{
    let most: i128 = if difference_fits(a, b) {
        MOST
    } else {
        MOST - 1
    };
    let (a, b, c) = (Value::of(a), Value::of(b), Value::of(c));
    proof {
        one_is_a_power();
    }
    is_within(c.ones - (a.ones - b.ones), c.rest - (a.rest - b.rest), most)
}

} // verus!
