//! The one rule a statement line and an app record pair by, whichever arrives
//! first: same account and amount within a week, and only one-to-one. With two
//! candidates either way (two lunches of the same price) nothing chooses; the
//! import stops for the user to review.

use vstd::prelude::*;

use crate::date::Date;

verus! {

/// How far a record's date may be from its line: the records take the bank's
/// date when they are a week or more off.
pub const WINDOW_DAYS: i32 = 7;

/// Are the two days no more than the window apart?
pub open spec fn near(a: int, b: int) -> bool {
    -WINDOW_DAYS <= a - b <= WINDOW_DAYS
}

/// Are the two days no more than the window apart?
pub fn within_window(a: Date, b: Date) -> (r: bool)
    ensures
        r == near(a@, b@),
{
    let gap: i32 = a.number() - b.number();
    -WINDOW_DAYS <= gap && gap <= WINDOW_DAYS
}

#[derive(Debug, PartialEq, Eq)]
pub struct Pairing {
    /// (left, right) pairs that fit only each other.
    pub pairs: Vec<(usize, usize)>,
    /// Each left item with the right items it fits, when it fits several or
    /// its one fits another left item too.
    pub ambiguous: Vec<(usize, Vec<usize>)>,
}

/// Which items fit: those at which `fits` says so.
pub open spec fn fit<L, R, F: Fn(&L, &R) -> bool>(
    left: Seq<L>,
    right: Seq<R>,
    fits: F,
) -> spec_fn(int, int) -> bool {
    |l: int, r: int| call_ensures(fits, (&left[l], &right[r]), true)
}

/// The right items among the first `n` that fit the left item `l`.
pub open spec fn fitting(fit: spec_fn(int, int) -> bool, l: int, n: int) -> Seq<int>
    decreases n,
{
    if n <= 0 {
        Seq::empty()
    } else if fit(l, n - 1) {
        fitting(fit, l, n - 1).push(n - 1)
    } else {
        fitting(fit, l, n - 1)
    }
}

/// How many left items among the first `n` fit the right item `r`.
pub open spec fn rivals(fit: spec_fn(int, int) -> bool, r: int, n: int) -> nat
    decreases n,
{
    if n <= 0 {
        0
    } else {
        rivals(fit, r, n - 1) + (if fit(n - 1, r) {
            1nat
        } else {
            0nat
        })
    }
}

/// Does the left item `l` of `lefts` fit one right item of `rights` alone,
/// which fits no other?
pub open spec fn is_pair(
    fit: spec_fn(int, int) -> bool,
    lefts: int,
    rights: int,
    l: int,
) -> bool {
    let some = fitting(fit, l, rights);
    some.len() == 1 && rivals(fit, some[0], lefts) == 1
}

/// The pairs of the first `n` left items.
pub open spec fn pairs(
    fit: spec_fn(int, int) -> bool,
    lefts: int,
    rights: int,
    n: int,
) -> Seq<(int, int)>
    decreases n,
{
    if n <= 0 {
        Seq::empty()
    } else {
        let before = pairs(fit, lefts, rights, n - 1);
        if is_pair(fit, lefts, rights, n - 1) {
            before.push((n - 1, fitting(fit, n - 1, rights)[0]))
        } else {
            before
        }
    }
}

/// Does the left item `l` fit something, but have no pair?
pub open spec fn is_ambiguous(
    fit: spec_fn(int, int) -> bool,
    lefts: int,
    rights: int,
    l: int,
) -> bool {
    fitting(fit, l, rights).len() > 0 && !is_pair(fit, lefts, rights, l)
}

/// The left items among the first `n` that fit something and have no pair, each
/// with what it fits.
pub open spec fn ambiguous(
    fit: spec_fn(int, int) -> bool,
    lefts: int,
    rights: int,
    n: int,
) -> Seq<(int, Seq<int>)>
    decreases n,
{
    if n <= 0 {
        Seq::empty()
    } else {
        let before = ambiguous(fit, lefts, rights, n - 1);
        if is_ambiguous(fit, lefts, rights, n - 1) {
            before.push((n - 1, fitting(fit, n - 1, rights)))
        } else {
            before
        }
    }
}

pub open spec fn ints(v: Seq<usize>) -> Seq<int> {
    v.map_values(|n: usize| n as int)
}

pub open spec fn pair_views(v: Seq<(usize, usize)>) -> Seq<(int, int)> {
    v.map_values(|p: (usize, usize)| (p.0 as int, p.1 as int))
}

pub open spec fn ambiguous_views(v: Seq<(usize, Vec<usize>)>) -> Seq<(int, Seq<int>)> {
    v.map_values(|a: (usize, Vec<usize>)| (a.0 as int, ints(a.1@)))
}

/// Can `fits` be asked of every two items, and does it always answer the same?
pub open spec fn answers<L, R, F: Fn(&L, &R) -> bool>(
    left: Seq<L>,
    right: Seq<R>,
    fits: F,
) -> bool {
    &&& forall|l: int, r: int|
        #![trigger left[l], right[r]]
        0 <= l < left.len() && 0 <= r < right.len() ==> call_requires(fits, (&left[l], &right[r]))
    &&& forall|a: &L, b: &R|
        !(#[trigger] call_ensures(fits, (a, b), true) && call_ensures(fits, (a, b), false))
}

/// Has `fits` answered for the items at `l` and `r`?
pub open spec fn asked<L, R, F: Fn(&L, &R) -> bool>(
    left: Seq<L>,
    right: Seq<R>,
    fits: F,
    l: int,
    r: int,
) -> bool {
    call_ensures(fits, (&left[l], &right[r]), true) || call_ensures(
        fits,
        (&left[l], &right[r]),
        false,
    )
}

fn fitting_of<L, R, F: Fn(&L, &R) -> bool>(left: &[L], right: &[R], fits: &F, l: usize) -> (out:
    Vec<usize>)
    requires
        l < left@.len(),
        answers(left@, right@, *fits),
    ensures
        ints(out@) == fitting(fit(left@, right@, *fits), l as int, right@.len() as int),
        forall|i: int| 0 <= i < out@.len() ==> (#[trigger] out@[i]) < right@.len(),
        forall|r: int| 0 <= r < right@.len() ==> asked(left@, right@, *fits, l as int, r),
{
    let ghost rel = fit(left@, right@, *fits);
    let mut out: Vec<usize> = Vec::new();
    assert(ints(out@) =~= Seq::empty());
    let mut r: usize = 0;
    while r < right.len()
        invariant
            r <= right@.len(),
            l < left@.len(),
            rel == fit(left@, right@, *fits),
            answers(left@, right@, *fits),
            ints(out@) == fitting(rel, l as int, r as int),
            forall|i: int| 0 <= i < out@.len() ==> (#[trigger] out@[i]) < right@.len(),
            forall|k: int| 0 <= k < r ==> asked(left@, right@, *fits, l as int, k),
        decreases right@.len() - r,
    {
        let ghost before = out@;
        assert(call_requires(*fits, (&left@[l as int], &right@[r as int])));
        if fits(&left[l], &right[r]) {
            assert(rel(l as int, r as int));
            out.push(r);
            assert(ints(out@) =~= ints(before).push(r as int));
        } else {
            assert(!rel(l as int, r as int));
        }
        r = r + 1;
    }
    out
}

fn rivals_of<L, R, F: Fn(&L, &R) -> bool>(left: &[L], right: &[R], fits: &F, r: usize) -> (n: usize)
    requires
        r < right@.len(),
        answers(left@, right@, *fits),
    ensures
        n == rivals(fit(left@, right@, *fits), r as int, left@.len() as int),
{
    let ghost rel = fit(left@, right@, *fits);
    let mut n: usize = 0;
    let mut l: usize = 0;
    while l < left.len()
        invariant
            l <= left@.len(),
            n <= l,
            r < right@.len(),
            rel == fit(left@, right@, *fits),
            answers(left@, right@, *fits),
            n == rivals(rel, r as int, l as int),
        decreases left@.len() - l,
    {
        assert(call_requires(*fits, (&left@[l as int], &right@[r as int])));
        if fits(&left[l], &right[r]) {
            assert(rel(l as int, r as int));
            n = n + 1;
        } else {
            assert(!rel(l as int, r as int));
        }
        l = l + 1;
    }
    n
}

/// Pairs the items that fit only each other.
pub fn one_to_one<L, R, F: Fn(&L, &R) -> bool>(left: &[L], right: &[R], fits: F) -> (p: Pairing)
    requires
        answers(left@, right@, fits),
    ensures
        pair_views(p.pairs@) == pairs(
            fit(left@, right@, fits),
            left@.len() as int,
            right@.len() as int,
            left@.len() as int,
        ),
        ambiguous_views(p.ambiguous@) == ambiguous(
            fit(left@, right@, fits),
            left@.len() as int,
            right@.len() as int,
            left@.len() as int,
        ),
        forall|i: int|
            0 <= i < p.pairs@.len() ==> (#[trigger] p.pairs@[i]).0 < left@.len() && p.pairs@[i].1
                < right@.len(),
        forall|i: int|
            0 <= i < p.ambiguous@.len() ==> (#[trigger] p.ambiguous@[i]).0 < left@.len(),
        forall|i: int, j: int|
            0 <= i < p.ambiguous@.len() && 0 <= j < p.ambiguous@[i].1@.len() ==> (
            #[trigger] p.ambiguous@[i].1@[j]) < right@.len(),
        forall|l: int, r: int|
            0 <= l < left@.len() && 0 <= r < right@.len() ==> asked(left@, right@, fits, l, r),
{
    let ghost rel = fit(left@, right@, fits);
    let ghost (lefts, rights) = (left@.len() as int, right@.len() as int);
    let mut found: Vec<(usize, usize)> = Vec::new();
    let mut unclear: Vec<(usize, Vec<usize>)> = Vec::new();
    assert(pair_views(found@) =~= Seq::empty());
    assert(ambiguous_views(unclear@) =~= Seq::empty());
    let mut l: usize = 0;
    while l < left.len()
        invariant
            l <= left@.len(),
            answers(left@, right@, fits),
            rel == fit(left@, right@, fits),
            lefts == left@.len(),
            rights == right@.len(),
            pair_views(found@) == pairs(rel, lefts, rights, l as int),
            ambiguous_views(unclear@) == ambiguous(rel, lefts, rights, l as int),
            forall|i: int|
                0 <= i < found@.len() ==> (#[trigger] found@[i]).0 < left@.len() && found@[i].1
                    < right@.len(),
            forall|i: int| 0 <= i < unclear@.len() ==> (#[trigger] unclear@[i]).0 < left@.len(),
            forall|i: int, j: int|
                0 <= i < unclear@.len() && 0 <= j < unclear@[i].1@.len() ==> (
                #[trigger] unclear@[i].1@[j]) < right@.len(),
            forall|k: int, r: int|
                0 <= k < l && 0 <= r < right@.len() ==> asked(left@, right@, fits, k, r),
        decreases left@.len() - l,
    {
        let ghost (had, unsure) = (found@, unclear@);
        let some = fitting_of(left, right, &fits, l);
        assert(ints(some@).len() == some@.len());
        if some.len() > 0 {
            assert(ints(some@)[0] == some@[0]);
            if some.len() == 1 && rivals_of(left, right, &fits, some[0]) == 1 {
                found.push((l, some[0]));
                assert(pair_views(found@) =~= pair_views(had).push((l as int, some@[0] as int)));
            } else {
                unclear.push((l, some));
                assert(ambiguous_views(unclear@) =~= ambiguous_views(unsure).push(
                    (l as int, ints(some@)),
                ));
            }
        }
        l = l + 1;
    }
    Pairing { pairs: found, ambiguous: unclear }
}

/// What fits a left item is among the right ones, and fits it.
pub proof fn fitting_members(fit: spec_fn(int, int) -> bool, l: int, n: int)
    ensures
        forall|i: int|
            0 <= i < fitting(fit, l, n).len() ==> 0 <= #[trigger] fitting(fit, l, n)[i] < n && fit(
                l,
                fitting(fit, l, n)[i],
            ),
    decreases n,
{
    if n > 0 {
        fitting_members(fit, l, n - 1);
        let before = fitting(fit, l, n - 1);
        let now = fitting(fit, l, n);
        assert forall|i: int| 0 <= i < now.len() implies 0 <= #[trigger] now[i] < n && fit(
            l,
            now[i],
        ) by {
            if i < before.len() {
                assert(now[i] == before[i]);
            }
        }
    }
}

pub(crate) proof fn two_rivals(fit: spec_fn(int, int) -> bool, r: int, n: int, a: int, b: int)
    requires
        0 <= a < b < n,
        fit(a, r),
        fit(b, r),
    ensures
        rivals(fit, r, n) >= 2,
    decreases n,
{
    if b == n - 1 {
        one_rival(fit, r, n - 1, a);
    } else {
        two_rivals(fit, r, n - 1, a, b);
    }
}

proof fn one_rival(fit: spec_fn(int, int) -> bool, r: int, n: int, a: int)
    requires
        0 <= a < n,
        fit(a, r),
    ensures
        rivals(fit, r, n) >= 1,
    decreases n,
{
    if a < n - 1 {
        one_rival(fit, r, n - 1, a);
    }
}

/// No right item is paired twice: two left items with a pair have different
/// ones.
pub proof fn pairs_are_apart(
    fit: spec_fn(int, int) -> bool,
    lefts: int,
    rights: int,
    a: int,
    b: int,
)
    requires
        0 <= a < b < lefts,
        is_pair(fit, lefts, rights, a),
        is_pair(fit, lefts, rights, b),
    ensures
        fitting(fit, a, rights)[0] != fitting(fit, b, rights)[0],
{
    fitting_members(fit, a, rights);
    fitting_members(fit, b, rights);
    let r = fitting(fit, a, rights)[0];
    if r == fitting(fit, b, rights)[0] {
        two_rivals(fit, r, lefts, a, b);
    }
}

proof fn same_fitting(
    fit: spec_fn(int, int) -> bool,
    other: spec_fn(int, int) -> bool,
    l: int,
    n: int,
)
    requires
        forall|r: int| 0 <= r < n ==> #[trigger] fit(l, r) == other(l, r),
    ensures
        fitting(fit, l, n) == fitting(other, l, n),
    decreases n,
{
    if n > 0 {
        same_fitting(fit, other, l, n - 1);
        assert(fit(l, n - 1) == other(l, n - 1));
    }
}

proof fn same_rivals(
    fit: spec_fn(int, int) -> bool,
    other: spec_fn(int, int) -> bool,
    r: int,
    n: int,
)
    requires
        forall|l: int| 0 <= l < n ==> #[trigger] fit(l, r) == other(l, r),
    ensures
        rivals(fit, r, n) == rivals(other, r, n),
    decreases n,
{
    if n > 0 {
        same_rivals(fit, other, r, n - 1);
        assert(fit(n - 1, r) == other(n - 1, r));
    }
}

/// Do two relations agree on all the items?
pub open spec fn agree(
    fit: spec_fn(int, int) -> bool,
    other: spec_fn(int, int) -> bool,
    lefts: int,
    rights: int,
) -> bool {
    forall|l: int, r: int|
        0 <= l < lefts && 0 <= r < rights ==> #[trigger] fit(l, r) == other(l, r)
}

/// Only what fits of the items themselves matters.
pub proof fn pairs_by_the_items(
    fit: spec_fn(int, int) -> bool,
    other: spec_fn(int, int) -> bool,
    lefts: int,
    rights: int,
    n: int,
)
    requires
        0 <= n <= lefts,
        agree(fit, other, lefts, rights),
    ensures
        pairs(fit, lefts, rights, n) == pairs(other, lefts, rights, n),
        ambiguous(fit, lefts, rights, n) == ambiguous(other, lefts, rights, n),
    decreases n,
{
    if n > 0 {
        pairs_by_the_items(fit, other, lefts, rights, n - 1);
        same_fitting(fit, other, n - 1, rights);
        fitting_members(fit, n - 1, rights);
        let some = fitting(fit, n - 1, rights);
        if some.len() == 1 {
            assert(0 <= some[0] < rights);
            same_rivals(fit, other, some[0], lefts);
        }
    }
}

} // verus!
