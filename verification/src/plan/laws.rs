//! What a plan promises: every new line is booked once, what is booked
//! balances, and the ledger ends each day on the statement's balance.

use vstd::prelude::*;

use crate::amount;
use crate::amount::Dec;
use crate::currency::Currency;
use crate::model;
use crate::model::{PostingV, TransactionV};
use crate::plan;
use crate::plan::chain;
use crate::plan::held;
use crate::plan::held::{LandingV, SortedV, Status};
use crate::plan::pairs;
use crate::plan::pairs::Shape;
use crate::plan::Ground;
use crate::statements::bank;
use crate::statements::bank::LineV;
use crate::statements::refs;

verus! {

/// The new line that a shape books together with its own.
pub open spec fn partner(s: Shape) -> Option<int> {
    match s {
        Shape::Transfer(o) => Some(o as int),
        Shape::Reversal(r) => Some(r as int),
        _ => None,
    }
}

/// Does a partner fit its line: a transfer's two lines are of one day, and in
/// one currency opposite, and a reversal undoes its debit on the same account?
pub open spec fn partner_fits(ls: Seq<LandingV>, new: Seq<(int, int)>, s: Shape, k: int) -> bool {
    match s {
        Shape::Transfer(o) => {
            let (at, other) = (new[k], new[o as int]);
            &&& pairs::line_at(ls, other).book_date == pairs::line_at(ls, at).book_date
            &&& ls[other.0].statement.currency == ls[at.0].statement.currency ==> amount::equal(
                pairs::delta_at(ls, other),
                amount::negated(pairs::delta_at(ls, at)),
            )
        },
        Shape::Reversal(r) => {
            let (at, other) = (new[k], new[r as int]);
            other.0 == at.0 && bank::cancels(
                ls[at.0].statement.bank,
                pairs::line_at(ls, at),
                pairs::line_at(ls, other),
            )
        },
        _ => true,
    }
}

/// Is every line that another books booked by that one alone?
pub open spec fn booked_once(ls: Seq<LandingV>, new: Seq<(int, int)>, shapes: Seq<Shape>) -> bool {
    &&& shapes.len() == new.len()
    &&& forall|k: int|
        0 <= k < shapes.len() ==> (partner(#[trigger] shapes[k]) matches Some(o) ==> 0 <= o
            < shapes.len() && shapes[o] == Shape::Absorbed)
    &&& forall|p: int, q: int|
        0 <= p < q < shapes.len() && partner(#[trigger] shapes[p]) is Some ==> partner(shapes[p])
            != partner(#[trigger] shapes[q])
    &&& forall|k: int|
        0 <= k < shapes.len() && #[trigger] shapes[k] == Shape::Absorbed ==> exists|p: int|
            0 <= p < shapes.len() && partner(#[trigger] shapes[p]) == Some(k)
    &&& forall|k: int| 0 <= k < shapes.len() ==> partner_fits(ls, new, #[trigger] shapes[k], k)
}

proof fn pairing_keeps(
    ls: Seq<LandingV>,
    new: Seq<(int, int)>,
    shapes: Seq<Shape>,
    k: int,
    o: int,
    s: Shape,
)
    requires
        booked_once(ls, new, shapes),
        0 <= k < shapes.len(),
        0 <= o < shapes.len(),
        k != o,
        shapes[k] == Shape::Open,
        shapes[o] == Shape::Open,
        partner(s) == Some(o),
        partner_fits(ls, new, s, k),
    ensures
        booked_once(ls, new, shapes.update(k, s).update(o, Shape::Absorbed)),
{
    let after = shapes.update(k, s).update(o, Shape::Absorbed);
    assert forall|i: int| 0 <= i < after.len() implies (partner(#[trigger] after[i]) matches Some(
        x,
    ) ==> 0 <= x < after.len() && after[x] == Shape::Absorbed) by {
        if i != k && i != o {
            assert(after[i] == shapes[i]);
        }
    }
    assert forall|p: int, q: int|
        0 <= p < q < after.len() && partner(#[trigger] after[p]) is Some implies partner(after[p])
        != partner(#[trigger] after[q]) by {
        if p != k && p != o {
            assert(after[p] == shapes[p]);
            assert(shapes[partner(shapes[p])->0] == Shape::Absorbed);
        }
        if q != k && q != o {
            assert(after[q] == shapes[q]);
            if partner(shapes[q]) is Some {
                assert(shapes[partner(shapes[q])->0] == Shape::Absorbed);
            }
        }
    }
    assert forall|i: int| 0 <= i < after.len() && #[trigger] after[i] == Shape::Absorbed implies (
    exists|p: int| 0 <= p < after.len() && partner(#[trigger] after[p]) == Some(i)) by {
        if i == o {
            assert(partner(after[k]) == Some(o));
        } else {
            assert(shapes[i] == Shape::Absorbed);
            let p = choose|p: int|
                0 <= p < shapes.len() && partner(#[trigger] shapes[p]) == Some(i);
            assert(after[p] == shapes[p]);
        }
    }
}

/// Does `b` only settle what `a` leaves open, booking nothing together?
pub open spec fn settles(a: Seq<Shape>, b: Seq<Shape>) -> bool {
    &&& a.len() == b.len()
    &&& forall|k: int|
        0 <= k < a.len() ==> #[trigger] b[k] == a[k] || (a[k] == Shape::Open && partner(b[k])
            is None && b[k] != Shape::Absorbed)
}

proof fn settling_keeps(
    ls: Seq<LandingV>,
    new: Seq<(int, int)>,
    a: Seq<Shape>,
    b: Seq<Shape>,
)
    requires
        booked_once(ls, new, a),
        settles(a, b),
    ensures
        booked_once(ls, new, b),
{
    assert forall|k: int| 0 <= k < b.len() implies (partner(#[trigger] b[k]) matches Some(x) ==> 0
        <= x < b.len() && b[x] == Shape::Absorbed) by {
        if let Some(x) = partner(b[k]) {
            assert(b[k] == a[k]);
            assert(a[x] == Shape::Absorbed);
            assert(b[x] == a[x]);
        }
    }
    assert forall|p: int, q: int|
        0 <= p < q < b.len() && partner(#[trigger] b[p]) is Some implies partner(b[p]) != partner(
        #[trigger] b[q],
    ) by {
        assert(b[p] == a[p]);
        if partner(b[q]) is Some {
            assert(b[q] == a[q]);
        }
    }
    assert forall|k: int| 0 <= k < b.len() && #[trigger] b[k] == Shape::Absorbed implies (exists|
        p: int,
    |
        0 <= p < b.len() && partner(#[trigger] b[p]) == Some(k)) by {
        assert(a[k] == Shape::Absorbed);
        let p = choose|p: int| 0 <= p < a.len() && partner(#[trigger] a[p]) == Some(k);
        assert(b[p] == a[p]);
    }
    assert forall|k: int| 0 <= k < b.len() implies partner_fits(ls, new, #[trigger] b[k], k) by {
        if b[k] == a[k] {
            assert(partner_fits(ls, new, a[k], k));
        }
    }
}

pub(crate) proof fn place_is_there(new: Seq<(int, int)>, at: (int, int), from: int)
    ensures
        pairs::place_of(new, at, from) matches Some(i) ==> 0 <= i < new.len() && new[i] == at,
    decreases new.len() - from,
{
    if 0 <= from < new.len() && new[from] != at {
        place_is_there(new, at, from + 1);
    }
}

/// Is a line of no pair among the first `m`?
spec fn unpaired(found: Seq<(int, int)>, li: int, m: int) -> bool {
    forall|p: int|
        0 <= p < m ==> (#[trigger] found[p]).0 != li && found[p].1 != li
}

proof fn reversals_in_keep(
    ls: Seq<LandingV>,
    new: Seq<(int, int)>,
    shapes: Seq<Shape>,
    si: int,
    m: int,
)
    requires
        0 <= si < ls.len(),
        new.len() <= usize::MAX,
        booked_once(ls, new, shapes),
        forall|k: int|
            0 <= k < new.len() && (#[trigger] new[k]).0 == si ==> shapes[k] == Shape::Open,
        0 <= m <= bank::reversals(ls[si].statement.bank, ls[si].statement.lines).len(),
    ensures
        ({
            let st = ls[si].statement;
            let found = bank::reversals(st.bank, st.lines);
            let after = pairs::with_reversals_in(new, shapes, si, found.take(m));
            &&& booked_once(ls, new, after)
            &&& forall|k: int|
                0 <= k < new.len() && (#[trigger] new[k]).0 != si ==> after[k] == shapes[k]
            &&& forall|k: int|
                0 <= k < new.len() && (#[trigger] new[k]).0 == si && unpaired(found, new[k].1, m)
                    ==> after[k] == Shape::Open
        }),
    decreases m,
{
    let st = ls[si].statement;
    let found = bank::reversals(st.bank, st.lines);
    if m > 0 {
        reversals_in_keep(ls, new, shapes, si, m - 1);
        let before = pairs::with_reversals_in(new, shapes, si, found.take(m - 1));
        let after = pairs::with_reversals_in(new, shapes, si, found.take(m));
        assert(found.take(m).drop_last() =~= found.take(m - 1));
        let (debit, reversal) = found[m - 1];
        assert(found.take(m).last() == (debit, reversal));
        place_is_there(new, (si, debit), 0);
        place_is_there(new, (si, reversal), 0);
        refs::reversals_pair_lines_once(st.bank, st.lines, m - 1, m - 1);
        assert forall|k: int|
            0 <= k < new.len() && (#[trigger] new[k]).0 == si && unpaired(
                found,
                new[k].1,
                m,
            ) implies unpaired(found, new[k].1, m - 1) && new[k].1 != debit && new[k].1
            != reversal by {
            assert(found[m - 1].0 != new[k].1);
        }
        match (
            pairs::place_of(new, (si, debit), 0),
            pairs::place_of(new, (si, reversal), 0),
        ) {
            (Some(d), Some(r)) => {
                assert(unpaired(found, debit, m - 1)) by {
                    assert forall|p: int| 0 <= p < m - 1 implies (#[trigger] found[p]).0 != debit
                        && found[p].1 != debit by {
                        refs::reversals_pair_lines_once(st.bank, st.lines, p, m - 1);
                    }
                }
                assert(unpaired(found, reversal, m - 1)) by {
                    assert forall|p: int| 0 <= p < m - 1 implies (#[trigger] found[p]).0
                        != reversal && found[p].1 != reversal by {
                        refs::reversals_pair_lines_once(st.bank, st.lines, p, m - 1);
                    }
                }
                assert(new[d] == (si, debit));
                assert(new[r] == (si, reversal));
                let s = Shape::Reversal(r as usize);
                assert(partner(s) == Some(r));
                pairing_keeps(ls, new, before, d, r, s);
            },
            _ => {},
        }
    } else {
        assert(found.take(0) =~= Seq::empty());
    }
}

proof fn reversals_keep(ls: Seq<LandingV>, new: Seq<(int, int)>, n: int)
    requires
        0 <= n <= ls.len(),
        new.len() <= usize::MAX,
    ensures
        booked_once(ls, new, pairs::with_reversals(ls, new, n)),
        forall|k: int|
            0 <= k < new.len() && (#[trigger] new[k]).0 >= n ==> pairs::with_reversals(
                ls,
                new,
                n,
            )[k] == Shape::Open,
    decreases n,
{
    if n > 0 {
        reversals_keep(ls, new, n - 1);
        let st = ls[n - 1].statement;
        let found = bank::reversals(st.bank, st.lines);
        reversals_in_keep(
            ls,
            new,
            pairs::with_reversals(ls, new, n - 1),
            n - 1,
            found.len() as int,
        );
        assert(found.take(found.len() as int) =~= found);
    }
}

pub(crate) proof fn far_half_is_open(
    ls: Seq<LandingV>,
    accounts: Seq<(Seq<char>, Seq<char>)>,
    new: Seq<(int, int)>,
    shapes: Seq<Shape>,
    k: int,
    from: int,
)
    ensures
        pairs::far_half(ls, accounts, new, shapes, k, from) matches Some(o) ==> 0 <= o < new.len()
            && pairs::is_far_half(ls, accounts, new, shapes, k, o),
    decreases new.len() - from,
{
    if 0 <= from < new.len() && !pairs::is_far_half(ls, accounts, new, shapes, k, from) {
        far_half_is_open(ls, accounts, new, shapes, k, from + 1);
    }
}

proof fn transfers_keep(
    ls: Seq<LandingV>,
    accounts: Seq<(Seq<char>, Seq<char>)>,
    new: Seq<(int, int)>,
    shapes: Seq<Shape>,
    n: int,
)
    requires
        0 <= n <= new.len(),
        new.len() <= usize::MAX,
        booked_once(ls, new, shapes),
    ensures
        booked_once(ls, new, pairs::with_transfers(ls, accounts, new, shapes, n)),
    decreases n,
{
    if n > 0 {
        let k = n - 1;
        transfers_keep(ls, accounts, new, shapes, k);
        let before = pairs::with_transfers(ls, accounts, new, shapes, k);
        far_half_is_open(ls, accounts, new, before, k, 0);
        if before[k] == Shape::Open {
            if let Some(o) = pairs::far_half(ls, accounts, new, before, k, 0) {
                let s = Shape::Transfer(o as usize);
                assert(partner(s) == Some(o));
                pairing_keeps(ls, new, before, k, o, s);
            }
        }
    }
}

pub(crate) proof fn exchanges_are_open(
    ls: Seq<LandingV>,
    new: Seq<(int, int)>,
    shapes: Seq<Shape>,
    k: int,
    n: int,
)
    ensures
        forall|i: int|
            0 <= i < pairs::exchanges(ls, new, shapes, k, n).len() ==> 0 <= (
            #[trigger] pairs::exchanges(ls, new, shapes, k, n)[i]) < n && pairs::is_exchange(
                ls,
                new,
                shapes,
                k,
                pairs::exchanges(ls, new, shapes, k, n)[i],
            ),
    decreases n,
{
    if n > 0 {
        exchanges_are_open(ls, new, shapes, k, n - 1);
        let before = pairs::exchanges(ls, new, shapes, k, n - 1);
        let now = pairs::exchanges(ls, new, shapes, k, n);
        assert forall|i: int| 0 <= i < now.len() implies 0 <= (#[trigger] now[i]) < n
            && pairs::is_exchange(ls, new, shapes, k, now[i]) by {
            if i < before.len() {
                assert(now[i] == before[i]);
            }
        }
    }
}

proof fn exchanges_keep(ls: Seq<LandingV>, new: Seq<(int, int)>, shapes: Seq<Shape>, n: int)
    requires
        0 <= n <= new.len(),
        new.len() <= usize::MAX,
        booked_once(ls, new, shapes),
    ensures
        booked_once(ls, new, pairs::with_exchanges(ls, new, shapes, n)),
    decreases n,
{
    if n > 0 {
        let k = n - 1;
        exchanges_keep(ls, new, shapes, k);
        let before = pairs::with_exchanges(ls, new, shapes, k);
        let partners = pairs::exchanges(ls, new, before, k, new.len() as int);
        exchanges_are_open(ls, new, before, k, new.len() as int);
        if before[k] == Shape::Open && partners.len() == 1 {
            let o = partners[0];
            assert(pairs::is_exchange(ls, new, before, k, o));
            let s = Shape::Transfer(o as usize);
            assert(partner(s) == Some(o));
            pairing_keeps(ls, new, before, k, o, s);
        }
    }
}

pub(crate) proof fn targets_are_open(shapes: Seq<Shape>)
    ensures
        forall|i: int|
            0 <= i < pairs::targets(shapes).len() ==> 0 <= (#[trigger] pairs::targets(shapes)[i])
                < shapes.len() && shapes[pairs::targets(shapes)[i]] == Shape::Open,
    decreases shapes.len(),
{
    if shapes.len() > 0 {
        targets_are_open(shapes.drop_last());
    }
}

proof fn matches_settle(shapes: Seq<Shape>, matched: Seq<int>, n: int)
    ensures
        settles(shapes, pairs::with_matches(shapes, pairs::targets(shapes), matched, n)),
    decreases n,
{
    if n > 0 {
        matches_settle(shapes, matched, n - 1);
        targets_are_open(shapes);
    }
}

/// Every new line is booked once: by its own transaction, or by that of one
/// other line of its day, which in one currency moves the opposite amount or
/// undoes it.
pub proof fn every_new_line_is_booked_once(
    ls: Seq<LandingV>,
    accounts: Seq<(Seq<char>, Seq<char>)>,
    new: Seq<(int, int)>,
    matched: Seq<int>,
)
    requires
        new.len() <= usize::MAX,
    ensures
        booked_once(ls, new, pairs::settled(pairs::paired(ls, accounts, new), matched)),
{
    let n = new.len() as int;
    let reversed = pairs::with_reversals(ls, new, ls.len() as int);
    reversals_keep(ls, new, ls.len() as int);
    let moved = pairs::with_transfers(ls, accounts, new, reversed, n);
    transfers_keep(ls, accounts, new, reversed, n);
    let exchanged = pairs::with_exchanges(ls, new, moved, n);
    exchanges_keep(ls, new, moved, n);
    let paired = pairs::paired(ls, accounts, new);
    settling_keeps(ls, new, exchanged, paired);
    let marked = pairs::with_matches(
        paired,
        pairs::targets(paired),
        matched,
        matched.len() as int,
    );
    matches_settle(paired, matched, matched.len() as int);
    settling_keeps(ls, new, paired, marked);
    settling_keeps(ls, new, marked, pairs::settled(paired, matched));
}

proof fn opposite_worth(a: Dec, b: Dec)
    requires
        amount::equal(a, amount::negated(b)),
    ensures
        amount::worth(a) == -amount::worth(b),
{
    amount::negated_worth(b);
}

proof fn net_of_two(a: PostingV, b: PostingV, c: Currency)
    ensures
        model::net(seq![a, b], c) == (if a.currency == c {
            amount::worth(a.amount)
        } else {
            0
        }) + (if b.currency == c {
            amount::worth(b.amount)
        } else {
            0
        }),
{
    assert(seq![a, b].drop_last() =~= seq![a]);
    assert(seq![a].drop_last() =~= Seq::<PostingV>::empty());
    reveal_with_fuel(model::net, 3);
}

proof fn net_and_one(legs: Seq<PostingV>, a: PostingV, c: Currency)
    ensures
        model::net(legs.push(a), c) == model::net(legs, c) + (if a.currency == c {
            amount::worth(a.amount)
        } else {
            0
        }),
{
    assert(legs.push(a).drop_last() =~= legs);
}

proof fn net_elsewhere(legs: Seq<PostingV>, c: Currency, other: Currency)
    requires
        c != other,
        forall|i: int| 0 <= i < legs.len() ==> (#[trigger] legs[i]).currency == c,
    ensures
        model::net(legs, other) == 0,
    decreases legs.len(),
{
    if legs.len() > 0 {
        assert(legs.last() == legs[legs.len() - 1]);
        assert forall|i: int| 0 <= i < legs.drop_last().len() implies (
        #[trigger] legs.drop_last()[i]).currency == c by {
            assert(legs.drop_last()[i] == legs[i]);
        }
        net_elsewhere(legs.drop_last(), c, other);
    }
}

/// What a matched line and the records it draws on come to.
pub open spec fn drawn_together(g: Ground, k: int, m: int) -> Seq<PostingV> {
    let at = g.new[k];
    let s = g.ls[at.0];
    let c = s.statement.currency;
    seq![model::leg(s.account, pairs::delta_at(g.ls, at), c)] + plan::drawn_legs(
        g.drawn[m],
        g.candidates,
        c,
    )
}

/// Is a line's total exact? A reversal's two effects are opposite, and what a
/// matched line draws on adds up without being rounded.
pub open spec fn is_exact(g: Ground, k: int) -> bool {
    match g.shapes[k] {
        Shape::Reversal(r) => amount::worth(pairs::delta_at(g.ls, g.new[k])) == -amount::worth(
            pairs::delta_at(g.ls, g.new[r as int]),
        ),
        Shape::Matched(m) => {
            let some = drawn_together(g, k, m as int);
            plan::leg_total(some) matches Some(t) ==> amount::worth(t) == model::net(
                some,
                g.ls[g.new[k].0].statement.currency,
            )
        },
        _ => true,
    }
}

proof fn matched_legs_balance(g: Ground, k: int, m: int, c: Currency)
    requires
        plan::legs(g, k) is Some,
        g.shapes[k] == Shape::Matched(m as usize),
        m == m as usize,
        is_exact(g, k),
    ensures
        model::net(plan::legs(g, k)->0, c) == 0,
{
    let at = g.new[k];
    let own = g.ls[at.0].statement.currency;
    let some = drawn_together(g, k, m);
    let rest = plan::leg_total(some)->0;
    let legs = plan::legs(g, k)->0;
    amount::negated_worth(rest);
    if rest.magnitude == 0 {
        assert(amount::worth(rest) == 0) by {
            assert(0 * amount::pow10((28 - rest.scale) as nat) == 0);
        }
        assert(legs =~= some);
    } else {
        net_and_one(some, legs.last(), own);
        assert(legs =~= some.push(legs.last()));
    }
    if c != own {
        assert forall|i: int| 0 <= i < legs.len() implies (#[trigger] legs[i]).currency == own by {
            if i < some.len() {
                assert(legs[i] == some[i]);
            }
        }
        net_elsewhere(legs, own, c);
    }
}

proof fn transfer_legs_balance(g: Ground, k: int, o: int, c: Currency)
    requires
        0 <= k < g.shapes.len(),
        plan::legs(g, k) is Some,
        g.shapes[k] == Shape::Transfer(o as usize),
        o == o as usize,
        partner_fits(g.ls, g.new, g.shapes[k], k),
    ensures
        model::net(plan::legs(g, k)->0, c) == 0,
{
    let legs = plan::legs(g, k)->0;
    let d = pairs::delta_at(g.ls, g.new[k]);
    let fd = pairs::delta_at(g.ls, g.new[o]);
    amount::negated_worth(d);
    amount::negated_worth(fd);
    let both = legs.take(2);
    assert(both =~= seq![legs[0], legs[1]]);
    net_of_two(legs[0], legs[1], c);
    if g.ls[g.new[o].0].statement.currency == g.ls[g.new[k].0].statement.currency {
        opposite_worth(fd, d);
        assert(legs =~= both);
    } else {
        net_and_one(both, legs[2], c);
        net_and_one(both.push(legs[2]), legs[3], c);
        assert(legs =~= both.push(legs[2]).push(legs[3]));
    }
}

/// The transaction of a new line balances in each currency, where its total is
/// exact.
pub proof fn a_planned_line_balances(g: Ground, k: int, c: Currency)
    requires
        0 <= k < g.shapes.len(),
        booked_once(g.ls, g.new, g.shapes),
        is_exact(g, k),
        plan::legs(g, k) is Some,
    ensures
        model::net(plan::legs(g, k)->0, c) == 0,
{
    let legs = plan::legs(g, k)->0;
    let d = pairs::delta_at(g.ls, g.new[k]);
    assert(partner_fits(g.ls, g.new, g.shapes[k], k));
    amount::negated_worth(d);
    match g.shapes[k] {
        Shape::Matched(m) => {
            matched_legs_balance(g, k, m as int, c);
        },
        Shape::Transfer(o) => {
            transfer_legs_balance(g, k, o as int, c);
        },
        _ => {
            assert(legs =~= seq![legs[0], legs[1]]);
            net_of_two(legs[0], legs[1], c);
        },
    }
}

/// An opening balances.
pub proof fn an_opening_balances(s: LandingV, a: Dec, c: Currency)
    ensures
        model::net(plan::opening_transaction(s, a).postings, c) == 0,
{
    let legs = plan::opening_transaction(s, a).postings;
    amount::negated_worth(a);
    assert(legs =~= seq![legs[0], legs[1]]);
    net_of_two(legs[0], legs[1], c);
}

proof fn days_held(
    s: LandingV,
    days: Seq<(int, Dec)>,
    moves: Seq<(int, Dec)>,
    skip: Option<int>,
    n: int,
    i: int,
)
    requires
        0 <= i < n,
        chain::days_hold(s, days, moves, skip, n) is Ok,
        chain::ends_day(days, i),
        Some(days[i].0) != skip,
    ensures
        chain::through(moves, days[i].0) matches Some(b) && amount::equal(b, days[i].1),
    decreases n,
{
    if i < n - 1 {
        days_held(s, days, moves, skip, n - 1, i);
    }
}

pub(crate) proof fn each_chained(
    ls: Seq<LandingV>,
    openings: Seq<int>,
    planned: Seq<TransactionV>,
    redated: Seq<(int, int)>,
    n: int,
    si: int,
)
    requires
        0 <= si < n,
        chain::all_chained(ls, openings, planned, redated, n) is Ok,
    ensures
        chain::chained(ls[si], openings[si], planned, redated) is Ok,
    decreases n,
{
    if si < n - 1 {
        each_chained(ls, openings, planned, redated, n - 1, si);
    }
}

/// Once a plan is carried out, the ledger ends every day of every statement
/// after its opening on the statement's own balance. The one day left out is an
/// unsettled last one the plan adds nothing to.
pub proof fn a_plan_ends_each_day_on_its_balance(g: Ground, si: int, i: int)
    requires
        plan::planned(g) is Ok,
        0 <= si < g.ls.len(),
        ({
            let p = plan::planned(g)->Ok_0;
            let days = chain::by_date(
                chain::stated(g.ls[si].statement.lines, g.sorted[si].opening),
            );
            &&& 0 <= i < days.len()
            &&& chain::ends_day(days, i)
            &&& Some(days[i].0) != chain::skipped(
                g.ls[si],
                plan::transactions_of(p.transactions),
            )
        }),
        g.sorted.len() == g.ls.len(),
    ensures
        ({
            let p = plan::planned(g)->Ok_0;
            let s = g.ls[si];
            let days = chain::by_date(chain::stated(s.statement.lines, g.sorted[si].opening));
            let moves = chain::by_date(
                chain::held_moves(
                    s.existing,
                    plan::moved(p.verified) + plan::deferred_moves(p.deferred),
                ) + chain::planned_moves(
                    plan::transactions_of(p.transactions),
                    s.account,
                    s.statement.currency,
                ),
            );
            chain::through(moves, days[i].0) matches Some(b) && amount::equal(b, days[i].1)
        }),
{
    let p = plan::planned(g)->Ok_0;
    let s = g.ls[si];
    let openings = g.sorted.map_values(|s: SortedV| s.opening);
    let planned = plan::transactions_of(p.transactions);
    let redated = plan::moved(p.verified) + plan::deferred_moves(p.deferred);
    each_chained(g.ls, openings, planned, redated, g.ls.len() as int, si);
    let days = chain::by_date(chain::stated(s.statement.lines, openings[si]));
    let moves = chain::by_date(
        chain::held_moves(s.existing, redated) + chain::planned_moves(
            planned,
            s.account,
            s.statement.currency,
        ),
    );
    days_held(s, days, moves, chain::skipped(s, planned), days.len() as int, i);
}

proof fn covered_lines(
    lines: Seq<LineV>,
    statuses: Seq<Status>,
    all: Seq<(int, Dec)>,
    n: int,
)
    requires
        0 <= n <= statuses.len(),
    ensures
        held::covered(lines, statuses, all, n).0.len() == n,
        forall|i: int|
            0 <= i < n && #[trigger] held::covered(lines, statuses, all, n).0[i] == Status::New
                ==> statuses[i] == Status::New,
    decreases n,
{
    if n > 0 {
        covered_lines(lines, statuses, all, n - 1);
        let before = held::covered(lines, statuses, all, n - 1).0;
        let now = held::covered(lines, statuses, all, n).0;
        assert forall|i: int| 0 <= i < n && #[trigger] now[i] == Status::New implies statuses[i]
            == Status::New by {
            if i < n - 1 {
                assert(now[i] == before[i]);
            }
        }
    }
}

/// What the ledger holds is not planned again: a line whose ref it knows is not
/// new, nor is one dated on or before the account's opening.
pub proof fn a_known_line_is_not_new(
    s: LandingV,
    known: Seq<Seq<char>>,
    accounts: Seq<(Seq<char>, Seq<char>)>,
    i: int,
)
    requires
        held::sorted(s, known, accounts) is Ok,
        0 <= i < s.statement.lines.len(),
        held::sorted(s, known, accounts)->Ok_0.statuses[i] == Status::New,
    ensures
        !known.contains(held::sorted(s, known, accounts)->Ok_0.refs[i]),
        s.statement.lines[i].book_date > held::sorted(s, known, accounts)->Ok_0.opening,
{
    let lines = s.statement.lines;
    let sorted = held::sorted(s, known, accounts)->Ok_0;
    let first = held::by_refs(lines, sorted.refs, sorted.opening, known);
    let left = held::unclaimed(lines, first, held::spares(s.existing), lines.len() as int);
    covered_lines(lines, first, left, lines.len() as int);
    let booked = held::booked(lines, sorted.refs, sorted.opening, known, s.existing);
    assert(booked[i] == Status::New);
    assert(first[i] == Status::New);
}

} // verus!
