//! Statements imported again: once a plan is carried out in the ledger, a plan
//! of the same statements books nothing.

use vstd::prelude::*;

use crate::accounts;
use crate::accounts::Chart;
use crate::amount;
use crate::amount::Dec;
use crate::currency::Currency;
use crate::model;
use crate::model::{HeldV, PostingV, TransactionV, VerificationV};
use crate::plan;
use crate::plan::carried::{
    by_day, chained_again, clears, day_after, day_keys, held_after, holding, holdings,
    holdings_in, is_landed_after, kept, landed_after, opens, redated, refs_added, updated,
};
use crate::plan::carried;
use crate::plan::chain;
use crate::plan::held;
use crate::plan::held::{LandingV, SortedV, Status};
use crate::plan::laws;
use crate::plan::pairs;
use crate::plan::pairs::Shape;
use crate::plan::tally::{
    count, count_apart, count_either, count_pointed_at, count_within, found_in_the_same,
    pointed_at, same_items, tally, tally_and_one, tally_by_place, tally_of_the_same, tally_together,
    tally_without,
};
use crate::plan::{Ground, Kind, PlanV};
use crate::statements::bank;
use crate::statements::bank::LineV;
use crate::text;

verus! {

/// Of that day, and of that worth?
spec fn moves(day: int, w: int) -> spec_fn((int, Dec)) -> bool {
    |m: (int, Dec)| m.0 == day && amount::worth(m.1) == w
}

/// How many of the first `n` lines have a status of the kind and are of that
/// day and that worth.
pub open spec fn lines_of(
    lines: Seq<LineV>,
    statuses: Seq<Status>,
    kind: Kind,
    day: int,
    w: int,
    n: int,
) -> nat
    decreases n,
{
    if n <= 0 {
        0
    } else {
        lines_of(lines, statuses, kind, day, w, n - 1) + (if plan::kind(statuses[n - 1]) == kind
            && lines[n - 1].book_date == day && amount::worth(bank::delta(lines[n - 1])->0) == w {
            1nat
        } else {
            0nat
        })
    }
}

proof fn spare_is_there(left: Seq<(int, Dec)>, day: int, a: Dec, from: int)
    requires
        0 <= from <= left.len(),
    ensures
        match held::spare_from(left, day, a, from) {
            Some(i) => from <= i < left.len() && moves(day, amount::worth(a))(left[i]),
            None => tally(left.skip(from), moves(day, amount::worth(a))) == 0,
        },
    decreases left.len() - from,
{
    if from < left.len() {
        if !(left[from].0 == day && amount::equal(left[from].1, a)) {
            spare_is_there(left, day, a, from + 1);
            let f = moves(day, amount::worth(a));
            tally_together(seq![left[from]], left.skip(from + 1), f);
            assert(seq![left[from]] + left.skip(from + 1) =~= left.skip(from));
            assert(seq![left[from]].drop_last() =~= Seq::empty());
            reveal_with_fuel(tally, 2);
            assert(tally(seq![left[from]], f) == 0);
        }
    } else {
        assert(left.skip(from) =~= Seq::empty());
    }
}

proof fn claims_leave(
    lines: Seq<LineV>,
    statuses: Seq<Status>,
    all: Seq<(int, Dec)>,
    n: int,
    day: int,
    w: int,
)
    ensures
        tally(held::unclaimed(lines, statuses, all, n), moves(day, w)) + lines_of(
            lines,
            statuses,
            Kind::Known,
            day,
            w,
            n,
        ) >= tally(all, moves(day, w)),
    decreases n,
{
    if n > 0 {
        claims_leave(lines, statuses, all, n - 1, day, w);
        let left = held::unclaimed(lines, statuses, all, n - 1);
        let l = lines[n - 1];
        spare_is_there(left, l.book_date, bank::delta(l)->0, 0);
        if statuses[n - 1] == Status::Known {
            if let Some(i) = held::spare_for(left, l) {
                tally_without(left, i, moves(day, w));
            }
        }
    }
}

proof fn covering_leaves(
    lines: Seq<LineV>,
    statuses: Seq<Status>,
    all: Seq<(int, Dec)>,
    n: int,
    day: int,
    w: int,
)
    ensures
        tally(held::covered(lines, statuses, all, n).1, moves(day, w)) + lines_of(
            lines,
            statuses,
            Kind::New,
            day,
            w,
            n,
        ) >= tally(all, moves(day, w)),
    decreases n,
{
    if n > 0 {
        covering_leaves(lines, statuses, all, n - 1, day, w);
        let left = held::covered(lines, statuses, all, n - 1).1;
        let l = lines[n - 1];
        spare_is_there(left, l.book_date, bank::delta(l)->0, 0);
        if statuses[n - 1] == Status::New {
            if let Some(i) = held::spare_for(left, l) {
                tally_without(left, i, moves(day, w));
            }
        }
    }
}

proof fn all_are_covered(
    lines: Seq<LineV>,
    statuses: Seq<Status>,
    all: Seq<(int, Dec)>,
    n: int,
)
    requires
        0 <= n <= lines.len(),
        statuses.len() == lines.len(),
        forall|day: int, w: int|
            #[trigger] lines_of(lines, statuses, Kind::New, day, w, n) <= tally(
                all,
                moves(day, w),
            ),
        forall|i: int| 0 <= i < n ==> !(#[trigger] statuses[i] is Verifies),
    ensures
        held::covered(lines, statuses, all, n).0.len() == n,
        forall|i: int|
            0 <= i < n ==> (#[trigger] held::covered(lines, statuses, all, n).0[i]) != Status::New
                && !(held::covered(lines, statuses, all, n).0[i] is Verifies),
    decreases n,
{
    if n > 0 {
        assert forall|day: int, w: int|
            #[trigger] lines_of(lines, statuses, Kind::New, day, w, n - 1) <= tally(
            all,
            moves(day, w),
        ) by {
            assert(lines_of(lines, statuses, Kind::New, day, w, n) <= tally(all, moves(day, w)));
        }
        all_are_covered(lines, statuses, all, n - 1);
        let (done, left) = held::covered(lines, statuses, all, n - 1);
        let l = lines[n - 1];
        let (day, w) = (l.book_date, amount::worth(bank::delta(l)->0));
        if statuses[n - 1] == Status::New {
            covering_leaves(lines, statuses, all, n - 1, day, w);
            assert(lines_of(lines, statuses, Kind::New, day, w, n) <= tally(all, moves(day, w)));
            spare_is_there(left, day, bank::delta(l)->0, 0);
            assert(left.skip(0) =~= left);
            assert(held::spare_for(left, l) is Some);
        }
        let now = held::covered(lines, statuses, all, n).0;
        assert forall|i: int| 0 <= i < n implies (#[trigger] now[i]) != Status::New && !(
        now[i] is Verifies) by {
            if i < n - 1 {
                assert(now[i] == done[i]);
            }
        }
    }
}

/// How many of the first `n` lines are dated after `opening` and of that day
/// and that worth.
pub open spec fn dated(lines: Seq<LineV>, opening: int, day: int, w: int, n: int) -> nat
    decreases n,
{
    if n <= 0 {
        0
    } else {
        dated(lines, opening, day, w, n - 1) + (if lines[n - 1].book_date > opening && lines[n
            - 1].book_date == day && amount::worth(bank::delta(lines[n - 1])->0) == w {
            1nat
        } else {
            0nat
        })
    }
}

proof fn dated_by_refs(
    lines: Seq<LineV>,
    refs: Seq<Seq<char>>,
    opening: int,
    known: Seq<Seq<char>>,
    day: int,
    w: int,
    n: int,
)
    requires
        0 <= n <= lines.len(),
    ensures
        ({
            let statuses = held::by_refs(lines, refs, opening, known);
            dated(lines, opening, day, w, n) == lines_of(
                lines,
                statuses,
                Kind::Known,
                day,
                w,
                n,
            ) + lines_of(lines, statuses, Kind::New, day, w, n)
        }),
    decreases n,
{
    if n > 0 {
        dated_by_refs(lines, refs, opening, known, day, w, n - 1);
    }
}

/// Is the posting one that can cover a line of that day and that worth?
pub open spec fn covers(day: int, w: int) -> spec_fn(HeldV) -> bool {
    |p: HeldV|
        !p.opening && !p.unverified && held::from_a_statement(p) && p.date == day && amount::worth(
            p.amount,
        ) == w
}

proof fn spares_tally(existing: Seq<HeldV>, day: int, w: int)
    ensures
        tally(held::spares(existing), moves(day, w)) == tally(existing, covers(day, w)),
    decreases existing.len(),
{
    if existing.len() > 0 {
        let p = existing.last();
        spares_tally(existing.drop_last(), day, w);
        tally_and_one(held::spares(existing.drop_last()), (p.date, p.amount), moves(day, w));
    }
}

proof fn one_opening(existing: Seq<HeldV>, d: int)
    requires
        forall|i: int|
            0 <= i < existing.len() && (#[trigger] existing[i]).opening ==> existing[i].date == d,
    ensures
        held::opening_days(existing) == (if exists|i: int|
            0 <= i < existing.len() && (#[trigger] existing[i]).opening {
            seq![d]
        } else {
            Seq::empty()
        }),
    decreases existing.len(),
{
    if existing.len() > 0 {
        let short = existing.drop_last();
        assert forall|i: int| 0 <= i < short.len() && (#[trigger] short[i]).opening implies short[i].date
            == d by {
            assert(short[i] == existing[i]);
        }
        one_opening(short, d);
        assert((exists|i: int| 0 <= i < existing.len() && (#[trigger] existing[i]).opening) == (
        existing.last().opening || exists|i: int|
            0 <= i < short.len() && (#[trigger] short[i]).opening)) by {
            if exists|i: int| 0 <= i < short.len() && (#[trigger] short[i]).opening {
                let i = choose|i: int| 0 <= i < short.len() && (#[trigger] short[i]).opening;
                assert(existing[i].opening);
            }
            if exists|i: int| 0 <= i < existing.len() && (#[trigger] existing[i]).opening {
                let i = choose|i: int|
                    0 <= i < existing.len() && (#[trigger] existing[i]).opening;
                if i < short.len() {
                    assert(short[i].opening);
                }
            }
            if existing.last().opening {
                assert(existing[existing.len() - 1].opening);
            }
        }
        assert(Seq::<int>::empty().push(d) =~= seq![d]);
    }
}

proof fn nothing_ambiguous(
    lines: Seq<LineV>,
    statuses: Seq<Status>,
    records: Seq<HeldV>,
    n: int,
)
    requires
        forall|i: int| 0 <= i < n ==> #[trigger] statuses[i] != Status::New || records.len() == 0,
    ensures
        held::ambiguities(lines, statuses, records, n).len() == 0,
    decreases n,
{
    if n > 0 {
        nothing_ambiguous(lines, statuses, records, n - 1);
        assert(statuses[n - 1] != Status::New || records.len() == 0);
    }
}

pub(crate) proof fn each_sorted(
    ls: Seq<LandingV>,
    known: Seq<Seq<char>>,
    accounts: Seq<(Seq<char>, Seq<char>)>,
    n: int,
)
    requires
        0 <= n,
        plan::all_sorted(ls, known, accounts, n) is Ok,
    ensures
        plan::all_sorted(ls, known, accounts, n)->Ok_0.len() == n,
        forall|i: int|
            0 <= i < n ==> held::sorted(#[trigger] ls[i], known, accounts) == Ok::<
                SortedV,
                Seq<char>,
            >(plan::all_sorted(ls, known, accounts, n)->Ok_0[i]),
    decreases n,
{
    if n > 0 {
        each_sorted(ls, known, accounts, n - 1);
    }
}

proof fn sorted_each(
    ls: Seq<LandingV>,
    known: Seq<Seq<char>>,
    accounts: Seq<(Seq<char>, Seq<char>)>,
    n: int,
)
    requires
        0 <= n,
        forall|i: int| 0 <= i < n ==> held::sorted(#[trigger] ls[i], known, accounts) is Ok,
    ensures
        plan::all_sorted(ls, known, accounts, n) is Ok,
    decreases n,
{
    if n > 0 {
        sorted_each(ls, known, accounts, n - 1);
        assert(held::sorted(ls[n - 1], known, accounts) is Ok);
    }
}

/// Does no line's transaction post to the equity that openings post to?
pub open spec fn only_openings_open(g: Ground) -> bool {
    forall|k: int|
        0 <= k < g.new.len() && (#[trigger] g.shapes[k]) != Shape::Absorbed && plan::legs(g, k)
            is Some ==> !opens(plan::line_transaction(g, k, plan::legs(g, k)->0))
}

/// Is the new line of the statement `si`, of that day and that worth?
spec fn is_at(ls: Seq<LandingV>, si: int, day: int, w: int) -> spec_fn((int, int)) -> bool {
    |at: (int, int)|
        at.0 == si && pairs::line_at(ls, at).book_date == day && amount::worth(
            pairs::delta_at(ls, at),
        ) == w
}

/// Is the leg on the account, and one that can cover a line of that day and
/// that worth?
spec fn hits(
    t: TransactionV,
    id: int,
    p: PostingV,
    account: Seq<char>,
    c: Currency,
    day: int,
    w: int,
) -> bool {
    p.account == account && p.currency == c && covers(day, w)(holding(t, id, p))
}

proof fn first_legs_count(
    t: TransactionV,
    id: int,
    postings: Seq<PostingV>,
    account: Seq<char>,
    c: Currency,
    day: int,
    w: int,
)
    ensures
        tally(holdings_in(t, id, postings, account, c), covers(day, w)) >= (if postings.len() > 0
            && hits(t, id, postings[0], account, c, day, w) {
            1nat
        } else {
            0nat
        }) + (if postings.len() > 1 && hits(t, id, postings[1], account, c, day, w) {
            1nat
        } else {
            0nat
        }),
    decreases postings.len(),
{
    if postings.len() > 0 {
        let short = postings.drop_last();
        let p = postings.last();
        first_legs_count(t, id, short, account, c, day, w);
        tally_and_one(holdings_in(t, id, short, account, c), holding(t, id, p), covers(day, w));
    }
}

proof fn refs_start(s: LandingV, i: int)
    requires
        0 <= i < s.statement.lines.len(),
    ensures
        text::starts(
            bank::refs(
                bank::prefix(s.statement.bank),
                s.statement.account_no,
                s.statement.lines,
            )[i],
            bank::prefix(s.statement.bank),
        ),
{
    let prefix = bank::prefix(s.statement.bank);
    let lines = s.statement.lines;
    let bases = bank::base_refs(prefix, s.statement.account_no, lines);
    let base = bank::base_ref(prefix, s.statement.account_no, lines[i]);
    assert(bases[i] == base);
    assert(base.subrange(0, prefix.len() as int) =~= prefix);
    let r = bank::refs(prefix, s.statement.account_no, lines)[i];
    assert(r.subrange(0, prefix.len() as int) =~= prefix);
}

proof fn legs_are_plain(g: Ground, k: int)
    requires
        plan::legs(g, k) is Some,
        g.shapes[k] != Shape::Absorbed,
    ensures
        ({
            let ps = plan::legs(g, k)->0;
            let s = g.ls[g.new[k].0];
            &&& ps.len() > 0
            &&& ps[0] == model::leg(
                s.account,
                pairs::delta_at(g.ls, g.new[k]),
                s.statement.currency,
            )
            &&& forall|i: int| 0 <= i < ps.len() ==> (#[trigger] ps[i]).tags is None
        }),
{
    let ps = plan::legs(g, k)->0;
    assert forall|i: int| 0 <= i < ps.len() implies (#[trigger] ps[i]).tags is None by {
        match g.shapes[k] {
            Shape::Matched(m) => {
                let some = laws::drawn_together(g, k, m as int);
                if i < some.len() {
                    assert(ps[i] == some[i]);
                }
            },
            _ => {},
        }
    }
}

/// A line's own leg and its partner's, once its transaction is held, can each
/// cover their line.
proof fn legs_cover(g: Ground, si: int, k: int, id: int, day: int, w: int)
    requires
        0 <= k < g.new.len(),
        g.shapes.len() == g.new.len(),
        laws::booked_once(g.ls, g.new, g.shapes),
        only_openings_open(g),
        g.shapes[k] != Shape::Absorbed,
        plan::legs(g, k) is Some,
        text::starts(
            g.sorted[g.new[k].0].refs[g.new[k].1],
            bank::prefix(g.ls[g.new[k].0].statement.bank),
        ),
    ensures
        ({
            let t = plan::line_transaction(g, k, plan::legs(g, k)->0);
            let s = g.ls[si];
            let at = is_at(g.ls, si, day, w);
            tally(
                holdings_in(t, id, t.postings, s.account, s.statement.currency),
                covers(day, w),
            ) >= (if at(g.new[k]) {
                1nat
            } else {
                0nat
            }) + (if laws::partner(g.shapes[k]) matches Some(o) && at(g.new[o]) {
                1nat
            } else {
                0nat
            })
        }),
{
    let ps = plan::legs(g, k)->0;
    let t = plan::line_transaction(g, k, ps);
    let s = g.ls[si];
    let c = s.statement.currency;
    let at = is_at(g.ls, si, day, w);
    legs_are_plain(g, k);
    first_legs_count(t, id, t.postings, s.account, c, day, w);
    assert(!opens(t));
    assert(laws::partner_fits(g.ls, g.new, g.shapes[k], k));
    assert forall|p: PostingV| p.tags is None implies {
        let h = #[trigger] holding(t, id, p);
        !h.opening && !h.unverified && held::from_a_statement(h)
    } by {
        let h = holding(t, id, p);
        assert(h.refs[0] == t.external_ref->0);
    }
    if at(g.new[k]) {
        assert(hits(t, id, ps[0], s.account, c, day, w));
    }
    if let Some(o) = laws::partner(g.shapes[k]) {
        if at(g.new[o]) {
            let far = g.ls[g.new[o].0];
            assert(ps.len() > 1);
            assert(ps[1] == model::leg(
                far.account,
                pairs::delta_at(g.ls, g.new[o]),
                far.statement.currency,
            ));
            assert(hits(t, id, ps[1], s.account, c, day, w));
        }
    }
}

/// The transactions of a plan: its openings and those of the first `n` new
/// lines.
spec fn planned_through(g: Ground, n: int) -> Seq<TransactionV> {
    plan::transactions_of(
        plan::openings(g.ls, g.sorted, g.ls.len() as int) + plan::line_transactions(g, n)->0,
    )
}

spec fn refs_are_banks(g: Ground) -> bool {
    forall|k: int|
        0 <= k < g.new.len() ==> text::starts(
            g.sorted[(#[trigger] g.new[k]).0].refs[g.new[k].1],
            bank::prefix(g.ls[g.new[k].0].statement.bank),
        )
}

proof fn lines_are_held(g: Ground, si: int, ids: Seq<int>, day: int, w: int, n: int)
    requires
        0 <= n <= g.new.len(),
        g.shapes.len() == g.new.len(),
        laws::booked_once(g.ls, g.new, g.shapes),
        only_openings_open(g),
        refs_are_banks(g),
        plan::line_transactions(g, n) is Some,
    ensures
        ({
            let s = g.ls[si];
            let at = is_at(g.ls, si, day, w);
            tally(
                holdings(planned_through(g, n), ids, s.account, s.statement.currency),
                covers(day, w),
            ) >= count(|k: int| g.shapes[k] != Shape::Absorbed && at(g.new[k]), n) + count(
                |k: int|
                    laws::partner(g.shapes[k]) is Some && at(g.new[laws::partner(g.shapes[k])->0]),
                n,
            )
        }),
    decreases n,
{
    let s = g.ls[si];
    let c = s.statement.currency;
    let at = is_at(g.ls, si, day, w);
    if n > 0 {
        let k = n - 1;
        lines_are_held(g, si, ids, day, w, k);
        let before = planned_through(g, k);
        let now = planned_through(g, n);
        if g.shapes[k] != Shape::Absorbed {
            let t = plan::line_transaction(g, k, plan::legs(g, k)->0);
            let id = ids[now.len() - 1];
            assert(now =~= before.push(t));
            assert(now.drop_last() =~= before);
            assert(text::starts(
                g.sorted[g.new[k].0].refs[g.new[k].1],
                bank::prefix(g.ls[g.new[k].0].statement.bank),
            ));
            legs_cover(g, si, k, id, day, w);
            tally_together(
                holdings(before, ids, s.account, c),
                holdings_in(t, id, t.postings, s.account, c),
                covers(day, w),
            );
        }
    }
}

/// Every new line has a leg of its own, or its partner's.
proof fn every_line_has_a_leg(g: Ground, si: int, day: int, w: int)
    requires
        g.shapes.len() == g.new.len(),
        laws::booked_once(g.ls, g.new, g.shapes),
    ensures
        ({
            let at = is_at(g.ls, si, day, w);
            let n = g.new.len() as int;
            tally(g.new, at) <= count(
                |k: int| g.shapes[k] != Shape::Absorbed && at(g.new[k]),
                n,
            ) + count(
                |k: int|
                    laws::partner(g.shapes[k]) is Some && at(g.new[laws::partner(g.shapes[k])->0]),
                n,
            )
        }),
{
    let at = is_at(g.ls, si, day, w);
    let n = g.new.len() as int;
    let h = |k: int| laws::partner(g.shapes[k]);
    let q = |k: int| at(g.new[k]);
    let own = |k: int| g.shapes[k] != Shape::Absorbed && at(g.new[k]);
    let far = |k: int|
        laws::partner(g.shapes[k]) is Some && at(g.new[laws::partner(g.shapes[k])->0]);
    let points = |p: int| h(p) is Some && q(h(p)->0);
    assert forall|p: int, r: int| 0 <= p < r < n && #[trigger] h(p) is Some implies h(p)
        != #[trigger] h(r) by {
        assert(laws::partner(g.shapes[p]) != laws::partner(g.shapes[r]));
    }
    assert forall|p: int| 0 <= p < n implies (#[trigger] h(p) matches Some(o) ==> 0 <= o < n) by {
        assert(laws::partner(g.shapes[p]) == h(p));
    }
    count_pointed_at(h, q, n, n);
    count_within(points, far, n);
    let pointed = |o: int| pointed_at(h, q, n, o);
    assert forall|k: int| 0 <= k < n && #[trigger] q(k) implies own(k) || pointed(k) by {
        if g.shapes[k] == Shape::Absorbed {
            let p = choose|p: int|
                0 <= p < g.shapes.len() && laws::partner(#[trigger] g.shapes[p]) == Some(k);
            assert(h(p) == Some(k));
        }
    }
    count_either(q, own, pointed, n);
    tally_by_place(g.new, at, n);
    assert(g.new.take(n) =~= g.new);
    count_within(|i: int| at(g.new[i]), q, n);
}

proof fn new_lines_in(ls: Seq<LandingV>, si: int, statuses: Seq<Status>, day: int, w: int)
    requires
        statuses.len() <= ls[si].statement.lines.len(),
    ensures
        tally(pairs::new_in(statuses, si), is_at(ls, si, day, w)) == lines_of(
            ls[si].statement.lines,
            statuses,
            Kind::New,
            day,
            w,
            statuses.len() as int,
        ),
        pairs::new_in(statuses, si).len() <= statuses.len(),
        forall|i: int|
            0 <= i < pairs::new_in(statuses, si).len() ==> (#[trigger] pairs::new_in(
                statuses,
                si,
            )[i]).0 == si && 0 <= pairs::new_in(statuses, si)[i].1 < statuses.len(),
    decreases statuses.len(),
{
    if statuses.len() > 0 {
        let short = statuses.drop_last();
        new_lines_in(ls, si, short, day, w);
        let n = statuses.len() as int;
        tally_and_one(pairs::new_in(short, si), (si, n - 1), is_at(ls, si, day, w));
        shorter_lines_of(ls[si].statement.lines, statuses, day, w, n - 1);
    }
}

proof fn shorter_lines_of(lines: Seq<LineV>, statuses: Seq<Status>, day: int, w: int, n: int)
    requires
        0 <= n < statuses.len(),
    ensures
        lines_of(lines, statuses.drop_last(), Kind::New, day, w, n) == lines_of(
            lines,
            statuses,
            Kind::New,
            day,
            w,
            n,
        ),
    decreases n,
{
    if n > 0 {
        shorter_lines_of(lines, statuses, day, w, n - 1);
    }
}

proof fn new_lines_among(
    ls: Seq<LandingV>,
    all: Seq<SortedV>,
    si: int,
    day: int,
    w: int,
)
    requires
        all.len() <= ls.len(),
        forall|i: int|
            0 <= i < all.len() ==> (#[trigger] all[i]).statuses.len()
                == ls[i].statement.lines.len(),
    ensures
        0 <= si < all.len() ==> tally(pairs::new_lines(all), is_at(ls, si, day, w)) >= lines_of(
            ls[si].statement.lines,
            all[si].statuses,
            Kind::New,
            day,
            w,
            ls[si].statement.lines.len() as int,
        ),
        pairs::new_lines(all).len() <= plan::line_total(ls.take(all.len() as int)),
        forall|i: int|
            0 <= i < pairs::new_lines(all).len() ==> 0 <= (#[trigger] pairs::new_lines(all)[i]).0
                < all.len() && 0 <= pairs::new_lines(all)[i].1
                < ls[pairs::new_lines(all)[i].0].statement.lines.len(),
    decreases all.len(),
{
    if all.len() > 0 {
        let short = all.drop_last();
        let last = all.len() - 1;
        assert forall|i: int| 0 <= i < short.len() implies (#[trigger] short[i]).statuses.len()
            == ls[i].statement.lines.len() by {
            assert(short[i] == all[i]);
        }
        new_lines_among(ls, short, si, day, w);
        assert(all[last].statuses.len() == ls[last].statement.lines.len());
        new_lines_in(ls, last, all.last().statuses, day, w);
        let (before, more) = (pairs::new_lines(short), pairs::new_in(all.last().statuses, last));
        tally_together(before, more, is_at(ls, si, day, w));
        assert(ls.take(all.len() as int).drop_last() =~= ls.take(last));
        if 0 <= si < last {
            assert(short[si] == all[si]);
        }
        let now = pairs::new_lines(all);
        assert forall|i: int| 0 <= i < now.len() implies 0 <= (#[trigger] now[i]).0 < all.len()
            && 0 <= now[i].1 < ls[now[i].0].statement.lines.len() by {
            if i < before.len() {
                assert(now[i] == before[i]);
            } else {
                assert(now[i] == more[i - before.len()]);
            }
        }
    }
}

/// Has the transaction a leg on the account?
spec fn touches(t: TransactionV, account: Seq<char>, c: Currency) -> bool {
    exists|i: int|
        0 <= i < t.postings.len() && (#[trigger] t.postings[i]).account == account
            && t.postings[i].currency == c
}

/// Does the transaction, where it opens the account, do so on `d`, and is no
/// leg of it unverified?
spec fn is_sound(t: TransactionV, account: Seq<char>, c: Currency, d: Option<int>) -> bool {
    &&& opens(t) && touches(t, account, c) ==> Some(t.date) == d
    &&& forall|i: int| 0 <= i < t.postings.len() ==> (#[trigger] t.postings[i]).tags is None
}

spec fn all_held_well(v: Seq<HeldV>, d: Option<int>) -> bool {
    forall|i: int|
        0 <= i < v.len() ==> !(#[trigger] v[i]).unverified && (v[i].opening ==> Some(v[i].date) == d)
}

/// Is one of the postings an opening?
pub open spec fn has_opening(v: Seq<HeldV>) -> bool {
    exists|i: int| 0 <= i < v.len() && (#[trigger] v[i]).opening
}

proof fn legs_held_well(
    t: TransactionV,
    id: int,
    postings: Seq<PostingV>,
    account: Seq<char>,
    c: Currency,
    d: Option<int>,
)
    requires
        is_sound(t, account, c, d),
        postings.len() <= t.postings.len(),
        postings == t.postings.take(postings.len() as int),
    ensures
        all_held_well(holdings_in(t, id, postings, account, c), d),
        opens(t) && (exists|i: int|
            0 <= i < postings.len() && (#[trigger] postings[i]).account == account
                && postings[i].currency == c) ==> has_opening(
            holdings_in(t, id, postings, account, c),
        ),
    decreases postings.len(),
{
    if postings.len() > 0 {
        let short = postings.drop_last();
        let n = short.len() as int;
        assert(short =~= t.postings.take(n));
        legs_held_well(t, id, short, account, c, d);
        let p = postings.last();
        assert(t.postings[n] == p);
        let before = holdings_in(t, id, short, account, c);
        let now = holdings_in(t, id, postings, account, c);
        assert forall|i: int| 0 <= i < now.len() implies !(#[trigger] now[i]).unverified && (
        now[i].opening ==> Some(now[i].date) == d) by {
            if i < before.len() {
                assert(now[i] == before[i]);
            }
        }
        if has_opening(before) {
            let i = choose|i: int| 0 <= i < before.len() && (#[trigger] before[i]).opening;
            assert(now[i] == before[i]);
        }
        if opens(t) && p.account == account && p.currency == c {
            assert(now[now.len() - 1].opening);
        }
        if exists|i: int|
            0 <= i < postings.len() && (#[trigger] postings[i]).account == account
                && postings[i].currency == c {
            let i = choose|i: int|
                0 <= i < postings.len() && (#[trigger] postings[i]).account == account
                    && postings[i].currency == c;
            if i < n {
                assert(short[i] == postings[i]);
            }
        }
    }
}

proof fn held_well(ts: Seq<TransactionV>, ids: Seq<int>, account: Seq<char>, c: Currency, d: Option<int>)
    requires
        forall|i: int| 0 <= i < ts.len() ==> is_sound(#[trigger] ts[i], account, c, d),
    ensures
        all_held_well(holdings(ts, ids, account, c), d),
        (exists|i: int| 0 <= i < ts.len() && opens(#[trigger] ts[i]) && touches(ts[i], account, c))
            ==> has_opening(holdings(ts, ids, account, c)),
    decreases ts.len(),
{
    if ts.len() > 0 {
        let short = ts.drop_last();
        let t = ts.last();
        let id = ids[ts.len() - 1];
        assert forall|i: int| 0 <= i < short.len() implies is_sound(
            #[trigger] short[i],
            account,
            c,
            d,
        ) by {
            assert(short[i] == ts[i]);
        }
        held_well(short, ids, account, c, d);
        assert(is_sound(ts[ts.len() - 1], account, c, d));
        assert(t.postings.take(t.postings.len() as int) =~= t.postings);
        legs_held_well(t, id, t.postings, account, c, d);
        let before = holdings(short, ids, account, c);
        let more = holdings_in(t, id, t.postings, account, c);
        let now = holdings(ts, ids, account, c);
        assert forall|i: int| 0 <= i < now.len() implies !(#[trigger] now[i]).unverified && (
        now[i].opening ==> Some(now[i].date) == d) by {
            if i < before.len() {
                assert(now[i] == before[i]);
            } else {
                assert(now[i] == more[i - before.len()]);
            }
        }
        if has_opening(before) {
            let i = choose|i: int| 0 <= i < before.len() && (#[trigger] before[i]).opening;
            assert(now[i] == before[i]);
        }
        if has_opening(more) {
            let i = choose|i: int| 0 <= i < more.len() && (#[trigger] more[i]).opening;
            assert(now[before.len() + i] == more[i]);
        }
        if exists|i: int|
            0 <= i < ts.len() && opens(#[trigger] ts[i]) && touches(ts[i], account, c) {
            let i = choose|i: int|
                0 <= i < ts.len() && opens(#[trigger] ts[i]) && touches(ts[i], account, c);
            if i < short.len() {
                assert(short[i] == ts[i]);
            } else {
                let j = choose|j: int|
                    0 <= j < t.postings.len() && (#[trigger] t.postings[j]).account == account
                        && t.postings[j].currency == c;
                assert(t.postings[j].account == account);
            }
        }
    }
}

proof fn whose_opening(ls: Seq<LandingV>, sorted: Seq<SortedV>, n: int, i: int) -> (j: int)
    requires
        0 <= i < plan::openings(ls, sorted, n).len(),
    ensures
        0 <= j < n,
        sorted[j].fresh is Some,
        plan::openings(ls, sorted, n)[i].1 == plan::opening_transaction(
            ls[j],
            sorted[j].fresh->0,
        ),
    decreases n,
{
    if n <= 0 {
        0
    } else if i < plan::openings(ls, sorted, n - 1).len() {
        whose_opening(ls, sorted, n - 1, i)
    } else {
        n - 1
    }
}

proof fn opening_of(ls: Seq<LandingV>, sorted: Seq<SortedV>, n: int, j: int) -> (i: int)
    requires
        0 <= j < n,
        sorted[j].fresh is Some,
    ensures
        0 <= i < plan::openings(ls, sorted, n).len(),
        plan::openings(ls, sorted, n)[i].1 == plan::opening_transaction(
            ls[j],
            sorted[j].fresh->0,
        ),
    decreases n,
{
    if j < n - 1 {
        opening_of(ls, sorted, n - 1, j)
    } else {
        plan::openings(ls, sorted, n - 1).len() as int
    }
}

proof fn whose_transaction(g: Ground, n: int, i: int) -> (k: int)
    requires
        0 <= n <= g.new.len(),
        plan::line_transactions(g, n) is Some,
        0 <= i < plan::line_transactions(g, n)->0.len(),
    ensures
        0 <= k < n,
        g.shapes[k] != Shape::Absorbed,
        plan::legs(g, k) is Some,
        plan::line_transactions(g, n)->0[i].1 == plan::line_transaction(
            g,
            k,
            plan::legs(g, k)->0,
        ),
    decreases n,
{
    if n <= 0 {
        0
    } else if i < plan::line_transactions(g, n - 1)->0.len() {
        whose_transaction(g, n - 1, i)
    } else {
        n - 1
    }
}

/// Does each statement of an account the ledger holds nothing of land on an
/// account and currency of its own, and none on the equity that openings post
/// to?
pub open spec fn land_apart(ls: Seq<LandingV>) -> bool {
    &&& forall|i: int, j: int|
        0 <= i < j < ls.len() ==> (#[trigger] ls[i]).account != (#[trigger] ls[j]).account
            || ls[i].statement.currency != ls[j].statement.currency || (ls[i].existing.len() > 0
            && ls[j].existing.len() > 0)
    &&& forall|i: int| 0 <= i < ls.len() ==> (#[trigger] ls[i]).account != model::OPENING_EQUITY@
}

/// The day the plan opens the account of the statement `si` on, if it does.
spec fn opened_on(g: Ground, si: int) -> Option<int> {
    if g.sorted[si].fresh is Some {
        Some(bank::start(g.ls[si].statement) - 1)
    } else {
        None
    }
}

/// The ledger holds the plan's transactions on the account of `si` well: one
/// opening day, and nothing unverified.
proof fn plan_held_well(g: Ground, ids: Seq<int>, si: int)
    requires
        0 <= si < g.ls.len(),
        land_apart(g.ls),
        only_openings_open(g),
        plan::line_transactions(g, g.new.len() as int) is Some,
        g.sorted.len() == g.ls.len(),
        forall|i: int|
            0 <= i < g.ls.len() ==> ((#[trigger] g.sorted[i]).fresh is Some
                <==> g.ls[i].existing.len() == 0),
    ensures
        ({
            let s = g.ls[si];
            let v = holdings(
                planned_through(g, g.new.len() as int),
                ids,
                s.account,
                s.statement.currency,
            );
            all_held_well(v, opened_on(g, si)) && (g.sorted[si].fresh is Some ==> has_opening(v))
        }),
{
    let s = g.ls[si];
    let c = s.statement.currency;
    let d = opened_on(g, si);
    let n = g.ls.len() as int;
    let first = plan::openings(g.ls, g.sorted, n);
    let lines = plan::line_transactions(g, g.new.len() as int)->0;
    let ts = planned_through(g, g.new.len() as int);
    assert forall|i: int| 0 <= i < ts.len() implies is_sound(#[trigger] ts[i], s.account, c, d) by {
        if i < first.len() {
            assert(ts[i] == first[i].1);
            let j = whose_opening(g.ls, g.sorted, n, i);
            if touches(ts[i], s.account, c) {
                let k = choose|k: int|
                    0 <= k < ts[i].postings.len() && (#[trigger] ts[i].postings[k]).account
                        == s.account && ts[i].postings[k].currency == c;
                assert(k == 0);
                assert(g.ls[j].existing.len() == 0);
                if j != si {
                    let (a, b) = if j < si {
                        (j, si)
                    } else {
                        (si, j)
                    };
                    assert(g.ls[a].account == g.ls[b].account);
                }
            }
        } else {
            assert(ts[i] == lines[i - first.len()].1);
            let k = whose_transaction(g, g.new.len() as int, i - first.len());
            legs_are_plain(g, k);
        }
    }
    held_well(ts, ids, s.account, c, d);
    if g.sorted[si].fresh is Some {
        let i = opening_of(g.ls, g.sorted, n, si);
        assert(ts[i] == first[i].1);
        assert(ts[i].postings[0].account == s.account);
        assert(ts[i].postings[1].account == model::OPENING_EQUITY@);
        assert(opens(ts[i]) && touches(ts[i], s.account, c));
    }
}

proof fn nothing_new_among(all: Seq<SortedV>)
    requires
        forall|i: int, j: int|
            0 <= i < all.len() && 0 <= j < all[i].statuses.len() ==> (
            #[trigger] all[i].statuses[j]) != Status::New,
    ensures
        pairs::new_lines(all) == Seq::<(int, int)>::empty(),
    decreases all.len(),
{
    if all.len() > 0 {
        let short = all.drop_last();
        assert forall|i: int, j: int|
            0 <= i < short.len() && 0 <= j < short[i].statuses.len() implies (
        #[trigger] short[i].statuses[j]) != Status::New by {
            assert(all[i].statuses[j] != Status::New);
        }
        nothing_new_among(short);
        let last = all.len() - 1;
        assert forall|j: int| 0 <= j < all.last().statuses.len() implies (
        #[trigger] all.last().statuses[j]) != Status::New by {
            assert(all[last].statuses[j] != Status::New);
        }
        nothing_new_in(all.last().statuses, last);
        assert(pairs::new_lines(all) =~= Seq::empty());
    }
}

proof fn nothing_new_in(statuses: Seq<Status>, si: int)
    requires
        forall|j: int| 0 <= j < statuses.len() ==> (#[trigger] statuses[j]) != Status::New,
    ensures
        pairs::new_in(statuses, si) == Seq::<(int, int)>::empty(),
    decreases statuses.len(),
{
    if statuses.len() > 0 {
        let short = statuses.drop_last();
        assert forall|j: int| 0 <= j < short.len() implies (#[trigger] short[j]) != Status::New by {
            assert(short[j] == statuses[j]);
        }
        nothing_new_in(short, si);
        assert(statuses[statuses.len() - 1] != Status::New);
    }
}

proof fn nothing_opened(ls: Seq<LandingV>, sorted: Seq<SortedV>, n: int)
    requires
        forall|i: int| 0 <= i < n ==> (#[trigger] sorted[i]).fresh is None,
    ensures
        plan::openings(ls, sorted, n) == Seq::<(int, TransactionV)>::empty(),
    decreases n,
{
    if n > 0 {
        nothing_opened(ls, sorted, n - 1);
        assert(sorted[n - 1].fresh is None);
    }
}

proof fn nothing_verified(
    g: Ground,
    accounts: Seq<(Seq<char>, Seq<char>)>,
    si: int,
    n: int,
)
    requires
        forall|j: int| 0 <= j < n ==> !(#[trigger] g.sorted[si].statuses[j] is Verifies),
    ensures
        plan::verified_in(g, accounts, si, n) == Seq::<model::VerificationV>::empty(),
    decreases n,
{
    if n > 0 {
        nothing_verified(g, accounts, si, n - 1);
        assert(!(g.sorted[si].statuses[n - 1] is Verifies));
    }
}

proof fn nothing_verified_among(g: Ground, accounts: Seq<(Seq<char>, Seq<char>)>, n: int)
    requires
        forall|i: int, j: int|
            0 <= i < n && 0 <= j < g.ls[i].statement.lines.len() ==> !(
            #[trigger] g.sorted[i].statuses[j] is Verifies),
    ensures
        plan::verified(g, accounts, n) == Seq::<model::VerificationV>::empty(),
    decreases n,
{
    if n > 0 {
        nothing_verified_among(g, accounts, n - 1);
        nothing_verified(g, accounts, n - 1, g.ls[n - 1].statement.lines.len() as int);
        assert(plan::verified(g, accounts, n) =~= Seq::empty());
    }
}

proof fn nothing_deferred(sorted: Seq<SortedV>)
    requires
        forall|i: int| 0 <= i < sorted.len() ==> (#[trigger] sorted[i]).deferred.len() == 0,
    ensures
        plan::deferred(sorted) == Seq::<held::DeferredV>::empty(),
    decreases sorted.len(),
{
    if sorted.len() > 0 {
        let short = sorted.drop_last();
        assert forall|i: int| 0 <= i < short.len() implies (#[trigger] short[i]).deferred.len()
            == 0 by {
            assert(short[i] == sorted[i]);
        }
        nothing_deferred(short);
        assert(sorted[sorted.len() - 1].deferred.len() == 0);
        assert(plan::deferred(sorted) =~= Seq::empty());
    }
}

proof fn each_chain(
    ls: Seq<LandingV>,
    openings: Seq<int>,
    planned: Seq<TransactionV>,
    redated: Seq<(int, int)>,
    n: int,
)
    requires
        forall|i: int|
            0 <= i < n ==> chain::chained(#[trigger] ls[i], openings[i], planned, redated) is Ok,
    ensures
        chain::all_chained(ls, openings, planned, redated, n) is Ok,
    decreases n,
{
    if n > 0 {
        each_chain(ls, openings, planned, redated, n - 1);
        assert(chain::chained(ls[n - 1], openings[n - 1], planned, redated) is Ok);
    }
}

proof fn lines_of_same(
    lines: Seq<LineV>,
    a: Seq<Status>,
    b: Seq<Status>,
    kind: Kind,
    day: int,
    w: int,
    n: int,
)
    requires
        forall|i: int| 0 <= i < n ==> #[trigger] a[i] == b[i],
    ensures
        lines_of(lines, a, kind, day, w, n) == lines_of(lines, b, kind, day, w, n),
    decreases n,
{
    if n > 0 {
        lines_of_same(lines, a, b, kind, day, w, n - 1);
        assert(a[n - 1] == b[n - 1]);
    }
}

proof fn claims_leave_no_more(
    lines: Seq<LineV>,
    statuses: Seq<Status>,
    all: Seq<(int, Dec)>,
    n: int,
    day: int,
    w: int,
)
    requires
        lines_of(lines, statuses, Kind::Known, day, w, n) <= tally(all, moves(day, w)),
    ensures
        tally(held::unclaimed(lines, statuses, all, n), moves(day, w)) + lines_of(
            lines,
            statuses,
            Kind::Known,
            day,
            w,
            n,
        ) == tally(all, moves(day, w)),
    decreases n,
{
    if n > 0 {
        claims_leave_no_more(lines, statuses, all, n - 1, day, w);
        let left = held::unclaimed(lines, statuses, all, n - 1);
        let l = lines[n - 1];
        spare_is_there(left, l.book_date, bank::delta(l)->0, 0);
        assert(left.skip(0) =~= left);
        if statuses[n - 1] == Status::Known {
            if let Some(i) = held::spare_for(left, l) {
                tally_without(left, i, moves(day, w));
            }
        }
    }
}

proof fn covering_takes(
    lines: Seq<LineV>,
    statuses: Seq<Status>,
    all: Seq<(int, Dec)>,
    n: int,
    day: int,
    w: int,
)
    requires
        0 <= n <= statuses.len(),
        forall|i: int| 0 <= i < n ==> #[trigger] statuses[i] != Status::Covered,
    ensures
        held::covered(lines, statuses, all, n).0.len() == n,
        tally(held::covered(lines, statuses, all, n).1, moves(day, w)) + lines_of(
            lines,
            held::covered(lines, statuses, all, n).0,
            Kind::Covered,
            day,
            w,
            n,
        ) == tally(all, moves(day, w)),
        forall|i: int|
            0 <= i < n ==> (#[trigger] held::covered(lines, statuses, all, n).0[i]) == statuses[i]
                || (statuses[i] == Status::New && held::covered(lines, statuses, all, n).0[i]
                == Status::Covered),
    decreases n,
{
    if n > 0 {
        covering_takes(lines, statuses, all, n - 1, day, w);
        let (done, left) = held::covered(lines, statuses, all, n - 1);
        let now = held::covered(lines, statuses, all, n).0;
        let l = lines[n - 1];
        spare_is_there(left, l.book_date, bank::delta(l)->0, 0);
        assert(statuses[n - 1] != Status::Covered);
        if statuses[n - 1] == Status::New {
            if let Some(i) = held::spare_for(left, l) {
                tally_without(left, i, moves(day, w));
            }
        }
        assert forall|i: int| 0 <= i < n - 1 implies #[trigger] done[i] == now[i] by {}
        lines_of_same(lines, done, now, Kind::Covered, day, w, n - 1);
        assert forall|i: int| 0 <= i < n implies (#[trigger] now[i]) == statuses[i] || (statuses[i]
            == Status::New && now[i] == Status::Covered) by {
            if i < n - 1 {
                assert(now[i] == done[i]);
            }
        }
    }
}

/// What a statement is sorted into, part by part.
pub(crate) proof fn sorted_parts(
    s: LandingV,
    known: Seq<Seq<char>>,
    accounts: Seq<(Seq<char>, Seq<char>)>,
)
    requires
        held::sorted(s, known, accounts) is Ok,
    ensures
        ({
            let r = held::sorted(s, known, accounts)->Ok_0;
            let lines = s.statement.lines;
            let first = held::booked(lines, r.refs, r.opening, known, s.existing);
            let by = held::by_refs(lines, r.refs, r.opening, known);
            &&& bank::has_deltas(lines)
            &&& r.refs == bank::refs(
                bank::prefix(s.statement.bank),
                s.statement.account_no,
                lines,
            )
            &&& held::opening_day(s) == Ok::<int, Seq<char>>(r.opening)
            &&& r.fresh is Some <==> s.existing.len() == 0
            &&& r.statuses.len() == lines.len()
            &&& first.len() == lines.len()
            &&& by.len() == lines.len()
            &&& held::deferrals(
                s,
                r.statuses,
                accounts,
                r.opening,
                held::unverified(s.existing),
            ) == Ok::<Seq<held::DeferredV>, Seq<char>>(r.deferred)
            &&& forall|i: int|
                0 <= i < lines.len() ==> {
                    let st = #[trigger] r.statuses[i];
                    &&& st == held::checked(lines, first, held::unverified(s.existing), i)
                    &&& first[i] == by[i] || (by[i] == Status::New && first[i] == Status::Covered)
                    &&& st == first[i] || (first[i] == Status::New && st is Verifies)
                    &&& by[i] == held::by_ref(lines[i], r.refs[i], r.opening, known)
                }
        }),
{
    let r = held::sorted(s, known, accounts)->Ok_0;
    let lines = s.statement.lines;
    let n = lines.len() as int;
    let by = held::by_refs(lines, r.refs, r.opening, known);
    let left = held::unclaimed(lines, by, held::spares(s.existing), n);
    covering_takes(lines, by, left, n, 0, 0);
    let first = held::booked(lines, r.refs, r.opening, known, s.existing);
    assert forall|i: int| 0 <= i < lines.len() implies {
        let st = #[trigger] r.statuses[i];
        &&& st == held::checked(lines, first, held::unverified(s.existing), i)
        &&& first[i] == by[i] || (by[i] == Status::New && first[i] == Status::Covered)
        &&& st == first[i] || (first[i] == Status::New && st is Verifies)
        &&& by[i] == held::by_ref(lines[i], r.refs[i], r.opening, known)
    } by {
        assert(first[i] == held::covered(lines, by, left, n).0[i]);
    }
}

/// How many lines of a day and a worth there are after the opening, by what the
/// ledger holds of them.
proof fn dated_by_kind(
    lines: Seq<LineV>,
    statuses: Seq<Status>,
    opening: int,
    day: int,
    w: int,
    n: int,
)
    requires
        0 <= n <= lines.len(),
        day > opening,
        forall|i: int|
            0 <= i < n && lines[i].book_date > opening ==> !(#[trigger] statuses[i]
                is PredatesOpening),
    ensures
        dated(lines, opening, day, w, n) == lines_of(lines, statuses, Kind::Known, day, w, n)
            + lines_of(lines, statuses, Kind::Covered, day, w, n) + lines_of(
            lines,
            statuses,
            Kind::Verifies,
            day,
            w,
            n,
        ) + lines_of(lines, statuses, Kind::New, day, w, n),
    decreases n,
{
    if n > 0 {
        dated_by_kind(lines, statuses, opening, day, w, n - 1);
        if lines[n - 1].book_date > opening {
            assert(!(statuses[n - 1] is PredatesOpening));
        }
    }
}

proof fn dated_later(lines: Seq<LineV>, opening: int, later: int, day: int, w: int, n: int)
    requires
        opening <= later,
    ensures
        day > later ==> dated(lines, later, day, w, n) == dated(lines, opening, day, w, n),
        day <= later ==> dated(lines, later, day, w, n) == 0,
    decreases n,
{
    if n > 0 {
        dated_later(lines, opening, later, day, w, n - 1);
    }
}

proof fn no_lines_of(
    lines: Seq<LineV>,
    statuses: Seq<Status>,
    kind: Kind,
    day: int,
    w: int,
    n: int,
)
    requires
        forall|i: int|
            0 <= i < n && lines[i].book_date == day && amount::worth(bank::delta(lines[i])->0) == w
                ==> plan::kind(#[trigger] statuses[i]) != kind,
    ensures
        lines_of(lines, statuses, kind, day, w, n) == 0,
    decreases n,
{
    if n > 0 {
        no_lines_of(lines, statuses, kind, day, w, n - 1);
        assert(plan::kind(statuses[n - 1]) == plan::kind(statuses[n - 1]));
    }
}

proof fn nothing_pending(
    s: LandingV,
    statuses: Seq<Status>,
    accounts: Seq<(Seq<char>, Seq<char>)>,
    opening: int,
    records: Seq<HeldV>,
)
    requires
        forall|i: int|
            0 <= i < records.len() ==> !held::pending(
                #[trigger] records[i],
                opening,
                bank::settled_through(s.statement),
            ),
    ensures
        held::deferrals(s, statuses, accounts, opening, records) == Ok::<
            Seq<held::DeferredV>,
            Seq<char>,
        >(Seq::empty()),
    decreases records.len(),
{
    if records.len() > 0 {
        let short = records.drop_last();
        assert forall|i: int| 0 <= i < short.len() implies !held::pending(
            #[trigger] short[i],
            opening,
            bank::settled_through(s.statement),
        ) by {
            assert(short[i] == records[i]);
        }
        nothing_pending(s, statuses, accounts, opening, short);
        assert(records[records.len() - 1] == records.last());
    }
}

/// What the ledger holds is not booked again. Where the ledger knows the refs of
/// all lines of a day and an amount, or holds as many postings from statements
/// of that day and amount as there are lines after the account's opening, none
/// of these lines is new and none checks a record. The records the statement
/// would move are left out.
pub proof fn what_is_held_is_not_new(
    s: LandingV,
    known: Seq<Seq<char>>,
    accounts: Seq<(Seq<char>, Seq<char>)>,
    d: int,
)
    requires
        bank::has_deltas(s.statement.lines),
        s.existing.len() > 0,
        held::opening_day(s) == Ok::<int, Seq<char>>(d),
        forall|i: int|
            0 <= i < held::unverified(s.existing).len() ==> !held::pending(
                #[trigger] held::unverified(s.existing)[i],
                d,
                bank::settled_through(s.statement),
            ),
        ({
            let lines = s.statement.lines;
            let n = lines.len() as int;
            let refs = bank::refs(bank::prefix(s.statement.bank), s.statement.account_no, lines);
            forall|day: int, w: int|
                #[trigger] lines_of(
                    lines,
                    held::by_refs(lines, refs, d, known),
                    Kind::New,
                    day,
                    w,
                    n,
                ) == 0 || dated(lines, d, day, w, n) <= tally(
                    s.existing,
                    covers(day, w),
                )
        }),
    ensures
        held::sorted(s, known, accounts) matches Ok(r) && r.opening == d && r.fresh is None
            && r.deferred == Seq::<held::DeferredV>::empty() && r.statuses.len()
            == s.statement.lines.len() && forall|i: int|
            0 <= i < r.statuses.len() ==> (#[trigger] r.statuses[i]) != Status::New && !(
            r.statuses[i] is Verifies),
{
    let lines = s.statement.lines;
    let n = lines.len() as int;
    let refs = bank::refs(bank::prefix(s.statement.bank), s.statement.account_no, lines);
    let statuses = held::by_refs(lines, refs, d, known);
    let all = held::spares(s.existing);
    let left = held::unclaimed(lines, statuses, all, n);
    assert forall|day: int, w: int|
        #[trigger] lines_of(lines, statuses, Kind::New, day, w, n) <= tally(
        left,
        moves(day, w),
    ) by {
        if lines_of(lines, statuses, Kind::New, day, w, n) > 0 {
            claims_leave(lines, statuses, all, n, day, w);
            spares_tally(s.existing, day, w);
            dated_by_refs(lines, refs, d, known, day, w, n);
        }
    }
    all_are_covered(lines, statuses, left, n);
    let first = held::booked(lines, refs, d, known, s.existing);
    let records = held::unverified(s.existing);
    nothing_ambiguous(lines, first, records, n);
    assert forall|i: int| 0 <= i < n implies held::checked(lines, first, records, i) == first[i] by {
        assert(first[i] != Status::New);
    }
    let after = Seq::new(lines.len(), |i: int| held::checked(lines, first, records, i));
    nothing_pending(s, after, accounts, d, records);
}

proof fn lines_counted(
    lines: Seq<LineV>,
    statuses: Seq<Status>,
    kind: Kind,
    day: int,
    w: int,
    n: int,
)
    ensures
        lines_of(lines, statuses, kind, day, w, n) == count(
            |i: int|
                plan::kind(statuses[i]) == kind && lines[i].book_date == day && amount::worth(
                    bank::delta(lines[i])->0,
                ) == w,
            n,
        ),
    decreases n,
{
    if n > 0 {
        lines_counted(lines, statuses, kind, day, w, n - 1);
    }
}

proof fn lines_of_alike(
    lines: Seq<LineV>,
    a: Seq<Status>,
    b: Seq<Status>,
    kind: Kind,
    day: int,
    w: int,
    n: int,
)
    requires
        forall|i: int|
            0 <= i < n ==> (plan::kind(#[trigger] a[i]) == kind <==> plan::kind(b[i]) == kind),
    ensures
        lines_of(lines, a, kind, day, w, n) == lines_of(lines, b, kind, day, w, n),
    decreases n,
{
    if n > 0 {
        lines_of_alike(lines, a, b, kind, day, w, n - 1);
        assert(plan::kind(a[n - 1]) == kind <==> plan::kind(b[n - 1]) == kind);
    }
}

/// The record that the line `li` checks, where it checks one.
pub open spec fn record_of_line(s: LandingV, li: int) -> HeldV {
    held::fitting(s.statement.lines[li], held::unverified(s.existing))[0]
}

proof fn fitting_is(l: LineV, records: Seq<HeldV>, i: int)
    requires
        0 <= i < held::fitting(l, records).len(),
    ensures
        records.contains(held::fitting(l, records)[i]),
        held::fits(l, held::fitting(l, records)[i]),
    decreases records.len(),
{
    let short = records.drop_last();
    let before = held::fitting(l, short);
    let x = held::fitting(l, records)[i];
    if i < before.len() {
        fitting_is(l, short, i);
        let k = choose|k: int| 0 <= k < short.len() && short[k] == x;
        assert(records[k] == x);
    } else {
        assert(records[records.len() - 1] == x);
    }
}

proof fn unverified_is(existing: Seq<HeldV>, i: int) -> (k: int)
    requires
        0 <= i < held::unverified(existing).len(),
    ensures
        0 <= k < existing.len(),
        existing[k] == held::unverified(existing)[i],
        existing[k].unverified,
        !existing[k].opening,
    decreases existing.len(),
{
    let short = existing.drop_last();
    if i < held::unverified(short).len() {
        unverified_is(short, i)
    } else {
        existing.len() - 1
    }
}

proof fn unverified_has(existing: Seq<HeldV>, k: int) -> (i: int)
    requires
        0 <= k < existing.len(),
        existing[k].unverified,
        !existing[k].opening,
    ensures
        0 <= i < held::unverified(existing).len(),
        held::unverified(existing)[i] == existing[k],
    decreases existing.len(),
{
    let short = existing.drop_last();
    if k < short.len() {
        unverified_has(short, k)
    } else {
        held::unverified(short).len() as int
    }
}

proof fn a_rival(lines: Seq<LineV>, statuses: Seq<Status>, p: HeldV, n: int, i: int)
    requires
        0 <= i < n,
        statuses[i] == Status::New,
        held::fits(lines[i], p),
    ensures
        held::rivals(lines, statuses, p, n) >= 1,
    decreases n,
{
    if i < n - 1 {
        a_rival(lines, statuses, p, n - 1, i);
    }
}

proof fn two_rivals(lines: Seq<LineV>, statuses: Seq<Status>, p: HeldV, n: int, i: int, j: int)
    requires
        0 <= i < j < n,
        statuses[i] == Status::New,
        statuses[j] == Status::New,
        held::fits(lines[i], p),
        held::fits(lines[j], p),
    ensures
        held::rivals(lines, statuses, p, n) >= 2,
    decreases n,
{
    if j < n - 1 {
        two_rivals(lines, statuses, p, n - 1, i, j);
    } else {
        a_rival(lines, statuses, p, n - 1, i);
    }
}

/// Is the record that a line checks among those held, and does no other line
/// fit it?
proof fn line_checks(
    s: LandingV,
    known: Seq<Seq<char>>,
    accounts: Seq<(Seq<char>, Seq<char>)>,
    li: int,
) -> (k: int)
    requires
        held::sorted(s, known, accounts) is Ok,
        0 <= li < s.statement.lines.len(),
        held::sorted(s, known, accounts)->Ok_0.statuses[li] is Verifies,
    ensures
        ({
            let r = held::sorted(s, known, accounts)->Ok_0;
            let lines = s.statement.lines;
            let first = held::booked(lines, r.refs, r.opening, known, s.existing);
            let p = record_of_line(s, li);
            &&& 0 <= k < s.existing.len()
            &&& s.existing[k] == p
            &&& p.unverified
            &&& !p.opening
            &&& held::fits(lines[li], p)
            &&& r.statuses[li] == Status::Verifies(p.transaction_id as i64)
            &&& first[li] == Status::New
            &&& held::rivals(lines, first, p, lines.len() as int) == 1
        }),
{
    sorted_parts(s, known, accounts);
    let r = held::sorted(s, known, accounts)->Ok_0;
    let lines = s.statement.lines;
    let first = held::booked(lines, r.refs, r.opening, known, s.existing);
    let records = held::unverified(s.existing);
    assert(r.statuses[li] == held::checked(lines, first, records, li));
    assert(held::by_refs(lines, r.refs, r.opening, known)[li] == held::by_ref(
        lines[li],
        r.refs[li],
        r.opening,
        known,
    ));
    fitting_is(lines[li], records, 0);
    let p = record_of_line(s, li);
    let i = choose|i: int| 0 <= i < records.len() && records[i] == p;
    unverified_is(s.existing, i)
}

proof fn record_is_found(existing: Seq<HeldV>, id: int, from: int, k: int)
    requires
        0 <= from <= k < existing.len(),
        existing[k].transaction_id == id,
    ensures
        plan::record_of(existing, id, from) matches Some(r) && from <= r < existing.len(),
    decreases k - from,
{
    if existing[from].transaction_id != id {
        record_is_found(existing, id, from + 1, k);
    }
}

proof fn check_is_in(
    g: Ground,
    accounts: Seq<(Seq<char>, Seq<char>)>,
    si: int,
    li: int,
    n: int,
    id: i64,
)
    requires
        0 <= li < n,
        g.sorted[si].statuses[li] == Status::Verifies(id),
        plan::record_of(g.ls[si].existing, id as int, 0) is Some,
    ensures
        plan::verified_in(g, accounts, si, n).contains(
            plan::verification(
                g,
                accounts,
                si,
                li,
                id,
                g.ls[si].existing[plan::record_of(g.ls[si].existing, id as int, 0)->0],
            ),
        ),
    decreases n,
{
    let before = plan::verified_in(g, accounts, si, n - 1);
    let now = plan::verified_in(g, accounts, si, n);
    let v = plan::verification(
        g,
        accounts,
        si,
        li,
        id,
        g.ls[si].existing[plan::record_of(g.ls[si].existing, id as int, 0)->0],
    );
    if li < n - 1 {
        check_is_in(g, accounts, si, li, n - 1, id);
        let k = choose|k: int| 0 <= k < before.len() && before[k] == v;
        assert(now[k] == v);
    } else {
        assert(now[now.len() - 1] == v);
    }
}

proof fn checks_of_each(
    g: Ground,
    accounts: Seq<(Seq<char>, Seq<char>)>,
    si: int,
    n: int,
    v: VerificationV,
)
    requires
        0 <= si < n,
        plan::verified_in(
            g,
            accounts,
            si,
            g.ls[si].statement.lines.len() as int,
        ).contains(v),
    ensures
        plan::verified(g, accounts, n).contains(v),
    decreases n,
{
    let before = plan::verified(g, accounts, n - 1);
    let more = plan::verified_in(
        g,
        accounts,
        n - 1,
        g.ls[n - 1].statement.lines.len() as int,
    );
    let now = plan::verified(g, accounts, n);
    if si < n - 1 {
        checks_of_each(g, accounts, si, n - 1, v);
        let k = choose|k: int| 0 <= k < before.len() && before[k] == v;
        assert(now[k] == v);
    } else {
        let k = choose|k: int| 0 <= k < more.len() && more[k] == v;
        assert(now[before.len() + k] == v);
    }
}

proof fn unchecked_are_not_vouched_for(
    g: Ground,
    accounts: Seq<(Seq<char>, Seq<char>)>,
    id: i64,
    list: Seq<Seq<char>>,
    i: int,
)
    requires
        0 <= i < plan::unchecked(g, accounts, id, list).len(),
    ensures
        !plan::vouches(g.ls, g.sorted, id, plan::unchecked(g, accounts, id, list)[i]),
    decreases list.len(),
{
    if i < plan::unchecked(g, accounts, id, list.drop_last()).len() {
        unchecked_are_not_vouched_for(g, accounts, id, list.drop_last(), i);
    }
}

proof fn ref_is_added(checks: Seq<VerificationV>, id: int, k: int) -> (i: int)
    requires
        0 <= k < checks.len(),
        checks[k].transaction_id == id,
    ensures
        0 <= i < refs_added(checks, id).len(),
        refs_added(checks, id)[i] == checks[k].statement_ref,
    decreases checks.len(),
{
    let short = checks.drop_last();
    if k < short.len() {
        ref_is_added(short, id, k)
    } else {
        refs_added(short, id).len() as int
    }
}

/// The table of the accounts with statements.
spec fn table(g: Ground) -> Seq<(Seq<char>, Seq<char>)> {
    accounts::table(g.chart.institution.accounts@)
}

/// Does `g` hold the statements sorted, and `p` the plan made from it?
spec fn is_plan_of(g: Ground, p: PlanV, known: Seq<Seq<char>>) -> bool {
    &&& plan::all_sorted(g.ls, known, table(g), g.ls.len() as int) == Ok::<
        Seq<SortedV>,
        Seq<char>,
    >(g.sorted)
    &&& g.new == pairs::new_lines(g.sorted)
    &&& g.new.len() == g.shapes.len()
    &&& laws::booked_once(g.ls, g.new, g.shapes)
    &&& plan::planned(g) == Ok::<PlanV, Seq<char>>(p)
}

proof fn sorted_one(g: Ground, p: PlanV, known: Seq<Seq<char>>, si: int)
    requires
        is_plan_of(g, p, known),
        0 <= si < g.ls.len(),
    ensures
        g.sorted.len() == g.ls.len(),
        held::sorted(g.ls[si], known, table(g)) == Ok::<SortedV, Seq<char>>(g.sorted[si]),
{
    each_sorted(g.ls, known, table(g), g.ls.len() as int);
}

/// The check of a line is among those of the plan, and clears its account.
proof fn line_is_checked(g: Ground, p: PlanV, known: Seq<Seq<char>>, si: int, li: int) -> (k: int)
    requires
        is_plan_of(g, p, known),
        0 <= si < g.ls.len(),
        0 <= li < g.ls[si].statement.lines.len(),
        g.sorted[si].statuses[li] is Verifies,
        forall|i: int|
            0 <= i < g.ls[si].existing.len() ==> i64::MIN <= (
            #[trigger] g.ls[si].existing[i]).transaction_id <= i64::MAX,
    ensures
        0 <= k < p.verified.len(),
        p.verified[k].transaction_id == record_of_line(g.ls[si], li).transaction_id,
        p.verified[k].statement_ref == g.sorted[si].refs[li],
        !p.verified[k].unchecked.contains(g.ls[si].account),
{
    let s = g.ls[si];
    sorted_one(g, p, known, si);
    sorted_parts(s, known, table(g));
    let at = line_checks(s, known, table(g), li);
    let record = record_of_line(s, li);
    let id = record.transaction_id as i64;
    assert(id as int == s.existing[at].transaction_id);
    record_is_found(s.existing, id as int, 0, at);
    let r = plan::record_of(s.existing, id as int, 0)->0;
    let v = plan::verification(g, table(g), si, li, id, s.existing[r]);
    check_is_in(g, table(g), si, li, s.statement.lines.len() as int, id);
    checks_of_each(g, table(g), si, g.ls.len() as int, v);
    if v.unchecked.contains(s.account) {
        let i = choose|i: int| 0 <= i < v.unchecked.len() && v.unchecked[i] == s.account;
        unchecked_are_not_vouched_for(g, table(g), id, s.existing[r].other_accounts, i);
        assert(g.sorted[si].statuses[li] == Status::Verifies(id));
        assert(g.sorted[si].statuses.contains(Status::Verifies(id)));
        assert(g.ls[si].account == s.account);
    }
    choose|k: int| 0 <= k < p.verified.len() && p.verified[k] == v
}

proof fn still_from_a_statement(h: HeldV, account: Seq<char>, p: PlanV)
    requires
        held::from_a_statement(h),
    ensures
        held::from_a_statement(updated(h, account, p)),
{
    let i = choose|i: int|
        0 <= i < h.refs.len() && (text::starts(
            #[trigger] h.refs[i],
            bank::prefix(bank::Bank::Cathay),
        ) || text::starts(h.refs[i], bank::prefix(bank::Bank::LineBank)));
    assert(updated(h, account, p).refs[i] == h.refs[i]);
}

/// Once a line has checked a record, its posting can cover the line.
proof fn a_checked_record_covers(
    g: Ground,
    p: PlanV,
    known: Seq<Seq<char>>,
    si: int,
    li: int,
)
    requires
        is_plan_of(g, p, known),
        0 <= si < g.ls.len(),
        0 <= li < g.ls[si].statement.lines.len(),
        g.sorted[si].statuses[li] is Verifies,
        forall|i: int|
            0 <= i < g.ls[si].existing.len() ==> i64::MIN <= (
            #[trigger] g.ls[si].existing[i]).transaction_id <= i64::MAX,
    ensures
        ({
            let s = g.ls[si];
            let h = updated(record_of_line(s, li), s.account, p);
            covers(h.date, amount::worth(bank::delta(s.statement.lines[li])->0))(h)
        }),
{
    let s = g.ls[si];
    sorted_one(g, p, known, si);
    sorted_parts(s, known, table(g));
    let at = line_checks(s, known, table(g), li);
    let record = record_of_line(s, li);
    let h = updated(record, s.account, p);
    let k = line_is_checked(g, p, known, si, li);
    assert(p.verified[k].transaction_id == record.transaction_id);
    assert(clears(p.verified, record.transaction_id, s.account));
    let i = ref_is_added(p.verified, record.transaction_id, k);
    refs_start(s, li);
    assert(h.refs[record.refs.len() + i] == g.sorted[si].refs[li]);
    assert(held::from_a_statement(h));
}

/// Where a line of the account is booked with its partner's posting: does every
/// line of that day and amount that the ledger knows, or that checks a record,
/// have its own posting there, so that it leaves that one alone?
pub open spec fn is_backed(g: Ground, p: PlanV, si: int, day: int, w: int) -> bool {
    let s = g.ls[si];
    let lines = s.statement.lines;
    let statuses = g.sorted[si].statuses;
    &&& lines_of(lines, statuses, Kind::Known, day, w, lines.len() as int) <= tally(
        s.existing,
        covers(day, w),
    )
    &&& forall|k: int|
        0 <= k < s.existing.len() && covers(day, w)(#[trigger] s.existing[k]) ==> day_after(
            s.existing[k],
            p,
        ) == day
    &&& forall|li: int|
        0 <= li < lines.len() && (#[trigger] statuses[li]) is Verifies && lines[li].book_date == day
            && amount::worth(bank::delta(lines[li])->0) == w ==> day_after(
            record_of_line(s, li),
            p,
        ) == day
}

proof fn kept_postings_cover(g: Ground, p: PlanV, known: Seq<Seq<char>>, si: int, day: int, w: int)
    requires
        is_plan_of(g, p, known),
        0 <= si < g.ls.len(),
        is_backed(g, p, si, day, w),
        forall|i: int|
            0 <= i < g.ls[si].existing.len() ==> i64::MIN <= (
            #[trigger] g.ls[si].existing[i]).transaction_id <= i64::MAX,
    ensures
        ({
            let s = g.ls[si];
            let lines = s.statement.lines;
            tally(kept(s, p), covers(day, w)) >= tally(s.existing, covers(day, w)) + lines_of(
                lines,
                g.sorted[si].statuses,
                Kind::Verifies,
                day,
                w,
                lines.len() as int,
            )
        }),
{
    let s = g.ls[si];
    let lines = s.statement.lines;
    let m = lines.len() as int;
    let n = s.existing.len() as int;
    let statuses = g.sorted[si].statuses;
    sorted_one(g, p, known, si);
    sorted_parts(s, known, table(g));
    let now = kept(s, p);
    let c = covers(day, w);
    let is_one = |i: int|
        plan::kind(statuses[i]) == Kind::Verifies && lines[i].book_date == day && amount::worth(
            bank::delta(lines[i])->0,
        ) == w;
    let at = |i: int|
        choose|k: int| 0 <= k < n && s.existing[k] == record_of_line(s, i);
    let h = |i: int|
        if 0 <= i < m && is_one(i) {
            Some(at(i))
        } else {
            None
        };
    let q = |k: int| true;
    assert forall|i: int| 0 <= i < m && is_one(i) implies 0 <= #[trigger] at(i) < n
        && s.existing[at(i)] == record_of_line(s, i) by {
        let k = line_checks(s, known, table(g), i);
        assert(0 <= k < n && s.existing[k] == record_of_line(s, i));
    }
    assert forall|i: int| 0 <= i < m implies (#[trigger] h(i) matches Some(o) ==> 0 <= o < n) by {
        if is_one(i) {
            assert(0 <= at(i) < n);
        }
    }
    assert forall|i: int, j: int| 0 <= i < j < m && #[trigger] h(i) is Some implies h(i)
        != #[trigger] h(j) by {
        if h(j) == h(i) {
            assert(is_one(i) && is_one(j));
            assert(s.existing[at(i)] == record_of_line(s, i));
            assert(s.existing[at(j)] == record_of_line(s, j));
            let a = line_checks(s, known, table(g), i);
            let b = line_checks(s, known, table(g), j);
            let r = g.sorted[si];
            let first = held::booked(lines, r.refs, r.opening, known, s.existing);
            two_rivals(lines, first, record_of_line(s, i), m, i, j);
        }
    }
    count_pointed_at(h, q, m, n);
    lines_counted(lines, statuses, Kind::Verifies, day, w, m);
    count_within(is_one, |i: int| h(i) is Some && q(h(i)->0), m);
    let pointed = |k: int| pointed_at(h, q, m, k);
    let was = |k: int| c(s.existing[k]);
    let is = |k: int| c(now[k]);
    assert forall|k: int| 0 <= k < n && #[trigger] was(k) implies is(k) && !pointed(k) by {
        assert(now[k] == updated(s.existing[k], s.account, p));
        still_from_a_statement(s.existing[k], s.account, p);
        if pointed(k) {
            let i = choose|i: int| 0 <= i < m && #[trigger] h(i) == Some(k);
            let a = line_checks(s, known, table(g), i);
            assert(s.existing[at(i)] == record_of_line(s, i));
        }
    }
    assert forall|k: int| 0 <= k < n && #[trigger] pointed(k) implies is(k) by {
        let i = choose|i: int| 0 <= i < m && #[trigger] h(i) == Some(k);
        assert(s.existing[at(i)] == record_of_line(s, i));
        assert(now[k] == updated(s.existing[k], s.account, p));
        a_checked_record_covers(g, p, known, si, i);
        assert(statuses[i] is Verifies);
    }
    count_apart(was, pointed, is, n);
    tally_by_place(s.existing, c, n);
    tally_by_place(now, c, n);
    assert(s.existing.take(n) =~= s.existing);
    assert(now.take(n) =~= now);
    count_within(|i: int| c(s.existing[i]), was, n);
    count_within(is, |i: int| c(now[i]), n);
}

/// The postings held before can cover every line of that day and amount but the
/// new ones.
proof fn old_lines_are_covered(
    g: Ground,
    p: PlanV,
    known: Seq<Seq<char>>,
    si: int,
    day: int,
    w: int,
)
    requires
        is_plan_of(g, p, known),
        0 <= si < g.ls.len(),
        is_backed(g, p, si, day, w),
        forall|i: int|
            0 <= i < g.ls[si].existing.len() ==> i64::MIN <= (
            #[trigger] g.ls[si].existing[i]).transaction_id <= i64::MAX,
    ensures
        ({
            let s = g.ls[si];
            let lines = s.statement.lines;
            let statuses = g.sorted[si].statuses;
            let n = lines.len() as int;
            tally(kept(s, p), covers(day, w)) >= lines_of(lines, statuses, Kind::Known, day, w, n)
                + lines_of(lines, statuses, Kind::Covered, day, w, n) + lines_of(
                lines,
                statuses,
                Kind::Verifies,
                day,
                w,
                n,
            )
        }),
{
    let s = g.ls[si];
    let lines = s.statement.lines;
    let n = lines.len() as int;
    let r = g.sorted[si];
    sorted_one(g, p, known, si);
    sorted_parts(s, known, table(g));
    kept_postings_cover(g, p, known, si, day, w);
    spares_tally(s.existing, day, w);
    let by = held::by_refs(lines, r.refs, r.opening, known);
    let all = held::spares(s.existing);
    let left = held::unclaimed(lines, by, all, n);
    let first = held::booked(lines, r.refs, r.opening, known, s.existing);
    assert forall|i: int| 0 <= i < n implies (plan::kind(#[trigger] r.statuses[i]) == Kind::Known
        <==> plan::kind(by[i]) == Kind::Known) by {}
    lines_of_alike(lines, r.statuses, by, Kind::Known, day, w, n);
    claims_leave_no_more(lines, by, all, n, day, w);
    covering_takes(lines, by, left, n, day, w);
    assert forall|i: int| 0 <= i < n implies (plan::kind(#[trigger] r.statuses[i]) == Kind::Covered
        <==> plan::kind(first[i]) == Kind::Covered) by {}
    lines_of_alike(lines, r.statuses, first, Kind::Covered, day, w, n);
}

/// Is the new line at `at` booked by another's transaction?
pub open spec fn is_absorbed(g: Ground, at: (int, int)) -> bool {
    exists|k: int|
        0 <= k < g.new.len() && #[trigger] g.new[k] == at && g.shapes[k] == Shape::Absorbed
}

/// Is a line of the statement of that day and worth booked with its partner's
/// posting, before this plan or by it?
pub open spec fn relied_on(g: Ground, si: int, day: int, w: int) -> bool {
    let lines = g.ls[si].statement.lines;
    exists|li: int|
        0 <= li < lines.len() && (#[trigger] lines[li]).book_date == day && amount::worth(
            bank::delta(lines[li])->0,
        ) == w && (g.sorted[si].statuses[li] == Status::Covered || is_absorbed(g, (si, li)))
}

/// Does an opening stand where it stood?
pub open spec fn openings_stay(s: LandingV, p: PlanV) -> bool {
    forall|k: int|
        0 <= k < s.existing.len() && (#[trigger] s.existing[k]).opening ==> day_after(
            s.existing[k],
            p,
        ) == s.existing[k].date
}

/// Does an account that records carry without an opening keep every posting
/// after the day its record began after?
pub open spec fn begins_no_earlier(s: LandingV, opening: int, p: PlanV, ids: Seq<int>) -> bool {
    s.existing.len() > 0 && !has_opening(s.existing) ==> forall|k: int|
        0 <= k < held_after(s, p, ids).len() ==> (#[trigger] held_after(s, p, ids)[k]).date
            > opening
}

/// Does a record that is left unverified on the account move, if at all, past
/// the end of its statement?
pub open spec fn waits_past(s: LandingV, p: PlanV) -> bool {
    forall|k: int|
        0 <= k < s.existing.len() && !(#[trigger] s.existing[k]).opening && updated(
            s.existing[k],
            s.account,
            p,
        ).unverified ==> (chain::redate_of(redated(p), s.existing[k].transaction_id) matches Some(
            day,
        ) ==> day > bank::settled_through(s.statement))
}

/// Does the plan leave what the ledger held on the account of the statement
/// `si` where its lines find it?
pub open spec fn leaves_in_place(g: Ground, p: PlanV, ids: Seq<int>, si: int) -> bool {
    let s = g.ls[si];
    &&& openings_stay(s, p)
    &&& begins_no_earlier(s, g.sorted[si].opening, p, ids)
    &&& waits_past(s, p)
    &&& forall|day: int, w: int| #[trigger] relied_on(g, si, day, w) ==> is_backed(g, p, si, day, w)
}

/// Are the ids of the transactions held those of a database?
pub open spec fn has_ids(s: LandingV) -> bool {
    forall|i: int|
        0 <= i < s.existing.len() ==> i64::MIN <= (#[trigger] s.existing[i]).transaction_id
            <= i64::MAX
}

/// Does the ledger know what it knew, and the refs of what the plan wrote?
pub open spec fn knows(again: Seq<Seq<char>>, known: Seq<Seq<char>>, p: PlanV) -> bool {
    &&& forall|r: Seq<char>| #[trigger] known.contains(r) ==> again.contains(r)
    &&& forall|i: int|
        0 <= i < p.transactions.len() ==> ((#[trigger] p.transactions[i]).1.external_ref matches Some(
            r,
        ) ==> again.contains(r))
    &&& forall|i: int|
        0 <= i < p.verified.len() ==> again.contains((#[trigger] p.verified[i]).statement_ref)
}

proof fn opening_days_hold(existing: Seq<HeldV>)
    ensures
        held::opening_days(existing).len() == 0 <==> !has_opening(existing),
        held::opening_days(existing).len() == 1 ==> forall|i: int|
            0 <= i < existing.len() && (#[trigger] existing[i]).opening ==> existing[i].date
                == held::opening_days(existing)[0],
    decreases existing.len(),
{
    if existing.len() > 0 {
        let short = existing.drop_last();
        opening_days_hold(short);
        let before = held::opening_days(short);
        let now = held::opening_days(existing);
        if has_opening(short) {
            let i = choose|i: int| 0 <= i < short.len() && (#[trigger] short[i]).opening;
            assert(existing[i].opening);
        }
        if has_opening(existing) && !existing.last().opening {
            let i = choose|i: int| 0 <= i < existing.len() && (#[trigger] existing[i]).opening;
            assert(short[i].opening);
        }
        if existing.last().opening {
            assert(existing[existing.len() - 1].opening);
        }
        if now.len() == 1 {
            assert forall|i: int|
                0 <= i < existing.len() && (#[trigger] existing[i]).opening implies existing[i].date
                == now[0] by {
                if i < short.len() {
                    assert(short[i].opening);
                    assert(before.len() == 1);
                }
            }
        }
    }
}

/// The record of the account begins on the day it did, or later.
proof fn begins_again(g: Ground, p: PlanV, known: Seq<Seq<char>>, ids: Seq<int>, si: int, t: LandingV)
    requires
        is_plan_of(g, p, known),
        0 <= si < g.ls.len(),
        land_apart(g.ls),
        only_openings_open(g),
        openings_stay(g.ls[si], p),
        begins_no_earlier(g.ls[si], g.sorted[si].opening, p, ids),
        same_items(t.existing, held_after(g.ls[si], p, ids)),
        t.account == g.ls[si].account,
        t.statement == g.ls[si].statement,
    ensures
        t.existing.len() > 0,
        held::opening_day(t) matches Ok(d) && d >= g.sorted[si].opening,
        forall|k: int|
            0 <= k < t.existing.len() && (#[trigger] t.existing[k]).unverified ==> exists|i: int|
                0 <= i < g.ls[si].existing.len() && t.existing[k] == updated(
                    #[trigger] g.ls[si].existing[i],
                    g.ls[si].account,
                    p,
                ),
{
    let s = g.ls[si];
    let c = s.statement.currency;
    let ts = plan::transactions_of(p.transactions);
    let all = held_after(s, p, ids);
    let old = kept(s, p);
    let new = holdings(ts, ids, s.account, c);
    assert forall|i: int| 0 <= i < g.ls.len() implies ((#[trigger] g.sorted[i]).fresh is Some
        <==> g.ls[i].existing.len() == 0) by {
        sorted_one(g, p, known, i);
        sorted_parts(g.ls[i], known, table(g));
    }
    sorted_one(g, p, known, si);
    sorted_parts(s, known, table(g));
    assert(ts == planned_through(g, g.new.len() as int));
    plan_held_well(g, ids, si);
    tally_of_the_same(t.existing, all, |h: HeldV| true);
    assert forall|k: int| 0 <= k < t.existing.len() && (#[trigger] t.existing[k]).unverified implies (
    exists|i: int|
        0 <= i < s.existing.len() && t.existing[k] == updated(
            #[trigger] s.existing[i],
            s.account,
            p,
        )) by {
        let j = found_in_the_same(t.existing, all, k);
        if j < old.len() {
            assert(all[j] == updated(s.existing[j], s.account, p));
        } else {
            assert(all[j] == new[j - old.len()]);
        }
    }
    opening_days_hold(s.existing);
    if s.existing.len() == 0 {
        let d = bank::start(s.statement) - 1;
        let i = choose|i: int| 0 <= i < new.len() && (#[trigger] new[i]).opening;
        assert(all[old.len() + i] == new[i]);
        let j = found_in_the_same(all, t.existing, old.len() + i);
        assert(t.existing[j].opening);
        assert forall|k: int| 0 <= k < t.existing.len() && (#[trigger] t.existing[k]).opening implies
            t.existing[k].date == d by {
            let z = found_in_the_same(t.existing, all, k);
            assert(all[z] == new[z - old.len()]);
        }
        one_opening(t.existing, d);
    } else if has_opening(s.existing) {
        let d = held::opening_days(s.existing)[0];
        let i = choose|i: int| 0 <= i < s.existing.len() && (#[trigger] s.existing[i]).opening;
        assert(all[i] == updated(s.existing[i], s.account, p));
        let j = found_in_the_same(all, t.existing, i);
        assert(t.existing[j].opening);
        assert forall|k: int| 0 <= k < t.existing.len() && (#[trigger] t.existing[k]).opening implies
            t.existing[k].date == d by {
            let z = found_in_the_same(t.existing, all, k);
            if z < old.len() {
                assert(all[z] == updated(s.existing[z], s.account, p));
            } else {
                assert(all[z] == new[z - old.len()]);
            }
        }
        one_opening(t.existing, d);
    } else {
        assert forall|k: int| 0 <= k < t.existing.len() implies !(#[trigger] t.existing[k]).opening
            && t.existing[k].date > g.sorted[si].opening by {
            let z = found_in_the_same(t.existing, all, k);
            if z < old.len() {
                assert(all[z] == updated(s.existing[z], s.account, p));
            } else {
                assert(all[z] == new[z - old.len()]);
            }
            assert(all[z].date > g.sorted[si].opening);
        }
        one_opening(t.existing, 0);
        assert(all.len() >= s.existing.len());
        assert(t.existing[0].date > g.sorted[si].opening);
    }
}

proof fn waits_or_is_checked(
    s: LandingV,
    statuses: Seq<Status>,
    accounts: Seq<(Seq<char>, Seq<char>)>,
    opening: int,
    records: Seq<HeldV>,
    i: int,
) -> (j: int)
    requires
        held::deferrals(s, statuses, accounts, opening, records) is Ok,
        0 <= i < records.len(),
        held::pending(records[i], opening, bank::settled_through(s.statement)),
        !held::is_verified(statuses, records[i]),
    ensures
        0 <= j < held::deferrals(s, statuses, accounts, opening, records)->Ok_0.len(),
        held::deferrals(s, statuses, accounts, opening, records)->Ok_0[j].transaction_id
            == records[i].transaction_id,
    decreases records.len(),
{
    let short = records.drop_last();
    if i < short.len() {
        waits_or_is_checked(s, statuses, accounts, opening, short, i)
    } else {
        held::deferrals(s, statuses, accounts, opening, short)->Ok_0.len() as int
    }
}

proof fn deferred_of_each(sorted: Seq<SortedV>, si: int, j: int) -> (k: int)
    requires
        0 <= si < sorted.len(),
        0 <= j < sorted[si].deferred.len(),
    ensures
        0 <= k < plan::deferred(sorted).len(),
        plan::deferred(sorted)[k] == sorted[si].deferred[j],
    decreases sorted.len(),
{
    let short = sorted.drop_last();
    if si < short.len() {
        deferred_of_each(short, si, j)
    } else {
        plan::deferred(short).len() + j
    }
}

proof fn is_redated(list: Seq<(int, int)>, k: int)
    requires
        0 <= k < list.len(),
    ensures
        chain::redate_of(list, list[k].0) is Some,
    decreases list.len(),
{
    if k < list.len() - 1 {
        is_redated(list.drop_last(), k);
    }
}

/// No record that is left unverified is from the statement's last days.
proof fn nothing_waits(
    g: Ground,
    p: PlanV,
    known: Seq<Seq<char>>,
    si: int,
    i: int,
    d: int,
)
    requires
        is_plan_of(g, p, known),
        0 <= si < g.ls.len(),
        has_ids(g.ls[si]),
        waits_past(g.ls[si], p),
        0 <= i < g.ls[si].existing.len(),
        !g.ls[si].existing[i].opening,
        updated(g.ls[si].existing[i], g.ls[si].account, p).unverified,
        d >= g.sorted[si].opening,
    ensures
        !held::pending(
            updated(g.ls[si].existing[i], g.ls[si].account, p),
            d,
            bank::settled_through(g.ls[si].statement),
        ),
{
    let s = g.ls[si];
    let h = s.existing[i];
    let now = updated(h, s.account, p);
    let settled = bank::settled_through(s.statement);
    let r = g.sorted[si];
    sorted_one(g, p, known, si);
    sorted_parts(s, known, table(g));
    if held::pending(now, d, settled) {
        assert(chain::redate_of(redated(p), h.transaction_id) is None);
        let at = unverified_has(s.existing, i);
        let records = held::unverified(s.existing);
        assert(held::pending(records[at], r.opening, settled));
        if held::is_verified(r.statuses, h) {
            let li = choose|li: int|
                0 <= li < r.statuses.len() && (#[trigger] r.statuses[li] matches Status::Verifies(
                    id,
                ) && id == h.transaction_id);
            let a = line_checks(s, known, table(g), li);
            let k = line_is_checked(g, p, known, si, li);
            assert(i64::MIN <= s.existing[a].transaction_id <= i64::MAX);
            assert(p.verified[k].transaction_id == h.transaction_id);
            assert(clears(p.verified, h.transaction_id, s.account));
        } else {
            let j = waits_or_is_checked(s, r.statuses, table(g), r.opening, records, at);
            let k = deferred_of_each(g.sorted, si, j);
            let later = plan::deferred_moves(p.deferred);
            let list = redated(p);
            let z = plan::moved(p.verified).len() + k;
            assert(p.deferred == plan::deferred(g.sorted));
            assert(list[z] == later[k]);
            is_redated(list, z);
        }
    }
}

proof fn new_line_at(all: Seq<SortedV>, si: int, li: int) -> (k: int)
    requires
        0 <= si < all.len(),
        0 <= li < all[si].statuses.len(),
        all[si].statuses[li] == Status::New,
    ensures
        0 <= k < pairs::new_lines(all).len(),
        pairs::new_lines(all)[k] == (si, li),
    decreases all.len(),
{
    let short = all.drop_last();
    if si < short.len() {
        new_line_at(short, si, li)
    } else {
        pairs::new_lines(short).len() + new_line_in(all.last().statuses, si, li)
    }
}

proof fn new_line_in(statuses: Seq<Status>, si: int, li: int) -> (k: int)
    requires
        0 <= li < statuses.len(),
        statuses[li] == Status::New,
    ensures
        0 <= k < pairs::new_in(statuses, si).len(),
        pairs::new_in(statuses, si)[k] == (si, li),
    decreases statuses.len(),
{
    let short = statuses.drop_last();
    if li < short.len() {
        new_line_in(short, si, li)
    } else {
        pairs::new_in(short, si).len() as int
    }
}

proof fn transaction_at(g: Ground, n: int, k: int) -> (i: int)
    requires
        0 <= k < n <= g.new.len(),
        plan::line_transactions(g, n) is Some,
        g.shapes[k] != Shape::Absorbed,
    ensures
        0 <= i < plan::line_transactions(g, n)->0.len(),
        plan::line_transactions(g, n)->0[i].1.external_ref == Some(
            g.sorted[g.new[k].0].refs[g.new[k].1],
        ),
    decreases n,
{
    if k < n - 1 {
        transaction_at(g, n - 1, k)
    } else {
        plan::line_transactions(g, n - 1)->0.len() as int
    }
}

/// A line that relies on no partner's posting is known by its own ref.
proof fn line_is_known(
    g: Ground,
    p: PlanV,
    known: Seq<Seq<char>>,
    again: Seq<Seq<char>>,
    si: int,
    li: int,
)
    requires
        is_plan_of(g, p, known),
        knows(again, known, p),
        0 <= si < g.ls.len(),
        has_ids(g.ls[si]),
        0 <= li < g.ls[si].statement.lines.len(),
        g.ls[si].statement.lines[li].book_date > g.sorted[si].opening,
        !relied_on(
            g,
            si,
            g.ls[si].statement.lines[li].book_date,
            amount::worth(bank::delta(g.ls[si].statement.lines[li])->0),
        ),
    ensures
        again.contains(g.sorted[si].refs[li]),
{
    let s = g.ls[si];
    let r = g.sorted[si];
    let lines = s.statement.lines;
    sorted_one(g, p, known, si);
    sorted_parts(s, known, table(g));
    assert(lines[li] == lines[li]);
    let st = r.statuses[li];
    match st {
        Status::Verifies(_) => {
            let k = line_is_checked(g, p, known, si, li);
            assert(again.contains(p.verified[k].statement_ref));
        },
        Status::New => {
            let k = new_line_at(g.sorted, si, li);
            assert(g.new[k] == (si, li));
            assert(g.shapes[k] != Shape::Absorbed);
            let n = g.new.len() as int;
            let i = transaction_at(g, n, k);
            let first = plan::openings(g.ls, g.sorted, g.ls.len() as int);
            assert(p.transactions[first.len() + i] == plan::line_transactions(g, n)->0[i]);
        },
        _ => {
            assert(known.contains(r.refs[li]));
        },
    }
}

/// A statement imported again, once the plan is carried out in the ledger, is
/// sorted into nothing new.
proof fn sorted_again(
    g: Ground,
    p: PlanV,
    known: Seq<Seq<char>>,
    again: Seq<Seq<char>>,
    ids: Seq<int>,
    si: int,
    t: LandingV,
)
    requires
        is_plan_of(g, p, known),
        knows(again, known, p),
        forall|i: int| 0 <= i < g.ls.len() ==> has_ids(#[trigger] g.ls[i]),
        land_apart(g.ls),
        only_openings_open(g),
        0 <= si < g.ls.len(),
        leaves_in_place(g, p, ids, si),
        same_items(t.existing, held_after(g.ls[si], p, ids)),
        t.account == g.ls[si].account,
        t.statement == g.ls[si].statement,
    ensures
        held::sorted(t, again, table(g)) matches Ok(r) && r.opening >= g.sorted[si].opening
            && r.fresh is None && r.deferred == Seq::<held::DeferredV>::empty() && r.statuses.len()
            == t.statement.lines.len() && forall|i: int|
            0 <= i < r.statuses.len() ==> (#[trigger] r.statuses[i]) != Status::New && !(
            r.statuses[i] is Verifies),
{
    let s = g.ls[si];
    let c = s.statement.currency;
    let lines = s.statement.lines;
    let n = lines.len() as int;
    let ts = plan::transactions_of(p.transactions);
    let r = g.sorted[si];
    let opening = r.opening;
    assert(has_ids(g.ls[si]));
    sorted_one(g, p, known, si);
    sorted_parts(s, known, table(g));
    begins_again(g, p, known, ids, si, t);
    let d = held::opening_day(t)->Ok_0;
    let all = held_after(s, p, ids);
    let new = holdings(ts, ids, s.account, c);
    let records = held::unverified(t.existing);
    assert forall|i: int| 0 <= i < records.len() implies !held::pending(
        #[trigger] records[i],
        d,
        bank::settled_through(t.statement),
    ) by {
        let k = unverified_is(t.existing, i);
        let o = choose|o: int|
            0 <= o < s.existing.len() && t.existing[k] == updated(
                #[trigger] s.existing[o],
                s.account,
                p,
            );
        nothing_waits(g, p, known, si, o, d);
    }
    assert(refs_are_banks(g)) by {
        assert forall|k: int| 0 <= k < g.new.len() implies text::starts(
            g.sorted[(#[trigger] g.new[k]).0].refs[g.new[k].1],
            bank::prefix(g.ls[g.new[k].0].statement.bank),
        ) by {
            all_statuses_there(g, p, known);
            new_lines_among(g.ls, g.sorted, 0, 0, 0);
            let (i, l) = g.new[k];
            sorted_one(g, p, known, i);
            sorted_parts(g.ls[i], known, table(g));
            refs_start(g.ls[i], l);
        }
    }
    let by = held::by_refs(lines, r.refs, d, again);
    assert forall|day: int, w: int|
        #[trigger] lines_of(lines, by, Kind::New, day, w, n) == 0 || dated(lines, d, day, w, n)
            <= tally(t.existing, covers(day, w)) by {
        dated_later(lines, opening, d, day, w, n);
        if day > d {
            if relied_on(g, si, day, w) {
                old_lines_are_covered(g, p, known, si, day, w);
                assert forall|i: int|
                    0 <= i < n && lines[i].book_date > opening implies !(#[trigger] r.statuses[i]
                    is PredatesOpening) by {}
                dated_by_kind(lines, r.statuses, opening, day, w, n);
                all_statuses_there(g, p, known);
                new_lines_among(g.ls, g.sorted, si, day, w);
                every_line_has_a_leg(g, si, day, w);
                lines_are_held(g, si, ids, day, w, g.new.len() as int);
                assert(ts == planned_through(g, g.new.len() as int));
                tally_together(kept(s, p), new, covers(day, w));
                tally_of_the_same(t.existing, all, covers(day, w));
            } else {
                assert forall|i: int|
                    0 <= i < n && lines[i].book_date == day && amount::worth(
                        bank::delta(lines[i])->0,
                    ) == w implies plan::kind(#[trigger] by[i]) != Kind::New by {
                    line_is_known(g, p, known, again, si, i);
                    assert(by[i] == held::by_ref(lines[i], r.refs[i], d, again));
                }
                no_lines_of(lines, by, Kind::New, day, w, n);
            }
        }
    }
    what_is_held_is_not_new(t, again, table(g), d);
}

proof fn all_statuses_there(g: Ground, p: PlanV, known: Seq<Seq<char>>)
    requires
        is_plan_of(g, p, known),
    ensures
        g.sorted.len() == g.ls.len(),
        forall|i: int|
            0 <= i < g.sorted.len() ==> (#[trigger] g.sorted[i]).statuses.len()
                == g.ls[i].statement.lines.len(),
{
    each_sorted(g.ls, known, table(g), g.ls.len() as int);
    assert forall|i: int| 0 <= i < g.sorted.len() implies (#[trigger] g.sorted[i]).statuses.len()
        == g.ls[i].statement.lines.len() by {
        sorted_one(g, p, known, i);
        sorted_parts(g.ls[i], known, table(g));
    }
}

/// Is the plan one made of the statements `ls`, such that carrying it out
/// leaves what the ledger held where the lines find it?
pub open spec fn is_repeatable(
    chart: Chart,
    ls: Seq<LandingV>,
    known: Seq<Seq<char>>,
    g: Ground,
    p: PlanV,
    ids: Seq<int>,
) -> bool {
    &&& plan::plannable(ls)
    &&& land_apart(ls)
    &&& forall|i: int| 0 <= i < ls.len() ==> has_ids(#[trigger] ls[i])
    &&& plan::all_sorted(
        ls,
        known,
        accounts::table(chart.institution.accounts@),
        ls.len() as int,
    ) == Ok::<Seq<SortedV>, Seq<char>>(g.sorted)
    &&& only_openings_open(g)
    &&& plan::planned(g) == Ok::<PlanV, Seq<char>>(p)
    &&& forall|i: int| 0 <= i < ls.len() ==> #[trigger] leaves_in_place(g, p, ids, i)
}

/// The plan that books nothing.
pub open spec fn nothing_to_do(sorted: Seq<SortedV>) -> PlanV {
    PlanV {
        transactions: Seq::empty(),
        openings: sorted.map_values(|s: SortedV| s.opening),
        verified: Seq::empty(),
        deferred: Seq::empty(),
    }
}

/// Statements imported again book nothing. Once a plan of statements is carried
/// out in the ledger, in whatever order it then lists its postings, the same
/// statements have no new line and open no account, whatever the ledger held
/// before. A plan of them books no transaction, checks no record and moves
/// none; it is refused only where the balances no longer add up. `again` are
/// the refs the ledger then knows and `ids` the ids its transactions have;
/// whatever the matcher is asked, there is nothing left for it.
pub proof fn statements_imported_again_book_nothing(
    chart: Chart,
    ls: Seq<LandingV>,
    known: Seq<Seq<char>>,
    matched: Seq<int>,
    drawn: Seq<Seq<(int, Dec)>>,
    candidates: Seq<Seq<char>>,
    sorted: Seq<SortedV>,
    p: PlanV,
    ids: Seq<int>,
    after: Seq<LandingV>,
    again: Seq<Seq<char>>,
    rematched: Seq<int>,
    redrawn: Seq<Seq<(int, Dec)>>,
    recandidates: Seq<Seq<char>>,
)
    requires
        is_repeatable(
            chart,
            ls,
            known,
            plan::ground(chart, ls, sorted, matched, drawn, candidates),
            p,
            ids,
        ),
        is_landed_after(after, ls, p, ids),
        knows(again, known, p),
    ensures
        ({
            let accounts = accounts::table(chart.institution.accounts@);
            let n = ls.len() as int;
            &&& plan::all_sorted(after, again, accounts, n) matches Ok(resorted)
            &&& resorted.len() == n
            &&& forall|i: int|
                0 <= i < n ==> (#[trigger] resorted[i]).opening >= sorted[i].opening
            &&& plan::planned(
                plan::ground(chart, after, resorted, rematched, redrawn, recandidates),
            ) == (match chain::all_chained(
                after,
                nothing_to_do(resorted).openings,
                Seq::empty(),
                Seq::empty(),
                n,
            ) {
                Ok(_) => Ok::<PlanV, Seq<char>>(nothing_to_do(resorted)),
                Err(e) => Err::<PlanV, Seq<char>>(e),
            })
        }),
{
    let accounts = accounts::table(chart.institution.accounts@);
    let n = ls.len() as int;
    let g = plan::ground(chart, ls, sorted, matched, drawn, candidates);
    each_sorted(ls, known, accounts, n);
    assert forall|i: int| 0 <= i < n implies (#[trigger] sorted[i]).statuses.len()
        == ls[i].statement.lines.len() by {
        assert(held::sorted(ls[i], known, accounts) == Ok::<SortedV, Seq<char>>(sorted[i]));
        sorted_parts(ls[i], known, accounts);
    }
    new_lines_among(ls, sorted, 0, 0, 0);
    assert(ls.take(n) =~= ls);
    laws::every_new_line_is_booked_once(ls, accounts, g.new, matched);
    assert(is_plan_of(g, p, known));
    assert forall|i: int| 0 <= i < n implies held::sorted(#[trigger] after[i], again, accounts)
        is Ok by {
        assert(leaves_in_place(g, p, ids, i));
        sorted_again(g, p, known, again, ids, i, after[i]);
    }
    sorted_each(after, again, accounts, n);
    each_sorted(after, again, accounts, n);
    let resorted = plan::all_sorted(after, again, accounts, n)->Ok_0;
    let h = plan::ground(chart, after, resorted, rematched, redrawn, recandidates);
    assert forall|i: int| 0 <= i < n implies {
        let r = #[trigger] resorted[i];
        &&& r.opening >= sorted[i].opening
        &&& r.fresh is None
        &&& r.deferred.len() == 0
        &&& r.statuses.len() == after[i].statement.lines.len()
        &&& forall|j: int|
            0 <= j < r.statuses.len() ==> (#[trigger] r.statuses[j]) != Status::New && !(
            r.statuses[j] is Verifies)
    } by {
        assert(leaves_in_place(g, p, ids, i));
        sorted_again(g, p, known, again, ids, i, after[i]);
        assert(held::sorted(after[i], again, accounts) == Ok::<SortedV, Seq<char>>(resorted[i]));
    }
    assert forall|i: int, j: int|
        0 <= i < resorted.len() && 0 <= j < resorted[i].statuses.len() implies (
    #[trigger] resorted[i].statuses[j]) != Status::New by {
        assert(resorted[i].fresh is None);
    }
    nothing_new_among(resorted);
    nothing_opened(after, resorted, n);
    assert forall|i: int, j: int|
        0 <= i < n && 0 <= j < h.ls[i].statement.lines.len() implies !(
    #[trigger] h.sorted[i].statuses[j] is Verifies) by {
        assert(resorted[i].fresh is None);
    }
    nothing_verified_among(h, accounts, n);
    nothing_deferred(resorted);
    let lines = plan::line_transactions(h, h.new.len() as int)->0;
    assert(plan::openings(after, resorted, n) + lines =~= Seq::empty());
    assert(plan::transactions_of(Seq::empty()) =~= Seq::<TransactionV>::empty());
    assert(plan::moved(Seq::empty()) + plan::deferred_moves(Seq::empty()) =~= Seq::<
        (int, int),
    >::empty());
}

/// Statements imported again add nothing. Where the ledger lists its postings
/// by date, those of one day as they stood and the new ones behind them, the
/// balances add up as they did: a plan of the same statements is made, and it
/// books no transaction, checks no record and moves none.
pub proof fn statements_imported_again_add_nothing(
    chart: Chart,
    ls: Seq<LandingV>,
    known: Seq<Seq<char>>,
    matched: Seq<int>,
    drawn: Seq<Seq<(int, Dec)>>,
    candidates: Seq<Seq<char>>,
    sorted: Seq<SortedV>,
    p: PlanV,
    ids: Seq<int>,
    again: Seq<Seq<char>>,
    rematched: Seq<int>,
    redrawn: Seq<Seq<(int, Dec)>>,
    recandidates: Seq<Seq<char>>,
)
    requires
        is_repeatable(
            chart,
            ls,
            known,
            plan::ground(chart, ls, sorted, matched, drawn, candidates),
            p,
            ids,
        ),
        knows(again, known, p),
    ensures
        ({
            let accounts = accounts::table(chart.institution.accounts@);
            let after = landed_after(ls, p, ids);
            &&& plan::all_sorted(after, again, accounts, ls.len() as int) matches Ok(resorted)
            &&& plan::planned(
                plan::ground(chart, after, resorted, rematched, redrawn, recandidates),
            ) == Ok::<PlanV, Seq<char>>(nothing_to_do(resorted))
        }),
{
    let accounts = accounts::table(chart.institution.accounts@);
    let n = ls.len() as int;
    let g = plan::ground(chart, ls, sorted, matched, drawn, candidates);
    let after = landed_after(ls, p, ids);
    assert(is_landed_after(after, ls, p, ids)) by {
        assert forall|i: int| 0 <= i < n implies (#[trigger] after[i]).account == ls[i].account
            && after[i].statement == ls[i].statement && after[i].files == ls[i].files
            && same_items(after[i].existing, held_after(ls[i], p, ids)) by {
            let all = held_after(ls[i], p, ids);
            carried::arranged_are_the_same(all, day_keys(all));
            assert(after[i].existing == by_day(all));
        }
    }
    statements_imported_again_book_nothing(
        chart,
        ls,
        known,
        matched,
        drawn,
        candidates,
        sorted,
        p,
        ids,
        after,
        again,
        rematched,
        redrawn,
        recandidates,
    );
    let resorted = plan::all_sorted(after, again, accounts, n)->Ok_0;
    let days = sorted.map_values(|s: SortedV| s.opening);
    let redays = nothing_to_do(resorted).openings;
    each_sorted(ls, known, accounts, n);
    assert forall|i: int| 0 <= i < n implies chain::chained(
        #[trigger] after[i],
        redays[i],
        Seq::empty(),
        Seq::empty(),
    ) is Ok by {
        laws::each_chained(
            ls,
            days,
            plan::transactions_of(p.transactions),
            redated(p),
            n,
            i,
        );
        assert(resorted[i].opening >= sorted[i].opening);
        chained_again(ls[i], p, ids, days[i], redays[i]);
    }
    each_chain(after, redays, Seq::empty(), Seq::empty(), n);
}

} // verus!
