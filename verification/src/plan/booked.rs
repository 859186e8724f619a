//! What is booked for each line: on which accounts, and how much.

use vstd::prelude::*;

use crate::accounts;
use crate::amount;
use crate::amount::Dec;
use crate::model;
use crate::model::{PostingV, Source};
use crate::plan;
use crate::plan::held::{LandingV, SortedV, Status};
use crate::plan::laws;
use crate::plan::pairs;
use crate::plan::pairs::Shape;
use crate::plan::{Counts, Ground, Kind, PlanV};
use crate::statements::bank;

verus! {

/// What legs post to an account.
pub open spec fn posted_to(legs: Seq<PostingV>, account: Seq<char>) -> int
    decreases legs.len(),
{
    if legs.len() == 0 {
        0
    } else {
        posted_to(legs.drop_last(), account) + (if legs.last().account == account {
            amount::worth(legs.last().amount)
        } else {
            0
        })
    }
}

/// What is drawn on the candidates of an account.
pub open spec fn drawn_on(
    drawn: Seq<(int, Dec)>,
    candidates: Seq<Seq<char>>,
    account: Seq<char>,
) -> int
    decreases drawn.len(),
{
    if drawn.len() == 0 {
        0
    } else {
        drawn_on(drawn.drop_last(), candidates, account) + (if candidates[drawn.last().0]
            == account {
            amount::worth(drawn.last().1)
        } else {
            0
        })
    }
}

/// The first leg of every line's transaction is the line's own effect on the
/// account of its statement.
pub proof fn a_line_posts_its_effect(g: Ground, k: int)
    requires
        plan::legs(g, k) is Some,
    ensures
        ({
            let legs = plan::legs(g, k)->0;
            let s = g.ls[g.new[k].0];
            &&& legs.len() >= 2 || g.shapes[k] is Matched
            &&& legs.len() >= 1
            &&& legs[0].account == s.account
            &&& legs[0].amount == bank::delta(s.statement.lines[g.new[k].1])->0
            &&& legs[0].currency == s.statement.currency
            &&& legs[0].tags is None
        }),
{
}

/// A matched line books each record it draws on: leg by leg, on the account of
/// the candidate that is drawn on, and with what is drawn turned in sign. Only
/// what is left over, if anything, comes after those.
pub proof fn a_matched_line_books_what_it_draws(g: Ground, k: int, m: int)
    requires
        plan::legs(g, k) is Some,
        m == m as usize,
        g.shapes[k] == Shape::Matched(m as usize),
    ensures
        ({
            let legs = plan::legs(g, k)->0;
            let n = g.drawn[m].len() as int;
            &&& legs.len() == n + 1 || legs.len() == n + 2
            &&& forall|i: int|
                #![trigger g.drawn[m][i]]
                #![trigger legs[i + 1]]
                0 <= i < n ==> {
                    let (candidate, a) = g.drawn[m][i];
                    &&& legs[i + 1].account == g.candidates[candidate]
                    &&& legs[i + 1].amount == amount::negated(a)
                    &&& legs[i + 1].currency == g.ls[g.new[k].0].statement.currency
                    &&& legs[i + 1].tags is None
                }
        }),
{
}

proof fn drawn_legs_by_account(
    legs: Seq<PostingV>,
    drawn: Seq<(int, Dec)>,
    candidates: Seq<Seq<char>>,
    account: Seq<char>,
)
    requires
        legs.len() == drawn.len(),
        forall|i: int|
            0 <= i < drawn.len() ==> (#[trigger] legs[i]).account == candidates[drawn[i].0]
                && legs[i].amount == amount::negated(drawn[i].1),
    ensures
        posted_to(legs, account) == -drawn_on(drawn, candidates, account),
    decreases drawn.len(),
{
    if drawn.len() > 0 {
        assert forall|i: int| 0 <= i < drawn.drop_last().len() implies (
        #[trigger] legs.drop_last()[i]).account == candidates[drawn.drop_last()[i].0]
            && legs.drop_last()[i].amount == amount::negated(drawn.drop_last()[i].1) by {
            assert(legs.drop_last()[i] == legs[i]);
        }
        drawn_legs_by_account(legs.drop_last(), drawn.drop_last(), candidates, account);
        assert(legs[legs.len() - 1] == legs.last());
        amount::negated_worth(drawn.last().1);
    }
}

/// What a matched line's drawn legs post to an account is minus what is drawn
/// on the candidates of that account.
pub proof fn each_account_gives_what_is_drawn_on_it(
    g: Ground,
    k: int,
    m: int,
    account: Seq<char>,
)
    requires
        plan::legs(g, k) is Some,
        m == m as usize,
        g.shapes[k] == Shape::Matched(m as usize),
    ensures
        posted_to(
            (plan::legs(g, k)->0).subrange(1, g.drawn[m].len() as int + 1),
            account,
        ) == -drawn_on(g.drawn[m], g.candidates, account),
{
    a_matched_line_books_what_it_draws(g, k, m);
    let legs = plan::legs(g, k)->0;
    let some = legs.subrange(1, g.drawn[m].len() as int + 1);
    assert forall|i: int| 0 <= i < g.drawn[m].len() implies (#[trigger] some[i]).account
        == g.candidates[g.drawn[m][i].0] && some[i].amount == amount::negated(
        g.drawn[m][i].1,
    ) by {
        assert(some[i] == legs[i + 1]);
    }
    drawn_legs_by_account(some, g.drawn[m], g.candidates, account);
}

/// Is `a` the account a line with this wording falls back to, where `out` says
/// whether money went out?
pub open spec fn falls_back_to(g: Ground, k: int, out: bool, a: Seq<char>) -> bool {
    let wordings = accounts::table(g.chart.fallback.descriptions@);
    let wording = g.ls[g.new[k].0].statement.lines[g.new[k].1].description;
    if exists|i: int| 0 <= i < wordings.len() && (#[trigger] wordings[i]).0 == wording {
        exists|i: int|
            0 <= i < wordings.len() && (#[trigger] wordings[i]).0 == wording && wordings[i].1 == a
                && forall|j: int| 0 <= j < i ==> (#[trigger] wordings[j]).0 != wording
    } else if out {
        a == g.chart.fallback.expense@
    } else {
        a == g.chart.fallback.income@
    }
}

proof fn under_is_the_first(t: Seq<(Seq<char>, Seq<char>)>, key: Seq<char>)
    ensures
        match accounts::under(t, key) {
            Some(v) => exists|i: int|
                0 <= i < t.len() && (#[trigger] t[i]).0 == key && t[i].1 == v && forall|j: int|
                    0 <= j < i ==> (#[trigger] t[j]).0 != key,
            None => forall|i: int| 0 <= i < t.len() ==> (#[trigger] t[i]).0 != key,
        },
    decreases t.len(),
{
    if t.len() > 0 && t[0].0 != key {
        let rest = t.skip(1);
        under_is_the_first(rest, key);
        match accounts::under(t, key) {
            Some(v) => {
                let i = choose|i: int|
                    0 <= i < rest.len() && (#[trigger] rest[i]).0 == key && rest[i].1 == v
                        && forall|j: int| 0 <= j < i ==> (#[trigger] rest[j]).0 != key;
                assert(t[i + 1] == rest[i]);
                assert forall|j: int| 0 <= j < i + 1 implies (#[trigger] t[j]).0 != key by {
                    if j > 0 {
                        assert(rest[j - 1] == t[j]);
                    }
                }
            },
            None => {
                assert forall|i: int| 0 <= i < t.len() implies (#[trigger] t[i]).0 != key by {
                    if i > 0 {
                        assert(rest[i - 1] == t[i]);
                    }
                }
            },
        }
    } else if t.len() > 0 {
        assert(t[0].1 == accounts::under(t, key)->0);
    }
}

/// What a matched line leaves over goes to the account its wording falls back
/// to, an expense where money went out and an income where it came in. It is
/// what the line moves less what it draws, turned in sign, where nothing is
/// rounded.
pub proof fn what_is_left_over_falls_back(g: Ground, k: int, m: int)
    requires
        plan::legs(g, k) is Some,
        m == m as usize,
        g.shapes[k] == Shape::Matched(m as usize),
        laws::is_exact(g, k),
    ensures
        ({
            let legs = plan::legs(g, k)->0;
            let n = g.drawn[m].len() as int;
            let c = g.ls[g.new[k].0].statement.currency;
            let over = model::net(legs.take(n + 1), c);
            &&& legs.len() == n + 1 ==> over == 0
            &&& legs.len() == n + 2 ==> {
                &&& amount::worth(legs[n + 1].amount) == -over
                &&& legs[n + 1].currency == c
                &&& falls_back_to(g, k, !legs[n + 1].amount.negative, legs[n + 1].account)
            }
        }),
{
    let legs = plan::legs(g, k)->0;
    let n = g.drawn[m].len() as int;
    let some = laws::drawn_together(g, k, m);
    let rest = plan::leg_total(some)->0;
    assert(legs.take(n + 1) =~= some);
    amount::negated_worth(rest);
    if rest.magnitude == 0 {
        amount::zero_worth(rest);
    }
    under_is_the_first(
        accounts::table(g.chart.fallback.descriptions@),
        g.ls[g.new[k].0].statement.lines[g.new[k].1].description,
    );
}

/// A transfer posts each of its two lines' effects to the account of that
/// line's statement. Between two currencies, each effect is also turned over to
/// the conversions.
pub proof fn a_transfer_posts_both_lines(g: Ground, k: int, o: int)
    requires
        plan::legs(g, k) is Some,
        o == o as usize,
        g.shapes[k] == Shape::Transfer(o as usize),
    ensures
        ({
            let legs = plan::legs(g, k)->0;
            let (at, other) = (g.new[k], g.new[o]);
            let (near, far) = (g.ls[at.0], g.ls[other.0]);
            let a = bank::delta(near.statement.lines[at.1])->0;
            let b = bank::delta(far.statement.lines[other.1])->0;
            &&& legs[0] == model::leg(near.account, a, near.statement.currency)
            &&& legs[1] == model::leg(far.account, b, far.statement.currency)
            &&& if near.statement.currency == far.statement.currency {
                legs.len() == 2
            } else {
                &&& legs.len() == 4
                &&& legs[2].account == model::CONVERSIONS@
                &&& legs[3].account == model::CONVERSIONS@
                &&& legs[2].currency == near.statement.currency
                &&& legs[3].currency == far.statement.currency
                &&& amount::worth(legs[2].amount) == -amount::worth(a)
                &&& amount::worth(legs[3].amount) == -amount::worth(b)
            }
        }),
{
    let (at, other) = (g.new[k], g.new[o]);
    amount::negated_worth(pairs::delta_at(g.ls, at));
    amount::negated_worth(pairs::delta_at(g.ls, other));
}

/// A reversal posts the debit and what undoes it to the one account, and to no
/// other.
pub proof fn a_reversal_posts_to_one_account(g: Ground, k: int, r: int)
    requires
        plan::legs(g, k) is Some,
        r == r as usize,
        g.shapes[k] == Shape::Reversal(r as usize),
    ensures
        ({
            let legs = plan::legs(g, k)->0;
            let other = g.new[r];
            let back = bank::delta(g.ls[other.0].statement.lines[other.1])->0;
            &&& legs.len() == 2
            &&& legs[1].account == legs[0].account
            &&& legs[1].currency == legs[0].currency
            &&& legs[1].amount == back
        }),
{
}

/// A line in transit moves against the clearing account.
pub proof fn a_line_in_transit_waits_in_clearing(g: Ground, k: int)
    requires
        plan::legs(g, k) is Some,
        g.shapes[k] == Shape::InTransit,
    ensures
        ({
            let legs = plan::legs(g, k)->0;
            &&& legs.len() == 2
            &&& legs[1].account == g.chart.institution.clearing@
            &&& legs[1].currency == legs[0].currency
            &&& amount::worth(legs[1].amount) == -amount::worth(legs[0].amount)
        }),
{
    amount::negated_worth(pairs::delta_at(g.ls, g.new[k]));
}

/// A line nothing stands for moves against the account its wording falls back
/// to, an expense where money went out and an income where it came in.
pub proof fn an_unmatched_line_falls_back(g: Ground, k: int)
    requires
        plan::legs(g, k) is Some,
        g.shapes[k] == Shape::Fallback,
    ensures
        ({
            let legs = plan::legs(g, k)->0;
            &&& legs.len() == 2
            &&& falls_back_to(g, k, legs[0].amount.negative, legs[1].account)
            &&& legs[1].currency == legs[0].currency
            &&& amount::worth(legs[1].amount) == -amount::worth(legs[0].amount)
        }),
{
    amount::negated_worth(pairs::delta_at(g.ls, g.new[k]));
    under_is_the_first(
        accounts::table(g.chart.fallback.descriptions@),
        g.ls[g.new[k].0].statement.lines[g.new[k].1].description,
    );
}

proof fn line_transaction_of(g: Ground, n: int, k: int) -> (i: int)
    requires
        plan::line_transactions(g, n) is Some,
        0 <= k < n,
        g.shapes[k] != Shape::Absorbed,
    ensures
        0 <= i < (plan::line_transactions(g, n)->0).len(),
        plan::legs(g, k) is Some,
        (plan::line_transactions(g, n)->0)[i] == (
            g.ls[g.new[k].0].files[g.new[k].1],
            plan::line_transaction(g, k, plan::legs(g, k)->0),
        ),
    decreases n,
{
    if k < n - 1 {
        line_transaction_of(g, n - 1, k)
    } else {
        (plan::line_transactions(g, n)->0).len() - 1
    }
}

/// Every new line that no other one books has a transaction of its own in the
/// plan, under its ref, on its day, with its wording and from its file.
pub proof fn a_new_line_is_planned(g: Ground, k: int) -> (i: int)
    requires
        plan::planned(g) is Ok,
        0 <= k < g.new.len(),
        g.shapes[k] != Shape::Absorbed,
    ensures
        ({
            let p = plan::planned(g)->Ok_0;
            let (file, t) = p.transactions[i];
            let at = g.new[k];
            let l = g.ls[at.0].statement.lines[at.1];
            &&& 0 <= i < p.transactions.len()
            &&& file == g.ls[at.0].files[at.1]
            &&& t.date == l.book_date
            &&& t.source == Source::Import
            &&& t.external_ref == Some(g.sorted[at.0].refs[at.1])
            &&& t.import_batch_id is None
            &&& plan::legs(g, k) == Some(t.postings)
            &&& g.shapes[k] !is Reversal ==> t.payee == Some(l.description)
            &&& g.shapes[k] matches Shape::Reversal(r) ==> t.payee == Some(
                g.ls[g.new[r as int].0].statement.lines[g.new[r as int].1].description,
            )
            &&& says(t.narration, l.info, l.memo)
        }),
{
    let p = plan::planned(g)->Ok_0;
    let lines = plan::line_transactions(g, g.new.len() as int)->0;
    let before = plan::openings(g.ls, g.sorted, g.ls.len() as int);
    let j = line_transaction_of(g, g.new.len() as int, k);
    assert(p.transactions[before.len() + j] == lines[j]);
    before.len() + j
}

/// Does a narration hold what a line says, and nothing where it says nothing?
pub open spec fn says(narration: Option<Seq<char>>, info: Seq<char>, memo: Seq<char>) -> bool {
    match narration {
        None => info.len() == 0 && memo.len() == 0,
        Some(n) => {
            &&& info.len() > 0 || memo.len() > 0
            &&& memo.len() == 0 ==> n == info
            &&& info.len() == 0 ==> n == memo
            &&& info.len() > 0 && memo.len() > 0 ==> n == info + " · "@ + memo
        },
    }
}

proof fn opening_of(g: Ground, n: int, si: int) -> (i: int)
    requires
        0 <= si < n,
        g.sorted[si].fresh is Some,
    ensures
        0 <= i < plan::openings(g.ls, g.sorted, n).len(),
        plan::openings(g.ls, g.sorted, n)[i] == (
            g.ls[si].files[0],
            plan::opening_transaction(g.ls[si], g.sorted[si].fresh->0),
        ),
    decreases n,
{
    if si < n - 1 {
        opening_of(g, n - 1, si)
    } else {
        plan::openings(g.ls, g.sorted, n).len() - 1
    }
}

/// An account the ledger holds nothing of is opened the day before its
/// statement starts: with what it then held, against the opening equity.
pub proof fn a_fresh_account_is_opened(g: Ground, si: int) -> (i: int)
    requires
        plan::planned(g) is Ok,
        0 <= si < g.ls.len(),
        g.sorted[si].fresh is Some,
    ensures
        ({
            let p = plan::planned(g)->Ok_0;
            let (file, t) = p.transactions[i];
            let s = g.ls[si];
            let a = g.sorted[si].fresh->0;
            &&& 0 <= i < p.transactions.len()
            &&& file == s.files[0]
            &&& t.date == bank::start(s.statement) - 1
            &&& t.external_ref == Some(
                bank::opening_ref(s.statement.bank, s.account, s.statement.currency),
            )
            &&& t.postings.len() == 2
            &&& t.postings[0] == model::leg(s.account, a, s.statement.currency)
            &&& t.postings[1].account == model::OPENING_EQUITY@
            &&& t.postings[1].currency == s.statement.currency
            &&& amount::worth(t.postings[1].amount) == -amount::worth(a)
        }),
{
    let p = plan::planned(g)->Ok_0;
    let before = plan::openings(g.ls, g.sorted, g.ls.len() as int);
    amount::negated_worth(g.sorted[si].fresh->0);
    let i = opening_of(g, g.ls.len() as int, si);
    assert(p.transactions[i] == before[i]);
    i
}

proof fn marked_by_its_match(
    shapes: Seq<Shape>,
    matched: Seq<int>,
    n: int,
    m: int,
)
    requires
        0 <= m < n <= matched.len() <= usize::MAX,
        forall|i: int|
            0 <= i < matched.len() ==> 0 <= (#[trigger] matched[i]) < pairs::targets(shapes).len(),
        forall|i: int, j: int|
            0 <= i < j < matched.len() ==> #[trigger] matched[i] != #[trigger] matched[j],
    ensures
        pairs::with_matches(
            shapes,
            pairs::targets(shapes),
            matched,
            n,
        )[pairs::targets(shapes)[matched[m]]] == Shape::Matched(m as usize),
        pairs::with_matches(shapes, pairs::targets(shapes), matched, n).len() == shapes.len(),
    decreases n,
{
    let open = pairs::targets(shapes);
    targets_in_order(shapes);
    marked_keep_their_number(shapes, matched, n - 1);
    assert(0 <= open[matched[m]] < shapes.len());
    if m < n - 1 {
        marked_by_its_match(shapes, matched, n - 1, m);
        assert(open[matched[m]] != open[matched[n - 1]]);
    }
}

proof fn marked_keep_their_number(shapes: Seq<Shape>, matched: Seq<int>, n: int)
    ensures
        pairs::with_matches(shapes, pairs::targets(shapes), matched, n).len() == shapes.len(),
    decreases n,
{
    if n > 0 {
        marked_keep_their_number(shapes, matched, n - 1);
        targets_in_order(shapes);
    }
}

proof fn targets_in_order(shapes: Seq<Shape>)
    ensures
        forall|i: int|
            0 <= i < pairs::targets(shapes).len() ==> 0 <= (#[trigger] pairs::targets(shapes)[i])
                < shapes.len(),
        forall|i: int, j: int|
            0 <= i < j < pairs::targets(shapes).len() ==> #[trigger] pairs::targets(shapes)[i]
                < #[trigger] pairs::targets(shapes)[j],
    decreases shapes.len(),
{
    if shapes.len() > 0 {
        targets_in_order(shapes.drop_last());
        let before = pairs::targets(shapes.drop_last());
        let now = pairs::targets(shapes);
        assert(forall|i: int| 0 <= i < before.len() ==> now[i] == #[trigger] before[i]);
        assert forall|i: int| 0 <= i < now.len() implies 0 <= (#[trigger] now[i])
            < shapes.len() by {
            if i < before.len() {
                assert(now[i] == before[i]);
            }
        }
        assert forall|i: int, j: int| 0 <= i < j < now.len() implies #[trigger] now[i]
            < #[trigger] now[j] by {
            assert(now[i] == before[i]);
            if j < before.len() {
                assert(now[j] == before[j]);
            }
        }
    }
}

/// Each match books the line it was found for, where no line is matched twice.
pub proof fn a_match_books_its_line(shapes: Seq<Shape>, matched: Seq<int>, m: int)
    requires
        0 <= m < matched.len() <= usize::MAX,
        forall|i: int|
            0 <= i < matched.len() ==> 0 <= (#[trigger] matched[i]) < pairs::targets(shapes).len(),
        forall|i: int, j: int|
            0 <= i < j < matched.len() ==> #[trigger] matched[i] != #[trigger] matched[j],
    ensures
        pairs::settled(shapes, matched)[pairs::targets(shapes)[matched[m]]] == Shape::Matched(
            m as usize,
        ),
{
    targets_in_order(shapes);
    marked_by_its_match(shapes, matched, matched.len() as int, m);
}

/// Does a transfer's shape fit its lines: money leaves the near one for another
/// statement's account, each line names the other's account or one with
/// statements, and in two currencies it comes in on the far one?
pub open spec fn transfer_fits(
    ls: Seq<LandingV>,
    accounts: Seq<(Seq<char>, Seq<char>)>,
    new: Seq<(int, int)>,
    s: Shape,
    k: int,
) -> bool {
    match s {
        Shape::Transfer(o) => {
            let (at, other) = (new[k], new[o as int]);
            let (near, far) = (ls[at.0].statement, ls[other.0].statement);
            &&& bank::delta(near.lines[at.1])->0.negative
            &&& other.0 != at.0
            &&& if near.currency == far.currency {
                &&& pairs::is_internal(ls, accounts, at)
                &&& pairs::is_internal(ls, accounts, other)
                &&& amount::worth(bank::delta(far.lines[other.1])->0) == -amount::worth(
                    bank::delta(near.lines[at.1])->0,
                )
            } else {
                &&& near.account_no != far.account_no
                &&& pairs::names_account_of(ls, at, other.0)
                &&& pairs::names_account_of(ls, other, at.0)
                &&& !bank::delta(far.lines[other.1])->0.negative
            }
            &&& near.lines[at.1].book_date == far.lines[other.1].book_date
        },
        _ => true,
    }
}

spec fn all_fit(
    ls: Seq<LandingV>,
    accounts: Seq<(Seq<char>, Seq<char>)>,
    new: Seq<(int, int)>,
    shapes: Seq<Shape>,
) -> bool {
    &&& shapes.len() == new.len()
    &&& forall|k: int|
        0 <= k < shapes.len() ==> transfer_fits(ls, accounts, new, #[trigger] shapes[k], k)
}

proof fn reversals_fit(
    ls: Seq<LandingV>,
    accounts: Seq<(Seq<char>, Seq<char>)>,
    new: Seq<(int, int)>,
    shapes: Seq<Shape>,
    si: int,
    found: Seq<(int, int)>,
)
    requires
        all_fit(ls, accounts, new, shapes),
    ensures
        all_fit(ls, accounts, new, pairs::with_reversals_in(new, shapes, si, found)),
    decreases found.len(),
{
    if found.len() > 0 {
        reversals_fit(ls, accounts, new, shapes, si, found.drop_last());
        let before = pairs::with_reversals_in(new, shapes, si, found.drop_last());
        let after = pairs::with_reversals_in(new, shapes, si, found);
        laws::place_is_there(new, (si, found.last().0), 0);
        laws::place_is_there(new, (si, found.last().1), 0);
        assert forall|k: int| 0 <= k < after.len() implies transfer_fits(
            ls,
            accounts,
            new,
            #[trigger] after[k],
            k,
        ) by {
            assert(transfer_fits(ls, accounts, new, before[k], k));
        }
    }
}

proof fn all_reversals_fit(
    ls: Seq<LandingV>,
    accounts: Seq<(Seq<char>, Seq<char>)>,
    new: Seq<(int, int)>,
    n: int,
)
    ensures
        all_fit(ls, accounts, new, pairs::with_reversals(ls, new, n)),
    decreases n,
{
    if n > 0 {
        all_reversals_fit(ls, accounts, new, n - 1);
        let st = ls[n - 1].statement;
        reversals_fit(
            ls,
            accounts,
            new,
            pairs::with_reversals(ls, new, n - 1),
            n - 1,
            bank::reversals(st.bank, st.lines),
        );
    }
}

proof fn transfers_fit(
    ls: Seq<LandingV>,
    accounts: Seq<(Seq<char>, Seq<char>)>,
    new: Seq<(int, int)>,
    shapes: Seq<Shape>,
    n: int,
)
    requires
        0 <= n <= new.len() <= usize::MAX,
        all_fit(ls, accounts, new, shapes),
    ensures
        all_fit(ls, accounts, new, pairs::with_transfers(ls, accounts, new, shapes, n)),
    decreases n,
{
    if n > 0 {
        let k = n - 1;
        transfers_fit(ls, accounts, new, shapes, k);
        let before = pairs::with_transfers(ls, accounts, new, shapes, k);
        let after = pairs::with_transfers(ls, accounts, new, shapes, n);
        laws::far_half_is_open(ls, accounts, new, before, k, 0);
        assert forall|i: int| 0 <= i < after.len() implies transfer_fits(
            ls,
            accounts,
            new,
            #[trigger] after[i],
            i,
        ) by {
            assert(transfer_fits(ls, accounts, new, before[i], i));
            amount::negated_worth(pairs::delta_at(ls, new[k]));
        }
    }
}

proof fn exchanges_fit(
    ls: Seq<LandingV>,
    accounts: Seq<(Seq<char>, Seq<char>)>,
    new: Seq<(int, int)>,
    shapes: Seq<Shape>,
    n: int,
)
    requires
        0 <= n <= new.len() <= usize::MAX,
        all_fit(ls, accounts, new, shapes),
    ensures
        all_fit(ls, accounts, new, pairs::with_exchanges(ls, new, shapes, n)),
    decreases n,
{
    if n > 0 {
        let k = n - 1;
        exchanges_fit(ls, accounts, new, shapes, k);
        let before = pairs::with_exchanges(ls, new, shapes, k);
        let after = pairs::with_exchanges(ls, new, shapes, n);
        let partners = pairs::exchanges(ls, new, before, k, new.len() as int);
        laws::exchanges_are_open(ls, new, before, k, new.len() as int);
        if partners.len() == 1 {
            assert(pairs::is_exchange(ls, new, before, k, partners[0]));
        }
        assert forall|i: int| 0 <= i < after.len() implies transfer_fits(
            ls,
            accounts,
            new,
            #[trigger] after[i],
            i,
        ) by {
            assert(transfer_fits(ls, accounts, new, before[i], i));
        }
    }
}

proof fn settled_from_paired(shapes: Seq<Shape>, matched: Seq<int>, n: int, k: int)
    requires
        0 <= k < shapes.len(),
    ensures
        ({
            let marked = pairs::with_matches(shapes, pairs::targets(shapes), matched, n);
            &&& marked.len() == shapes.len()
            &&& marked[k] == shapes[k] || (shapes[k] == Shape::Open && marked[k] is Matched)
        }),
    decreases n,
{
    if n > 0 {
        settled_from_paired(shapes, matched, n - 1, k);
        laws::targets_are_open(shapes);
    }
}

/// A transfer is booked between the accounts of two statements that its lines
/// name: in one currency both lines name an account with statements and move
/// opposite amounts; in two, each names the other's account. Only a line that
/// names an account with statements is in transit, and none that does is left
/// to be matched or to fall back.
pub proof fn lines_pair_with_the_accounts_they_name(
    ls: Seq<LandingV>,
    accounts: Seq<(Seq<char>, Seq<char>)>,
    new: Seq<(int, int)>,
    matched: Seq<int>,
    k: int,
)
    requires
        new.len() <= usize::MAX,
        0 <= k < new.len(),
    ensures
        ({
            let s = pairs::settled(pairs::paired(ls, accounts, new), matched)[k];
            let named = pairs::is_internal(ls, accounts, new[k]);
            &&& transfer_fits(ls, accounts, new, s, k)
            &&& s == Shape::InTransit ==> named
            &&& s == Shape::Fallback || s is Matched ==> !named
            &&& s != Shape::Open
        }),
{
    let n = new.len() as int;
    let reversed = pairs::with_reversals(ls, new, ls.len() as int);
    all_reversals_fit(ls, accounts, new, ls.len() as int);
    let moved = pairs::with_transfers(ls, accounts, new, reversed, n);
    transfers_fit(ls, accounts, new, reversed, n);
    let exchanged = pairs::with_exchanges(ls, new, moved, n);
    exchanges_fit(ls, accounts, new, moved, n);
    let paired = pairs::paired(ls, accounts, new);
    assert(transfer_fits(ls, accounts, new, exchanged[k], k));
    shapes_so_far(ls, accounts, new, k);
    settled_from_paired(paired, matched, matched.len() as int, k);
}

proof fn shapes_so_far(
    ls: Seq<LandingV>,
    accounts: Seq<(Seq<char>, Seq<char>)>,
    new: Seq<(int, int)>,
    k: int,
)
    requires
        new.len() <= usize::MAX,
        0 <= k < new.len(),
    ensures
        ({
            let n = new.len() as int;
            let reversed = pairs::with_reversals(ls, new, ls.len() as int);
            let moved = pairs::with_transfers(ls, accounts, new, reversed, n);
            let shape = pairs::with_exchanges(ls, new, moved, n)[k];
            !(shape is InTransit) && !(shape is Fallback) && !(shape is Matched)
        }),
{
    let n = new.len() as int;
    let reversed = pairs::with_reversals(ls, new, ls.len() as int);
    let moved = pairs::with_transfers(ls, accounts, new, reversed, n);
    reversed_shapes(ls, new, ls.len() as int, k);
    moved_shapes(ls, accounts, new, reversed, n, k);
    exchanged_shapes(ls, new, moved, n, k);
}

spec fn is_early(s: Shape) -> bool {
    !(s is InTransit) && !(s is Fallback) && !(s is Matched)
}

proof fn reversed_shapes(ls: Seq<LandingV>, new: Seq<(int, int)>, n: int, k: int)
    requires
        0 <= k < new.len(),
    ensures
        pairs::with_reversals(ls, new, n).len() == new.len(),
        is_early(pairs::with_reversals(ls, new, n)[k]),
    decreases n,
{
    if n > 0 {
        reversed_shapes(ls, new, n - 1, k);
        let st = ls[n - 1].statement;
        reversed_in(
            new,
            pairs::with_reversals(ls, new, n - 1),
            n - 1,
            bank::reversals(st.bank, st.lines),
            k,
        );
    }
}

proof fn reversed_in(
    new: Seq<(int, int)>,
    shapes: Seq<Shape>,
    si: int,
    found: Seq<(int, int)>,
    k: int,
)
    requires
        0 <= k < shapes.len() == new.len(),
        is_early(shapes[k]),
    ensures
        pairs::with_reversals_in(new, shapes, si, found).len() == shapes.len(),
        is_early(pairs::with_reversals_in(new, shapes, si, found)[k]),
    decreases found.len(),
{
    if found.len() > 0 {
        reversed_in(new, shapes, si, found.drop_last(), k);
        laws::place_is_there(new, (si, found.last().0), 0);
        laws::place_is_there(new, (si, found.last().1), 0);
    }
}

proof fn moved_shapes(
    ls: Seq<LandingV>,
    accounts: Seq<(Seq<char>, Seq<char>)>,
    new: Seq<(int, int)>,
    shapes: Seq<Shape>,
    n: int,
    k: int,
)
    requires
        0 <= k < shapes.len() == new.len(),
        0 <= n <= new.len(),
        is_early(shapes[k]),
    ensures
        pairs::with_transfers(ls, accounts, new, shapes, n).len() == shapes.len(),
        is_early(pairs::with_transfers(ls, accounts, new, shapes, n)[k]),
    decreases n,
{
    if n > 0 {
        moved_shapes(ls, accounts, new, shapes, n - 1, k);
        let before = pairs::with_transfers(ls, accounts, new, shapes, n - 1);
        laws::far_half_is_open(ls, accounts, new, before, n - 1, 0);
    }
}

proof fn exchanged_shapes(
    ls: Seq<LandingV>,
    new: Seq<(int, int)>,
    shapes: Seq<Shape>,
    n: int,
    k: int,
)
    requires
        0 <= k < shapes.len() == new.len(),
        0 <= n <= new.len(),
        is_early(shapes[k]),
    ensures
        pairs::with_exchanges(ls, new, shapes, n).len() == shapes.len(),
        is_early(pairs::with_exchanges(ls, new, shapes, n)[k]),
    decreases n,
{
    if n > 0 {
        exchanged_shapes(ls, new, shapes, n - 1, k);
        let before = pairs::with_exchanges(ls, new, shapes, n - 1);
        laws::exchanges_are_open(ls, new, before, n - 1, new.len() as int);
        let partners = pairs::exchanges(ls, new, before, n - 1, new.len() as int);
        if partners.len() == 1 {
            assert(0 <= partners[0] < new.len());
        }
    }
}

/// The lines of a kind are counted, each once.
pub proof fn a_kind_is_counted(statuses: Seq<Status>, k: Kind)
    ensures
        plan::count_in(statuses, k) == statuses.filter(|s: Status| plan::kind(s) == k).len(),
    decreases statuses.len(),
{
    reveal(Seq::filter);
    if statuses.len() > 0 {
        a_kind_is_counted(statuses.drop_last(), k);
    }
}

/// Every line of every statement is counted under one kind.
pub proof fn every_line_is_counted_once(all: Seq<SortedV>)
    ensures
        plan::count(all, Kind::PredatesOpening) + plan::count(all, Kind::Known) + plan::count(
            all,
            Kind::Covered,
        ) + plan::count(all, Kind::Verifies) + plan::count(all, Kind::New) == statuses_in(all),
    decreases all.len(),
{
    if all.len() > 0 {
        every_line_is_counted_once(all.drop_last());
        counted_once_in(all.last().statuses);
    }
}

/// How many lines the statements have.
pub open spec fn statuses_in(all: Seq<SortedV>) -> nat
    decreases all.len(),
{
    if all.len() == 0 {
        0
    } else {
        statuses_in(all.drop_last()) + all.last().statuses.len()
    }
}

proof fn counted_once_in(statuses: Seq<Status>)
    ensures
        plan::count_in(statuses, Kind::PredatesOpening) + plan::count_in(statuses, Kind::Known)
            + plan::count_in(statuses, Kind::Covered) + plan::count_in(statuses, Kind::Verifies)
            + plan::count_in(statuses, Kind::New) == statuses.len(),
    decreases statuses.len(),
{
    if statuses.len() > 0 {
        counted_once_in(statuses.drop_last());
    }
}

/// Where every line stands, statement by statement.
pub open spec fn all_statuses(all: Seq<SortedV>) -> Seq<Status>
    decreases all.len(),
{
    if all.len() == 0 {
        Seq::empty()
    } else {
        all_statuses(all.drop_last()) + all.last().statuses
    }
}

proof fn a_kind_is_counted_in_all(all: Seq<SortedV>, k: Kind)
    ensures
        plan::count(all, k) == all_statuses(all).filter(|s: Status| plan::kind(s) == k).len(),
    decreases all.len(),
{
    let f = |s: Status| plan::kind(s) == k;
    if all.len() == 0 {
        reveal(Seq::filter);
    } else {
        a_kind_is_counted_in_all(all.drop_last(), k);
        a_kind_is_counted(all.last().statuses, k);
        Seq::filter_distributes_over_add(
            all_statuses(all.drop_last()),
            all.last().statuses,
            f,
        );
    }
}

proof fn statuses_by_kind(st: Seq<Status>)
    ensures
        st.filter(|s: Status| plan::kind(s) == Kind::PredatesOpening) == st.filter(
            |s: Status| s is PredatesOpening,
        ),
        st.filter(|s: Status| plan::kind(s) == Kind::Known) == st.filter(|s: Status| s is Known),
        st.filter(|s: Status| plan::kind(s) == Kind::Covered) == st.filter(
            |s: Status| s is Covered,
        ),
        st.filter(|s: Status| plan::kind(s) == Kind::Verifies) == st.filter(
            |s: Status| s is Verifies,
        ),
        st.filter(|s: Status| plan::kind(s) == Kind::New) == st.filter(|s: Status| s is New),
    decreases st.len(),
{
    reveal(Seq::filter);
    if st.len() > 0 {
        statuses_by_kind(st.drop_last());
    }
}

proof fn shapes_are_counted(shapes: Seq<Shape>)
    ensures
        plan::count_shapes(shapes, true) == shapes.filter(|s: Shape| s is Matched).len(),
        plan::count_shapes(shapes, false) == shapes.filter(|s: Shape| s is Fallback).len(),
    decreases shapes.len(),
{
    reveal(Seq::filter);
    if shapes.len() > 0 {
        shapes_are_counted(shapes.drop_last());
    }
}

/// A plan counts its lines by where they stand, its new lines by whether they
/// are matched or fall back, and its records by whether they are deferred.
pub proof fn a_plan_counts_its_lines(c: Counts, g: Ground, p: PlanV)
    requires
        plan::counted(c, g, p),
    ensures
        ({
            let st = all_statuses(g.sorted);
            &&& c.predate_opening == st.filter(|s: Status| s is PredatesOpening).len()
            &&& c.known == st.filter(|s: Status| s is Known).len()
            &&& c.covered == st.filter(|s: Status| s is Covered).len()
            &&& c.verified == st.filter(|s: Status| s is Verifies).len()
            &&& c.new == st.filter(|s: Status| s is New).len()
            &&& c.matched == g.shapes.filter(|s: Shape| s is Matched).len()
            &&& c.uncategorised == g.shapes.filter(|s: Shape| s is Fallback).len()
            &&& c.deferred == p.deferred.len()
        }),
{
    let st = all_statuses(g.sorted);
    a_kind_is_counted_in_all(g.sorted, Kind::PredatesOpening);
    a_kind_is_counted_in_all(g.sorted, Kind::Known);
    a_kind_is_counted_in_all(g.sorted, Kind::Covered);
    a_kind_is_counted_in_all(g.sorted, Kind::Verifies);
    a_kind_is_counted_in_all(g.sorted, Kind::New);
    statuses_by_kind(st);
    shapes_are_counted(g.shapes);
}

} // verus!
