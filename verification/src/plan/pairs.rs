//! How the new lines pair up: reversals, transfers between two accounts with
//! statements, and what is left for the matcher.

use vstd::prelude::*;

use crate::accounts;
use crate::amount;
use crate::amount::{Amount, Dec};
use crate::plan::held;
use crate::plan::held::{LandingV, Sorted, SortedV, Statement, Status};
use crate::statements::bank;
use crate::statements::bank::{LineV, StatementLine};
use crate::text;

verus! {

/// How a new line's other side is booked. A line is named by its place among
/// the new lines.
#[derive(Clone, Copy, PartialEq, Eq, Structural, Debug)]
pub enum Shape {
    /// Not decided yet.
    Open,
    /// Emitted by its partner's transaction.
    Absorbed,
    Transfer(usize),
    Reversal(usize),
    InTransit,
    /// By the match at this place.
    Matched(usize),
    Fallback,
}

/// Does the shape name one of `n` new lines, or one of `m` matches?
pub open spec fn refers(shape: Shape, n: int, m: int) -> bool {
    match shape {
        Shape::Transfer(o) => o < n,
        Shape::Reversal(r) => r < n,
        Shape::Matched(i) => i < m,
        _ => true,
    }
}

/// Does every shape name one of the new lines, or one of `m` matches?
pub open spec fn all_refer(shapes: Seq<Shape>, m: int) -> bool {
    forall|k: int| 0 <= k < shapes.len() ==> refers(#[trigger] shapes[k], shapes.len() as int, m)
}

/// The new lines of the statement `si`.
pub open spec fn new_in(statuses: Seq<Status>, si: int) -> Seq<(int, int)>
    decreases statuses.len(),
{
    if statuses.len() == 0 {
        Seq::empty()
    } else {
        let before = new_in(statuses.drop_last(), si);
        if statuses.last() == Status::New {
            before.push((si, statuses.len() - 1))
        } else {
            before
        }
    }
}

/// The new lines of every statement, each by its statement and its place.
pub open spec fn new_lines(all: Seq<SortedV>) -> Seq<(int, int)>
    decreases all.len(),
{
    if all.len() == 0 {
        Seq::empty()
    } else {
        new_lines(all.drop_last()) + new_in(all.last().statuses, all.len() - 1)
    }
}

/// The line at a place.
pub open spec fn line_at(ls: Seq<LandingV>, at: (int, int)) -> LineV {
    ls[at.0].statement.lines[at.1]
}

/// The effect of the line at a place.
pub open spec fn delta_at(ls: Seq<LandingV>, at: (int, int)) -> Dec {
    bank::delta(line_at(ls, at))->0
}

/// Does the line name another account that has statements?
pub open spec fn is_internal(
    ls: Seq<LandingV>,
    accounts: Seq<(Seq<char>, Seq<char>)>,
    at: (int, int),
) -> bool {
    let st = ls[at.0].statement;
    exists|i: int|
        0 <= i < accounts.len() && (#[trigger] accounts[i]).0 != st.account_no && bank::names(
            st.bank,
            line_at(ls, at).info,
            accounts[i].0,
        )
}

/// Does the line name the account of the statement `si`?
pub open spec fn names_account_of(ls: Seq<LandingV>, at: (int, int), si: int) -> bool {
    let st = ls[at.0].statement;
    let no = ls[si].statement.account_no;
    bank::names(st.bank, line_at(ls, at).info, no) || bank::names(
        st.bank,
        line_at(ls, at).memo,
        no,
    )
}

/// Where `at` stands among the new lines.
pub open spec fn place_of(new: Seq<(int, int)>, at: (int, int), from: int) -> Option<int>
    decreases new.len() - from,
{
    if from < 0 || from >= new.len() {
        None
    } else if new[from] == at {
        Some(from)
    } else {
        place_of(new, at, from + 1)
    }
}

/// The shapes once the reversals `pairs` of the statement `si` are marked: those
/// whose two lines are both new.
pub open spec fn with_reversals_in(
    new: Seq<(int, int)>,
    shapes: Seq<Shape>,
    si: int,
    pairs: Seq<(int, int)>,
) -> Seq<Shape>
    decreases pairs.len(),
{
    if pairs.len() == 0 {
        shapes
    } else {
        let before = with_reversals_in(new, shapes, si, pairs.drop_last());
        let (debit, reversal) = pairs.last();
        match (place_of(new, (si, debit), 0), place_of(new, (si, reversal), 0)) {
            (Some(d), Some(r)) => before.update(d, Shape::Reversal(r as usize)).update(
                r,
                Shape::Absorbed,
            ),
            _ => before,
        }
    }
}

/// The shapes once the reversals of the first `n` statements are marked.
pub open spec fn with_reversals(ls: Seq<LandingV>, new: Seq<(int, int)>, n: int) -> Seq<Shape>
    decreases n,
{
    if n <= 0 {
        Seq::new(new.len(), |i: int| Shape::Open)
    } else {
        let st = ls[n - 1].statement;
        with_reversals_in(
            new,
            with_reversals(ls, new, n - 1),
            n - 1,
            bank::reversals(st.bank, st.lines),
        )
    }
}

/// Is the new line `o` the far half of the transfer that `k` is the near half
/// of, in one currency?
pub open spec fn is_far_half(
    ls: Seq<LandingV>,
    accounts: Seq<(Seq<char>, Seq<char>)>,
    new: Seq<(int, int)>,
    shapes: Seq<Shape>,
    k: int,
    o: int,
) -> bool {
    let (at, other) = (new[k], new[o]);
    &&& other.0 != at.0
    &&& ls[other.0].statement.currency == ls[at.0].statement.currency
    &&& shapes[o] == Shape::Open
    &&& is_internal(ls, accounts, other)
    &&& line_at(ls, other).book_date == line_at(ls, at).book_date
    &&& amount::equal(delta_at(ls, other), amount::negated(delta_at(ls, at)))
}

/// The first far half of `k` at or after `from`.
pub open spec fn far_half(
    ls: Seq<LandingV>,
    accounts: Seq<(Seq<char>, Seq<char>)>,
    new: Seq<(int, int)>,
    shapes: Seq<Shape>,
    k: int,
    from: int,
) -> Option<int>
    decreases new.len() - from,
{
    if from < 0 || from >= new.len() {
        None
    } else if is_far_half(ls, accounts, new, shapes, k, from) {
        Some(from)
    } else {
        far_half(ls, accounts, new, shapes, k, from + 1)
    }
}

/// The shapes once each of the first `n` new lines that takes money out to
/// another account with statements is paired with the line that puts it there.
pub open spec fn with_transfers(
    ls: Seq<LandingV>,
    accounts: Seq<(Seq<char>, Seq<char>)>,
    new: Seq<(int, int)>,
    shapes: Seq<Shape>,
    n: int,
) -> Seq<Shape>
    decreases n,
{
    if n <= 0 {
        shapes
    } else {
        let k = n - 1;
        let before = with_transfers(ls, accounts, new, shapes, k);
        if before[k] == Shape::Open && delta_at(ls, new[k]).negative && is_internal(
            ls,
            accounts,
            new[k],
        ) {
            match far_half(ls, accounts, new, before, k, 0) {
                Some(o) => before.update(k, Shape::Transfer(o as usize)).update(o, Shape::Absorbed),
                None => before,
            }
        } else {
            before
        }
    }
}

/// May the new line `o` be the far half of the exchange that `k` is the near
/// half of, in two currencies?
pub open spec fn is_exchange(
    ls: Seq<LandingV>,
    new: Seq<(int, int)>,
    shapes: Seq<Shape>,
    k: int,
    o: int,
) -> bool {
    let (at, other) = (new[k], new[o]);
    let (a, b) = (ls[at.0].statement, ls[other.0].statement);
    &&& a.currency != b.currency
    &&& a.account_no != b.account_no
    &&& shapes[o] == Shape::Open
    &&& line_at(ls, other).book_date == line_at(ls, at).book_date
    &&& !delta_at(ls, other).negative
    &&& names_account_of(ls, at, other.0)
    &&& names_account_of(ls, other, at.0)
}

/// The lines among the first `n` new ones that may be the far half of an
/// exchange.
pub open spec fn exchanges(
    ls: Seq<LandingV>,
    new: Seq<(int, int)>,
    shapes: Seq<Shape>,
    k: int,
    n: int,
) -> Seq<int>
    decreases n,
{
    if n <= 0 {
        Seq::empty()
    } else {
        let before = exchanges(ls, new, shapes, k, n - 1);
        if is_exchange(ls, new, shapes, k, n - 1) {
            before.push(n - 1)
        } else {
            before
        }
    }
}

/// The shapes once each of the first `n` new lines that takes money out is
/// paired with the one line in another currency it can be exchanged into.
/// Amounts in two currencies can't be compared, so only an unambiguous partner
/// pairs.
pub open spec fn with_exchanges(
    ls: Seq<LandingV>,
    new: Seq<(int, int)>,
    shapes: Seq<Shape>,
    n: int,
) -> Seq<Shape>
    decreases n,
{
    if n <= 0 {
        shapes
    } else {
        let k = n - 1;
        let before = with_exchanges(ls, new, shapes, k);
        let partners = exchanges(ls, new, before, k, new.len() as int);
        if before[k] == Shape::Open && delta_at(ls, new[k]).negative && partners.len() == 1 {
            before.update(k, Shape::Transfer(partners[0] as usize)).update(
                partners[0],
                Shape::Absorbed,
            )
        } else {
            before
        }
    }
}

/// The shapes once a line that names another account with statements, and has
/// no partner here, is in transit.
pub open spec fn with_transit(
    ls: Seq<LandingV>,
    accounts: Seq<(Seq<char>, Seq<char>)>,
    new: Seq<(int, int)>,
    shapes: Seq<Shape>,
) -> Seq<Shape> {
    Seq::new(
        shapes.len(),
        |k: int|
            if shapes[k] == Shape::Open && is_internal(ls, accounts, new[k]) {
                Shape::InTransit
            } else {
                shapes[k]
            },
    )
}

/// How the new lines pair up among themselves; those left open go through the
/// matcher.
pub open spec fn paired(
    ls: Seq<LandingV>,
    accounts: Seq<(Seq<char>, Seq<char>)>,
    new: Seq<(int, int)>,
) -> Seq<Shape> {
    let n = new.len() as int;
    let reversed = with_reversals(ls, new, ls.len() as int);
    let moved = with_transfers(ls, accounts, new, reversed, n);
    with_transit(ls, accounts, new, with_exchanges(ls, new, moved, n))
}

/// The lines left open.
pub open spec fn targets(shapes: Seq<Shape>) -> Seq<int>
    decreases shapes.len(),
{
    if shapes.len() == 0 {
        Seq::empty()
    } else {
        let before = targets(shapes.drop_last());
        if shapes.last() == Shape::Open {
            before.push(shapes.len() - 1)
        } else {
            before
        }
    }
}

/// The shapes once the first `n` matches are marked, each by the place of its
/// target among the lines left open.
pub open spec fn with_matches(
    shapes: Seq<Shape>,
    open: Seq<int>,
    matched: Seq<int>,
    n: int,
) -> Seq<Shape>
    decreases n,
{
    if n <= 0 {
        shapes
    } else {
        let before = with_matches(shapes, open, matched, n - 1);
        let t = matched[n - 1];
        if 0 <= t < open.len() {
            before.update(open[t], Shape::Matched((n - 1) as usize))
        } else {
            before
        }
    }
}

/// The shape of every new line: what is matched is, and nothing stays open.
pub open spec fn settled(shapes: Seq<Shape>, matched: Seq<int>) -> Seq<Shape> {
    let marked = with_matches(shapes, targets(shapes), matched, matched.len() as int);
    Seq::new(
        marked.len(),
        |k: int|
            if marked[k] == Shape::Open {
                Shape::Fallback
            } else {
                marked[k]
            },
    )
}

pub open spec fn landings(v: Seq<Statement>) -> Seq<LandingV> {
    v.map_values(|s: Statement| s@)
}

pub open spec fn sorted_views(v: Seq<Sorted>) -> Seq<SortedV> {
    v.map_values(|s: Sorted| s@)
}

/// Does `s` hold what is said of it by `of`, line by line?
pub open spec fn sorts(s: Sorted, of: LandingV) -> bool {
    &&& held::has_effects(s.deltas@, of.statement.lines)
    &&& s@.refs.len() == of.statement.lines.len()
    &&& s@.statuses.len() == of.statement.lines.len()
}

/// Does each of `sorted` hold what is said of its statement?
pub open spec fn all_sort(sorted: Seq<Sorted>, ls: Seq<LandingV>) -> bool {
    &&& sorted.len() == ls.len()
    &&& forall|i: int| 0 <= i < ls.len() ==> sorts(#[trigger] sorted[i], ls[i])
}

/// Are the places those of lines?
pub open spec fn in_lines(new: Seq<(int, int)>, ls: Seq<LandingV>) -> bool {
    forall|k: int|
        0 <= k < new.len() ==> 0 <= (#[trigger] new[k]).0 < ls.len() && 0 <= new[k].1
            < ls[new[k].0].statement.lines.len()
}

/// The new lines of every statement.
pub(crate) fn new_lines_of(sorted: &Vec<Sorted>, ls: Ghost<Seq<LandingV>>) -> (r: Vec<
    (usize, usize),
>)
    requires
        all_sort(sorted@, ls@),
    ensures
        bank::pair_views(r@) == new_lines(sorted_views(sorted@)),
        in_lines(bank::pair_views(r@), ls@),
{
    let ghost all = sorted_views(sorted@);
    let mut out: Vec<(usize, usize)> = Vec::new();
    assert(bank::pair_views(out@) =~= Seq::empty());
    let mut si: usize = 0;
    while si < sorted.len()
        invariant
            si <= sorted@.len(),
            all == sorted_views(sorted@),
            all_sort(sorted@, ls@),
            bank::pair_views(out@) == new_lines(all.take(si as int)),
            in_lines(bank::pair_views(out@), ls@),
        decreases sorted@.len() - si,
    {
        let statuses = &sorted[si].statuses;
        let ghost before = new_lines(all.take(si as int));
        let ghost here = sorted@[si as int]@.statuses;
        assert(sorts(sorted@[si as int], ls@[si as int]));
        assert(all.take(si as int + 1).drop_last() =~= all.take(si as int));
        assert(all.take(si as int + 1).last() == sorted@[si as int]@);
        assert(before + new_in(here.take(0), si as int) =~= before);
        let mut li: usize = 0;
        while li < statuses.len()
            invariant
                li <= statuses@.len(),
                si < sorted@.len(),
                here == statuses@,
                sorted@.len() == ls@.len(),
                here.len() == ls@[si as int].statement.lines.len(),
                bank::pair_views(out@) == before + new_in(here.take(li as int), si as int),
                in_lines(bank::pair_views(out@), ls@),
            decreases statuses@.len() - li,
        {
            let ghost done = out@;
            assert(here.take(li as int + 1).drop_last() =~= here.take(li as int));
            if statuses[li] == Status::New {
                out.push((si, li));
                assert(bank::pair_views(out@) =~= bank::pair_views(done).push(
                    (si as int, li as int),
                ));
                assert((before + new_in(here.take(li as int), si as int)).push(
                    (si as int, li as int),
                ) =~= before + new_in(here.take(li as int), si as int).push(
                    (si as int, li as int),
                ));
            }
            li = li + 1;
        }
        assert(here.take(li as int) =~= here);
        si = si + 1;
    }
    assert(all.take(si as int) =~= all);
    out
}

fn place_among(new: &Vec<(usize, usize)>, si: usize, li: usize) -> (r: Option<usize>)
    ensures
        match r {
            Some(k) => place_of(bank::pair_views(new@), (si as int, li as int), 0) == Some(
                k as int,
            ) && k < new@.len(),
            None => place_of(bank::pair_views(new@), (si as int, li as int), 0) is None,
        },
{
    let ghost all = bank::pair_views(new@);
    let mut k: usize = 0;
    while k < new.len()
        invariant
            k <= new@.len(),
            all == bank::pair_views(new@),
            place_of(all, (si as int, li as int), 0) == place_of(
                all,
                (si as int, li as int),
                k as int,
            ),
        decreases new@.len() - k,
    {
        assert(all[k as int] == (new@[k as int].0 as int, new@[k as int].1 as int));
        if new[k].0 == si && new[k].1 == li {
            return Some(k);
        }
        k = k + 1;
    }
    None
}

fn mark_reversals(ss: &Vec<Statement>, new: &Vec<(usize, usize)>) -> (r: Vec<Shape>)
    ensures
        r@ == with_reversals(landings(ss@), bank::pair_views(new@), ss@.len() as int),
        r@.len() == new@.len(),
        all_refer(r@, 0),
{
    let ghost ls = landings(ss@);
    let ghost places = bank::pair_views(new@);
    let mut shapes: Vec<Shape> = Vec::new();
    let mut k: usize = 0;
    while k < new.len()
        invariant
            k <= new@.len(),
            shapes@ == Seq::new(k as nat, |i: int| Shape::Open),
        decreases new@.len() - k,
    {
        shapes.push(Shape::Open);
        assert(shapes@ =~= Seq::new((k + 1) as nat, |i: int| Shape::Open));
        k = k + 1;
    }
    let mut si: usize = 0;
    while si < ss.len()
        invariant
            si <= ss@.len(),
            ls == landings(ss@),
            places == bank::pair_views(new@),
            shapes@.len() == new@.len(),
            all_refer(shapes@, 0),
            shapes@ == with_reversals(ls, places, si as int),
        decreases ss@.len() - si,
    {
        assert(ls[si as int] == ss@[si as int]@);
        let pairs = ss[si].statement.reversals();
        let ghost all = bank::pair_views(pairs@);
        let ghost start = shapes@;
        let mut p: usize = 0;
        assert(all.take(0) =~= Seq::empty());
        while p < pairs.len()
            invariant
                p <= pairs@.len(),
                all == bank::pair_views(pairs@),
                places == bank::pair_views(new@),
                shapes@.len() == new@.len(),
                all_refer(shapes@, 0),
                shapes@ == with_reversals_in(places, start, si as int, all.take(p as int)),
            decreases pairs@.len() - p,
        {
            assert(all.take(p as int + 1).drop_last() =~= all.take(p as int));
            let (debit, reversal) = pairs[p];
            assert(all[p as int] == (debit as int, reversal as int));
            if let (Some(d), Some(r)) = (
                place_among(new, si, debit),
                place_among(new, si, reversal),
            ) {
                shapes.set(d, Shape::Reversal(r));
                shapes.set(r, Shape::Absorbed);
            }
            p = p + 1;
        }
        assert(all.take(p as int) =~= all);
        si = si + 1;
    }
    shapes
}

/// What the pairing reads: the statements, what the ledger holds of them, and
/// the accounts that have statements.
pub struct Context<'a, 'b> {
    pub ss: &'a Vec<Statement<'b>>,
    pub sorted: &'a Vec<Sorted>,
    pub accounts: &'a Vec<(String, String)>,
    pub new: &'a Vec<(usize, usize)>,
}

impl<'a, 'b> Context<'a, 'b> {
    pub open spec fn ls(&self) -> Seq<LandingV> {
        landings(self.ss@)
    }

    pub open spec fn table(&self) -> Seq<(Seq<char>, Seq<char>)> {
        accounts::table(self.accounts@)
    }

    pub open spec fn places(&self) -> Seq<(int, int)> {
        bank::pair_views(self.new@)
    }

    pub open spec fn sound(&self) -> bool {
        all_sort(self.sorted@, self.ls()) && in_lines(self.places(), self.ls())
    }

    /// The statement, the line and its effect at the new line `k`.
    pub fn at(&self, k: usize) -> (r: (&'a Statement<'b>, &'a StatementLine, Amount))
        requires
            self.sound(),
            k < self.new@.len(),
        ensures
            r.0@ == self.ls()[self.places()[k as int].0],
            r.1@ == line_at(self.ls(), self.places()[k as int]),
            r.2@ == delta_at(self.ls(), self.places()[k as int]),
            bank::delta(r.1@) == Some(r.2@),
            *r.0 == self.ss@[self.new@[k as int].0 as int],
            *r.1 == r.0.statement.lines@[self.new@[k as int].1 as int],
    {
        let (si, li) = self.new[k];
        assert(self.places()[k as int] == (si as int, li as int));
        assert(self.ls()[si as int] == self.ss@[si as int]@);
        assert(sorts(self.sorted@[si as int], self.ls()[si as int]));
        let s = &self.ss[si];
        assert(s@.statement.lines[li as int] == s.statement.lines@[li as int]@);
        (s, &s.statement.lines[li], self.sorted[si].deltas[li])
    }

    fn is_internal(&self, k: usize) -> (r: bool)
        requires
            self.sound(),
            k < self.new@.len(),
        ensures
            r == is_internal(self.ls(), self.table(), self.places()[k as int]),
    {
        let (s, l, _) = self.at(k);
        let ghost table = self.table();
        let mut i: usize = 0;
        while i < self.accounts.len()
            invariant
                i <= self.accounts@.len(),
                table == accounts::table(self.accounts@),
                s@ == self.ls()[self.places()[k as int].0],
                l@ == line_at(self.ls(), self.places()[k as int]),
                forall|j: int|
                    0 <= j < i ==> !((#[trigger] table[j]).0 != s@.statement.account_no
                        && bank::names(s@.statement.bank, l@.info, table[j].0)),
            decreases self.accounts@.len() - i,
        {
            assert(table[i as int].0 == self.accounts@[i as int].0@);
            let no = self.accounts[i].0.as_str();
            if !text::same_text(no, s.statement.account_no.as_str()) && s.statement.names_account(
                l.info.as_str(),
                no,
            ) {
                return true;
            }
            i = i + 1;
        }
        false
    }

    fn names_account_of(&self, k: usize, o: usize) -> (r: bool)
        requires
            self.sound(),
            k < self.new@.len(),
            o < self.new@.len(),
        ensures
            r == names_account_of(self.ls(), self.places()[k as int], self.places()[o as int].0),
    {
        let (s, l, _) = self.at(k);
        let (other, _, _) = self.at(o);
        let no = other.statement.account_no.as_str();
        s.statement.names_account(l.info.as_str(), no) || s.statement.names_account(
            l.memo.as_str(),
            no,
        )
    }

    fn is_far_half(&self, shapes: &Vec<Shape>, k: usize, o: usize) -> (r: bool)
        requires
            self.sound(),
            k < self.new@.len(),
            o < self.new@.len(),
            shapes@.len() == self.new@.len(),
        ensures
            r == is_far_half(
                self.ls(),
                self.table(),
                self.places(),
                shapes@,
                k as int,
                o as int,
            ),
    {
        let (s, l, d) = self.at(k);
        let (t, m, e) = self.at(o);
        assert(self.places()[k as int] == (
            self.new@[k as int].0 as int,
            self.new@[k as int].1 as int,
        ));
        assert(self.places()[o as int] == (
            self.new@[o as int].0 as int,
            self.new@[o as int].1 as int,
        ));
        self.new[o].0 != self.new[k].0 && t.statement.currency == s.statement.currency
            && shapes[o] == Shape::Open && self.is_internal(o) && m.book_date.number()
            == l.book_date.number() && e.equals(&d.negated())
    }

    fn far_half(&self, shapes: &Vec<Shape>, k: usize) -> (r: Option<usize>)
        requires
            self.sound(),
            k < self.new@.len(),
            shapes@.len() == self.new@.len(),
        ensures
            match r {
                Some(o) => far_half(
                    self.ls(),
                    self.table(),
                    self.places(),
                    shapes@,
                    k as int,
                    0,
                ) == Some(o as int) && o < self.new@.len(),
                None => far_half(
                    self.ls(),
                    self.table(),
                    self.places(),
                    shapes@,
                    k as int,
                    0,
                ) is None,
            },
    {
        let mut o: usize = 0;
        while o < self.new.len()
            invariant
                o <= self.new@.len(),
                self.sound(),
                k < self.new@.len(),
                shapes@.len() == self.new@.len(),
                far_half(self.ls(), self.table(), self.places(), shapes@, k as int, 0) == far_half(
                    self.ls(),
                    self.table(),
                    self.places(),
                    shapes@,
                    k as int,
                    o as int,
                ),
            decreases self.new@.len() - o,
        {
            if self.is_far_half(shapes, k, o) {
                return Some(o);
            }
            o = o + 1;
        }
        None
    }

    fn is_exchange(&self, shapes: &Vec<Shape>, k: usize, o: usize) -> (r: bool)
        requires
            self.sound(),
            k < self.new@.len(),
            o < self.new@.len(),
            shapes@.len() == self.new@.len(),
        ensures
            r == is_exchange(self.ls(), self.places(), shapes@, k as int, o as int),
    {
        let (s, l, _) = self.at(k);
        let (t, m, e) = self.at(o);
        s.statement.currency != t.statement.currency && !text::same_text(
            s.statement.account_no.as_str(),
            t.statement.account_no.as_str(),
        ) && shapes[o] == Shape::Open && m.book_date.number() == l.book_date.number()
            && !e.is_sign_negative() && self.names_account_of(k, o) && self.names_account_of(o, k)
    }

    /// The first exchange of `k`, and how many there are.
    fn exchanges(&self, shapes: &Vec<Shape>, k: usize) -> (r: (usize, usize))
        requires
            self.sound(),
            k < self.new@.len(),
            shapes@.len() == self.new@.len(),
        ensures
            r.1 == exchanges(
                self.ls(),
                self.places(),
                shapes@,
                k as int,
                self.new@.len() as int,
            ).len(),
            r.1 > 0 ==> r.0 == exchanges(
                self.ls(),
                self.places(),
                shapes@,
                k as int,
                self.new@.len() as int,
            )[0] && r.0 < self.new@.len(),
    {
        let mut first: usize = 0;
        let mut n: usize = 0;
        let mut o: usize = 0;
        while o < self.new.len()
            invariant
                o <= self.new@.len(),
                n <= o,
                self.sound(),
                k < self.new@.len(),
                shapes@.len() == self.new@.len(),
                n == exchanges(self.ls(), self.places(), shapes@, k as int, o as int).len(),
                n > 0 ==> first == exchanges(
                    self.ls(),
                    self.places(),
                    shapes@,
                    k as int,
                    o as int,
                )[0] && first < o,
            decreases self.new@.len() - o,
        {
            if self.is_exchange(shapes, k, o) {
                if n == 0 {
                    first = o;
                }
                n = n + 1;
            }
            o = o + 1;
        }
        (first, n)
    }

    /// How the new lines pair up among themselves.
    pub fn pair_up(&self) -> (r: Vec<Shape>)
        requires
            self.sound(),
        ensures
            r@ == paired(self.ls(), self.table(), self.places()),
            r@.len() == self.new@.len(),
            all_refer(r@, 0),
    {
        let ghost (ls, table, places) = (self.ls(), self.table(), self.places());
        assert(places.len() == self.new@.len());
        let mut shapes = mark_reversals(self.ss, self.new);
        let ghost reversed = shapes@;
        let mut k: usize = 0;
        while k < self.new.len()
            invariant
                k <= self.new@.len(),
                self.sound(),
                (ls, table, places) == (self.ls(), self.table(), self.places()),
                shapes@.len() == self.new@.len(),
                all_refer(shapes@, 0),
                shapes@ == with_transfers(ls, table, places, reversed, k as int),
            decreases self.new@.len() - k,
        {
            let (_, _, d) = self.at(k);
            if shapes[k] == Shape::Open && d.is_sign_negative() && self.is_internal(k) {
                if let Some(o) = self.far_half(&shapes, k) {
                    shapes.set(k, Shape::Transfer(o));
                    shapes.set(o, Shape::Absorbed);
                }
            }
            k = k + 1;
        }
        let ghost moved = shapes@;
        let mut j: usize = 0;
        while j < self.new.len()
            invariant
                j <= self.new@.len(),
                self.sound(),
                (ls, table, places) == (self.ls(), self.table(), self.places()),
                places.len() == self.new@.len(),
                shapes@.len() == self.new@.len(),
                all_refer(shapes@, 0),
                shapes@ == with_exchanges(ls, places, moved, j as int),
            decreases self.new@.len() - j,
        {
            let (_, _, d) = self.at(j);
            if shapes[j] == Shape::Open && d.is_sign_negative() {
                let (first, n) = self.exchanges(&shapes, j);
                if n == 1 {
                    shapes.set(j, Shape::Transfer(first));
                    shapes.set(first, Shape::Absorbed);
                }
            }
            j = j + 1;
        }
        let ghost exchanged = shapes@;
        let ghost last = with_transit(ls, table, places, exchanged);
        let mut i: usize = 0;
        while i < self.new.len()
            invariant
                i <= self.new@.len(),
                self.sound(),
                (ls, table, places) == (self.ls(), self.table(), self.places()),
                shapes@.len() == self.new@.len(),
                all_refer(shapes@, 0),
                exchanged.len() == self.new@.len(),
                last == with_transit(ls, table, places, exchanged),
                forall|x: int| 0 <= x < i ==> shapes@[x] == #[trigger] last[x],
                forall|x: int| i <= x < shapes@.len() ==> #[trigger] shapes@[x] == exchanged[x],
            decreases self.new@.len() - i,
        {
            if shapes[i] == Shape::Open && self.is_internal(i) {
                shapes.set(i, Shape::InTransit);
            }
            i = i + 1;
        }
        assert(shapes@ =~= last);
        shapes
    }
}

pub open spec fn ints(v: Seq<usize>) -> Seq<int> {
    v.map_values(|n: usize| n as int)
}

/// The lines left open.
pub(crate) fn targets_of(shapes: &Vec<Shape>) -> (r: Vec<usize>)
    ensures
        ints(r@) == targets(shapes@),
        forall|i: int| 0 <= i < r@.len() ==> (#[trigger] r@[i]) < shapes@.len(),
{
    let mut out: Vec<usize> = Vec::new();
    assert(ints(out@) =~= Seq::empty());
    let mut k: usize = 0;
    while k < shapes.len()
        invariant
            k <= shapes@.len(),
            ints(out@) == targets(shapes@.take(k as int)),
            forall|i: int| 0 <= i < out@.len() ==> (#[trigger] out@[i]) < shapes@.len(),
        decreases shapes@.len() - k,
    {
        let ghost before = out@;
        assert(shapes@.take(k as int + 1).drop_last() =~= shapes@.take(k as int));
        if shapes[k] == Shape::Open {
            out.push(k);
            assert(ints(out@) =~= ints(before).push(k as int));
        }
        k = k + 1;
    }
    assert(shapes@.take(k as int) =~= shapes@);
    out
}

/// The shape of every new line, given the targets of the matches.
pub(crate) fn settle(shapes: Vec<Shape>, matched: &Vec<usize>) -> (r: Vec<Shape>)
    requires
        all_refer(shapes@, 0),
    ensures
        r@ == settled(shapes@, ints(matched@)),
        r@.len() == shapes@.len(),
        all_refer(r@, matched@.len() as int),
{
    let ghost given = shapes@;
    let ghost all = ints(matched@);
    let open = targets_of(&shapes);
    let mut shapes = shapes;
    let mut m: usize = 0;
    while m < matched.len()
        invariant
            m <= matched@.len(),
            all == ints(matched@),
            shapes@.len() == given.len(),
            ints(open@) == targets(given),
            forall|i: int| 0 <= i < open@.len() ==> (#[trigger] open@[i]) < given.len(),
            shapes@ == with_matches(given, targets(given), all, m as int),
            all_refer(shapes@, m as int),
        decreases matched@.len() - m,
    {
        assert(all[m as int] == matched@[m as int]);
        assert(ints(open@).len() == open@.len());
        let t: usize = matched[m];
        if t < open.len() {
            assert(ints(open@)[t as int] == open@[t as int]);
            shapes.set(open[t], Shape::Matched(m));
        }
        m = m + 1;
    }
    let ghost marked = shapes@;
    assert(all.len() == matched@.len());
    let ghost last = settled(given, all);
    let mut k: usize = 0;
    while k < shapes.len()
        invariant
            k <= shapes@.len(),
            shapes@.len() == given.len() == marked.len(),
            all_refer(shapes@, matched@.len() as int),
            last.len() == marked.len(),
            forall|x: int|
                0 <= x < marked.len() ==> #[trigger] last[x] == (if marked[x] == Shape::Open {
                    Shape::Fallback
                } else {
                    marked[x]
                }),
            forall|x: int| 0 <= x < k ==> shapes@[x] == #[trigger] last[x],
            forall|x: int| k <= x < shapes@.len() ==> #[trigger] shapes@[x] == marked[x],
        decreases shapes@.len() - k,
    {
        if shapes[k] == Shape::Open {
            shapes.set(k, Shape::Fallback);
        }
        k = k + 1;
    }
    assert(shapes@ =~= last);
    shapes
}

} // verus!
