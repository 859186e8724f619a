//! A bank line matched to the subset of app records summing to it.

use vstd::prelude::*;

use crate::amount;
use crate::amount::{Amount, Dec};
use crate::date::Date;
use crate::text;

verus! {

pub const MODE: &'static str = "statement-line";

/// A record to place, or to place against.
#[derive(Clone, Debug)]
pub struct Record {
    pub ref_id: i64,
    pub date: Date,
    pub amount: Amount,
    pub currency: String,
}

/// A candidate and what is left of it.
#[derive(Clone, Debug)]
pub struct Available {
    pub record: Record,
    pub remaining: Amount,
}

/// What a match draws on a candidate.
#[derive(Clone, Copy, Debug, PartialEq)]
pub struct Consumption {
    pub source: i64,
    pub amount: Amount,
}

#[derive(Clone, Debug, PartialEq)]
pub struct Match {
    pub mode: &'static str,
    pub target: i64,
    pub consumed: Vec<Consumption>,
    /// What the candidates leave of the target.
    pub residual: Amount,
}

/// What a match is.
#[verifier::ext_equal]
pub struct MatchV {
    pub target: i64,
    pub consumed: Seq<(i64, Dec)>,
    pub residual: Dec,
}

pub open spec fn consumption_views(v: Seq<Consumption>) -> Seq<(i64, Dec)> {
    v.map_values(|c: Consumption| (c.source, c.amount@))
}

impl View for Match {
    type V = MatchV;

    open spec fn view(&self) -> MatchV {
        MatchV {
            target: self.target,
            consumed: consumption_views(self.consumed@),
            residual: self.residual@,
        }
    }
}

pub open spec fn match_views(v: Seq<Match>) -> Seq<MatchV> {
    v.map_values(|m: Match| m@)
}

impl Match {
    /// The candidates the match draws on.
    pub fn sources(&self) -> (r: Vec<i64>)
        ensures
            r@ == self@.consumed.map_values(|c: (i64, Dec)| c.0),
    {
        let ghost all = self@.consumed.map_values(|c: (i64, Dec)| c.0);
        let mut out: Vec<i64> = Vec::new();
        let mut i: usize = 0;
        while i < self.consumed.len()
            invariant
                i <= self.consumed@.len(),
                all == self@.consumed.map_values(|c: (i64, Dec)| c.0),
                out@ == all.take(i as int),
            decreases self.consumed@.len() - i,
        {
            out.push(self.consumed[i].source);
            assert(all.take(i as int + 1) =~= all.take(i as int).push(all[i as int]));
            i = i + 1;
        }
        assert(all.take(i as int) =~= all);
        out
    }
}

/// The records of one currency, by their places: the lines to place and the
/// candidates to place them against. The core matches on amount alone, so
/// currencies must not share a pool.
#[derive(Clone, Debug)]
pub struct Group {
    pub currency: String,
    pub targets: Vec<usize>,
    pub candidates: Vec<usize>,
}

/// What a group is.
#[verifier::ext_equal]
pub struct GroupV {
    pub currency: Seq<char>,
    pub targets: Seq<int>,
    pub candidates: Seq<int>,
}

pub open spec fn ints(v: Seq<usize>) -> Seq<int> {
    v.map_values(|n: usize| n as int)
}

impl View for Group {
    type V = GroupV;

    open spec fn view(&self) -> GroupV {
        GroupV {
            currency: self.currency@,
            targets: ints(self.targets@),
            candidates: ints(self.candidates@),
        }
    }
}

pub open spec fn group_views(v: Seq<Group>) -> Seq<GroupV> {
    v.map_values(|g: Group| g@)
}

/// Which of `currencies` are `c`.
pub open spec fn in_currency(currencies: Seq<Seq<char>>, c: Seq<char>) -> Seq<int>
    decreases currencies.len(),
{
    if currencies.len() == 0 {
        Seq::empty()
    } else {
        let before = in_currency(currencies.drop_last(), c);
        if currencies.last() == c {
            before.push(currencies.len() - 1)
        } else {
            before
        }
    }
}

/// The groups of the currencies `keys` that have candidates.
pub open spec fn groups_of(
    keys: Seq<Seq<char>>,
    targets: Seq<Seq<char>>,
    candidates: Seq<Seq<char>>,
) -> Seq<GroupV>
    decreases keys.len(),
{
    if keys.len() == 0 {
        Seq::empty()
    } else {
        let before = groups_of(keys.drop_last(), targets, candidates);
        let c = keys.last();
        if in_currency(candidates, c).len() > 0 {
            before.push(
                GroupV {
                    currency: c,
                    targets: in_currency(targets, c),
                    candidates: in_currency(candidates, c),
                },
            )
        } else {
            before
        }
    }
}

pub open spec fn target_currencies(v: Seq<Record>) -> Seq<Seq<char>> {
    v.map_values(|r: Record| r.currency@)
}

pub open spec fn pool_currencies(v: Seq<Available>) -> Seq<Seq<char>> {
    v.map_values(|a: Available| a.record.currency@)
}

/// The lines and candidates of each currency the two share, in the order of
/// the currencies.
pub open spec fn grouped(targets: Seq<Record>, pool: Seq<Available>) -> Seq<GroupV> {
    let ts = target_currencies(targets);
    groups_of(text::sorted_set(ts), ts, pool_currencies(pool))
}

fn in_currency_of(currencies: &Vec<String>, c: &str) -> (r: Vec<usize>)
    ensures
        ints(r@) == in_currency(text::texts(currencies@), c@),
        forall|i: int| 0 <= i < r@.len() ==> (#[trigger] r@[i]) < currencies@.len(),
{
    let ghost all = text::texts(currencies@);
    let mut out: Vec<usize> = Vec::new();
    assert(ints(out@) =~= Seq::empty());
    let mut i: usize = 0;
    while i < currencies.len()
        invariant
            i <= currencies@.len(),
            all == text::texts(currencies@),
            ints(out@) == in_currency(all.take(i as int), c@),
            forall|j: int| 0 <= j < out@.len() ==> (#[trigger] out@[j]) < currencies@.len(),
        decreases currencies@.len() - i,
    {
        let ghost before = out@;
        assert(all[i as int] == currencies@[i as int]@);
        assert(all.take(i as int + 1).drop_last() =~= all.take(i as int));
        if text::same_text(currencies[i].as_str(), c) {
            out.push(i);
            assert(ints(out@) =~= ints(before).push(i as int));
        }
        i = i + 1;
    }
    assert(all.take(i as int) =~= all);
    out
}

/// The lines and candidates of each currency the two share.
pub fn groups(targets: &Vec<Record>, pool: &Vec<Available>) -> (r: Vec<Group>)
    ensures
        group_views(r@) == grouped(targets@, pool@),
        forall|g: int, i: int|
            0 <= g < r@.len() && 0 <= i < r@[g].targets@.len() ==> (#[trigger] r@[g].targets@[i])
                < targets@.len(),
        forall|g: int, i: int|
            0 <= g < r@.len() && 0 <= i < r@[g].candidates@.len() ==> (
            #[trigger] r@[g].candidates@[i]) < pool@.len(),
{
    let ghost ts = target_currencies(targets@);
    let ghost ps = pool_currencies(pool@);
    let mut of_targets: Vec<String> = Vec::new();
    let mut keys: Vec<String> = Vec::new();
    let mut i: usize = 0;
    assert(text::texts(keys@) =~= Seq::empty());
    assert(text::texts(of_targets@) =~= ts.take(0));
    while i < targets.len()
        invariant
            i <= targets@.len(),
            ts == target_currencies(targets@),
            text::texts(of_targets@) == ts.take(i as int),
            text::texts(keys@) == text::sorted_set(ts.take(i as int)),
        decreases targets@.len() - i,
    {
        let ghost before = of_targets@;
        let c = text::copy(targets[i].currency.as_str());
        assert(ts.take(i as int + 1).drop_last() =~= ts.take(i as int));
        text::add_key(&mut keys, c.as_str());
        of_targets.push(c);
        assert(text::texts(of_targets@) =~= text::texts(before).push(c@));
        assert(ts.take(i as int + 1) =~= ts.take(i as int).push(ts[i as int]));
        i = i + 1;
    }
    assert(ts.take(i as int) =~= ts);
    let mut of_pool: Vec<String> = Vec::new();
    let mut j: usize = 0;
    assert(text::texts(of_pool@) =~= ps.take(0));
    while j < pool.len()
        invariant
            j <= pool@.len(),
            ps == pool_currencies(pool@),
            text::texts(of_pool@) == ps.take(j as int),
        decreases pool@.len() - j,
    {
        let ghost before = of_pool@;
        let c = text::copy(pool[j].record.currency.as_str());
        of_pool.push(c);
        assert(text::texts(of_pool@) =~= text::texts(before).push(c@));
        assert(ps.take(j as int + 1) =~= ps.take(j as int).push(ps[j as int]));
        j = j + 1;
    }
    assert(ps.take(j as int) =~= ps);
    assert(ts.len() == of_targets@.len()) by {
        assert(text::texts(of_targets@).len() == of_targets@.len());
    }
    assert(ps.len() == of_pool@.len()) by {
        assert(text::texts(of_pool@).len() == of_pool@.len());
    }
    let ghost all = text::texts(keys@);
    let mut out: Vec<Group> = Vec::new();
    assert(group_views(out@) =~= Seq::empty());
    let mut k: usize = 0;
    while k < keys.len()
        invariant
            k <= keys@.len(),
            all == text::texts(keys@),
            ts == text::texts(of_targets@),
            ps == text::texts(of_pool@),
            of_targets@.len() == targets@.len(),
            of_pool@.len() == pool@.len(),
            group_views(out@) == groups_of(all.take(k as int), ts, ps),
            forall|g: int, i: int|
                0 <= g < out@.len() && 0 <= i < out@[g].targets@.len() ==> (
                #[trigger] out@[g].targets@[i]) < targets@.len(),
            forall|g: int, i: int|
                0 <= g < out@.len() && 0 <= i < out@[g].candidates@.len() ==> (
                #[trigger] out@[g].candidates@[i]) < pool@.len(),
        decreases keys@.len() - k,
    {
        let ghost before = out@;
        assert(all[k as int] == keys@[k as int]@);
        assert(all.take(k as int + 1).drop_last() =~= all.take(k as int));
        let candidates = in_currency_of(&of_pool, keys[k].as_str());
        assert(ints(candidates@).len() == candidates@.len());
        let ghost of_group = candidates@;
        if candidates.len() > 0 {
            let group = Group {
                currency: text::copy(keys[k].as_str()),
                targets: in_currency_of(&of_targets, keys[k].as_str()),
                candidates,
            };
            out.push(group);
            assert(group_views(out@) =~= group_views(before).push(group@));
            assert forall|g: int, i: int|
                0 <= g < out@.len() && 0 <= i < out@[g].candidates@.len() implies (
            #[trigger] out@[g].candidates@[i]) < pool@.len() by {
                if g == before.len() {
                    assert(out@[g].candidates@ == of_group);
                    assert(of_group[i] < pool@.len());
                } else {
                    assert(before[g].candidates@[i] < pool@.len());
                }
            }
        }
        k = k + 1;
    }
    assert(all.take(k as int) =~= all);
    out
}

/// What a subset of a group's candidates draws.
pub open spec fn drawn(pool: Seq<Available>, candidates: Seq<int>, subset: Seq<int>) -> Seq<
    (i64, Dec),
> {
    subset.map_values(
        |e: int| (pool[candidates[e]].record.ref_id, pool[candidates[e]].remaining@),
    )
}

/// The amounts drawn, added up.
pub open spec fn drawn_total(consumed: Seq<(i64, Dec)>) -> Option<Dec>
    decreases consumed.len(),
{
    if consumed.len() == 0 {
        Some(amount::zero())
    } else {
        match drawn_total(consumed.drop_last()) {
            Some(t) => amount::sum(t, consumed.last().1),
            None => None,
        }
    }
}

/// The match of a target with a subset of its group's candidates; `None` where
/// a total is out of range.
pub open spec fn matched(
    target: Record,
    pool: Seq<Available>,
    candidates: Seq<int>,
    subset: Seq<int>,
) -> Option<MatchV> {
    let consumed = drawn(pool, candidates, subset);
    match drawn_total(consumed) {
        None => None,
        Some(t) => match amount::difference(target.amount@, t) {
            None => None,
            Some(residual) => Some(MatchV { target: target.ref_id, consumed, residual }),
        },
    }
}

pub open spec fn subset_view(s: Option<Vec<usize>>) -> Option<Seq<int>> {
    match s {
        Some(v) => Some(ints(v@)),
        None => None,
    }
}

pub open spec fn subset_views(v: Seq<Option<Vec<usize>>>) -> Seq<Option<Seq<int>>> {
    v.map_values(|s: Option<Vec<usize>>| subset_view(s))
}

/// The matches of the first `n` lines of a group, given the subset of its
/// candidates each is assigned.
pub open spec fn group_matches(
    targets: Seq<Record>,
    pool: Seq<Available>,
    g: GroupV,
    assigned: Seq<Option<Seq<int>>>,
    n: int,
) -> Option<Seq<MatchV>>
    decreases n,
{
    if n <= 0 {
        Some(Seq::empty())
    } else {
        match group_matches(targets, pool, g, assigned, n - 1) {
            None => None,
            Some(before) => match assigned[n - 1] {
                None => Some(before),
                Some(subset) => match matched(
                    targets[g.targets[n - 1]],
                    pool,
                    g.candidates,
                    subset,
                ) {
                    None => None,
                    Some(m) => Some(before.push(m)),
                },
            },
        }
    }
}

/// Is every line of the group assigned, to candidates of the group alone?
pub open spec fn assigns(g: GroupV, assigned: Seq<Option<Seq<int>>>) -> bool {
    &&& assigned.len() == g.targets.len()
    &&& forall|l: int, i: int|
        0 <= l < assigned.len() && assigned[l] is Some && 0 <= i < assigned[l]->0.len() ==> 0 <= (
        #[trigger] assigned[l]->0[i]) < g.candidates.len()
}

/// Matches bank lines to subsets of app records.
#[derive(Clone, Copy, Debug)]
pub struct StatementLineMode;

fn matched_of(target: &Record, pool: &Vec<Available>, candidates: &Vec<usize>, subset: &Vec<usize>) -> (r:
    Option<Match>)
    requires
        forall|i: int| 0 <= i < subset@.len() ==> (#[trigger] subset@[i]) < candidates@.len(),
        forall|i: int| 0 <= i < candidates@.len() ==> (#[trigger] candidates@[i]) < pool@.len(),
    ensures
        match r {
            Some(m) => matched(*target, pool@, ints(candidates@), ints(subset@)) == Some(m@)
                && m.mode@ == MODE@,
            None => matched(*target, pool@, ints(candidates@), ints(subset@)) is None,
        },
{
    let ghost all = drawn(pool@, ints(candidates@), ints(subset@));
    let mut consumed: Vec<Consumption> = Vec::new();
    let mut total = Amount::zero();
    let mut i: usize = 0;
    assert(consumption_views(consumed@) =~= all.take(0));
    while i < subset.len()
        invariant
            i <= subset@.len(),
            all == drawn(pool@, ints(candidates@), ints(subset@)),
            forall|i: int| 0 <= i < subset@.len() ==> (#[trigger] subset@[i]) < candidates@.len(),
            forall|i: int| 0 <= i < candidates@.len() ==> (#[trigger] candidates@[i]) < pool@.len(),
            consumption_views(consumed@) == all.take(i as int),
            drawn_total(all.take(i as int)) == Some(total@),
        decreases subset@.len() - i,
    {
        let ghost before = consumed@;
        let a = &pool[candidates[subset[i]]];
        assert(ints(subset@)[i as int] == subset@[i as int]);
        assert(ints(candidates@)[subset@[i as int] as int] == candidates@[subset@[i as int] as int]);
        assert(all[i as int] == (a.record.ref_id, a.remaining@));
        let c = Consumption { source: a.record.ref_id, amount: a.remaining };
        consumed.push(c);
        assert(consumption_views(consumed@) =~= consumption_views(before).push(all[i as int]));
        assert(all.take(i as int + 1) =~= all.take(i as int).push(all[i as int]));
        assert(all.take(i as int + 1).drop_last() =~= all.take(i as int));
        match total.plus(&a.remaining) {
            Some(t) => {
                total = t;
            },
            None => {
                proof {
                    no_total_stays(all, i as int + 1);
                }
                return None;
            },
        }
        i = i + 1;
    }
    assert(all.take(i as int) =~= all);
    match target.amount.minus(&total) {
        Some(residual) => Some(Match { mode: MODE, target: target.ref_id, consumed, residual }),
        None => None,
    }
}

proof fn no_total_stays(consumed: Seq<(i64, Dec)>, n: int)
    requires
        0 <= n <= consumed.len(),
        drawn_total(consumed.take(n)) is None,
    ensures
        drawn_total(consumed) is None,
    decreases consumed.len(),
{
    if n == consumed.len() {
        assert(consumed.take(n) =~= consumed);
    } else {
        assert(consumed.drop_last().take(n) =~= consumed.take(n));
        no_total_stays(consumed.drop_last(), n);
    }
}

proof fn no_matches_stay(
    targets: Seq<Record>,
    pool: Seq<Available>,
    g: GroupV,
    assigned: Seq<Option<Seq<int>>>,
    n: int,
    m: int,
)
    requires
        0 <= n <= m,
        group_matches(targets, pool, g, assigned, n) is None,
    ensures
        group_matches(targets, pool, g, assigned, m) is None,
    decreases m,
{
    if n < m {
        no_matches_stay(targets, pool, g, assigned, n, m - 1);
    }
}

/// The matches of one group, given the subset of its candidates that each
/// of its lines is assigned; `None` where a total is out of range.
fn propose_in(
    targets: &Vec<Record>,
    pool: &Vec<Available>,
    group: &Group,
    assigned: &Vec<Option<Vec<usize>>>,
) -> (r: Option<Vec<Match>>)
    requires
        assigns(group@, subset_views(assigned@)),
        forall|i: int|
            0 <= i < group@.targets.len() ==> 0 <= (#[trigger] group@.targets[i])
                < targets@.len(),
        forall|i: int|
            0 <= i < group@.candidates.len() ==> 0 <= (#[trigger] group@.candidates[i])
                < pool@.len(),
    ensures
        match r {
            Some(v) => group_matches(
                targets@,
                pool@,
                group@,
                subset_views(assigned@),
                assigned@.len() as int,
            ) == Some(match_views(v@)) && forall|i: int|
                0 <= i < v@.len() ==> (#[trigger] v@[i]).mode@ == MODE@,
            None => group_matches(
                targets@,
                pool@,
                group@,
                subset_views(assigned@),
                assigned@.len() as int,
            ) is None,
        },
{
    let ghost g = group@;
    let ghost all = subset_views(assigned@);
    assert(g.targets.len() == group.targets@.len());
    assert(all.len() == assigned@.len());
    let mut out: Vec<Match> = Vec::new();
    assert(match_views(out@) =~= Seq::empty());
    let mut l: usize = 0;
    while l < assigned.len()
        invariant
            l <= assigned@.len(),
            g == group@,
            all == subset_views(assigned@),
            all.len() == assigned@.len(),
            assigns(g, all),
            g.targets.len() == group.targets@.len(),
            forall|i: int|
                0 <= i < g.targets.len() ==> 0 <= (#[trigger] g.targets[i]) < targets@.len(),
            forall|i: int|
                0 <= i < g.candidates.len() ==> 0 <= (#[trigger] g.candidates[i]) < pool@.len(),
            group_matches(targets@, pool@, g, all, l as int) == Some(match_views(out@)),
            forall|i: int| 0 <= i < out@.len() ==> (#[trigger] out@[i]).mode@ == MODE@,
        decreases assigned@.len() - l,
    {
        let ghost before = out@;
        assert(all[l as int] == subset_view(assigned@[l as int]));
        if let Some(subset) = &assigned[l] {
            proof {
                assert(g.targets[l as int] == group.targets@[l as int]);
                assert forall|i: int| 0 <= i < subset@.len() implies (#[trigger] subset@[i])
                    < group.candidates@.len() by {
                    assert(all[l as int]->0[i] == subset@[i]);
                    assert(g.candidates.len() == group.candidates@.len());
                }
                assert forall|i: int| 0 <= i < group.candidates@.len() implies (
                #[trigger] group.candidates@[i]) < pool@.len() by {
                    assert(g.candidates[i] == group.candidates@[i]);
                }
            }
            match matched_of(&targets[group.targets[l]], pool, &group.candidates, subset) {
                Some(m) => {
                    out.push(m);
                    assert(match_views(out@) =~= match_views(before).push(m@));
                },
                None => {
                    proof {
                        no_matches_stay(
                            targets@,
                            pool@,
                            g,
                            all,
                            l as int + 1,
                            assigned@.len() as int,
                        );
                    }
                    return None;
                },
            }
        }
        l = l + 1;
    }
    Some(out)
}

pub open spec fn assigned_views(v: Seq<Vec<Option<Vec<usize>>>>) -> Seq<Seq<Option<Seq<int>>>> {
    v.map_values(|g: Vec<Option<Vec<usize>>>| subset_views(g@))
}

/// Is every line of every group assigned, to candidates of its group alone?
pub open spec fn all_assign(gs: Seq<GroupV>, assigned: Seq<Seq<Option<Seq<int>>>>) -> bool {
    &&& assigned.len() == gs.len()
    &&& forall|i: int| 0 <= i < gs.len() ==> assigns(#[trigger] gs[i], assigned[i])
}

/// The matches of the first `n` groups, given the subset of its group's
/// candidates each line is assigned; `None` where a total is out of range.
pub open spec fn all_matches(
    targets: Seq<Record>,
    pool: Seq<Available>,
    gs: Seq<GroupV>,
    assigned: Seq<Seq<Option<Seq<int>>>>,
    n: int,
) -> Option<Seq<MatchV>>
    decreases n,
{
    if n <= 0 {
        Some(Seq::empty())
    } else {
        match all_matches(targets, pool, gs, assigned, n - 1) {
            None => None,
            Some(before) => match group_matches(
                targets,
                pool,
                gs[n - 1],
                assigned[n - 1],
                assigned[n - 1].len() as int,
            ) {
                None => None,
                Some(more) => Some(before + more),
            },
        }
    }
}

proof fn no_group_stays(
    targets: Seq<Record>,
    pool: Seq<Available>,
    gs: Seq<GroupV>,
    assigned: Seq<Seq<Option<Seq<int>>>>,
    n: int,
    m: int,
)
    requires
        0 <= n <= m,
        all_matches(targets, pool, gs, assigned, n) is None,
    ensures
        all_matches(targets, pool, gs, assigned, m) is None,
    decreases m,
{
    if n < m {
        no_group_stays(targets, pool, gs, assigned, n, m - 1);
    }
}

impl StatementLineMode {
    pub fn name(&self) -> (r: &'static str)
        ensures
            r@ == MODE@,
    {
        MODE
    }

    /// The matches of every group, in the order of [`groups`], given the subset
    /// of its group's candidates that each line is assigned; `None` where a
    /// total is out of range.
    pub fn propose(
        &self,
        targets: &Vec<Record>,
        pool: &Vec<Available>,
        assigned: &Vec<Vec<Option<Vec<usize>>>>,
    ) -> (r: Option<Vec<Match>>)
        requires
            all_assign(grouped(targets@, pool@), assigned_views(assigned@)),
        ensures
            ({
                let gs = grouped(targets@, pool@);
                let all = all_matches(
                    targets@,
                    pool@,
                    gs,
                    assigned_views(assigned@),
                    gs.len() as int,
                );
                match r {
                    Some(v) => all == Some(match_views(v@)) && forall|i: int|
                        0 <= i < v@.len() ==> (#[trigger] v@[i]).mode@ == MODE@,
                    None => all is None,
                }
            }),
    {
        let found = groups(targets, pool);
        let ghost gs = grouped(targets@, pool@);
        let ghost all = assigned_views(assigned@);
        assert(gs.len() == found@.len());
        assert(all.len() == assigned@.len());
        let mut out: Vec<Match> = Vec::new();
        assert(match_views(out@) =~= Seq::empty());
        let mut n: usize = 0;
        while n < found.len()
            invariant
                n <= found@.len(),
                gs == group_views(found@),
                gs == grouped(targets@, pool@),
                all == assigned_views(assigned@),
                all_assign(gs, all),
                gs.len() == found@.len(),
                all.len() == assigned@.len(),
                forall|g: int, i: int|
                    0 <= g < found@.len() && 0 <= i < found@[g].targets@.len() ==> (
                    #[trigger] found@[g].targets@[i]) < targets@.len(),
                forall|g: int, i: int|
                    0 <= g < found@.len() && 0 <= i < found@[g].candidates@.len() ==> (
                    #[trigger] found@[g].candidates@[i]) < pool@.len(),
                all_matches(targets@, pool@, gs, all, n as int) == Some(match_views(out@)),
                forall|i: int| 0 <= i < out@.len() ==> (#[trigger] out@[i]).mode@ == MODE@,
            decreases found@.len() - n,
        {
            let ghost before = out@;
            let group = &found[n];
            proof {
                assert(gs[n as int] == group@);
                assert(all[n as int] == subset_views(assigned@[n as int]@));
                assert(assigns(gs[n as int], all[n as int]));
                assert forall|i: int| 0 <= i < group@.targets.len() implies 0 <= (
                #[trigger] group@.targets[i]) < targets@.len() by {
                    assert(group@.targets[i] == found@[n as int].targets@[i]);
                }
                assert forall|i: int| 0 <= i < group@.candidates.len() implies 0 <= (
                #[trigger] group@.candidates[i]) < pool@.len() by {
                    assert(group@.candidates[i] == found@[n as int].candidates@[i]);
                }
            }
            match propose_in(targets, pool, group, &assigned[n]) {
                Some(v) => {
                    let mut more = v;
                    let ghost new = more@;
                    out.append(&mut more);
                    assert(match_views(out@) =~= match_views(before) + match_views(new));
                    assert forall|i: int| 0 <= i < out@.len() implies (#[trigger] out@[i]).mode@
                        == MODE@ by {
                        if i >= before.len() {
                            assert(out@[i] == new[i - before.len()]);
                        } else {
                            assert(out@[i] == before[i]);
                        }
                    }
                },
                None => {
                    proof {
                        no_group_stays(
                            targets@,
                            pool@,
                            gs,
                            all,
                            n as int + 1,
                            gs.len() as int,
                        );
                    }
                    return None;
                },
            }
            n = n + 1;
        }
        Some(out)
    }
}

proof fn in_currency_is(currencies: Seq<Seq<char>>, c: Seq<char>, i: int)
    requires
        0 <= i < in_currency(currencies, c).len(),
    ensures
        0 <= in_currency(currencies, c)[i] < currencies.len(),
        currencies[in_currency(currencies, c)[i]] == c,
    decreases currencies.len(),
{
    let before = in_currency(currencies.drop_last(), c);
    if i < before.len() {
        in_currency_is(currencies.drop_last(), c, i);
    }
}

proof fn group_is(
    keys: Seq<Seq<char>>,
    targets: Seq<Seq<char>>,
    candidates: Seq<Seq<char>>,
    i: int,
)
    requires
        0 <= i < groups_of(keys, targets, candidates).len(),
    ensures
        ({
            let g = groups_of(keys, targets, candidates)[i];
            g.targets == in_currency(targets, g.currency) && g.candidates == in_currency(
                candidates,
                g.currency,
            )
        }),
    decreases keys.len(),
{
    let before = groups_of(keys.drop_last(), targets, candidates);
    if i < before.len() {
        group_is(keys.drop_last(), targets, candidates, i);
    }
}

proof fn whose_match(
    targets: Seq<Record>,
    pool: Seq<Available>,
    g: GroupV,
    assigned: Seq<Option<Seq<int>>>,
    n: int,
    i: int,
) -> (l: int)
    requires
        group_matches(targets, pool, g, assigned, n) is Some,
        0 <= i < group_matches(targets, pool, g, assigned, n)->0.len(),
    ensures
        0 <= l < n,
        assigned[l] is Some,
        matched(targets[g.targets[l]], pool, g.candidates, assigned[l]->0) == Some(
            group_matches(targets, pool, g, assigned, n)->0[i],
        ),
    decreases n,
{
    if n <= 0 {
        0
    } else if i < group_matches(targets, pool, g, assigned, n - 1)->0.len() {
        whose_match(targets, pool, g, assigned, n - 1, i)
    } else {
        n - 1
    }
}

proof fn whose_group(
    targets: Seq<Record>,
    pool: Seq<Available>,
    gs: Seq<GroupV>,
    assigned: Seq<Seq<Option<Seq<int>>>>,
    n: int,
    i: int,
) -> (at: (int, int))
    requires
        all_matches(targets, pool, gs, assigned, n) is Some,
        0 <= i < all_matches(targets, pool, gs, assigned, n)->0.len(),
    ensures
        ({
            let ms = group_matches(
                targets,
                pool,
                gs[at.0],
                assigned[at.0],
                assigned[at.0].len() as int,
            );
            &&& 0 <= at.0 < n
            &&& ms is Some
            &&& 0 <= at.1 < ms->0.len()
            &&& ms->0[at.1] == all_matches(targets, pool, gs, assigned, n)->0[i]
        }),
    decreases n,
{
    let before = all_matches(targets, pool, gs, assigned, n - 1)->0;
    if n <= 0 {
        (0, 0)
    } else if i < before.len() {
        whose_group(targets, pool, gs, assigned, n - 1, i)
    } else {
        (n - 1, i - before.len())
    }
}

/// A match never crosses currencies: every candidate that a proposed match
/// draws on is in the currency of its line.
pub proof fn a_match_stays_in_its_currency(
    targets: Seq<Record>,
    pool: Seq<Available>,
    assigned: Seq<Seq<Option<Seq<int>>>>,
    i: int,
    k: int,
) -> (at: (int, int))
    requires
        all_assign(grouped(targets, pool), assigned),
        ({
            let gs = grouped(targets, pool);
            &&& all_matches(targets, pool, gs, assigned, gs.len() as int) matches Some(ms)
            &&& 0 <= i < ms.len()
            &&& 0 <= k < ms[i].consumed.len()
        }),
    ensures
        ({
            let gs = grouped(targets, pool);
            let m = all_matches(targets, pool, gs, assigned, gs.len() as int)->0[i];
            let (target, source) = (targets[at.0], pool[at.1]);
            &&& 0 <= at.0 < targets.len()
            &&& 0 <= at.1 < pool.len()
            &&& m.target == target.ref_id
            &&& m.consumed[k] == (source.record.ref_id, source.remaining@)
            &&& source.record.currency@ == target.currency@
        }),
{
    let gs = grouped(targets, pool);
    let (ts, ps) = (target_currencies(targets), pool_currencies(pool));
    let (n, j) = whose_group(targets, pool, gs, assigned, gs.len() as int, i);
    let g = gs[n];
    let l = whose_match(targets, pool, g, assigned[n], assigned[n].len() as int, j);
    group_is(text::sorted_set(ts), ts, ps, n);
    assert(assigns(g, assigned[n]));
    let subset = assigned[n][l]->0;
    assert(0 <= subset[k] < g.candidates.len());
    in_currency_is(ts, g.currency, l);
    in_currency_is(ps, g.currency, subset[k]);
    let at = (g.targets[l], g.candidates[subset[k]]);
    assert(ts[at.0] == targets[at.0].currency@);
    assert(ps[at.1] == pool[at.1].record.currency@);
    at
}

proof fn totals_agree(consumed: Seq<(i64, Dec)>)
    ensures
        drawn_total(consumed) == amount::total(consumed.map_values(|c: (i64, Dec)| c.1)),
    decreases consumed.len(),
{
    let all = consumed.map_values(|c: (i64, Dec)| c.1);
    if consumed.len() > 0 {
        totals_agree(consumed.drop_last());
        assert(all.drop_last() =~= consumed.drop_last().map_values(|c: (i64, Dec)| c.1));
    }
}

/// What a match leaves is its line's amount less the total of what it draws.
pub proof fn a_match_leaves_what_it_does_not_draw(
    targets: Seq<Record>,
    pool: Seq<Available>,
    gs: Seq<GroupV>,
    assigned: Seq<Seq<Option<Seq<int>>>>,
    i: int,
) -> (at: (int, int))
    requires
        all_matches(targets, pool, gs, assigned, gs.len() as int) is Some,
        0 <= i < all_matches(targets, pool, gs, assigned, gs.len() as int)->0.len(),
    ensures
        ({
            let m = all_matches(targets, pool, gs, assigned, gs.len() as int)->0[i];
            let (n, l) = at;
            let target = targets[gs[n].targets[l]];
            &&& 0 <= n < gs.len()
            &&& 0 <= l < assigned[n].len()
            &&& assigned[n][l] matches Some(subset)
            &&& m.target == target.ref_id
            &&& m.consumed.len() == subset.len()
            &&& amount::total(m.consumed.map_values(|c: (i64, Dec)| c.1)) matches Some(t)
            &&& amount::difference(target.amount@, t) == Some(m.residual)
        }),
{
    let (n, j) = whose_group(targets, pool, gs, assigned, gs.len() as int, i);
    let l = whose_match(targets, pool, gs[n], assigned[n], assigned[n].len() as int, j);
    totals_agree(drawn(pool, gs[n].candidates, assigned[n][l]->0));
    (n, l)
}

proof fn match_of_line(
    targets: Seq<Record>,
    pool: Seq<Available>,
    g: GroupV,
    assigned: Seq<Option<Seq<int>>>,
    n: int,
    l: int,
) -> (i: int)
    requires
        group_matches(targets, pool, g, assigned, n) is Some,
        0 <= l < n,
        assigned[l] is Some,
    ensures
        0 <= i < group_matches(targets, pool, g, assigned, n)->0.len(),
        matched(targets[g.targets[l]], pool, g.candidates, assigned[l]->0) == Some(
            group_matches(targets, pool, g, assigned, n)->0[i],
        ),
    decreases n,
{
    if l < n - 1 {
        match_of_line(targets, pool, g, assigned, n - 1, l)
    } else {
        group_matches(targets, pool, g, assigned, n)->0.len() - 1
    }
}

/// Where the matches of a group start among all of them.
proof fn matches_of_group(
    targets: Seq<Record>,
    pool: Seq<Available>,
    gs: Seq<GroupV>,
    assigned: Seq<Seq<Option<Seq<int>>>>,
    n: int,
    k: int,
) -> (start: int)
    requires
        all_matches(targets, pool, gs, assigned, n) is Some,
        0 <= k < n,
    ensures
        ({
            let ms = group_matches(
                targets,
                pool,
                gs[k],
                assigned[k],
                assigned[k].len() as int,
            );
            let all = all_matches(targets, pool, gs, assigned, n)->0;
            &&& ms is Some
            &&& 0 <= start
            &&& start + ms->0.len() <= all.len()
            &&& forall|j: int| 0 <= j < ms->0.len() ==> all[start + j] == #[trigger] ms->0[j]
        }),
    decreases n,
{
    let before = all_matches(targets, pool, gs, assigned, n - 1)->0;
    if k < n - 1 {
        matches_of_group(targets, pool, gs, assigned, n - 1, k)
    } else {
        before.len() as int
    }
}

/// Every line that is assigned candidates is matched, and draws on each of
/// them all that is left of it.
pub proof fn an_assigned_line_is_matched(
    targets: Seq<Record>,
    pool: Seq<Available>,
    gs: Seq<GroupV>,
    assigned: Seq<Seq<Option<Seq<int>>>>,
    n: int,
    l: int,
) -> (i: int)
    requires
        all_matches(targets, pool, gs, assigned, gs.len() as int) is Some,
        0 <= n < gs.len(),
        0 <= l < assigned[n].len(),
        assigned[n][l] is Some,
    ensures
        ({
            let all = all_matches(targets, pool, gs, assigned, gs.len() as int)->0;
            let subset = assigned[n][l]->0;
            &&& 0 <= i < all.len()
            &&& all[i].target == targets[gs[n].targets[l]].ref_id
            &&& all[i].consumed.len() == subset.len()
            &&& forall|k: int|
                0 <= k < subset.len() ==> (#[trigger] all[i].consumed[k]).0
                    == pool[gs[n].candidates[subset[k]]].record.ref_id && all[i].consumed[k].1
                    == pool[gs[n].candidates[subset[k]]].remaining@
        }),
{
    let start = matches_of_group(targets, pool, gs, assigned, gs.len() as int, n);
    let ms = group_matches(targets, pool, gs[n], assigned[n], assigned[n].len() as int)->0;
    let j = match_of_line(targets, pool, gs[n], assigned[n], assigned[n].len() as int, l);
    assert(all_matches(targets, pool, gs, assigned, gs.len() as int)->0[start + j] == ms[j]);
    start + j
}

proof fn all_of_a_currency(currencies: Seq<Seq<char>>, k: int) -> (i: int)
    requires
        0 <= k < currencies.len(),
    ensures
        0 <= i < in_currency(currencies, currencies[k]).len(),
        in_currency(currencies, currencies[k])[i] == k,
    decreases currencies.len(),
{
    if k < currencies.len() - 1 {
        all_of_a_currency(currencies.drop_last(), k)
    } else {
        in_currency(currencies, currencies[k]).len() - 1
    }
}

proof fn each_key_is_a_group(
    keys: Seq<Seq<char>>,
    targets: Seq<Seq<char>>,
    candidates: Seq<Seq<char>>,
    i: int,
) -> (g: int)
    requires
        0 <= i < keys.len(),
        in_currency(candidates, keys[i]).len() > 0,
    ensures
        0 <= g < groups_of(keys, targets, candidates).len(),
        groups_of(keys, targets, candidates)[g].currency == keys[i],
    decreases keys.len(),
{
    if i < keys.len() - 1 {
        each_key_is_a_group(keys.drop_last(), targets, candidates, i)
    } else {
        groups_of(keys, targets, candidates).len() - 1
    }
}

/// A line and a candidate of one currency are in one group.
pub proof fn one_currency_is_one_group(
    targets: Seq<Record>,
    pool: Seq<Available>,
    t: int,
    c: int,
) -> (g: int)
    requires
        0 <= t < targets.len(),
        0 <= c < pool.len(),
        targets[t].currency@ == pool[c].record.currency@,
    ensures
        0 <= g < grouped(targets, pool).len(),
        grouped(targets, pool)[g].currency == targets[t].currency@,
        grouped(targets, pool)[g].targets.contains(t),
        grouped(targets, pool)[g].candidates.contains(c),
{
    let (ts, ps) = (target_currencies(targets), pool_currencies(pool));
    let keys = text::sorted_set(ts);
    assert(ts[t] == targets[t].currency@);
    assert(ps[c] == pool[c].record.currency@);
    assert(ts.contains(ts[t]));
    text::a_set_holds_its_list(ts, ts[t]);
    let k = choose|k: int| 0 <= k < keys.len() && keys[k] == ts[t];
    let i = all_of_a_currency(ts, t);
    let j = all_of_a_currency(ps, c);
    let g = each_key_is_a_group(keys, ts, ps, k);
    group_is(keys, ts, ps, g);
    assert(grouped(targets, pool)[g].targets[i] == t);
    assert(grouped(targets, pool)[g].candidates[j] == c);
    g
}

} // verus!
