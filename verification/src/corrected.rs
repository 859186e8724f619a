//! The corrected records: the same records as the native 天天記帳 exports,
//! audited. Only active rows count.

use vstd::prelude::*;

use crate::amount;
use crate::amount::{Amount, Dec};
use crate::currency::Currency;
use crate::daily;
use crate::daily::{Entry, EntryV};
use crate::date;
use crate::date::Date;
use crate::sort;
use crate::sort::{Key, KeyV};
use crate::text;

verus! {

#[derive(Clone, Copy, PartialEq, Eq, Structural, Debug)]
pub enum Status {
    Active,
    Removed,
}

#[derive(Clone, Copy, PartialEq, Eq, Structural, Debug)]
pub enum Kind {
    Income,
    Expense,
    Transfer,
}

impl Status {
    /// The status a text names.
    pub fn parse(s: &str) -> (r: Option<Status>)
        ensures
            r == (if s@ == "active"@ {
                Some(Status::Active)
            } else if s@ == "removed"@ {
                Some(Status::Removed)
            } else {
                None
            }),
    {
        if text::same_text(s, "active") {
            Some(Status::Active)
        } else if text::same_text(s, "removed") {
            Some(Status::Removed)
        } else {
            None
        }
    }
}

impl Kind {
    /// The kind a text names.
    pub fn parse(s: &str) -> (r: Option<Kind>)
        ensures
            r == (if s@ == "income"@ {
                Some(Kind::Income)
            } else if s@ == "expense"@ {
                Some(Kind::Expense)
            } else if s@ == "transfer"@ {
                Some(Kind::Transfer)
            } else {
                None
            }),
    {
        if text::same_text(s, "income") {
            Some(Kind::Income)
        } else if text::same_text(s, "expense") {
            Some(Kind::Expense)
        } else if text::same_text(s, "transfer") {
            Some(Kind::Transfer)
        } else {
            None
        }
    }
}

/// The columns that are read of a row. A blank currency is TWD, as in the
/// app's own export.
#[derive(Debug)]
pub struct Row {
    pub status: Status,
    pub date: Date,
    pub kind: Kind,
    pub amount: Amount,
    pub currency: Option<Currency>,
    pub account: String,
    pub counter_account: String,
    pub counter_amount: Option<Amount>,
    pub counter_currency: Option<Currency>,
    pub category: String,
    pub note: String,
    pub source_id: String,
}

pub struct RowV {
    pub status: Status,
    pub date: int,
    pub kind: Kind,
    pub amount: Dec,
    pub currency: Option<Currency>,
    pub account: Seq<char>,
    pub counter_account: Seq<char>,
    pub counter_amount: Option<Dec>,
    pub counter_currency: Option<Currency>,
    pub category: Seq<char>,
    pub note: Seq<char>,
    pub source_id: Seq<char>,
}

impl View for Row {
    type V = RowV;

    open spec fn view(&self) -> RowV {
        RowV {
            status: self.status,
            date: self.date@,
            kind: self.kind,
            amount: self.amount@,
            currency: self.currency,
            account: self.account@,
            counter_account: self.counter_account@,
            counter_amount: amount::opt(self.counter_amount),
            counter_currency: self.counter_currency,
            category: self.category@,
            note: self.note@,
            source_id: self.source_id@,
        }
    }
}

pub open spec fn row_views(v: Seq<Row>) -> Seq<RowV> {
    v.map_values(|r: Row| r@)
}

pub open spec fn or_twd(c: Option<Currency>) -> Currency {
    match c {
        Some(c) => c,
        None => Currency::TWD,
    }
}

/// The record a row holds.
pub open spec fn entry_of(r: RowV) -> EntryV {
    match r.kind {
        Kind::Transfer => EntryV::Transfer {
            date: r.date,
            from: r.account,
            out: r.amount,
            out_currency: or_twd(r.currency),
            to: r.counter_account,
            inn: match r.counter_amount {
                Some(a) => a,
                None => amount::zero(),
            },
            in_currency: or_twd(r.counter_currency),
            memo: r.note,
            id: r.source_id,
        },
        _ => EntryV::Flow {
            date: r.date,
            account: r.account,
            amount: if r.kind == Kind::Income {
                r.amount
            } else {
                amount::negated(r.amount)
            },
            currency: or_twd(r.currency),
            category: r.category,
            memo: r.note,
            id: r.source_id,
        },
    }
}

/// The records of the active rows that are transfers, or that are not.
pub open spec fn entries_in(rows: Seq<RowV>, transfers: bool) -> Seq<EntryV>
    decreases rows.len(),
{
    if rows.len() == 0 {
        Seq::empty()
    } else {
        let rest = entries_in(rows.drop_last(), transfers);
        let r = rows.last();
        if r.status == Status::Active && (r.kind == Kind::Transfer) == transfers {
            rest.push(entry_of(r))
        } else {
            rest
        }
    }
}

/// The records oldest first; within a day, income and expense before
/// transfers, as in the native exports.
pub open spec fn loaded(rows: Seq<RowV>) -> Seq<EntryV> {
    let all = entries_in(rows, false) + entries_in(rows, true);
    sort::arranged(all, sort::order(all.map_values(|e: EntryV| day_key(daily::day_of(e)))))
}

pub open spec fn day_key(day: int) -> KeyV {
    KeyV { text: Seq::empty(), numbers: (day, 0, 0, 0) }
}

fn or_twd_of(c: Option<Currency>) -> (r: Currency)
    ensures
        r == or_twd(c),
{
    match c {
        Some(c) => c,
        None => Currency::TWD,
    }
}

impl Row {
    /// The record the row holds.
    pub fn entry(&self) -> (r: Entry)
        ensures
            r@ == entry_of(self@),
    {
        match self.kind {
            Kind::Transfer => Entry::Transfer {
                date: self.date,
                from: text::copy(self.account.as_str()),
                out: self.amount,
                out_currency: or_twd_of(self.currency),
                to: text::copy(self.counter_account.as_str()),
                inn: match self.counter_amount {
                    Some(a) => a,
                    None => Amount::zero(),
                },
                in_currency: or_twd_of(self.counter_currency),
                memo: text::copy(self.note.as_str()),
                id: text::copy(self.source_id.as_str()),
            },
            _ => Entry::Flow {
                date: self.date,
                account: text::copy(self.account.as_str()),
                amount: match self.kind {
                    Kind::Income => self.amount,
                    _ => self.amount.negated(),
                },
                currency: or_twd_of(self.currency),
                category: text::copy(self.category.as_str()),
                memo: text::copy(self.note.as_str()),
                id: text::copy(self.source_id.as_str()),
            },
        }
    }
}

fn add_entries(rows: &Vec<Row>, transfers: bool, items: &mut Vec<(Key, Entry)>)
    requires
        forall|k: int|
            0 <= k < old(items)@.len() ==> (#[trigger] old(items)@[k]).0@ == day_key(
                daily::day_of(old(items)@[k].1@),
            ),
    ensures
        values(final(items)@) == values(old(items)@) + entries_in(row_views(rows@), transfers),
        forall|k: int|
            0 <= k < final(items)@.len() ==> (#[trigger] final(items)@[k]).0@ == day_key(
                daily::day_of(final(items)@[k].1@),
            ),
{
    let ghost all = row_views(rows@);
    let ghost start = values(items@);
    let mut i: usize = 0;
    assert(values(items@) =~= start + entries_in(all.take(0), transfers));
    while i < rows.len()
        invariant
            i <= rows@.len(),
            all == row_views(rows@),
            values(items@) == start + entries_in(all.take(i as int), transfers),
            forall|k: int|
                0 <= k < items@.len() ==> (#[trigger] items@[k]).0@ == day_key(
                    daily::day_of(items@[k].1@),
                ),
        decreases rows@.len() - i,
    {
        let r = &rows[i];
        let ghost before = items@;
        assert(all[i as int] == r@);
        assert(all.take(i as int + 1).drop_last() =~= all.take(i as int));
        if r.status == Status::Active && (r.kind == Kind::Transfer) == transfers {
            let e = r.entry();
            let none = String::new();
            assert(none@ =~= Seq::empty());
            let key = Key { text: none, numbers: (r.date.number() as i64, 0, 0, 0) };
            items.push((key, e));
            assert(values(items@) =~= values(before).push(e@));
            assert(values(items@) =~= start + entries_in(all.take(i as int + 1), transfers));
        }
        i = i + 1;
    }
    assert(all.take(i as int) =~= all);
}

spec fn values(items: Seq<(Key, Entry)>) -> Seq<EntryV> {
    items.map_values(|e: (Key, Entry)| e.1@)
}

/// The records of the rows, oldest first.
pub fn load(rows: &Vec<Row>) -> (r: Vec<Entry>)
    ensures
        daily::entry_views(r@) == loaded(row_views(rows@)),
{
    let ghost all = entries_in(row_views(rows@), false) + entries_in(row_views(rows@), true);
    let mut items: Vec<(Key, Entry)> = Vec::new();
    assert(values(items@) =~= Seq::empty());
    add_entries(rows, false, &mut items);
    add_entries(rows, true, &mut items);
    assert(values(items@) =~= all);
    let ghost keys = all.map_values(|e: EntryV| day_key(daily::day_of(e)));
    assert(sort::keys_of(items@) =~= keys) by {
        assert forall|k: int| 0 <= k < items@.len() implies #[trigger] sort::keys_of(items@)[k]
            == keys[k] by {
            assert(values(items@)[k] == items@[k].1@);
        }
    }
    let ghost given = items@;
    let ghost by = sort::order(keys);
    proof {
        sort::order_is_a_permutation(keys);
    }
    let mut left = sort::sort(items);
    let ghost sorted = left@;
    let mut out: Vec<Entry> = Vec::new();
    assert(left@ =~= sorted.skip(0));
    while left.len() > 0
        invariant
            out@.len() + left@.len() == sorted.len(),
            left@ == sorted.skip(out@.len() as int),
            forall|k: int| 0 <= k < out@.len() ==> #[trigger] out@[k] == sorted[k].1,
        decreases left@.len(),
    {
        let (_, e) = left.remove(0);
        out.push(e);
        assert(left@ =~= sorted.skip(out@.len() as int));
    }
    assert(daily::entry_views(out@) =~= sort::arranged(all, by)) by {
        assert forall|k: int| 0 <= k < out@.len() implies #[trigger] daily::entry_views(out@)[k]
            == sort::arranged(all, by)[k] by {
            assert(sorted[k] == given[by[k]]);
            assert(values(given)[by[k]] == given[by[k]].1@);
        }
    }
    out
}

/// What a freeze of the records has already taken: every record id they name,
/// removed ones included, and the last day they cover.
#[derive(Debug)]
pub struct Frozen {
    pub through: Option<Date>,
    pub ids: Vec<String>,
}

#[verifier::ext_equal]
pub struct FrozenV {
    pub through: Option<int>,
    pub ids: Seq<Seq<char>>,
}

impl View for Frozen {
    type V = FrozenV;

    open spec fn view(&self) -> FrozenV {
        FrozenV { through: date::opt(self.through), ids: text::texts(self.ids@) }
    }
}

pub open spec fn dated_views(v: Seq<(Date, String)>) -> Seq<(int, Seq<char>)> {
    v.map_values(|r: (Date, String)| (r.0@, r.1@))
}

/// What a freeze of the rows, by their dates and source ids, has taken.
pub open spec fn taken(rows: Seq<(int, Seq<char>)>) -> FrozenV
    decreases rows.len(),
{
    if rows.len() == 0 {
        FrozenV { through: None, ids: Seq::empty() }
    } else {
        let rest = taken(rows.drop_last());
        let (day, id) = rows.last();
        FrozenV {
            through: match rest.through {
                Some(d) => if d < day {
                    Some(day)
                } else {
                    Some(d)
                },
                None => Some(day),
            },
            ids: if id.len() == 0 {
                rest.ids
            } else {
                text::with_key(rest.ids, id)
            },
        }
    }
}

/// What a freeze of the rows, by their dates and source ids, has taken.
pub fn frozen(rows: &Vec<(Date, String)>) -> (r: Frozen)
    ensures
        r@ == taken(dated_views(rows@)),
{
    let ghost all = dated_views(rows@);
    let mut through: Option<Date> = None;
    let mut ids: Vec<String> = Vec::new();
    let mut i: usize = 0;
    assert(text::texts(ids@) =~= Seq::empty());
    while i < rows.len()
        invariant
            i <= rows@.len(),
            all == dated_views(rows@),
            taken(all.take(i as int)) == (FrozenV {
                through: date::opt(through),
                ids: text::texts(ids@),
            }),
        decreases rows@.len() - i,
    {
        let (day, id) = &rows[i];
        assert(all[i as int] == (day@, id@));
        assert(all.take(i as int + 1).drop_last() =~= all.take(i as int));
        through = match through {
            Some(d) => if d.number() < day.number() {
                Some(*day)
            } else {
                Some(d)
            },
            None => Some(*day),
        };
        if id.as_str().unicode_len() > 0 {
            text::add_key(&mut ids, id.as_str());
        }
        i = i + 1;
    }
    assert(all.take(i as int) =~= all);
    Frozen { through, ids }
}

/// The frozen history covers every day it has a row of.
pub proof fn frozen_covers_its_days(rows: Seq<(int, Seq<char>)>, i: int)
    requires
        0 <= i < rows.len(),
    ensures
        taken(rows).through matches Some(d) && rows[i].0 <= d,
    decreases rows.len(),
{
    if i < rows.len() - 1 {
        assert(rows.drop_last()[i] == rows[i]);
        frozen_covers_its_days(rows.drop_last(), i);
    }
}

proof fn entries_are_of_a_kind(rows: Seq<RowV>, transfers: bool, i: int)
    requires
        0 <= i < entries_in(rows, transfers).len(),
    ensures
        (entries_in(rows, transfers)[i] is Transfer) == transfers,
    decreases rows.len(),
{
    let before = entries_in(rows.drop_last(), transfers);
    if i < before.len() {
        entries_are_of_a_kind(rows.drop_last(), transfers, i);
    }
}

proof fn active_row_is_listed(rows: Seq<RowV>, transfers: bool, k: int)
    requires
        0 <= k < rows.len(),
        rows[k].status == Status::Active,
        (rows[k].kind == Kind::Transfer) == transfers,
    ensures
        entries_in(rows, transfers).contains(entry_of(rows[k])),
    decreases rows.len(),
{
    let all = entries_in(rows, transfers);
    let before = entries_in(rows.drop_last(), transfers);
    if k == rows.len() - 1 {
        assert(all[before.len() as int] == entry_of(rows[k]));
    } else {
        assert(rows.drop_last()[k] == rows[k]);
        active_row_is_listed(rows.drop_last(), transfers, k);
        let i = choose|i: int| 0 <= i < before.len() && before[i] == entry_of(rows[k]);
        assert(all[i] == before[i]);
    }
}

proof fn listed_entry_is_active(rows: Seq<RowV>, transfers: bool, i: int) -> (k: int)
    requires
        0 <= i < entries_in(rows, transfers).len(),
    ensures
        0 <= k < rows.len(),
        rows[k].status == Status::Active,
        entries_in(rows, transfers)[i] == entry_of(rows[k]),
    decreases rows.len(),
{
    let before = entries_in(rows.drop_last(), transfers);
    if i < before.len() {
        let k = listed_entry_is_active(rows.drop_last(), transfers, i);
        assert(rows.drop_last()[k] == rows[k]);
        k
    } else {
        rows.len() - 1
    }
}

/// Records come oldest first; within a day, income and expense before
/// transfers.
pub proof fn loaded_in_order(rows: Seq<RowV>, i: int, j: int)
    requires
        0 <= i < j < loaded(rows).len(),
    ensures
        daily::day_of(loaded(rows)[i]) <= daily::day_of(loaded(rows)[j]),
        daily::day_of(loaded(rows)[i]) == daily::day_of(loaded(rows)[j]) && loaded(rows)[i] is Transfer
            ==> loaded(rows)[j] is Transfer,
{
    let flows = entries_in(rows, false);
    let transfers = entries_in(rows, true);
    let all = flows + transfers;
    let keys = all.map_values(|e: EntryV| day_key(daily::day_of(e)));
    let by = sort::order(keys);
    sort::order_is_a_permutation(keys);
    sort::order_sorts(keys, i, j);
    let (a, b) = (by[i], by[j]);
    assert(loaded(rows)[i] == all[a] && loaded(rows)[j] == all[b]);
    assert(keys[a] == day_key(daily::day_of(all[a])));
    assert(keys[b] == day_key(daily::day_of(all[b])));
    if all[a] is Transfer {
        if a < flows.len() {
            entries_are_of_a_kind(rows, false, a);
        }
        if b >= flows.len() {
            entries_are_of_a_kind(rows, true, b - flows.len());
        }
    }
}

/// Every active row is among the records, and nothing else is.
pub proof fn active_rows_count(rows: Seq<RowV>)
    ensures
        forall|k: int|
            0 <= k < rows.len() && (#[trigger] rows[k]).status == Status::Active ==> loaded(
                rows,
            ).contains(entry_of(rows[k])),
        forall|i: int|
            0 <= i < loaded(rows).len() ==> exists|k: int|
                0 <= k < rows.len() && (#[trigger] rows[k]).status == Status::Active && entry_of(
                    rows[k],
                ) == #[trigger] loaded(rows)[i],
{
    let flows = entries_in(rows, false);
    let transfers = entries_in(rows, true);
    let all = flows + transfers;
    let keys = all.map_values(|e: EntryV| day_key(daily::day_of(e)));
    let by = sort::order(keys);
    sort::order_is_a_permutation(keys);
    assert forall|k: int|
        0 <= k < rows.len() && (#[trigger] rows[k]).status == Status::Active implies loaded(
        rows,
    ).contains(entry_of(rows[k])) by {
        let moves = rows[k].kind == Kind::Transfer;
        active_row_is_listed(rows, moves, k);
        let part = entries_in(rows, moves);
        let i = choose|i: int| 0 <= i < part.len() && part[i] == entry_of(rows[k]);
        let at = if moves {
            flows.len() + i
        } else {
            i
        };
        assert(all[at] == entry_of(rows[k]));
        let j = sort::every_item_is_placed(keys, at);
        assert(loaded(rows)[j] == all[by[j]]);
    }
    assert forall|i: int| 0 <= i < loaded(rows).len() implies exists|k: int|
        0 <= k < rows.len() && (#[trigger] rows[k]).status == Status::Active && entry_of(rows[k])
            == #[trigger] loaded(rows)[i] by {
        let at = by[i];
        assert(loaded(rows)[i] == all[at]);
        if at < flows.len() {
            let k = listed_entry_is_active(rows, false, at);
            assert(entry_of(rows[k]) == loaded(rows)[i]);
        } else {
            let k = listed_entry_is_active(rows, true, at - flows.len());
            assert(entry_of(rows[k]) == loaded(rows)[i]);
        }
    }
}

/// A row brings its amount to its account as income, and takes it from there as
/// an expense or a transfer. A transfer brings the counter amount, if any, to
/// the counter account. A blank currency is TWD.
pub proof fn a_row_moves_its_amount(r: RowV)
    ensures
        ({
            let e = entry_of(r);
            let (a, c, other) = daily::effect(e, r.account);
            let brought = if r.kind == Kind::Income {
                amount::worth(r.amount)
            } else {
                -amount::worth(r.amount)
            };
            &&& amount::worth(a) == brought
            &&& r.currency matches Some(k) ==> c == k
            &&& r.currency is None ==> c == Currency::TWD
            &&& r.kind == Kind::Transfer <==> e is Transfer
            &&& r.kind == Kind::Transfer ==> other == Some(r.counter_account)
            &&& r.kind != Kind::Transfer ==> other is None && e->category == r.category
            &&& r.kind == Kind::Transfer && r.counter_account != r.account ==> {
                let (b, d, from) = daily::effect(e, r.counter_account);
                &&& r.counter_amount matches Some(x) ==> amount::worth(b) == amount::worth(x)
                &&& r.counter_amount is None ==> amount::worth(b) == 0
                &&& r.counter_currency matches Some(k) ==> d == k
                &&& r.counter_currency is None ==> d == Currency::TWD
                &&& from == Some(r.account)
            }
        }),
{
    daily::a_record_moves_what_it_says(entry_of(r), r.account);
    daily::a_record_moves_what_it_says(entry_of(r), r.counter_account);
    amount::negated_worth(r.amount);
    amount::zero_worth(amount::zero());
}

/// A row's record keeps its day, its note and its id, and is on its account.
pub proof fn a_row_keeps_what_it_says(r: RowV)
    ensures
        daily::day_of(entry_of(r)) == r.date,
        daily::memo_of(entry_of(r)) == r.note,
        daily::id_of(entry_of(r)) == r.source_id,
        daily::accounts_of(entry_of(r))[0] == r.account,
        r.kind == Kind::Transfer ==> daily::accounts_of(entry_of(r)) == seq![
            r.account,
            r.counter_account,
        ],
        r.kind != Kind::Transfer ==> daily::accounts_of(entry_of(r)) == seq![r.account],
{
}

proof fn entries_are_the_active_rows(rows: Seq<RowV>)
    ensures
        (entries_in(rows, false) + entries_in(rows, true)).to_multiset() == rows.filter(
            |r: RowV| r.status == Status::Active,
        ).map_values(|r: RowV| entry_of(r)).to_multiset(),
    decreases rows.len(),
{
    broadcast use vstd::seq_lib::group_to_multiset_ensures;

    reveal(Seq::filter);
    let f = |r: RowV| r.status == Status::Active;
    let g = |r: RowV| entry_of(r);
    let now = rows.filter(f).map_values(g);
    let (flows, moves) = (entries_in(rows, false), entries_in(rows, true));
    if rows.len() == 0 {
        assert(now =~= flows + moves);
    } else {
        let shorter = rows.drop_last();
        entries_are_the_active_rows(shorter);
        let before = shorter.filter(f).map_values(g);
        let (a, b) = (entries_in(shorter, false), entries_in(shorter, true));
        let e = entry_of(rows.last());
        if f(rows.last()) {
            assert(now =~= before.push(e));
            if rows.last().kind == Kind::Transfer {
                assert(flows + moves =~= (a + b).push(e));
            } else {
                let all = flows + moves;
                let at = a.len() as int;
                assert(all[at] == e);
                assert(all.remove(at) =~= a + b);
                assert(all.to_multiset().remove(e) =~= (a + b).to_multiset());
                assert(all.contains(e));
                assert(all.to_multiset() =~= (a + b).to_multiset().insert(e));
            }
        } else {
            assert(now =~= before);
            assert(flows + moves =~= a + b);
        }
    }
}

/// Each active row is loaded once, and no other row is.
pub proof fn each_active_row_is_loaded_once(rows: Seq<RowV>)
    ensures
        loaded(rows).to_multiset() == rows.filter(
            |r: RowV| r.status == Status::Active,
        ).map_values(|r: RowV| entry_of(r)).to_multiset(),
{
    let all = entries_in(rows, false) + entries_in(rows, true);
    entries_are_the_active_rows(rows);
    sort::order_keeps_every_item(all, all.map_values(|e: EntryV| day_key(daily::day_of(e))));
}

/// The frozen history ends on the day of one of its rows.
pub proof fn frozen_ends_on_one_of_its_days(rows: Seq<(int, Seq<char>)>)
    ensures
        match taken(rows).through {
            None => rows.len() == 0,
            Some(d) => exists|i: int| 0 <= i < rows.len() && (#[trigger] rows[i]).0 == d,
        },
    decreases rows.len(),
{
    if rows.len() > 0 {
        let shorter = rows.drop_last();
        frozen_ends_on_one_of_its_days(shorter);
        assert(rows[rows.len() - 1] == rows.last());
        if let Some(d) = taken(shorter).through {
            let i = choose|i: int| 0 <= i < shorter.len() && (#[trigger] shorter[i]).0 == d;
            assert(rows[i] == shorter[i]);
        }
    }
}

} // verus!
