//! The ledger as an hledger journal, for `hledger check` as an independent
//! audit. Balance assertions become zero-amount postings with a subtree
//! assertion (`=*`) at the end of their day.

use vstd::prelude::*;

use crate::amount;
use crate::amount::{Amount, Dec};
use crate::assertion;
use crate::assertion::{AssertionV, BalanceAssertion};
use crate::currency;
use crate::date;
use crate::date::Date;
use crate::keyed;
use crate::refusal::Refusal;
use crate::sort;
use crate::sort::{Key, KeyV};
use crate::text;

use super::check;
use super::events;

verus! {

/// A posting and what its transaction says, as the database holds them.
pub struct PostingRow {
    pub transaction_id: i64,
    pub date: String,
    pub payee: Option<String>,
    pub narration: Option<String>,
    pub path: String,
    pub amount: String,
    pub currency: String,
    pub tags: Option<String>,
}

pub struct RowV {
    pub transaction_id: int,
    pub date: Seq<char>,
    pub payee: Option<Seq<char>>,
    pub narration: Option<Seq<char>>,
    pub path: Seq<char>,
    pub amount: Seq<char>,
    pub currency: Seq<char>,
    pub tags: Option<Seq<char>>,
}

impl View for PostingRow {
    type V = RowV;

    open spec fn view(&self) -> RowV {
        RowV {
            transaction_id: self.transaction_id as int,
            date: self.date@,
            payee: text::opt(self.payee),
            narration: text::opt(self.narration),
            path: self.path@,
            amount: self.amount@,
            currency: self.currency@,
            tags: text::opt(self.tags),
        }
    }
}

pub open spec fn row_views(v: Seq<PostingRow>) -> Seq<RowV> {
    v.map_values(|r: PostingRow| r@)
}

/// hledger reads `;` as a comment and a newline as the end of the entry.
pub open spec fn cleaned(s: Seq<char>) -> Seq<char> {
    s.map_values(
        |c: char|
            if c == ';' || c == '\n' || c == '\r' {
                ' '
            } else {
                c
            },
    )
}

/// hledger reads `;` as a comment and a newline as the end of the entry.
pub fn clean(s: &str) -> (r: String)
    ensures
        r@ == cleaned(s@),
{
    let cs = text::chars(s);
    let mut out: Vec<char> = Vec::new();
    let mut i: usize = 0;
    while i < cs.len()
        invariant
            i <= cs@.len(),
            i == out@.len(),
            forall|k: int| 0 <= k < i ==> #[trigger] out@[k] == cleaned(cs@)[k],
        decreases cs@.len() - i,
    {
        let c = cs[i];
        out.push(
            if c == ';' || c == '\n' || c == '\r' {
                ' '
            } else {
                c
            },
        );
        i = i + 1;
    }
    assert(out@ =~= cleaned(s@));
    text::string_of(out.as_slice())
}

/// What is cleaned neither starts a comment nor ends the entry.
pub proof fn clean_stays_on_its_line(s: Seq<char>, i: int)
    requires
        0 <= i < s.len(),
    ensures
        cleaned(s)[i] != ';' && cleaned(s)[i] != '\n' && cleaned(s)[i] != '\r',
{
}

/// A dated block of the journal: a transaction by its id, or an assertion by
/// its place. A day's assertions come after its transactions, since each
/// describes the end of its day.
pub open spec fn block_key(day: int, asserts: bool, n: int) -> KeyV {
    KeyV {
        text: Seq::empty(),
        numbers: (
            day,
            if asserts {
                1
            } else {
                0
            },
            n,
            0,
        ),
    }
}

/// The blocks of the transactions.
pub open spec fn transaction_blocks(rows: Seq<RowV>) -> Result<Seq<(KeyV, bool)>, Seq<char>>
    decreases rows.len(),
{
    if rows.len() == 0 {
        Ok(Seq::empty())
    } else {
        match transaction_blocks(rows.drop_last()) {
            Err(e) => Err(e),
            Ok(m) => match date::read(rows.last().date) {
                None => Err(events::misread("transaction date"@, rows.last().date)),
                Some(day) => Ok(
                    keyed::put(m, block_key(day, false, rows.last().transaction_id), true),
                ),
            },
        }
    }
}

/// The blocks of an assertion's first `n` figures too.
pub open spec fn point_blocks(m: Seq<(KeyV, bool)>, a: AssertionV, i: int, n: int) -> Seq<
    (KeyV, bool),
>
    decreases n,
{
    if n <= 0 {
        m
    } else {
        keyed::put(
            point_blocks(m, a, i, n - 1),
            block_key(assertion::points(a)[n - 1].0, true, i),
            true,
        )
    }
}

/// The blocks of the first `n` assertions too.
pub open spec fn all_blocks(m: Seq<(KeyV, bool)>, all: Seq<AssertionV>, n: int) -> Seq<
    (KeyV, bool),
>
    decreases n,
{
    if n <= 0 {
        m
    } else {
        point_blocks(
            all_blocks(m, all, n - 1),
            all[n - 1],
            n - 1,
            assertion::points(all[n - 1]).len() as int,
        )
    }
}

/// The first leg of a transaction, from `from` on.
pub open spec fn first_leg(rows: Seq<RowV>, id: int, from: int) -> Option<int>
    decreases rows.len() - from,
{
    if from < 0 || from >= rows.len() {
        None
    } else if rows[from].transaction_id == id {
        Some(from)
    } else {
        first_leg(rows, id, from + 1)
    }
}

/// A text's words alone, cleaned; nothing for a blank one or none.
pub open spec fn words(s: Option<Seq<char>>) -> Seq<Seq<char>> {
    match s {
        None => Seq::empty(),
        Some(s) => if s.len() == 0 {
            Seq::empty()
        } else {
            seq![cleaned(s)]
        },
    }
}

/// What a transaction is called: its payee and its narration.
pub open spec fn description(r: RowV) -> Seq<char> {
    text::joined(words(r.payee) + words(r.narration), " | "@)
}

pub open spec fn leg_text(r: RowV) -> Seq<char> {
    "    "@ + r.path + "  "@ + r.amount + " "@ + r.currency + (match r.tags {
        Some(tags) => "  ; tags: "@ + cleaned(tags) + "\n"@,
        None => "\n"@,
    })
}

pub open spec fn legs_text(rows: Seq<RowV>, id: int) -> Seq<char>
    decreases rows.len(),
{
    if rows.len() == 0 {
        Seq::empty()
    } else if rows.last().transaction_id == id {
        legs_text(rows.drop_last(), id) + leg_text(rows.last())
    } else {
        legs_text(rows.drop_last(), id)
    }
}

pub open spec fn transaction_text(rows: Seq<RowV>, id: int, day: int) -> Seq<char> {
    date::printed(day) + " "@ + (match first_leg(rows, id, 0) {
        Some(i) => description(rows[i]),
        None => Seq::empty(),
    }) + "\n"@ + legs_text(rows, id)
}

/// The figure a list of them states for a day, from `from` on.
pub open spec fn stated(points: Seq<(int, Dec)>, day: int, from: int) -> Option<Dec>
    decreases points.len() - from,
{
    if from < 0 || from >= points.len() {
        None
    } else if points[from].0 == day {
        Some(points[from].1)
    } else {
        stated(points, day, from + 1)
    }
}

pub open spec fn assertion_text(a: AssertionV, day: int) -> Seq<char> {
    date::printed(day) + " "@ + assertion::source_text(a.source) + " balance\n    "@ + a.account
        + "  0 "@ + currency::code(a.currency) + " =* "@ + amount::printed(
        stated(assertion::points(a), day, 0)->0,
    ) + " "@ + currency::code(a.currency) + "\n"@
}

pub open spec fn block_text(rows: Seq<RowV>, all: Seq<AssertionV>, k: KeyV) -> Seq<char> {
    "\n"@ + (if k.numbers.1 == 0 {
        transaction_text(rows, k.numbers.2, k.numbers.0)
    } else {
        assertion_text(all[k.numbers.2], k.numbers.0)
    })
}

pub open spec fn blocks_text(rows: Seq<RowV>, all: Seq<AssertionV>, m: Seq<(KeyV, bool)>) -> Seq<
    char,
>
    decreases m.len(),
{
    if m.len() == 0 {
        Seq::empty()
    } else {
        blocks_text(rows, all, m.drop_last()) + block_text(rows, all, m.last().0)
    }
}

/// A line for each of the names, behind `word`.
pub open spec fn declared(word: Seq<char>, names: Seq<Seq<char>>) -> Seq<char>
    decreases names.len(),
{
    if names.len() == 0 {
        Seq::empty()
    } else {
        declared(word, names.drop_last()) + word + names.last() + "\n"@
    }
}

/// The commodities to declare: assertions can name a currency no posting
/// mentions, and `--strict` rejects an undeclared commodity.
pub open spec fn commodities(rows: Seq<RowV>, all: Seq<AssertionV>) -> Seq<Seq<char>> {
    text::sorted_set(
        rows.map_values(|r: RowV| r.currency) + all.map_values(
            |a: AssertionV| currency::code(a.currency),
        ),
    )
}

/// The whole ledger as hledger journal text.
pub open spec fn exported(rows: Seq<RowV>, all: Seq<AssertionV>, accounts: Seq<Seq<char>>) -> Result<
    Seq<char>,
    Seq<char>,
> {
    match transaction_blocks(rows) {
        Err(e) => Err(e),
        Ok(m) => Ok(
            "decimal-mark .\n\n"@ + declared("commodity "@, commodities(rows, all)) + declared(
                "account "@,
                accounts,
            ) + blocks_text(rows, all, all_blocks(m, all, all.len() as int)),
        ),
    }
}

proof fn refused_blocks_stay(rows: Seq<RowV>, n: int)
    requires
        0 <= n <= rows.len(),
        transaction_blocks(rows.take(n)) is Err,
    ensures
        transaction_blocks(rows) == transaction_blocks(rows.take(n)),
    decreases rows.len() - n,
{
    if n < rows.len() {
        assert(rows.take(n + 1).drop_last() =~= rows.take(n));
        refused_blocks_stay(rows, n + 1);
    } else {
        assert(rows.take(n) =~= rows);
    }
}

/// Does a block stand for a transaction, or for a figure of an assertion?
spec fn sound(all: Seq<AssertionV>) -> spec_fn(KeyV, bool) -> bool {
    |k: KeyV, b: bool|
        date::MIN_DAY <= k.numbers.0 <= date::MAX_DAY && (k.numbers.1 == 0 || (0 <= k.numbers.2
            < all.len() && stated(
            assertion::points(all[k.numbers.2]),
            k.numbers.0,
            0,
        ) is Some))
}

spec fn all_sound(m: Seq<(KeyV, bool)>, all: Seq<AssertionV>) -> bool {
    forall|i: int| 0 <= i < m.len() ==> sound(all)((#[trigger] m[i]).0, m[i].1)
}

proof fn stated_from(points: Seq<(int, Dec)>, day: int, from: int, j: int)
    requires
        0 <= from <= j < points.len(),
        points[j].0 == day,
    ensures
        stated(points, day, from) is Some,
    decreases j - from,
{
    if points[from].0 != day {
        stated_from(points, day, from + 1, j);
    }
}

fn block_of(day: Date, asserts: bool, n: i64) -> (r: Key)
    ensures
        r@ == block_key(day@, asserts, n as int),
{
    let none = String::new();
    assert(none@ =~= Seq::empty());
    Key {
        text: none,
        numbers: (
            day.number() as i64,
            if asserts {
                1
            } else {
                0
            },
            n,
            0,
        ),
    }
}

/// The blocks of the transactions.
fn transactions(rows: &Vec<PostingRow>, Ghost(all): Ghost<Seq<AssertionV>>) -> (r: Result<
    Vec<(Key, bool)>,
    Refusal,
>)
    ensures
        match r {
            Ok(m) => transaction_blocks(row_views(rows@)) == Ok::<Seq<(KeyV, bool)>, Seq<char>>(
                keyed::entries(m@),
            ) && all_sound(keyed::entries(m@), all),
            Err(e) => transaction_blocks(row_views(rows@)) == Err::<Seq<(KeyV, bool)>, Seq<char>>(
                e@,
            ),
        },
{
    let ghost views = row_views(rows@);
    let mut out: Vec<(Key, bool)> = Vec::new();
    let mut i: usize = 0;
    assert(keyed::entries(out@) =~= Seq::empty());
    while i < rows.len()
        invariant
            i <= rows@.len(),
            views == row_views(rows@),
            all_sound(keyed::entries(out@), all),
            transaction_blocks(views.take(i as int)) == Ok::<Seq<(KeyV, bool)>, Seq<char>>(
                keyed::entries(out@),
            ),
        decreases rows@.len() - i,
    {
        let r = &rows[i];
        assert(views[i as int] == r@);
        assert(views.take(i as int + 1).drop_last() =~= views.take(i as int));
        match Date::from_iso(r.date.as_str()) {
            None => {
                proof {
                    refused_blocks_stay(views, i as int + 1);
                }
                return Err(events::misreads("transaction date", r.date.as_str()));
            },
            Some(day) => {
                let key = block_of(day, false, r.transaction_id);
                let n: i32 = day.number();
                proof {
                    keyed::put_keeps(keyed::entries(out@), key@, true, sound(all));
                }
                keyed::set(&mut out, key, true);
            },
        }
        i = i + 1;
    }
    assert(views.take(i as int) =~= views);
    Ok(out)
}

/// Adds the blocks of the assertions.
fn add_assertions(out: &mut Vec<(Key, bool)>, assertions: &Vec<BalanceAssertion>)
    requires
        check::dated(assertion::views(assertions@)),
        assertions@.len() <= i64::MAX,
        all_sound(keyed::entries(old(out)@), assertion::views(assertions@)),
    ensures
        keyed::entries(final(out)@) == all_blocks(
            keyed::entries(old(out)@),
            assertion::views(assertions@),
            assertions@.len() as int,
        ),
        all_sound(keyed::entries(final(out)@), assertion::views(assertions@)),
{
    let ghost start = keyed::entries(out@);
    let ghost all = assertion::views(assertions@);
    let mut i: usize = 0;
    while i < assertions.len()
        invariant
            i <= assertions@.len() <= i64::MAX,
            all == assertion::views(assertions@),
            check::dated(all),
            all_sound(keyed::entries(out@), all),
            keyed::entries(out@) == all_blocks(start, all, i as int),
        decreases assertions@.len() - i,
    {
        let a = &assertions[i];
        assert(all[i as int] == a@);
        let points = a.points();
        let ghost ps = assertion::points(a@);
        let ghost before = keyed::entries(out@);
        let mut k: usize = 0;
        while k < points.len()
            invariant
                k <= points@.len(),
                i < assertions@.len() <= i64::MAX,
                all == assertion::views(assertions@),
                all[i as int] == a@,
                ps == assertion::points(a@),
                ps == assertion::point_views(points@),
                all_sound(keyed::entries(out@), all),
                keyed::entries(out@) == point_blocks(before, a@, i as int, k as int),
            decreases points@.len() - k,
        {
            assert(ps[k as int] == (points@[k as int].0@, points@[k as int].1@));
            let key = block_of(points[k].0, true, i as i64);
            let n: i32 = points[k].0.number();
            proof {
                stated_from(ps, ps[k as int].0, 0, k as int);
                keyed::put_keeps(keyed::entries(out@), key@, true, sound(all));
            }
            keyed::set(out, key, true);
            k = k + 1;
        }
        assert(ps.len() == points@.len());
        i = i + 1;
    }
}

fn add_words(out: &mut Vec<String>, s: &Option<String>)
    ensures
        text::texts(final(out)@) == text::texts(old(out)@) + words(text::opt(*s)),
{
    let ghost before = out@;
    if let Some(s) = s {
        if s.as_str().unicode_len() > 0 {
            out.push(clean(s.as_str()));
        }
    }
    assert(text::texts(out@) =~= text::texts(before) + words(text::opt(*s)));
}

fn find_leg(rows: &Vec<PostingRow>, id: i64) -> (r: Option<usize>)
    ensures
        match r {
            Some(i) => i < rows@.len() && first_leg(row_views(rows@), id as int, 0) == Some(
                i as int,
            ),
            None => first_leg(row_views(rows@), id as int, 0) is None,
        },
{
    let ghost all = row_views(rows@);
    let mut i: usize = 0;
    while i < rows.len()
        invariant
            i <= rows@.len(),
            all == row_views(rows@),
            first_leg(all, id as int, 0) == first_leg(all, id as int, i as int),
        decreases rows@.len() - i,
    {
        assert(all[i as int] == rows@[i as int]@);
        if rows[i].transaction_id == id {
            return Some(i);
        }
        i = i + 1;
    }
    None
}

fn write_transaction(rows: &Vec<PostingRow>, id: i64, day: Date) -> (r: String)
    ensures
        r@ == transaction_text(row_views(rows@), id as int, day@),
{
    let ghost all = row_views(rows@);
    let mut out = day.text();
    out.append(" ");
    match find_leg(rows, id) {
        Some(i) => {
            assert(all[i as int] == rows@[i as int]@);
            let mut parts: Vec<String> = Vec::new();
            assert(text::texts(parts@) =~= Seq::empty());
            add_words(&mut parts, &rows[i].payee);
            add_words(&mut parts, &rows[i].narration);
            assert(text::texts(parts@) =~= words(all[i as int].payee) + words(
                all[i as int].narration,
            ));
            out.append(text::join_all(&parts, " | ").as_str());
        },
        None => {},
    }
    out.append("\n");
    let ghost head = out@;
    assert(head =~= date::printed(day@) + " "@ + (match first_leg(all, id as int, 0) {
        Some(i) => description(all[i]),
        None => Seq::empty(),
    }) + "\n"@);
    let mut k: usize = 0;
    assert(out@ =~= head + legs_text(all.take(0), id as int));
    while k < rows.len()
        invariant
            k <= rows@.len(),
            all == row_views(rows@),
            out@ == head + legs_text(all.take(k as int), id as int),
        decreases rows@.len() - k,
    {
        let leg = &rows[k];
        let ghost before = out@;
        assert(all[k as int] == leg@);
        assert(all.take(k as int + 1).drop_last() =~= all.take(k as int));
        if leg.transaction_id == id {
            out.append("    ");
            out.append(leg.path.as_str());
            out.append("  ");
            out.append(leg.amount.as_str());
            out.append(" ");
            out.append(leg.currency.as_str());
            match &leg.tags {
                Some(tags) => {
                    out.append("  ; tags: ");
                    out.append(clean(tags.as_str()).as_str());
                    out.append("\n");
                },
                None => {
                    out.append("\n");
                },
            }
            assert(out@ =~= before + leg_text(leg@));
            assert(out@ =~= head + (legs_text(all.take(k as int), id as int) + leg_text(leg@)));
        }
        k = k + 1;
    }
    assert(all.take(k as int) =~= all);
    out
}

fn stated_of(points: &Vec<(Date, Amount)>, day: Date) -> (r: Option<Amount>)
    ensures
        amount::opt(r) == stated(assertion::point_views(points@), day@, 0),
{
    let ghost all = assertion::point_views(points@);
    let mut i: usize = 0;
    while i < points.len()
        invariant
            i <= points@.len(),
            all == assertion::point_views(points@),
            stated(all, day@, 0) == stated(all, day@, i as int),
        decreases points@.len() - i,
    {
        assert(all[i as int] == (points@[i as int].0@, points@[i as int].1@));
        if points[i].0.number() == day.number() {
            return Some(points[i].1);
        }
        i = i + 1;
    }
    None
}

fn write_assertion(a: &BalanceAssertion, day: Date) -> (r: String)
    requires
        assertion::opens_after_first_day(a@),
        stated(assertion::points(a@), day@, 0) is Some,
    ensures
        r@ == assertion_text(a@, day@),
{
    let expected = stated_of(&a.points(), day).unwrap();
    let mut out = day.text();
    out.append(" ");
    out.append(a.source.text().as_str());
    out.append(" balance\n    ");
    out.append(a.account.as_str());
    out.append("  0 ");
    out.append(a.currency.text().as_str());
    out.append(" =* ");
    out.append(expected.text().as_str());
    out.append(" ");
    out.append(a.currency.text().as_str());
    out.append("\n");
    assert(out@ =~= assertion_text(a@, day@));
    out
}

fn declare(out: &mut String, word: &str, names: &Vec<String>)
    ensures
        final(out)@ == old(out)@ + declared(word@, text::texts(names@)),
{
    let ghost all = text::texts(names@);
    let ghost start = out@;
    let mut i: usize = 0;
    assert(out@ =~= start + declared(word@, all.take(0)));
    while i < names.len()
        invariant
            i <= names@.len(),
            all == text::texts(names@),
            out@ == start + declared(word@, all.take(i as int)),
        decreases names@.len() - i,
    {
        assert(all[i as int] == names@[i as int]@);
        assert(all.take(i as int + 1).drop_last() =~= all.take(i as int));
        out.append(word);
        out.append(names[i].as_str());
        out.append("\n");
        assert(out@ =~= start + (declared(word@, all.take(i as int)) + word@ + all[i as int]
            + "\n"@));
        i = i + 1;
    }
    assert(all.take(i as int) =~= all);
}

fn commodities_of(rows: &Vec<PostingRow>, assertions: &Vec<BalanceAssertion>) -> (r: Vec<String>)
    ensures
        text::texts(r@) == commodities(row_views(rows@), assertion::views(assertions@)),
{
    let ghost first = row_views(rows@).map_values(|r: RowV| r.currency);
    let ghost second = assertion::views(assertions@).map_values(
        |a: AssertionV| currency::code(a.currency),
    );
    let ghost list = first + second;
    let mut out: Vec<String> = Vec::new();
    let mut i: usize = 0;
    assert(text::texts(out@) =~= text::sorted_set(list.take(0)));
    while i < rows.len()
        invariant
            i <= rows@.len(),
            first == row_views(rows@).map_values(|r: RowV| r.currency),
            list == first + second,
            text::texts(out@) == text::sorted_set(list.take(i as int)),
        decreases rows@.len() - i,
    {
        assert(list[i as int] == rows@[i as int].currency@);
        assert(list.take(i as int + 1).drop_last() =~= list.take(i as int));
        text::add_key(&mut out, rows[i].currency.as_str());
        i = i + 1;
    }
    let mut k: usize = 0;
    let n: usize = rows.len();
    assert(n == first.len());
    while k < assertions.len()
        invariant
            k <= assertions@.len(),
            n == first.len(),
            second == assertion::views(assertions@).map_values(
                |a: AssertionV| currency::code(a.currency),
            ),
            list == first + second,
            text::texts(out@) == text::sorted_set(list.take(n + k)),
        decreases assertions@.len() - k,
    {
        assert(list[n + k] == second[k as int]);
        assert(second[k as int] == currency::code(assertions@[k as int].currency));
        assert(list.take(n + k + 1).drop_last() =~= list.take(n + k));
        text::add_key(&mut out, assertions[k].currency.text().as_str());
        k = k + 1;
    }
    assert(list.take(n + k) =~= list);
    out
}

/// The whole ledger as hledger journal text, of its postings by transaction,
/// its assertions, and its accounts by path.
pub fn export(rows: &Vec<PostingRow>, assertions: &Vec<BalanceAssertion>, accounts: &Vec<String>) -> (r:
    Result<String, Refusal>)
    requires
        check::dated(assertion::views(assertions@)),
        assertions@.len() <= i64::MAX,
    ensures
        match r {
            Ok(s) => exported(
                row_views(rows@),
                assertion::views(assertions@),
                text::texts(accounts@),
            ) == Ok::<Seq<char>, Seq<char>>(s@),
            Err(e) => exported(
                row_views(rows@),
                assertion::views(assertions@),
                text::texts(accounts@),
            ) == Err::<Seq<char>, Seq<char>>(e@),
        },
{
    let ghost views = row_views(rows@);
    let ghost all = assertion::views(assertions@);
    let mut blocks = transactions(rows, Ghost(all))?;
    add_assertions(&mut blocks, assertions);
    let ghost m = keyed::entries(blocks@);
    let mut out = text::copy("decimal-mark .\n\n");
    declare(&mut out, "commodity ", &commodities_of(rows, assertions));
    declare(&mut out, "account ", accounts);
    let ghost head = out@;
    let mut i: usize = 0;
    assert(out@ =~= head + blocks_text(views, all, m.take(0)));
    while i < blocks.len()
        invariant
            i <= blocks@.len(),
            views == row_views(rows@),
            all == assertion::views(assertions@),
            check::dated(all),
            assertions@.len() <= i64::MAX,
            m == keyed::entries(blocks@),
            all_sound(m, all),
            out@ == head + blocks_text(views, all, m.take(i as int)),
        decreases blocks@.len() - i,
    {
        let k = &blocks[i].0;
        assert(m[i as int].0 == k@);
        assert(m.take(i as int + 1).drop_last() =~= m.take(i as int));
        assert(sound(all)(m[i as int].0, m[i as int].1));
        let day = Date::from_number(k.numbers.0 as i32).unwrap();
        out.append("\n");
        if k.numbers.1 == 0 {
            out.append(write_transaction(rows, k.numbers.2, day).as_str());
        } else {
            let total: usize = assertions.len();
            assert(k@.numbers.2 < total);
            let at: usize = k.numbers.2 as usize;
            assert(all[at as int] == assertions@[at as int]@);
            out.append(write_assertion(&assertions[at], day).as_str());
        }
        assert(out@ =~= head + (blocks_text(views, all, m.take(i as int)) + block_text(
            views,
            all,
            k@,
        )));
        i = i + 1;
    }
    assert(m.take(i as int) =~= m);
    assert(out@ =~= "decimal-mark .\n\n"@ + declared("commodity "@, commodities(views, all))
        + declared("account "@, text::texts(accounts@)) + blocks_text(views, all, m));
    Ok(out)
}

/// Are the blocks by day, transactions before assertions?
spec fn by_day(m: Seq<(KeyV, bool)>) -> bool {
    keyed::in_order(m) && forall|i: int| 0 <= i < m.len() ==> (#[trigger] m[i]).0.text.len() == 0
}

proof fn put_stays_by_day(m: Seq<(KeyV, bool)>, day: int, asserts: bool, n: int)
    requires
        by_day(m),
    ensures
        by_day(keyed::put(m, block_key(day, asserts, n), true)),
{
    let k = block_key(day, asserts, n);
    keyed::put_keeps_order(m, k, true);
    let plain = |k: KeyV, b: bool| k.text.len() == 0;
    assert forall|i: int| 0 <= i < m.len() implies plain((#[trigger] m[i]).0, m[i].1) by {}
    keyed::put_keeps(m, k, true, plain);
    let after = keyed::put(m, k, true);
    assert forall|i: int| 0 <= i < after.len() implies (#[trigger] after[i]).0.text.len() == 0 by {
        assert(plain(after[i].0, after[i].1));
    }
}

proof fn transactions_stay_by_day(rows: Seq<RowV>)
    requires
        transaction_blocks(rows) is Ok,
    ensures
        by_day(transaction_blocks(rows)->Ok_0),
    decreases rows.len(),
{
    if rows.len() > 0 {
        transactions_stay_by_day(rows.drop_last());
        put_stays_by_day(
            transaction_blocks(rows.drop_last())->Ok_0,
            date::read(rows.last().date)->0,
            false,
            rows.last().transaction_id,
        );
    }
}

proof fn points_stay_by_day(m: Seq<(KeyV, bool)>, a: AssertionV, i: int, n: int)
    requires
        by_day(m),
    ensures
        by_day(point_blocks(m, a, i, n)),
    decreases n,
{
    if n > 0 {
        points_stay_by_day(m, a, i, n - 1);
        put_stays_by_day(
            point_blocks(m, a, i, n - 1),
            assertion::points(a)[n - 1].0,
            true,
            i,
        );
    }
}

proof fn blocks_stay_by_day(m: Seq<(KeyV, bool)>, all: Seq<AssertionV>, n: int)
    requires
        by_day(m),
    ensures
        by_day(all_blocks(m, all, n)),
    decreases n,
{
    if n > 0 {
        blocks_stay_by_day(m, all, n - 1);
        points_stay_by_day(
            all_blocks(m, all, n - 1),
            all[n - 1],
            n - 1,
            assertion::points(all[n - 1]).len() as int,
        );
    }
}

/// The journal's blocks stand by day, and a day's assertions after its
/// transactions, since each assertion describes the end of its day.
pub proof fn a_days_assertions_come_last(rows: Seq<RowV>, all: Seq<AssertionV>, i: int, j: int)
    requires
        transaction_blocks(rows) is Ok,
        0 <= i < j < all_blocks(transaction_blocks(rows)->Ok_0, all, all.len() as int).len(),
    ensures
        ({
            let blocks = all_blocks(transaction_blocks(rows)->Ok_0, all, all.len() as int);
            let (a, b) = (blocks[i].0.numbers, blocks[j].0.numbers);
            a.0 < b.0 || a.0 == b.0 && a.1 <= b.1
        }),
{
    let m = transaction_blocks(rows)->Ok_0;
    let blocks = all_blocks(m, all, all.len() as int);
    transactions_stay_by_day(rows);
    blocks_stay_by_day(m, all, all.len() as int);
    assert(sort::key_before(blocks[i].0, blocks[j].0));
    assert(blocks[i].0.text =~= blocks[j].0.text);
}

proof fn block_is_kept(m: Seq<(KeyV, bool)>, k: KeyV, other: KeyV)
    requires
        keyed::in_order(m),
        keyed::get(m, other) is Some,
    ensures
        keyed::in_order(keyed::put(m, k, true)),
        keyed::get(keyed::put(m, k, true), other) is Some,
{
    keyed::put_keeps_order(m, k, true);
    keyed::get_after_put(m, k, true, other);
}

proof fn each_transaction_has_a_block(rows: Seq<RowV>, k: int)
    requires
        transaction_blocks(rows) is Ok,
        0 <= k < rows.len(),
    ensures
        date::read(rows[k].date) matches Some(day) && keyed::get(
            transaction_blocks(rows)->Ok_0,
            block_key(day, false, rows[k].transaction_id),
        ) is Some,
    decreases rows.len(),
{
    let before = transaction_blocks(rows.drop_last())->Ok_0;
    let last = rows.last();
    let key = block_key(date::read(last.date)->0, false, last.transaction_id);
    blocks_are_in_order(rows.drop_last());
    if k < rows.len() - 1 {
        each_transaction_has_a_block(rows.drop_last(), k);
        assert(rows.drop_last()[k] == rows[k]);
        block_is_kept(
            before,
            key,
            block_key(date::read(rows[k].date)->0, false, rows[k].transaction_id),
        );
    } else {
        keyed::get_after_put(before, key, true, key);
    }
}

proof fn blocks_are_in_order(rows: Seq<RowV>)
    requires
        transaction_blocks(rows) is Ok,
    ensures
        keyed::in_order(transaction_blocks(rows)->Ok_0),
    decreases rows.len(),
{
    if rows.len() > 0 {
        blocks_are_in_order(rows.drop_last());
        let last = rows.last();
        keyed::put_keeps_order(
            transaction_blocks(rows.drop_last())->Ok_0,
            block_key(date::read(last.date)->0, false, last.transaction_id),
            true,
        );
    }
}

proof fn points_keep(m: Seq<(KeyV, bool)>, a: AssertionV, i: int, n: int, other: KeyV)
    requires
        keyed::in_order(m),
    ensures
        keyed::in_order(point_blocks(m, a, i, n)),
        keyed::get(m, other) is Some ==> keyed::get(point_blocks(m, a, i, n), other) is Some,
        forall|j: int|
            0 <= j < n ==> keyed::get(
                point_blocks(m, a, i, n),
                block_key((#[trigger] assertion::points(a)[j]).0, true, i),
            ) is Some,
    decreases n,
{
    if n > 0 {
        points_keep(m, a, i, n - 1, other);
        let before = point_blocks(m, a, i, n - 1);
        let key = block_key(assertion::points(a)[n - 1].0, true, i);
        keyed::put_keeps_order(before, key, true);
        keyed::get_after_put(before, key, true, other);
        assert forall|j: int| 0 <= j < n implies keyed::get(
            point_blocks(m, a, i, n),
            block_key((#[trigger] assertion::points(a)[j]).0, true, i),
        ) is Some by {
            keyed::get_after_put(
                before,
                key,
                true,
                block_key(assertion::points(a)[j].0, true, i),
            );
        }
    }
}

proof fn assertions_keep(m: Seq<(KeyV, bool)>, all: Seq<AssertionV>, n: int, other: KeyV)
    requires
        keyed::in_order(m),
    ensures
        keyed::in_order(all_blocks(m, all, n)),
        keyed::get(m, other) is Some ==> keyed::get(all_blocks(m, all, n), other) is Some,
    decreases n,
{
    if n > 0 {
        assertions_keep(m, all, n - 1, other);
        points_keep(
            all_blocks(m, all, n - 1),
            all[n - 1],
            n - 1,
            assertion::points(all[n - 1]).len() as int,
            other,
        );
    }
}

proof fn each_figure_has_a_block(
    m: Seq<(KeyV, bool)>,
    all: Seq<AssertionV>,
    n: int,
    i: int,
    j: int,
)
    requires
        keyed::in_order(m),
        0 <= i < n <= all.len(),
        0 <= j < assertion::points(all[i]).len(),
    ensures
        keyed::get(
            all_blocks(m, all, n),
            block_key(assertion::points(all[i])[j].0, true, i),
        ) is Some,
    decreases n,
{
    let key = block_key(assertion::points(all[i])[j].0, true, i);
    let before = all_blocks(m, all, n - 1);
    assertions_keep(m, all, n - 1, key);
    points_keep(before, all[n - 1], n - 1, assertion::points(all[n - 1]).len() as int, key);
    if i < n - 1 {
        each_figure_has_a_block(m, all, n - 1, i, j);
    }
}

/// Does a text hold another?
pub open spec fn has_within(s: Seq<char>, part: Seq<char>) -> bool {
    exists|before: Seq<char>, after: Seq<char>| s == #[trigger] (before + part + after)
}

proof fn within_more(head: Seq<char>, s: Seq<char>, tail: Seq<char>, part: Seq<char>)
    requires
        has_within(s, part),
    ensures
        has_within(head + s + tail, part),
{
    let (before, after) = choose|before: Seq<char>, after: Seq<char>|
        s == #[trigger] (before + part + after);
    let (b, a) = (head + before, after + tail);
    assert(head + s + tail =~= b + part + a);
}

proof fn within_itself(s: Seq<char>)
    ensures
        has_within(s, s),
{
    let none: Seq<char> = Seq::empty();
    assert(s =~= none + s + none);
}

proof fn block_is_written(rows: Seq<RowV>, all: Seq<AssertionV>, m: Seq<(KeyV, bool)>, i: int)
    requires
        0 <= i < m.len(),
    ensures
        has_within(blocks_text(rows, all, m), block_text(rows, all, m[i].0)),
    decreases m.len(),
{
    let before = blocks_text(rows, all, m.drop_last());
    let last = block_text(rows, all, m.last().0);
    let none: Seq<char> = Seq::empty();
    let part = block_text(rows, all, m[i].0);
    if i < m.len() - 1 {
        block_is_written(rows, all, m.drop_last(), i);
        within_more(none, before, last, part);
        assert(none + before + last =~= before + last);
    } else {
        within_itself(part);
        within_more(before, part, none, part);
        assert(before + part + none =~= before + part);
    }
}

proof fn leg_is_written(rows: Seq<RowV>, k: int)
    requires
        0 <= k < rows.len(),
    ensures
        has_within(legs_text(rows, rows[k].transaction_id), leg_text(rows[k])),
    decreases rows.len(),
{
    let id = rows[k].transaction_id;
    let before = legs_text(rows.drop_last(), id);
    let none: Seq<char> = Seq::empty();
    let part = leg_text(rows[k]);
    if k < rows.len() - 1 {
        leg_is_written(rows.drop_last(), k);
        if rows.last().transaction_id == id {
            within_more(none, before, leg_text(rows.last()), part);
            assert(none + before + leg_text(rows.last()) =~= before + leg_text(rows.last()));
        }
    } else {
        within_itself(part);
        within_more(before, part, none, part);
        assert(before + part + none =~= before + part);
    }
}

proof fn block_within(s: Seq<char>, t: Seq<char>, part: Seq<char>)
    requires
        has_within(s, t),
        has_within(t, part),
    ensures
        has_within(s, part),
{
    let (before, after) = choose|before: Seq<char>, after: Seq<char>|
        s == #[trigger] (before + t + after);
    within_more(before, t, after, part);
}

/// Every posting is written: the day of its transaction, and on a line of its
/// own its account, its amount and its currency.
pub proof fn every_posting_is_written(
    rows: Seq<RowV>,
    all: Seq<AssertionV>,
    accounts: Seq<Seq<char>>,
    k: int,
) -> (block: Seq<char>)
    requires
        exported(rows, all, accounts) is Ok,
        0 <= k < rows.len(),
    ensures
        ({
            let r = rows[k];
            let line = "    "@ + r.path + "  "@ + r.amount + " "@ + r.currency;
            &&& has_within(exported(rows, all, accounts)->Ok_0, block)
            &&& date::read(r.date) matches Some(day) && text::starts(
                block,
                "\n"@ + date::printed(day) + " "@,
            )
            &&& has_within(block, line)
        }),
{
    let m = transaction_blocks(rows)->Ok_0;
    let r = rows[k];
    let day = date::read(r.date)->0;
    let key = block_key(day, false, r.transaction_id);
    each_transaction_has_a_block(rows, k);
    blocks_are_in_order(rows);
    assertions_keep(m, all, all.len() as int, key);
    block_is_exported(rows, all, accounts, key);
    let block = block_text(rows, all, key);
    let none: Seq<char> = Seq::empty();
    let start = "\n"@ + date::printed(day) + " "@;
    let line = "    "@ + r.path + "  "@ + r.amount + " "@ + r.currency;
    let title = match first_leg(rows, r.transaction_id, 0) {
        Some(i) => description(rows[i]),
        None => Seq::empty(),
    };
    let legs = legs_text(rows, r.transaction_id);
    assert(block =~= (start + title + "\n"@) + legs + none);
    assert(block.subrange(0, start.len() as int) =~= start);
    leg_is_written(rows, k);
    let end = match r.tags {
        Some(tags) => "  ; tags: "@ + cleaned(tags) + "\n"@,
        None => "\n"@,
    };
    assert(leg_text(r) =~= none + line + end);
    within_itself(line);
    within_more(none, line, end, line);
    block_within(legs, leg_text(r), line);
    within_more(start + title + "\n"@, legs, none, line);
    block
}

/// Every figure of every assertion is written: its day, its account and, as the
/// balance there, its amount in its currency. Where an opening and a closing
/// fall on one day, the opening is.
pub proof fn every_figure_is_written(
    rows: Seq<RowV>,
    all: Seq<AssertionV>,
    accounts: Seq<Seq<char>>,
    i: int,
    j: int,
) -> (block: Seq<char>)
    requires
        exported(rows, all, accounts) is Ok,
        0 <= i < all.len(),
        0 <= j < assertion::points(all[i]).len(),
        forall|k: int|
            0 <= k < j ==> (#[trigger] assertion::points(all[i])[k]).0 != assertion::points(
                all[i],
            )[j].0,
    ensures
        ({
            let a = all[i];
            let (day, figure) = assertion::points(a)[j];
            let code = currency::code(a.currency);
            &&& has_within(exported(rows, all, accounts)->Ok_0, block)
            &&& text::starts(block, "\n"@ + date::printed(day) + " "@)
            &&& has_within(
                block,
                "    "@ + a.account + "  0 "@ + code + " =* "@ + amount::printed(figure) + " "@
                    + code + "\n"@,
            )
        }),
{
    let m = transaction_blocks(rows)->Ok_0;
    let a = all[i];
    let (day, figure) = assertion::points(a)[j];
    let key = block_key(day, true, i);
    blocks_are_in_order(rows);
    each_figure_has_a_block(m, all, all.len() as int, i, j);
    block_is_exported(rows, all, accounts, key);
    first_stated(assertion::points(a), day, 0, j);
    figure_in_block(a, day, figure);
    assert(block_text(rows, all, key) == "\n"@ + assertion_text(a, day));
    block_text(rows, all, key)
}

proof fn block_is_exported(
    rows: Seq<RowV>,
    all: Seq<AssertionV>,
    accounts: Seq<Seq<char>>,
    key: KeyV,
)
    requires
        exported(rows, all, accounts) is Ok,
        keyed::get(
            all_blocks(transaction_blocks(rows)->Ok_0, all, all.len() as int),
            key,
        ) is Some,
    ensures
        has_within(exported(rows, all, accounts)->Ok_0, block_text(rows, all, key)),
{
    let m = transaction_blocks(rows)->Ok_0;
    blocks_are_in_order(rows);
    assertions_keep(m, all, all.len() as int, key);
    let bs = all_blocks(m, all, all.len() as int);
    keyed::slot_bounds(bs, key, 0);
    block_is_written(rows, all, bs, keyed::slot(bs, key, 0));
    let block = block_text(rows, all, key);
    let none: Seq<char> = Seq::empty();
    let text = blocks_text(rows, all, bs);
    let head = "decimal-mark .\n\n"@ + declared("commodity "@, commodities(rows, all)) + declared(
        "account "@,
        accounts,
    );
    within_more(head, text, none, block);
    assert(head + text + none =~= exported(rows, all, accounts)->Ok_0);
}

proof fn figure_in_block(a: AssertionV, day: int, figure: Dec)
    requires
        stated(assertion::points(a), day, 0) == Some(figure),
    ensures
        ({
            let block = "\n"@ + assertion_text(a, day);
            let code = currency::code(a.currency);
            &&& text::starts(block, "\n"@ + date::printed(day) + " "@)
            &&& has_within(
                block,
                "    "@ + a.account + "  0 "@ + code + " =* "@ + amount::printed(figure) + " "@
                    + code + "\n"@,
            )
        }),
{
    let block = "\n"@ + assertion_text(a, day);
    let code = currency::code(a.currency);
    let none: Seq<char> = Seq::empty();
    let start = "\n"@ + date::printed(day) + " "@;
    let word = assertion::source_text(a.source) + " balance\n"@;
    let rest = a.account + "  0 "@ + code + " =* "@ + amount::printed(figure) + " "@ + code + "\n"@;
    let line = "    "@ + a.account + "  0 "@ + code + " =* "@ + amount::printed(figure) + " "@ + code
        + "\n"@;
    assert(line =~= "    "@ + rest);
    balance_word();
    assert(word + "    "@ =~= assertion::source_text(a.source) + " balance\n    "@);
    assert(block =~= start + (assertion::source_text(a.source) + " balance\n    "@) + rest);
    assert(block =~= (start + word) + line + none);
    assert(block.subrange(0, start.len() as int) =~= start);
    within_itself(line);
    within_more(start + word, line, none, line);
}

proof fn balance_word()
    ensures
        " balance\n    "@ == " balance\n"@ + "    "@,
{
    reveal_strlit(" balance\n    ");
    reveal_strlit(" balance\n");
    reveal_strlit("    ");
    assert(" balance\n    "@ =~= " balance\n"@ + "    "@);
}

proof fn first_stated(points: Seq<(int, Dec)>, day: int, from: int, j: int)
    requires
        0 <= from <= j < points.len(),
        points[j].0 == day,
        forall|k: int| 0 <= k < j ==> (#[trigger] points[k]).0 != day,
    ensures
        stated(points, day, from) == Some(points[j].1),
    decreases j - from,
{
    if from < j {
        assert(points[from].0 != day);
        first_stated(points, day, from + 1, j);
    }
}

/// What a text holds, it holds with more behind it.
pub(crate) proof fn stands_before(s: Seq<char>, more: Seq<char>, part: Seq<char>)
    requires
        has_within(s, part),
    ensures
        has_within(s + more, part),
{
    let none: Seq<char> = Seq::empty();
    within_more(none, s, more, part);
    assert(none + s + more =~= s + more);
}

pub(crate) proof fn pair_stands(s: Seq<char>, a: Seq<char>, b: Seq<char>)
    ensures
        has_within(s + a + b, a + b),
{
    let none: Seq<char> = Seq::empty();
    assert(s + a + b =~= s + (a + b) + none);
}

pub(crate) proof fn triple_stands(s: Seq<char>, a: Seq<char>, b: Seq<char>, c: Seq<char>)
    ensures
        has_within(s + a + b + c, a + b + c),
{
    let none: Seq<char> = Seq::empty();
    assert(s + a + b + c =~= s + (a + b + c) + none);
}

pub(crate) proof fn four_stand(
    s: Seq<char>,
    a: Seq<char>,
    b: Seq<char>,
    c: Seq<char>,
    d: Seq<char>,
)
    ensures
        has_within(s + a + b + c + d, a + b + c + d),
{
    let none: Seq<char> = Seq::empty();
    assert(s + a + b + c + d =~= s + (a + b + c + d) + none);
}

} // verus!
