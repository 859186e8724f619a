//! What an importer needs around its transactions: the postings already on an
//! account, and the transactions with a leg on it.

use vstd::prelude::*;

use crate::amount;
use crate::amount::{Amount, Dec};
use crate::currency;
use crate::currency::Currency;
use crate::date;
use crate::date::Date;
use crate::journal;
use crate::model::{HeldV, LedgerPosting, Verification, VerificationV, UNVERIFIED_TAG};
use crate::refusal::Refusal;
use crate::text;

use super::events;
use super::like;

verus! {

/// What stands between the refs and the paths in a column: no ref or account
/// path holds it.
pub const SEPARATOR: char = '\u{1f}';

/// The parts of a column; an absent one has none.
pub open spec fn parts(s: Option<Seq<char>>) -> Seq<Seq<char>> {
    match s {
        None => Seq::empty(),
        Some(s) => text::pieces(s, SEPARATOR),
    }
}

/// The parts of a column; an absent one has none.
pub fn split(concatenated: &Option<String>) -> (r: Vec<String>)
    ensures
        text::texts(r@) == parts(text::opt(*concatenated)),
{
    match concatenated {
        None => {
            let none: Vec<String> = Vec::new();
            assert(text::texts(none@) =~= Seq::empty());
            none
        },
        Some(s) => text::split(s.as_str(), SEPARATOR),
    }
}

/// A posting on an account, as the database holds it.
pub struct Row {
    pub date: String,
    pub amount: String,
    pub external_ref: Option<String>,
    pub aliases: Option<String>,
    pub others: Option<String>,
    pub opening: bool,
    pub transaction_id: i64,
    pub unverified: bool,
}

/// The refs of a row: its transaction's, then any further ones it stands for.
pub open spec fn refs_in(r: Row) -> Seq<Seq<char>> {
    (match r.external_ref {
        Some(s) => seq![s@],
        None => Seq::empty(),
    }) + parts(text::opt(r.aliases))
}

/// The posting a row holds.
pub open spec fn posting_in(r: Row) -> Result<HeldV, Seq<char>> {
    match date::read(r.date@) {
        None => Err(events::misread("transaction date"@, r.date@)),
        Some(day) => match amount::spelled(r.amount@) {
            None => Err(events::misread("posting amount"@, r.amount@)),
            Some(a) => Ok(
                HeldV {
                    date: day,
                    amount: a,
                    refs: refs_in(r),
                    other_accounts: parts(text::opt(r.others)),
                    opening: r.opening,
                    transaction_id: r.transaction_id as int,
                    unverified: r.unverified,
                },
            ),
        },
    }
}

impl Row {
    /// The posting the row holds.
    pub fn read(&self) -> (r: Result<LedgerPosting, Refusal>)
        ensures
            match r {
                Ok(p) => posting_in(*self) == Ok::<HeldV, Seq<char>>(p@),
                Err(e) => posting_in(*self) == Err::<HeldV, Seq<char>>(e@),
            },
    {
        let date = match Date::from_iso(self.date.as_str()) {
            Some(d) => d,
            None => return Err(events::misreads("transaction date", self.date.as_str())),
        };
        let amount = match Amount::parse(self.amount.as_str()) {
            Some(a) => a,
            None => return Err(events::misreads("posting amount", self.amount.as_str())),
        };
        let mut refs = split(&self.aliases);
        let ghost before = refs@;
        if let Some(s) = &self.external_ref {
            refs.insert(0, text::copy(s.as_str()));
        }
        assert(text::texts(refs@) =~= refs_in(*self));
        Ok(
            LedgerPosting {
                date,
                amount,
                refs,
                other_accounts: split(&self.others),
                opening: self.opening,
                transaction_id: self.transaction_id,
                unverified: self.unverified,
            },
        )
    }
}

/// One leg of a transaction already held.
#[derive(Clone, Debug, PartialEq)]
pub struct HeldPosting {
    pub id: i64,
    pub account: String,
    pub amount: Amount,
    pub currency: Currency,
}

#[verifier::ext_equal]
pub struct LegV {
    pub id: int,
    pub account: Seq<char>,
    pub amount: Dec,
    pub currency: Currency,
}

impl View for HeldPosting {
    type V = LegV;

    open spec fn view(&self) -> LegV {
        LegV {
            id: self.id as int,
            account: self.account@,
            amount: self.amount@,
            currency: self.currency,
        }
    }
}

pub open spec fn leg_views(v: Seq<HeldPosting>) -> Seq<LegV> {
    v.map_values(|p: HeldPosting| p@)
}

/// A transaction with a leg on some account, and all its legs.
#[derive(Clone, Debug)]
pub struct HeldTransaction {
    pub id: i64,
    pub date: Date,
    pub external_ref: Option<String>,
    pub postings: Vec<HeldPosting>,
}

#[verifier::ext_equal]
pub struct TransactionV {
    pub id: int,
    pub date: int,
    pub external_ref: Option<Seq<char>>,
    pub postings: Seq<LegV>,
}

impl View for HeldTransaction {
    type V = TransactionV;

    open spec fn view(&self) -> TransactionV {
        TransactionV {
            id: self.id as int,
            date: self.date@,
            external_ref: text::opt(self.external_ref),
            postings: leg_views(self.postings@),
        }
    }
}

pub open spec fn transaction_views(v: Seq<HeldTransaction>) -> Seq<TransactionV> {
    v.map_values(|t: HeldTransaction| t@)
}

/// A leg and its transaction, as the database holds them.
pub struct HeldRow {
    pub transaction_id: i64,
    pub date: String,
    pub external_ref: Option<String>,
    pub posting_id: i64,
    pub account: String,
    pub amount: String,
    pub currency: String,
}

pub struct HeldRowV {
    pub transaction_id: int,
    pub date: Seq<char>,
    pub external_ref: Option<Seq<char>>,
    pub posting_id: int,
    pub account: Seq<char>,
    pub amount: Seq<char>,
    pub currency: Seq<char>,
}

impl View for HeldRow {
    type V = HeldRowV;

    open spec fn view(&self) -> HeldRowV {
        HeldRowV {
            transaction_id: self.transaction_id as int,
            date: self.date@,
            external_ref: text::opt(self.external_ref),
            posting_id: self.posting_id as int,
            account: self.account@,
            amount: self.amount@,
            currency: self.currency@,
        }
    }
}

pub open spec fn row_views(v: Seq<HeldRow>) -> Seq<HeldRowV> {
    v.map_values(|r: HeldRow| r@)
}

/// The leg a row holds.
pub open spec fn leg_in(r: HeldRowV) -> Result<LegV, Seq<char>> {
    match amount::spelled(r.amount) {
        None => Err(events::misread("posting amount"@, r.amount)),
        Some(a) => match currency::of_code(r.currency) {
            None => Err(events::misread("currency"@, r.currency)),
            Some(c) => Ok(LegV { id: r.posting_id, account: r.account, amount: a, currency: c }),
        },
    }
}

/// The transactions the rows hold: a row goes with the one before it where
/// they are of one transaction.
pub open spec fn transactions_in(rows: Seq<HeldRowV>) -> Result<Seq<TransactionV>, Seq<char>>
    decreases rows.len(),
{
    if rows.len() == 0 {
        Ok(Seq::empty())
    } else {
        match transactions_in(rows.drop_last()) {
            Err(e) => Err(e),
            Ok(rest) => {
                let r = rows.last();
                match leg_in(r) {
                    Err(e) => Err(e),
                    Ok(leg) => if rest.len() > 0 && rest.last().id == r.transaction_id {
                        let t = rest.last();
                        Ok(
                            rest.drop_last().push(
                                TransactionV { postings: t.postings.push(leg), ..t },
                            ),
                        )
                    } else {
                        match date::read(r.date) {
                            None => Err(events::misread("transaction date"@, r.date)),
                            Some(day) => Ok(
                                rest.push(
                                    TransactionV {
                                        id: r.transaction_id,
                                        date: day,
                                        external_ref: r.external_ref,
                                        postings: seq![leg],
                                    },
                                ),
                            ),
                        }
                    },
                }
            },
        }
    }
}

proof fn refused_rows_stay(rows: Seq<HeldRowV>, n: int)
    requires
        0 <= n <= rows.len(),
        transactions_in(rows.take(n)) is Err,
    ensures
        transactions_in(rows) == transactions_in(rows.take(n)),
    decreases rows.len() - n,
{
    if n < rows.len() {
        assert(rows.take(n + 1).drop_last() =~= rows.take(n));
        refused_rows_stay(rows, n + 1);
    } else {
        assert(rows.take(n) =~= rows);
    }
}

impl HeldRow {
    fn leg(&self) -> (r: Result<HeldPosting, Refusal>)
        ensures
            match r {
                Ok(p) => leg_in(self@) == Ok::<LegV, Seq<char>>(p@),
                Err(e) => leg_in(self@) == Err::<LegV, Seq<char>>(e@),
            },
    {
        let amount = match Amount::parse(self.amount.as_str()) {
            Some(a) => a,
            None => return Err(events::misreads("posting amount", self.amount.as_str())),
        };
        match Currency::parse(self.currency.as_str()) {
            Some(currency) => Ok(
                HeldPosting {
                    id: self.posting_id,
                    account: text::copy(self.account.as_str()),
                    amount,
                    currency,
                },
            ),
            None => Err(events::misreads("currency", self.currency.as_str())),
        }
    }
}

/// The transactions the rows hold, by date and transaction.
pub fn transactions_of(rows: &Vec<HeldRow>) -> (r: Result<Vec<HeldTransaction>, Refusal>)
    ensures
        match r {
            Ok(v) => transactions_in(row_views(rows@)) == Ok::<Seq<TransactionV>, Seq<char>>(
                transaction_views(v@),
            ),
            Err(e) => transactions_in(row_views(rows@)) == Err::<Seq<TransactionV>, Seq<char>>(e@),
        },
{
    let ghost all = row_views(rows@);
    let mut out: Vec<HeldTransaction> = Vec::new();
    let mut i: usize = 0;
    assert(transaction_views(out@) =~= Seq::empty());
    while i < rows.len()
        invariant
            i <= rows@.len(),
            all == row_views(rows@),
            transactions_in(all.take(i as int)) == Ok::<Seq<TransactionV>, Seq<char>>(
                transaction_views(out@),
            ),
        decreases rows@.len() - i,
    {
        let r = &rows[i];
        let ghost before = transaction_views(out@);
        assert(all[i as int] == r@);
        assert(all.take(i as int + 1).drop_last() =~= all.take(i as int));
        assert(before.len() == out@.len());
        let leg = match r.leg() {
            Ok(leg) => leg,
            Err(e) => {
                proof {
                    refused_rows_stay(all, i as int + 1);
                }
                return Err(e);
            },
        };
        let n: usize = out.len();
        if n > 0 {
            assert(before.last() == out@[n - 1]@);
        }
        if n > 0 && out[n - 1].id == r.transaction_id {
            let mut t = out.pop().unwrap();
            let ghost had = t.postings@;
            t.postings.push(leg);
            assert(leg_views(t.postings@) =~= leg_views(had).push(leg@));
            out.push(t);
            assert(transaction_views(out@) =~= before.drop_last().push(
                TransactionV { postings: before.last().postings.push(leg@), ..before.last() },
            ));
        } else {
            match Date::from_iso(r.date.as_str()) {
                None => {
                    proof {
                        refused_rows_stay(all, i as int + 1);
                    }
                    return Err(events::misreads("transaction date", r.date.as_str()));
                },
                Some(date) => {
                    let mut postings: Vec<HeldPosting> = Vec::new();
                    postings.push(leg);
                    assert(leg_views(postings@) =~= seq![leg@]);
                    let t = HeldTransaction {
                        id: r.transaction_id,
                        date,
                        external_ref: journal::copy_opt(&r.external_ref),
                        postings,
                    };
                    out.push(t);
                    assert(transaction_views(out@) =~= before.push(t@));
                },
            }
        }
        i = i + 1;
    }
    assert(all.take(i as int) =~= all);
    Ok(out)
}

/// A leg of a record, with its tags.
pub struct TaggedLeg {
    pub id: i64,
    pub account: String,
    pub tags: Option<String>,
}

#[verifier::ext_equal]
pub struct TaggedLegV {
    pub id: int,
    pub account: Seq<char>,
    pub tags: Option<Seq<char>>,
}

impl View for TaggedLeg {
    type V = TaggedLegV;

    open spec fn view(&self) -> TaggedLegV {
        TaggedLegV { id: self.id as int, account: self.account@, tags: text::opt(self.tags) }
    }
}

/// A record as it stands: its day, the refs it stands for, and its legs.
pub struct Record {
    pub date: Date,
    pub refs: Vec<String>,
    pub legs: Vec<TaggedLeg>,
}

#[verifier::ext_equal]
pub struct RecordV {
    pub date: int,
    pub refs: Seq<Seq<char>>,
    pub legs: Seq<TaggedLegV>,
}

pub open spec fn tagged_views(v: Seq<TaggedLeg>) -> Seq<TaggedLegV> {
    v.map_values(|l: TaggedLeg| l@)
}

impl View for Record {
    type V = RecordV;

    open spec fn view(&self) -> RecordV {
        RecordV {
            date: self.date@,
            refs: text::texts(self.refs@),
            legs: tagged_views(self.legs@),
        }
    }
}

/// Do the tags say that no statement has checked the leg yet?
pub open spec fn is_unverified(tags: Option<Seq<char>>) -> bool {
    tags matches Some(s) && text::pieces(s, ',').contains(UNVERIFIED_TAG@)
}

/// What stands between the commas, but for the unverified tag.
pub open spec fn other_tags(parts: Seq<Seq<char>>) -> Seq<Seq<char>>
    decreases parts.len(),
{
    if parts.len() == 0 {
        Seq::empty()
    } else {
        let rest = other_tags(parts.drop_last());
        if parts.last() == UNVERIFIED_TAG@ {
            rest
        } else {
            rest.push(parts.last())
        }
    }
}

/// `parts` without the empty ones it starts with.
pub open spec fn led(parts: Seq<Seq<char>>) -> Seq<Seq<char>>
    decreases parts.len(),
{
    if parts.len() > 0 && parts[0].len() == 0 {
        led(parts.skip(1))
    } else {
        parts
    }
}

/// `parts` without the empty ones it ends with.
pub open spec fn ended(parts: Seq<Seq<char>>) -> Seq<Seq<char>>
    decreases parts.len(),
{
    if parts.len() > 0 && parts.last().len() == 0 {
        ended(parts.drop_last())
    } else {
        parts
    }
}

/// The tags without the unverified one, and without commas at either end; none
/// where nothing is left.
pub open spec fn cleared(tags: Option<Seq<char>>) -> Option<Seq<char>> {
    match tags {
        None => None,
        Some(s) => {
            let left = ended(led(other_tags(text::pieces(s, ','))));
            if left.len() == 0 {
                None
            } else {
                Some(text::joined(left, seq![',']))
            }
        },
    }
}

/// A record once a statement line has checked it: it takes the line's day,
/// stands for the line too, and its legs lose the unverified tag, bar those on
/// accounts no line vouched for. Its own refs stay, so its source still knows
/// it.
pub open spec fn verified(r: RecordV, v: VerificationV) -> RecordV {
    RecordV {
        date: match v.date {
            Some(day) => day,
            None => r.date,
        },
        refs: r.refs.push(v.statement_ref),
        legs: r.legs.map_values(
            |l: TaggedLegV|
                if v.unchecked.contains(l.account) {
                    l
                } else {
                    TaggedLegV { tags: cleared(l.tags), ..l }
                },
        ),
    }
}

fn is_listed(paths: &Vec<String>, path: &str) -> (r: bool)
    ensures
        r == text::texts(paths@).contains(path@),
{
    let ghost all = text::texts(paths@);
    match text::position(paths.as_slice(), path) {
        Some(i) => {
            assert(all[i as int] == path@);
            true
        },
        None => {
            assert forall|i: int| 0 <= i < all.len() implies all[i] != path@ by {
                assert(all[i] == paths@[i]@);
            }
            false
        },
    }
}

fn clear(tags: &Option<String>) -> (r: Option<String>)
    ensures
        text::opt(r) == cleared(text::opt(*tags)),
{
    let s = match tags {
        None => {
            return None;
        },
        Some(s) => s,
    };
    let all = text::split(s.as_str(), ',');
    let ghost parts = text::texts(all@);
    let mut left: Vec<String> = Vec::new();
    let mut i: usize = 0;
    assert(text::texts(left@) =~= Seq::empty());
    while i < all.len()
        invariant
            i <= all@.len(),
            parts == text::texts(all@),
            text::texts(left@) == other_tags(parts.take(i as int)),
        decreases all@.len() - i,
    {
        let ghost before = left@;
        assert(parts[i as int] == all@[i as int]@);
        assert(parts.take(i as int + 1).drop_last() =~= parts.take(i as int));
        if !text::same_text(all[i].as_str(), UNVERIFIED_TAG) {
            left.push(text::copy(all[i].as_str()));
            assert(text::texts(left@) =~= text::texts(before).push(parts[i as int]));
        }
        i = i + 1;
    }
    assert(parts.take(i as int) =~= parts);
    let ghost others = text::texts(left@);
    while left.len() > 0 && text::chars(left[0].as_str()).len() == 0
        invariant
            led(text::texts(left@)) == led(others),
        decreases left@.len(),
    {
        let ghost before = text::texts(left@);
        assert(before[0] == left@[0]@);
        let _ = left.remove(0);
        assert(text::texts(left@) =~= before.skip(1));
    }
    assert(left@.len() > 0 ==> text::texts(left@)[0] == left@[0]@);
    assert(text::texts(left@) == led(others));
    while left.len() > 0 && text::chars(left[left.len() - 1].as_str()).len() == 0
        invariant
            ended(text::texts(left@)) == ended(led(others)),
        decreases left@.len(),
    {
        let ghost before = text::texts(left@);
        assert(before.last() == left@.last()@);
        let _ = left.pop();
        assert(text::texts(left@) =~= before.drop_last());
    }
    assert(left@.len() > 0 ==> text::texts(left@).last() == left@.last()@);
    assert(text::texts(left@).len() == left@.len());
    proof {
        reveal_strlit(",");
        assert(","@ =~= seq![',']);
    }
    if left.len() == 0 {
        None
    } else {
        Some(text::join_all(&left, ","))
    }
}

/// Marks a record as checked by a statement line.
pub fn verify(record: Record, v: &Verification) -> (r: Record)
    ensures
        r@ == verified(record@, v@),
{
    let ghost was = record@;
    let Record { date, refs, legs } = record;
    let mut refs = refs;
    let ghost known = refs@;
    refs.push(text::copy(v.statement_ref.as_str()));
    assert(text::texts(refs@) =~= text::texts(known).push(v@.statement_ref));
    let date = match v.date {
        Some(day) => day,
        None => date,
    };
    let mut rest = legs;
    let mut out: Vec<TaggedLeg> = Vec::new();
    let ghost all = verified(was, v@).legs;
    let ghost mut n: int = 0;
    assert(tagged_views(rest@) =~= was.legs.skip(0));
    assert(tagged_views(out@) =~= all.take(0));
    while rest.len() > 0
        invariant
            0 <= n <= was.legs.len(),
            all == verified(was, v@).legs,
            tagged_views(rest@) == was.legs.skip(n),
            tagged_views(out@) == all.take(n),
        decreases rest@.len(),
    {
        let ghost left = rest@;
        let ghost done = out@;
        let leg = rest.remove(0);
        proof {
            assert(leg@ == tagged_views(left)[0]);
            assert(was.legs.skip(n).len() == left.len());
            assert(leg@ == was.legs[n]);
            assert(tagged_views(rest@) =~= tagged_views(left).skip(1));
            assert(tagged_views(rest@) =~= was.legs.skip(n + 1));
        }
        let leg = if is_listed(&v.unchecked, leg.account.as_str()) {
            leg
        } else {
            TaggedLeg { tags: clear(&leg.tags), ..leg }
        };
        out.push(leg);
        proof {
            assert(leg@ =~= all[n]);
            assert(tagged_views(out@) =~= tagged_views(done).push(leg@));
            assert(all.take(n + 1) =~= all.take(n).push(all[n]));
            n = n + 1;
        }
    }
    assert(all.take(n) =~= all);
    Record { date, refs, legs: out }
}

/// What stands between what the bank said and what the record says.
pub const BESIDE: &'static str = " · ";

/// What a transaction narrates.
pub open spec fn said(narration: Option<Seq<char>>) -> Seq<char> {
    match narration {
        Some(s) => s,
        None => Seq::empty(),
    }
}

/// The narration with `more` put beside it; `None` where it already holds what
/// is like it, and stays.
pub open spec fn narrated(narration: Option<Seq<char>>, more: Seq<char>) -> Option<Seq<char>> {
    let held = said(narration);
    if like::like(like::around(more), held) {
        None
    } else if held.len() == 0 {
        Some(more)
    } else {
        Some(held + BESIDE@ + more)
    }
}

/// What a transaction narrates once `more` is added, keeping what is already
/// there: a relabelled bank line says what the bank called it and what the
/// record did. `None` where nothing is to be added.
pub fn append_narration(narration: &Option<String>, more: &str) -> (r: Option<String>)
    ensures
        text::opt(r) == narrated(text::opt(*narration), more@),
        more@.len() == 0 ==> r is None,
{
    proof {
        if more@.len() == 0 {
            assert(more@ =~= Seq::empty());
            like::every_text_holds_nothing(said(text::opt(*narration)));
        }
    }
    let mut out = match narration {
        Some(s) => text::copy(s.as_str()),
        None => {
            let none = text::copy("");
            proof {
                reveal_strlit("");
                assert(none@ =~= Seq::empty());
            }
            none
        },
    };
    if like::holds_like(out.as_str(), more) {
        return None;
    }
    if text::chars(out.as_str()).len() > 0 {
        out.append(BESIDE);
    }
    let ghost front = out@;
    out.append(more);
    assert(out@ =~= front + more@);
    assert(said(text::opt(*narration)).len() == 0 ==> out@ =~= more@);
    Some(out)
}

/// What was added is held, so it is not added again.
pub proof fn nothing_is_said_twice(narration: Option<Seq<char>>, more: Seq<char>)
    requires
        narrated(narration, more) is Some,
    ensures
        narrated(narrated(narration, more), more) is None,
{
    let held = said(narration);
    if held.len() == 0 {
        like::what_ends_in_it_is_like_it(Seq::empty(), more);
        assert(Seq::empty() + more =~= more);
    } else {
        like::what_ends_in_it_is_like_it(held + BESIDE@, more);
    }
}

/// What the transaction said before still stands first.
pub proof fn what_was_said_stays(narration: Option<Seq<char>>, more: Seq<char>)
    requires
        narrated(narration, more) is Some,
    ensures
        text::starts(narrated(narration, more)->0, said(narration)),
{
    let held = said(narration);
    let now = narrated(narration, more)->0;
    assert(now.subrange(0, held.len() as int) =~= held);
}

proof fn other_tags_are_others(parts: Seq<Seq<char>>)
    ensures
        forall|k: int|
            0 <= k < other_tags(parts).len() ==> (#[trigger] other_tags(parts)[k])
                != UNVERIFIED_TAG@ && parts.contains(other_tags(parts)[k]),
    decreases parts.len(),
{
    if parts.len() > 0 {
        let front = parts.drop_last();
        other_tags_are_others(front);
        let all = other_tags(parts);
        let rest = other_tags(front);
        assert forall|k: int| 0 <= k < all.len() implies (#[trigger] all[k]) != UNVERIFIED_TAG@
            && parts.contains(all[k]) by {
            if k < rest.len() {
                assert(all[k] == rest[k]);
                let i = choose|i: int| 0 <= i < front.len() && front[i] == rest[k];
                assert(parts[i] == all[k]);
            } else {
                assert(parts[parts.len() - 1] == all[k]);
            }
        }
    }
}

proof fn led_is_among(parts: Seq<Seq<char>>)
    ensures
        forall|k: int| 0 <= k < led(parts).len() ==> parts.contains(#[trigger] led(parts)[k]),
    decreases parts.len(),
{
    if parts.len() > 0 && parts[0].len() == 0 {
        let rest = parts.skip(1);
        led_is_among(rest);
        assert forall|k: int| 0 <= k < led(parts).len() implies parts.contains(
            #[trigger] led(parts)[k],
        ) by {
            let i = choose|i: int| 0 <= i < rest.len() && rest[i] == led(rest)[k];
            assert(parts[i + 1] == led(parts)[k]);
        }
    }
}

proof fn ended_is_among(parts: Seq<Seq<char>>)
    ensures
        forall|k: int| 0 <= k < ended(parts).len() ==> parts.contains(#[trigger] ended(parts)[k]),
    decreases parts.len(),
{
    if parts.len() > 0 && parts.last().len() == 0 {
        let rest = parts.drop_last();
        ended_is_among(rest);
        assert forall|k: int| 0 <= k < ended(parts).len() implies parts.contains(
            #[trigger] ended(parts)[k],
        ) by {
            let i = choose|i: int| 0 <= i < rest.len() && rest[i] == ended(rest)[k];
            assert(parts[i] == ended(parts)[k]);
        }
    }
}

/// Once a line has checked a record, none of its legs is unverified but those
/// on accounts no line vouched for, and those stay as they were.
pub proof fn a_checked_leg_is_verified(r: RecordV, v: VerificationV, i: int)
    requires
        0 <= i < r.legs.len(),
    ensures
        v.unchecked.contains(r.legs[i].account) ==> verified(r, v).legs[i] == r.legs[i],
        !v.unchecked.contains(r.legs[i].account) ==> !is_unverified(verified(r, v).legs[i].tags),
{
    let leg = r.legs[i];
    if !v.unchecked.contains(leg.account) && cleared(leg.tags) is Some {
        let parts = text::pieces(leg.tags->0, ',');
        let left = ended(led(other_tags(parts)));
        let others = other_tags(parts);
        led_is_among(others);
        ended_is_among(led(others));
        assert forall|k: int| 0 <= k < left.len() implies others.contains(#[trigger] left[k]) by {
            let o = choose|o: int| 0 <= o < led(others).len() && led(others)[o] == left[k];
            assert(led(others)[o] == left[k]);
        }
        text::pieces_are_free(leg.tags->0, ',');
        other_tags_are_others(parts);
        assert forall|k: int, j: int| 0 <= k < left.len() && 0 <= j < left[k].len() implies (
        #[trigger] left[k][j]) != ',' by {
            let o = choose|o: int| 0 <= o < others.len() && others[o] == left[k];
            assert(others[o] == left[k]);
            let m = choose|m: int| 0 <= m < parts.len() && parts[m] == others[o];
            assert(parts[m][j] != ',');
        }
        assert forall|k: int| 0 <= k < left.len() implies (#[trigger] left[k])
            != UNVERIFIED_TAG@ by {
            let o = choose|o: int| 0 <= o < others.len() && others[o] == left[k];
            assert(others[o] == left[k]);
        }
        text::pieces_of_joined(left, ',');
    }
}

/// The record keeps the refs it stood for, and stands for the line as well.
pub proof fn a_verified_record_keeps_its_refs(r: RecordV, v: VerificationV)
    ensures
        forall|s: Seq<char>| #[trigger] r.refs.contains(s) ==> verified(r, v).refs.contains(s),
        verified(r, v).refs.contains(v.statement_ref),
{
    let after = verified(r, v).refs;
    assert forall|s: Seq<char>| #[trigger] r.refs.contains(s) implies after.contains(s) by {
        let i = choose|i: int| 0 <= i < r.refs.len() && r.refs[i] == s;
        assert(after[i] == s);
    }
    assert(after[r.refs.len() as int] == v.statement_ref);
}

/// The legs of the transactions, each with the id of its own.
pub open spec fn legs_in(ts: Seq<TransactionV>) -> Seq<(int, LegV)>
    decreases ts.len(),
{
    if ts.len() == 0 {
        Seq::empty()
    } else {
        legs_in(ts.drop_last()) + ts.last().postings.map_values(|l: LegV| (ts.last().id, l))
    }
}

/// Every row is a leg of its own transaction, with its account, its amount and
/// its currency, in order.
pub proof fn every_row_is_a_leg(rows: Seq<HeldRowV>)
    requires
        transactions_in(rows) is Ok,
    ensures
        ({
            let legs = legs_in(transactions_in(rows)->Ok_0);
            &&& legs.len() == rows.len()
            &&& forall|i: int|
                0 <= i < rows.len() ==> (#[trigger] legs[i]).0 == rows[i].transaction_id
                    && legs[i].1.id == rows[i].posting_id && legs[i].1.account == rows[i].account
                    && amount::spelled(rows[i].amount) == Some(legs[i].1.amount)
                    && currency::of_code(rows[i].currency) == Some(legs[i].1.currency)
        }),
    decreases rows.len(),
{
    if rows.len() > 0 {
        let shorter = rows.drop_last();
        every_row_is_a_leg(shorter);
        let rest = transactions_in(shorter)->Ok_0;
        let now = transactions_in(rows)->Ok_0;
        let r = rows.last();
        let leg = leg_in(r)->Ok_0;
        let (before, after) = (legs_in(rest), legs_in(now));
        assert(after =~= before.push((r.transaction_id, leg))) by {
            if rest.len() > 0 && rest.last().id == r.transaction_id {
                assert(now.drop_last() =~= rest.drop_last());
                let t = rest.last();
                assert(now.last().postings == t.postings.push(leg));
                assert(now.last().postings.map_values(|l: LegV| (now.last().id, l))
                    =~= t.postings.map_values(|l: LegV| (t.id, l)).push((t.id, leg)));
            } else {
                assert(now.drop_last() =~= rest);
                assert(now.last().postings =~= seq![leg]);
            }
        }
        assert forall|i: int| 0 <= i < rows.len() implies (#[trigger] after[i]).0
            == rows[i].transaction_id && after[i].1.id == rows[i].posting_id
            && after[i].1.account == rows[i].account && amount::spelled(rows[i].amount) == Some(
            after[i].1.amount,
        ) && currency::of_code(rows[i].currency) == Some(after[i].1.currency) by {
            if i < shorter.len() {
                assert(after[i] == before[i]);
                assert(shorter[i] == rows[i]);
            }
        }
    }
}

/// A posting read of a row is what the row says: on the day and with the amount
/// it spells, under its ref first and then the others it stands for.
pub proof fn a_posting_is_what_its_row_says(r: Row)
    requires
        posting_in(r) is Ok,
    ensures
        ({
            let p = posting_in(r)->Ok_0;
            &&& date::read(r.date@) == Some(p.date)
            &&& amount::spelled(r.amount@) == Some(p.amount)
            &&& r.external_ref matches Some(s) ==> p.refs.len() > 0 && p.refs[0] == s@
                && p.refs.skip(1) == parts(text::opt(r.aliases))
            &&& r.external_ref is None ==> p.refs == parts(text::opt(r.aliases))
            &&& p.other_accounts == parts(text::opt(r.others))
            &&& p.opening == r.opening
            &&& p.unverified == r.unverified
            &&& p.transaction_id == r.transaction_id
        }),
{
    let p = posting_in(r)->Ok_0;
    let rest = parts(text::opt(r.aliases));
    match r.external_ref {
        Some(s) => {
            assert((seq![s@] + rest).skip(1) =~= rest);
        },
        None => {
            assert(Seq::<Seq<char>>::empty() + rest =~= rest);
        },
    }
}

/// A record that a line checks moves to the line's day, where it gives one, and
/// keeps its legs on their accounts.
pub proof fn a_verified_record_moves_to_its_day(r: RecordV, v: VerificationV)
    ensures
        v.date matches Some(day) ==> verified(r, v).date == day,
        v.date is None ==> verified(r, v).date == r.date,
        verified(r, v).legs.len() == r.legs.len(),
        forall|i: int|
            0 <= i < r.legs.len() ==> (#[trigger] verified(r, v).legs[i]).id == r.legs[i].id
                && verified(r, v).legs[i].account == r.legs[i].account,
{
}

/// What is added stands last, behind what was said before.
pub proof fn what_is_added_stands_last(narration: Option<Seq<char>>, more: Seq<char>)
    requires
        narrated(narration, more) is Some,
    ensures
        text::ends(narrated(narration, more)->0, more),
        said(narration).len() == 0 ==> narrated(narration, more) == Some(more),
        said(narration).len() > 0 ==> narrated(narration, more)->0.len() == said(narration).len()
            + BESIDE@.len() + more.len(),
{
    let now = narrated(narration, more)->0;
    assert(now.subrange(now.len() - more.len(), now.len() as int) =~= more);
}

} // verus!
