//! 天天記帳 exports made after the freeze: the records newer than the frozen
//! history, booked as freeze books them and gated like any import.
//!
//! A record on a statement account never adds a second copy of a bank line.
//! It relabels the uncategorised line already imported for it. If the
//! statements don't reach its day yet, it books tagged unverified, and the
//! next statement verifies it in place. A record the statements should
//! explain but don't stops the import.

use vstd::prelude::*;

use crate::accounts::Chart;
use crate::amount;
use crate::assertion;
use crate::assertion::{AssertionV, BalanceAssertion};
use crate::corrected::{Frozen, FrozenV};
use crate::currency::Currency;
use crate::daily;
use crate::daily::{Entry, EntryV};
use crate::date;
use crate::date::Date;
use crate::db::check;
use crate::db::check::CheckReport;
use crate::db::import_batch::{HeldTransaction, TransactionV as HeldV};
use crate::import::fates;
use crate::import::fates::{Fate, FateV};
use crate::interim;
use crate::interim::{Booked, BookedV, Booking, BookingV, Draft, DraftV, LegV, StatementLeg};
use crate::model;
use crate::model::{Posting, PostingV, Transaction, TransactionV};
use crate::refusal::Refusal;
use crate::sort;
use crate::text;

verus! {

/// What these imports are recorded as.
pub const SOURCE: &'static str = "tiantian";

#[derive(Clone, Copy, Debug, PartialEq, Eq)]
pub struct Counts {
    pub records: usize,
    /// Named in the frozen records.
    pub frozen: usize,
    /// Dated within the frozen history but not in it: entered late.
    pub late: usize,
    pub known: usize,
    /// New, but zero on both sides.
    pub empty: usize,
    /// Booked as written: no statement account.
    pub standalone: usize,
    /// On a statement account, waiting for its line.
    pub unverified: usize,
    /// Relabelled the uncategorised line already imported for it.
    pub paired: usize,
    /// Between two statement accounts, whose statements book it.
    pub left_to_statements: usize,
}

/// Where the records came from.
#[derive(Clone, Copy, Debug)]
pub struct Files<'a> {
    pub income_expense: &'a str,
    pub transfers: &'a str,
}

impl<'a> Files<'a> {
    /// The file a record came from.
    pub fn of(&self, transfer: bool) -> (r: &'a str)
        ensures
            r == (if transfer {
                self.transfers
            } else {
                self.income_expense
            }),
    {
        if transfer {
            self.transfers
        } else {
            self.income_expense
        }
    }
}

/// What a record is to the ledger.
#[derive(Clone, Copy, PartialEq, Eq, Structural, Debug)]
pub enum Standing {
    /// Named in the frozen records.
    Frozen,
    /// Dated within the frozen history but not in it.
    Late,
    /// Held already.
    Known,
    Fresh,
}

/// What a record is to the ledger, whose refs are `known`.
pub open spec fn standing_of(e: EntryV, frozen: FrozenV, known: Seq<Seq<char>>) -> Standing {
    let id = daily::id_of(e);
    if frozen.ids.contains(id) {
        Standing::Frozen
    } else if frozen.through matches Some(d) && daily::day_of(e) <= d {
        Standing::Late
    } else if known.contains(interim::ref_of(id)) || known.contains(id) {
        Standing::Known
    } else {
        Standing::Fresh
    }
}

fn is_among(list: &Vec<String>, key: &str) -> (r: bool)
    ensures
        r == text::texts(list@).contains(key@),
{
    let ghost all = text::texts(list@);
    let mut i: usize = 0;
    while i < list.len()
        invariant
            i <= list@.len(),
            all == text::texts(list@),
            forall|k: int| 0 <= k < i ==> #[trigger] all[k] != key@,
        decreases list@.len() - i,
    {
        assert(all[i as int] == list@[i as int]@);
        if text::same_text(list[i].as_str(), key) {
            return true;
        }
        i = i + 1;
    }
    false
}

/// What a record is to the ledger, whose refs are `known`.
pub fn standing(e: &Entry, frozen: &Frozen, known: &Vec<String>) -> (r: Standing)
    ensures
        r == standing_of(e@, frozen@, text::texts(known@)),
{
    let id = e.id();
    if is_among(&frozen.ids, id.as_str()) {
        return Standing::Frozen;
    }
    let late = match &frozen.through {
        Some(d) => e.date().number() <= d.number(),
        None => false,
    };
    if late {
        return Standing::Late;
    }
    if is_among(known, interim::external_ref(id.as_str()).as_str()) || is_among(
        known,
        id.as_str(),
    ) {
        Standing::Known
    } else {
        Standing::Fresh
    }
}

/// The records apart, each by what it is to the ledger.
#[derive(Debug)]
pub struct Apart {
    pub frozen: usize,
    /// The late ones, by id and date.
    pub late: Vec<(String, Date)>,
    pub known: usize,
    /// Where the fresh ones stand.
    pub fresh: Vec<usize>,
}

#[verifier::ext_equal]
pub struct ApartV {
    pub frozen: int,
    pub late: Seq<(Seq<char>, int)>,
    pub known: int,
    pub fresh: Seq<int>,
}

pub open spec fn late_views(v: Seq<(String, Date)>) -> Seq<(Seq<char>, int)> {
    v.map_values(|l: (String, Date)| (l.0@, l.1@))
}

impl View for Apart {
    type V = ApartV;

    open spec fn view(&self) -> ApartV {
        ApartV {
            frozen: self.frozen as int,
            late: late_views(self.late@),
            known: self.known as int,
            fresh: sort::places(self.fresh@),
        }
    }
}

/// The records apart, each by what it is to the ledger.
pub open spec fn apart(entries: Seq<EntryV>, frozen: FrozenV, known: Seq<Seq<char>>) -> ApartV
    decreases entries.len(),
{
    if entries.len() == 0 {
        ApartV { frozen: 0, late: Seq::empty(), known: 0, fresh: Seq::empty() }
    } else {
        let rest = apart(entries.drop_last(), frozen, known);
        let e = entries.last();
        match standing_of(e, frozen, known) {
            Standing::Frozen => ApartV { frozen: rest.frozen + 1, ..rest },
            Standing::Late => ApartV {
                late: rest.late.push((daily::id_of(e), daily::day_of(e))),
                ..rest
            },
            Standing::Known => ApartV { known: rest.known + 1, ..rest },
            Standing::Fresh => ApartV { fresh: rest.fresh.push(entries.len() - 1), ..rest },
        }
    }
}

/// Every record is frozen, late, held already or fresh, and one of them only.
pub proof fn every_record_stands_once(entries: Seq<EntryV>, frozen: FrozenV, known: Seq<Seq<char>>)
    ensures
        ({
            let a = apart(entries, frozen, known);
            &&& a.frozen >= 0
            &&& a.known >= 0
            &&& a.frozen + a.late.len() + a.known + a.fresh.len() == entries.len()
        }),
    decreases entries.len(),
{
    if entries.len() > 0 {
        every_record_stands_once(entries.drop_last(), frozen, known);
    }
}

/// What is held is not imported again: a record whose ref the ledger holds is
/// not fresh.
pub proof fn a_held_record_is_not_fresh(
    entries: Seq<EntryV>,
    frozen: FrozenV,
    known: Seq<Seq<char>>,
    k: int,
)
    requires
        0 <= k < apart(entries, frozen, known).fresh.len(),
    ensures
        ({
            let i = apart(entries, frozen, known).fresh[k];
            &&& 0 <= i < entries.len()
            &&& !known.contains(interim::ref_of(daily::id_of(entries[i])))
            &&& !frozen.ids.contains(daily::id_of(entries[i]))
            &&& frozen.through matches Some(d) ==> daily::day_of(entries[i]) > d
        }),
    decreases entries.len(),
{
    let rest = apart(entries.drop_last(), frozen, known).fresh;
    if k < rest.len() {
        a_held_record_is_not_fresh(entries.drop_last(), frozen, known, k);
    }
}

/// Tells the records apart, each by what it is to the ledger.
pub fn sort_records(entries: &Vec<Entry>, frozen: &Frozen, known: &Vec<String>) -> (r: Apart)
    ensures
        r@ == apart(daily::entry_views(entries@), frozen@, text::texts(known@)),
        forall|i: int| 0 <= i < r.fresh@.len() ==> (#[trigger] r.fresh@[i]) < entries@.len(),
{
    let ghost all = daily::entry_views(entries@);
    let ghost refs = text::texts(known@);
    let mut out = Apart { frozen: 0, late: Vec::new(), known: 0, fresh: Vec::new() };
    let mut i: usize = 0;
    assert(late_views(out.late@) =~= Seq::empty());
    assert(sort::places(out.fresh@) =~= Seq::empty());
    while i < entries.len()
        invariant
            i <= entries@.len(),
            out.frozen <= i,
            out.known <= i,
            all == daily::entry_views(entries@),
            refs == text::texts(known@),
            out@ == apart(all.take(i as int), frozen@, refs),
            forall|k: int| 0 <= k < out.fresh@.len() ==> (#[trigger] out.fresh@[k]) < i,
        decreases entries@.len() - i,
    {
        let e = &entries[i];
        let ghost before = out@;
        let ghost (was_late, was_fresh) = (out.late@, out.fresh@);
        assert(all[i as int] == e@);
        assert(all.take(i as int + 1).drop_last() =~= all.take(i as int));
        match standing(e, frozen, known) {
            Standing::Frozen => {
                out.frozen = out.frozen + 1;
            },
            Standing::Late => {
                out.late.push((text::copy(e.id().as_str()), e.date()));
                assert(late_views(out.late@) =~= late_views(was_late).push(
                    (daily::id_of(e@), daily::day_of(e@)),
                ));
            },
            Standing::Known => {
                out.known = out.known + 1;
            },
            Standing::Fresh => {
                out.fresh.push(i);
                assert(sort::places(out.fresh@) =~= sort::places(was_fresh).push(i as int));
            },
        }
        assert(out@ == apart(all.take(i as int + 1), frozen@, refs));
        i = i + 1;
    }
    assert(all.take(i as int) =~= all);
    out
}

/// A leg's tags: its own, then its transaction's.
pub open spec fn leg_tags(own: Option<Seq<char>>, tags: Seq<Seq<char>>) -> Option<Seq<char>> {
    let all = match own {
        Some(t) => seq![t] + tags,
        None => tags,
    };
    if all.len() == 0 {
        None
    } else {
        Some(text::joined(all, ","@))
    }
}

/// The leg as it is written, its transaction's tags on it.
pub open spec fn row_leg(p: PostingV, tags: Seq<Seq<char>>) -> PostingV {
    PostingV { tags: leg_tags(p.tags, tags), ..p }
}

/// The legs as they are written.
pub open spec fn row_legs(t: DraftV) -> Seq<PostingV> {
    t.postings.map_values(|p: PostingV| row_leg(p, t.tags))
}

/// A text, unless it is empty.
pub open spec fn unless_empty(s: Seq<char>) -> Option<Seq<char>> {
    if s.len() == 0 {
        None
    } else {
        Some(s)
    }
}

/// The row of a record, as an import.
pub open spec fn row_of(t: DraftV, batch: Option<i64>) -> TransactionV {
    TransactionV {
        date: t.date,
        payee: unless_empty(t.payee),
        narration: unless_empty(t.narration),
        source: t.source,
        external_ref: t.external_ref,
        import_batch_id: batch,
        postings: row_legs(t),
    }
}

fn join_tags(own: Option<String>, tags: &Vec<String>) -> (r: Option<String>)
    ensures
        text::opt(r) == leg_tags(text::opt(own), text::texts(tags@)),
{
    let ghost all = text::texts(tags@);
    assert(all.len() == tags@.len());
    let rest = text::join_all(tags, ",");
    match own {
        None => if tags.len() == 0 {
            None
        } else {
            Some(rest)
        },
        Some(t) => {
            let mut parts: Vec<String> = Vec::new();
            let ghost first = t@;
            parts.push(t);
            let mut i: usize = 0;
            assert(text::texts(parts@) =~= seq![first] + all.take(0));
            while i < tags.len()
                invariant
                    i <= tags@.len(),
                    all == text::texts(tags@),
                    text::texts(parts@) == seq![first] + all.take(i as int),
                decreases tags@.len() - i,
            {
                let ghost before = parts@;
                parts.push(text::copy(tags[i].as_str()));
                assert(all[i as int] == tags@[i as int]@);
                assert(text::texts(parts@) =~= text::texts(before).push(all[i as int]));
                assert(text::texts(parts@) =~= seq![first] + all.take(i as int + 1));
                i = i + 1;
            }
            assert(seq![first] + all.take(i as int) =~= seq![first] + all);
            Some(text::join_all(&parts, ","))
        },
    }
}

fn write_legs(postings: Vec<Posting>, tags: &Vec<String>) -> (r: Vec<Posting>)
    ensures
        model::posting_views(r@) == model::posting_views(postings@).map_values(
            |p: PostingV| row_leg(p, text::texts(tags@)),
        ),
{
    let ghost given = postings@;
    let ghost all = model::posting_views(given);
    let mut rest = postings;
    let mut out: Vec<Posting> = Vec::new();
    assert(rest@ =~= given.skip(0));
    while rest.len() > 0
        invariant
            out@.len() + rest@.len() == given.len(),
            rest@ == given.skip(out@.len() as int),
            all == model::posting_views(given),
            forall|k: int|
                0 <= k < out@.len() ==> (#[trigger] out@[k])@ == row_leg(
                    all[k],
                    text::texts(tags@),
                ),
        decreases rest@.len(),
    {
        let ghost n = out@.len() as int;
        let p = rest.remove(0);
        assert(p == given[n]);
        assert(all[n] == p@);
        out.push(
            Posting {
                account: p.account,
                amount: p.amount,
                currency: p.currency,
                tags: join_tags(p.tags, tags),
            },
        );
        assert(rest@ =~= given.skip(n + 1));
    }
    assert(model::posting_views(out@) =~= all.map_values(
        |p: PostingV| row_leg(p, text::texts(tags@)),
    ));
    out
}

fn if_any(s: String) -> (r: Option<String>)
    ensures
        text::opt(r) == unless_empty(s@),
{
    if s.as_str().unicode_len() == 0 {
        None
    } else {
        Some(s)
    }
}

/// The row of a record, as an import.
pub fn to_row(transaction: Draft, import_batch_id: Option<i64>) -> (r: Transaction)
    ensures
        r@ == row_of(transaction@, import_batch_id),
{
    let t = transaction;
    Transaction {
        date: t.date,
        payee: if_any(t.payee),
        narration: if_any(t.narration),
        source: t.source,
        external_ref: t.external_ref,
        import_batch_id,
        postings: write_legs(t.postings, &t.tags),
    }
}

/// Is a leg a record's statement leg?
pub open spec fn is_own(p: PostingV, leg: LegV) -> bool {
    p.account == leg.account && amount::equal(p.amount, leg.amount) && p.currency == leg.currency
}

/// Where a record's statement leg is, from `from` on.
pub open spec fn own_at(legs: Seq<PostingV>, leg: LegV, from: int) -> Option<int>
    decreases legs.len() - from,
{
    if from < 0 || from >= legs.len() {
        None
    } else if is_own(legs[from], leg) {
        Some(from)
    } else {
        own_at(legs, leg, from + 1)
    }
}

/// The legs other than the statement leg: what replaces a line's fallback.
pub open spec fn far_of(t: DraftV, leg: LegV) -> Result<Seq<PostingV>, Seq<char>> {
    let legs = row_legs(t);
    match own_at(legs, leg, 0) {
        None => Err("a record without its statement leg"@),
        Some(i) => Ok(legs.remove(i)),
    }
}

/// The record's legs other than its statement leg: what replaces a line's
/// fallback.
pub fn far_legs(transaction: Draft, leg: &StatementLeg) -> (r: Result<Vec<Posting>, Refusal>)
    ensures
        match r {
            Ok(v) => far_of(transaction@, leg@) == Ok::<Seq<PostingV>, Seq<char>>(
                model::posting_views(v@),
            ),
            Err(e) => far_of(transaction@, leg@) == Err::<Seq<PostingV>, Seq<char>>(e@),
        },
{
    let mut legs = to_row(transaction, None).postings;
    let ghost all = model::posting_views(legs@);
    let mut i: usize = 0;
    while i < legs.len()
        invariant
            i <= legs@.len(),
            all == model::posting_views(legs@),
            all == row_legs(transaction@),
            own_at(all, leg@, 0) == own_at(all, leg@, i as int),
        decreases legs@.len() - i,
    {
        let p = &legs[i];
        assert(all[i as int] == p@);
        if text::same_text(p.account.as_str(), leg.account.as_str()) && p.amount.equals(
            &leg.amount,
        ) && p.currency == leg.currency {
            legs.remove(i);
            assert(model::posting_views(legs@) =~= all.remove(i as int));
            return Ok(legs);
        }
        i = i + 1;
    }
    Err(Refusal { message: text::copy("a record without its statement leg") })
}

proof fn net_without(legs: Seq<PostingV>, c: Currency, i: int)
    requires
        0 <= i < legs.len(),
    ensures
        model::net(legs.remove(i), c) == model::net(legs, c) - (if legs[i].currency == c {
            amount::worth(legs[i].amount)
        } else {
            0
        }),
    decreases legs.len(),
{
    if i == legs.len() - 1 {
        assert(legs.remove(i) =~= legs.drop_last());
    } else {
        net_without(legs.drop_last(), c, i);
        assert(legs.remove(i).drop_last() =~= legs.drop_last().remove(i));
        assert(legs.remove(i).last() == legs.last());
    }
}

proof fn tags_move_nothing(legs: Seq<PostingV>, tags: Seq<Seq<char>>, c: Currency)
    ensures
        model::net(legs.map_values(|p: PostingV| row_leg(p, tags)), c) == model::net(legs, c),
    decreases legs.len(),
{
    let tagged = legs.map_values(|p: PostingV| row_leg(p, tags));
    if legs.len() > 0 {
        tags_move_nothing(legs.drop_last(), tags, c);
        assert(tagged.drop_last() =~= legs.drop_last().map_values(
            |p: PostingV| row_leg(p, tags),
        ));
    }
}

proof fn own_is_there(legs: Seq<PostingV>, leg: LegV, from: int)
    requires
        0 <= from,
    ensures
        own_at(legs, leg, from) matches Some(i) ==> from <= i < legs.len() && is_own(legs[i], leg),
    decreases legs.len() - from,
{
    if from < legs.len() && !is_own(legs[from], leg) {
        own_is_there(legs, leg, from + 1);
    }
}

/// A relabelled line stays level: where the record's legs are level, those put
/// in place of the line's fallback move what its statement leg moves, the other
/// way.
pub proof fn far_legs_make_up_the_leg(t: DraftV, leg: LegV, c: Currency)
    requires
        model::net(t.postings, c) == 0,
        far_of(t, leg) is Ok,
    ensures
        model::net(far_of(t, leg)->Ok_0, c) == (if leg.currency == c {
            -amount::worth(leg.amount)
        } else {
            0
        }),
{
    let legs = row_legs(t);
    own_is_there(legs, leg, 0);
    tags_move_nothing(t.postings, t.tags, c);
    net_without(legs, c, own_at(legs, leg, 0)->0);
}

/// What the import of a record writes.
#[derive(Debug)]
pub enum Action {
    /// A transaction of its own, from the 轉帳 export or from 收支.
    Insert { transfer: bool, transaction: Transaction },
    /// The line's fallback gives way to the legs, which say where they came
    /// from, and the line takes the record's ref and has its memo put beside
    /// what it narrates.
    Relabel {
        transaction_id: i64,
        fallback_posting: i64,
        external_ref: String,
        memo: String,
        origin: String,
        legs: Vec<Posting>,
    },
}

#[verifier::ext_equal]
pub enum ActionV {
    Insert { transfer: bool, transaction: TransactionV },
    Relabel {
        transaction_id: int,
        fallback_posting: int,
        external_ref: Seq<char>,
        memo: Seq<char>,
        origin: Seq<char>,
        legs: Seq<PostingV>,
    },
}

impl View for Action {
    type V = ActionV;

    open spec fn view(&self) -> ActionV {
        match self {
            Action::Insert { transfer, transaction } => ActionV::Insert {
                transfer: *transfer,
                transaction: transaction@,
            },
            Action::Relabel {
                transaction_id,
                fallback_posting,
                external_ref,
                memo,
                origin,
                legs,
            } => {
                ActionV::Relabel {
                    transaction_id: *transaction_id as int,
                    fallback_posting: *fallback_posting as int,
                    external_ref: external_ref@,
                    memo: memo@,
                    origin: origin@,
                    legs: model::posting_views(legs@),
                }
            },
        }
    }
}

pub open spec fn action_views(v: Seq<Action>) -> Seq<ActionV> {
    v.map_values(|a: Action| a@)
}

/// The record on the day it waits on, tagged unverified.
pub open spec fn waiting(t: DraftV, day: int) -> DraftV {
    DraftV { tags: t.tags.push(model::UNVERIFIED_TAG@), date: day, ..t }
}

/// What the import of a record writes, given what becomes of it where it is on
/// a statement account.
pub open spec fn action_of(b: BookedV, fate: Option<FateV>) -> Result<Option<ActionV>, Seq<char>> {
    match b.booking {
        BookingV::LeftToStatements => Ok(None),
        BookingV::Standalone(t) => Ok(
            Some(ActionV::Insert { transfer: b.transfer, transaction: row_of(t, None) }),
        ),
        BookingV::OnStatement { leg, transaction } => match fate->0 {
            FateV::Pairs { transaction_id, fallback_posting } => match far_of(transaction, leg) {
                Err(e) => Err(e),
                Ok(legs) => Ok(
                    Some(
                        ActionV::Relabel {
                            transaction_id,
                            fallback_posting,
                            external_ref: transaction.external_ref->0,
                            memo: b.memo,
                            origin: SOURCE@,
                            legs,
                        },
                    ),
                ),
            },
            FateV::Waits(day) => Ok(
                Some(
                    ActionV::Insert {
                        transfer: b.transfer,
                        transaction: row_of(waiting(transaction, day), None),
                    },
                ),
            ),
        },
    }
}

/// Does a record on a statement account have its ref and its fate?
pub open spec fn is_decided(b: BookedV, fate: Option<FateV>) -> bool {
    match b.booking {
        BookingV::OnStatement { transaction, .. } => fate is Some && transaction.external_ref is Some,
        _ => true,
    }
}

/// What the import of a record writes.
pub fn act(b: Booked, fate: Option<Fate>) -> (r: Result<Option<Action>, Refusal>)
    requires
        is_decided(
            b@,
            match fate {
                Some(f) => Some(f@),
                None => None,
            },
        ),
    ensures
        ({
            let given = match fate {
                Some(f) => Some(f@),
                None => None,
            };
            match r {
                Ok(Some(a)) => action_of(b@, given) == Ok::<Option<ActionV>, Seq<char>>(Some(a@)),
                Ok(None) => action_of(b@, given) == Ok::<Option<ActionV>, Seq<char>>(None),
                Err(e) => action_of(b@, given) == Err::<Option<ActionV>, Seq<char>>(e@),
            }
        }),
{
    let Booked { transfer, memo, booking, .. } = b;
    match booking {
        Booking::LeftToStatements => Ok(None),
        Booking::Standalone(t) => Ok(
            Some(Action::Insert { transfer, transaction: to_row(t, None) }),
        ),
        Booking::OnStatement { leg, transaction } => match fate.unwrap() {
            Fate::Pairs { transaction_id, fallback_posting } => {
                let external_ref = match &transaction.external_ref {
                    Some(s) => text::copy(s.as_str()),
                    None => text::copy(""),
                };
                let legs = far_legs(transaction, &leg)?;
                Ok(
                    Some(
                        Action::Relabel {
                            transaction_id,
                            fallback_posting,
                            external_ref,
                            memo,
                            origin: text::copy(SOURCE),
                            legs,
                        },
                    ),
                )
            },
            Fate::Waits(day) => {
                let ghost t = transaction@;
                let Draft { payee, narration, mut tags, source, external_ref, postings, .. } =
                    transaction;
                let ghost before = tags@;
                tags.push(text::copy(model::UNVERIFIED_TAG));
                assert(text::texts(tags@) =~= text::texts(before).push(model::UNVERIFIED_TAG@));
                let held = Draft {
                    date: day,
                    payee,
                    narration,
                    tags,
                    source,
                    external_ref,
                    postings,
                };
                assert(held@ == waiting(t, day@));
                Ok(Some(Action::Insert { transfer, transaction: to_row(held, None) }))
            },
        },
    }
}

/// The days through which records were inserted or paired, one more with them.
pub open spec fn widened(span: Option<(int, int)>, day: int) -> Option<(int, int)> {
    match span {
        None => Some((day, day)),
        Some((a, b)) => Some(
            (
                if day < a {
                    day
                } else {
                    a
                },
                if day > b {
                    day
                } else {
                    b
                },
            ),
        ),
    }
}

/// What an import does with the records.
#[derive(Debug)]
pub struct Done {
    pub standalone: usize,
    pub unverified: usize,
    pub paired: usize,
    pub left_to_statements: usize,
    /// First and last day of what was inserted or paired.
    pub span: Option<(Date, Date)>,
    pub actions: Vec<Action>,
}

#[verifier::ext_equal]
pub struct DoneV {
    pub standalone: int,
    pub unverified: int,
    pub paired: int,
    pub left_to_statements: int,
    pub span: Option<(int, int)>,
    pub actions: Seq<ActionV>,
}

pub open spec fn span_view(s: Option<(Date, Date)>) -> Option<(int, int)> {
    match s {
        Some(p) => Some((p.0@, p.1@)),
        None => None,
    }
}

impl View for Done {
    type V = DoneV;

    open spec fn view(&self) -> DoneV {
        DoneV {
            standalone: self.standalone as int,
            unverified: self.unverified as int,
            paired: self.paired as int,
            left_to_statements: self.left_to_statements as int,
            span: span_view(self.span),
            actions: action_views(self.actions@),
        }
    }
}

/// What has been done, and a record more.
pub open spec fn done_with(d: DoneV, b: BookedV, fate: Option<FateV>, action: Option<ActionV>) -> DoneV {
    let counted = match b.booking {
        BookingV::LeftToStatements => DoneV { left_to_statements: d.left_to_statements + 1, ..d },
        BookingV::Standalone(_) => DoneV { standalone: d.standalone + 1, ..d },
        BookingV::OnStatement { .. } => match fate->0 {
            FateV::Pairs { .. } => DoneV { paired: d.paired + 1, ..d },
            FateV::Waits(_) => DoneV { unverified: d.unverified + 1, ..d },
        },
    };
    match action {
        None => counted,
        Some(a) => DoneV {
            span: widened(counted.span, b.date),
            actions: counted.actions.push(a),
            ..counted
        },
    }
}

/// What an import does with the first `n` records.
pub open spec fn done(records: Seq<BookedV>, fates: Seq<(int, FateV)>, n: int) -> Result<
    DoneV,
    Seq<char>,
>
    decreases n,
{
    if n <= 0 {
        Ok(
            DoneV {
                standalone: 0,
                unverified: 0,
                paired: 0,
                left_to_statements: 0,
                span: None,
                actions: Seq::empty(),
            },
        )
    } else {
        match done(records, fates, n - 1) {
            Err(e) => Err(e),
            Ok(d) => {
                let b = records[n - 1];
                let fate = fates::fate_at(fates, n - 1, 0);
                match action_of(b, fate) {
                    Err(e) => Err(e),
                    Ok(a) => Ok(done_with(d, b, fate, a)),
                }
            },
        }
    }
}

proof fn refused_records_stay(records: Seq<BookedV>, fates: Seq<(int, FateV)>, n: int, all: int)
    requires
        n <= all,
        done(records, fates, n) is Err,
    ensures
        done(records, fates, all) == done(records, fates, n),
    decreases all - n,
{
    if n < all {
        refused_records_stay(records, fates, n, all - 1);
    }
}

/// Is every record decided?
pub open spec fn all_decided(records: Seq<BookedV>, fates: Seq<(int, FateV)>) -> bool {
    forall|i: int|
        0 <= i < records.len() ==> is_decided(
            #[trigger] records[i],
            fates::fate_at(fates, i, 0),
        )
}

/// Decides what an import does with the records, given what becomes of those
/// on statement accounts.
pub fn carry_out(records: Vec<Booked>, fates: &Vec<(usize, Fate)>) -> (r: Result<Done, Refusal>)
    requires
        all_decided(interim::booked_views(records@), fates::fate_views(fates@)),
    ensures
        match r {
            Ok(d) => done(
                interim::booked_views(records@),
                fates::fate_views(fates@),
                records@.len() as int,
            ) == Ok::<DoneV, Seq<char>>(d@),
            Err(e) => done(
                interim::booked_views(records@),
                fates::fate_views(fates@),
                records@.len() as int,
            ) == Err::<DoneV, Seq<char>>(e@),
        },
{
    let ghost given = records@;
    let ghost all = interim::booked_views(given);
    let ghost fs = fates::fate_views(fates@);
    let n: usize = records.len();
    let mut rest = records;
    let mut out = Done {
        standalone: 0,
        unverified: 0,
        paired: 0,
        left_to_statements: 0,
        span: None,
        actions: Vec::new(),
    };
    let mut i: usize = 0;
    assert(rest@ =~= given.skip(0));
    assert(action_views(out.actions@) =~= Seq::empty());
    while i < n
        invariant
            i <= n,
            n == given.len(),
            given == records@,
            rest@ == given.skip(i as int),
            all == interim::booked_views(given),
            fs == fates::fate_views(fates@),
            all_decided(all, fs),
            out.standalone <= i,
            out.unverified <= i,
            out.paired <= i,
            out.left_to_statements <= i,
            done(all, fs, i as int) == Ok::<DoneV, Seq<char>>(out@),
        decreases n - i,
    {
        let b = rest.remove(0);
        assert(b == given[i as int]);
        assert(all[i as int] == b@);
        assert(rest@ =~= given.skip(i as int + 1));
        let ghost was = out@;
        let ghost taken = out.actions@;
        let ghost bv = b@;
        let day = b.date;
        let fate = fates::fate_of(fates, i);
        let ghost f = fates::fate_at(fs, i as int, 0);
        match &b.booking {
            Booking::LeftToStatements => {
                out.left_to_statements = out.left_to_statements + 1;
            },
            Booking::Standalone(_) => {
                out.standalone = out.standalone + 1;
            },
            Booking::OnStatement { .. } => match fate.unwrap() {
                Fate::Pairs { .. } => {
                    out.paired = out.paired + 1;
                },
                Fate::Waits(_) => {
                    out.unverified = out.unverified + 1;
                },
            },
        }
        match act(b, fate) {
            Err(e) => {
                proof {
                    refused_records_stay(all, fs, i as int + 1, n as int);
                }
                return Err(e);
            },
            Ok(None) => {
                assert(out@ == done_with(was, bv, f, None));
            },
            Ok(Some(a)) => {
                let ghost av = a@;
                out.actions.push(a);
                assert(action_views(out.actions@) =~= action_views(taken).push(av));
                out.span = Some(
                    match out.span {
                        None => (day, day),
                        Some((first, last)) => (
                            if day.number() < first.number() {
                                day
                            } else {
                                first
                            },
                            if day.number() > last.number() {
                                day
                            } else {
                                last
                            },
                        ),
                    },
                );
                assert(out@ == done_with(was, bv, f, Some(av)));
            },
        }
        i = i + 1;
    }
    Ok(out)
}

/// Are the records on statement accounts written under a ref?
pub open spec fn all_referred(records: Seq<BookedV>) -> bool {
    forall|i: int|
        0 <= i < records.len() && fates::leg_of(#[trigger] records[i]) is Some
            ==> interim::written_ref(records[i].booking) is Some
}

/// What an import does with the records.
pub open spec fn imported(
    chart: Chart,
    records: Seq<BookedV>,
    held: Seq<Seq<HeldV>>,
    recorded: Seq<AssertionV>,
) -> Result<DoneV, Seq<char>> {
    match fates::fates(
        chart,
        records,
        fates::values(fates::places(records)),
        held,
        recorded,
    ) {
        Err(e) => Err(e),
        Ok(fs) => done(records, fs, records.len() as int),
    }
}

/// Decides what an import does with the records. `held` are the transactions
/// held at each place a record is on, as [`fates::places_of`] lists them.
pub fn import(
    chart: &Chart,
    records: Vec<Booked>,
    held: &Vec<Vec<HeldTransaction>>,
    recorded: &Vec<BalanceAssertion>,
) -> (r: Result<Done, Refusal>)
    requires
        all_referred(interim::booked_views(records@)),
        held@.len() == fates::places(interim::booked_views(records@)).len(),
        fates::ends_in_time(assertion::views(recorded@)),
    ensures
        match r {
            Ok(d) => imported(
                *chart,
                interim::booked_views(records@),
                fates::held_views(held@),
                assertion::views(recorded@),
            ) == Ok::<DoneV, Seq<char>>(d@),
            Err(e) => imported(
                *chart,
                interim::booked_views(records@),
                fates::held_views(held@),
                assertion::views(recorded@),
            ) == Err::<DoneV, Seq<char>>(e@),
        },
{
    let ghost all = interim::booked_views(records@);
    let places = fates::places_of(&records);
    assert(fates::place_views(places@).len() == places@.len());
    let fs = fates::settle(chart, &records, &places, held, recorded)?;
    proof {
        assert forall|i: int| 0 <= i < all.len() implies is_decided(
            #[trigger] all[i],
            fates::fate_at(fates::fate_views(fs@), i, 0),
        ) by {
            if fates::leg_of(all[i]) is Some {
                fates::every_statement_record_has_a_fate(
                    *chart,
                    all,
                    fates::held_views(held@),
                    assertion::views(recorded@),
                    i,
                );
            }
        }
    }
    carry_out(records, &fs)
}

#[derive(Debug)]
pub struct Report {
    pub counts: Counts,
    /// The records entered late, by id and date.
    pub late: Vec<(String, Date)>,
    pub frozen_through: Option<Date>,
    /// First and last day of what was inserted or paired.
    pub span: Option<(Date, Date)>,
    pub unmapped: Vec<String>,
    pub check: CheckReport,
}

/// The late records, each on a line.
pub open spec fn late_text(late: Seq<(Seq<char>, int)>) -> Seq<char>
    decreases late.len(),
{
    if late.len() == 0 {
        Seq::empty()
    } else {
        late_text(late.drop_last()) + "    "@ + late.last().0 + " "@ + date::printed(late.last().1)
            + "\n"@
    }
}

pub open spec fn day_text(d: Option<int>) -> Seq<char> {
    match d {
        Some(d) => date::printed(d),
        None => Seq::empty(),
    }
}

/// How the counts read.
pub open spec fn counts_text(
    c: Counts,
    through: Option<int>,
    late: Seq<(Seq<char>, int)>,
) -> Seq<char> {
    "imported 天天記帳 records: "@ + text::digits(c.records as nat) + " in the exports\n  "@
        + text::digits(c.frozen as nat) + " frozen, "@ + text::digits(c.late as nat)
        + " late (dated through "@ + day_text(through) + "), not imported\n"@ + late_text(late)
        + "  "@ + text::digits(c.known as nat) + " already held, "@ + text::digits(c.empty as nat)
        + " moving nothing\n  "@ + text::digits((c.standalone + c.unverified) as nat)
        + " inserted: "@ + text::digits(c.standalone as nat) + " as written, "@ + text::digits(
        c.unverified as nat,
    ) + " unverified on statement accounts\n  "@ + text::digits(c.paired as nat)
        + " paired with bank lines already imported\n  "@ + text::digits(
        c.left_to_statements as nat,
    ) + " transfers between statement accounts, left to them\n"@
}

/// How the days and the unmapped labels read.
pub open spec fn rest_text(span: Option<(int, int)>, unmapped: Seq<Seq<char>>) -> Seq<char> {
    (match span {
        Some((a, b)) => "  dated "@ + date::printed(a) + "..="@ + date::printed(b) + "\n"@,
        None => Seq::empty(),
    }) + (if unmapped.len() == 0 {
        Seq::empty()
    } else {
        "  unmapped labels, booked to a fallback: "@ + text::joined(unmapped, ", "@) + "\n"@
    })
}

impl Report {
    pub fn text(&self) -> (r: String)
        requires
            self.counts.standalone + self.counts.unverified <= usize::MAX,
            check::printable(self.check@),
        ensures
            r@ == counts_text(
                self.counts,
                date::opt(self.frozen_through),
                late_views(self.late@),
            ) + rest_text(span_view(self.span), text::texts(self.unmapped@)) + check::report_text(
                self.check@,
            ),
    {
        let c = &self.counts;
        let ghost late = late_views(self.late@);
        let mut out = text::copy("imported 天天記帳 records: ");
        out.append(text::number(c.records).as_str());
        out.append(" in the exports\n  ");
        out.append(text::number(c.frozen).as_str());
        out.append(" frozen, ");
        out.append(text::number(c.late).as_str());
        out.append(" late (dated through ");
        if let Some(d) = &self.frozen_through {
            out.append(d.text().as_str());
        }
        out.append("), not imported\n");
        let ghost head = out@;
        let mut i: usize = 0;
        assert(head + late_text(late.take(0)) =~= head);
        while i < self.late.len()
            invariant
                i <= self.late@.len(),
                late == late_views(self.late@),
                out@ == head + late_text(late.take(i as int)),
            decreases self.late@.len() - i,
        {
            let l = &self.late[i];
            assert(late[i as int] == (l.0@, l.1@));
            assert(late.take(i as int + 1).drop_last() =~= late.take(i as int));
            out.append("    ");
            out.append(l.0.as_str());
            out.append(" ");
            out.append(l.1.text().as_str());
            out.append("\n");
            assert(out@ =~= head + late_text(late.take(i as int + 1)));
            i = i + 1;
        }
        assert(late.take(i as int) =~= late);
        out.append("  ");
        out.append(text::number(c.known).as_str());
        out.append(" already held, ");
        out.append(text::number(c.empty).as_str());
        out.append(" moving nothing\n  ");
        out.append(text::number(c.standalone + c.unverified).as_str());
        out.append(" inserted: ");
        out.append(text::number(c.standalone).as_str());
        out.append(" as written, ");
        out.append(text::number(c.unverified).as_str());
        out.append(" unverified on statement accounts\n  ");
        out.append(text::number(c.paired).as_str());
        out.append(" paired with bank lines already imported\n  ");
        out.append(text::number(c.left_to_statements).as_str());
        out.append(" transfers between statement accounts, left to them\n");
        let ghost counted = out@;
        assert(counted =~= counts_text(self.counts, date::opt(self.frozen_through), late));
        if let Some((a, b)) = &self.span {
            out.append("  dated ");
            out.append(a.text().as_str());
            out.append("..=");
            out.append(b.text().as_str());
            out.append("\n");
        }
        if self.unmapped.len() > 0 {
            out.append("  unmapped labels, booked to a fallback: ");
            out.append(text::join_all(&self.unmapped, ", ").as_str());
            out.append("\n");
        }
        assert(text::texts(self.unmapped@).len() == self.unmapped@.len());
        assert(out@ =~= counted + rest_text(span_view(self.span), text::texts(self.unmapped@)));
        out.append(self.check.text().as_str());
        out
    }
}

/// Every record is booked as written, waits, relabels a line or is left to the
/// statements, and one of them only; all but the last are written.
pub proof fn every_record_is_counted_once(
    records: Seq<BookedV>,
    fates: Seq<(int, FateV)>,
    n: int,
)
    requires
        0 <= n <= records.len(),
        done(records, fates, n) is Ok,
    ensures
        ({
            let d = done(records, fates, n)->Ok_0;
            &&& d.standalone + d.unverified + d.paired + d.left_to_statements == n
            &&& d.actions.len() == d.standalone + d.unverified + d.paired
        }),
    decreases n,
{
    if n > 0 {
        every_record_is_counted_once(records, fates, n - 1);
    }
}

/// The days reported span every record that is written.
pub proof fn the_span_holds_every_record(
    records: Seq<BookedV>,
    fates: Seq<(int, FateV)>,
    n: int,
    i: int,
)
    requires
        0 <= i < n <= records.len(),
        done(records, fates, n) is Ok,
        !(records[i].booking is LeftToStatements),
    ensures
        done(records, fates, n)->Ok_0.span matches Some((a, b)) && a <= records[i].date <= b,
    decreases n,
{
    if i < n - 1 {
        the_span_holds_every_record(records, fates, n - 1, i);
    }
}

/// Every leg of a record that waits ends in the tag of what no statement has
/// checked.
pub proof fn a_waiting_record_is_tagged(t: DraftV, day: int, i: int)
    requires
        0 <= i < t.postings.len(),
    ensures
        row_of(waiting(t, day), None).postings[i].tags matches Some(tags) && (tags
            == model::UNVERIFIED_TAG@ || text::ends(tags, ","@ + model::UNVERIFIED_TAG@)),
{
    let w = waiting(t, day);
    let p = t.postings[i];
    let all = match p.tags {
        Some(own) => seq![own] + w.tags,
        None => w.tags,
    };
    assert(row_of(w, None).postings[i] == row_leg(p, w.tags));
    assert(all.last() == model::UNVERIFIED_TAG@);
    if all.len() > 1 {
        let tags = text::joined(all, ","@);
        let tail = ","@ + model::UNVERIFIED_TAG@;
        let head = text::joined(all.drop_last(), ","@);
        assert(tags =~= head + tail);
        assert(tags.subrange(head.len() as int, tags.len() as int) =~= tail);
    }
}

/// Does a leg post as the draft's does?
pub open spec fn posts_as(a: PostingV, b: PostingV) -> bool {
    a.account == b.account && a.amount == b.amount && a.currency == b.currency
}

/// Is a transaction to insert the draft on a day, with its legs?
pub open spec fn inserts(action: ActionV, t: DraftV, day: int, transfer: bool) -> bool {
    match action {
        ActionV::Insert { transfer: is, transaction } => {
            &&& is == transfer
            &&& transaction.date == day
            &&& transaction.external_ref == t.external_ref
            &&& transaction.source == t.source
            &&& transaction.import_batch_id is None
            &&& transaction.postings.len() == t.postings.len()
            &&& forall|i: int|
                0 <= i < t.postings.len() ==> posts_as(
                    #[trigger] transaction.postings[i],
                    t.postings[i],
                )
            &&& t.payee.len() > 0 ==> transaction.payee == Some(t.payee)
            &&& t.payee.len() == 0 ==> transaction.payee is None
            &&& t.narration.len() > 0 ==> transaction.narration == Some(t.narration)
            &&& t.narration.len() == 0 ==> transaction.narration is None
        },
        _ => false,
    }
}

/// Does an action put a record's legs but one in place of a line's fallback?
/// The one left out is on the statement account, worth what moves there.
pub open spec fn relabels(
    action: ActionV,
    t: DraftV,
    leg: LegV,
    transaction_id: int,
    fallback: int,
    memo: Seq<char>,
) -> bool {
    match action {
        ActionV::Relabel {
            transaction_id: id,
            fallback_posting,
            external_ref,
            memo: said,
            origin,
            legs,
        } => {
            &&& id == transaction_id
            &&& fallback_posting == fallback
            &&& t.external_ref == Some(external_ref)
            &&& said == memo
            &&& origin == SOURCE@
            &&& legs.len() + 1 == t.postings.len()
            &&& exists|own: int|
                0 <= own < t.postings.len() && (#[trigger] t.postings[own]).account == leg.account
                    && t.postings[own].currency == leg.currency && amount::worth(
                    t.postings[own].amount,
                ) == amount::worth(leg.amount) && forall|i: int|
                    0 <= i < legs.len() ==> posts_as(
                        #[trigger] legs[i],
                        t.postings[if i < own {
                            i
                        } else {
                            i + 1
                        }],
                    )
        },
        _ => false,
    }
}

/// A record off the statement accounts is inserted as written; one on a
/// statement account that waits is inserted on the day it waits on; one that
/// pairs with a line gives the line's fallback its other legs; and one left to
/// the statements writes nothing.
pub proof fn a_record_is_written_by_its_fate(b: BookedV, fate: Option<FateV>)
    requires
        action_of(b, fate) is Ok,
        is_decided(b, fate),
    ensures
        ({
            let action = action_of(b, fate)->Ok_0;
            match b.booking {
                BookingV::LeftToStatements => action is None,
                BookingV::Standalone(t) => action matches Some(a) && inserts(
                    a,
                    t,
                    t.date,
                    b.transfer,
                ),
                BookingV::OnStatement { leg, transaction } => match fate->0 {
                    FateV::Waits(day) => action matches Some(a) && inserts(
                        a,
                        transaction,
                        day,
                        b.transfer,
                    ),
                    FateV::Pairs { transaction_id, fallback_posting } => action matches Some(a)
                        && relabels(
                        a,
                        transaction,
                        leg,
                        transaction_id,
                        fallback_posting,
                        b.memo,
                    ),
                },
            }
        }),
{
    if let BookingV::OnStatement { leg, transaction } = b.booking {
        if let FateV::Pairs { .. } = fate->0 {
            let legs = row_legs(transaction);
            own_is_there(legs, leg, 0);
            let own = own_at(legs, leg, 0)->0;
            assert(transaction.postings[own].account == leg.account);
        }
    }
}

/// Every record that is not left to the statements is written, by what becomes
/// of it.
pub proof fn every_record_is_written(
    records: Seq<BookedV>,
    fates: Seq<(int, FateV)>,
    n: int,
    k: int,
) -> (i: int)
    requires
        0 <= k < n <= records.len(),
        done(records, fates, n) is Ok,
        !(records[k].booking is LeftToStatements),
    ensures
        ({
            let d = done(records, fates, n)->Ok_0;
            let action = action_of(records[k], fates::fate_at(fates, k, 0));
            &&& 0 <= i < d.actions.len()
            &&& action == Ok::<Option<ActionV>, Seq<char>>(Some(d.actions[i]))
        }),
    decreases n,
{
    if k < n - 1 {
        every_record_is_written(records, fates, n - 1, k)
    } else {
        done(records, fates, n)->Ok_0.actions.len() - 1
    }
}

/// The days reported begin and end on those of records that are written.
pub proof fn the_span_is_no_wider_than_its_records(
    records: Seq<BookedV>,
    fates: Seq<(int, FateV)>,
    n: int,
)
    requires
        0 <= n <= records.len(),
        done(records, fates, n) is Ok,
    ensures
        done(records, fates, n)->Ok_0.span matches Some((a, b)) ==> (exists|i: int|
            0 <= i < n && (#[trigger] records[i]).date == a) && (exists|i: int|
            0 <= i < n && (#[trigger] records[i]).date == b),
    decreases n,
{
    if n > 0 {
        the_span_is_no_wider_than_its_records(records, fates, n - 1);
        assert(records[n - 1].date == records[n - 1].date);
    }
}

/// How a record stands: frozen where the frozen records name it, late where it
/// is dated within the frozen history without being named there, known where
/// the ledger holds its ref or id, and else fresh.
pub proof fn a_record_stands_by_what_is_held(e: EntryV, frozen: FrozenV, known: Seq<Seq<char>>)
    ensures
        ({
            let id = daily::id_of(e);
            let named = frozen.ids.contains(id);
            let within = frozen.through matches Some(d) && daily::day_of(e) <= d;
            let held = known.contains(interim::ref_of(id)) || known.contains(id);
            &&& standing_of(e, frozen, known) == Standing::Frozen <==> named
            &&& standing_of(e, frozen, known) == Standing::Late <==> !named && within
            &&& standing_of(e, frozen, known) == Standing::Known <==> !named && !within && held
            &&& standing_of(e, frozen, known) == Standing::Fresh <==> !named && !within && !held
        }),
{
}

} // verus!
