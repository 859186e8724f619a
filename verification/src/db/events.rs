//! The append-only history of what the app changed on a transaction. Every
//! edit keeps the whole transaction before and after, so overwriting its rows
//! in place loses nothing.

use vstd::prelude::*;

use crate::amount;
use crate::amount::{Amount, Dec};
use crate::currency;
use crate::currency::Currency;
use crate::date;
use crate::date::Date;
use crate::journal;
use crate::refusal::Refusal;
use crate::text;

verus! {

/// The `transaction_events.kind` vocabulary.
#[derive(Clone, Copy, PartialEq, Eq, Structural, Debug)]
pub enum EventKind {
    /// Entered by hand.
    Entered,
    Edited,
    /// Edited into more legs than it had.
    Split,
    Confirmed,
    /// Chosen as the record a statement line verifies.
    Paired,
    /// Taken out of the ledger: its legs are gone, `after` has none.
    Deleted,
}

/// How a kind is written.
pub open spec fn kind_text(k: EventKind) -> Seq<char> {
    match k {
        EventKind::Entered => "entered"@,
        EventKind::Edited => "edited"@,
        EventKind::Split => "split"@,
        EventKind::Confirmed => "confirmed"@,
        EventKind::Paired => "paired"@,
        EventKind::Deleted => "deleted"@,
    }
}

/// The kind a text names.
pub open spec fn kind_of(s: Seq<char>) -> Option<EventKind> {
    if s == "entered"@ {
        Some(EventKind::Entered)
    } else if s == "edited"@ {
        Some(EventKind::Edited)
    } else if s == "split"@ {
        Some(EventKind::Split)
    } else if s == "confirmed"@ {
        Some(EventKind::Confirmed)
    } else if s == "paired"@ {
        Some(EventKind::Paired)
    } else if s == "deleted"@ {
        Some(EventKind::Deleted)
    } else {
        None
    }
}

impl EventKind {
    pub fn text(&self) -> (r: String)
        ensures
            r@ == kind_text(*self),
    {
        text::copy(
            match self {
                EventKind::Entered => "entered",
                EventKind::Edited => "edited",
                EventKind::Split => "split",
                EventKind::Confirmed => "confirmed",
                EventKind::Paired => "paired",
                EventKind::Deleted => "deleted",
            },
        )
    }

    /// The kind a text names.
    pub fn parse(s: &str) -> (r: Option<EventKind>)
        ensures
            r == kind_of(s@),
    {
        if text::same_text(s, "entered") {
            Some(EventKind::Entered)
        } else if text::same_text(s, "edited") {
            Some(EventKind::Edited)
        } else if text::same_text(s, "split") {
            Some(EventKind::Split)
        } else if text::same_text(s, "confirmed") {
            Some(EventKind::Confirmed)
        } else if text::same_text(s, "paired") {
            Some(EventKind::Paired)
        } else if text::same_text(s, "deleted") {
            Some(EventKind::Deleted)
        } else {
            None
        }
    }
}

/// A kind's text is read back as the kind.
pub proof fn kind_reads_back(k: EventKind)
    ensures
        kind_of(kind_text(k)) == Some(k),
{
    reveal_strlit("entered");
    reveal_strlit("edited");
    reveal_strlit("split");
    reveal_strlit("confirmed");
    reveal_strlit("paired");
    reveal_strlit("deleted");
    assert("entered"@[1] == 'n' && "edited"@[1] == 'd' && "split"@[0] == 's' && "confirmed"@[0]
        == 'c' && "paired"@[0] == 'p' && "deleted"@[0] == 'd' && "entered"@[0] == 'e'
        && "edited"@[0] == 'e');
}

/// One event on a transaction.
#[derive(Clone, Debug, PartialEq)]
pub struct Event {
    pub at: String,
    pub kind: EventKind,
    /// JSON, as stored.
    pub payload: String,
}

/// The event of a stored row.
pub fn event_of(at: String, kind: &str, payload: String) -> (r: Result<Event, Refusal>)
    ensures
        match r {
            Ok(e) => kind_of(kind@) == Some(e.kind) && e.at == at && e.payload == payload,
            Err(e) => kind_of(kind@) is None && e@ == "event "@ + text::debug_text(kind@),
        },
{
    match EventKind::parse(kind) {
        Some(kind) => Ok(Event { at, kind, payload }),
        None => {
            let mut out = text::copy("event ");
            out.append(text::quoted(kind).as_str());
            Err(Refusal { message: out })
        },
    }
}

/// A leg of a transaction as it stood.
#[derive(Clone, Debug, PartialEq)]
pub struct SnapshotLeg {
    pub account: String,
    pub amount: Amount,
    pub currency: Currency,
    pub tags: Option<String>,
    pub origin: Option<String>,
}

#[verifier::ext_equal]
pub struct LegV {
    pub account: Seq<char>,
    pub amount: Dec,
    pub currency: Currency,
    pub tags: Option<Seq<char>>,
    pub origin: Option<Seq<char>>,
}

impl View for SnapshotLeg {
    type V = LegV;

    open spec fn view(&self) -> LegV {
        LegV {
            account: self.account@,
            amount: self.amount@,
            currency: self.currency,
            tags: text::opt(self.tags),
            origin: text::opt(self.origin),
        }
    }
}

pub open spec fn leg_views(v: Seq<SnapshotLeg>) -> Seq<LegV> {
    v.map_values(|l: SnapshotLeg| l@)
}

/// A whole transaction as it stood.
#[derive(Clone, Debug, PartialEq)]
pub struct Snapshot {
    pub date: Date,
    pub payee: Option<String>,
    pub narration: Option<String>,
    pub reviewed: bool,
    pub legs: Vec<SnapshotLeg>,
}

#[verifier::ext_equal]
pub struct SnapshotV {
    pub date: int,
    pub payee: Option<Seq<char>>,
    pub narration: Option<Seq<char>>,
    pub reviewed: bool,
    pub legs: Seq<LegV>,
}

impl View for Snapshot {
    type V = SnapshotV;

    open spec fn view(&self) -> SnapshotV {
        SnapshotV {
            date: self.date@,
            payee: text::opt(self.payee),
            narration: text::opt(self.narration),
            reviewed: self.reviewed,
            legs: leg_views(self.legs@),
        }
    }
}

/// The payload of every kind but [`EventKind::Paired`].
#[derive(Clone, Debug, PartialEq)]
pub struct Change {
    pub before: Option<Snapshot>,
    pub after: Snapshot,
}

/// The payload of [`EventKind::Paired`]: the statement line chosen for.
#[derive(Clone, Debug, PartialEq)]
pub struct Pairing {
    pub statement_ref: String,
    pub date: Date,
    pub amount: Amount,
}

/// Are the two legs the same, whatever the scales of their amounts?
pub open spec fn same_leg(a: LegV, b: LegV) -> bool {
    a.account == b.account && amount::equal(a.amount, b.amount) && a.currency == b.currency
        && a.tags == b.tags && a.origin == b.origin
}

/// Are the two transactions the same?
pub open spec fn same_snapshot(a: SnapshotV, b: SnapshotV) -> bool {
    &&& a.date == b.date
    &&& a.payee == b.payee
    &&& a.narration == b.narration
    &&& a.reviewed == b.reviewed
    &&& a.legs.len() == b.legs.len()
    &&& forall|i: int| 0 <= i < a.legs.len() ==> same_leg(#[trigger] a.legs[i], b.legs[i])
}

/// Are the two optional texts the same?
pub(crate) fn same_opt(a: &Option<String>, b: &Option<String>) -> (r: bool)
    ensures
        r == (text::opt(*a) == text::opt(*b)),
{
    match (a, b) {
        (Some(a), Some(b)) => text::same_text(a.as_str(), b.as_str()),
        (None, None) => true,
        _ => false,
    }
}

impl SnapshotLeg {
    fn same(&self, other: &SnapshotLeg) -> (r: bool)
        ensures
            r == same_leg(self@, other@),
    {
        text::same_text(self.account.as_str(), other.account.as_str()) && self.amount.equals(
            &other.amount,
        ) && self.currency == other.currency && same_opt(&self.tags, &other.tags) && same_opt(
            &self.origin,
            &other.origin,
        )
    }
}

impl Snapshot {
    /// Are the two transactions the same?
    pub fn same(&self, other: &Snapshot) -> (r: bool)
        ensures
            r == same_snapshot(self@, other@),
    {
        assert(self@.legs.len() == self.legs@.len());
        assert(other@.legs.len() == other.legs@.len());
        if self.date.number() != other.date.number() || !same_opt(&self.payee, &other.payee)
            || !same_opt(&self.narration, &other.narration) || self.reviewed != other.reviewed
            || self.legs.len() != other.legs.len() {
            return false;
        }
        let ghost (a, b) = (self@.legs, other@.legs);
        let mut i: usize = 0;
        while i < self.legs.len()
            invariant
                i <= self.legs@.len() == other.legs@.len(),
                a == leg_views(self.legs@),
                b == leg_views(other.legs@),
                a == self@.legs,
                b == other@.legs,
                self@.date == other@.date,
                self@.payee == other@.payee,
                self@.narration == other@.narration,
                self@.reviewed == other@.reviewed,
                forall|k: int| 0 <= k < i ==> same_leg(#[trigger] a[k], b[k]),
            decreases self.legs@.len() - i,
        {
            assert(a[i as int] == self.legs@[i as int]@);
            assert(b[i as int] == other.legs@[i as int]@);
            if !self.legs[i].same(&other.legs[i]) {
                return false;
            }
            i = i + 1;
        }
        true
    }
}

impl SnapshotLeg {
    pub fn copy(&self) -> (r: SnapshotLeg)
        ensures
            r@ == self@,
    {
        SnapshotLeg {
            account: text::copy(self.account.as_str()),
            amount: self.amount,
            currency: self.currency,
            tags: journal::copy_opt(&self.tags),
            origin: journal::copy_opt(&self.origin),
        }
    }
}

impl Snapshot {
    pub fn copy(&self) -> (r: Snapshot)
        ensures
            r@ == self@,
    {
        let ghost all = leg_views(self.legs@);
        let mut legs: Vec<SnapshotLeg> = Vec::new();
        let mut i: usize = 0;
        assert(leg_views(legs@) =~= all.take(0));
        while i < self.legs.len()
            invariant
                i <= self.legs@.len(),
                all == leg_views(self.legs@),
                leg_views(legs@) == all.take(i as int),
            decreases self.legs@.len() - i,
        {
            let ghost before = legs@;
            let leg = self.legs[i].copy();
            assert(leg@ == all[i as int]);
            legs.push(leg);
            assert(leg_views(legs@) =~= leg_views(before).push(leg@));
            assert(all.take(i as int + 1) =~= all.take(i as int).push(leg@));
            i = i + 1;
        }
        assert(all.take(i as int) =~= all);
        Snapshot {
            date: self.date,
            payee: journal::copy_opt(&self.payee),
            narration: journal::copy_opt(&self.narration),
            reviewed: self.reviewed,
            legs,
        }
    }
}

/// What an edit is recorded as: nothing if it changed nothing, a split if the
/// transaction has more legs than it had, an edit otherwise.
pub open spec fn edit_event(before: SnapshotV, after: SnapshotV) -> Option<EventKind> {
    if same_snapshot(after, before) {
        None
    } else if after.legs.len() > before.legs.len() {
        Some(EventKind::Split)
    } else {
        Some(EventKind::Edited)
    }
}

/// What an edit is recorded as.
pub fn edit_kind(before: &Snapshot, after: &Snapshot) -> (r: Option<EventKind>)
    ensures
        r == edit_event(before@, after@),
{
    assert(before@.legs.len() == before.legs@.len());
    assert(after@.legs.len() == after.legs@.len());
    if after.same(before) {
        None
    } else if after.legs.len() > before.legs.len() {
        Some(EventKind::Split)
    } else {
        Some(EventKind::Edited)
    }
}

/// A posting as the database holds it.
pub struct LegRow {
    pub path: String,
    pub amount: String,
    pub currency: String,
    pub tags: Option<String>,
    pub origin: Option<String>,
}

pub struct LegRowV {
    pub path: Seq<char>,
    pub amount: Seq<char>,
    pub currency: Seq<char>,
    pub tags: Option<Seq<char>>,
    pub origin: Option<Seq<char>>,
}

impl View for LegRow {
    type V = LegRowV;

    open spec fn view(&self) -> LegRowV {
        LegRowV {
            path: self.path@,
            amount: self.amount@,
            currency: self.currency@,
            tags: text::opt(self.tags),
            origin: text::opt(self.origin),
        }
    }
}

/// What a column that cannot be read is refused with.
pub open spec fn misread(what: Seq<char>, s: Seq<char>) -> Seq<char> {
    what + " "@ + text::debug_text(s)
}

/// What a column that cannot be read is refused with.
pub(crate) fn misreads(what: &str, s: &str) -> (r: Refusal)
    ensures
        r@ == misread(what@, s@),
{
    let mut out = text::copy(what);
    out.append(" ");
    out.append(text::quoted(s).as_str());
    assert(out@ =~= misread(what@, s@));
    Refusal { message: out }
}

/// The leg a row holds.
pub open spec fn leg_in(r: LegRowV) -> Result<LegV, Seq<char>> {
    match amount::spelled(r.amount) {
        None => Err(misread("posting amount"@, r.amount)),
        Some(a) => match currency::of_code(r.currency) {
            None => Err(misread("currency"@, r.currency)),
            Some(c) => Ok(
                LegV { account: r.path, amount: a, currency: c, tags: r.tags, origin: r.origin },
            ),
        },
    }
}

impl LegRow {
    /// The leg the row holds.
    pub fn read(&self) -> (r: Result<SnapshotLeg, Refusal>)
        ensures
            match r {
                Ok(l) => leg_in(self@) == Ok::<LegV, Seq<char>>(l@),
                Err(e) => leg_in(self@) == Err::<LegV, Seq<char>>(e@),
            },
    {
        let amount = match Amount::parse(self.amount.as_str()) {
            Some(a) => a,
            None => return Err(misreads("posting amount", self.amount.as_str())),
        };
        match Currency::parse(self.currency.as_str()) {
            Some(currency) => Ok(
                SnapshotLeg {
                    account: text::copy(self.path.as_str()),
                    amount,
                    currency,
                    tags: journal::copy_opt(&self.tags),
                    origin: journal::copy_opt(&self.origin),
                },
            ),
            None => Err(misreads("currency", self.currency.as_str())),
        }
    }
}

/// A transaction as the database holds it.
pub struct HeaderRow {
    pub date: String,
    pub payee: Option<String>,
    pub narration: Option<String>,
    pub reviewed: bool,
}

pub open spec fn leg_rows(v: Seq<LegRow>) -> Seq<LegRowV> {
    v.map_values(|r: LegRow| r@)
}

/// The legs the rows hold.
pub open spec fn legs_in(rows: Seq<LegRowV>) -> Result<Seq<LegV>, Seq<char>>
    decreases rows.len(),
{
    if rows.len() == 0 {
        Ok(Seq::empty())
    } else {
        match legs_in(rows.drop_last()) {
            Err(e) => Err(e),
            Ok(rest) => match leg_in(rows.last()) {
                Err(e) => Err(e),
                Ok(l) => Ok(rest.push(l)),
            },
        }
    }
}

/// The transaction the rows hold, legs in posting order.
pub open spec fn snapshot_in(id: int, header: Option<HeaderRow>, rows: Seq<LegRowV>) -> Result<
    SnapshotV,
    Seq<char>,
> {
    match header {
        None => Err("查無交易 "@ + text::signed_digits(id)),
        Some(h) => match date::read(h.date@) {
            None => Err("transaction "@ + text::signed_digits(id) + " date"@),
            Some(day) => match legs_in(rows) {
                Err(e) => Err(e),
                Ok(legs) => Ok(
                    SnapshotV {
                        date: day,
                        payee: text::opt(h.payee),
                        narration: text::opt(h.narration),
                        reviewed: h.reviewed,
                        legs,
                    },
                ),
            },
        },
    }
}

proof fn refused_legs_stay(rows: Seq<LegRowV>, n: int)
    requires
        0 <= n <= rows.len(),
        legs_in(rows.take(n)) is Err,
    ensures
        legs_in(rows) == legs_in(rows.take(n)),
    decreases rows.len() - n,
{
    if n < rows.len() {
        assert(rows.take(n + 1).drop_last() =~= rows.take(n));
        refused_legs_stay(rows, n + 1);
    } else {
        assert(rows.take(n) =~= rows);
    }
}

/// The transaction the rows hold, legs in posting order.
pub fn snapshot(id: i64, header: Option<HeaderRow>, rows: &Vec<LegRow>) -> (r: Result<
    Snapshot,
    Refusal,
>)
    ensures
        match r {
            Ok(s) => snapshot_in(id as int, header, leg_rows(rows@)) == Ok::<SnapshotV, Seq<char>>(
                s@,
            ),
            Err(e) => snapshot_in(id as int, header, leg_rows(rows@)) == Err::<
                SnapshotV,
                Seq<char>,
            >(e@),
        },
{
    let h = match header {
        Some(h) => h,
        None => {
            let mut out = text::copy("查無交易 ");
            out.append(text::signed_number(id).as_str());
            return Err(Refusal { message: out });
        },
    };
    let date = match Date::from_iso(h.date.as_str()) {
        Some(d) => d,
        None => {
            let mut out = text::copy("transaction ");
            out.append(text::signed_number(id).as_str());
            out.append(" date");
            return Err(Refusal { message: out });
        },
    };
    let ghost all = leg_rows(rows@);
    let mut legs: Vec<SnapshotLeg> = Vec::new();
    let mut i: usize = 0;
    assert(leg_views(legs@) =~= Seq::empty());
    while i < rows.len()
        invariant
            i <= rows@.len(),
            all == leg_rows(rows@),
            header == Some(h),
            date::read(h.date@) == Some(date@),
            legs_in(all.take(i as int)) == Ok::<Seq<LegV>, Seq<char>>(leg_views(legs@)),
        decreases rows@.len() - i,
    {
        let ghost before = legs@;
        assert(all[i as int] == rows@[i as int]@);
        assert(all.take(i as int + 1).drop_last() =~= all.take(i as int));
        match rows[i].read() {
            Ok(l) => {
                legs.push(l);
                assert(leg_views(legs@) =~= leg_views(before).push(l@));
            },
            Err(e) => {
                proof {
                    refused_legs_stay(all, i as int + 1);
                }
                return Err(e);
            },
        }
        i = i + 1;
    }
    assert(all.take(i as int) =~= all);
    Ok(Snapshot { date, payee: h.payee, narration: h.narration, reviewed: h.reviewed, legs })
}

proof fn each_row_is_a_leg(rows: Seq<LegRowV>, i: int)
    requires
        legs_in(rows) is Ok,
        0 <= i < rows.len(),
    ensures
        legs_in(rows)->Ok_0.len() == rows.len(),
        leg_in(rows[i]) == Ok::<LegV, Seq<char>>(legs_in(rows)->Ok_0[i]),
    decreases rows.len(),
{
    reveal_with_fuel(legs_in, 2);
    if i < rows.len() - 1 {
        each_row_is_a_leg(rows.drop_last(), i);
    } else if rows.len() > 1 {
        each_row_is_a_leg(rows.drop_last(), 0);
    }
}

/// A snapshot is what the rows say: the header's day, payee, note and review,
/// and a leg for each row, on its account with its amount.
pub proof fn a_snapshot_is_what_its_rows_say(
    id: int,
    header: Option<HeaderRow>,
    rows: Seq<LegRowV>,
    i: int,
)
    requires
        snapshot_in(id, header, rows) is Ok,
        0 <= i < rows.len(),
    ensures
        ({
            let s = snapshot_in(id, header, rows)->Ok_0;
            &&& header matches Some(h) && date::read(h.date@) == Some(s.date) && s.payee
                == text::opt(h.payee) && s.narration == text::opt(h.narration) && s.reviewed
                == h.reviewed
            &&& s.legs.len() == rows.len()
            &&& s.legs[i].account == rows[i].path
            &&& amount::spelled(rows[i].amount) == Some(s.legs[i].amount)
            &&& currency::of_code(rows[i].currency) == Some(s.legs[i].currency)
            &&& s.legs[i].tags == rows[i].tags
            &&& s.legs[i].origin == rows[i].origin
        }),
{
    each_row_is_a_leg(rows, i);
}

/// An edit that changes nothing is not recorded; one that adds a leg is a
/// split, and any other an edit.
pub proof fn an_edit_is_recorded_by_what_it_changes(before: SnapshotV, after: SnapshotV)
    ensures
        edit_event(before, before) is None,
        after.legs.len() > before.legs.len() ==> edit_event(before, after) == Some(
            EventKind::Split,
        ),
        after.legs.len() < before.legs.len() ==> edit_event(before, after) == Some(
            EventKind::Edited,
        ),
        after.legs.len() == before.legs.len() && (after.date != before.date || after.payee
            != before.payee || after.narration != before.narration || after.reviewed
            != before.reviewed || exists|i: int|
            0 <= i < after.legs.len() && ((#[trigger] after.legs[i]).account
                != before.legs[i].account || amount::worth(after.legs[i].amount) != amount::worth(
                before.legs[i].amount,
            ) || after.legs[i].currency != before.legs[i].currency)) ==> edit_event(before, after)
            == Some(EventKind::Edited),
{
}

} // verus!
