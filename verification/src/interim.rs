//! 天天記帳 records exported after the freeze, booked by the rules freeze books
//! them with. Pure: whether a record's statement leg pairs with a line already
//! held, or waits for one, is the importer's call against the database.

use vstd::prelude::*;

use crate::accounts;
use crate::accounts::Chart;
use crate::amount;
use crate::amount::{Amount, Dec};
use crate::currency::Currency;
use crate::daily;
use crate::daily::{Entry, EntryV};
use crate::date;
use crate::date::Date;
use crate::model;
use crate::model::{Posting, PostingV, Source};
use crate::refusal::Refusal;
use crate::text;

verus! {

/// Namespaces a record's UUID in the shared dedup scope.
pub const REF_PREFIX: &'static str = "tiantian:";

/// The ref of a record.
pub open spec fn ref_of(id: Seq<char>) -> Seq<char> {
    REF_PREFIX@ + id
}

/// The ref of a record.
pub fn external_ref(id: &str) -> (r: String)
    ensures
        r@ == ref_of(id@),
{
    let mut out = text::copy(REF_PREFIX);
    out.append(id);
    out
}

/// Two records have one ref only if they have one id.
pub proof fn refs_tell_records_apart(a: Seq<char>, b: Seq<char>)
    ensures
        ref_of(a) == ref_of(b) <==> a == b,
{
    if ref_of(a) == ref_of(b) {
        let n = REF_PREFIX@.len() as int;
        assert(a =~= ref_of(a).skip(n));
        assert(b =~= ref_of(b).skip(n));
    }
}

/// A transaction a record is written as.
#[derive(Clone, Debug, PartialEq)]
pub struct Draft {
    pub date: Date,
    pub payee: String,
    pub narration: String,
    pub tags: Vec<String>,
    pub source: Source,
    pub external_ref: Option<String>,
    pub postings: Vec<Posting>,
}

#[verifier::ext_equal]
pub struct DraftV {
    pub date: int,
    pub payee: Seq<char>,
    pub narration: Seq<char>,
    pub tags: Seq<Seq<char>>,
    pub source: Source,
    pub external_ref: Option<Seq<char>>,
    pub postings: Seq<PostingV>,
}

impl View for Draft {
    type V = DraftV;

    open spec fn view(&self) -> DraftV {
        DraftV {
            date: self.date@,
            payee: self.payee@,
            narration: self.narration@,
            tags: text::texts(self.tags@),
            source: self.source,
            external_ref: text::opt(self.external_ref),
            postings: model::posting_views(self.postings@),
        }
    }
}

/// Where a record lands on a statement account.
#[derive(Clone, Debug, PartialEq)]
pub struct StatementLeg {
    pub account: String,
    pub amount: Amount,
    pub currency: Currency,
}

#[verifier::ext_equal]
pub struct LegV {
    pub account: Seq<char>,
    pub amount: Dec,
    pub currency: Currency,
}

impl View for StatementLeg {
    type V = LegV;

    open spec fn view(&self) -> LegV {
        LegV { account: self.account@, amount: self.amount@, currency: self.currency }
    }
}

/// How a record books.
#[derive(Debug)]
pub enum Booking {
    /// Touches no statement account: booked as written.
    Standalone(Draft),
    /// Touches one statement account at `leg`. Untagged; the importer tags it
    /// unverified when no line explains it yet.
    OnStatement { leg: StatementLeg, transaction: Draft },
    /// A transfer between two statement accounts: the statements book both
    /// halves themselves.
    LeftToStatements,
}

#[verifier::ext_equal]
pub enum BookingV {
    Standalone(DraftV),
    OnStatement { leg: LegV, transaction: DraftV },
    LeftToStatements,
}

impl View for Booking {
    type V = BookingV;

    open spec fn view(&self) -> BookingV {
        match self {
            Booking::Standalone(t) => BookingV::Standalone(t@),
            Booking::OnStatement { leg, transaction } => BookingV::OnStatement {
                leg: leg@,
                transaction: transaction@,
            },
            Booking::LeftToStatements => BookingV::LeftToStatements,
        }
    }
}

/// A record that moves something.
#[derive(Debug)]
pub struct Booked {
    pub id: String,
    pub date: Date,
    /// From the 轉帳 export rather than 收支.
    pub transfer: bool,
    /// What the record itself says.
    pub memo: String,
    pub booking: Booking,
}

#[verifier::ext_equal]
pub struct BookedV {
    pub id: Seq<char>,
    pub date: int,
    pub transfer: bool,
    pub memo: Seq<char>,
    pub booking: BookingV,
}

impl View for Booked {
    type V = BookedV;

    open spec fn view(&self) -> BookedV {
        BookedV {
            id: self.id@,
            date: self.date@,
            transfer: self.transfer,
            memo: self.memo@,
            booking: self.booking@,
        }
    }
}

pub open spec fn booked_views(v: Seq<Booked>) -> Seq<BookedV> {
    v.map_values(|b: Booked| b@)
}

/// Where a record goes.
#[derive(Debug)]
pub enum Route {
    /// Booked as written.
    Standalone,
    /// On one statement account.
    OnStatement(StatementLeg),
    /// Left to the statements of two accounts.
    LeftToStatements,
    /// On a statement account, moving nothing.
    Nowhere,
}

pub enum RouteV {
    Standalone,
    OnStatement(LegV),
    LeftToStatements,
    Nowhere,
}

impl View for Route {
    type V = RouteV;

    open spec fn view(&self) -> RouteV {
        match self {
            Route::Standalone => RouteV::Standalone,
            Route::OnStatement(leg) => RouteV::OnStatement(leg@),
            Route::LeftToStatements => RouteV::LeftToStatements,
            Route::Nowhere => RouteV::Nowhere,
        }
    }
}

/// Does a label stand for the opening equity?
pub open spec fn is_equity(chart: Chart, label: Seq<char>) -> bool {
    accounts::under(accounts::table(chart.accounts@), label) == Some(model::OPENING_EQUITY@)
}

/// Is a record on an account of the opening equity?
pub open spec fn is_opening(chart: Chart, e: EntryV) -> bool {
    exists|i: int|
        0 <= i < daily::accounts_of(e).len() && is_equity(
            chart,
            #[trigger] daily::accounts_of(e)[i],
        )
}

/// The labels among the first `n` of a record that a statement stands behind.
pub open spec fn touched(labels: Seq<Seq<char>>, accounts: Seq<Seq<char>>, n: int) -> Seq<Seq<char>>
    decreases n,
{
    if n <= 0 {
        Seq::empty()
    } else if labels.contains(accounts[n - 1]) {
        touched(labels, accounts, n - 1).push(accounts[n - 1])
    } else {
        touched(labels, accounts, n - 1)
    }
}

/// The account a record on a statement label lands on: a settlement passes
/// through the settlement account, anything else of the institution's lands on
/// the primary one.
pub open spec fn near(chart: Chart, label: Seq<char>, contra: Option<Seq<char>>) -> Seq<char> {
    let i = chart.institution;
    if label != i.app_account@ {
        accounts::under(accounts::table(chart.accounts@), label)->0
    } else if contra == Some(i.settlement_app_account@) {
        i.settlement@
    } else {
        i.primary@
    }
}

/// Where a record goes. `labels` are the app labels a statement stands behind.
pub open spec fn route_of(chart: Chart, labels: Seq<Seq<char>>, e: EntryV) -> Result<
    RouteV,
    Seq<char>,
> {
    let names = daily::accounts_of(e);
    let hit = touched(labels, names, names.len() as int);
    if daily::id_of(e).len() == 0 {
        Err(
            "a record on "@ + date::printed(daily::day_of(e))
                + " has no UUID, so it could not be told apart later"@,
        )
    } else if is_opening(chart, e) {
        Err(
            "record "@ + daily::id_of(e)
                + " is an opening; openings belong to the frozen history"@,
        )
    } else if hit.len() == 0 {
        Ok(RouteV::Standalone)
    } else if hit.len() == 1 {
        let (delta, c, contra) = daily::effect(e, hit[0]);
        if delta.magnitude == 0 {
            Ok(RouteV::Nowhere)
        } else {
            Ok(
                RouteV::OnStatement(
                    LegV { account: near(chart, hit[0], contra), amount: delta, currency: c },
                ),
            )
        }
    } else {
        Ok(RouteV::LeftToStatements)
    }
}

/// Is every statement label the institution's own, or mapped to an account?
pub open spec fn labels_mapped(chart: Chart, labels: Seq<Seq<char>>) -> bool {
    forall|i: int|
        0 <= i < labels.len() ==> #[trigger] labels[i] == chart.institution.app_account@
            || accounts::under(accounts::table(chart.accounts@), labels[i]) is Some
}

fn is_listed(labels: &Vec<String>, label: &str) -> (r: bool)
    ensures
        r == text::texts(labels@).contains(label@),
{
    let ghost all = text::texts(labels@);
    let mut i: usize = 0;
    while i < labels.len()
        invariant
            i <= labels@.len(),
            all == text::texts(labels@),
            forall|k: int| 0 <= k < i ==> #[trigger] all[k] != label@,
        decreases labels@.len() - i,
    {
        assert(all[i as int] == labels@[i as int]@);
        if text::same_text(labels[i].as_str(), label) {
            return true;
        }
        i = i + 1;
    }
    false
}

/// Where a record goes.
pub fn route(chart: &Chart, labels: &Vec<String>, entry: &Entry) -> (r: Result<Route, Refusal>)
    requires
        labels_mapped(*chart, text::texts(labels@)),
    ensures
        match r {
            Ok(w) => route_of(*chart, text::texts(labels@), entry@) == Ok::<RouteV, Seq<char>>(w@),
            Err(e) => route_of(*chart, text::texts(labels@), entry@) == Err::<RouteV, Seq<char>>(
                e@,
            ),
        },
{
    let ghost known = text::texts(labels@);
    let id = entry.id();
    if id.as_str().unicode_len() == 0 {
        let mut out = text::copy("a record on ");
        out.append(entry.date().text().as_str());
        out.append(" has no UUID, so it could not be told apart later");
        return Err(Refusal { message: out });
    }
    let names = entry.accounts();
    let ghost all = text::texts(names@);
    let mut hit: Vec<String> = Vec::new();
    let mut opening = false;
    let mut i: usize = 0;
    assert(text::texts(hit@) =~= Seq::empty());
    while i < names.len()
        invariant
            i <= names@.len(),
            known == text::texts(labels@),
            all == text::texts(names@),
            all == daily::accounts_of(entry@),
            text::texts(hit@) == touched(known, all, i as int),
            forall|k: int|
                0 <= k < hit@.len() ==> known.contains((#[trigger] text::texts(hit@)[k])),
            opening ==> is_opening(*chart, entry@),
            !opening ==> forall|k: int| 0 <= k < i ==> !is_equity(*chart, #[trigger] all[k]),
        decreases names@.len() - i,
    {
        let ghost before = hit@;
        assert(all[i as int] == names@[i as int]@);
        if let Some(a) = chart.account(names[i].as_str()) {
            if text::same_text(a.as_str(), model::OPENING_EQUITY) {
                assert(is_equity(*chart, all[i as int]));
                opening = true;
            }
        }
        if is_listed(labels, names[i].as_str()) {
            hit.push(text::copy(names[i].as_str()));
            assert(text::texts(hit@) =~= text::texts(before).push(all[i as int]));
            assert forall|k: int| 0 <= k < hit@.len() implies known.contains(
                (#[trigger] text::texts(hit@)[k]),
            ) by {
                if k < before.len() {
                    assert(text::texts(hit@)[k] == text::texts(before)[k]);
                }
            }
        }
        i = i + 1;
    }
    assert(text::texts(hit@).len() == hit@.len());
    if opening {
        let mut out = text::copy("record ");
        out.append(id.as_str());
        out.append(" is an opening; openings belong to the frozen history");
        return Err(Refusal { message: out });
    }
    assert(!is_opening(*chart, entry@));
    if hit.len() == 0 {
        return Ok(Route::Standalone);
    }
    if hit.len() > 1 {
        return Ok(Route::LeftToStatements);
    }
    let label = &hit[0];
    assert(text::texts(hit@)[0] == label@);
    let (delta, currency, contra) = entry.effect(label.as_str());
    if delta.is_zero() {
        return Ok(Route::Nowhere);
    }
    let account = if !text::same_text(label.as_str(), chart.institution.app_account.as_str()) {
        proof {
            let k = choose|k: int| 0 <= k < known.len() && known[k] == label@;
            assert(known[k] == label@);
        }
        text::copy(chart.account(label.as_str()).unwrap().as_str())
    } else {
        let settles = match &contra {
            Some(n) => text::same_text(
                n.as_str(),
                chart.institution.settlement_app_account.as_str(),
            ),
            None => false,
        };
        if settles {
            text::copy(chart.institution.settlement.as_str())
        } else {
            text::copy(chart.institution.primary.as_str())
        }
    };
    Ok(Route::OnStatement(StatementLeg { account, amount: delta, currency }))
}

/// The draft under its record's ref.
pub open spec fn referred(d: DraftV, id: Seq<char>) -> DraftV {
    DraftV { external_ref: Some(ref_of(id)), ..d }
}

/// How a record books, given what it is written as; `None` where it moves
/// nothing.
pub open spec fn booking_of(route: RouteV, draft: Option<DraftV>, id: Seq<char>) -> Option<
    BookingV,
> {
    match (route, draft) {
        (RouteV::LeftToStatements, _) => Some(BookingV::LeftToStatements),
        (RouteV::Standalone, Some(d)) => Some(BookingV::Standalone(referred(d, id))),
        (RouteV::OnStatement(leg), Some(d)) => Some(
            BookingV::OnStatement { leg, transaction: referred(d, id) },
        ),
        _ => None,
    }
}

/// Does the record go on one statement account?
pub open spec fn is_on_statement(chart: Chart, labels: Seq<Seq<char>>, e: EntryV) -> bool {
    route_of(chart, labels, e) matches Ok(route) && route is OnStatement
}

/// Is every record on a statement account written?
pub open spec fn all_written(
    chart: Chart,
    labels: Seq<Seq<char>>,
    entries: Seq<EntryV>,
    drafts: Seq<Option<DraftV>>,
) -> bool {
    forall|i: int|
        0 <= i < entries.len() && is_on_statement(chart, labels, #[trigger] entries[i])
            ==> drafts[i] is Some
}

/// The records that move something, each under its ref. `drafts` holds what
/// each entry is written as, if it is written.
pub open spec fn books(
    chart: Chart,
    labels: Seq<Seq<char>>,
    entries: Seq<EntryV>,
    drafts: Seq<Option<DraftV>>,
) -> Result<Seq<BookedV>, Seq<char>>
    decreases entries.len(),
{
    if entries.len() == 0 {
        Ok(Seq::empty())
    } else {
        match books(chart, labels, entries.drop_last(), drafts) {
            Err(e) => Err(e),
            Ok(rest) => {
                let e = entries.last();
                match route_of(chart, labels, e) {
                    Err(e) => Err(e),
                    Ok(route) => match booking_of(
                        route,
                        drafts[entries.len() - 1],
                        daily::id_of(e),
                    ) {
                        None => Ok(rest),
                        Some(booking) => Ok(
                            rest.push(
                                BookedV {
                                    id: daily::id_of(e),
                                    date: daily::day_of(e),
                                    transfer: e is Transfer,
                                    memo: daily::memo_of(e),
                                    booking,
                                },
                            ),
                        ),
                    },
                }
            },
        }
    }
}

pub open spec fn draft_views(v: Seq<Option<Draft>>) -> Seq<Option<DraftV>> {
    v.map_values(
        |d: Option<Draft>|
            match d {
                Some(d) => Some(d@),
                None => None,
            },
    )
}

proof fn refused_books_stay(
    chart: Chart,
    labels: Seq<Seq<char>>,
    entries: Seq<EntryV>,
    drafts: Seq<Option<DraftV>>,
    n: int,
)
    requires
        0 <= n <= entries.len(),
        books(chart, labels, entries.take(n), drafts) is Err,
    ensures
        books(chart, labels, entries, drafts) == books(chart, labels, entries.take(n), drafts),
    decreases entries.len() - n,
{
    if n < entries.len() {
        assert(entries.take(n + 1).drop_last() =~= entries.take(n));
        refused_books_stay(chart, labels, entries, drafts, n + 1);
    } else {
        assert(entries.take(n) =~= entries);
    }
}

/// The draft under its record's ref.
fn refer(d: Draft, id: &str) -> (r: Draft)
    ensures
        r@ == referred(d@, id@),
{
    Draft { external_ref: Some(external_ref(id)), ..d }
}

/// Is every record on a statement account written?
pub fn can_be_booked(
    chart: &Chart,
    labels: &Vec<String>,
    entries: &Vec<Entry>,
    drafts: &Vec<Option<Draft>>,
) -> (r: bool)
    requires
        labels_mapped(*chart, text::texts(labels@)),
        drafts@.len() == entries@.len(),
    ensures
        r == all_written(
            *chart,
            text::texts(labels@),
            daily::entry_views(entries@),
            draft_views(drafts@),
        ),
{
    let ghost known = text::texts(labels@);
    let ghost all = daily::entry_views(entries@);
    let ghost written = draft_views(drafts@);
    let mut i: usize = 0;
    while i < entries.len()
        invariant
            i <= entries@.len(),
            drafts@.len() == entries@.len(),
            known == text::texts(labels@),
            labels_mapped(*chart, known),
            all == daily::entry_views(entries@),
            written == draft_views(drafts@),
            forall|k: int|
                0 <= k < i && is_on_statement(*chart, known, #[trigger] all[k]) ==> written[k]
                    is Some,
        decreases entries@.len() - i,
    {
        assert(all[i as int] == entries@[i as int]@);
        if let Ok(Route::OnStatement(_)) = route(chart, labels, &entries[i]) {
            if drafts[i].is_none() {
                assert(written[i as int] is None);
                return false;
            }
            assert(written[i as int] is Some);
        }
        i = i + 1;
    }
    true
}

/// Books every record that moves something, each with its `tiantian:<uuid>`
/// ref.
pub fn book(chart: &Chart, labels: &Vec<String>, entries: &Vec<Entry>, drafts: Vec<Option<Draft>>) -> (r:
    Result<Vec<Booked>, Refusal>)
    requires
        labels_mapped(*chart, text::texts(labels@)),
        drafts@.len() == entries@.len(),
        all_written(
            *chart,
            text::texts(labels@),
            daily::entry_views(entries@),
            draft_views(drafts@),
        ),
    ensures
        match r {
            Ok(v) => books(
                *chart,
                text::texts(labels@),
                daily::entry_views(entries@),
                draft_views(drafts@),
            ) == Ok::<Seq<BookedV>, Seq<char>>(booked_views(v@)),
            Err(e) => books(
                *chart,
                text::texts(labels@),
                daily::entry_views(entries@),
                draft_views(drafts@),
            ) == Err::<Seq<BookedV>, Seq<char>>(e@),
        },
{
    let ghost known = text::texts(labels@);
    let ghost all = daily::entry_views(entries@);
    let ghost given = drafts@;
    let ghost written = draft_views(given);
    let mut rest = drafts;
    let mut out: Vec<Booked> = Vec::new();
    let mut i: usize = 0;
    assert(booked_views(out@) =~= Seq::empty());
    assert(rest@ =~= given.skip(0));
    while i < entries.len()
        invariant
            i <= entries@.len(),
            given.len() == entries@.len(),
            given == drafts@,
            rest@ == given.skip(i as int),
            known == text::texts(labels@),
            labels_mapped(*chart, known),
            all == daily::entry_views(entries@),
            written == draft_views(given),
            books(*chart, known, all.take(i as int), written) == Ok::<Seq<BookedV>, Seq<char>>(
                booked_views(out@),
            ),
        decreases entries@.len() - i,
    {
        let e = &entries[i];
        let ghost before = out@;
        assert(all[i as int] == e@);
        assert(all.take(i as int + 1).drop_last() =~= all.take(i as int));
        let draft = rest.remove(0);
        assert(draft == given[i as int]);
        assert(rest@ =~= given.skip(i as int + 1));
        let way = match route(chart, labels, e) {
            Ok(way) => way,
            Err(why) => {
                proof {
                    refused_books_stay(*chart, known, all, written, i as int + 1);
                }
                return Err(why);
            },
        };
        let id = e.id();
        let booking: Option<Booking> = match (way, draft) {
            (Route::LeftToStatements, _) => Some(Booking::LeftToStatements),
            (Route::Standalone, Some(d)) => Some(Booking::Standalone(refer(d, id.as_str()))),
            (Route::OnStatement(leg), Some(d)) => Some(
                Booking::OnStatement { leg, transaction: refer(d, id.as_str()) },
            ),
            _ => None,
        };
        if let Some(booking) = booking {
            let b = Booked {
                id: text::copy(id.as_str()),
                date: e.date(),
                transfer: e.is_transfer(),
                memo: text::copy(e.memo().as_str()),
                booking,
            };
            out.push(b);
            assert(booked_views(out@) =~= booked_views(before).push(b@));
        }
        i = i + 1;
    }
    assert(all.take(i as int) =~= all);
    Ok(out)
}

/// The ref of what a record is written as, if it is written.
pub open spec fn written_ref(b: BookingV) -> Option<Seq<char>> {
    match b {
        BookingV::Standalone(t) => t.external_ref,
        BookingV::OnStatement { transaction, .. } => transaction.external_ref,
        BookingV::LeftToStatements => None,
    }
}

/// Whatever is written of a record is written under its ref.
pub proof fn records_are_written_under_their_refs(
    chart: Chart,
    labels: Seq<Seq<char>>,
    entries: Seq<EntryV>,
    drafts: Seq<Option<DraftV>>,
    i: int,
)
    requires
        books(chart, labels, entries, drafts) is Ok,
        0 <= i < books(chart, labels, entries, drafts)->Ok_0.len(),
        !(books(chart, labels, entries, drafts)->Ok_0[i].booking is LeftToStatements),
    ensures
        written_ref(books(chart, labels, entries, drafts)->Ok_0[i].booking) == Some(
            ref_of(books(chart, labels, entries, drafts)->Ok_0[i].id),
        ),
    decreases entries.len(),
{
    let rest = books(chart, labels, entries.drop_last(), drafts)->Ok_0;
    if i < rest.len() {
        records_are_written_under_their_refs(chart, labels, entries.drop_last(), drafts, i);
    }
}

proof fn touched_of_one(labels: Seq<Seq<char>>, accounts: Seq<Seq<char>>)
    requires
        accounts.len() == 1,
    ensures
        touched(labels, accounts, 1) == (if labels.contains(accounts[0]) {
            seq![accounts[0]]
        } else {
            Seq::empty()
        }),
{
    reveal_with_fuel(touched, 2);
    assert(touched(labels, accounts, 1) =~= (if labels.contains(accounts[0]) {
        seq![accounts[0]]
    } else {
        Seq::empty()
    }));
}

proof fn touched_of_two(labels: Seq<Seq<char>>, accounts: Seq<Seq<char>>)
    requires
        accounts.len() == 2,
    ensures
        ({
            let (a, b) = (labels.contains(accounts[0]), labels.contains(accounts[1]));
            let hit = touched(labels, accounts, 2);
            &&& a && b ==> hit.len() == 2
            &&& a && !b ==> hit == seq![accounts[0]]
            &&& !a && b ==> hit == seq![accounts[1]]
            &&& !a && !b ==> hit.len() == 0
        }),
{
    reveal_with_fuel(touched, 3);
    let (a, b) = (labels.contains(accounts[0]), labels.contains(accounts[1]));
    let hit = touched(labels, accounts, 2);
    if a && !b {
        assert(hit =~= seq![accounts[0]]);
    } else if !a && b {
        assert(hit =~= seq![accounts[1]]);
    }
}

/// Does a route lead to one statement account, moving that much there?
pub open spec fn leads_to(route: RouteV, account: Seq<char>, worth: int, c: Currency) -> bool {
    match route {
        RouteV::OnStatement(leg) => leg.account == account && amount::worth(leg.amount) == worth
            && leg.currency == c && leg.amount.magnitude != 0,
        _ => false,
    }
}

/// A record of income or expense on an account a statement stands behind goes
/// there with what it moves; on any other account it is booked as written.
pub proof fn a_flow_goes_to_its_account(chart: Chart, labels: Seq<Seq<char>>, e: EntryV)
    requires
        e is Flow,
        route_of(chart, labels, e) is Ok,
    ensures
        ({
            let route = route_of(chart, labels, e)->Ok_0;
            match e {
                EntryV::Flow { account, amount, currency, id, .. } => {
                    &&& id.len() > 0
                    &&& !is_equity(chart, account)
                    &&& !labels.contains(account) <==> route is Standalone
                    &&& labels.contains(account) && amount.magnitude == 0 <==> route is Nowhere
                    &&& labels.contains(account) && amount.magnitude != 0 ==> leads_to(
                        route,
                        near(chart, account, None),
                        amount::worth(amount),
                        currency,
                    )
                },
                _ => true,
            }
        }),
{
    let names = daily::accounts_of(e);
    touched_of_one(labels, names);
    assert(is_equity(chart, names[0]) ==> is_opening(chart, e));
}

/// A transfer between two accounts that statements stand behind is left to
/// them; one that only leaves such an account takes what goes out from it, one
/// that only reaches it brings what comes in, and one on neither is booked as
/// written.
pub proof fn a_transfer_goes_to_its_accounts(chart: Chart, labels: Seq<Seq<char>>, e: EntryV)
    requires
        e is Transfer,
        route_of(chart, labels, e) is Ok,
    ensures
        ({
            let route = route_of(chart, labels, e)->Ok_0;
            match e {
                EntryV::Transfer { from, out, out_currency, to, inn, in_currency, id, .. } => {
                    let (a, b) = (labels.contains(from), labels.contains(to));
                    &&& id.len() > 0
                    &&& !is_equity(chart, from) && !is_equity(chart, to)
                    &&& a && b <==> route is LeftToStatements
                    &&& !a && !b <==> route is Standalone
                    &&& a && !b && out.magnitude != 0 ==> leads_to(
                        route,
                        near(chart, from, Some(to)),
                        -amount::worth(out),
                        out_currency,
                    )
                    &&& !a && b && inn.magnitude != 0 ==> leads_to(
                        route,
                        near(chart, to, Some(from)),
                        amount::worth(inn),
                        in_currency,
                    )
                    &&& route is Nowhere ==> (a && !b && out.magnitude == 0) || (!a && b
                        && inn.magnitude == 0)
                },
                _ => true,
            }
        }),
{
    let names = daily::accounts_of(e);
    touched_of_two(labels, names);
    assert(is_equity(chart, names[0]) ==> is_opening(chart, e));
    assert(is_equity(chart, names[1]) ==> is_opening(chart, e));
    daily::a_record_moves_what_it_says(e, names[0]);
    daily::a_record_moves_what_it_says(e, names[1]);
}

/// The institution's own label lands on its settlement account where the other
/// side is its settlement label, and else on its primary one; any other label
/// lands on the account it is mapped to.
pub proof fn a_label_lands_on_its_account(
    chart: Chart,
    label: Seq<char>,
    contra: Option<Seq<char>>,
)
    ensures
        ({
            let own = label == chart.institution.app_account@;
            let settles = contra == Some(chart.institution.settlement_app_account@);
            let account = near(chart, label, contra);
            &&& own && settles ==> account == chart.institution.settlement@
            &&& own && !settles ==> account == chart.institution.primary@
            &&& !own && accounts::under(accounts::table(chart.accounts@), label) is Some
                ==> accounts::under(accounts::table(chart.accounts@), label) == Some(account)
        }),
{
}

/// A record without an id, or on the opening equity, is refused.
pub proof fn a_record_is_told_apart(chart: Chart, labels: Seq<Seq<char>>, e: EntryV, i: int)
    requires
        0 <= i < daily::accounts_of(e).len(),
        daily::id_of(e).len() == 0 || accounts::under(
            accounts::table(chart.accounts@),
            daily::accounts_of(e)[i],
        ) == Some(model::OPENING_EQUITY@),
    ensures
        route_of(chart, labels, e) is Err,
{
    assert(is_equity(chart, daily::accounts_of(e)[i]) ==> is_opening(chart, e));
}

/// Every record left to the statements, or written and not moving nothing, is
/// booked with its id, day, memo and kind, and as it is written.
pub proof fn every_record_that_moves_is_booked(
    chart: Chart,
    labels: Seq<Seq<char>>,
    entries: Seq<EntryV>,
    drafts: Seq<Option<DraftV>>,
    k: int,
) -> (i: int)
    requires
        books(chart, labels, entries, drafts) is Ok,
        0 <= k < entries.len(),
        route_of(chart, labels, entries[k]) matches Ok(route) && !(route is Nowhere) && (
        route is LeftToStatements || drafts[k] is Some),
    ensures
        ({
            let all = books(chart, labels, entries, drafts)->Ok_0;
            let route = route_of(chart, labels, entries[k])->Ok_0;
            let b = all[i];
            &&& 0 <= i < all.len()
            &&& b.id == daily::id_of(entries[k])
            &&& b.date == daily::day_of(entries[k])
            &&& b.memo == daily::memo_of(entries[k])
            &&& b.transfer == entries[k] is Transfer
            &&& match b.booking {
                BookingV::Standalone(t) => route is Standalone && is_written_as(t, drafts[k]->0),
                BookingV::OnStatement { leg, transaction } => route == RouteV::OnStatement(leg)
                    && is_written_as(transaction, drafts[k]->0),
                BookingV::LeftToStatements => route is LeftToStatements,
            }
        }),
    decreases entries.len(),
{
    if k < entries.len() - 1 {
        every_record_that_moves_is_booked(chart, labels, entries.drop_last(), drafts, k)
    } else {
        books(chart, labels, entries, drafts)->Ok_0.len() - 1
    }
}

/// Is a transaction what the draft says, but for its ref?
pub open spec fn is_written_as(t: DraftV, d: DraftV) -> bool {
    &&& t.date == d.date
    &&& t.payee == d.payee
    &&& t.narration == d.narration
    &&& t.tags == d.tags
    &&& t.source == d.source
    &&& t.postings == d.postings
}

} // verus!
