//! The journal: transactions newest first with their legs, filtered and paged.

use vstd::prelude::*;

use crate::amount;
use crate::amount::{Amount, Dec};
use crate::currency;
use crate::currency::Currency;
use crate::date;
use crate::date::Date;
use crate::journal;
use crate::model;
use crate::model::Source;
use crate::refusal::Refusal;
use crate::text;
use crate::text::Class;

use super::events;
use super::query;
use super::query::AccountType;

verus! {

/// Which transactions to list.
#[derive(Debug, Clone, PartialEq)]
pub struct Filter {
    /// A chart path: transactions with a leg on it or below it.
    pub account: Option<String>,
    pub from: Option<Date>,
    pub to: Option<Date>,
    /// Matched in payee or narration, ASCII case-insensitive.
    pub text: Option<String>,
    pub reviewed: Option<bool>,
    /// Only records no statement has checked yet.
    pub unverified: bool,
    pub source: Option<Source>,
}

impl Filter {
    /// The filter that lists every transaction.
    pub fn all() -> (r: Filter)
        ensures
            conditions(r) == seq![PieceV::Sql(" WHERE t.deleted_at IS NULL"@)],
    {
        let f = Filter {
            account: None,
            from: None,
            to: None,
            text: None,
            reviewed: None,
            unverified: false,
            source: None,
        };
        assert(conditions(f) =~= seq![PieceV::Sql(" WHERE t.deleted_at IS NULL"@)]);
        f
    }
}

/// A piece of a query: text of the query itself, or a value bound to it.
#[derive(Debug, Clone, PartialEq)]
pub enum Piece {
    Sql(String),
    Text(String),
    Flag(bool),
}

pub enum PieceV {
    Sql(Seq<char>),
    Text(Seq<char>),
    Flag(bool),
}

impl View for Piece {
    type V = PieceV;

    open spec fn view(&self) -> PieceV {
        match self {
            Piece::Sql(s) => PieceV::Sql(s@),
            Piece::Text(s) => PieceV::Text(s@),
            Piece::Flag(b) => PieceV::Flag(*b),
        }
    }
}

pub open spec fn piece_views(v: Seq<Piece>) -> Seq<PieceV> {
    v.map_values(|p: Piece| p@)
}

/// Typed text matches itself, never as a LIKE wildcard.
pub open spec fn escaped(s: Seq<char>) -> Seq<char>
    decreases s.len(),
{
    if s.len() == 0 {
        Seq::empty()
    } else {
        let rest = escaped(s.drop_last());
        let c = s.last();
        if c == '%' || c == '_' || c == '\\' {
            rest.push('\\').push(c)
        } else {
            rest.push(c)
        }
    }
}

/// Typed text matches itself, never as a LIKE wildcard.
pub fn escape_like(s: &str) -> (r: String)
    ensures
        r@ == escaped(s@),
{
    let cs = text::chars(s);
    let mut out: Vec<char> = Vec::new();
    let mut i: usize = 0;
    assert(out@ =~= escaped(cs@.take(0)));
    while i < cs.len()
        invariant
            i <= cs@.len(),
            cs@ == s@,
            out@ == escaped(cs@.take(i as int)),
        decreases cs@.len() - i,
    {
        let c = cs[i];
        assert(cs@.take(i as int + 1).drop_last() =~= cs@.take(i as int));
        if c == '%' || c == '_' || c == '\\' {
            out.push('\\');
        }
        out.push(c);
        i = i + 1;
    }
    assert(cs@.take(i as int) =~= cs@);
    text::string_of(out.as_slice())
}

/// True when some leg of `t` carries the unverified tag.
pub open spec fn unverified() -> Seq<PieceV> {
    seq![
        PieceV::Sql(
            "EXISTS (SELECT 1 FROM postings u WHERE u.transaction_id = t.id AND instr(',' || coalesce(u.tags, '') || ',', ',' || "@,
        ),
        PieceV::Text(model::UNVERIFIED_TAG@),
        PieceV::Sql(" || ',') > 0)"@),
    ]
}

pub open spec fn on_account(a: Option<Seq<char>>) -> Seq<PieceV> {
    match a {
        None => Seq::empty(),
        Some(a) => seq![
            PieceV::Sql(
                " AND EXISTS (SELECT 1 FROM postings p JOIN accounts a ON a.id = p.account_id WHERE p.transaction_id = t.id AND (a.path = "@,
            ),
            PieceV::Text(a),
            PieceV::Sql(" OR substr(a.path, 1, length("@),
            PieceV::Text(a),
            PieceV::Sql(") + 1) = "@),
            PieceV::Text(a),
            PieceV::Sql(" || ':'))"@),
        ],
    }
}

pub open spec fn dated(sql: Seq<char>, d: Option<int>) -> Seq<PieceV> {
    match d {
        None => Seq::empty(),
        Some(d) => seq![PieceV::Sql(sql), PieceV::Text(date::printed(d))],
    }
}

pub open spec fn worded(s: Option<Seq<char>>) -> Seq<PieceV> {
    match s {
        None => Seq::empty(),
        Some(s) => {
            let t = text::trimmed(s, Class::White);
            let pattern = "%"@ + escaped(t) + "%"@;
            if t.len() == 0 {
                Seq::empty()
            } else {
                seq![
                    PieceV::Sql(" AND (t.payee LIKE "@),
                    PieceV::Text(pattern),
                    PieceV::Sql(" ESCAPE '\\' OR t.narration LIKE "@),
                    PieceV::Text(pattern),
                    PieceV::Sql(" ESCAPE '\\')"@),
                ]
            }
        },
    }
}

/// The conditions on whether a transaction is reviewed or verified, and where
/// it comes from.
pub open spec fn in_state(f: Filter) -> Seq<PieceV> {
    (match f.reviewed {
        None => Seq::empty(),
        Some(b) => seq![PieceV::Sql(" AND t.reviewed = "@), PieceV::Flag(b)],
    }) + (if f.unverified {
        seq![PieceV::Sql(" AND "@)] + unverified()
    } else {
        Seq::empty()
    }) + (match f.source {
        None => Seq::empty(),
        Some(s) => seq![PieceV::Sql(" AND t.source = "@), PieceV::Text(model::source_text(s))],
    })
}

/// The conditions a filter puts on the transactions `t` of a query.
pub open spec fn conditions(f: Filter) -> Seq<PieceV> {
    seq![PieceV::Sql(" WHERE t.deleted_at IS NULL"@)] + on_account(text::opt(f.account)) + dated(
        " AND t.date >= "@,
        date::opt(f.from),
    ) + dated(" AND t.date <= "@, date::opt(f.to)) + worded(text::opt(f.text)) + in_state(f)
}

fn push_sql(q: &mut Vec<Piece>, s: &str)
    ensures
        piece_views(final(q)@) == piece_views(old(q)@).push(PieceV::Sql(s@)),
{
    let ghost before = q@;
    q.push(Piece::Sql(text::copy(s)));
    assert(piece_views(q@) =~= piece_views(before).push(PieceV::Sql(s@)));
}

fn push_bind(q: &mut Vec<Piece>, s: &str)
    ensures
        piece_views(final(q)@) == piece_views(old(q)@).push(PieceV::Text(s@)),
{
    let ghost before = q@;
    q.push(Piece::Text(text::copy(s)));
    assert(piece_views(q@) =~= piece_views(before).push(PieceV::Text(s@)));
}

/// Pushes the condition that some leg of `t` carries the unverified tag.
pub fn push_unverified(q: &mut Vec<Piece>)
    ensures
        piece_views(final(q)@) == piece_views(old(q)@) + unverified(),
{
    let ghost before = piece_views(q@);
    push_sql(
        q,
        "EXISTS (SELECT 1 FROM postings u WHERE u.transaction_id = t.id AND instr(',' || coalesce(u.tags, '') || ',', ',' || ",
    );
    push_bind(q, model::UNVERIFIED_TAG);
    push_sql(q, " || ',') > 0)");
    assert(piece_views(q@) =~= before + unverified());
}

fn push_account(q: &mut Vec<Piece>, a: &Option<String>)
    ensures
        piece_views(final(q)@) == piece_views(old(q)@) + on_account(text::opt(*a)),
{
    let ghost before = piece_views(q@);
    if let Some(a) = a {
        push_sql(
            q,
            " AND EXISTS (SELECT 1 FROM postings p JOIN accounts a ON a.id = p.account_id WHERE p.transaction_id = t.id AND (a.path = ",
        );
        push_bind(q, a.as_str());
        push_sql(q, " OR substr(a.path, 1, length(");
        push_bind(q, a.as_str());
        push_sql(q, ") + 1) = ");
        push_bind(q, a.as_str());
        push_sql(q, " || ':'))");
    }
    assert(piece_views(q@) =~= before + on_account(text::opt(*a)));
}

fn push_dated(q: &mut Vec<Piece>, sql: &str, d: Option<Date>)
    ensures
        piece_views(final(q)@) == piece_views(old(q)@) + dated(sql@, date::opt(d)),
{
    let ghost before = piece_views(q@);
    if let Some(d) = d {
        push_sql(q, sql);
        push_bind(q, d.text().as_str());
    }
    assert(piece_views(q@) =~= before + dated(sql@, date::opt(d)));
}

fn push_worded(q: &mut Vec<Piece>, s: &Option<String>)
    ensures
        piece_views(final(q)@) == piece_views(old(q)@) + worded(text::opt(*s)),
{
    let ghost before = piece_views(q@);
    if let Some(s) = s {
        let t = text::trim(s.as_str(), Class::White);
        if t.as_str().unicode_len() > 0 {
            let mut pattern = text::copy("%");
            pattern.append(escape_like(t.as_str()).as_str());
            pattern.append("%");
            push_sql(q, " AND (t.payee LIKE ");
            push_bind(q, pattern.as_str());
            push_sql(q, " ESCAPE '\\' OR t.narration LIKE ");
            push_bind(q, pattern.as_str());
            push_sql(q, " ESCAPE '\\')");
        }
    }
    assert(piece_views(q@) =~= before + worded(text::opt(*s)));
}

fn push_state(q: &mut Vec<Piece>, filter: &Filter)
    ensures
        piece_views(final(q)@) == piece_views(old(q)@) + in_state(*filter),
{
    let ghost before = piece_views(q@);
    if let Some(reviewed) = filter.reviewed {
        push_sql(q, " AND t.reviewed = ");
        let ghost had = q@;
        q.push(Piece::Flag(reviewed));
        assert(piece_views(q@) =~= piece_views(had).push(PieceV::Flag(reviewed)));
    }
    if filter.unverified {
        push_sql(q, " AND ");
        push_unverified(q);
    }
    if let Some(source) = filter.source {
        push_sql(q, " AND t.source = ");
        push_bind(q, source.text());
    }
    assert(piece_views(q@) =~= before + in_state(*filter));
}

/// Pushes the conditions a filter puts on the transactions `t` of a query.
pub fn push_conditions(q: &mut Vec<Piece>, filter: &Filter)
    ensures
        piece_views(final(q)@) == piece_views(old(q)@) + conditions(*filter),
{
    let ghost before = piece_views(q@);
    push_sql(q, " WHERE t.deleted_at IS NULL");
    push_account(q, &filter.account);
    push_dated(q, " AND t.date >= ", filter.from);
    push_dated(q, " AND t.date <= ", filter.to);
    push_worded(q, &filter.text);
    push_state(q, filter);
    assert(piece_views(q@) =~= before + conditions(*filter));
}

/// The first `n` characters with each escaped one taken for itself.
pub open spec fn unescaped(s: Seq<char>, n: int) -> Seq<char>
    decreases n,
{
    if n <= 0 {
        Seq::empty()
    } else if n >= 2 && s[n - 2] == '\\' && (s[n - 1] == '%' || s[n - 1] == '_' || s[n - 1] == '\\') {
        unescaped(s, n - 2).push(s[n - 1])
    } else {
        unescaped(s, n - 1).push(s[n - 1])
    }
}

proof fn unescaped_in_prefix(s: Seq<char>, more: Seq<char>, n: int)
    requires
        0 <= n <= s.len(),
    ensures
        unescaped(s + more, n) == unescaped(s, n),
    decreases n,
{
    if n > 0 {
        unescaped_in_prefix(s, more, n - 1);
        if n >= 2 {
            unescaped_in_prefix(s, more, n - 2);
        }
    }
}

/// Taking each escaped character for itself gives the typed text back.
pub proof fn escaping_keeps_the_text(s: Seq<char>)
    ensures
        unescaped(escaped(s), escaped(s).len() as int) == s,
    decreases s.len(),
{
    if s.len() > 0 {
        let shorter = s.drop_last();
        let rest = escaped(shorter);
        let c = s.last();
        escaping_keeps_the_text(shorter);
        if c == '%' || c == '_' || c == '\\' {
            assert(escaped(s) =~= rest + seq!['\\', c]);
            unescaped_in_prefix(rest, seq!['\\', c], rest.len() as int);
        } else {
            assert(escaped(s) =~= rest + seq![c]);
            unescaped_in_prefix(rest, seq![c], rest.len() as int);
        }
        assert(shorter.push(c) =~= s);
    }
}

/// One leg of a listed transaction.
#[derive(Debug, Clone, PartialEq)]
pub struct Leg {
    /// The posting's id.
    pub id: i64,
    pub account: String,
    pub amount: Amount,
    pub currency: Currency,
    pub origin: Option<String>,
}

#[verifier::ext_equal]
pub struct LegV {
    pub id: int,
    pub account: Seq<char>,
    pub amount: Dec,
    pub currency: Currency,
    pub origin: Option<Seq<char>>,
}

impl View for Leg {
    type V = LegV;

    open spec fn view(&self) -> LegV {
        LegV {
            id: self.id as int,
            account: self.account@,
            amount: self.amount@,
            currency: self.currency,
            origin: text::opt(self.origin),
        }
    }
}

pub open spec fn leg_views(v: Seq<Leg>) -> Seq<LegV> {
    v.map_values(|l: Leg| l@)
}

/// One listed transaction.
#[derive(Debug, Clone, PartialEq)]
pub struct Entry {
    pub id: i64,
    pub date: Date,
    pub payee: Option<String>,
    pub narration: Option<String>,
    pub source: Source,
    pub reviewed: bool,
    pub unverified: bool,
    pub legs: Vec<Leg>,
}

#[verifier::ext_equal]
pub struct EntryV {
    pub id: int,
    pub date: int,
    pub payee: Option<Seq<char>>,
    pub narration: Option<Seq<char>>,
    pub source: Source,
    pub reviewed: bool,
    pub unverified: bool,
    pub legs: Seq<LegV>,
}

impl View for Entry {
    type V = EntryV;

    open spec fn view(&self) -> EntryV {
        EntryV {
            id: self.id as int,
            date: self.date@,
            payee: text::opt(self.payee),
            narration: text::opt(self.narration),
            source: self.source,
            reviewed: self.reviewed,
            unverified: self.unverified,
            legs: leg_views(self.legs@),
        }
    }
}

pub open spec fn entry_views(v: Seq<Entry>) -> Seq<EntryV> {
    v.map_values(|e: Entry| e@)
}

/// A transaction, as the database holds it.
pub struct EntryRow {
    pub id: i64,
    pub date: String,
    pub payee: Option<String>,
    pub narration: Option<String>,
    pub source: String,
    pub reviewed: bool,
    pub unverified: bool,
}

/// The transaction a row holds, without legs.
pub open spec fn entry_in(r: EntryRow) -> Result<EntryV, Seq<char>> {
    match date::read(r.date@) {
        None => Err("transaction "@ + text::signed_digits(r.id as int) + " date"@),
        Some(day) => match model::source_of(r.source@) {
            None => Err(events::misread("source"@, r.source@)),
            Some(s) => Ok(
                EntryV {
                    id: r.id as int,
                    date: day,
                    payee: text::opt(r.payee),
                    narration: text::opt(r.narration),
                    source: s,
                    reviewed: r.reviewed,
                    unverified: r.unverified,
                    legs: Seq::empty(),
                },
            ),
        },
    }
}

impl EntryRow {
    /// The transaction the row holds, without legs.
    pub fn read(&self) -> (r: Result<Entry, Refusal>)
        ensures
            match r {
                Ok(e) => entry_in(*self) == Ok::<EntryV, Seq<char>>(e@),
                Err(e) => entry_in(*self) == Err::<EntryV, Seq<char>>(e@),
            },
    {
        let date = match Date::from_iso(self.date.as_str()) {
            Some(d) => d,
            None => {
                let mut out = text::copy("transaction ");
                out.append(text::signed_number(self.id).as_str());
                out.append(" date");
                return Err(Refusal { message: out });
            },
        };
        match Source::parse(self.source.as_str()) {
            None => Err(events::misreads("source", self.source.as_str())),
            Some(source) => {
                let legs: Vec<Leg> = Vec::new();
                assert(leg_views(legs@) =~= Seq::empty());
                Ok(
                    Entry {
                        id: self.id,
                        date,
                        payee: journal::copy_opt(&self.payee),
                        narration: journal::copy_opt(&self.narration),
                        source,
                        reviewed: self.reviewed,
                        unverified: self.unverified,
                        legs,
                    },
                )
            },
        }
    }
}

/// A posting, as the database holds it.
pub struct LegRow {
    pub id: i64,
    pub transaction_id: i64,
    pub path: String,
    pub amount: String,
    pub currency: String,
    pub origin: Option<String>,
}

pub struct LegRowV {
    pub id: int,
    pub transaction_id: int,
    pub path: Seq<char>,
    pub amount: Seq<char>,
    pub currency: Seq<char>,
    pub origin: Option<Seq<char>>,
}

impl View for LegRow {
    type V = LegRowV;

    open spec fn view(&self) -> LegRowV {
        LegRowV {
            id: self.id as int,
            transaction_id: self.transaction_id as int,
            path: self.path@,
            amount: self.amount@,
            currency: self.currency@,
            origin: text::opt(self.origin),
        }
    }
}

pub open spec fn leg_rows(v: Seq<LegRow>) -> Seq<LegRowV> {
    v.map_values(|r: LegRow| r@)
}

/// The leg a row holds.
pub open spec fn leg_in(r: LegRowV) -> Result<LegV, Seq<char>> {
    match amount::spelled(r.amount) {
        None => Err(events::misread("posting amount"@, r.amount)),
        Some(a) => match currency::of_code(r.currency) {
            None => Err(events::misread("currency"@, r.currency)),
            Some(c) => Ok(
                LegV { id: r.id, account: r.path, amount: a, currency: c, origin: r.origin },
            ),
        },
    }
}

impl LegRow {
    /// The leg the row holds.
    pub fn read(&self) -> (r: Result<Leg, Refusal>)
        ensures
            match r {
                Ok(l) => leg_in(self@) == Ok::<LegV, Seq<char>>(l@),
                Err(e) => leg_in(self@) == Err::<LegV, Seq<char>>(e@),
            },
    {
        let amount = match Amount::parse(self.amount.as_str()) {
            Some(a) => a,
            None => return Err(events::misreads("posting amount", self.amount.as_str())),
        };
        match Currency::parse(self.currency.as_str()) {
            Some(currency) => Ok(
                Leg {
                    id: self.id,
                    account: text::copy(self.path.as_str()),
                    amount,
                    currency,
                    origin: journal::copy_opt(&self.origin),
                },
            ),
            None => Err(events::misreads("currency", self.currency.as_str())),
        }
    }
}

/// Where the transaction `id` is listed, from `from` on.
pub open spec fn listed_at(entries: Seq<EntryV>, id: int, from: int) -> Option<int>
    decreases entries.len() - from,
{
    if from < 0 || from >= entries.len() {
        None
    } else if entries[from].id == id {
        Some(from)
    } else {
        listed_at(entries, id, from + 1)
    }
}

/// The transactions with the legs of the rows, each behind those of its
/// transaction; a leg of a transaction that is not listed is left out.
pub open spec fn with_legs(entries: Seq<EntryV>, rows: Seq<LegRowV>) -> Result<
    Seq<EntryV>,
    Seq<char>,
>
    decreases rows.len(),
{
    if rows.len() == 0 {
        Ok(entries)
    } else {
        match with_legs(entries, rows.drop_last()) {
            Err(e) => Err(e),
            Ok(m) => match leg_in(rows.last()) {
                Err(e) => Err(e),
                Ok(l) => match listed_at(m, rows.last().transaction_id, 0) {
                    None => Ok(m),
                    Some(i) => Ok(m.update(i, EntryV { legs: m[i].legs.push(l), ..m[i] })),
                },
            },
        }
    }
}

proof fn refused_legs_stay(entries: Seq<EntryV>, rows: Seq<LegRowV>, n: int)
    requires
        0 <= n <= rows.len(),
        with_legs(entries, rows.take(n)) is Err,
    ensures
        with_legs(entries, rows) == with_legs(entries, rows.take(n)),
    decreases rows.len() - n,
{
    if n < rows.len() {
        assert(rows.take(n + 1).drop_last() =~= rows.take(n));
        refused_legs_stay(entries, rows, n + 1);
    } else {
        assert(rows.take(n) =~= rows);
    }
}

fn find_entry(entries: &Vec<Entry>, id: i64) -> (r: Option<usize>)
    ensures
        match r {
            Some(i) => i < entries@.len() && listed_at(entry_views(entries@), id as int, 0) == Some(
                i as int,
            ),
            None => listed_at(entry_views(entries@), id as int, 0) is None,
        },
{
    let ghost all = entry_views(entries@);
    let mut i: usize = 0;
    while i < entries.len()
        invariant
            i <= entries@.len(),
            all == entry_views(entries@),
            listed_at(all, id as int, 0) == listed_at(all, id as int, i as int),
        decreases entries@.len() - i,
    {
        assert(all[i as int] == entries@[i as int]@);
        if entries[i].id == id {
            return Some(i);
        }
        i = i + 1;
    }
    None
}

/// Adds the legs of the rows to the transactions listed.
pub fn add_legs(entries: Vec<Entry>, rows: &Vec<LegRow>) -> (r: Result<Vec<Entry>, Refusal>)
    ensures
        match r {
            Ok(v) => with_legs(entry_views(entries@), leg_rows(rows@)) == Ok::<
                Seq<EntryV>,
                Seq<char>,
            >(entry_views(v@)),
            Err(e) => with_legs(entry_views(entries@), leg_rows(rows@)) == Err::<
                Seq<EntryV>,
                Seq<char>,
            >(e@),
        },
{
    let ghost start = entry_views(entries@);
    let ghost all = leg_rows(rows@);
    let mut out = entries;
    let mut i: usize = 0;
    while i < rows.len()
        invariant
            i <= rows@.len(),
            all == leg_rows(rows@),
            start == entry_views(entries@),
            with_legs(start, all.take(i as int)) == Ok::<Seq<EntryV>, Seq<char>>(
                entry_views(out@),
            ),
        decreases rows@.len() - i,
    {
        let ghost before = entry_views(out@);
        assert(all[i as int] == rows@[i as int]@);
        assert(all.take(i as int + 1).drop_last() =~= all.take(i as int));
        match rows[i].read() {
            Err(e) => {
                proof {
                    refused_legs_stay(start, all, i as int + 1);
                }
                return Err(e);
            },
            Ok(leg) => {
                if let Some(k) = find_entry(&out, rows[i].transaction_id) {
                    assert(before[k as int] == out@[k as int]@);
                    let mut e = out.remove(k);
                    let ghost had = e.legs@;
                    e.legs.push(leg);
                    assert(leg_views(e.legs@) =~= leg_views(had).push(leg@));
                    out.insert(k, e);
                    assert(entry_views(out@) =~= before.update(
                        k as int,
                        EntryV { legs: before[k as int].legs.push(leg@), ..before[k as int] },
                    ));
                }
            },
        }
        i = i + 1;
    }
    assert(all.take(i as int) =~= all);
    Ok(out)
}

/// An account of the chart.
#[derive(Debug, Clone, PartialEq)]
pub struct Account {
    pub path: String,
    pub label: String,
    pub account_type: AccountType,
    pub closed: bool,
}

/// The account of a stored row.
pub fn account_of(path: String, label: String, acct_type: &str, closed: bool) -> (r: Result<
    Account,
    Refusal,
>)
    ensures
        match r {
            Ok(a) => query::type_of(acct_type@) == Some(a.account_type) && a.path == path && a.label
                == label && a.closed == closed,
            Err(e) => query::type_of(acct_type@) is None && e@ == events::misread(
                "account type"@,
                acct_type@,
            ),
        },
{
    match AccountType::parse(acct_type) {
        Some(account_type) => Ok(Account { path, label, account_type, closed }),
        None => Err(events::misreads("account type", acct_type)),
    }
}

proof fn where_listed(entries: Seq<EntryV>, id: int, from: int)
    requires
        0 <= from,
    ensures
        match listed_at(entries, id, from) {
            Some(i) => from <= i < entries.len() && entries[i].id == id && forall|k: int|
                from <= k < i ==> (#[trigger] entries[k]).id != id,
            None => forall|k: int| from <= k < entries.len() ==> (#[trigger] entries[k]).id != id,
        },
    decreases entries.len() - from,
{
    if from < entries.len() && entries[from].id != id {
        where_listed(entries, id, from + 1);
    }
}

/// The legs of the rows of one transaction.
pub open spec fn legs_of(rows: Seq<LegRowV>, id: int) -> Seq<LegV> {
    rows.filter(|r: LegRowV| r.transaction_id == id).map_values(|r: LegRowV| leg_in(r)->Ok_0)
}

/// A listed transaction has the legs of its own rows, in their order, and keeps
/// what else is said of it, where no two transactions have one id.
pub proof fn a_transaction_has_its_own_legs(entries: Seq<EntryV>, rows: Seq<LegRowV>, i: int)
    requires
        with_legs(entries, rows) is Ok,
        0 <= i < entries.len(),
        forall|j: int, k: int|
            0 <= j < k < entries.len() ==> (#[trigger] entries[j]).id != (
            #[trigger] entries[k]).id,
    ensures
        ({
            let all = with_legs(entries, rows)->Ok_0;
            &&& all.len() == entries.len()
            &&& all[i].legs == entries[i].legs + legs_of(rows, entries[i].id)
            &&& all[i].id == entries[i].id
            &&& all[i].date == entries[i].date
            &&& all[i].payee == entries[i].payee
            &&& all[i].narration == entries[i].narration
            &&& all[i].source == entries[i].source
            &&& all[i].reviewed == entries[i].reviewed
            &&& all[i].unverified == entries[i].unverified
        }),
    decreases rows.len(),
{
    reveal(Seq::filter);
    let all = with_legs(entries, rows)->Ok_0;
    let id = entries[i].id;
    let now = legs_of(rows, id);
    if rows.len() == 0 {
        assert(now =~= Seq::empty());
        assert(all[i].legs =~= entries[i].legs + now);
    } else {
        let shorter = rows.drop_last();
        a_transaction_has_its_own_legs(entries, shorter, i);
        let m = with_legs(entries, shorter)->Ok_0;
        let before = legs_of(shorter, id);
        let r = rows.last();
        where_listed(m, r.transaction_id, 0);
        if r.transaction_id == id {
            assert(now =~= before.push(leg_in(r)->Ok_0));
            assert(m[i].id == id);
            let at = listed_at(m, id, 0)->0;
            a_transaction_has_its_own_legs(entries, shorter, at);
            if at < i {
                assert(entries[at].id != entries[i].id);
            }
            assert(at == i);
            assert(all[i].legs =~= entries[i].legs + now);
        } else {
            assert(now =~= before);
        }
    }
}

/// Does a query hold one piece right behind another?
pub open spec fn has_pair(q: Seq<PieceV>, a: PieceV, b: PieceV) -> bool {
    exists|i: int| 0 <= i && i + 1 < q.len() && #[trigger] q[i] == a && q[i + 1] == b
}

proof fn pair_within(head: Seq<PieceV>, tail: Seq<PieceV>, a: PieceV, b: PieceV)
    ensures
        has_pair(head + seq![a, b] + tail, a, b),
{
    let q = head + seq![a, b] + tail;
    let i = head.len() as int;
    assert(q[i] == a && q[i + 1] == b);
}

/// How many pieces a filter takes where a part of it is given.
pub open spec fn pieces_if(given: bool, n: int) -> int {
    if given {
        n
    } else {
        0
    }
}

/// A filter asks for the days it is given: none before the first, none after
/// the last.
pub proof fn a_filter_bounds_the_days(f: Filter)
    ensures
        f.from matches Some(d) ==> has_pair(
            conditions(f),
            PieceV::Sql(" AND t.date >= "@),
            PieceV::Text(date::printed(d@)),
        ),
        f.to matches Some(d) ==> has_pair(
            conditions(f),
            PieceV::Sql(" AND t.date <= "@),
            PieceV::Text(date::printed(d@)),
        ),
{
    let head = seq![PieceV::Sql(" WHERE t.deleted_at IS NULL"@)] + on_account(
        text::opt(f.account),
    );
    let from = dated(" AND t.date >= "@, date::opt(f.from));
    let to = dated(" AND t.date <= "@, date::opt(f.to));
    let tail = worded(text::opt(f.text)) + in_state(f);
    if let Some(d) = f.from {
        let (a, b) = (PieceV::Sql(" AND t.date >= "@), PieceV::Text(date::printed(d@)));
        pair_within(head, to + tail, a, b);
        assert(conditions(f) =~= head + seq![a, b] + (to + tail));
    }
    if let Some(d) = f.to {
        let (a, b) = (PieceV::Sql(" AND t.date <= "@), PieceV::Text(date::printed(d@)));
        pair_within(head + from, tail, a, b);
        assert(conditions(f) =~= head + from + seq![a, b] + tail);
    }
}

/// A filter asks for the review and the source it is given.
pub proof fn a_filter_asks_for_its_state(f: Filter)
    ensures
        f.reviewed matches Some(b) ==> has_pair(
            conditions(f),
            PieceV::Sql(" AND t.reviewed = "@),
            PieceV::Flag(b),
        ),
        f.source matches Some(s) ==> has_pair(
            conditions(f),
            PieceV::Sql(" AND t.source = "@),
            PieceV::Text(model::source_text(s)),
        ),
        f.account matches Some(a) ==> conditions(f)[2] == PieceV::Text(a@) && conditions(f)[4]
            == PieceV::Text(a@) && conditions(f)[6] == PieceV::Text(a@),
        f.unverified ==> conditions(f).contains(PieceV::Text(model::UNVERIFIED_TAG@)),
{
    let none: Seq<PieceV> = Seq::empty();
    let head = seq![PieceV::Sql(" WHERE t.deleted_at IS NULL"@)] + on_account(
        text::opt(f.account),
    ) + dated(" AND t.date >= "@, date::opt(f.from)) + dated(
        " AND t.date <= "@,
        date::opt(f.to),
    ) + worded(text::opt(f.text));
    let first = match f.reviewed {
        None => none,
        Some(b) => seq![PieceV::Sql(" AND t.reviewed = "@), PieceV::Flag(b)],
    };
    let second = if f.unverified {
        seq![PieceV::Sql(" AND "@)] + unverified()
    } else {
        none
    };
    let third = match f.source {
        None => none,
        Some(s) => seq![PieceV::Sql(" AND t.source = "@), PieceV::Text(model::source_text(s))],
    };
    assert(conditions(f) =~= head + first + second + third);
    if let Some(b) = f.reviewed {
        let (x, y) = (PieceV::Sql(" AND t.reviewed = "@), PieceV::Flag(b));
        pair_within(head, second + third, x, y);
        assert(conditions(f) =~= head + seq![x, y] + (second + third));
    }
    if let Some(s) = f.source {
        let (x, y) = (
            PieceV::Sql(" AND t.source = "@),
            PieceV::Text(model::source_text(s)),
        );
        pair_within(head + first + second, none, x, y);
        assert(conditions(f) =~= head + first + second + seq![x, y] + none);
    }
    if f.unverified {
        let i = head.len() + first.len() + 2int;
        assert(conditions(f)[i] == second[2]);
        assert(second[2] == PieceV::Text(model::UNVERIFIED_TAG@));
    }
}

/// A filter asks for nothing it is not given.
pub proof fn a_filter_asks_for_no_more(f: Filter)
    ensures
        ({
            let words = f.text matches Some(s) && text::trimmed(s@, Class::White).len() > 0;
            conditions(f).len() == 1 + pieces_if(f.account is Some, 7) + pieces_if(
                f.from is Some,
                2,
            ) + pieces_if(f.to is Some, 2) + pieces_if(words, 5) + pieces_if(
                f.reviewed is Some,
                2,
            ) + pieces_if(f.unverified, 4) + pieces_if(f.source is Some, 2)
        }),
{
}

} // verus!
