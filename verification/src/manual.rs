//! Hand-entered cash and anything no statement covers.
//!
//! Each row is one balanced two-leg, single-currency transaction — `amount` is
//! the signed effect on `account`, and `contra` gets its negation — so a
//! hand-typed entry cannot drift out of balance. Cross-currency and 3+-leg
//! entries are deliberately not expressible here.
//!
//! Columns (header row, read by name; `#` starts a comment line):
//! `date, account, contra, amount, currency, payee, narration, tags`. Only
//! `date`, `account`, `contra` and `amount` are required; `currency` defaults
//! to TWD and the rest to empty. `tags` is whitespace/`;`-separated.

use vstd::prelude::*;

use crate::amount;
use crate::amount::Amount;
use crate::currency;
use crate::currency::Currency;
use crate::date;
use crate::date::Date;
use crate::interim::{Draft, DraftV};
use crate::model;
use crate::model::{Posting, Source};
use crate::refusal::Refusal;
use crate::rows;
use crate::text;
use crate::text::Class;

verus! {

/// A file's row, cells or the error it reads as.
pub type Record = Result<Vec<String>, String>;

/// Where a column stands among the header's first `n` cells: the last one of
/// its name, whatever its case.
pub open spec fn column(header: Seq<Seq<char>>, name: Seq<char>, n: int) -> Option<int>
    decreases n,
{
    if n <= 0 {
        None
    } else if text::lowered(text::trimmed(header[n - 1], Class::White)) == name {
        Some(n - 1)
    } else {
        column(header, name, n - 1)
    }
}

/// A cell that must be there.
pub open spec fn needed(row: Seq<Seq<char>>, i: int) -> Option<Seq<char>> {
    if 0 <= i < row.len() {
        Some(text::trimmed(row[i], Class::White))
    } else {
        None
    }
}

/// A cell that may be absent.
pub open spec fn optional(header: Seq<Seq<char>>, row: Seq<Seq<char>>, name: Seq<char>) -> Seq<char> {
    match column(header, name, header.len() as int) {
        None => Seq::empty(),
        Some(i) => text::trimmed(rows::cell(row, i), Class::White),
    }
}

/// What a file and the number of its row are named as.
pub open spec fn at(path: Seq<char>, n: int) -> Seq<char> {
    path + " row "@ + text::digits(n as nat)
}

pub open spec fn no_cell(path: Seq<char>, n: int, name: Seq<char>) -> Seq<char> {
    at(path, n) + " has no "@ + name + " cell"@
}

pub open spec fn unparseable(what: Seq<char>, cell: Seq<char>, n: int) -> Seq<char> {
    what + " "@ + text::debug_text(cell) + " at row "@ + text::digits(n as nat)
}

pub open spec fn missing(path: Seq<char>, name: Seq<char>) -> Seq<char> {
    path + " is missing the required column "@ + text::debug_text(name)
}

/// The required columns.
pub struct Columns {
    pub date: usize,
    pub account: usize,
    pub contra: usize,
    pub amount: usize,
}

/// Where the required columns stand.
pub open spec fn columns_of(header: Seq<Seq<char>>, path: Seq<char>) -> Result<
    (int, int, int, int),
    Seq<char>,
> {
    let n = header.len() as int;
    match column(header, "date"@, n) {
        None => Err(missing(path, "date"@)),
        Some(d) => match column(header, "account"@, n) {
            None => Err(missing(path, "account"@)),
            Some(a) => match column(header, "contra"@, n) {
                None => Err(missing(path, "contra"@)),
                Some(c) => match column(header, "amount"@, n) {
                    None => Err(missing(path, "amount"@)),
                    Some(m) => Ok((d, a, c, m)),
                },
            },
        },
    }
}

/// The currency a cell names; a blank one is TWD.
pub open spec fn currency_in(code: Seq<char>, n: int) -> Result<Currency, Seq<char>> {
    if code.len() == 0 {
        Ok(Currency::TWD)
    } else {
        match currency::of_code(code) {
            Some(c) => Ok(c),
            None => Err(unparseable("unknown currency"@, code, n)),
        }
    }
}

/// The transaction of the `n`-th row. Signed on the account; the contra leg is
/// the negation, so the two legs always sum to zero.
pub open spec fn transaction_in(
    header: Seq<Seq<char>>,
    columns: (int, int, int, int),
    row: Seq<Seq<char>>,
    path: Seq<char>,
    n: int,
) -> Result<DraftV, Seq<char>> {
    match needed(row, columns.0) {
        None => Err(no_cell(path, n, "date"@)),
        Some(day_cell) => match date::parsed_date(day_cell, "%Y-%m-%d"@) {
            None => Err(unparseable("unparseable date"@, day_cell, n)),
            Some(day) => match needed(row, columns.3) {
                None => Err(no_cell(path, n, "amount"@)),
                Some(amount_cell) => match amount::spelled(text::kept(amount_cell, Class::NotComma)) {
                    None => Err(unparseable("unparseable amount"@, amount_cell, n)),
                    Some(a) => match needed(row, columns.1) {
                        None => Err(no_cell(path, n, "account"@)),
                        Some(account) => match needed(row, columns.2) {
                            None => Err(no_cell(path, n, "contra"@)),
                            Some(contra) => if account.len() == 0 || contra.len() == 0 {
                                Err(at(path, n) + " has an empty account or contra"@)
                            } else {
                                match currency_in(optional(header, row, "currency"@), n) {
                                    Err(e) => Err(e),
                                    Ok(c) => Ok(
                                        DraftV {
                                            date: day as int,
                                            payee: optional(header, row, "payee"@),
                                            narration: optional(header, row, "narration"@),
                                            tags: text::runs(
                                                optional(header, row, "tags"@),
                                                Class::Tag,
                                            ),
                                            source: Source::Manual,
                                            external_ref: None,
                                            postings: seq![
                                                model::leg(account, a, c),
                                                model::leg(contra, amount::negated(a), c),
                                            ],
                                        },
                                    ),
                                }
                            },
                        },
                    },
                },
            },
        },
    }
}

pub open spec fn draft_views(v: Seq<Draft>) -> Seq<DraftV> {
    v.map_values(|d: Draft| d@)
}

/// The transactions of the rows behind the header.
pub open spec fn transactions_in(
    header: Seq<Seq<char>>,
    columns: (int, int, int, int),
    records: Seq<Result<Seq<Seq<char>>, Seq<char>>>,
    path: Seq<char>,
) -> Result<Seq<DraftV>, Seq<char>>
    decreases records.len(),
{
    if records.len() == 0 {
        Ok(Seq::empty())
    } else {
        match transactions_in(header, columns, records.drop_last(), path) {
            Err(e) => Err(e),
            Ok(rest) => match records.last() {
                Err(_) => Err("reading "@ + at(path, records.len() as int)),
                Ok(row) => match transaction_in(
                    header,
                    columns,
                    row,
                    path,
                    records.len() as int,
                ) {
                    Err(e) => Err(e),
                    Ok(t) => Ok(rest.push(t)),
                },
            },
        }
    }
}

/// The header of a file's rows; an empty file has an empty one.
pub open spec fn header_of(records: Seq<Result<Seq<Seq<char>>, Seq<char>>>) -> Option<Seq<Seq<char>>> {
    if records.len() == 0 {
        Some(Seq::empty())
    } else {
        match records[0] {
            Ok(h) => Some(h),
            Err(_) => None,
        }
    }
}

/// The transactions a file's rows hold.
pub open spec fn loaded(records: Seq<Result<Seq<Seq<char>>, Seq<char>>>, path: Seq<char>) -> Result<
    Seq<DraftV>,
    Seq<char>,
> {
    match header_of(records) {
        None => Err("reading the header of "@ + path),
        Some(header) => match columns_of(header, path) {
            Err(e) => Err(e),
            Ok(columns) => transactions_in(
                header,
                columns,
                if records.len() == 0 {
                    records
                } else {
                    records.skip(1)
                },
                path,
            ),
        },
    }
}

proof fn refused_records_stay(
    header: Seq<Seq<char>>,
    columns: (int, int, int, int),
    records: Seq<Result<Seq<Seq<char>>, Seq<char>>>,
    path: Seq<char>,
    n: int,
)
    requires
        0 <= n <= records.len(),
        transactions_in(header, columns, records.take(n), path) is Err,
    ensures
        transactions_in(header, columns, records, path) == transactions_in(
            header,
            columns,
            records.take(n),
            path,
        ),
    decreases records.len() - n,
{
    if n < records.len() {
        assert(records.take(n + 1).drop_last() =~= records.take(n));
        refused_records_stay(header, columns, records, path, n + 1);
    } else {
        assert(records.take(n) =~= records);
    }
}

fn find_column(header: &Vec<String>, name: &str) -> (r: Option<usize>)
    ensures
        match r {
            Some(i) => i < header@.len() && column(
                text::texts(header@),
                name@,
                header@.len() as int,
            ) == Some(i as int),
            None => column(text::texts(header@), name@, header@.len() as int) is None,
        },
{
    let ghost all = text::texts(header@);
    let mut n: usize = header.len();
    while n > 0
        invariant
            n <= header@.len(),
            all == text::texts(header@),
            column(all, name@, header@.len() as int) == column(all, name@, n as int),
        decreases n,
    {
        assert(all[n - 1] == header@[n - 1]@);
        let cell = text::trim(header[n - 1].as_str(), Class::White);
        if text::same_text(text::to_lower(cell.as_str()).as_str(), name) {
            return Some(n - 1);
        }
        n = n - 1;
    }
    None
}

fn require(header: &Vec<String>, name: &str, path: &str) -> (r: Result<usize, Refusal>)
    ensures
        match r {
            Ok(i) => i < header@.len() && column(
                text::texts(header@),
                name@,
                header@.len() as int,
            ) == Some(i as int),
            Err(e) => column(text::texts(header@), name@, header@.len() as int) is None && e@
                == missing(path@, name@),
        },
{
    match find_column(header, name) {
        Some(i) => Ok(i),
        None => {
            let mut out = text::copy(path);
            out.append(" is missing the required column ");
            out.append(text::quoted(name).as_str());
            Err(Refusal { message: out })
        },
    }
}

fn optional_of(header: &Vec<String>, row: &Vec<String>, name: &str) -> (r: String)
    ensures
        r@ == optional(text::texts(header@), text::texts(row@), name@),
{
    match find_column(header, name) {
        Some(i) => text::trim(rows::cell_of(row, i), Class::White),
        None => {
            let none = String::new();
            assert(none@ =~= Seq::empty());
            none
        },
    }
}

fn at_of(path: &str, n: usize) -> (r: String)
    ensures
        r@ == at(path@, n as int),
{
    let mut out = text::copy(path);
    out.append(" row ");
    out.append(text::number(n).as_str());
    out
}

fn cell(row: &Vec<String>, i: usize, name: &str, path: &str, n: usize) -> (r: Result<String, Refusal>)
    ensures
        match r {
            Ok(s) => needed(text::texts(row@), i as int) == Some(s@),
            Err(e) => needed(text::texts(row@), i as int) is None && e@ == no_cell(
                path@,
                n as int,
                name@,
            ),
        },
{
    if i < row.len() {
        assert(text::texts(row@)[i as int] == row@[i as int]@);
        Ok(text::trim(row[i].as_str(), Class::White))
    } else {
        let mut out = at_of(path, n);
        out.append(" has no ");
        out.append(name);
        out.append(" cell");
        Err(Refusal { message: out })
    }
}

fn cannot_parse(what: &str, cell: &str, n: usize) -> (r: Refusal)
    ensures
        r@ == unparseable(what@, cell@, n as int),
{
    let mut out = text::copy(what);
    out.append(" ");
    out.append(text::quoted(cell).as_str());
    out.append(" at row ");
    out.append(text::number(n).as_str());
    Refusal { message: out }
}

fn currency_of(code: &str, n: usize) -> (r: Result<Currency, Refusal>)
    ensures
        match r {
            Ok(c) => currency_in(code@, n as int) == Ok::<Currency, Seq<char>>(c),
            Err(e) => currency_in(code@, n as int) == Err::<Currency, Seq<char>>(e@),
        },
{
    if code.unicode_len() == 0 {
        return Ok(Currency::TWD);
    }
    match Currency::parse(code) {
        Some(c) => Ok(c),
        None => Err(cannot_parse("unknown currency", code, n)),
    }
}

fn transaction(header: &Vec<String>, columns: &Columns, row: &Vec<String>, path: &str, n: usize) -> (r:
    Result<Draft, Refusal>)
    ensures
        match r {
            Ok(t) => transaction_in(
                text::texts(header@),
                (
                    columns.date as int,
                    columns.account as int,
                    columns.contra as int,
                    columns.amount as int,
                ),
                text::texts(row@),
                path@,
                n as int,
            ) == Ok::<DraftV, Seq<char>>(t@),
            Err(e) => transaction_in(
                text::texts(header@),
                (
                    columns.date as int,
                    columns.account as int,
                    columns.contra as int,
                    columns.amount as int,
                ),
                text::texts(row@),
                path@,
                n as int,
            ) == Err::<DraftV, Seq<char>>(e@),
        },
{
    let day_cell = cell(row, columns.date, "date", path, n)?;
    let date = match Date::parse(day_cell.as_str(), "%Y-%m-%d") {
        Some(d) => d,
        None => return Err(cannot_parse("unparseable date", day_cell.as_str(), n)),
    };
    let amount_cell = cell(row, columns.amount, "amount", path, n)?;
    let amount = match Amount::parse(text::keep(amount_cell.as_str(), Class::NotComma).as_str()) {
        Some(a) => a,
        None => return Err(cannot_parse("unparseable amount", amount_cell.as_str(), n)),
    };
    let account = cell(row, columns.account, "account", path, n)?;
    let contra = cell(row, columns.contra, "contra", path, n)?;
    if account.as_str().unicode_len() == 0 || contra.as_str().unicode_len() == 0 {
        let mut out = at_of(path, n);
        out.append(" has an empty account or contra");
        return Err(Refusal { message: out });
    }
    let currency = currency_of(optional_of(header, row, "currency").as_str(), n)?;
    let tags = text::split_runs(optional_of(header, row, "tags").as_str(), Class::Tag);
    let mut postings: Vec<Posting> = Vec::new();
    postings.push(Posting::new(account.as_str(), amount, currency));
    postings.push(Posting::new(contra.as_str(), amount.negated(), currency));
    assert(model::posting_views(postings@) =~= seq![
        model::leg(account@, amount@, currency),
        model::leg(contra@, amount::negated(amount@), currency),
    ]);
    Ok(
        Draft {
            date,
            payee: optional_of(header, row, "payee"),
            narration: optional_of(header, row, "narration"),
            tags,
            source: Source::Manual,
            external_ref: None,
            postings,
        },
    )
}

/// The transactions the rows of the file at `path` hold.
pub fn from_rows(records: &Vec<Record>, path: &str) -> (r: Result<Vec<Draft>, Refusal>)
    ensures
        match r {
            Ok(v) => loaded(rows::row_views(records@), path@) == Ok::<Seq<DraftV>, Seq<char>>(
                draft_views(v@),
            ),
            Err(e) => loaded(rows::row_views(records@), path@) == Err::<Seq<DraftV>, Seq<char>>(e@),
        },
{
    let ghost all = rows::row_views(records@);
    let none: Vec<String> = Vec::new();
    assert(text::texts(none@) =~= Seq::empty());
    let header: &Vec<String> = if records.len() == 0 {
        &none
    } else {
        assert(all[0] == rows::row_view(records@[0]));
        match &records[0] {
            Ok(h) => h,
            Err(_) => {
                let mut out = text::copy("reading the header of ");
                out.append(path);
                return Err(Refusal { message: out });
            },
        }
    };
    let ghost names = text::texts(header@);
    assert(names.len() == header@.len());
    assert(header_of(all) == Some(names));
    let columns = Columns {
        date: require(header, "date", path)?,
        account: require(header, "account", path)?,
        contra: require(header, "contra", path)?,
        amount: require(header, "amount", path)?,
    };
    let ghost cs = (
        columns.date as int,
        columns.account as int,
        columns.contra as int,
        columns.amount as int,
    );
    assert(columns_of(names, path@) == Ok::<(int, int, int, int), Seq<char>>(cs));
    let ghost body = if all.len() == 0 {
        all
    } else {
        all.skip(1)
    };
    let mut out: Vec<Draft> = Vec::new();
    let mut n: usize = 1;
    assert(draft_views(out@) =~= Seq::empty());
    assert(body.take(0) =~= Seq::empty());
    while n < records.len()
        invariant
            1 <= n,
            n <= records@.len() || (n == 1 && records@.len() == 0),
            all == rows::row_views(records@),
            body == (if all.len() == 0 {
                all
            } else {
                all.skip(1)
            }),
            names == text::texts(header@),
            header_of(all) == Some(names),
            columns_of(names, path@) == Ok::<(int, int, int, int), Seq<char>>(cs),
            cs == (
                columns.date as int,
                columns.account as int,
                columns.contra as int,
                columns.amount as int,
            ),
            transactions_in(names, cs, body.take(n - 1), path@) == Ok::<Seq<DraftV>, Seq<char>>(
                draft_views(out@),
            ),
        decreases records@.len() - n,
    {
        let ghost before = out@;
        assert(body[n - 1] == all[n as int]);
        assert(all[n as int] == rows::row_view(records@[n as int]));
        assert(body.take(n as int).drop_last() =~= body.take(n - 1));
        match &records[n] {
            Err(_) => {
                proof {
                    refused_records_stay(names, cs, body, path@, n as int);
                }
                let mut why = text::copy("reading ");
                why.append(at_of(path, n).as_str());
                return Err(Refusal { message: why });
            },
            Ok(row) => match transaction(header, &columns, row, path, n) {
                Ok(t) => {
                    out.push(t);
                    assert(draft_views(out@) =~= draft_views(before).push(t@));
                },
                Err(e) => {
                    proof {
                        refused_records_stay(names, cs, body, path@, n as int);
                    }
                    return Err(e);
                },
            },
        }
        n = n + 1;
    }
    assert(body.take(n - 1) =~= body);
    Ok(out)
}

/// The transactions the file at `path` holds, of its bytes.
pub fn load(bytes: &[u8], path: &str) -> (r: Result<Vec<Draft>, Refusal>)
    ensures
        match r {
            Ok(v) => loaded(rows::csv_rows(bytes@, Some(35u8)), path@) == Ok::<
                Seq<DraftV>,
                Seq<char>,
            >(draft_views(v@)),
            Err(e) => loaded(rows::csv_rows(bytes@, Some(35u8)), path@) == Err::<
                Seq<DraftV>,
                Seq<char>,
            >(e@),
        },
{
    let records = rows::read_rows(bytes, Some(35u8));
    from_rows(&records, path)
}

/// A hand-typed entry cannot be out of balance: what its contra is posted is
/// the negation of what its account is.
pub proof fn a_manual_row_balances(
    header: Seq<Seq<char>>,
    columns: (int, int, int, int),
    row: Seq<Seq<char>>,
    path: Seq<char>,
    n: int,
)
    requires
        transaction_in(header, columns, row, path, n) is Ok,
    ensures
        ({
            let legs = transaction_in(header, columns, row, path, n)->Ok_0.postings;
            &&& legs.len() == 2
            &&& legs[0].currency == legs[1].currency
            &&& amount::worth(legs[0].amount) + amount::worth(legs[1].amount) == 0
        }),
{
    let legs = transaction_in(header, columns, row, path, n)->Ok_0.postings;
    amount::negated_worth(legs[0].amount);
}

/// Does the header name a column at `i`, and not behind it?
pub open spec fn stands_at(header: Seq<Seq<char>>, name: Seq<char>, i: int) -> bool {
    &&& 0 <= i < header.len()
    &&& text::lowered(text::trimmed(header[i], Class::White)) == name
    &&& forall|j: int|
        i < j < header.len() ==> text::lowered(text::trimmed(#[trigger] header[j], Class::White))
            != name
}

proof fn column_is_the_last(header: Seq<Seq<char>>, name: Seq<char>, n: int)
    requires
        0 <= n <= header.len(),
    ensures
        match column(header, name, n) {
            Some(i) => 0 <= i < n && text::lowered(text::trimmed(header[i], Class::White)) == name
                && forall|j: int|
                i < j < n ==> text::lowered(text::trimmed(#[trigger] header[j], Class::White))
                    != name,
            None => forall|j: int|
                0 <= j < n ==> text::lowered(text::trimmed(#[trigger] header[j], Class::White))
                    != name,
        },
    decreases n,
{
    if n > 0 && text::lowered(text::trimmed(header[n - 1], Class::White)) != name {
        column_is_the_last(header, name, n - 1);
    }
}

/// The columns of a file are those its header names.
pub proof fn columns_stand_where_they_are_named(header: Seq<Seq<char>>, path: Seq<char>)
    ensures
        columns_of(header, path) matches Ok((d, a, c, m)) ==> stands_at(header, "date"@, d)
            && stands_at(header, "account"@, a) && stands_at(header, "contra"@, c) && stands_at(
            header,
            "amount"@,
            m,
        ),
{
    let n = header.len() as int;
    column_is_the_last(header, "date"@, n);
    column_is_the_last(header, "account"@, n);
    column_is_the_last(header, "contra"@, n);
    column_is_the_last(header, "amount"@, n);
}

/// A row posts the amount of its amount cell, without commas, to the account
/// of its account cell, and takes it from that of its contra cell, on the day
/// of its date cell.
pub proof fn a_manual_row_moves_from_its_contra(
    header: Seq<Seq<char>>,
    columns: (int, int, int, int),
    row: Seq<Seq<char>>,
    path: Seq<char>,
    n: int,
)
    requires
        transaction_in(header, columns, row, path, n) is Ok,
    ensures
        ({
            let t = transaction_in(header, columns, row, path, n)->Ok_0;
            let a = amount::spelled(
                text::kept(text::trimmed(row[columns.3], Class::White), Class::NotComma),
            );
            &&& 0 <= columns.0 < row.len() && 0 <= columns.1 < row.len() && 0 <= columns.2
                < row.len() && 0 <= columns.3 < row.len()
            &&& a is Some
            &&& t.postings.len() == 2
            &&& t.postings[0].account == text::trimmed(row[columns.1], Class::White)
            &&& t.postings[1].account == text::trimmed(row[columns.2], Class::White)
            &&& amount::worth(t.postings[0].amount) == amount::worth(a->0)
            &&& amount::worth(t.postings[1].amount) == -amount::worth(a->0)
            &&& t.postings[0].account.len() > 0
            &&& t.postings[1].account.len() > 0
            &&& date::parsed_date(text::trimmed(row[columns.0], Class::White), "%Y-%m-%d"@)
                matches Some(day) && t.date == day
            &&& t.source == Source::Manual
            &&& t.external_ref is None
        }),
{
    let t = transaction_in(header, columns, row, path, n)->Ok_0;
    amount::negated_worth(t.postings[0].amount);
}

proof fn each_row_is_read(
    header: Seq<Seq<char>>,
    columns: (int, int, int, int),
    records: Seq<Result<Seq<Seq<char>>, Seq<char>>>,
    path: Seq<char>,
    i: int,
)
    requires
        transactions_in(header, columns, records, path) is Ok,
        0 <= i < records.len(),
    ensures
        transactions_in(header, columns, records, path)->Ok_0.len() == records.len(),
        records[i] is Ok,
        transaction_in(header, columns, records[i]->Ok_0, path, i + 1) == Ok::<DraftV, Seq<char>>(
            transactions_in(header, columns, records, path)->Ok_0[i],
        ),
    decreases records.len(),
{
    reveal_with_fuel(transactions_in, 2);
    if i < records.len() - 1 {
        each_row_is_read(header, columns, records.drop_last(), path, i);
    } else if records.len() > 1 {
        each_row_is_read(header, columns, records.drop_last(), path, 0);
    }
}

/// Every row behind the header is one transaction, in order.
pub proof fn every_manual_row_is_a_transaction(
    records: Seq<Result<Seq<Seq<char>>, Seq<char>>>,
    path: Seq<char>,
    i: int,
)
    requires
        loaded(records, path) is Ok,
        0 < i < records.len(),
    ensures
        ({
            let header = records[0]->Ok_0;
            &&& records[0] is Ok
            &&& records[i] is Ok
            &&& columns_of(header, path) is Ok
            &&& loaded(records, path)->Ok_0.len() == records.len() - 1
            &&& transaction_in(
                header,
                columns_of(header, path)->Ok_0,
                records[i]->Ok_0,
                path,
                i,
            ) == Ok::<DraftV, Seq<char>>(loaded(records, path)->Ok_0[i - 1])
        }),
{
    let header = records[0]->Ok_0;
    each_row_is_read(header, columns_of(header, path)->Ok_0, records.skip(1), path, i - 1);
}

/// A row is in the currency its cell names, TWD where it is blank or there is
/// none, and says what its payee and narration cells say.
pub proof fn a_manual_row_says_what_its_cells_say(
    header: Seq<Seq<char>>,
    columns: (int, int, int, int),
    row: Seq<Seq<char>>,
    path: Seq<char>,
    n: int,
    i: int,
)
    requires
        transaction_in(header, columns, row, path, n) is Ok,
    ensures
        ({
            let t = transaction_in(header, columns, row, path, n)->Ok_0;
            let cell = text::trimmed(rows::cell(row, i), Class::White);
            let c = t.postings[0].currency;
            &&& t.postings[1].currency == c
            &&& stands_at(header, "currency"@, i) ==> if cell.len() == 0 {
                c == Currency::TWD
            } else {
                currency::of_code(cell) == Some(c)
            }
            &&& stands_at(header, "payee"@, i) ==> t.payee == cell
            &&& stands_at(header, "narration"@, i) ==> t.narration == cell
            &&& stands_at(header, "tags"@, i) ==> t.tags == text::runs(cell, Class::Tag)
        }),
{
    last_column(header, "currency"@, i);
    last_column(header, "payee"@, i);
    last_column(header, "narration"@, i);
    last_column(header, "tags"@, i);
}

proof fn last_column(header: Seq<Seq<char>>, name: Seq<char>, i: int)
    ensures
        stands_at(header, name, i) ==> column(header, name, header.len() as int) == Some(i),
{
    column_is_the_last(header, name, header.len() as int);
    if stands_at(header, name, i) {
        match column(header, name, header.len() as int) {
            Some(k) => {
                if i < k {
                    assert(text::lowered(text::trimmed(header[k], Class::White)) != name);
                } else if k < i {
                    assert(text::lowered(text::trimmed(header[i], Class::White)) != name);
                }
            },
            None => {
                assert(text::lowered(text::trimmed(header[i], Class::White)) != name);
            },
        }
    }
}

} // verus!
